//! Utilities for tagged tokens: converting between the string and the
//! tuple representation of a token tagged with a part-of-speech mark.

use crate::text::{chars_vec, match_at, string_from_chars, subvec};
use vstd::prelude::*;

verus! {

use vstd::string::StringExecFns;

/// The rightmost position at or before `i` where `pat` occurs in `s`, or
/// `-1` when there is none.
pub open spec fn rfind_from(s: Seq<char>, pat: Seq<char>, i: int) -> int
    decreases i + 1,
{
    if i < 0 {
        -1
    } else if match_at(s, pat, i) {
        i
    } else {
        rfind_from(s, pat, i - 1)
    }
}

/// The rightmost occurrence of `pat` in `s`, if any.
fn rfind_exec(s: &Vec<char>, pat: &Vec<char>) -> (r: Option<usize>)
    ensures
        match r {
            Some(f) => f == rfind_from(s@, pat@, s@.len() - pat@.len()),
            None => rfind_from(s@, pat@, s@.len() - pat@.len()) == -1,
        },
{
    if pat.len() == 0 {
        let f = s.len();
        proof {
            assert(s@.subrange(f as int, f as int) =~= pat@);
            assert(match_at(s@, pat@, f as int));
        }
        return Some(f);
    }
    if pat.len() > s.len() {
        return None;
    }
    let last = s.len() - pat.len();
    let mut i: usize = last + 1;
    while i > 0
        invariant
            1 <= pat@.len() <= s@.len(),
            last == s@.len() - pat@.len(),
            i <= last + 1,
            rfind_from(s@, pat@, last as int) == rfind_from(s@, pat@, i - 1),
        decreases i,
    {
        i = i - 1;
        if crate::text::match_at_exec(s, pat, i) {
            return Some(i);
        }
        proof {
            assert(rfind_from(s@, pat@, i as int) == rfind_from(s@, pat@, i - 1));
        }
    }
    None
}

/// Given the string representation of a tagged token, return the
/// corresponding tuple representation.  The rightmost occurrence of `sep`
/// in `s` divides `s` into a word string and a tag string; if `sep` does
/// not occur in `s`, the whole of `s` is the word, and there is no tag.
pub fn str2tuple(s: &str, sep: &str) -> (r: (String, Option<String>))
    ensures
        ({
            let f = rfind_from(s@, sep@, s@.len() - sep@.len());
            match r.1 {
                Some(tag) => f >= 0 && r.0@ == s@.subrange(0, f) && tag@ == s@.skip(
                    f + sep@.len(),
                ),
                None => f < 0 && r.0@ == s@,
            }
        }),
{
    let sv = chars_vec(s);
    let pv = chars_vec(sep);
    match rfind_exec(&sv, &pv) {
        Some(f) => {
            proof {
                lemma_rfind_match(sv@, pv@, sv@.len() - pv@.len());
                assert(match_at(sv@, pv@, f as int));
                assert(f + pv@.len() <= sv@.len());
            }
            let n = sv.len();
            proof {
                assert(f + pv@.len() <= n);
            }
            let word = subvec(&sv, 0, f);
            let tag = subvec(&sv, f + pv.len(), n);
            proof {
                assert(tag@ =~= s@.skip(f + sep@.len()));
            }
            (string_from_chars(&word), Some(string_from_chars(&tag)))
        },
        None => {
            let whole = subvec(&sv, 0, sv.len());
            proof {
                assert(whole@ =~= s@);
            }
            (string_from_chars(&whole), None)
        },
    }
}

/// A found rightmost occurrence really is an occurrence.
proof fn lemma_rfind_match(s: Seq<char>, pat: Seq<char>, i: int)
    ensures
        rfind_from(s, pat, i) >= 0 ==> match_at(s, pat, rfind_from(s, pat, i)),
    decreases i + 1,
{
    if i >= 0 && !match_at(s, pat, i) {
        lemma_rfind_match(s, pat, i - 1);
    }
}

/// Given the tuple representation of a tagged token, return the
/// corresponding string representation: the token's word string, followed
/// by the separator, followed by the token's tag.  If the tag is absent,
/// just the bare word string.
pub fn tuple2str(token: (&str, Option<&str>), sep: &str) -> (r: String)
    ensures
        match token.1 {
            Some(tag) => r@ == token.0@ + sep@ + tag@,
            None => r@ == token.0@,
        },
{
    let mut r = String::from_str(token.0);
    match token.1 {
        Some(tag) => {
            r.append(sep);
            r.append(tag);
            r
        },
        None => r,
    }
}

/// Given a tagged sentence, return an untagged version of that sentence:
/// a list containing the first element of each tagged pair.
pub fn untag(tagged_sentence: &Vec<(String, String)>) -> (r: Vec<String>)
    ensures
        r@.len() == tagged_sentence@.len(),
        forall|i: int| 0 <= i < r@.len() ==> (#[trigger] r@[i])@ == tagged_sentence@[i].0@,
{
    let mut r: Vec<String> = Vec::new();
    let mut i: usize = 0;
    while i < tagged_sentence.len()
        invariant
            i <= tagged_sentence@.len(),
            r@.len() == i,
            forall|j: int| 0 <= j < i ==> (#[trigger] r@[j])@ == tagged_sentence@[j].0@,
        decreases tagged_sentence@.len() - i,
    {
        r.push(tagged_sentence[i].0.clone());
        i = i + 1;
    }
    r
}

} // verus!
