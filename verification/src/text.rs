//! Verified text primitives: matching, searching, splitting, replacing and
//! joining runs of characters.  The tokenizers and the tagger utilities are
//! built on these, together with the grapheme segmentation of the
//! `unicode-segmentation` crate, which is trusted through the wrappers
//! declared here.

use vstd::prelude::*;

verus! {

use vstd::string::StrSliceExecFns;

/// Whether `pat` occurs in `s` at position `i`.
pub open spec fn match_at(s: Seq<char>, pat: Seq<char>, i: int) -> bool {
    0 <= i && i + pat.len() <= s.len() && s.subrange(i, i + pat.len()) == pat
}

/// The first position at or after `i` where `pat` occurs in `s`, or `-1`
/// when there is none.
pub open spec fn find_from(s: Seq<char>, pat: Seq<char>, i: int) -> int
    decreases s.len() - i,
{
    if i < 0 || i + pat.len() > s.len() {
        -1
    } else if match_at(s, pat, i) {
        i
    } else if i >= s.len() {
        -1
    } else {
        find_from(s, pat, i + 1)
    }
}

/// What `find_from` returns: the first match position, if any.
pub proof fn lemma_find_from(s: Seq<char>, pat: Seq<char>, i: int)
    requires
        i >= 0,
    ensures
        find_from(s, pat, i) >= 0 ==> find_from(s, pat, i) >= i && match_at(
            s,
            pat,
            find_from(s, pat, i),
        ),
        find_from(s, pat, i) >= 0 ==> forall|j: int| i <= j < find_from(s, pat, i) ==> !match_at(s, pat, j),
        find_from(s, pat, i) < 0 ==> forall|j: int| j >= i ==> !match_at(s, pat, j),
    decreases s.len() - i,
{
    if i + pat.len() > s.len() {
    } else if match_at(s, pat, i) {
    } else if i >= s.len() {
    } else {
        lemma_find_from(s, pat, i + 1);
    }
}

/// Matching is stable under dropping a prefix.
pub proof fn lemma_match_shift(s: Seq<char>, pat: Seq<char>, k: int, i: int)
    requires
        0 <= k <= s.len(),
        i >= 0,
    ensures
        match_at(s, pat, k + i) == match_at(s.skip(k), pat, i),
{
    if k + i + pat.len() <= s.len() {
        assert(s.skip(k).subrange(i, i + pat.len()) =~= s.subrange(k + i, k + i + pat.len()));
    }
}

/// The pieces of `s` between the occurrences of the separator `sep`,
/// scanning left to right; with no occurrence the run itself is the one
/// piece.  A separator at the very start or end contributes an empty
/// piece, as does a run of two separators.
pub open spec fn split_at_seps(s: Seq<char>, sep: Seq<char>) -> Seq<Seq<char>>
    decreases s.len(),
{
    if sep.len() == 0 {
        seq![s]
    } else {
        let f = find_from(s, sep, 0);
        if f < 0 || f + sep.len() > s.len() {
            seq![s]
        } else {
            seq![s.subrange(0, f)] + split_at_seps(s.skip(f + sep.len()), sep)
        }
    }
}

/// Replace every occurrence of `pat` in `s` by `rep`, scanning left to
/// right without overlap, as the standard string replacement does.
pub open spec fn replace_chars(s: Seq<char>, pat: Seq<char>, rep: Seq<char>) -> Seq<char>
    decreases s.len(),
{
    if pat.len() == 0 || s.len() == 0 {
        s
    } else if match_at(s, pat, 0) {
        rep + replace_chars(s.skip(pat.len() as int), pat, rep)
    } else {
        seq![s[0]] + replace_chars(s.skip(1), pat, rep)
    }
}

/// The concatenation of `parts` with `sep` between neighbouring parts.
pub open spec fn join_chars(parts: Seq<Seq<char>>, sep: Seq<char>) -> Seq<char>
    decreases parts.len(),
{
    if parts.len() == 0 {
        Seq::empty()
    } else if parts.len() == 1 {
        parts[0]
    } else {
        parts[0] + sep + join_chars(parts.drop_first(), sep)
    }
}

/// The characters of a string slice, as a vector.
pub fn chars_vec(s: &str) -> (r: Vec<char>)
    ensures
        r@ == s@,
{
    let n = s.unicode_len();
    let mut r: Vec<char> = Vec::new();
    let mut i: usize = 0;
    while i < n
        invariant
            n == s@.len(),
            i <= n,
            r@ =~= s@.take(i as int),
        decreases n - i,
    {
        r.push(s.get_char(i));
        i = i + 1;
    }
    proof {
        assert(s@.take(n as int) =~= s@);
    }
    r
}

/// Relies on `String::push` of std: it appends the given character to the
/// end of the string.
#[verifier::external_body]
fn push_char(s: &mut String, c: char)
    ensures
        final(s)@ == old(s)@.push(c),
{
    s.push(c);
}

/// A string holding exactly the given characters.
pub fn string_from_chars(v: &Vec<char>) -> (r: String)
    ensures
        r@ == v@,
{
    let mut r = String::new();
    let mut i: usize = 0;
    while i < v.len()
        invariant
            i <= v@.len(),
            r@ =~= v@.take(i as int),
        decreases v@.len() - i,
    {
        push_char(&mut r, v[i]);
        i = i + 1;
    }
    proof {
        assert(v@.take(v@.len() as int) =~= v@);
    }
    r
}

/// The characters of `s` from position `a` up to (excluding) `b`.
pub fn subvec(s: &Vec<char>, a: usize, b: usize) -> (r: Vec<char>)
    requires
        a <= b <= s@.len(),
    ensures
        r@ == s@.subrange(a as int, b as int),
{
    let mut r: Vec<char> = Vec::new();
    let mut i: usize = a;
    while i < b
        invariant
            a <= i <= b <= s@.len(),
            r@ =~= s@.subrange(a as int, i as int),
        decreases b - i,
    {
        r.push(s[i]);
        i = i + 1;
    }
    r
}

/// Whether `pat` occurs in `s` at position `i`.
pub fn match_at_exec(s: &Vec<char>, pat: &Vec<char>, i: usize) -> (r: bool)
    ensures
        r == match_at(s@, pat@, i as int),
{
    if i > s.len() || pat.len() > s.len() - i {
        return false;
    }
    let mut j: usize = 0;
    while j < pat.len()
        invariant
            i + pat@.len() <= s@.len() <= usize::MAX,
            j <= pat@.len(),
            forall|k: int| 0 <= k < j ==> s@[i + k] == pat@[k],
        decreases pat@.len() - j,
    {
        if s[i + j] != pat[j] {
            proof {
                assert(s@.subrange(i as int, i + pat@.len())[j as int] != pat@[j as int]);
            }
            return false;
        }
        j = j + 1;
    }
    proof {
        assert(s@.subrange(i as int, i + pat@.len()) =~= pat@);
    }
    true
}

/// The first position at or after `from` where `pat` occurs in `s`.
pub fn find_from_exec(s: &Vec<char>, pat: &Vec<char>, from: usize) -> (r: Option<usize>)
    ensures
        match r {
            Some(f) => f == find_from(s@, pat@, from as int),
            None => find_from(s@, pat@, from as int) == -1,
        },
{
    if pat.len() == 0 {
        if from <= s.len() {
            proof {
                assert(s@.subrange(from as int, from as int) =~= pat@);
            }
            return Some(from);
        }
        return None;
    }
    if pat.len() > s.len() {
        return None;
    }
    let last = s.len() - pat.len();
    let mut i: usize = from;
    if i > last {
        return None;
    }
    while i <= last
        invariant
            1 <= pat@.len() <= s@.len() <= usize::MAX,
            last == s@.len() - pat@.len(),
            from <= i <= last + 1,
            find_from(s@, pat@, from as int) == find_from(s@, pat@, i as int),
        decreases last + 1 - i,
    {
        if match_at_exec(s, pat, i) {
            return Some(i);
        }
        i = i + 1;
    }
    None
}

/// The pieces of `s` between the occurrences of `sep`.
pub fn split_exec(s: &Vec<char>, sep: &Vec<char>) -> (r: Vec<Vec<char>>)
    requires
        sep@.len() >= 1,
    ensures
        r@.map_values(|p: Vec<char>| p@) == split_at_seps(s@, sep@),
        r@.len() >= 1,
    decreases s@.len(),
{
    match find_from_exec(s, sep, 0) {
        None => {
            let piece = subvec(s, 0, s.len());
            let mut r: Vec<Vec<char>> = Vec::new();
            r.push(piece);
            proof {
                assert(s@.subrange(0, s@.len() as int) =~= s@);
                assert(r@.map_values(|p: Vec<char>| p@) =~= split_at_seps(s@, sep@));
            }
            r
        },
        Some(f) => {
            let n = s.len();
            proof {
                lemma_find_from(s@, sep@, 0);
                assert(match_at(s@, sep@, f as int));
                assert(f + sep@.len() <= s@.len());
            }
            let head = subvec(s, 0, f);
            let tail = subvec(s, f + sep.len(), n);
            proof {
                assert(tail@ =~= s@.skip(f + sep@.len()));
            }
            let mut rest = split_exec(&tail, sep);
            let mut r: Vec<Vec<char>> = Vec::new();
            r.push(head);
            r.append(&mut rest);
            proof {
                assert(r@.map_values(|p: Vec<char>| p@) =~= split_at_seps(s@, sep@));
            }
            r
        },
    }
}

/// Replace every occurrence of `pat` in `s` by `rep`, scanning left to
/// right without overlap.
pub fn replace_exec(s: &Vec<char>, pat: &Vec<char>, rep: &Vec<char>) -> (r: Vec<char>)
    ensures
        r@ == replace_chars(s@, pat@, rep@),
{
    if pat.len() == 0 {
        return subvec(s, 0, s.len());
    }
    let mut out: Vec<char> = Vec::new();
    let mut pos: usize = 0;
    proof {
        assert(s@.skip(0) =~= s@);
        assert(out@ + replace_chars(s@, pat@, rep@) =~= replace_chars(s@, pat@, rep@));
    }
    while pos < s.len()
        invariant
            pat@.len() >= 1,
            pos <= s@.len(),
            out@ + replace_chars(s@.skip(pos as int), pat@, rep@) == replace_chars(
                s@,
                pat@,
                rep@,
            ),
        decreases s@.len() - pos,
    {
        let ghost rem = s@.skip(pos as int);
        if match_at_exec(s, pat, pos) {
            proof {
                lemma_match_shift(s@, pat@, pos as int, 0);
                assert(match_at(rem, pat@, 0));
                assert(rem.skip(pat@.len() as int) =~= s@.skip(pos + pat@.len()));
                assert(replace_chars(rem, pat@, rep@) == rep@ + replace_chars(
                    s@.skip(pos + pat@.len()),
                    pat@,
                    rep@,
                ));
            }
            let ghost out0 = out@;
            let mut j: usize = 0;
            while j < rep.len()
                invariant
                    j <= rep@.len(),
                    out@ =~= out0 + rep@.take(j as int),
                decreases rep@.len() - j,
            {
                out.push(rep[j]);
                j = j + 1;
            }
            proof {
                assert(out@ =~= out0 + rep@);
                assert(out0 + rep@ + replace_chars(s@.skip(pos + pat@.len()), pat@, rep@) =~= out0
                    + (rep@ + replace_chars(s@.skip(pos + pat@.len()), pat@, rep@)));
            }
            pos = pos + pat.len();
        } else {
            proof {
                lemma_match_shift(s@, pat@, pos as int, 0);
                assert(!match_at(rem, pat@, 0));
                assert(rem.skip(1) =~= s@.skip(pos + 1));
                assert(rem[0] == s@[pos as int]);
                assert(replace_chars(rem, pat@, rep@) == seq![s@[pos as int]] + replace_chars(
                    s@.skip(pos + 1),
                    pat@,
                    rep@,
                ));
                assert(out@ + seq![s@[pos as int]] + replace_chars(s@.skip(pos + 1), pat@, rep@)
                    =~= out@ + (seq![s@[pos as int]] + replace_chars(s@.skip(pos + 1), pat@, rep@)));
                assert((out@ + seq![s@[pos as int]]) =~= out@.push(s@[pos as int]));
            }
            out.push(s[pos]);
            pos = pos + 1;
        }
    }
    proof {
        assert(s@.skip(s@.len() as int) =~= Seq::<char>::empty());
        assert(replace_chars(Seq::<char>::empty(), pat@, rep@) == Seq::<char>::empty());
        assert(out@ + Seq::<char>::empty() =~= out@);
    }
    out
}

/// The concatenation of `parts` with `sep` between neighbouring parts.
pub fn join_exec(parts: &Vec<Vec<char>>, sep: &Vec<char>) -> (r: Vec<char>)
    ensures
        r@ == join_chars(parts@.map_values(|p: Vec<char>| p@), sep@),
    decreases parts@.len(),
{
    let ghost model = parts@.map_values(|p: Vec<char>| p@);
    let mut out: Vec<char> = Vec::new();
    let mut i: usize = 0;
    while i < parts.len()
        invariant
            model == parts@.map_values(|p: Vec<char>| p@),
            i <= parts@.len(),
            i == 0 ==> out@ =~= Seq::<char>::empty(),
            i > 0 ==> out@ =~= join_chars(model.take(i as int), sep@),
        decreases parts@.len() - i,
    {
        let ghost out0 = out@;
        if i > 0 {
            let mut j: usize = 0;
            while j < sep.len()
                invariant
                    j <= sep@.len(),
                    out@ =~= out0 + sep@.take(j as int),
                decreases sep@.len() - j,
            {
                out.push(sep[j]);
                j = j + 1;
            }
        }
        let ghost out1 = out@;
        let mut j: usize = 0;
        while j < parts[i].len()
            invariant
                i < parts@.len(),
                j <= parts@[i as int]@.len(),
                out@ =~= out1 + parts@[i as int]@.take(j as int),
            decreases parts@[i as int]@.len() - j,
        {
            out.push(parts[i][j]);
            j = j + 1;
        }
        proof {
            if i == 0 {
                assert(out@ =~= model[0]);
                assert(model.take(1)[0] == model[0]);
                lemma_join_take_step(model, sep@, 1);
                assert(out@ =~= join_chars(model.take(1), sep@));
            } else {
                assert(out@ =~= join_chars(model.take(i as int), sep@) + sep@ + model[i as int]);
                lemma_join_take_step(model, sep@, i + 1);
                assert(out@ =~= join_chars(model.take(i + 1), sep@));
            }
        }
        i = i + 1;
    }
    proof {
        if parts@.len() == 0 {
        } else {
            assert(model.take(model.len() as int) =~= model);
        }
    }
    out
}

/// Joining one more part appends a separator and that part.
proof fn lemma_join_take_step(parts: Seq<Seq<char>>, sep: Seq<char>, k: int)
    requires
        1 <= k <= parts.len(),
    ensures
        k == 1 ==> join_chars(parts.take(k), sep) == parts[0],
        k > 1 ==> join_chars(parts.take(k), sep) == join_chars(parts.take(k - 1), sep) + sep
            + parts[k - 1],
    decreases k,
{
    if k == 1 {
        assert(parts.take(1).len() == 1);
        assert(join_chars(parts.take(1), sep) == parts.take(1)[0]);
    } else {
        lemma_join_assoc(parts.take(k), sep);
        assert(parts.take(k).drop_last() =~= parts.take(k - 1));
        assert(parts.take(k).last() == parts[k - 1]);
    }
}

/// Joining splits at the last part.
proof fn lemma_join_assoc(parts: Seq<Seq<char>>, sep: Seq<char>)
    requires
        parts.len() >= 2,
    ensures
        join_chars(parts, sep) == join_chars(parts.drop_last(), sep) + sep + parts.last(),
    decreases parts.len(),
{
    if parts.len() == 2 {
        assert(parts.drop_first().len() == 1);
        assert(join_chars(parts.drop_first(), sep) == parts.drop_first()[0]);
        assert(parts.drop_first()[0] == parts[1]);
        assert(parts.drop_last().len() == 1);
        assert(join_chars(parts.drop_last(), sep) == parts.drop_last()[0]);
        assert(parts.drop_last()[0] == parts[0]);
        assert(join_chars(parts, sep) == parts[0] + sep + join_chars(parts.drop_first(), sep));
    } else {
        lemma_join_assoc(parts.drop_first(), sep);
        assert(parts.drop_first().drop_last() =~= parts.drop_last().drop_first());
        assert(parts.drop_first().last() == parts.last());
        assert(parts.drop_last()[0] == parts[0]);
        assert(join_chars(parts.drop_last(), sep) == parts.drop_last()[0] + sep + join_chars(
            parts.drop_last().drop_first(),
            sep,
        ));
        assert(join_chars(parts, sep) =~= join_chars(parts.drop_last(), sep) + sep + parts.last());
    }
}

/// The sum of a run of integers.
pub open spec fn sum_int(lens: Seq<int>) -> int
    decreases lens.len(),
{
    if lens.len() == 0 {
        0
    } else {
        lens[0] + sum_int(lens.drop_first())
    }
}

/// The byte lengths of a run of pieces, under the standard encoding.
pub open spec fn byte_lens(pieces: Seq<Seq<char>>) -> Seq<int> {
    pieces.map_values(|p: Seq<char>| vstd::utf8::encode_utf8(p).len() as int)
}

/// Encoding distributes over concatenation.
pub proof fn lemma_encode_concat(a: Seq<char>, b: Seq<char>)
    ensures
        vstd::utf8::encode_utf8(a + b) == vstd::utf8::encode_utf8(a) + vstd::utf8::encode_utf8(b),
    decreases a.len(),
{
    if a.len() == 0 {
        assert(a + b =~= b);
        assert(vstd::utf8::encode_utf8(a) + vstd::utf8::encode_utf8(b) =~= vstd::utf8::encode_utf8(
            b,
        ));
    } else {
        lemma_encode_concat(a.drop_first(), b);
        assert((a + b).drop_first() =~= a.drop_first() + b);
        assert((a + b)[0] == a[0]);
        assert(vstd::utf8::encode_utf8(a + b) =~= vstd::utf8::encode_utf8(a)
            + vstd::utf8::encode_utf8(b));
    }
}

/// The bytes of flattened pieces are as long as the pieces' bytes summed.
pub proof fn lemma_bytes_of_pieces(pieces: Seq<Seq<char>>)
    ensures
        sum_int(byte_lens(pieces)) == vstd::utf8::encode_utf8(pieces.flatten()).len(),
    decreases pieces.len(),
{
    if pieces.len() == 0 {
        assert(pieces.flatten() =~= Seq::<char>::empty());
    } else {
        lemma_bytes_of_pieces(pieces.drop_first());
        lemma_encode_concat(pieces[0], pieces.drop_first().flatten());
        assert(byte_lens(pieces).drop_first() =~= byte_lens(pieces.drop_first()));
        assert(pieces.flatten() == pieces[0] + pieces.drop_first().flatten());
    }
}

/// A prefix sum together with the sum of the rest gives the whole sum.
pub proof fn lemma_sum_split(lens: Seq<int>, k: int)
    requires
        0 <= k <= lens.len(),
    ensures
        sum_int(lens.take(k)) + sum_int(lens.skip(k)) == sum_int(lens),
    decreases k,
{
    if k == 0 {
        assert(lens.take(0) =~= Seq::<int>::empty());
        assert(lens.skip(0) =~= lens);
    } else {
        lemma_sum_split(lens.drop_first(), k - 1);
        assert(lens.take(k).drop_first() =~= lens.drop_first().take(k - 1));
        assert(lens.skip(k) =~= lens.drop_first().skip(k - 1));
        assert(lens.take(k)[0] == lens[0]);
    }
}

/// Splitting on a separator and joining with it restores the run.
pub proof fn lemma_split_join(s: Seq<char>, sep: Seq<char>)
    requires
        sep.len() >= 1,
    ensures
        join_chars(split_at_seps(s, sep), sep) == s,
    decreases s.len(),
{
    let f = find_from(s, sep, 0);
    if f < 0 || f + sep.len() > s.len() {
        assert(split_at_seps(s, sep).len() == 1);
        assert(join_chars(split_at_seps(s, sep), sep) == s);
    } else {
        lemma_find_from(s, sep, 0);
        assert(match_at(s, sep, f));
        lemma_split_join(s.skip(f + sep.len()), sep);
        let parts = split_at_seps(s, sep);
        let rest = split_at_seps(s.skip(f + sep.len()), sep);
        assert(parts == seq![s.subrange(0, f)] + rest);
        assert(rest.len() >= 1);
        assert(parts.len() >= 2);
        assert(parts[0] == s.subrange(0, f));
        assert(parts.drop_first() =~= rest);
        assert(join_chars(parts, sep) == s.subrange(0, f) + sep + join_chars(rest, sep));
        assert(s.subrange(f, f + sep.len()) == sep);
        assert(s =~= s.subrange(0, f) + s.subrange(f, f + sep.len()) + s.skip(f + sep.len()));
    }
}

/// The bytes of a joined run are at least the pieces' bytes summed.
pub proof fn lemma_join_bytes_ge(parts: Seq<Seq<char>>, sep: Seq<char>)
    ensures
        vstd::utf8::encode_utf8(join_chars(parts, sep)).len() >= sum_int(byte_lens(parts)),
    decreases parts.len(),
{
    if parts.len() == 0 {
        assert(sum_int(byte_lens(parts)) == 0);
    } else if parts.len() == 1 {
        assert(byte_lens(parts).drop_first() =~= byte_lens(parts.drop_first()));
        assert(byte_lens(parts.drop_first()) =~= Seq::<int>::empty());
        assert(sum_int(byte_lens(parts)) == byte_lens(parts)[0] + sum_int(
            byte_lens(parts).drop_first(),
        ));
        assert(sum_int(byte_lens(parts)) == byte_lens(parts)[0]);
        assert(byte_lens(parts)[0] == vstd::utf8::encode_utf8(parts[0]).len() as int);
        assert(join_chars(parts, sep) == parts[0]);
    } else {
        lemma_join_bytes_ge(parts.drop_first(), sep);
        lemma_encode_concat(parts[0] + sep, join_chars(parts.drop_first(), sep));
        lemma_encode_concat(parts[0], sep);
        assert(join_chars(parts, sep) == parts[0] + sep + join_chars(parts.drop_first(), sep));
        assert(parts[0] + sep + join_chars(parts.drop_first(), sep) =~= (parts[0] + sep)
            + join_chars(parts.drop_first(), sep));
        assert(byte_lens(parts).drop_first() =~= byte_lens(parts.drop_first()));
        assert(sum_int(byte_lens(parts)) == byte_lens(parts)[0] + sum_int(
            byte_lens(parts.drop_first()),
        ));
        assert(byte_lens(parts)[0] == vstd::utf8::encode_utf8(parts[0]).len() as int);
        assert(vstd::utf8::encode_utf8(join_chars(parts, sep)).len() == vstd::utf8::encode_utf8(
            parts[0] + sep,
        ).len() + vstd::utf8::encode_utf8(join_chars(parts.drop_first(), sep)).len());
        assert(vstd::utf8::encode_utf8(parts[0] + sep).len() == vstd::utf8::encode_utf8(
            parts[0],
        ).len() + vstd::utf8::encode_utf8(sep).len());
    }
}

/// Every partial sum of non-negative lengths is at most the whole sum.
pub proof fn lemma_prefix_sum_le(lens: Seq<int>, k: int)
    requires
        0 <= k <= lens.len(),
        forall|i: int| 0 <= i < lens.len() ==> lens[i] >= 0,
    ensures
        sum_int(lens.take(k)) <= sum_int(lens),
        sum_int(lens.skip(k)) >= 0,
        sum_int(lens.take(k)) >= 0,
    decreases lens.len(),
{
    lemma_sum_split(lens, k);
    lemma_sum_nonneg(lens.skip(k));
    lemma_sum_nonneg(lens.take(k));
}

/// A sum of non-negative lengths is non-negative.
pub proof fn lemma_sum_nonneg(lens: Seq<int>)
    requires
        forall|i: int| 0 <= i < lens.len() ==> lens[i] >= 0,
    ensures
        sum_int(lens) >= 0,
    decreases lens.len(),
{
    if lens.len() > 0 {
        lemma_sum_nonneg(lens.drop_first());
    }
}

/// The character lengths of a run of pieces.
pub open spec fn char_lens(pieces: Seq<Seq<char>>) -> Seq<int> {
    pieces.map_values(|p: Seq<char>| p.len() as int)
}

/// The characters of a joined run: every piece and one separator between
/// neighbouring pieces.
pub proof fn lemma_join_len(parts: Seq<Seq<char>>, sep: Seq<char>)
    requires
        parts.len() >= 1,
    ensures
        join_chars(parts, sep).len() == sum_int(char_lens(parts)) + (parts.len() - 1) * sep.len(),
    decreases parts.len(),
{
    if parts.len() == 1 {
        assert(char_lens(parts).drop_first() =~= Seq::<int>::empty());
        assert(sum_int(char_lens(parts)) == char_lens(parts)[0] + sum_int(
            char_lens(parts).drop_first(),
        ));
        assert(sum_int(char_lens(parts)) == char_lens(parts)[0]);
    } else {
        lemma_join_len(parts.drop_first(), sep);
        assert(char_lens(parts).drop_first() =~= char_lens(parts.drop_first()));
        assert(sum_int(char_lens(parts)) == char_lens(parts)[0] + sum_int(
            char_lens(parts.drop_first()),
        ));
        assert(join_chars(parts, sep) == parts[0] + sep + join_chars(parts.drop_first(), sep));
        assert((parts.len() - 1) * sep.len() == (parts.len() - 2) * sep.len() + sep.len())
            by (nonlinear_arith);
    }
}

/// A pointwise bound on lengths bounds their sums.
pub proof fn lemma_sum_le_pointwise(a: Seq<int>, b: Seq<int>)
    requires
        a.len() == b.len(),
        forall|i: int| 0 <= i < a.len() ==> a[i] <= b[i],
    ensures
        sum_int(a) <= sum_int(b),
    decreases a.len(),
{
    if a.len() > 0 {
        lemma_sum_le_pointwise(a.drop_first(), b.drop_first());
    }
}

/// The segmentation of a string into extended grapheme clusters, as the
/// Unicode text-segmentation rules define it.
pub uninterp spec fn graphemes_of(s: Seq<char>) -> Seq<Seq<char>>;

/// Relies on `UnicodeSegmentation::graphemes` of the unicode-segmentation
/// crate: it yields the extended grapheme clusters of the string, in
/// order; the clusters partition the string, and none is empty.
#[verifier::external_body]
pub fn grapheme_split<'a>(s: &'a str) -> (r: Vec<&'a str>)
    ensures
        r@.map_values(|g: &str| g@) == graphemes_of(s@),
        r@.map_values(|g: &str| g@).flatten() == s@,
        forall|i: int| 0 <= i < r@.len() ==> (#[trigger] r@[i])@.len() >= 1,
{
    unicode_segmentation::UnicodeSegmentation::graphemes(s, true).collect()
}

/// Flattening as many non-empty pieces yields at least as many elements.
pub proof fn lemma_flatten_len_ge_count(pieces: Seq<Seq<char>>)
    requires
        forall|i: int| 0 <= i < pieces.len() ==> (#[trigger] pieces[i]).len() >= 1,
    ensures
        pieces.flatten().len() >= pieces.len(),
    decreases pieces.len(),
{
    if pieces.len() > 0 {
        assert forall|i: int| 0 <= i < pieces.drop_first().len() implies (#[trigger] pieces.drop_first()[i]).len() >= 1 by {
            assert(pieces.drop_first()[i] == pieces[i + 1]);
        }
        lemma_flatten_len_ge_count(pieces.drop_first());
        assert(pieces.flatten() == pieces[0] + pieces.drop_first().flatten());
    }
}

/// The number of extended grapheme clusters of a string; a string never
/// has more clusters than characters.
pub fn grapheme_count(s: &str) -> (r: usize)
    ensures
        r == graphemes_of(s@).len(),
        r <= s@.len(),
{
    let gs = grapheme_split(s);
    proof {
        assert forall|i: int| 0 <= i < graphemes_of(s@).len() implies (#[trigger] graphemes_of(
            s@,
        )[i]).len() >= 1 by {
            assert(graphemes_of(s@)[i] == gs@.map_values(|g: &str| g@)[i]);
            assert(gs@[i]@.len() >= 1);
        }
        lemma_flatten_len_ge_count(graphemes_of(s@));
    }
    gs.len()
}

} // verus!
