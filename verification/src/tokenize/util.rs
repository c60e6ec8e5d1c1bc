//! Tokenizer utilities: span computation, escaping, and helpers shared by
//! the concrete tokenizers.

use crate::text::{
    chars_vec, grapheme_count, graphemes_of, join_chars, join_exec, replace_chars, replace_exec,
    split_at_seps, split_exec, string_from_chars, sum_int,
};
use vstd::prelude::*;

verus! {

use vstd::string::StringSliceAdditionalSpecFns;

/// A token's place in its sentence: a `(start, end)` pair of offsets.
pub type Token = (usize, usize);

/// Error conditions reported by the tokenize module.
#[derive(Clone, Copy, Debug, PartialEq, Eq, Structural)]
pub enum TokenizeError {
    /// The separator or pattern cannot be used to divide the input.
    ParseError,
    /// The input pieces and the input string do not fit together, so no
    /// output could ever be valid.
    MismatchError,
}

impl TokenizeError {
    /// A human-readable description of the error.
    pub fn message(&self) -> (r: &'static str)
        ensures
            match self {
                TokenizeError::ParseError => r@ == "Parsing Error"@,
                TokenizeError::MismatchError => r@ == "Mismatch Length Error"@,
            },
    {
        match self {
            TokenizeError::ParseError => "Parsing Error",
            TokenizeError::MismatchError => "Mismatch Length Error",
        }
    }
}

/// The start of the `k`-th span when pieces of the given lengths are laid
/// out from `start` with `gap` positions between neighbouring pieces.
pub open spec fn start_at(lens: Seq<int>, start: int, gap: int, k: int) -> int
    decreases k,
{
    if k <= 0 {
        start
    } else {
        start_at(lens, start, gap, k - 1) + lens[k - 1] + gap
    }
}

/// The spans of pieces of the given lengths, laid out from `start` with
/// `gap` positions between neighbouring pieces.
pub open spec fn span_seq(lens: Seq<int>, start: int, gap: int) -> Seq<(int, int)> {
    Seq::new(
        lens.len(),
        |k: int| (start_at(lens, start, gap, k), start_at(lens, start, gap, k) + lens[k]),
    )
}

/// With gaps of width `gap`, the `k`-th start is the sum of the first
/// `k` lengths plus `k` gaps.
pub proof fn lemma_start_at_sum(lens: Seq<int>, gap: int, k: int)
    requires
        0 <= k <= lens.len(),
    ensures
        start_at(lens, 0, gap, k) == crate::text::sum_int(lens.take(k)) + k * gap,
    decreases k,
{
    if k == 0 {
        assert(lens.take(0) =~= Seq::<int>::empty());
    } else {
        lemma_start_at_sum(lens, gap, k - 1);
        lemma_sum_push(lens.take(k - 1), lens[k - 1]);
        assert(lens.take(k) =~= lens.take(k - 1).push(lens[k - 1]));
        assert(k * gap == (k - 1) * gap + gap) by (nonlinear_arith);
    }
}

/// Summing after appending one value adds that value.
pub proof fn lemma_sum_push(lens: Seq<int>, x: int)
    ensures
        crate::text::sum_int(lens.push(x)) == crate::text::sum_int(lens) + x,
    decreases lens.len(),
{
    if lens.len() == 0 {
        assert(lens.push(x).drop_first() =~= Seq::<int>::empty());
        assert(lens.push(x)[0] == x);
        assert(crate::text::sum_int(lens.push(x)) == x + crate::text::sum_int(
            Seq::<int>::empty(),
        ));
    } else {
        lemma_sum_push(lens.drop_first(), x);
        assert(lens.push(x).drop_first() =~= lens.drop_first().push(x));
        assert(lens.push(x)[0] == lens[0]);
        assert(crate::text::sum_int(lens.push(x)) == lens[0] + crate::text::sum_int(
            lens.drop_first().push(x),
        ));
        assert(crate::text::sum_int(lens) == lens[0] + crate::text::sum_int(lens.drop_first()));
    }
}

/// The lengths, in grapheme clusters, of a run of pieces.
pub open spec fn grapheme_lens(pieces: Seq<Seq<char>>) -> Seq<int> {
    pieces.map_values(|p: Seq<char>| graphemes_of(p).len() as int)
}

/// Return the offsets of the tokens in `sent`, as a sequence of
/// `(start, end)` pairs counted in grapheme clusters, by splitting the
/// string at each occurrence of `sep`; each separator is taken to be one
/// cluster wide.  An empty separator cannot divide anything and is
/// refused with [`TokenizeError::ParseError`]; a piece whose clusters
/// would run past the end of the sentence (the pieces and the sentence do
/// not segment consistently) is refused with
/// [`TokenizeError::MismatchError`].
#[verifier::rlimit(60)]
pub fn string_span_tokenize(sent: &str, sep: &str) -> (r: Result<Vec<Token>, TokenizeError>)
    ensures
        ({
            let lens = grapheme_lens(split_at_seps(sent@, sep@));
            let total = graphemes_of(sent@).len() as int;
            match r {
                Err(TokenizeError::ParseError) => sep@.len() == 0,
                Err(TokenizeError::MismatchError) => sep@.len() > 0 && exists|k: int|
                    0 <= k < lens.len() && start_at(lens, 0, 1, k) + #[trigger] lens[k] > total,
                Ok(v) => sep@.len() > 0 && v@.map_values(|t: Token| (t.0 as int, t.1 as int))
                    == span_seq(lens, 0, 1) && forall|k: int|
                    0 <= k < lens.len() ==> start_at(lens, 0, 1, k) + #[trigger] lens[k] <= total,
            }
        }),
{
    if sep.is_empty() {
        return Err(TokenizeError::ParseError);
    }
    let sv = chars_vec(sent);
    let pv = chars_vec(sep);
    let pieces = split_exec(&sv, &pv);
    let total = grapheme_count(sent);
    let ghost lens = grapheme_lens(split_at_seps(sent@, sep@));
    let mut spans: Vec<Token> = Vec::new();
    let mut pos: usize = 0;
    let mut i: usize = 0;
    while i < pieces.len()
        invariant
            lens == grapheme_lens(split_at_seps(sent@, sep@)),
            sv@ == sent@,
            pv@ == sep@,
            pieces@.map_values(|p: Vec<char>| p@) == split_at_seps(sent@, sep@),
            total == graphemes_of(sent@).len(),
            i <= pieces@.len(),
            lens.len() == pieces@.len(),
            i < pieces@.len() ==> pos == start_at(lens, 0, 1, i as int),
            spans@.len() == i,
            forall|k: int|
                0 <= k < i ==> (#[trigger] spans@[k]).0 == start_at(lens, 0, 1, k) && spans@[k].1
                    == start_at(lens, 0, 1, k) + lens[k],
            forall|k: int| 0 <= k < i ==> start_at(lens, 0, 1, k) + #[trigger] lens[k] <= total,
        decreases pieces@.len() - i,
    {
        let piece = string_from_chars(&pieces[i]);
        let g = grapheme_count(piece.as_str());
        proof {
            assert(piece@ == pieces@.map_values(|p: Vec<char>| p@)[i as int]);
            assert(lens[i as int] == graphemes_of(piece@).len() as int);
        }
        if g > total || pos > total - g {
            proof {
                assert(start_at(lens, 0, 1, i as int) + lens[i as int] > total);
            }
            return Err(TokenizeError::MismatchError);
        }
        let end = pos + g;
        spans.push((pos, end));
        if i + 1 < pieces.len() {
            if end == usize::MAX {
                proof {
                    assert(start_at(lens, 0, 1, i + 1) == end + 1 + 1 - 1);
                    assert(lens[i + 1] == graphemes_of(
                        pieces@.map_values(|p: Vec<char>| p@)[i + 1],
                    ).len() as int);
                    assert(start_at(lens, 0, 1, i + 1) + lens[i + 1] > total);
                }
                return Err(TokenizeError::MismatchError);
            }
            pos = end + 1;
            proof {
                assert(start_at(lens, 0, 1, i + 1) == start_at(lens, 0, 1, i as int)
                    + lens[i as int] + 1);
            }
        }
        i = i + 1;
    }
    proof {
        assert(spans@.map_values(|t: Token| (t.0 as int, t.1 as int)) =~= span_seq(lens, 0, 1));
    }
    Ok(spans)
}

#[verifier::external_type_specification]
#[verifier::external_body]
pub struct ExRegexError(regex::Error);

/// Whether a pattern is a valid regular expression: compilation depends
/// on the pattern alone.
pub uninterp spec fn regex_compiles(pattern: Seq<char>) -> bool;

/// The successive non-overlapping matches of a valid pattern in a text,
/// as byte ranges: a function of the pattern and the text alone.
pub uninterp spec fn regex_match_spans(pattern: Seq<char>, text: Seq<char>) -> Seq<(int, int)>;

/// Relies on `Regex::new` and `Regex::find_iter` of the regex crate:
/// whether a pattern compiles depends on the pattern alone, and a
/// compiled pattern's matches in a haystack depend on pattern and
/// haystack alone; `find_iter` yields them leftmost first, successive and
/// non-overlapping, as byte ranges with `start <= end` inside the
/// haystack.
#[verifier::external_body]
fn regex_find_matches(pattern: &str, text: &str) -> (r: Result<
    Vec<(usize, usize)>,
    regex::Error,
>)
    ensures
        r is Ok <==> regex_compiles(pattern@),
        match r {
            Ok(v) => v@.map_values(|m: (usize, usize)| (m.0 as int, m.1 as int))
                == regex_match_spans(pattern@, text@) && (forall|i: int|
                0 <= i < v@.len() ==> (#[trigger] v@[i]).0 <= v@[i].1 <= text.spec_bytes().len())
                && (forall|i: int| 0 <= i < v@.len() - 1 ==> (#[trigger] v@[i]).1 <= v@[i + 1].0),
            Err(_) => true,
        },
{
    let re = match regex::Regex::new(pattern) {
        Ok(re) => re,
        Err(e) => {
            return Err(e);
        },
    };
    let mut v: Vec<(usize, usize)> = Vec::new();
    for m in re.find_iter(text) {
        v.push((m.start(), m.end()));
    }
    Ok(v)
}

/// The stretches of a text of length `len` around the given match spans:
/// from the start of the text to the first match, between neighbouring
/// matches, and from the last match to the end of the text.
pub open spec fn gaps_between(ms: Seq<(int, int)>, len: int) -> Seq<(int, int)> {
    Seq::new(
        ms.len() + 1,
        |i: int|
            (
                if i == 0 {
                    0
                } else {
                    ms[i - 1].1
                },
                if i < ms.len() {
                    ms[i].0
                } else {
                    len
                },
            ),
    )
}

/// The stretches of a text of length `len` around the given matches: from
/// the start of the text to the first match, between neighbouring
/// matches, and from the last match to the end of the text.
pub fn gap_spans(matches: &Vec<(usize, usize)>, len: usize) -> (r: Vec<Token>)
    requires
        forall|i: int|
            0 <= i < matches@.len() ==> (#[trigger] matches@[i]).0 <= matches@[i].1 <= len,
        forall|i: int| 0 <= i < matches@.len() - 1 ==> (#[trigger] matches@[i]).1 <= matches@[i + 1].0,
    ensures
        r@.len() == matches@.len() + 1,
        r@.map_values(|t: Token| (t.0 as int, t.1 as int)) == gaps_between(
            matches@.map_values(|m: (usize, usize)| (m.0 as int, m.1 as int)),
            len as int,
        ),
{
    let mut r: Vec<Token> = Vec::new();
    let mut index: usize = 0;
    let mut i: usize = 0;
    while i < matches.len()
        invariant
            forall|k: int|
                0 <= k < matches@.len() ==> (#[trigger] matches@[k]).0 <= matches@[k].1 <= len,
            i <= matches@.len(),
            r@.len() == i,
            index == if i == 0 {
                0usize
            } else {
                matches@[i - 1].1
            },
            forall|k: int|
                0 <= k < i ==> (#[trigger] r@[k]).0 == (if k == 0 {
                    0usize
                } else {
                    matches@[k - 1].1
                }) && r@[k].1 == matches@[k].0,
        decreases matches@.len() - i,
    {
        let m = matches[i];
        r.push((index, m.0));
        index = m.1;
        i = i + 1;
    }
    r.push((index, len));
    proof {
        assert(r@.map_values(|t: Token| (t.0 as int, t.1 as int)) =~= gaps_between(
            matches@.map_values(|m: (usize, usize)| (m.0 as int, m.1 as int)),
            len as int,
        ));
    }
    r
}

/// Return the offsets of the tokens in `sent`, as `(start, end)` byte
/// ranges, by splitting the string at each successive match of the
/// regular expression `regexp`: exactly the stretches around the
/// pattern's matches.  A pattern that does not compile is refused with
/// [`TokenizeError::ParseError`].
pub fn regexp_span_tokenize(sent: &str, regexp: &str) -> (r: Result<Vec<Token>, TokenizeError>)
    ensures
        r is Ok <==> regex_compiles(regexp@),
        match r {
            Err(e) => e == TokenizeError::ParseError,
            Ok(v) => v@.map_values(|t: Token| (t.0 as int, t.1 as int)) == gaps_between(
                regex_match_spans(regexp@, sent@),
                sent.spec_bytes().len() as int,
            ) && v@.len() >= 1 && (forall|i: int|
                0 <= i < v@.len() ==> (#[trigger] v@[i]).0 <= v@[i].1 <= sent.spec_bytes().len()),
        },
{
    let ms = match regex_find_matches(regexp, sent) {
        Ok(ms) => ms,
        Err(_) => {
            return Err(TokenizeError::ParseError);
        },
    };
    let sb: &[u8] = sent.as_bytes();
    let spans = gap_spans(&ms, sb.len());
    proof {
        assert(ms@.map_values(|m: (usize, usize)| (m.0 as int, m.1 as int)) == regex_match_spans(
            regexp@,
            sent@,
        ));
        assert forall|i: int| 0 <= i < spans@.len() implies (#[trigger] spans@[i]).0 <= spans@[i].1
            <= sent.spec_bytes().len() by {
            let g = gaps_between(
                ms@.map_values(|m: (usize, usize)| (m.0 as int, m.1 as int)),
                sent.spec_bytes().len() as int,
            );
            assert(spans@.map_values(|t: Token| (t.0 as int, t.1 as int))[i] == g[i]);
            if 0 < i < spans@.len() - 1 {
                assert(ms@[i - 1].1 <= ms@[i].0);
            }
        }
    }
    Ok(spans)
}

/// The relative form of a run of spans: every empty span is dropped, and
/// each remaining `(left, right)` becomes its distance from the previous
/// kept span's right end, paired with its own width.
pub open spec fn rel_spans(spans: Seq<(int, int)>, prev: int) -> Seq<(int, int)>
    decreases spans.len(),
{
    if spans.len() == 0 {
        Seq::empty()
    } else if spans[0].0 == spans[0].1 {
        rel_spans(spans.drop_first(), prev)
    } else {
        seq![(spans[0].0 - prev, spans[0].1 - spans[0].0)] + rel_spans(
            spans.drop_first(),
            spans[0].1,
        )
    }
}

/// Return a sequence of relative spans, given a sequence of ordered
/// spans; empty spans are skipped over.
pub fn spans_to_relative(token_span: &Vec<Token>) -> (r: Vec<Token>)
    requires
        forall|i: int|
            0 <= i < token_span@.len() ==> (#[trigger] token_span@[i]).0 <= token_span@[i].1,
        forall|i: int|
            0 <= i < token_span@.len() - 1 ==> (#[trigger] token_span@[i]).1 <= token_span@[i
                + 1].0,
    ensures
        r@.map_values(|t: Token| (t.0 as int, t.1 as int)) == rel_spans(
            token_span@.map_values(|t: Token| (t.0 as int, t.1 as int)),
            0,
        ),
{
    let ghost model = token_span@.map_values(|t: Token| (t.0 as int, t.1 as int));
    let mut r: Vec<Token> = Vec::new();
    let mut prev: usize = 0;
    let mut i: usize = 0;
    proof {
        assert(model.skip(0) =~= model);
    }
    while i < token_span.len()
        invariant
            model == token_span@.map_values(|t: Token| (t.0 as int, t.1 as int)),
            forall|k: int|
                0 <= k < token_span@.len() ==> (#[trigger] token_span@[k]).0 <= token_span@[k].1,
            forall|k: int|
                0 <= k < token_span@.len() - 1 ==> (#[trigger] token_span@[k]).1 <= token_span@[k
                    + 1].0,
            i <= token_span@.len(),
            i < token_span@.len() ==> prev <= token_span@[i as int].0,
            rel_spans(model, 0) == r@.map_values(|t: Token| (t.0 as int, t.1 as int)) + rel_spans(
                model.skip(i as int),
                prev as int,
            ),
        decreases token_span@.len() - i,
    {
        let (left, right) = token_span[i];
        proof {
            assert(model.skip(i as int)[0] == (left as int, right as int));
            assert(model.skip(i as int).drop_first() =~= model.skip(i + 1));
        }
        let ghost r0 = r@.map_values(|t: Token| (t.0 as int, t.1 as int));
        let ghost prev0 = prev as int;
        if left != right {
            r.push((left - prev, right - left));
            prev = right;
            proof {
                assert(r@.map_values(|t: Token| (t.0 as int, t.1 as int)) =~= r0 + seq![
                    (left - prev0, right - left as int)
                ]);
                assert(rel_spans(model.skip(i as int), prev0) == seq![
                    (left - prev0, right - left as int)
                ] + rel_spans(model.skip(i + 1), right as int));
            }
        }
        proof {
            if i + 1 < token_span@.len() {
                assert(token_span@[i as int].1 <= token_span@[i + 1].0);
            }
            assert(rel_spans(model, 0) == r@.map_values(|t: Token| (t.0 as int, t.1 as int))
                + rel_spans(model.skip(i + 1), prev as int));
        }
        i = i + 1;
    }
    proof {
        assert(model.skip(model.len() as int) =~= Seq::<(int, int)>::empty());
        assert(r@.map_values(|t: Token| (t.0 as int, t.1 as int)) + Seq::<(int, int)>::empty()
            =~= r@.map_values(|t: Token| (t.0 as int, t.1 as int)));
    }
    r
}

/// Whether a character lies in one of the CJK blocks: the collective
/// ranges for the Chinese, Japanese and Korean writing systems.
pub open spec fn spec_is_cjk(c: char) -> bool {
    let u = c as u32;
    (4352 <= u <= 4607) || (11904 <= u <= 42191) || (43072 <= u <= 43135) || (44032 <= u <= 55215)
        || (63744 <= u <= 64255) || (65072 <= u <= 65103) || (65381 <= u <= 65500) || (131072 <= u
        <= 196607)
}

/// Check whether a character is a CJK character: a member of one of the
/// Unicode blocks used by the Chinese, Japanese and Korean languages.
pub fn is_cjk(a_char: char) -> (r: bool)
    ensures
        r == spec_is_cjk(a_char),
{
    matches!(a_char as u32, 4352..=4607 | 11904..=42191 | 43072..=43135 | 44032..=55215 | 63744..=64255 | 65072..=65103 | 65381..=65500 | 131072..=196607)
}

/// The escaped form of a run of characters, suitable for well-formed XML:
/// the replacements are applied one pattern at a time, in the fixed
/// order below, each pass replacing every occurrence left to right.
pub open spec fn xml_escaped(s: Seq<char>) -> Seq<char> {
    let s1 = replace_chars(s, seq!['&'], seq!['&', 'a', 'm', 'p', ';']);
    let s2 = replace_chars(s1, seq!['>'], seq!['&', 'g', 't', ';']);
    let s3 = replace_chars(s2, seq!['\''], seq!['&', 'a', 'p', 'o', 's', ';']);
    let s4 = replace_chars(s3, seq!['"'], seq!['&', 'q', 'u', 'o', 't', ';']);
    let s5 = replace_chars(s4, seq!['|'], seq!['&', '#', '1', '2', '4', ';']);
    let s6 = replace_chars(s5, seq!['['], seq!['&', '#', '9', '1', ';']);
    let s7 = replace_chars(s6, seq![']'], seq!['&', '#', '9', '3', ';']);
    replace_chars(s7, seq!['<'], seq!['&', 'l', 't', ';'])
}

/// The unescaped form of a run of characters: the inverse replacements of
/// [`xml_escaped`], applied one pattern at a time in the fixed order
/// below, each pass replacing every occurrence left to right.
pub open spec fn xml_unescaped(s: Seq<char>) -> Seq<char> {
    let s1 = replace_chars(s, seq!['&', 'a', 'm', 'p', ';'], seq!['&']);
    let s2 = replace_chars(s1, seq!['&', 'g', 't', ';'], seq!['>']);
    let s3 = replace_chars(s2, seq!['&', 'a', 'p', 'o', 's', ';'], seq!['\'']);
    let s4 = replace_chars(s3, seq!['&', 'q', 'u', 'o', 't', ';'], seq!['"']);
    let s5 = replace_chars(s4, seq!['&', '#', '1', '2', '4', ';'], seq!['|']);
    let s6 = replace_chars(s5, seq!['&', '#', '9', '1', ';'], seq!['[']);
    let s7 = replace_chars(s6, seq!['&', '#', '9', '3', ';'], seq![']']);
    replace_chars(s7, seq!['&', 'l', 't', ';'], seq!['<'])
}

/// Transform the input text into an escaped version suitable for
/// well-formed XML formatting.
///
/// Escaped characters: `&` `>` `'` `"` `|` `[` `]` `<`.
pub fn xml_escape(text: &str) -> (r: String)
    ensures
        r@ == xml_escaped(text@),
{
    let amp = chars_vec("&");
    let amp_rep = chars_vec("&amp;");
    let gt = chars_vec(">");
    let gt_rep = chars_vec("&gt;");
    let apos = chars_vec("'");
    let apos_rep = chars_vec("&apos;");
    let quot = chars_vec("\"");
    let quot_rep = chars_vec("&quot;");
    let pipe = chars_vec("|");
    let pipe_rep = chars_vec("&#124;");
    let lbr = chars_vec("[");
    let lbr_rep = chars_vec("&#91;");
    let rbr = chars_vec("]");
    let rbr_rep = chars_vec("&#93;");
    let lt = chars_vec("<");
    let lt_rep = chars_vec("&lt;");
    proof {
        reveal_strlit("&");
        reveal_strlit("&amp;");
        reveal_strlit(">");
        reveal_strlit("&gt;");
        reveal_strlit("'");
        reveal_strlit("&apos;");
        reveal_strlit("\"");
        reveal_strlit("&quot;");
        reveal_strlit("|");
        reveal_strlit("&#124;");
        reveal_strlit("[");
        reveal_strlit("&#91;");
        reveal_strlit("]");
        reveal_strlit("&#93;");
        reveal_strlit("<");
        reveal_strlit("&lt;");
        assert(amp@ =~= seq!['&']);
        assert(amp_rep@ =~= seq!['&', 'a', 'm', 'p', ';']);
        assert(gt@ =~= seq!['>']);
        assert(gt_rep@ =~= seq!['&', 'g', 't', ';']);
        assert(apos@ =~= seq!['\'']);
        assert(apos_rep@ =~= seq!['&', 'a', 'p', 'o', 's', ';']);
        assert(quot@ =~= seq!['"']);
        assert(quot_rep@ =~= seq!['&', 'q', 'u', 'o', 't', ';']);
        assert(pipe@ =~= seq!['|']);
        assert(pipe_rep@ =~= seq!['&', '#', '1', '2', '4', ';']);
        assert(lbr@ =~= seq!['[']);
        assert(lbr_rep@ =~= seq!['&', '#', '9', '1', ';']);
        assert(rbr@ =~= seq![']']);
        assert(rbr_rep@ =~= seq!['&', '#', '9', '3', ';']);
        assert(lt@ =~= seq!['<']);
        assert(lt_rep@ =~= seq!['&', 'l', 't', ';']);
    }
    let tv = chars_vec(text);
    let s1 = replace_exec(&tv, &amp, &amp_rep);
    let s2 = replace_exec(&s1, &gt, &gt_rep);
    let s3 = replace_exec(&s2, &apos, &apos_rep);
    let s4 = replace_exec(&s3, &quot, &quot_rep);
    let s5 = replace_exec(&s4, &pipe, &pipe_rep);
    let s6 = replace_exec(&s5, &lbr, &lbr_rep);
    let s7 = replace_exec(&s6, &rbr, &rbr_rep);
    let s8 = replace_exec(&s7, &lt, &lt_rep);
    string_from_chars(&s8)
}

/// Transform an escaped version suitable for well-formed XML formatting
/// back into a humanly readable string.
///
/// Unescaped sequences: those produced by [`xml_escape`].
pub fn xml_unescape(text: &str) -> (r: String)
    ensures
        r@ == xml_unescaped(text@),
{
    let amp = chars_vec("&");
    let amp_rep = chars_vec("&amp;");
    let gt = chars_vec(">");
    let gt_rep = chars_vec("&gt;");
    let apos = chars_vec("'");
    let apos_rep = chars_vec("&apos;");
    let quot = chars_vec("\"");
    let quot_rep = chars_vec("&quot;");
    let pipe = chars_vec("|");
    let pipe_rep = chars_vec("&#124;");
    let lbr = chars_vec("[");
    let lbr_rep = chars_vec("&#91;");
    let rbr = chars_vec("]");
    let rbr_rep = chars_vec("&#93;");
    let lt = chars_vec("<");
    let lt_rep = chars_vec("&lt;");
    proof {
        reveal_strlit("&");
        reveal_strlit("&amp;");
        reveal_strlit(">");
        reveal_strlit("&gt;");
        reveal_strlit("'");
        reveal_strlit("&apos;");
        reveal_strlit("\"");
        reveal_strlit("&quot;");
        reveal_strlit("|");
        reveal_strlit("&#124;");
        reveal_strlit("[");
        reveal_strlit("&#91;");
        reveal_strlit("]");
        reveal_strlit("&#93;");
        reveal_strlit("<");
        reveal_strlit("&lt;");
        assert(amp@ =~= seq!['&']);
        assert(amp_rep@ =~= seq!['&', 'a', 'm', 'p', ';']);
        assert(gt@ =~= seq!['>']);
        assert(gt_rep@ =~= seq!['&', 'g', 't', ';']);
        assert(apos@ =~= seq!['\'']);
        assert(apos_rep@ =~= seq!['&', 'a', 'p', 'o', 's', ';']);
        assert(quot@ =~= seq!['"']);
        assert(quot_rep@ =~= seq!['&', 'q', 'u', 'o', 't', ';']);
        assert(pipe@ =~= seq!['|']);
        assert(pipe_rep@ =~= seq!['&', '#', '1', '2', '4', ';']);
        assert(lbr@ =~= seq!['[']);
        assert(lbr_rep@ =~= seq!['&', '#', '9', '1', ';']);
        assert(rbr@ =~= seq![']']);
        assert(rbr_rep@ =~= seq!['&', '#', '9', '3', ';']);
        assert(lt@ =~= seq!['<']);
        assert(lt_rep@ =~= seq!['&', 'l', 't', ';']);
    }
    let tv = chars_vec(text);
    let s1 = replace_exec(&tv, &amp_rep, &amp);
    let s2 = replace_exec(&s1, &gt_rep, &gt);
    let s3 = replace_exec(&s2, &apos_rep, &apos);
    let s4 = replace_exec(&s3, &quot_rep, &quot);
    let s5 = replace_exec(&s4, &pipe_rep, &pipe);
    let s6 = replace_exec(&s5, &lbr_rep, &lbr);
    let s7 = replace_exec(&s6, &rbr_rep, &rbr);
    let s8 = replace_exec(&s7, &lt_rep, &lt);
    string_from_chars(&s8)
}

/// Whether two runs of characters are the same.
fn chars_eq(a: &Vec<char>, b: &Vec<char>) -> (r: bool)
    ensures
        r == (a@ == b@),
{
    if a.len() != b.len() {
        return false;
    }
    let mut i: usize = 0;
    while i < a.len()
        invariant
            a@.len() == b@.len(),
            i <= a@.len(),
            forall|k: int| 0 <= k < i ==> a@[k] == b@[k],
        decreases a@.len() - i,
    {
        if a[i] != b[i] {
            return false;
        }
        i = i + 1;
    }
    proof {
        assert(a@ =~= b@);
    }
    true
}

/// Find the offsets of the given tokens in `sent`, as `(start, end)`
/// pairs counted in grapheme clusters, each token one cluster after the
/// previous one.  When the tokens joined by single spaces differ from the
/// sentence, no output could be valid, and the call is refused with
/// [`TokenizeError::MismatchError`].
pub fn align_tokens(tokens: Vec<&str>, sent: &str) -> (r: Result<Vec<Token>, TokenizeError>)
    ensures
        ({
            let tv = tokens@.map_values(|t: &str| t@);
            match r {
                Err(e) => e == TokenizeError::MismatchError && join_chars(tv, seq![' ']) != sent@,
                Ok(v) => join_chars(tv, seq![' ']) == sent@ && v@.map_values(
                    |t: Token| (t.0 as int, t.1 as int),
                ) == span_seq(grapheme_lens(tv), 0, 1),
            }
        }),
{
    let ghost tv = tokens@.map_values(|t: &str| t@);
    let mut parts: Vec<Vec<char>> = Vec::new();
    let mut i: usize = 0;
    while i < tokens.len()
        invariant
            tv == tokens@.map_values(|t: &str| t@),
            i <= tokens@.len(),
            parts@.len() == i,
            forall|k: int| 0 <= k < i ==> (#[trigger] parts@[k])@ == tv[k],
        decreases tokens@.len() - i,
    {
        parts.push(chars_vec(tokens[i]));
        i = i + 1;
    }
    let sep = chars_vec(" ");
    proof {
        reveal_strlit(" ");
        assert(sep@ =~= seq![' ']);
        assert(parts@.map_values(|p: Vec<char>| p@) =~= tv);
    }
    let joined = join_exec(&parts, &sep);
    let sv = chars_vec(sent);
    if !chars_eq(&joined, &sv) {
        return Err(TokenizeError::MismatchError);
    }
    // the tokens joined with single spaces spell the sentence, so each
    // token's clusters fit within the sentence's characters
    let ghost glens = grapheme_lens(tv);
    let ghost clens = crate::text::char_lens(tv);
    let slen = sv.len();
    let mut sizes: Vec<usize> = Vec::new();
    let mut j: usize = 0;
    while j < tokens.len()
        invariant
            tv == tokens@.map_values(|t: &str| t@),
            glens == grapheme_lens(tv),
            j <= tokens@.len(),
            sizes@.len() == j,
            forall|k: int|
                0 <= k < j ==> (#[trigger] sizes@[k]) as int == glens[k] && graphemes_of(
                    tv[k],
                ).len() <= tv[k].len(),
        decreases tokens@.len() - j,
    {
        let wsize = grapheme_count(tokens[j]);
        proof {
            assert(tv[j as int] == tokens@[j as int]@);
            assert(glens[j as int] == graphemes_of(tv[j as int]).len() as int);
        }
        sizes.push(wsize);
        j = j + 1;
    }
    let mut spans: Vec<Token> = Vec::new();
    let mut index: usize = 0;
    let mut i2: usize = 0;
    while i2 < sizes.len()
        invariant
            tv == tokens@.map_values(|t: &str| t@),
            glens == grapheme_lens(tv),
            clens == crate::text::char_lens(tv),
            join_chars(tv, seq![' ']) == sent@,
            slen == sent@.len(),
            sizes@.len() == tokens@.len(),
            forall|k: int|
                0 <= k < sizes@.len() ==> (#[trigger] sizes@[k]) as int == glens[k]
                    && graphemes_of(tv[k]).len() <= tv[k].len(),
            i2 <= sizes@.len(),
            spans@.len() == i2,
            i2 < sizes@.len() ==> index == start_at(glens, 0, 1, i2 as int),
            forall|k: int|
                0 <= k < i2 ==> (#[trigger] spans@[k]).0 == start_at(glens, 0, 1, k) && spans@[k].1
                    == start_at(glens, 0, 1, k) + glens[k],
        decreases sizes@.len() - i2,
    {
        let wsize = sizes[i2];
        proof {
            assert forall|k: int| 0 <= k < tv.len() implies #[trigger] graphemes_of(tv[k]).len()
                <= tv[k].len() by {
                assert(sizes@[k] as int == glens[k]);
            }
            lemma_align_bound(tv, glens, clens, i2 as int, sent@);
            assert(index + wsize <= slen);
        }
        let end = index + wsize;
        spans.push((index, end));
        if i2 + 1 < sizes.len() {
            proof {
                lemma_align_bound(tv, glens, clens, i2 + 1, sent@);
                assert(start_at(glens, 0, 1, i2 + 1) == start_at(glens, 0, 1, i2 as int)
                    + glens[i2 as int] + 1);
            }
            index = end + 1;
        }
        i2 = i2 + 1;
    }
    proof {
        assert(spans@.map_values(|t: Token| (t.0 as int, t.1 as int)) =~= span_seq(glens, 0, 1));
    }
    Ok(spans)
}

/// While laying out tokens one cluster apart, every position stays within
/// the sentence the tokens spell: each token has no more clusters than
/// characters, and the characters joined with separators are the
/// sentence's.
proof fn lemma_align_bound(
    tv: Seq<Seq<char>>,
    glens: Seq<int>,
    clens: Seq<int>,
    j: int,
    sent: Seq<char>,
)
    requires
        glens == grapheme_lens(tv),
        clens == crate::text::char_lens(tv),
        forall|k: int| 0 <= k < tv.len() ==> #[trigger] graphemes_of(tv[k]).len() <= tv[k].len(),
        join_chars(tv, seq![' ']) == sent,
        0 <= j < tv.len(),
    ensures
        start_at(glens, 0, 1, j) + glens[j] + 1 <= sent.len() + 1,
        start_at(glens, 0, 1, j) >= 0,
        glens[j] >= 0,
{
    crate::text::lemma_join_len(tv, seq![' ']);
    lemma_start_at_sum(glens, 1, j + 1);
    assert forall|k: int| 0 <= k < glens.len() implies #[trigger] glens[k] >= 0 && glens[k]
        <= clens[k] by {
        assert(glens[k] == graphemes_of(tv[k]).len() as int);
        assert(clens[k] == tv[k].len() as int);
    }
    crate::text::lemma_sum_le_pointwise(glens.take(j + 1), clens.take(j + 1));
    crate::text::lemma_prefix_sum_le(clens, j + 1);
    crate::text::lemma_prefix_sum_le(glens, j);
    lemma_start_at_sum(glens, 1, j);
    assert(sum_int(crate::text::char_lens(tv)) + (tv.len() - 1) * 1 == sent.len() as int);
    assert(start_at(glens, 0, 1, j + 1) == sum_int(glens.take(j + 1)) + (j + 1));
    assert(sum_int(glens.take(j + 1)) <= sum_int(clens.take(j + 1)));
    assert(glens.take(j + 1).len() == j + 1);
    assert(start_at(glens, 0, 1, j) + glens[j] + 1 == start_at(glens, 0, 1, j + 1));
}

} // verus!
