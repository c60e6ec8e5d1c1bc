//! Simple tokenizers: these divide strings into substrings by a fixed
//! delimiter, by alphanumeric separators, by lines, and into grapheme
//! clusters.

use crate::text::{
    byte_lens, chars_vec, grapheme_split, graphemes_of, join_chars, lemma_bytes_of_pieces,
    lemma_encode_concat, lemma_join_bytes_ge, lemma_prefix_sum_le, lemma_split_join,
    lemma_sum_split, split_at_seps, split_exec, string_from_chars, subvec, sum_int,
};
use crate::tokenize::api::{StringTokenizer, TokenizerI};
use crate::tokenize::util::{
    grapheme_lens, lemma_start_at_sum, span_seq, start_at, string_span_tokenize, Token,
    TokenizeError,
};
use vstd::prelude::*;

verus! {

use vstd::utf8::encode_utf8;

/// Whether span computation by grapheme clusters succeeds: every token
/// must end within the sentence.
pub open spec fn grapheme_spans_ok(s: Seq<char>, sep: Seq<char>) -> bool {
    let lens = grapheme_lens(split_at_seps(s, sep));
    forall|k: int|
        0 <= k < lens.len() ==> start_at(lens, 0, 1, k) + #[trigger] lens[k] <= graphemes_of(
            s,
        ).len() as int
}

/// Split a string at each occurrence of a fixed delimiter.
fn split_tokens(sent: &str, sep: &str) -> (r: Vec<String>)
    requires
        sep@.len() >= 1,
    ensures
        r@.map_values(|t: String| t@) == split_at_seps(sent@, sep@),
{
    let sv = chars_vec(sent);
    let pv = chars_vec(sep);
    let pieces = split_exec(&sv, &pv);
    let mut r: Vec<String> = Vec::new();
    let mut i: usize = 0;
    while i < pieces.len()
        invariant
            pieces@.map_values(|p: Vec<char>| p@) == split_at_seps(sent@, sep@),
            i <= pieces@.len(),
            r@.len() == i,
            forall|j: int| 0 <= j < i ==> (#[trigger] r@[j])@ == pieces@[j]@,
        decreases pieces@.len() - i,
    {
        r.push(string_from_chars(&pieces[i]));
        i = i + 1;
    }
    proof {
        assert(r@.map_values(|t: String| t@) =~= split_at_seps(sent@, sep@));
    }
    r
}

/// The spans of pieces of the given byte lengths, laid out one after the
/// other from position zero.
fn spans_from_lens(lens: &Vec<usize>, total: usize) -> (r: Vec<Token>)
    requires
        sum_int(lens@.map_values(|l: usize| l as int)) <= total as int,
    ensures
        r@.map_values(|t: Token| (t.0 as int, t.1 as int)) == span_seq(
            lens@.map_values(|l: usize| l as int),
            0,
            0,
        ),
{
    let ghost ls = lens@.map_values(|l: usize| l as int);
    let mut r: Vec<Token> = Vec::new();
    let mut pos: usize = 0;
    let mut i: usize = 0;
    while i < lens.len()
        invariant
            ls == lens@.map_values(|l: usize| l as int),
            sum_int(ls) <= total as int,
            i <= ls.len(),
            pos == start_at(ls, 0, 0, i as int),
            pos <= total,
            r@.len() == i,
            forall|k: int|
                0 <= k < i ==> (#[trigger] r@[k]).0 == start_at(ls, 0, 0, k) && r@[k].1 == start_at(
                    ls,
                    0,
                    0,
                    k,
                ) + ls[k],
        decreases ls.len() - i,
    {
        proof {
            assert forall|k: int| 0 <= k < ls.len() implies ls[k] >= 0 by {
                assert(ls[k] == lens@[k] as int);
            }
            assert(ls[i as int] == lens@[i as int] as int);
            lemma_start_at_sum(ls, 0, i + 1);
            lemma_start_at_sum(ls, 0, i as int);
            lemma_prefix_sum_le(ls, i + 1);
            assert(start_at(ls, 0, 0, i + 1) == start_at(ls, 0, 0, i as int) + ls[i as int]);
        }
        let end = pos + lens[i];
        r.push((pos, end));
        pos = end;
        i = i + 1;
    }
    proof {
        assert(r@.map_values(|t: Token| (t.0 as int, t.1 as int)) =~= span_seq(ls, 0, 0));
    }
    r
}

/// Tokenize a string using the space character as the delimiter, which is
/// the same as splitting on a single space.
pub struct SpaceTokenizer;

impl StringTokenizer for SpaceTokenizer {
    open spec fn spec_delimiter(&self) -> Seq<char> {
        seq![' ']
    }

    fn delimiter(&self) -> (r: &'static str) {
        let r = " ";
        proof {
            reveal_strlit(" ");
            assert(r@ =~= seq![' ']);
            assert(self.spec_delimiter() == seq![' ']);
            assert(r@ == self.spec_delimiter());
        }
        r
    }
}

impl TokenizerI for SpaceTokenizer {
    open spec fn spec_tokens(&self, s: Seq<char>) -> Seq<Seq<char>> {
        split_at_seps(s, seq![' '])
    }

    open spec fn spec_spans(&self, s: Seq<char>) -> Seq<(int, int)> {
        span_seq(grapheme_lens(split_at_seps(s, seq![' '])), 0, 1)
    }

    open spec fn spec_spans_ok(&self, s: Seq<char>) -> bool {
        grapheme_spans_ok(s, seq![' '])
    }

    fn tokenize(&self, sent: &str) -> (r: Vec<String>) {
        split_tokens(sent, self.delimiter())
    }

    fn span_tokenize(&self, sent: &str) -> (r: Result<Vec<Token>, TokenizeError>) {
        string_span_tokenize(sent, self.delimiter())
    }
}

/// Tokenize a string using the tab character as the delimiter, the same
/// as splitting on a single tab.
pub struct TabTokenizer;

impl StringTokenizer for TabTokenizer {
    open spec fn spec_delimiter(&self) -> Seq<char> {
        seq!['\t']
    }

    fn delimiter(&self) -> (r: &'static str) {
        let r = "\t";
        proof {
            reveal_strlit("\t");
            assert(r@ =~= seq!['\t']);
            assert(r@ == self.spec_delimiter());
        }
        r
    }
}

impl TokenizerI for TabTokenizer {
    open spec fn spec_tokens(&self, s: Seq<char>) -> Seq<Seq<char>> {
        split_at_seps(s, seq!['\t'])
    }

    open spec fn spec_spans(&self, s: Seq<char>) -> Seq<(int, int)> {
        span_seq(grapheme_lens(split_at_seps(s, seq!['\t'])), 0, 1)
    }

    open spec fn spec_spans_ok(&self, s: Seq<char>) -> bool {
        grapheme_spans_ok(s, seq!['\t'])
    }

    fn tokenize(&self, sent: &str) -> (r: Vec<String>) {
        split_tokens(sent, self.delimiter())
    }

    fn span_tokenize(&self, sent: &str) -> (r: Result<Vec<Token>, TokenizeError>) {
        string_span_tokenize(sent, self.delimiter())
    }
}

/// Whether a character counts as alphanumeric, as the standard library's
/// Unicode tables decide it.
pub uninterp spec fn alphanumeric(c: char) -> bool;

/// Relies on `char::is_alphanumeric` of std: it decides whether the
/// character is in one of the Unicode alphabetic or numeric categories,
/// from the character alone.
#[verifier::external_body]
fn is_alphanumeric_char(c: char) -> (r: bool)
    ensures
        r == alphanumeric(c),
{
    c.is_alphanumeric()
}

/// The pieces of a run of characters between its alphanumeric characters:
/// splitting on every alphanumeric character as a separator.
pub open spec fn alnum_split(s: Seq<char>) -> Seq<Seq<char>>
    decreases s.len(),
{
    if s.len() == 0 {
        seq![Seq::<char>::empty()]
    } else {
        let rest = alnum_split(s.drop_first());
        if alphanumeric(s[0]) {
            seq![Seq::<char>::empty()] + rest
        } else {
            seq![seq![s[0]] + rest[0]] + rest.drop_first()
        }
    }
}

/// Splitting on separators always yields at least one piece.
proof fn lemma_alnum_split_nonempty(s: Seq<char>)
    ensures
        alnum_split(s).len() >= 1,
    decreases s.len(),
{
    if s.len() > 0 {
        lemma_alnum_split_nonempty(s.drop_first());
    }
}

/// Tokenize a string into the runs between its alphanumeric characters;
/// the alphanumeric characters themselves act as separators and are
/// stripped out.  To obtain the individual characters of a string, index
/// its characters directly instead.
pub struct CharTokenizer;

impl TokenizerI for CharTokenizer {
    open spec fn spec_tokens(&self, s: Seq<char>) -> Seq<Seq<char>> {
        alnum_split(s)
    }

    /// Spans of the grapheme clusters of the string, counted in bytes:
    /// each cluster spans from the end of the previous one, and the spans
    /// together cover the whole string.
    open spec fn spec_spans(&self, s: Seq<char>) -> Seq<(int, int)> {
        span_seq(byte_lens(graphemes_of(s)), 0, 0)
    }

    open spec fn spec_spans_ok(&self, s: Seq<char>) -> bool {
        true
    }

    fn tokenize(&self, sent: &str) -> (r: Vec<String>) {
        let sv = chars_vec(sent);
        let n = sv.len();
        let mut cur: Vec<char> = Vec::new();
        let mut done: Vec<String> = Vec::new();
        let mut i: usize = n;
        // scan from the end, so each step prepends a character, matching
        // the way the split is defined
        let ghost model = alnum_split(sent@);
        proof {
            lemma_alnum_split_nonempty(sent@);
            assert(sent@.skip(n as int) =~= Seq::<char>::empty());
            assert(alnum_split(Seq::<char>::empty()) == seq![Seq::<char>::empty()]);
        }
        while i > 0
            invariant
                sv@ == sent@,
                n == sv@.len(),
                i <= n,
                alnum_split(sent@.skip(i as int)).len() >= 1,
                cur@ == alnum_split(sent@.skip(i as int))[0],
                done@.len() == alnum_split(sent@.skip(i as int)).len() - 1,
                forall|k: int|
                    0 <= k < done@.len() ==> (#[trigger] done@[k])@ == alnum_split(
                        sent@.skip(i as int),
                    )[done@.len() - k],
            decreases i,
        {
            let ghost before = alnum_split(sent@.skip(i as int));
            i = i - 1;
            proof {
                assert(sent@.skip(i as int).drop_first() =~= sent@.skip(i + 1));
                assert(sent@.skip(i as int)[0] == sent@[i as int]);
                lemma_alnum_split_nonempty(sent@.skip(i as int));
            }
            if is_alphanumeric_char(sv[i]) {
                let piece = string_from_chars(&cur);
                done.push(piece);
                cur = Vec::new();
                proof {
                    let now = alnum_split(sent@.skip(i as int));
                    assert(now == seq![Seq::<char>::empty()] + before);
                    assert(now[0] =~= Seq::<char>::empty());
                    assert forall|k: int| 0 <= k < done@.len() implies (#[trigger] done@[k])@
                        == now[done@.len() - k] by {
                        if k < done@.len() - 1 {
                            assert(done@[k]@ == before[done@.len() - 1 - k]);
                            assert(now[done@.len() - k] == before[done@.len() - k - 1]);
                        } else {
                            assert(now[1] == before[0]);
                        }
                    }
                }
            } else {
                let mut ncur: Vec<char> = Vec::new();
                ncur.push(sv[i]);
                let mut j: usize = 0;
                while j < cur.len()
                    invariant
                        j <= cur@.len(),
                        ncur@.len() == j + 1,
                        ncur@[0] == sv@[i as int],
                        forall|k: int| 0 <= k < j ==> ncur@[k + 1] == cur@[k],
                        i < sv@.len(),
                    decreases cur@.len() - j,
                {
                    ncur.push(cur[j]);
                    j = j + 1;
                }
                cur = ncur;
                proof {
                    let now = alnum_split(sent@.skip(i as int));
                    assert(now == seq![seq![sent@[i as int]] + before[0]] + before.drop_first());
                    assert(cur@ =~= seq![sent@[i as int]] + before[0]);
                    assert(cur@ == now[0]);
                    assert forall|k: int| 0 <= k < done@.len() implies (#[trigger] done@[k])@
                        == now[done@.len() - k] by {
                        assert(done@[k]@ == before[done@.len() - k]);
                        assert(now[done@.len() - k] == before.drop_first()[done@.len() - k - 1]);
                    }
                }
            }
        }
        proof {
            assert(sent@.skip(0) =~= sent@);
        }
        done.push(string_from_chars(&cur));
        let ghost m = model.len();
        proof {
            assert(done@.len() == m);
            assert forall|j: int| 0 <= j < m implies (#[trigger] done@[j])@ == model[m - 1 - j] by {
                if j < m - 1 {
                    assert(done@[j]@ == model[m - 1 - j]);
                } else {
                    assert(done@[m - 1]@ == model[0]);
                }
            }
        }
        let mut r: Vec<String> = Vec::new();
        while done.len() > 0
            invariant
                done@.len() + r@.len() == m,
                forall|j: int| 0 <= j < done@.len() ==> (#[trigger] done@[j])@ == model[m - 1 - j],
                forall|j: int| 0 <= j < r@.len() ==> (#[trigger] r@[j])@ == model[j],
            decreases done@.len(),
        {
            let piece = done.pop().unwrap();
            r.push(piece);
        }
        proof {
            assert(r@.map_values(|t: String| t@) =~= model);
        }
        r
    }

    fn span_tokenize(&self, sent: &str) -> (r: Result<Vec<Token>, TokenizeError>) {
        let gs = grapheme_split(sent);
        let mut lens: Vec<usize> = Vec::new();
        let mut i: usize = 0;
        while i < gs.len()
            invariant
                gs@.map_values(|g: &str| g@) == graphemes_of(sent@),
                i <= gs@.len(),
                lens@.len() == i,
                forall|k: int|
                    0 <= k < i ==> (#[trigger] lens@[k]) as int == byte_lens(
                        graphemes_of(sent@),
                    )[k],
            decreases gs@.len() - i,
        {
            let g: &str = gs[i];
            proof {
                assert(g@ == graphemes_of(sent@)[i as int]);
                assert(byte_lens(graphemes_of(sent@))[i as int] == encode_utf8(
                    graphemes_of(sent@)[i as int],
                ).len() as int);
            }
            let gb: &[u8] = g.as_bytes();
            lens.push(gb.len());
            i = i + 1;
        }
        proof {
            assert(lens@.map_values(|l: usize| l as int) =~= byte_lens(graphemes_of(sent@)));
            lemma_bytes_of_pieces(graphemes_of(sent@));
            assert(graphemes_of(sent@).flatten() == sent@);
        }
        let sb: &[u8] = sent.as_bytes();
        let total = sb.len();
        proof {
            assert(total as int == encode_utf8(sent@).len());
            assert(sum_int(lens@.map_values(|l: usize| l as int)) <= total as int);
        }
        Ok(spans_from_lens(&lens, total))
    }
}

/// The lines of a run of characters: the pieces between newline
/// characters, with a carriage return dropped from the end of every piece
/// that preceded a newline, and without the empty piece that a trailing
/// newline would leave.
pub open spec fn lines_of(s: Seq<char>) -> Seq<Seq<char>> {
    let ps = split_at_seps(s, seq!['\n']);
    let qs = Seq::new(
        ps.len(),
        |i: int|
            if i < ps.len() - 1 {
                strip_cr(ps[i])
            } else {
                ps[i]
            },
    );
    if qs.last().len() == 0 {
        qs.drop_last()
    } else {
        qs
    }
}

/// A run of characters without its trailing carriage return, if any.
pub open spec fn strip_cr(p: Seq<char>) -> Seq<char> {
    if p.len() > 0 && p.last() == '\r' {
        p.drop_last()
    } else {
        p
    }
}

/// Tokenize a string into its lines, discarding the line endings.
#[derive(Debug)]
pub struct LineTokenizer;

impl LineTokenizer {
    /// The lines of `sent`, each without its line ending.
    fn lines(sent: &str) -> (r: Vec<String>)
        ensures
            r@.map_values(|t: String| t@) == lines_of(sent@),
    {
        let sv = chars_vec(sent);
        let mut nl: Vec<char> = Vec::new();
        nl.push('\n');
        proof {
            assert(nl@ =~= seq!['\n']);
        }
        let pieces = split_exec(&sv, &nl);
        let ghost ps = split_at_seps(sent@, seq!['\n']);
        let mut r: Vec<String> = Vec::new();
        let mut i: usize = 0;
        while i < pieces.len()
            invariant
                pieces@.map_values(|p: Vec<char>| p@) == ps,
                i <= pieces@.len(),
                r@.len() == i,
                forall|j: int|
                    0 <= j < i ==> (#[trigger] r@[j])@ == if j < pieces@.len() - 1 {
                        strip_cr(ps[j])
                    } else {
                        ps[j]
                    },
            decreases pieces@.len() - i,
        {
            let p = &pieces[i];
            proof {
                assert(p@ == ps[i as int]);
            }
            if i + 1 < pieces.len() && p.len() > 0 && p[p.len() - 1] == '\r' {
                let stripped = subvec(p, 0, p.len() - 1);
                proof {
                    assert(p@.subrange(0, p@.len() - 1) =~= p@.drop_last());
                }
                r.push(string_from_chars(&stripped));
            } else {
                let whole = subvec(p, 0, p.len());
                proof {
                    assert(p@.subrange(0, p@.len() as int) =~= p@);
                }
                r.push(string_from_chars(&whole));
            }
            i = i + 1;
        }
        let ghost qs = Seq::new(
            ps.len(),
            |j: int|
                if j < ps.len() - 1 {
                    strip_cr(ps[j])
                } else {
                    ps[j]
                },
        );
        proof {
            assert(r@.map_values(|t: String| t@) =~= qs);
        }
        if r.len() > 0 && r[r.len() - 1].as_str().is_empty() {
            let _last = r.pop();
            proof {
                assert(qs.last().len() == 0);
                assert(r@.map_values(|t: String| t@) =~= qs.drop_last());
            }
        } else {
            proof {
                assert(qs.last().len() != 0);
            }
        }
        r
    }
}

impl TokenizerI for LineTokenizer {
    open spec fn spec_tokens(&self, s: Seq<char>) -> Seq<Seq<char>> {
        lines_of(s)
    }

    /// Spans of the lines counted in bytes, each line laid out directly
    /// after the previous one, the line endings not counted.
    open spec fn spec_spans(&self, s: Seq<char>) -> Seq<(int, int)> {
        span_seq(byte_lens(lines_of(s)), 0, 0)
    }

    open spec fn spec_spans_ok(&self, s: Seq<char>) -> bool {
        true
    }

    fn tokenize(&self, sent: &str) -> (r: Vec<String>) {
        LineTokenizer::lines(sent)
    }

    fn span_tokenize(&self, sent: &str) -> (r: Result<Vec<Token>, TokenizeError>) {
        let ls = LineTokenizer::lines(sent);
        let mut lens: Vec<usize> = Vec::new();
        let mut i: usize = 0;
        while i < ls.len()
            invariant
                ls@.map_values(|t: String| t@) == lines_of(sent@),
                i <= ls@.len(),
                lens@.len() == i,
                forall|k: int|
                    0 <= k < i ==> (#[trigger] lens@[k]) as int == byte_lens(lines_of(sent@))[k],
            decreases ls@.len() - i,
        {
            let l: &String = &ls[i];
            proof {
                assert(l@ == lines_of(sent@)[i as int]);
            }
            let lb: &[u8] = l.as_str().as_bytes();
            lens.push(lb.len());
            i = i + 1;
        }
        proof {
            assert(lens@.map_values(|l: usize| l as int) =~= byte_lens(lines_of(sent@)));
            lemma_lines_bytes(sent@);
        }
        let sb: &[u8] = sent.as_bytes();
        let total = sb.len();
        proof {
            assert(total as int == encode_utf8(sent@).len());
        }
        Ok(spans_from_lens(&lens, total))
    }
}

/// The lines of a run together take no more bytes than the run itself.
proof fn lemma_lines_bytes(s: Seq<char>)
    ensures
        sum_int(byte_lens(lines_of(s))) <= encode_utf8(s).len(),
{
    let ps = split_at_seps(s, seq!['\n']);
    let qs = Seq::new(
        ps.len(),
        |i: int|
            if i < ps.len() - 1 {
                strip_cr(ps[i])
            } else {
                ps[i]
            },
    );
    lemma_split_join(s, seq!['\n']);
    lemma_join_bytes_ge(ps, seq!['\n']);
    assert(sum_int(byte_lens(ps)) <= encode_utf8(s).len());
    assert(sum_int(byte_lens(qs)) <= sum_int(byte_lens(ps))) by {
        assert forall|i: int| 0 <= i < byte_lens(qs).len() implies byte_lens(qs)[i] <= byte_lens(
            ps,
        )[i] by {
            lemma_strip_cr_bytes(ps[i]);
        }
        crate::text::lemma_sum_le_pointwise(byte_lens(qs), byte_lens(ps));
    }
    if qs.last().len() == 0 {
        assert(byte_lens(lines_of(s)) =~= byte_lens(qs).drop_last());
        assert forall|i: int| 0 <= i < byte_lens(qs).len() implies byte_lens(qs)[i] >= 0 by {
            assert(byte_lens(qs)[i] == encode_utf8(qs[i]).len() as int);
        }
        lemma_sum_drop_last_le(byte_lens(qs));
    } else {
        assert(byte_lens(lines_of(s)) =~= byte_lens(qs));
    }
}

/// Dropping a carriage return never lengthens the bytes of a piece.
proof fn lemma_strip_cr_bytes(p: Seq<char>)
    ensures
        encode_utf8(strip_cr(p)).len() <= encode_utf8(p).len(),
{
    if p.len() > 0 && p.last() == '\r' {
        lemma_encode_concat(p.drop_last(), seq![p.last()]);
        assert(p =~= p.drop_last() + seq![p.last()]);
    }
}

/// Dropping the last length never increases a sum of non-negative ones.
proof fn lemma_sum_drop_last_le(a: Seq<int>)
    requires
        a.len() >= 1,
        forall|i: int| 0 <= i < a.len() ==> a[i] >= 0,
    ensures
        sum_int(a.drop_last()) <= sum_int(a),
    decreases a.len(),
{
    if a.len() == 1 {
        assert(a.drop_last() =~= Seq::<int>::empty());
        assert(sum_int(a) == a[0] + sum_int(a.drop_first()));
        assert(a.drop_first() =~= Seq::<int>::empty());
    } else {
        lemma_sum_drop_last_le(a.drop_first());
        assert(a.drop_last().drop_first() =~= a.drop_first().drop_last());
        assert(a.drop_last()[0] == a[0]);
        assert(sum_int(a.drop_last()) == a[0] + sum_int(a.drop_first().drop_last()));
        assert(sum_int(a) == a[0] + sum_int(a.drop_first()));
    }
}

} // verus!
