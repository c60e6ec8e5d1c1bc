//! Tokenizer interface.

use crate::tokenize::util::{Token, TokenizeError};
use vstd::prelude::*;

verus! {

/// A processing interface for tokenizing a string.  Each tokenizer states
/// how it divides a run of characters (`spec_tokens`) and where the
/// resulting tokens sit (`spec_spans`); the executable methods return
/// exactly those divisions.
pub trait TokenizerI: Sized {
    /// The tokens of a run of characters, as this tokenizer divides it.
    spec fn spec_tokens(&self, s: Seq<char>) -> Seq<Seq<char>>;

    /// The spans of the tokens of a run of characters, where spans are
    /// counted in whatever unit this tokenizer documents.
    spec fn spec_spans(&self, s: Seq<char>) -> Seq<(int, int)>;

    /// Whether span computation succeeds on this input.
    spec fn spec_spans_ok(&self, s: Seq<char>) -> bool;

    /// Return a tokenized copy of `sent`.
    fn tokenize(&self, sent: &str) -> (r: Vec<String>)
        ensures
            r@.map_values(|t: String| t@) == self.spec_tokens(sent@);

    /// Identify the tokens of `sent` by offsets: pairs `(start, end)`
    /// such that the piece of the sentence between them is the token.
    fn span_tokenize(&self, sent: &str) -> (r: Result<Vec<Token>, TokenizeError>)
        ensures
            r is Ok <==> self.spec_spans_ok(sent@),
            match r {
                Ok(v) => v@.map_values(|t: Token| (t.0 as int, t.1 as int)) == self.spec_spans(
                    sent@,
                ),
                Err(_) => true,
            };

    /// Apply [`TokenizerI::tokenize`] to each sentence.
    fn tokenize_sents(&self, sents: &Vec<&str>) -> (r: Vec<Vec<String>>)
        default_ensures
            r@.len() == sents@.len(),
            forall|i: int|
                0 <= i < r@.len() ==> (#[trigger] r@[i])@.map_values(|t: String| t@)
                    == self.spec_tokens(sents@[i]@),
    {
        let mut r: Vec<Vec<String>> = Vec::new();
        let mut i: usize = 0;
        while i < sents.len()
            invariant
                i <= sents@.len(),
                r@.len() == i,
                forall|j: int|
                    0 <= j < i ==> (#[trigger] r@[j])@.map_values(|t: String| t@)
                        == self.spec_tokens(sents@[j]@),
            decreases sents@.len() - i,
        {
            r.push(self.tokenize(sents[i]));
            i = i + 1;
        }
        r
    }

    /// Apply [`TokenizerI::span_tokenize`] to each sentence; a sentence
    /// whose spans cannot be computed contributes its error.
    fn span_tokenize_sents(&self, sents: &Vec<&str>) -> (r: Vec<
        Result<Vec<Token>, TokenizeError>,
    >)
        default_ensures
            r@.len() == sents@.len(),
            forall|i: int|
                0 <= i < r@.len() ==> ((#[trigger] r@[i]) is Ok <==> self.spec_spans_ok(
                    sents@[i]@,
                )),
            forall|i: int|
                0 <= i < r@.len() && (#[trigger] r@[i]) is Ok ==> r@[i]->Ok_0@.map_values(
                    |t: Token| (t.0 as int, t.1 as int),
                ) == self.spec_spans(sents@[i]@),
    {
        let mut r: Vec<Result<Vec<Token>, TokenizeError>> = Vec::new();
        let mut i: usize = 0;
        while i < sents.len()
            invariant
                i <= sents@.len(),
                r@.len() == i,
                forall|j: int|
                    0 <= j < i ==> ((#[trigger] r@[j]) is Ok <==> self.spec_spans_ok(sents@[j]@)),
                forall|j: int|
                    0 <= j < i && (#[trigger] r@[j]) is Ok ==> r@[j]->Ok_0@.map_values(
                        |t: Token| (t.0 as int, t.1 as int),
                    ) == self.spec_spans(sents@[j]@),
            decreases sents@.len() - i,
        {
            r.push(self.span_tokenize(sents[i]));
            i = i + 1;
        }
        r
    }
}

/// A tokenizer that divides a string into substrings by splitting on one
/// fixed delimiter string.
pub trait StringTokenizer: TokenizerI {
    /// The delimiter this tokenizer splits on.
    spec fn spec_delimiter(&self) -> Seq<char>;

    /// The delimiter this tokenizer splits on; it is never empty.
    fn delimiter(&self) -> (r: &'static str)
        ensures
            r@ == self.spec_delimiter(),
            r@.len() >= 1,
    ;
}

} // verus!
