//! S-expression tokenizer.
//!
//! `SExprTokenizer` is meant to find parenthesized expressions in a
//! string: it divides a string into a sequence of substrings that are
//! either parenthesized expressions (including any nested ones) or other
//! whitespace-separated tokens.  The division itself is not implemented
//! yet; the type and its configuration are in place for callers.

use vstd::prelude::*;

verus! {

/// A tokenizer that divides strings into s-expressions.  By default the
/// characters `(` and `)` are treated as the open and close parentheses,
/// and non-matching parentheses are an error (`strict`).
#[derive(Debug)]
pub struct SExprTokenizer<'a> {
    /// The pair of characters serving as open and close parentheses.
    pub parens: &'a str,
    /// Whether non-matching parentheses are refused.
    pub strict: bool,
}

impl Default for SExprTokenizer<'_> {
    /// The standard configuration: round parentheses, strict matching.
    fn default() -> (r: Self)
        ensures
            r.parens@ == "()"@,
            r.strict,
    {
        SExprTokenizer { parens: "()", strict: true }
    }
}

} // verus!
