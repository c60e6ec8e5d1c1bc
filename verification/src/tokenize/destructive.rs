//! The toolkit's own word tokenizer.
//!
//! The intended tokenizer munges its input through a cascade of
//! contraction rules adapted from Robert MacIntyre's tokenizer; those
//! rules were never implemented here, so the type is a placeholder that
//! callers can already name.

use vstd::prelude::*;

verus! {

/// A word tokenizer meant to improve on treebank-style tokenization.  It
/// assumes that its input has already been segmented into sentences.  The
/// rule cascade itself is not implemented yet, so the type carries no
/// behaviour.
pub struct NLTKWordTokenizer;

} // verus!
