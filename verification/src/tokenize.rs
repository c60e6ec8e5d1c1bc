//! Tokenizers divide strings into lists of substrings, together with the
//! utilities they share.

pub mod api;
pub mod destructive;
pub mod legality_principle;
pub mod sexpr;
pub mod simple;
pub mod util;
