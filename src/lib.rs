//! Generation of source text for several target languages from a
//! language-agnostic tree of code constructs.

pub mod ir;
pub mod text;
pub mod rust_gen;
pub mod fmt_code;
