//! A fixed-capacity URL query-string parser.
//!
//! Query parameters are parsed into pre-sized storage: a bounded number of
//! slots, each holding a key and a value in bounded byte buffers. Keys and
//! values are percent-decoded (`%XX` escapes and `+` as space) while they are
//! stored. Every boundary condition — a key or value longer than its buffer,
//! more pairs than there are slots, a malformed escape — degrades silently
//! (truncation, dropped pairs, a literal `%`); no operation here fails.

pub mod decode;
pub mod table;
pub mod text;

pub use decode::percent_decode;
pub use table::StackParam;
pub use table::StackQueryParams;
pub use text::StackString;

use vstd::prelude::*;

verus! {

/// Default maximum number of query parameters that can be stored.
pub const MAX_PARAM_COUNT: usize = 16;

/// Default maximum length for parameter keys in bytes.
pub const MAX_KEY_SIZE: usize = 32;

/// Default maximum length for parameter values in bytes.
pub const MAX_VALUE_SIZE: usize = 128;

} // verus!
