//! Finds runs of printable ASCII in a byte buffer and ranks them, optionally
//! by how much their letter-pair statistics resemble a reference model.

pub mod bigram;
pub mod codec;
pub mod options;
pub mod rank;
pub mod scan;
pub mod wide;

pub use bigram::BigramMap;
pub use codec::{DecodeError, ENCODED_LEN};
pub use options::{FormatOption, SortDirection, SortOption};
pub use rank::{search, sort_by_bigrams, sort_by_position, sort_results};
pub use scan::{find_strings, is_printable, FoundString};
