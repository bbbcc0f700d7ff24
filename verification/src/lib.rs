//! Aggregation of IP address blocks in CIDR notation.
//!
//! A list of blocks is reduced to the shortest list of blocks that covers
//! exactly the same addresses: duplicates disappear, a block inside a larger
//! one is absorbed, and aligned neighbours are joined. IPv4 and IPv6 are kept
//! apart throughout.
//!
//! `aggregate` is the entry point, `parse_nets` reads its input from text,
//! and the module `laws` states what holds of every result.

pub mod family;
pub mod align;
pub mod block;
pub mod decompose;
pub mod sort;
pub mod merge;
pub mod aggregate;
pub mod laws;
pub mod lines;
pub mod text;

pub use aggregate::{aggregate, aggregate_family, gather};
pub use block::{canonicalize, Block, Interval, InvalidBlockError};
pub use decompose::{decompose_range, largest_aligned_block};
pub use family::Family;
pub use merge::merge_intervals;
pub use sort::sort_intervals;
pub use text::{block_from_parsed, parse_block, parse_nets, ParseError, ParseErrorKind, ParsedNet};
