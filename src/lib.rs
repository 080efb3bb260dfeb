//! Splitting a buffer of concatenated JSON documents into records, one per
//! newline that stands outside a quoted string.
//!
//! The newlines of a window are found by a matcher (`matcher`); the
//! segmenter (`segmenter`) replays the window's bytes in order to keep count
//! of unescaped quotes, and keeps the newlines that follow an even count.
//! `scan` states what the records of a buffer are, byte by byte.
use vstd::prelude::*;

pub mod location_map;
pub mod matcher;
pub mod newline;
pub mod register;
pub mod scan;
pub mod segmenter;

pub use location_map::{LocationMap, LocationMapIter};
pub use matcher::{find_all_matches_fallback, find_all_matches_m256, find_all_matches_m512};
pub use newline::{LocMapIter, NewLinePositionIter};
pub use register::M256RegisterWrapper;
pub use segmenter::MultiJsonl256BitsParser;

verus! {

} // verus!
