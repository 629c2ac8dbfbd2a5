//! Per-key minimum, mean and maximum over a large buffer of `key;value` lines.
//!
//! The buffer is cut into byte ranges that begin and end at line boundaries
//! ([`ranges`]). Each range is scanned on its own into a private table
//! ([`worker`], [`scanner`], [`fixed_point`], [`table`], [`statistic`]); the
//! tables are merged ([`reducer`]) and the merged table is rendered as one
//! `key;min/mean/max` line per key, in the byte order of the keys ([`order`],
//! [`report`]). [`pipeline`] runs these steps one after the other on one
//! thread; a caller with a thread pool hands the ranges out itself.
//!
//! Values are kept as integers scaled by ten, so all arithmetic is exact. The
//! mean is rounded to one fractional digit, a tie away from zero.
//!
//! What is done with lines that are no records:
//! - a line without a separator is skipped;
//! - a line whose value is not of the grammar (an optional `-`, digits, a
//!   point, one digit), or does not fit 32 bits when scaled, is skipped;
//! - a line with a separator whose key is not valid UTF-8 fails the scan;
//! - bytes behind the last terminator are no line and are not looked at.
//!
//! [`records`] says what a buffer means, and [`laws`] what holds of
//! aggregation whatever the grouping and the order.

pub mod fixed_point;
pub mod laws;
pub mod order;
pub mod pipeline;
pub mod ranges;
pub mod records;
pub mod reducer;
pub mod report;
pub mod scanner;
pub mod statistic;
pub mod table;
pub mod worker;
