//! Reads stock holdings from an outline file and schedules rate-limited price queries.
//!
//! - [`limiter`]: the sliding-window admission rule and the scheduler state machine.
//! - [`tree`]: an arena-backed n-ary tree and the outline reader that builds it.
//! - [`stocks`]: the stock-line grammar, the stock list and its sanity checks.
//! - [`text`]: white-space trimming and other string helpers.
//! - [`type_tools`]: small conveniences on `Option`, `bool` and `Vec`.

pub mod limiter;
pub mod stocks;
pub mod text;
pub mod tree;
pub mod type_tools;
