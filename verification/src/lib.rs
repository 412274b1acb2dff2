//! A revenue splitter: validated basis-point shares, a protocol fee, and a
//! whitelist of verified recipients that strict mode enforces and relaxed
//! mode filters by.
//!
//! `splitter` holds the splitter's state and its operations, `shares` and
//! `payout` the arithmetic of a split, and `laws` what holds of every split.

pub mod errors;
pub mod laws;
pub mod payout;
pub mod shares;
pub mod splitter;

pub use errors::Error;
pub use payout::{distribute, Transfer};
pub use shares::{bps_amount, check_shares, Recipient, BPS_DENOMINATOR};
pub use splitter::{Config, SplitPlan, SplitterV3};
