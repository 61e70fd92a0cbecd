//! A per-user, per-date ledger of signed adjustments.
//!
//! Each user owns, for each calendar date, an append-only log of adjustments
//! (an unsigned magnitude together with an addition or subtraction mark).
//! The total for a date is the signed sum of its log, folded in submission
//! order. Reads of never-written users or dates yield a total of zero, and a
//! recording that would push a total outside the `i32` range is rejected and
//! leaves the log untouched.

pub mod model;
pub mod record;
pub mod tracker;

pub use model::LedgerError;
pub use model::Op;
pub use record::UserRecord;
pub use tracker::CalorieTracker;
