//! Attendance determination and aggregation: local-day arithmetic, the
//! check-in/check-out decision, per-day summaries and the small request
//! rules around them.

pub mod polarity;
pub mod clock;
pub mod event;
pub mod resolver;
pub mod aggregate;
pub mod present;
pub mod admin;
pub mod account;
