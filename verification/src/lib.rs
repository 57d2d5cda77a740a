//! A shared-household ledger engine: exact fixed-point money, proportional
//! expense splitting with penny-accurate rounding, greedy debt settlement,
//! and windowed balance aggregation.
//!
//! The engines are pure computations over records already in memory:
//! `balance` builds the per-user signed balance map from raw records,
//! `settle` nets it into a transfer plan, `prorate` splits one expenditure
//! across weighted participants so the shares sum exactly to the total, and
//! `totals` aggregates spending over the named date windows. Around them
//! stand the value types (`money`, `date`, `records`), their text forms
//! (`text`), the viewer-facing row annotations (`display`), and the session
//! pieces the authentication layer consumes (`auth`, `session`).

pub mod auth;
pub mod balance;
pub mod date;
pub mod display;
pub mod money;
pub mod prorate;
pub mod records;
pub mod session;
pub mod settle;
pub mod text;
pub mod totals;
