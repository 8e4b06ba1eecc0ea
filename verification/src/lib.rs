//! A pairing-assignment engine: given a roster of participants and a history
//! of past pairings keyed by date, it partitions the roster into pairs (with
//! at most one leftover singleton when the roster is odd) so that the overall
//! freshness of pairings is maximized — participants who have not been paired
//! recently are preferentially paired together.
//!
//! The data model and roster state live in [`models`], the engine itself in
//! [`pairs_handler`], the rolling-log logic in [`history_handler`], and the
//! character-sequence order they share in [`text`].

pub mod history_handler;
pub mod models;
pub mod pairs_handler;
pub mod text;
