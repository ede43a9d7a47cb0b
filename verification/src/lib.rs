//! An editable model of Standard MIDI File tracks.
//!
//! A track arrives as a delta-time-encoded stream of events. This crate
//! converts such a stream to an absolute-tick form, supports structured
//! edits on it (appending and deleting notes), restores the format's
//! ordering discipline (ticks non-decreasing, note-offs before note-ons at
//! the same tick, the end-of-track event last), rebuilds the delta times for
//! serialization, and derives tempo and time-signature change-point maps
//! from a track's meta events.
//!
//! Reading and writing the file bytes themselves is the business of an
//! outside codec and of the application around this crate; everything here
//! works on parsed event values.
//!
//! The ordering discipline is stated and proved in `track`:
//! `lemma_delta_round_trip` (the rebuilt delta-times encode the ticks
//! losslessly), `lemma_repaired_ticks_sorted` (ticks never decrease after
//! repair), `lemma_repaired_tie_break` (no note-on immediately before a
//! note-off at the same tick), `lemma_end_of_track_placement` (the
//! end-of-track event last, at the largest tick of the others), and
//! `lemma_clean_idempotent` with `lemma_sort_and_fix_stable` (cleaning
//! twice changes nothing).

pub mod data;
pub mod event;
pub mod maps;
pub mod order;
pub mod pianoroll;
pub mod play;
pub mod track;
pub mod util;
pub mod workspace;
