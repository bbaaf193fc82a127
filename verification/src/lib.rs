//! Orbit Sense: the verified core of a satellite tracker.
//!
//! The crate holds the logic of the tracker that does not depend on floating
//! point or on a user interface: the satellite catalogues and their TLE text
//! format, the overhead-pass search state machine, the selection and filter
//! state of the tracker, the persisted map-style setting, tile URLs, and the
//! iCalendar export of predicted passes.

pub mod constants;
pub mod satellites;
pub mod passes;
pub mod text;
pub mod tracker;
pub mod settings;
pub mod calendar;
pub mod display;
