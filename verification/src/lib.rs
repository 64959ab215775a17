//! Service frequency of public transport stops, from fixed-width timetable
//! files.
//!
//! The work is done in four steps:
//!
//! * [`records`] decodes the lines of a timetable file into records;
//! * [`stops`] builds the table that gives every stop identifier its
//!   canonical code;
//! * [`hour_grouping`] rebuilds the journeys from the records and counts
//!   the departures of every stop, hour by hour;
//! * [`criteria`] judges every stop by its counts.
//!
//! [`encoding`] writes records back into lines, [`atco`] holds the stop
//! identifiers and the tables keyed by them, and [`text`] the handling of
//! fixed-width fields.

pub mod atco;
pub mod criteria;
pub mod encoding;
pub mod hour_grouping;
pub mod public_transport_mode;
pub mod records;
pub mod stops;
pub mod text;
