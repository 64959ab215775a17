//! The vehicle types that a journey header can name.

use crate::text::{chars_of, field_spells, spells, trim, trimmed_bounds};
use vstd::prelude::*;
use vstd::string::StringExecFns;

verus! {

/// A mode of public transport.
#[derive(Clone, Copy, Debug, PartialEq, Eq, Structural)]
pub enum PublicTransportMode {
    Bus,
    Coach,
    Ferry,
    LightRail,
    Metro,
    NationalRail,
    Tram,
    Tube,
}

/// The mode that a text names: the text is trimmed and compared, ASCII letter
/// case ignored, with the full names of the modes and with the shortened
/// names that eight-column timetable fields use.
pub open spec fn mode_named(s: Seq<char>) -> Option<PublicTransportMode> {
    let name = trim(s);
    if spells(name, "bus"@) {
        Some(PublicTransportMode::Bus)
    } else if spells(name, "coach"@) {
        Some(PublicTransportMode::Coach)
    } else if spells(name, "ferry"@) {
        Some(PublicTransportMode::Ferry)
    } else if spells(name, "light rail"@) {
        Some(PublicTransportMode::LightRail)
    } else if spells(name, "metro"@) {
        Some(PublicTransportMode::Metro)
    } else if spells(name, "national rail"@) {
        Some(PublicTransportMode::NationalRail)
    } else if spells(name, "tram"@) {
        Some(PublicTransportMode::Tram)
    } else if spells(name, "tube"@) {
        Some(PublicTransportMode::Tube)
    } else if spells(name, "lightrai"@) {
        Some(PublicTransportMode::LightRail)
    } else if spells(name, "national"@) {
        Some(PublicTransportMode::NationalRail)
    } else if spells(name, "subway"@) {
        Some(PublicTransportMode::Tube)
    } else if spells(name, "rail"@) {
        Some(PublicTransportMode::NationalRail)
    } else {
        None
    }
}

impl PublicTransportMode {
    /// The mode named in the columns `from..to` of `line`, if they name one.
    pub fn from_field(line: &[char], from: usize, to: usize) -> (mode: Option<PublicTransportMode>)
        requires
            from <= to <= line@.len(),
        ensures
            mode == mode_named(line@.subrange(from as int, to as int)),
    {
        let (a, b) = trimmed_bounds(line, from, to);
        if field_spells(line, a, b, "bus") {
            Some(PublicTransportMode::Bus)
        } else if field_spells(line, a, b, "coach") {
            Some(PublicTransportMode::Coach)
        } else if field_spells(line, a, b, "ferry") {
            Some(PublicTransportMode::Ferry)
        } else if field_spells(line, a, b, "light rail") {
            Some(PublicTransportMode::LightRail)
        } else if field_spells(line, a, b, "metro") {
            Some(PublicTransportMode::Metro)
        } else if field_spells(line, a, b, "national rail") {
            Some(PublicTransportMode::NationalRail)
        } else if field_spells(line, a, b, "tram") {
            Some(PublicTransportMode::Tram)
        } else if field_spells(line, a, b, "tube") {
            Some(PublicTransportMode::Tube)
        } else if field_spells(line, a, b, "lightrai") {
            Some(PublicTransportMode::LightRail)
        } else if field_spells(line, a, b, "national") {
            Some(PublicTransportMode::NationalRail)
        } else if field_spells(line, a, b, "subway") {
            Some(PublicTransportMode::Tube)
        } else if field_spells(line, a, b, "rail") {
            Some(PublicTransportMode::NationalRail)
        } else {
            None
        }
    }

    /// The mode that `s` names, or a message that quotes `s` if it names none.
    pub fn from_str(s: &str) -> (mode: Result<PublicTransportMode, String>)
        ensures
            match mode_named(s@) {
                Some(m) => mode == Ok::<PublicTransportMode, String>(m),
                None => mode matches Err(message) && message@ == "Invalid public transport mode: "@
                    + s@,
            },
    {
        let chars = chars_of(s);
        assert(s@.subrange(0, s@.len() as int) == s@);
        match PublicTransportMode::from_field(chars.as_slice(), 0, chars.len()) {
            Some(m) => Ok(m),
            None => {
                let mut message = String::from_str("Invalid public transport mode: ");
                message.append(s);
                Err(message)
            },
        }
    }
}

} // verus!
