//! Display ranges and the vertical angle each one spans.
//!
//! The renderer exposes a fixed ladder of map ranges in nautical
//! miles. Each range subtends a fixed vertical angle; the library
//! carries the angles as integers, in microdegrees and microradians,
//! so the selection arithmetic stays exact.

use vstd::prelude::*;

verus! {

/// A selectable display range, in nautical miles.
#[derive(Copy, Clone, Debug, PartialEq, Eq, Structural)]
pub enum Range {
    Nm2,
    Nm5,
    Nm10,
    Nm20,
    Nm40,
    Nm80,
    Nm160,
    Nm320,
    Nm640,
}

impl Range {
    /// The vertical angle this range spans, in microdegrees.
    pub fn vertical_microdegrees(self) -> (r: u32)
        ensures
            r == spec_vertical_microdegrees(self),
    {
        match self {
            Range::Nm2 => 74117,
            Range::Nm5 => 185292,
            Range::Nm10 => 370583,
            Range::Nm20 => 741167,
            Range::Nm40 => 1482334,
            Range::Nm80 => 2964667,
            Range::Nm160 => 5929335,
            Range::Nm320 => 12191779,
            Range::Nm640 => 24383557,
        }
    }

    /// The vertical angle this range spans, in microradians.
    pub fn vertical_microradians(self) -> (r: u32)
        ensures
            r == spec_vertical_microradians(self),
    {
        match self {
            Range::Nm2 => 1294,
            Range::Nm5 => 3234,
            Range::Nm10 => 6468,
            Range::Nm20 => 12936,
            Range::Nm40 => 25872,
            Range::Nm80 => 51743,
            Range::Nm160 => 103486,
            Range::Nm320 => 212787,
            Range::Nm640 => 425573,
        }
    }

    /// How many one-degree tile rows the range spans vertically: the
    /// angle in whole degrees, rounded up, plus one row of slack.
    pub fn vertical_tiles_loaded(self) -> (r: u32)
        ensures
            r == (spec_vertical_microdegrees(self) + 999999) / 1000000 + 1,
    {
        (self.vertical_microdegrees() + 999999) / 1000000 + 1
    }

    /// The range's display label.
    pub fn to_str(self) -> (r: &'static str)
    {
        match self {
            Range::Nm2 => "2 nm",
            Range::Nm5 => "5 nm",
            Range::Nm10 => "10 nm",
            Range::Nm20 => "20 nm",
            Range::Nm40 => "40 nm",
            Range::Nm80 => "80 nm",
            Range::Nm160 => "160 nm",
            Range::Nm320 => "320 nm",
            Range::Nm640 => "640 nm",
        }
    }
}

/// The vertical angle of a range, in microdegrees.
pub open spec fn spec_vertical_microdegrees(r: Range) -> u32 {
    match r {
        Range::Nm2 => 74117u32,
        Range::Nm5 => 185292u32,
        Range::Nm10 => 370583u32,
        Range::Nm20 => 741167u32,
        Range::Nm40 => 1482334u32,
        Range::Nm80 => 2964667u32,
        Range::Nm160 => 5929335u32,
        Range::Nm320 => 12191779u32,
        Range::Nm640 => 24383557u32,
    }
}

/// The vertical angle of a range, in microradians.
pub open spec fn spec_vertical_microradians(r: Range) -> u32 {
    match r {
        Range::Nm2 => 1294u32,
        Range::Nm5 => 3234u32,
        Range::Nm10 => 6468u32,
        Range::Nm20 => 12936u32,
        Range::Nm40 => 25872u32,
        Range::Nm80 => 51743u32,
        Range::Nm160 => 103486u32,
        Range::Nm320 => 212787u32,
        Range::Nm640 => 425573u32,
    }
}

} // verus!
