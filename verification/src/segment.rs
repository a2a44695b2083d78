//! The marker repertoire of a baseline JPEG stream.

use vstd::prelude::*;

verus! {

/// The kinds of segment a `0xFFxx` marker can open.
#[derive(Clone, Copy, Debug, PartialEq, Eq, Structural)]
pub enum SegmentType {
    APPN,
    COM,
    DAC,
    DHP,
    DHT,
    DNL,
    DQT,
    DRI,
    EOI,
    EXP,
    JPGN,
    RSTN,
    SOF0,
    SOI,
    SOS,
    TEM,
}

/// Which segment a marker word opens, or `None` for a marker outside
/// the baseline repertoire.
pub open spec fn spec_from_marker(marker: u16) -> Option<SegmentType> {
    if marker == 0xFF01 {
        Some(SegmentType::TEM)
    } else if marker == 0xFFC0 {
        Some(SegmentType::SOF0)
    } else if marker == 0xFFC4 {
        Some(SegmentType::DHT)
    } else if marker == 0xFFCC {
        Some(SegmentType::DAC)
    } else if 0xFFD0 <= marker <= 0xFFD7 {
        Some(SegmentType::RSTN)
    } else if marker == 0xFFD8 {
        Some(SegmentType::SOI)
    } else if marker == 0xFFD9 {
        Some(SegmentType::EOI)
    } else if marker == 0xFFDA {
        Some(SegmentType::SOS)
    } else if marker == 0xFFDB {
        Some(SegmentType::DQT)
    } else if marker == 0xFFDC {
        Some(SegmentType::DNL)
    } else if marker == 0xFFDD {
        Some(SegmentType::DRI)
    } else if marker == 0xFFDE {
        Some(SegmentType::DHP)
    } else if marker == 0xFFDF {
        Some(SegmentType::EXP)
    } else if 0xFFE0 <= marker <= 0xFFEF {
        Some(SegmentType::APPN)
    } else if 0xFFF0 <= marker <= 0xFFFD {
        Some(SegmentType::JPGN)
    } else if marker == 0xFFFE {
        Some(SegmentType::COM)
    } else {
        None
    }
}

impl SegmentType {
    /// Classifies a marker word.
    pub fn from_marker(marker: u16) -> (r: Option<SegmentType>)
        ensures
            r == spec_from_marker(marker),
    {
        if marker == 0xFF01 {
            Some(SegmentType::TEM)
        } else if marker == 0xFFC0 {
            Some(SegmentType::SOF0)
        } else if marker == 0xFFC4 {
            Some(SegmentType::DHT)
        } else if marker == 0xFFCC {
            Some(SegmentType::DAC)
        } else if 0xFFD0 <= marker && marker <= 0xFFD7 {
            Some(SegmentType::RSTN)
        } else if marker == 0xFFD8 {
            Some(SegmentType::SOI)
        } else if marker == 0xFFD9 {
            Some(SegmentType::EOI)
        } else if marker == 0xFFDA {
            Some(SegmentType::SOS)
        } else if marker == 0xFFDB {
            Some(SegmentType::DQT)
        } else if marker == 0xFFDC {
            Some(SegmentType::DNL)
        } else if marker == 0xFFDD {
            Some(SegmentType::DRI)
        } else if marker == 0xFFDE {
            Some(SegmentType::DHP)
        } else if marker == 0xFFDF {
            Some(SegmentType::EXP)
        } else if 0xFFE0 <= marker && marker <= 0xFFEF {
            Some(SegmentType::APPN)
        } else if 0xFFF0 <= marker && marker <= 0xFFFD {
            Some(SegmentType::JPGN)
        } else if marker == 0xFFFE {
            Some(SegmentType::COM)
        } else {
            None
        }
    }
}

} // verus!
