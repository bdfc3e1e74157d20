use vstd::prelude::*;

verus! {

/// Millionths of a degree in a whole degree.
pub const MICRODEGREES_PER_DEGREE: i64 = 1_000_000;

/// Largest latitude magnitude, in millionths of a degree.
pub const MAX_LATITUDE: i64 = 90_000_000;

/// Largest longitude magnitude, in millionths of a degree.
pub const MAX_LONGITUDE: i64 = 180_000_000;

/// A geographic position: latitude and longitude in millionths of a degree
/// (about 0.1 m of precision), altitude in whole metres.
#[derive(Debug, Clone, Copy, PartialEq, Eq, Hash, Structural)]
pub struct Location {
    pub latitude: i64,
    pub longitude: i64,
    pub altitude_meters: i64,
}

impl Location {
    /// Latitude within [-90, 90] degrees and longitude within [-180, 180].
    pub open spec fn wf(&self) -> bool {
        -MAX_LATITUDE <= self.latitude <= MAX_LATITUDE
            && -MAX_LONGITUDE <= self.longitude <= MAX_LONGITUDE
    }

    /// Builds a location, refusing coordinates out of range.
    pub fn new(latitude: i64, longitude: i64, altitude_meters: i64) -> (r: Option<Location>)
        ensures
            r matches Some(l) ==> l.wf() && l == (Location { latitude, longitude, altitude_meters }),
            r is None <==> !(Location { latitude, longitude, altitude_meters }).wf(),
    {
        let l = Location { latitude, longitude, altitude_meters };
        if -MAX_LATITUDE <= latitude && latitude <= MAX_LATITUDE && -MAX_LONGITUDE <= longitude
            && longitude <= MAX_LONGITUDE {
            Some(l)
        } else {
            None
        }
    }
}

} // verus!
