//! Offline reverse geocoding: which place of a catalog lies nearest to a given
//! latitude and longitude.
//!
//! Places are kept as points of an integer lattice around the unit sphere, so
//! that the nearest place by straight-line distance is the nearest by
//! great-circle distance, and every distance is an exact integer.

use vstd::prelude::*;

pub mod geocoder;
pub mod index;
pub mod lattice;

pub use geocoder::{BuildError, Degrees, Locations, Record, ReverseGeocoder, SearchResult};
pub use index::{Nearest, PointIndex, Refusal, CROWD, MAX_ENTRIES};
pub use lattice::{Point, SPAN, UNIT};

verus! {

/// The greeting for a visitor of the given name.
pub fn hello(name: &str) -> (r: String)
    ensures
        r@ == "Hello, "@ + name@ + "!\n"@,
{
    let mut r = String::from_str("Hello, ");
    r.append(name);
    r.append("!\n");
    r
}

} // verus!
