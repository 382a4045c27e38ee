//! The reverse geocoder: a catalog of places and the index over them.

use vstd::prelude::*;
use crate::index::{is_nearest, nearest_in, refusal, within, PointIndex, Refusal, MAX_ENTRIES};
use crate::lattice::{lemma_sq_dist_nonnegative, lemma_sq_dist_zero, Point};

verus! {

/// An angle in degrees, carried as the bit pattern of an IEEE 754 double.
///
/// The library never computes with the number: it keeps it, hands it back,
/// and tells whether it is finite.
#[derive(Clone, Copy, Debug, PartialEq, Eq, Structural)]
pub struct Degrees {
    pub bits: u64,
}

impl Degrees {
    /// The exponent field of the number: the eleven bits below the sign bit.
    pub open spec fn exponent(self) -> int {
        (self.bits as int / 0x10_0000_0000_0000) % 0x800
    }

    /// Whether the number is finite: an infinity or a NaN has an exponent
    /// field of all ones.
    pub open spec fn finite(self) -> bool {
        self.exponent() != 0x7ff
    }

    /// The angle with the given bit pattern.
    pub fn from_bits(bits: u64) -> (r: Degrees)
        ensures
            r.bits == bits,
    {
        Degrees { bits }
    }

    /// The bit pattern of the angle.
    pub fn to_bits(&self) -> (bits: u64)
        ensures
            bits == self.bits,
    {
        self.bits
    }

    /// Tells whether the number is finite.
    pub fn is_finite(&self) -> (r: bool)
        ensures
            r == self.finite(),
    {
        let bits: u64 = self.bits;
        let field: u64 = (bits >> 52) & 0x7ff;
        assert(field == (bits / 0x10_0000_0000_0000) % 0x800) by (bit_vector)
            requires
                field == (bits >> 52) & 0x7ff,
        ;
        field != 0x7ff
    }
}

/// A place of the catalog.
#[derive(Clone, Debug)]
pub struct Record {
    /// Latitude
    pub lat: Degrees,
    /// Longitude
    pub lon: Degrees,
    /// Location name
    pub name: String,
    /// Administrative district 1
    pub admin1: String,
    /// Administrative district 2
    pub admin2: String,
    /// Country code
    pub cc: String,
}

/// The lattice points of a list of places.
pub open spec fn points_of(places: Seq<(Point, Record)>) -> Seq<Point> {
    Seq::new(places.len(), |i: int| places[i].0)
}

/// The catalog: places in the order in which they were read, each with its lattice point.
pub struct Locations {
    records: Vec<(Point, Record)>,
}

impl View for Locations {
    type V = Seq<(Point, Record)>;

    closed spec fn view(&self) -> Seq<(Point, Record)> {
        self.records@
    }
}

impl Locations {
    /// A catalog without places.
    pub fn new() -> (r: Locations)
        ensures
            r@ == Seq::<(Point, Record)>::empty(),
    {
        Locations { records: Vec::new() }
    }

    /// Adds a place at the end of the catalog.
    pub fn push(&mut self, at: Point, record: Record)
        ensures
            final(self)@ == old(self)@.push((at, record)),
    {
        self.records.push((at, record));
    }

    /// The number of places.
    pub fn len(&self) -> (n: usize)
        ensures
            n == self@.len(),
    {
        self.records.len()
    }
}

/// Search result from querying a lat/long.
#[derive(Clone, Debug)]
pub struct SearchResult<'a> {
    /// Squared distance from the query to the place, in squared lattice steps.
    pub distance: u64,
    /// Position of the place in the catalog.
    pub index: usize,
    /// Closest place information.
    pub record: &'a Record,
}

/// The first place of a catalog that cannot join the index, and why.
#[derive(Clone, Copy, Debug, PartialEq, Eq, Structural)]
pub struct BuildError {
    pub index: usize,
    pub why: Refusal,
}

/// A reverse geocoder.
pub struct ReverseGeocoder {
    locations: Locations,
    index: PointIndex,
}

impl ReverseGeocoder {
    /// The places of the geocoder.
    pub closed spec fn locations(&self) -> Seq<(Point, Record)> {
        self.locations@
    }

    /// The lattice points of the places.
    pub open spec fn points(&self) -> Seq<Point> {
        points_of(self.locations())
    }

    /// The invariant: the index holds the points of the places, in their order.
    pub closed spec fn wf(&self) -> bool {
        &&& self.index.wf()
        &&& self.index.points() == points_of(self.locations@)
    }

    /// What `search` finds: the squared distance and the position of the place.
    pub open spec fn answer(&self, loc: (Degrees, Degrees), at: Point) -> Option<(u64, usize)> {
        if self.points().len() == 0 || !loc.0.finite() || !loc.1.finite() || !at.in_range() {
            None
        } else {
            match nearest_in(self.points(), at) {
                Some(n) => Some((n.distance, n.item)),
                None => None,
            }
        }
    }

    /// The places of a geocoder are not too many, and the point of each is in range.
    pub proof fn lemma_wf_within(&self)
        requires
            self.wf(),
        ensures
            within(self.points()),
    {
        self.index.lemma_wf_within();
    }

    /// What `search` returns: the place that `answer` names.
    pub open spec fn spec_search(&self, loc: (Degrees, Degrees), at: Point) -> Option<
        SearchResult<'_>,
    > {
        match self.answer(loc, at) {
            Some(found) => Some(
                SearchResult {
                    distance: found.0,
                    index: found.1,
                    record: &self.locations()[found.1 as int].1,
                },
            ),
            None => None,
        }
    }

    /// Builds the geocoder over a catalog. Only a catalog of more than
    /// `MAX_ENTRIES` places, or one with a point out of range, cannot be
    /// built: the error then names the first place that the index refuses.
    pub fn new(locations: Locations) -> (r: Result<ReverseGeocoder, BuildError>)
        ensures
            r is Ok <==> locations@.len() <= MAX_ENTRIES && forall|i: int|
                0 <= i < locations@.len() ==> (#[trigger] locations@[i]).0.in_range(),
            match r {
                Ok(geocoder) => {
                    &&& geocoder.wf()
                    &&& geocoder.locations() == locations@
                    &&& forall|i: int|
                        0 <= i < locations@.len() ==> refusal(
                            points_of(locations@).take(i),
                            #[trigger] points_of(locations@)[i],
                        ) is None
                },
                Err(e) => {
                    &&& e.index < locations@.len()
                    &&& refusal(
                        points_of(locations@).take(e.index as int),
                        points_of(locations@)[e.index as int],
                    ) == Some(e.why)
                    &&& forall|i: int|
                        0 <= i < e.index ==> refusal(
                            points_of(locations@).take(i),
                            #[trigger] points_of(locations@)[i],
                        ) is None
                },
            },
    {
        let ghost points = points_of(locations@);
        let n: usize = locations.records.len();
        let mut index = PointIndex::new();
        let mut i: usize = 0;
        assert(index.points() =~= points.take(0));
        while i < n
            invariant
                i <= n,
                n == locations@.len(),
                points == points_of(locations@),
                index.wf(),
                index.points() == points.take(i as int),
                forall|j: int| 0 <= j < i ==> refusal(points.take(j), #[trigger] points[j]) is None,
            decreases n - i,
        {
            assert(points[i as int] == locations.records@[i as int].0);
            match index.insert(&locations.records[i].0) {
                Ok(_) => {},
                Err(why) => {
                    assert(!locations@[i as int].0.in_range() || locations@.len() > MAX_ENTRIES);
                    return Err(BuildError { index: i, why });
                },
            }
            assert(points.take(i as int).push(points[i as int]) =~= points.take(i + 1));
            i += 1;
        }
        proof {
            assert(points.take(n as int) =~= points);
            assert forall|i: int| 0 <= i < locations@.len() implies (#[trigger] locations@[i]).0
                .in_range() by {
                assert(refusal(points.take(i), points[i]) is None);
            }
            if n > 0 {
                assert(refusal(points.take(n - 1), points[n - 1]) is None);
            }
        }
        Ok(ReverseGeocoder { locations, index })
    }

    /// The number of places.
    pub fn len(&self) -> (n: usize)
        ensures
            n == self.locations().len(),
    {
        self.locations.len()
    }

    /// Search for the closest record to a given (latitude, longitude).
    ///
    /// `at` is the lattice point of `loc`. Nothing is found in an empty
    /// catalog, for a latitude or longitude that is not finite, and for a
    /// point out of range. Otherwise the place found is one at the least
    /// distance from `at`, and the same query finds the same place again.
    pub fn search(&self, loc: (Degrees, Degrees), at: &Point) -> (r: Option<SearchResult<'_>>)
        requires
            self.wf(),
        ensures
            r == self.spec_search(loc, *at),
            r is Some <==> self.locations().len() > 0 && loc.0.finite() && loc.1.finite()
                && at.in_range(),
            r matches Some(found) ==> {
                &&& is_nearest(self.points(), *at, found.distance as int, found.index as int)
                &&& *found.record == self.locations()[found.index as int].1
                &&& found.distance == 0 <==> self.points().contains(*at)
                &&& found.distance == 0 ==> self.points()[found.index as int] == *at
            },
    {
        if !loc.0.is_finite() || !loc.1.is_finite() {
            return None;
        }
        match self.index.nearest_one(at) {
            None => None,
            Some(n) => {
                proof {
                    lemma_zero_distance(self.points(), *at, n.distance as int, n.item as int);
                }
                Some(
                    SearchResult {
                        distance: n.distance,
                        index: n.item,
                        record: &self.locations.records[n.item].1,
                    },
                )
            },
        }
    }
}

/// The nearest place is at distance 0 exactly when the query is the point of
/// a place, and then the place found lies at the query.
pub proof fn lemma_zero_distance(points: Seq<Point>, query: Point, distance: int, item: int)
    requires
        is_nearest(points, query, distance, item),
    ensures
        distance == 0 <==> points.contains(query),
        distance == 0 ==> points[item] == query,
        distance >= 0,
{
    lemma_sq_dist_zero(query, points[item]);
    lemma_sq_dist_nonnegative(query, points[item]);
    if points.contains(query) {
        let i = choose|i: int| 0 <= i < points.len() && points[i] == query;
        lemma_sq_dist_zero(query, points[i]);
    }
}

/// Asking for the point of a place of the catalog finds a place at that very
/// point, at distance 0.
pub proof fn lemma_own_point_is_found(points: Seq<Point>, i: int, distance: int, item: int)
    requires
        0 <= i < points.len(),
        is_nearest(points, points[i], distance, item),
    ensures
        distance == 0,
        points[item] == points[i],
{
    lemma_zero_distance(points, points[i], distance, item);
    assert(points.contains(points[i]));
}

} // verus!
