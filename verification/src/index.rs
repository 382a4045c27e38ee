//! The spatial index: a k-d tree over lattice points.
//!
//! The tree itself is kiddo's bucketed k-d tree on integer coordinates. This
//! module states what the library relies on from it and offers the two
//! operations the geocoder needs: add a point, and find the point nearest to
//! a query. The tree cannot take more than `CROWD` points that share a
//! coordinate on one axis. The index sets such a point aside, in a list of
//! its own, and a query looks through that list after it has asked the tree.

use vstd::prelude::*;
use vstd::std_specs::hash::*;
use crate::lattice::Point;
use fixed::types::extra::U0;
use fixed::FixedU64;
use kiddo::fixed::distance::SquaredEuclidean;
use kiddo::fixed::kdtree::KdTree;
use std::collections::HashMap;

verus! {

/// The most points of the tree that may share one coordinate on one axis.
pub const CROWD: usize = 16;

/// The most points an index holds.
pub const MAX_ENTRIES: usize = 0x7fff_ffff;

/// `fixed::types::extra::U0`: the marker of a fixed-point number without fractional bits.
#[verifier::external_type_specification]
#[verifier::external_body]
pub struct ExU0(U0);

/// `fixed::FixedU64`: an unsigned 64-bit fixed-point number. With `U0` it is a plain integer.
#[verifier::external_type_specification]
#[verifier::external_body]
#[verifier::reject_recursive_types(Frac)]
pub struct ExFixedU64<Frac>(FixedU64<Frac>);

/// `kiddo::fixed::kdtree::KdTree`: a k-d tree over fixed-point coordinates.
#[verifier::external_type_specification]
#[verifier::external_body]
#[verifier::reject_recursive_types(A)]
#[verifier::reject_recursive_types(T)]
#[verifier::reject_recursive_types(IDX)]
pub struct ExKdTree<A: Copy + Default, T: Copy + Default, const K: usize, const B: usize, IDX>(
    KdTree<A, T, K, B, IDX>,
);

/// The points that were added to a tree, in the order in which they were added.
pub uninterp spec fn tree_points(tree: KdTree<FixedU64<U0>, usize, 3, 32, u32>) -> Seq<Point>;

/// What `nearest_one` finds for a query in a tree that was filled with the
/// given points in the given order: the squared distance and the position of
/// the point found.
pub uninterp spec fn nearest_found(points: Seq<Point>, query: Point) -> (u64, usize);

/// How many of the points have the coordinate `v` on the axis.
pub open spec fn sharing(points: Seq<Point>, axis: int, v: u64) -> nat
    decreases points.len(),
{
    if points.len() == 0 {
        0
    } else {
        sharing(points.drop_last(), axis, v) + if points.last().coord(axis) == v {
            1nat
        } else {
            0nat
        }
    }
}

/// Whether `CROWD` of the points share a coordinate with `p` on some axis.
pub open spec fn crowded(points: Seq<Point>, p: Point) -> bool {
    sharing(points, 0, p.x) >= CROWD || sharing(points, 1, p.y) >= CROWD || sharing(
        points,
        2,
        p.z,
    ) >= CROWD
}

/// Whether the points can stand in one tree: not too many, each in range, and
/// no coordinate on any axis shared by more than `CROWD` of them.
pub open spec fn settled(points: Seq<Point>) -> bool {
    &&& within(points)
    &&& forall|axis: int, v: u64| 0 <= axis < 3 ==> #[trigger] sharing(points, axis, v) <= CROWD
}

/// Whether the points can stand in one index: not too many, and each in range.
pub open spec fn within(points: Seq<Point>) -> bool {
    &&& points.len() <= MAX_ENTRIES
    &&& forall|i: int| 0 <= i < points.len() ==> (#[trigger] points[i]).in_range()
}

/// Why a point cannot join an index.
#[derive(Clone, Copy, Debug, PartialEq, Eq, Structural)]
pub enum Refusal {
    /// The index holds `MAX_ENTRIES` points already.
    Full,
    /// A coordinate of the point is larger than `SPAN`.
    OutOfRange,
}

/// Why `p` cannot join `points`, or `None` if it can.
pub open spec fn refusal(points: Seq<Point>, p: Point) -> Option<Refusal> {
    if points.len() >= MAX_ENTRIES {
        Some(Refusal::Full)
    } else if !p.in_range() {
        Some(Refusal::OutOfRange)
    } else {
        None
    }
}

/// Whether `item` is the position of a point nearest to `query`, and
/// `distance` its squared distance from it.
pub open spec fn is_nearest(points: Seq<Point>, query: Point, distance: int, item: int) -> bool {
    &&& 0 <= item < points.len()
    &&& distance == query.sq_dist(points[item])
    &&& forall|j: int| 0 <= j < points.len() ==> distance <= query.sq_dist(#[trigger] points[j])
}

/// `KdTree::new`: a tree without points.
#[verifier::external_body]
fn tree_new() -> (tree: KdTree<FixedU64<U0>, usize, 3, 32, u32>)
    ensures
        tree_points(tree) == Seq::<Point>::empty(),
{
    KdTree::new()
}

/// `KdTree::add`: the point joins the tree, with its position as its item.
///
/// The tree keeps its points in buckets of 32 and splits a full bucket at a
/// median. It indexes its nodes by `u32`, half of whose range is for buckets,
/// and each point added makes at most one bucket more: hence the limit on the
/// number of points. A split fails when all 32 points of the bucket share the
/// coordinate on the splitting axis, and it can leave a point on the wrong side
/// when the 17 lowest do; with no coordinate shared by more than `CROWD`
/// points neither happens, which is what `settled` and `crowded` are for.
#[verifier::external_body]
fn tree_add(tree: &mut KdTree<FixedU64<U0>, usize, 3, 32, u32>, point: &Point, item: usize)
    requires
        settled(tree_points(*old(tree))),
        tree_points(*old(tree)).len() < MAX_ENTRIES,
        point.in_range(),
        !crowded(tree_points(*old(tree)), *point),
        item == tree_points(*old(tree)).len(),
    ensures
        tree_points(*final(tree)) == tree_points(*old(tree)).push(*point),
{
    let at = [
        FixedU64::from_bits(point.x),
        FixedU64::from_bits(point.y),
        FixedU64::from_bits(point.z),
    ];
    tree.add(&at, item)
}

/// `KdTree::nearest_one` with `SquaredEuclidean`: the nearest point to `query`.
///
/// The answer is the position of a point at the least squared distance from
/// the query, and that distance; which one among several at the same distance
/// is up to the tree, but the same points added in the same order give the
/// same answer. With all coordinates in range no distance overflows: each is
/// at most three times the square of `SPAN`. A tree without points is left
/// out: kiddo then answers with a distance and an item that stand for no point.
#[verifier::external_body]
fn tree_nearest_one(tree: &KdTree<FixedU64<U0>, usize, 3, 32, u32>, query: &Point) -> (r: (
    u64,
    usize,
))
    requires
        settled(tree_points(*tree)),
        tree_points(*tree).len() > 0,
        query.in_range(),
    ensures
        r == nearest_found(tree_points(*tree), *query),
        is_nearest(tree_points(*tree), *query, r.0 as int, r.1 as int),
{
    let at = [
        FixedU64::from_bits(query.x),
        FixedU64::from_bits(query.y),
        FixedU64::from_bits(query.z),
    ];
    let found = tree.nearest_one::<SquaredEuclidean>(&at);
    (found.distance.to_bits(), found.item)
}

/// The points of a list of points with their positions.
pub open spec fn firsts(entries: Seq<(Point, usize)>) -> Seq<Point> {
    Seq::new(entries.len(), |k: int| entries[k].0)
}

/// The positions of a list of points with their positions.
pub open spec fn seconds(entries: Seq<(Point, usize)>) -> Seq<usize> {
    Seq::new(entries.len(), |k: int| entries[k].1)
}

/// The points that the tree of an index holds, each with its position among
/// all the points: every point that was not crowded when it came.
pub open spec fn in_tree(points: Seq<Point>) -> Seq<(Point, usize)>
    decreases points.len(),
{
    if points.len() == 0 {
        Seq::empty()
    } else {
        let before = in_tree(points.drop_last());
        if crowded(firsts(before), points.last()) {
            before
        } else {
            before.push((points.last(), (points.len() - 1) as usize))
        }
    }
}

/// The points that an index sets aside, each with its position among all the
/// points: every point that was crowded when it came.
pub open spec fn set_aside(points: Seq<Point>) -> Seq<(Point, usize)>
    decreases points.len(),
{
    if points.len() == 0 {
        Seq::empty()
    } else {
        let before = set_aside(points.drop_last());
        if crowded(firsts(in_tree(points.drop_last())), points.last()) {
            before.push((points.last(), (points.len() - 1) as usize))
        } else {
            before
        }
    }
}

/// Whether the entry is a point of `points` with its position.
pub open spec fn holds(points: Seq<Point>, entry: (Point, usize)) -> bool {
    entry.1 < points.len() && points[entry.1 as int] == entry.0
}

/// What a found point is: its position among the points, and its squared distance from the query.
#[derive(Clone, Copy, Debug, PartialEq, Eq, Structural)]
pub struct Nearest {
    pub distance: u64,
    pub item: usize,
}

/// What the tree of an index finds: nothing if it holds no point.
pub open spec fn from_tree(points: Seq<Point>, query: Point) -> Option<Nearest> {
    if in_tree(points).len() == 0 {
        None
    } else {
        let found = nearest_found(firsts(in_tree(points)), query);
        Some(Nearest { distance: found.0, item: in_tree(points)[found.1 as int].1 })
    }
}

/// The nearer of `start` and the first nearest of the entries: an entry
/// takes the place of what was found before it only if it is nearer.
pub open spec fn scan(entries: Seq<(Point, usize)>, query: Point, start: Option<Nearest>) -> Option<
    Nearest,
>
    decreases entries.len(),
{
    if entries.len() == 0 {
        start
    } else {
        let best = scan(entries.drop_last(), query, start);
        let d = query.sq_dist(entries.last().0);
        if best is Some && best.unwrap().distance <= d {
            best
        } else {
            Some(Nearest { distance: d as u64, item: entries.last().1 })
        }
    }
}

/// What an index over the points finds for a query in range: the nearer of
/// what its tree finds and the nearest point that it set aside.
pub open spec fn nearest_in(points: Seq<Point>, query: Point) -> Option<Nearest> {
    scan(set_aside(points), query, from_tree(points, query))
}

/// Adding a point raises the count of each of its coordinates by one and
/// leaves the other counts as they were.
pub proof fn lemma_sharing_push(points: Seq<Point>, p: Point, axis: int, v: u64)
    ensures
        sharing(points.push(p), axis, v) == sharing(points, axis, v) + if p.coord(axis) == v {
            1nat
        } else {
            0nat
        },
{
    assert(points.push(p).drop_last() =~= points);
    assert(points.push(p).last() == p);
}

/// A point in range that is not crowded keeps the points settled.
pub proof fn lemma_settled_push(points: Seq<Point>, p: Point)
    requires
        settled(points),
        points.len() < MAX_ENTRIES,
        p.in_range(),
        !crowded(points, p),
    ensures
        settled(points.push(p)),
{
    let after = points.push(p);
    assert forall|i: int| 0 <= i < after.len() implies (#[trigger] after[i]).in_range() by {
        if i < points.len() {
            assert(after[i] == points[i]);
        }
    }
    assert forall|axis: int, v: u64| 0 <= axis < 3 implies #[trigger] sharing(after, axis, v)
        <= CROWD by {
        lemma_sharing_push(points, p, axis, v);
    }
}

/// How an index lays its points out: each point is in the tree or set aside,
/// under its own position, and the points of the tree are settled.
pub proof fn lemma_layout(points: Seq<Point>)
    requires
        within(points),
    ensures
        in_tree(points).len() + set_aside(points).len() == points.len(),
        settled(firsts(in_tree(points))),
        forall|k: int|
            0 <= k < in_tree(points).len() ==> holds(points, #[trigger] in_tree(points)[k]),
        forall|k: int|
            0 <= k < set_aside(points).len() ==> holds(points, #[trigger] set_aside(points)[k]),
        forall|i: int|
            0 <= i < points.len() ==> in_tree(points).contains((#[trigger] points[i], i as usize))
                || set_aside(points).contains((points[i], i as usize)),
    decreases points.len(),
{
    if points.len() == 0 {
        assert forall|axis: int, v: u64| #[trigger]
            sharing(firsts(in_tree(points)), axis, v) == 0 by {}
    } else {
        let head = points.drop_last();
        let p = points.last();
        let last = (p, (points.len() - 1) as usize);
        lemma_layout(head);
        let tree = in_tree(head);
        let aside = set_aside(head);
        assert forall|k: int| 0 <= k < tree.len() implies holds(points, #[trigger] tree[k]) by {
            assert(holds(head, tree[k]));
        }
        assert forall|k: int| 0 <= k < aside.len() implies holds(points, #[trigger] aside[k]) by {
            assert(holds(head, aside[k]));
        }
        assert(holds(points, last));
        if crowded(firsts(tree), p) {
            assert(in_tree(points) == tree);
            assert(set_aside(points) == aside.push(last));
            assert(set_aside(points)[aside.len() as int] == last);
            assert forall|i: int| 0 <= i < head.len() && aside.contains(
                (#[trigger] points[i], i as usize),
            ) implies set_aside(points).contains((points[i], i as usize)) by {
                let k = choose|k: int| 0 <= k < aside.len() && aside[k] == (points[i], i as usize);
                assert(set_aside(points)[k] == (points[i], i as usize));
            }
        } else {
            assert(in_tree(points) == tree.push(last));
            assert(set_aside(points) == aside);
            assert(in_tree(points)[tree.len() as int] == last);
            assert(firsts(tree.push(last)) =~= firsts(tree).push(p));
            lemma_settled_push(firsts(tree), p);
            assert forall|i: int| 0 <= i < head.len() && tree.contains(
                (#[trigger] points[i], i as usize),
            ) implies in_tree(points).contains((points[i], i as usize)) by {
                let k = choose|k: int| 0 <= k < tree.len() && tree[k] == (points[i], i as usize);
                assert(in_tree(points)[k] == (points[i], i as usize));
            }
        }
        assert forall|i: int| 0 <= i < points.len() implies in_tree(points).contains(
            (#[trigger] points[i], i as usize),
        ) || set_aside(points).contains((points[i], i as usize)) by {
            if i < head.len() {
                assert(head[i] == points[i]);
                assert(tree.contains((head[i], i as usize)) || aside.contains(
                    (head[i], i as usize),
                ));
            } else {
                assert((points[i], i as usize) == last);
            }
        }
    }
}

/// The number of points that a tally holds for a coordinate.
pub open spec fn tallied(tally: Map<u64, usize>, v: u64) -> nat {
    if tally.contains_key(v) {
        tally[v] as nat
    } else {
        0
    }
}

/// Whether the tally counts, for each coordinate on the axis, the points that have it.
pub open spec fn tallies(tally: Map<u64, usize>, points: Seq<Point>, axis: int) -> bool {
    forall|v: u64| #[trigger] sharing(points, axis, v) == tallied(tally, v)
}

/// A tally that counts one more for a coordinate of a point counts the points with that point.
pub proof fn lemma_tallies_push(tally: Map<u64, usize>, points: Seq<Point>, p: Point, axis: int)
    requires
        tallies(tally, points, axis),
        tallied(tally, p.coord(axis)) < usize::MAX,
    ensures
        tallies(
            tally.insert(p.coord(axis), (tallied(tally, p.coord(axis)) + 1) as usize),
            points.push(p),
            axis,
        ),
{
    let after = tally.insert(p.coord(axis), (tallied(tally, p.coord(axis)) + 1) as usize);
    assert forall|v: u64| #[trigger] sharing(points.push(p), axis, v) == tallied(after, v) by {
        lemma_sharing_push(points, p, axis, v);
        assert(sharing(points, axis, v) == tallied(tally, v));
    }
}

/// An index over lattice points, each known by its position in the order of insertion.
pub struct PointIndex {
    tree: KdTree<FixedU64<U0>, usize, 3, 32, u32>,
    xs: HashMap<u64, usize>,
    ys: HashMap<u64, usize>,
    zs: HashMap<u64, usize>,
    spots: Vec<usize>,
    aside: Vec<(Point, usize)>,
    points: Ghost<Seq<Point>>,
}

impl PointIndex {
    /// The points of the index, in the order in which they were inserted.
    pub closed spec fn points(&self) -> Seq<Point> {
        self.points@
    }

    /// The invariant: the tree holds the points that were not crowded when
    /// they came, the list holds the others, and the tallies count the points
    /// of the tree.
    pub closed spec fn wf(&self) -> bool {
        &&& within(self.points@)
        &&& tree_points(self.tree) == firsts(in_tree(self.points@))
        &&& self.spots@ == seconds(in_tree(self.points@))
        &&& self.aside@ == set_aside(self.points@)
        &&& tallies(self.xs@, tree_points(self.tree), 0)
        &&& tallies(self.ys@, tree_points(self.tree), 1)
        &&& tallies(self.zs@, tree_points(self.tree), 2)
    }

    /// What `nearest_one` answers: nothing for an empty index or a query out
    /// of range, else the nearest of the points.
    pub open spec fn spec_nearest_one(&self, query: Point) -> Option<Nearest> {
        if self.points().len() == 0 || !query.in_range() {
            None
        } else {
            nearest_in(self.points(), query)
        }
    }

    /// The points of an index are not too many, and each is in range.
    pub proof fn lemma_wf_within(&self)
        requires
            self.wf(),
        ensures
            within(self.points()),
    {
    }

    /// An index without points.
    pub fn new() -> (index: PointIndex)
        ensures
            index.wf(),
            index.points() == Seq::<Point>::empty(),
    {
        let index = PointIndex {
            tree: tree_new(),
            xs: HashMap::new(),
            ys: HashMap::new(),
            zs: HashMap::new(),
            spots: Vec::new(),
            aside: Vec::new(),
            points: Ghost(Seq::empty()),
        };
        proof {
            let none = Seq::<Point>::empty();
            assert forall|axis: int, v: u64| #[trigger] sharing(none, axis, v) == 0 by {}
            assert(firsts(in_tree(none)) =~= none);
            assert(seconds(in_tree(none)) =~= Seq::<usize>::empty());
        }
        index
    }

    /// The number of points.
    pub fn len(&self) -> (n: usize)
        requires
            self.wf(),
        ensures
            n == self.points().len(),
    {
        proof {
            lemma_layout(self.points@);
        }
        self.spots.len() + self.aside.len()
    }

    /// Adds a point and hands back its position, or says why the point cannot join.
    pub fn insert(&mut self, point: &Point) -> (r: Result<usize, Refusal>)
        requires
            old(self).wf(),
        ensures
            final(self).wf(),
            match r {
                Ok(item) => {
                    &&& refusal(old(self).points(), *point) is None
                    &&& item == old(self).points().len()
                    &&& final(self).points() == old(self).points().push(*point)
                },
                Err(why) => {
                    &&& refusal(old(self).points(), *point) == Some(why)
                    &&& final(self).points() == old(self).points()
                },
            },
    {
        broadcast use group_hash_axioms;

        let ghost before = self.points@;
        let ghost after = before.push(*point);
        proof {
            lemma_layout(before);
        }
        let n: usize = self.spots.len() + self.aside.len();
        if n >= MAX_ENTRIES {
            return Err(Refusal::Full);
        }
        if !point.is_in_range() {
            return Err(Refusal::OutOfRange);
        }
        let cx: usize = tally_of(&self.xs, point.x);
        let cy: usize = tally_of(&self.ys, point.y);
        let cz: usize = tally_of(&self.zs, point.z);
        proof {
            let held = tree_points(self.tree);
            assert(sharing(held, 0, point.x) == cx);
            assert(sharing(held, 1, point.y) == cy);
            assert(sharing(held, 2, point.z) == cz);
            assert(after.drop_last() =~= before);
            assert(after.last() == *point);
            assert forall|i: int| 0 <= i < after.len() implies (#[trigger] after[i]).in_range() by {
                if i < before.len() {
                    assert(after[i] == before[i]);
                }
            }
        }
        if cx >= CROWD || cy >= CROWD || cz >= CROWD {
            self.aside.push((*point, n));
            proof {
                assert(in_tree(after) == in_tree(before));
                assert(set_aside(after) == set_aside(before).push((*point, n)));
            }
        } else {
            let ghost held = tree_points(self.tree);
            let ghost tx = self.xs@;
            let ghost ty = self.ys@;
            let ghost tz = self.zs@;
            let item: usize = self.spots.len();
            self.xs.insert(point.x, cx + 1);
            self.ys.insert(point.y, cy + 1);
            self.zs.insert(point.z, cz + 1);
            tree_add(&mut self.tree, point, item);
            self.spots.push(n);
            proof {
                lemma_tallies_push(tx, held, *point, 0);
                lemma_tallies_push(ty, held, *point, 1);
                lemma_tallies_push(tz, held, *point, 2);
                assert(in_tree(after) == in_tree(before).push((*point, n)));
                assert(set_aside(after) == set_aside(before));
                assert(firsts(in_tree(after)) =~= held.push(*point));
                assert(seconds(in_tree(after)) =~= seconds(in_tree(before)).push(n));
            }
        }
        self.points = Ghost(after);
        Ok(n)
    }

    /// The point nearest to the query, if the index has a point and the query is in range.
    pub fn nearest_one(&self, query: &Point) -> (r: Option<Nearest>)
        requires
            self.wf(),
        ensures
            r == self.spec_nearest_one(*query),
            r is Some <==> self.points().len() > 0 && query.in_range(),
            r matches Some(n) ==> is_nearest(self.points(), *query, n.distance as int, n.item as int),
    {
        let ghost points = self.points@;
        let ghost held = in_tree(points);
        proof {
            lemma_layout(points);
        }
        if !query.is_in_range() || self.spots.len() + self.aside.len() == 0 {
            return None;
        }
        let mut best: Option<Nearest> = None;
        if self.spots.len() > 0 {
            let found = tree_nearest_one(&self.tree, query);
            assert(holds(points, held[found.1 as int]));
            assert(firsts(held)[found.1 as int] == held[found.1 as int].0);
            assert forall|j: int| 0 <= j < held.len() implies found.0 <= query.sq_dist(
                #[trigger] held[j].0,
            ) by {
                assert(firsts(held)[j] == held[j].0);
            }
            best = Some(Nearest { distance: found.0, item: self.spots[found.1] });
        }
        let mut k: usize = 0;
        while k < self.aside.len()
            invariant
                k <= self.aside.len(),
                self.wf(),
                points == self.points@,
                held == in_tree(points),
                query.in_range(),
                within(points),
                forall|j: int|
                    0 <= j < set_aside(points).len() ==> holds(
                        points,
                        #[trigger] set_aside(points)[j],
                    ),
                best == scan(self.aside@.take(k as int), *query, from_tree(points, *query)),
                best matches Some(n) ==> n.item < points.len() && n.distance == query.sq_dist(
                    points[n.item as int],
                ),
                forall|j: int|
                    0 <= j < held.len() ==> best is Some && best.unwrap().distance
                        <= query.sq_dist(#[trigger] held[j].0),
                forall|j: int|
                    0 <= j < k ==> best is Some && best.unwrap().distance <= query.sq_dist(
                        #[trigger] self.aside@[j].0,
                    ),
            decreases self.aside.len() - k,
        {
            let entry = &self.aside[k];
            assert(holds(points, set_aside(points)[k as int]));
            let d: u64 = query.squared_distance(&entry.0);
            proof {
                let seen = self.aside@.take(k + 1);
                assert(seen.drop_last() =~= self.aside@.take(k as int));
                assert(seen.last() == self.aside@[k as int]);
            }
            let nearer = match best {
                Some(n) => d < n.distance,
                None => true,
            };
            if nearer {
                best = Some(Nearest { distance: d, item: entry.1 });
            }
            k += 1;
        }
        proof {
            assert(self.aside@.take(k as int) =~= self.aside@);
            if held.len() > 0 {
                assert(best is Some && best.unwrap().distance <= query.sq_dist(held[0].0));
            } else {
                assert(best is Some && best.unwrap().distance <= query.sq_dist(self.aside@[0].0));
            }
            let n = best.unwrap();
            assert forall|i: int| 0 <= i < points.len() implies n.distance <= query.sq_dist(
                #[trigger] points[i],
            ) by {
                let e = (points[i], i as usize);
                if held.contains(e) {
                    let j = choose|j: int| 0 <= j < held.len() && held[j] == e;
                    assert(n.distance <= query.sq_dist(held[j].0));
                } else {
                    let j = choose|j: int| 0 <= j < self.aside@.len() && self.aside@[j] == e;
                    assert(n.distance <= query.sq_dist(self.aside@[j].0));
                }
            }
        }
        best
    }
}

/// The count that a tally holds for a coordinate.
fn tally_of(tally: &HashMap<u64, usize>, v: u64) -> (n: usize)
    ensures
        n == tallied(tally@, v),
{
    broadcast use group_hash_axioms;

    match tally.get(&v) {
        Some(n) => *n,
        None => 0,
    }
}

} // verus!
