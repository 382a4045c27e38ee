use reverse_geocoder::{hello, Degrees, Nearest, Point, PointIndex, Refusal, CROWD, SPAN, UNIT};

struct Dice(u64);

impl Dice {
    fn roll(&mut self, sides: u64) -> u64 {
        self.0 = self.0.wrapping_mul(6364136223846793005).wrapping_add(1442695040888963407);
        (self.0 >> 33) % sides
    }
}

fn by_hand(points: &[Point], query: &Point) -> u64 {
    points.iter().map(|p| query.squared_distance(p)).min().unwrap()
}

fn agrees(points: &[Point], index: &PointIndex, query: &Point) {
    let found = index.nearest_one(query).unwrap();
    assert_eq!(found.distance, by_hand(points, query));
    assert_eq!(found.distance, query.squared_distance(&points[found.item]));
}

#[test]
fn the_greeting_names_the_visitor() {
    assert_eq!(hello("World"), "Hello, World!\n");
    assert_eq!(hello(""), "Hello, !\n");
}

#[test]
fn a_point_is_made_only_in_range() {
    assert_eq!(Point::new(0, 0, 0), Some(Point { x: 0, y: 0, z: 0 }));
    assert_eq!(Point::new(SPAN, SPAN, SPAN), Some(Point { x: SPAN, y: SPAN, z: SPAN }));
    assert_eq!(Point::new(SPAN + 1, 0, 0), None);
    assert_eq!(Point::new(0, SPAN + 1, 0), None);
    assert_eq!(Point::new(0, 0, u64::MAX), None);
    assert!(Point { x: 1, y: 2, z: 3 }.is_in_range());
    assert!(!Point { x: 1, y: 2, z: SPAN + 1 }.is_in_range());
    assert_eq!(SPAN, 2 * UNIT);
}

#[test]
fn the_squared_distance_is_exact() {
    let a = Point { x: 1, y: 2, z: 3 };
    let b = Point { x: 4, y: 6, z: 15 };
    assert_eq!(a.squared_distance(&b), 9 + 16 + 144);
    assert_eq!(b.squared_distance(&a), 169);
    assert_eq!(a.squared_distance(&a), 0);
    let low = Point { x: 0, y: 0, z: 0 };
    let high = Point { x: SPAN, y: SPAN, z: SPAN };
    assert_eq!(low.squared_distance(&high), 0xC000_0000_0000_0000);
    assert_eq!(high.squared_distance(&low), 0xC000_0000_0000_0000);
}

#[test]
fn finite_numbers_are_told_from_the_others() {
    for v in [0.0, -0.0, 1.0, -93.344722, 1.0e308, f64::MAX, f64::MIN, f64::MIN_POSITIVE, 5.0e-324]
    {
        assert!(Degrees::from_bits(f64::to_bits(v)).is_finite());
    }
    for v in [f64::INFINITY, f64::NEG_INFINITY, f64::NAN, -f64::NAN] {
        assert!(!Degrees::from_bits(f64::to_bits(v)).is_finite());
    }
    assert!(!Degrees::from_bits(0x7ff0_0000_0000_0001).is_finite());
    assert!(Degrees::from_bits(0x7fef_ffff_ffff_ffff).is_finite());
    assert_eq!(Degrees::from_bits(0x4046_8000_0000_0000).to_bits(), 0x4046_8000_0000_0000);
}

#[test]
fn an_empty_index_finds_nothing() {
    let index = PointIndex::new();
    assert_eq!(index.len(), 0);
    assert_eq!(index.nearest_one(&Point { x: UNIT, y: UNIT, z: UNIT }), None);
}

#[test]
fn points_are_numbered_in_the_order_of_insertion() {
    let mut index = PointIndex::new();
    assert_eq!(index.insert(&Point { x: 10, y: 10, z: 10 }), Ok(0));
    assert_eq!(index.insert(&Point { x: 20, y: 20, z: 20 }), Ok(1));
    assert_eq!(index.insert(&Point { x: 10, y: 10, z: 10 }), Ok(2));
    assert_eq!(index.len(), 3);
    let near = index.nearest_one(&Point { x: 19, y: 20, z: 22 });
    assert_eq!(near, Some(Nearest { distance: 5, item: 1 }));
    let twin = index.nearest_one(&Point { x: 10, y: 10, z: 10 }).unwrap();
    assert_eq!(twin.distance, 0);
    assert!(twin.item == 0 || twin.item == 2);
}

#[test]
fn a_query_out_of_range_finds_nothing() {
    let mut index = PointIndex::new();
    assert_eq!(index.insert(&Point { x: 10, y: 10, z: 10 }), Ok(0));
    assert_eq!(index.nearest_one(&Point { x: SPAN + 1, y: 10, z: 10 }), None);
    assert_eq!(index.nearest_one(&Point { x: 10, y: u64::MAX, z: 10 }), None);
    assert_eq!(
        index.nearest_one(&Point { x: SPAN, y: SPAN, z: SPAN }),
        Some(Nearest { distance: 3 * (SPAN - 10) * (SPAN - 10), item: 0 })
    );
}

#[test]
fn a_refused_point_leaves_the_index_as_it_was() {
    let mut index = PointIndex::new();
    assert_eq!(index.insert(&Point { x: SPAN + 1, y: 0, z: 0 }), Err(Refusal::OutOfRange));
    assert_eq!(index.len(), 0);
    assert_eq!(index.nearest_one(&Point { x: 1, y: 1, z: 1 }), None);
    assert_eq!(index.insert(&Point { x: 3, y: 8, z: 500 }), Ok(0));
    assert_eq!(index.insert(&Point { x: 3, y: 8, z: SPAN + 1 }), Err(Refusal::OutOfRange));
    assert_eq!(index.insert(&Point { x: 3, y: u64::MAX, z: 0 }), Err(Refusal::OutOfRange));
    assert_eq!(index.len(), 1);
    assert_eq!(index.insert(&Point { x: 4, y: 8, z: 500 }), Ok(1));
    let found = index.nearest_one(&Point { x: 3, y: 8, z: SPAN }).unwrap();
    assert_eq!(found, Nearest { distance: (SPAN - 500) * (SPAN - 500), item: 0 });
}

#[test]
fn a_point_on_a_crowded_plane_joins_and_is_found() {
    let mut index = PointIndex::new();
    for i in 0..CROWD as u64 {
        assert_eq!(index.insert(&Point { x: i, y: 7, z: 100 + i }), Ok(i as usize));
    }
    assert_eq!(index.insert(&Point { x: 500, y: 7, z: 500 }), Ok(CROWD));
    assert_eq!(index.insert(&Point { x: 600, y: 8, z: 600 }), Ok(CROWD + 1));
    assert_eq!(index.insert(&Point { x: 700, y: 7, z: 700 }), Ok(CROWD + 2));
    assert_eq!(index.len(), CROWD + 3);
    assert_eq!(
        index.nearest_one(&Point { x: 500, y: 7, z: 500 }),
        Some(Nearest { distance: 0, item: CROWD })
    );
    assert_eq!(
        index.nearest_one(&Point { x: 702, y: 6, z: 700 }),
        Some(Nearest { distance: 5, item: CROWD + 2 })
    );
    assert_eq!(
        index.nearest_one(&Point { x: 601, y: 8, z: 600 }),
        Some(Nearest { distance: 1, item: CROWD + 1 })
    );
    assert_eq!(
        index.nearest_one(&Point { x: 3, y: 7, z: 104 }),
        Some(Nearest { distance: 1, item: 3 })
    );
}

#[test]
fn among_points_at_one_spot_one_that_came_early_is_found() {
    let mut index = PointIndex::new();
    let spot = Point { x: 5, y: 5, z: 5 };
    for i in 0..2 * CROWD + 1 {
        assert_eq!(index.insert(&spot), Ok(i));
    }
    assert_eq!(index.len(), 2 * CROWD + 1);
    let found = index.nearest_one(&spot).unwrap();
    assert_eq!(found.distance, 0);
    assert!(found.item < CROWD);
    let again = index.nearest_one(&spot).unwrap();
    assert_eq!(found, again);
    let off = index.nearest_one(&Point { x: 5, y: 9, z: 2 }).unwrap();
    assert_eq!(off.distance, 25);
    assert!(off.item < CROWD);
}

#[test]
fn the_index_agrees_with_a_search_by_hand() {
    let mut dice = Dice(2024);
    let mut index = PointIndex::new();
    let mut points = Vec::new();
    while points.len() < 5000 {
        let p = Point { x: dice.roll(SPAN + 1), y: dice.roll(SPAN + 1), z: dice.roll(SPAN + 1) };
        assert_eq!(index.insert(&p), Ok(points.len()));
        points.push(p);
    }
    for _ in 0..500 {
        let q = Point { x: dice.roll(SPAN + 1), y: dice.roll(SPAN + 1), z: dice.roll(SPAN + 1) };
        agrees(&points, &index, &q);
    }
    for i in 0..500 {
        let found = index.nearest_one(&points[i * 10]).unwrap();
        assert_eq!(found.distance, 0);
        assert_eq!(points[found.item], points[i * 10]);
    }
}

#[test]
fn the_index_agrees_with_a_search_by_hand_on_crowded_planes() {
    for seed in 0..20 {
        let mut dice = Dice(seed);
        let mut index = PointIndex::new();
        let mut points = Vec::new();
        for _ in 0..3000 {
            let p = Point { x: dice.roll(40), y: dice.roll(40), z: dice.roll(40) };
            assert_eq!(index.insert(&p), Ok(points.len()));
            points.push(p);
        }
        assert_eq!(index.len(), 3000);
        assert!(points.iter().filter(|p| p.x == 0).count() > CROWD);
        for _ in 0..400 {
            let q = Point { x: dice.roll(42), y: dice.roll(42), z: dice.roll(42) };
            agrees(&points, &index, &q);
        }
        for i in 0..300 {
            let found = index.nearest_one(&points[i * 10]).unwrap();
            assert_eq!(found.distance, 0);
            assert_eq!(points[found.item], points[i * 10]);
        }
    }
}

#[test]
fn the_index_agrees_with_a_search_by_hand_on_sorted_points() {
    let mut index = PointIndex::new();
    let mut points = Vec::new();
    for i in 0..2000u64 {
        let p = Point { x: i / CROWD as u64, y: i, z: 2000 - i };
        assert_eq!(index.insert(&p), Ok(points.len()));
        points.push(p);
    }
    let mut dice = Dice(7);
    for _ in 0..500 {
        let q = Point { x: dice.roll(130), y: dice.roll(2100), z: dice.roll(2100) };
        agrees(&points, &index, &q);
    }
}
