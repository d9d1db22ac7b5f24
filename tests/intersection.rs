use ray_tracer::intersection::{Intersection, Intersections};

fn at(t: f64, object: usize) -> Intersection {
    Intersection::new(t.to_bits(), object)
}

fn ts(xs: &Intersections) -> Vec<f64> {
    (0..xs.count()).map(|i| f64::from_bits(xs.at(i).t_bits)).collect()
}

#[test]
fn test_an_interestion_encapsulates_t_and_object() {
    let s = 0;
    let i = Intersection::new(3.5f64.to_bits(), s);

    assert_eq!(f64::from_bits(i.t_bits), 3.5);
    assert_eq!(i.object, s);
}

#[test]
fn test_aggregating_intersections() {
    let s = 0;
    let i1 = at(1.0, s);
    let i2 = at(2.0, s);

    let xs = Intersections::new(vec![i1, i2]);

    assert_eq!(xs.count(), 2);
    assert_eq!(xs.at(0).object, s);
    assert_eq!(xs.at(1).object, s);
}

#[test]
fn test_the_hit_when_all_intersections_have_positive_t() {
    let s = 0;
    let i1 = at(1.0, s);
    let i2 = at(2.0, s);
    let xs = Intersections::new(vec![i1, i2]);

    let i = xs.hit().unwrap();

    assert!(i == i1);
}

#[test]
fn test_the_hit_when_some_intersections_have_negative_t() {
    let s = 0;
    let i1 = at(-1.0, s);
    let i2 = at(1.0, s);
    let xs = Intersections::new(vec![i1, i2]);

    let i = xs.hit().unwrap();

    assert!(i == i2);
}

#[test]
fn test_the_hit_when_all_intersections_have_negative_t() {
    let s = 0;
    let i1 = at(-2.0, s);
    let i2 = at(-1.0, s);
    let xs = Intersections::new(vec![i1, i2]);

    let i = xs.hit();

    assert!(i.is_none());
}

#[test]
fn test_the_hit_is_always_the_lowest_nonnegative_intersection() {
    let s = 0;
    let i1 = at(5.0, s);
    let i2 = at(7.0, s);
    let i3 = at(-3.0, s);
    let i4 = at(2.0, s);
    let xs = Intersections::new(vec![i1, i2, i3, i4]);

    let i = xs.hit().unwrap();

    assert_eq!(i, i4);
}

#[test]
fn hit_skips_zero_and_nan() {
    let xs = Intersections::new(vec![at(0.0, 0), at(-0.0, 1), at(f64::NAN, 2), at(0.25, 3)]);
    assert_eq!(xs.hit(), Some(at(0.25, 3)));
    let none = Intersections::new(vec![at(0.0, 0), at(f64::NAN, 1)]);
    assert_eq!(none.hit(), None);
    assert_eq!(Intersections::new(vec![]).hit(), None);
}

#[test]
fn hit_takes_the_first_of_equal_distances() {
    let xs = Intersections::new(vec![at(3.0, 0), at(1.5, 1), at(1.5, 2)]);
    assert_eq!(xs.hit(), Some(at(1.5, 1)));
}

#[test]
fn hit_of_tiny_and_huge_distances() {
    let xs = Intersections::new(vec![at(f64::INFINITY, 0), at(1e300, 1), at(f64::MIN_POSITIVE, 2)]);
    assert_eq!(xs.hit(), Some(at(f64::MIN_POSITIVE, 2)));
}

#[test]
fn sort_orders_by_distance() {
    let mut xs = Intersections::new(vec![at(6.0, 0), at(-1.0, 1), at(4.5, 2), at(-7.25, 3), at(0.0, 4)]);
    xs.sort();
    assert_eq!(ts(&xs), vec![-7.25, -1.0, 0.0, 4.5, 6.0]);
    assert_eq!(xs.at(0).object, 3);
    assert_eq!(xs.at(4).object, 0);
}

#[test]
fn sort_keeps_the_order_of_equal_distances() {
    let mut xs = Intersections::new(vec![at(2.0, 0), at(1.0, 1), at(2.0, 2), at(1.0, 3), at(0.0, 4), at(-0.0, 5)]);
    xs.sort();
    let objects: Vec<usize> = (0..xs.count()).map(|i| xs.at(i).object).collect();
    assert_eq!(objects, vec![4, 5, 1, 3, 0, 2]);
}

#[test]
fn extend_appends_in_order() {
    let mut xs = Intersections::new(vec![at(1.0, 0)]);
    let ys = Intersections::new(vec![at(3.0, 1), at(2.0, 1)]);
    xs.extend(&ys);
    assert_eq!(ts(&xs), vec![1.0, 3.0, 2.0]);
    assert_eq!(ys.count(), 2);
}

#[test]
fn from_distances_tags_every_distance() {
    let xs = Intersections::from_distances(7, &vec![4.0f64.to_bits(), 6.0f64.to_bits()]);
    assert_eq!(xs.count(), 2);
    assert_eq!(xs.at(0), at(4.0, 7));
    assert_eq!(xs.at(1), at(6.0, 7));
}

#[test]
fn hit_closer_than_compares_with_the_limit() {
    let xs = Intersections::new(vec![at(-1.0, 0), at(4.0, 1), at(2.0, 2)]);
    assert!(xs.hit_closer_than(3.0f64.to_bits()));
    assert!(!xs.hit_closer_than(2.0f64.to_bits()));
    assert!(!xs.hit_closer_than(1.0f64.to_bits()));
    assert!(!xs.hit_closer_than(f64::NAN.to_bits()));
    let behind = Intersections::new(vec![at(-1.0, 0)]);
    assert!(!behind.hit_closer_than(10.0f64.to_bits()));
}

#[test]
fn of_objects_tags_sorts_and_keeps_shape_order() {
    let distances = vec![
        vec![4.0f64.to_bits(), 6.0f64.to_bits()],
        vec![],
        vec![4.5f64.to_bits(), 5.5f64.to_bits()],
        vec![(-1.0f64).to_bits(), 4.0f64.to_bits()],
    ];
    let xs = Intersections::of_objects(&distances);
    assert_eq!(ts(&xs), vec![-1.0, 4.0, 4.0, 4.5, 5.5, 6.0]);
    let objects: Vec<usize> = (0..xs.count()).map(|i| xs.at(i).object).collect();
    assert_eq!(objects, vec![3, 0, 3, 2, 2, 0]);
    assert_eq!(xs.hit(), Some(at(4.0, 0)));
}

#[test]
fn of_objects_of_an_empty_scene() {
    let xs = Intersections::of_objects(&vec![]);
    assert_eq!(xs.count(), 0);
    assert_eq!(xs.hit(), None);
}
