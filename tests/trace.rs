use raytracer::trace::{nearest_hit, plan_bounce, reflect, IVec3};

#[test]
fn nearest_hit_takes_the_smallest_distance() {
    assert_eq!(nearest_hit(&vec![None, Some(5), Some(3), Some(4)]), Some(2));
    assert_eq!(nearest_hit(&vec![Some(9), None]), Some(0));
}

#[test]
fn nearest_hit_keeps_the_first_of_equal_distances() {
    assert_eq!(nearest_hit(&vec![None, Some(3), Some(3), Some(7)]), Some(1));
}

#[test]
fn nearest_hit_reports_a_miss() {
    assert_eq!(nearest_hit(&vec![None, None]), None);
    assert_eq!(nearest_hit(&vec![]), None);
}

#[test]
fn nearest_hit_orders_float_distances_by_bits() {
    let d = [2.5f32, 0.5f32, 1.0f32];
    let hits: Vec<Option<u32>> = d.iter().map(|x| Some(x.to_bits())).collect();
    assert_eq!(nearest_hit(&hits), Some(1));
}

#[test]
fn no_bounce_left_casts_no_ray() {
    let b = plan_bounce(0, true);
    assert!(!b.reflect);
    assert!(!b.shadows);
    let b = plan_bounce(0, false);
    assert!(!b.reflect);
    assert!(!b.shadows);
}

#[test]
fn each_bounce_spends_one() {
    let b = plan_bounce(5, true);
    assert!(b.reflect);
    assert!(b.shadows);
    assert_eq!(b.budget, 4);
    let b = plan_bounce(1, false);
    assert!(!b.reflect);
    assert!(b.shadows);
    assert_eq!(b.budget, 0);
}

#[test]
fn reflect_mirrors_about_the_axis() {
    let r = IVec3 { x: 1, y: 2, z: 3 };
    let n = IVec3 { x: 0, y: 1, z: 0 };
    let m = reflect(&r, &n);
    assert_eq!((m.x, m.y, m.z), (-1, 2, -3));
    let down = IVec3 { x: 0, y: 0, z: -1 };
    let toward = IVec3 { x: 0, y: 0, z: 1 };
    let m = reflect(&down, &toward);
    assert_eq!((m.x, m.y, m.z), (0, 0, -1));
}
