use aeroscore::flat::{distance, MAX_DISTANCE};
use aeroscore::matrix::{half_dist_matrix, is_well_formed, MAX_LEG};
use aeroscore::point::{complies, Point};

fn fix(x: i32, y: i32, altitude: i16) -> Point {
    Point { x, y, altitude }
}

#[test]
fn distance_of_a_right_triangle() {
    assert_eq!(distance(&fix(0, 0, 0), &fix(3, 4, 0)), 5);
    assert_eq!(distance(&fix(-3, 7, 0), &fix(0, 3, 0)), 5);
    assert_eq!(distance(&fix(0, 0, 0), &fix(5, 12, 0)), 13);
}

#[test]
fn distance_is_rounded_down() {
    assert_eq!(distance(&fix(0, 0, 0), &fix(1, 1, 0)), 1);
    assert_eq!(distance(&fix(0, 0, 0), &fix(2, 2, 0)), 2);
    assert_eq!(distance(&fix(0, 0, 0), &fix(7, 7, 0)), 9);
    assert_eq!(distance(&fix(0, 0, 0), &fix(1000, 1, 0)), 1000);
    assert_eq!(distance(&fix(0, 0, 0), &fix(0, 0, 0)), 0);
}

#[test]
fn distance_is_symmetric() {
    let a = fix(-12345, 678, 0);
    let b = fix(4321, -98765, 0);
    assert_eq!(distance(&a, &b), distance(&b, &a));
    assert_eq!(distance(&a, &b), 100829);
}

#[test]
fn distance_across_the_whole_plane() {
    let a = fix(i32::MIN, i32::MIN, 0);
    let b = fix(i32::MAX, i32::MAX, 0);
    assert_eq!(distance(&a, &b), 6074000998);
    assert!(distance(&a, &b) <= MAX_DISTANCE);
    assert_eq!(distance(&a, &fix(i32::MAX, i32::MIN, 0)), 4294967295);
}

#[test]
fn distance_ignores_altitude() {
    assert_eq!(distance(&fix(0, 0, -500), &fix(6, 8, 9000)), 10);
}

#[test]
fn matrix_holds_the_forward_distances() {
    let route = vec![fix(0, 0, 0), fix(3, 4, 0), fix(3, 0, 0), fix(-3, 8, 0)];
    let matrix = half_dist_matrix(&route);
    assert_eq!(matrix, vec![vec![0, 5, 3, 8], vec![0, 4, 7], vec![0, 10], vec![0]]);
}

#[test]
fn matrix_of_no_fixes_is_empty() {
    let route: Vec<Point> = Vec::new();
    assert!(half_dist_matrix(&route).is_empty());
}

#[test]
fn altitude_rule_allows_a_loss_of_1000_metres() {
    assert!(complies(&fix(0, 0, 1000), &fix(0, 0, 0)));
    assert!(!complies(&fix(0, 0, 1001), &fix(0, 0, 0)));
    assert!(complies(&fix(0, 0, 0), &fix(0, 0, 5000)));
    assert!(complies(&fix(0, 0, -32768), &fix(0, 0, 32767)));
    assert!(!complies(&fix(0, 0, 32767), &fix(0, 0, -32768)));
    assert!(complies(&fix(0, 0, -31768), &fix(0, 0, -32768)));
}

#[test]
fn the_matrix_of_a_flight_is_well_formed() {
    let route = vec![fix(i32::MIN, i32::MAX, 0), fix(3, 4, 0), fix(i32::MAX, i32::MIN, 0)];
    assert!(is_well_formed(&half_dist_matrix(&route)));
    assert!(is_well_formed(&half_dist_matrix(&[])));
}

#[test]
fn a_matrix_must_be_triangular() {
    assert!(is_well_formed(&[vec![0, 1, 2], vec![0, 3], vec![0]]));
    assert!(!is_well_formed(&[vec![0, 1, 2], vec![0, 3], vec![]]));
    assert!(!is_well_formed(&[vec![0, 1, 2], vec![0, 3, 1], vec![0]]));
    assert!(!is_well_formed(&[vec![0, 1], vec![0, 3], vec![0]]));
    assert!(!is_well_formed(&[vec![0], vec![0, 3], vec![0, 1, 2]]));
    assert!(!is_well_formed(&[vec![]]));
}

#[test]
fn a_fix_is_at_no_distance_from_itself() {
    assert!(!is_well_formed(&[vec![0, 1, 2], vec![1, 3], vec![0]]));
    assert!(!is_well_formed(&[vec![0, 1, 2], vec![0, 3], vec![7]]));
}

#[test]
fn no_leg_is_longer_than_the_limit() {
    assert!(is_well_formed(&[vec![0, MAX_LEG, 2], vec![0, MAX_LEG], vec![0]]));
    assert!(!is_well_formed(&[vec![0, 1, MAX_LEG + 1], vec![0, 3], vec![0]]));
    assert!(!is_well_formed(&[vec![0, 1, 2], vec![0, u64::MAX], vec![0]]));
}
