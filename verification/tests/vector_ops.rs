use grid_search::hyperplane::HyperPlane;
use grid_search::vector::{key_eq, Vector, COORD_BOUND};
use grid_search::Error;

fn vec_of(coords: &[i64]) -> Vector {
    Vector::new(coords.to_vec()).unwrap()
}

#[test]
fn dot_product_of_small_vectors() {
    let a = vec_of(&[1, 2, 3]);
    let b = vec_of(&[4, 5, 6]);
    assert_eq!(a.dot_prod(&b), 32);
}

#[test]
fn subtract_is_coordinatewise() {
    let a = vec_of(&[4, 5, 6]);
    let b = vec_of(&[1, 2, 3]);
    let d = a.subtract(&b);
    assert_eq!(d.dim(), 3);
    assert_eq!(d.coord(0), 3);
    assert_eq!(d.coord(1), 3);
    assert_eq!(d.coord(2), 3);
}

#[test]
fn avg_rounds_down() {
    let a = vec_of(&[1, -1, 2]);
    let b = vec_of(&[2, -2, 2]);
    let m = a.avg(&b);
    assert_eq!(m.coord(0), 1); // 1.5 rounds down
    assert_eq!(m.coord(1), -2); // -1.5 rounds down
    assert_eq!(m.coord(2), 2);
}

#[test]
fn squared_distance_exact_value() {
    let a = vec_of(&[1, 2, 3]);
    let b = vec_of(&[4, 6, 3]);
    assert_eq!(a.sq_euc_dis(&b), 25);
}

#[test]
fn squared_distance_symmetric_and_zero_on_self() {
    let a = vec_of(&[7, -3, 12]);
    let b = vec_of(&[-2, 0, 5]);
    assert_eq!(a.sq_euc_dis(&b), b.sq_euc_dis(&a));
    assert_eq!(a.sq_euc_dis(&a), 0);
}

#[test]
fn hashkey_matches_exactly_equal_vectors_only() {
    let a = vec_of(&[1, 2, 3]);
    let b = vec_of(&[1, 2, 3]);
    let c = vec_of(&[1, 2, 4]);
    assert!(key_eq(&a.to_hashkey(), &b.to_hashkey()));
    assert!(!key_eq(&a.to_hashkey(), &c.to_hashkey()));
    assert!(a.to_hashkey() == b.to_hashkey());
    assert!(a.to_hashkey() != c.to_hashkey());
}

#[test]
fn midpoint_of_building_pair_is_above() {
    // a plane built from points a and b: coefficients a - b, constant the
    // negated dot product of the coefficients with the midpoint
    let a = vec_of(&[2, 0]);
    let b = vec_of(&[0, 0]);
    let coefficients = a.subtract(&b);
    let mid = a.avg(&b);
    let constant = -coefficients.dot_prod(&mid);
    let plane = HyperPlane { coefficients, constant };
    assert!(plane.point_is_above(&mid));
}

#[test]
fn vector_new_rejects_out_of_range_coordinates() {
    assert!(matches!(Vector::new(vec![COORD_BOUND + 1]), Err(Error::InvalidInput)));
    assert!(matches!(Vector::new(vec![-COORD_BOUND - 1]), Err(Error::InvalidInput)));
    assert!(Vector::new(vec![COORD_BOUND, -COORD_BOUND]).is_ok());
}
