use my_kmeans_lib::assign::{assign_points, nearest_centroid};
use my_kmeans_lib::decimal::parse_fixed;
use my_kmeans_lib::fixed::{is_number, LIMIT, NOT_A_NUMBER, SCALE, THRESHOLD};
use my_kmeans_lib::dataset::DataSet;
use my_kmeans_lib::geometry::{check_numeric, floor_sqrt, squared_distance};
use my_kmeans_lib::update::{axis_mean, has_converged, mean_of_cluster};

#[test]
fn test_e_dist3() {
    let a = [0, 0, 0];
    let b = [0, 3_000_000, 4_000_000];
    assert_eq!(DataSet::e_dist3(&a, &b), Some(5_000_000));
}

#[test]
fn distance_is_rounded_down() {
    // sqrt(3) = 1.7320508...
    let a = [0, 0, 0];
    let b = [SCALE, SCALE, SCALE];
    assert_eq!(squared_distance(&a, &b), Some(3_000_000_000_000));
    assert_eq!(DataSet::e_dist3(&a, &b), Some(1_732_050));
    assert_eq!(DataSet::e_dist3(&b, &a), Some(1_732_050));
    assert_eq!(DataSet::e_dist3(&a, &a), Some(0));
}

#[test]
fn distance_at_the_limit() {
    let a = [LIMIT, LIMIT, LIMIT];
    let b = [-LIMIT, -LIMIT, -LIMIT];
    let gap: u128 = 2 * (LIMIT as u128);
    assert_eq!(squared_distance(&a, &b), Some(3 * gap * gap));
    let d = DataSet::e_dist3(&a, &b).unwrap() as u128;
    assert!(d * d <= 3 * gap * gap);
    assert!((d + 1) * (d + 1) > 3 * gap * gap);
}

#[test]
fn distance_to_what_is_not_a_number() {
    let a = [0, 0, 0];
    let b = [0, NOT_A_NUMBER, 0];
    let c = [0, 0, LIMIT + 1];
    assert_eq!(squared_distance(&a, &b), None);
    assert_eq!(DataSet::e_dist3(&a, &b), None);
    assert_eq!(DataSet::e_dist3(&c, &a), None);
    assert!(check_numeric(&a));
    assert!(!check_numeric(&b));
    assert!(!check_numeric(&c));
}

#[test]
fn numbers_and_their_limit() {
    assert!(is_number(0));
    assert!(is_number(LIMIT));
    assert!(is_number(-LIMIT));
    assert!(!is_number(LIMIT + 1));
    assert!(!is_number(-LIMIT - 1));
    assert!(!is_number(NOT_A_NUMBER));
    assert_eq!(THRESHOLD, 100);
    assert_eq!(SCALE, 1_000_000);
}

#[test]
fn integer_square_roots() {
    assert_eq!(floor_sqrt(0), 0);
    assert_eq!(floor_sqrt(1), 1);
    assert_eq!(floor_sqrt(2), 1);
    assert_eq!(floor_sqrt(3), 1);
    assert_eq!(floor_sqrt(4), 2);
    assert_eq!(floor_sqrt(24), 4);
    assert_eq!(floor_sqrt(25), 5);
    assert_eq!(floor_sqrt(26), 5);
    assert_eq!(floor_sqrt(u128::MAX), u64::MAX);
    assert_eq!(floor_sqrt((u64::MAX as u128) * (u64::MAX as u128) - 1), u64::MAX - 1);
}

#[test]
fn nearest_takes_the_first_of_equals() {
    let p = [0, 0, 0];
    let cs = vec![[5, 0, 0], [1, 0, 0], [-1, 0, 0], [0, 1, 0]];
    assert_eq!(nearest_centroid(&p, &cs), 1);
    let cs = vec![[2, 0, 0], [0, 2, 0], [0, 0, 2]];
    assert_eq!(nearest_centroid(&p, &cs), 0);
}

#[test]
fn nearest_passes_over_what_is_not_a_number() {
    let p = [0, 0, 0];
    let cs = vec![[NOT_A_NUMBER, 0, 0], [9, 9, 9], [1, 1, 1]];
    assert_eq!(nearest_centroid(&p, &cs), 2);
    let cs = vec![[NOT_A_NUMBER, 0, 0], [0, NOT_A_NUMBER, 0]];
    assert_eq!(nearest_centroid(&p, &cs), 0);
    let q = [0, NOT_A_NUMBER, 0];
    let cs = vec![[9, 9, 9], [0, 0, 0]];
    assert_eq!(nearest_centroid(&q, &cs), 0);
    let none: Vec<[i64; 3]> = Vec::new();
    assert_eq!(nearest_centroid(&p, &none), 0);
}

#[test]
fn every_point_gets_its_nearest() {
    let points = vec![[0, 0, 0], [10, 10, 10], [4, 4, 4], [6, 6, 6], [5, 5, 5]];
    let cs = vec![[0, 0, 0], [10, 10, 10]];
    assert_eq!(assign_points(&points, &cs), vec![0, 1, 0, 1, 0]);
    let none: Vec<[i64; 3]> = Vec::new();
    assert_eq!(assign_points(&none, &cs), Vec::<usize>::new());
}

#[test]
fn mean_is_rounded_toward_zero() {
    let points = vec![[1, -1, 10], [2, -2, 20], [100, 100, 100], [2, -2, 31]];
    let labels = vec![0, 0, 1, 0];
    // sums 5, -5, 61 over three points
    assert_eq!(mean_of_cluster(&points, &labels, 0), Some([1, -1, 20]));
    assert_eq!(mean_of_cluster(&points, &labels, 1), Some([100, 100, 100]));
    assert_eq!(mean_of_cluster(&points, &labels, 2), None);
    assert_eq!(axis_mean(&points, &labels, 0, 2), Some(20));
    assert_eq!(axis_mean(&points, &labels, 7, 0), None);
}

#[test]
fn mean_of_the_largest_numbers() {
    let points = vec![[LIMIT, -LIMIT, 0], [LIMIT, -LIMIT, 1], [LIMIT, -LIMIT, 1]];
    let labels = vec![3, 3, 3];
    assert_eq!(mean_of_cluster(&points, &labels, 3), Some([LIMIT, -LIMIT, 0]));
}

#[test]
fn mean_with_a_cell_that_is_not_a_number() {
    let points = vec![[1, 2, 3], [3, NOT_A_NUMBER, 5], [7, 7, LIMIT + 5]];
    let labels = vec![0, 0, 1];
    assert_eq!(mean_of_cluster(&points, &labels, 0), Some([2, NOT_A_NUMBER, 4]));
    assert_eq!(mean_of_cluster(&points, &labels, 1), Some([7, 7, NOT_A_NUMBER]));
}

#[test]
fn convergence_is_a_total_shift_below_the_threshold() {
    let before = vec![[0, 0, 0], [1_000, 1_000, 1_000]];
    assert!(has_converged(&before, &before));
    // 33 + 33 + 33 = 99
    let after = vec![[33, -33, 0], [1_000, 1_000, 1_033]];
    assert!(has_converged(&before, &after));
    // 33 + 33 + 34 = 100
    let after = vec![[33, -33, 0], [1_000, 1_000, 1_034]];
    assert!(!has_converged(&before, &after));
    let empty: Vec<[i64; 3]> = Vec::new();
    assert!(has_converged(&empty, &empty));
    assert!(!has_converged(&before, &empty));
}

#[test]
fn what_is_not_a_number_never_converges() {
    let before = vec![[0, 0, NOT_A_NUMBER]];
    assert!(!has_converged(&before, &before));
    let fine = vec![[0, 0, 0]];
    assert!(!has_converged(&fine, &before));
    assert!(!has_converged(&before, &fine));
}

#[test]
fn decimal_text() {
    assert_eq!(parse_fixed(b"0"), 0);
    assert_eq!(parse_fixed(b"9.1"), 9_100_000);
    assert_eq!(parse_fixed(b"0.1"), 100_000);
    assert_eq!(parse_fixed(b"-0.1"), -100_000);
    assert_eq!(parse_fixed(b"+12.000001"), 12_000_001);
    assert_eq!(parse_fixed(b"3."), 3_000_000);
    assert_eq!(parse_fixed(b".5"), 500_000);
    assert_eq!(parse_fixed(b"-.25"), -250_000);
    assert_eq!(parse_fixed(b"007"), 7_000_000);
    assert_eq!(parse_fixed(b"-0"), 0);
    assert_eq!(parse_fixed(b"1.23456789"), 1_234_567);
    assert_eq!(parse_fixed(b"-1.9999999"), -1_999_999);
    assert_eq!(parse_fixed(b"0.0000009"), 0);
}

#[test]
fn text_that_writes_no_number() {
    for text in [
        &b""[..],
        b"-",
        b"+",
        b".",
        b"-.",
        b"abc",
        b"1,5",
        b"1.2.3",
        b"1e",
        b"e5",
        b"1e+",
        b"1e-",
        b"1e5.0",
        b"1e5e5",
        b"1e 5",
        b".e5",
        b"1x5",
        b" 1",
        b"1 ",
        b"--1",
        b"1-",
        b"12a",
        b"1.2x",
        b"nan",
        b"inf",
    ] {
        assert_eq!(parse_fixed(text), NOT_A_NUMBER);
    }
}

#[test]
fn decimal_text_at_the_limit() {
    assert_eq!(parse_fixed(b"1000000000000"), LIMIT);
    assert_eq!(parse_fixed(b"-1000000000000.000000"), -LIMIT);
    assert_eq!(parse_fixed(b"1000000000000.0000009"), LIMIT);
    assert_eq!(parse_fixed(b"999999999999.999999"), LIMIT - 1);
    assert_eq!(parse_fixed(b"1000000000000.000001"), NOT_A_NUMBER);
    assert_eq!(parse_fixed(b"1000000000001"), NOT_A_NUMBER);
    assert_eq!(parse_fixed(b"99999999999999999999999999999999999999999999"), NOT_A_NUMBER);
    assert_eq!(parse_fixed(b"-99999999999999999999999999999999999999999999.5"), NOT_A_NUMBER);
}

#[test]
fn decimal_text_with_an_exponent() {
    assert_eq!(parse_fixed(b"1e3"), 1_000_000_000);
    assert_eq!(parse_fixed(b"1E3"), 1_000_000_000);
    assert_eq!(parse_fixed(b"1.5E-3"), 1_500);
    assert_eq!(parse_fixed(b"-2.5e+2"), -250_000_000);
    assert_eq!(parse_fixed(b"+.5e1"), 5_000_000);
    assert_eq!(parse_fixed(b"1.e2"), 100_000_000);
    assert_eq!(parse_fixed(b"1e0"), 1_000_000);
    assert_eq!(parse_fixed(b"1e-0"), 1_000_000);
    assert_eq!(parse_fixed(b"12e-6"), 12);
    assert_eq!(parse_fixed(b"19e-7"), 1);
    assert_eq!(parse_fixed(b"-19e-7"), -1);
    assert_eq!(parse_fixed(b"1e-7"), 0);
    assert_eq!(parse_fixed(b"123456789e-12"), 123);
    assert_eq!(parse_fixed(b"0.000123456789e3"), 123_456);
    assert_eq!(parse_fixed(b"10000000000000000000000000e-25"), 1_000_000);
    assert_eq!(parse_fixed(b"0.00000000000000000000000001e26"), 1_000_000);
}

#[test]
fn exponents_far_out() {
    assert_eq!(parse_fixed(b"1e12"), LIMIT);
    assert_eq!(parse_fixed(b"-1e12"), -LIMIT);
    assert_eq!(parse_fixed(b"0.000001e18"), LIMIT);
    assert_eq!(parse_fixed(b"1e13"), NOT_A_NUMBER);
    assert_eq!(parse_fixed(b"1.000000000000000001e12"), NOT_A_NUMBER);
    assert_eq!(parse_fixed(b"1e400"), NOT_A_NUMBER);
    assert_eq!(parse_fixed(b"-1e99999999999999999999999999"), NOT_A_NUMBER);
    assert_eq!(parse_fixed(b"0e99999999999999999999999999"), 0);
    assert_eq!(parse_fixed(b"0.000e400"), 0);
    assert_eq!(parse_fixed(b"1e-400"), 0);
    assert_eq!(parse_fixed(b"9e-99999999999999999999999999"), 0);
    assert_eq!(parse_fixed(b"-9e-99999999999999999999999999"), 0);
    assert_eq!(parse_fixed(b"0.00000000000000000001e340282366920938463463374607431768211456"), NOT_A_NUMBER);
}
