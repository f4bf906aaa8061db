use my_kmeans_lib::decimal::parse_fixed;
use my_kmeans_lib::fixed::SCALE;
use my_kmeans_lib::output::{push_digits, render_labels};

#[test]
fn labels_are_written_one_per_line() {
    assert_eq!(render_labels(&vec![0, 1, 10, 255, 1]), b"0\n1\n10\n255\n1".to_vec());
    assert_eq!(render_labels(&vec![7]), b"7".to_vec());
    assert_eq!(render_labels(&Vec::new()), Vec::<u8>::new());
    assert_eq!(render_labels(&vec![0, 0]), b"0\n0".to_vec());
}

#[test]
fn digits_are_appended() {
    let mut out = b"k=".to_vec();
    push_digits(0, &mut out);
    assert_eq!(out, b"k=0".to_vec());
    push_digits(1_002_003, &mut out);
    assert_eq!(out, b"k=01002003".to_vec());
    let mut out = Vec::new();
    push_digits(usize::MAX, &mut out);
    assert_eq!(out, usize::MAX.to_string().into_bytes());
}

#[test]
fn written_digits_read_back() {
    for n in [0usize, 1, 9, 10, 99, 100, 12_345, 999_999] {
        let mut out = Vec::new();
        push_digits(n, &mut out);
        assert_eq!(parse_fixed(&out), (n as i64) * SCALE);
    }
}
