use roma::permutation::{copy_values, reverse_segment};
use roma::text::{push_decimal, push_str};

#[test]
fn copy_values_duplicates_the_slice() {
    assert_eq!(copy_values(&[3, 1, 2]), vec![3, 1, 2]);
    assert_eq!(copy_values::<u8>(&[]), Vec::<u8>::new());
}

#[test]
fn reverse_segment_reverses_only_the_range() {
    let mut v = vec![0, 1, 2, 3, 4, 5];
    reverse_segment(&mut v, 1, 5);
    assert_eq!(v, vec![0, 4, 3, 2, 1, 5]);
    let mut w = vec![0, 1, 2];
    reverse_segment(&mut w, 1, 1);
    assert_eq!(w, vec![0, 1, 2]);
}

#[test]
fn push_decimal_writes_digits() {
    let mut out: Vec<char> = Vec::new();
    push_str(&mut out, "n=");
    push_decimal(&mut out, 1050);
    assert_eq!(out.iter().collect::<String>(), "n=1050");
    let mut zero: Vec<char> = Vec::new();
    push_decimal(&mut zero, 0);
    assert_eq!(zero, vec!['0']);
}
