use bosing::grid::helper::{normalize_span, prefix_sum};

#[test]
fn prefix_sum_should_prepend_zero() {
    let arr = vec![1, 2, 3, 4, 5];
    let expected = vec![0, 1, 3, 6, 10, 15];
    assert_eq!(prefix_sum(&arr), expected);
}

#[test]
fn prefix_sum_of_empty_is_zero() {
    let arr: Vec<i64> = vec![];
    assert_eq!(prefix_sum(&arr), vec![0i64]);
}

#[test]
fn normalize_span_clamps_start_and_span() {
    let s = normalize_span(3, 5, 2);
    assert_eq!((s.start(), s.span()), (2, 1));
    let s = normalize_span(4, 1, 10);
    assert_eq!((s.start(), s.span()), (1, 3));
    let s = normalize_span(4, 1, 2);
    assert_eq!((s.start(), s.span()), (1, 2));
}
