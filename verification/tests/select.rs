use csvcut::Range;
use csvcut::Target;

fn row(fields: &[&str]) -> Vec<String> {
    fields.iter().map(|s| s.to_string()).collect()
}

fn selected(target: &Target, fields: &[&str]) -> Vec<String> {
    target.select(&row(fields)).0
}

fn empty_strs() -> Vec<String> {
    Vec::new()
}

#[test]
fn select_none() {
    let t = Target { ranges: vec![] };
    assert_eq!(empty_strs(), selected(&t, &["top"]));
}

#[test]
fn select_from_none() {
    let t = Target { ranges: vec![Range::Single(0)] };
    assert_eq!(empty_strs(), selected(&t, &[]));
}

#[test]
fn select_single() {
    let t = Target { ranges: vec![Range::Single(0)] };
    assert_eq!(row(&["top"]), selected(&t, &["top"]));
}

#[test]
fn select_single_failure() {
    let t = Target { ranges: vec![Range::Single(1)] };
    assert_eq!(empty_strs(), selected(&t, &["top"]));
}

#[test]
fn select_left_over_right() {
    let t = Target { ranges: vec![Range::Left(2)] };
    assert_eq!(empty_strs(), selected(&t, &["top"]));
}

#[test]
fn select_left_center() {
    let t = Target { ranges: vec![Range::Left(1)] };
    assert_eq!(row(&["two"]), selected(&t, &["top", "two"]));
}

#[test]
fn select_left() {
    let t = Target { ranges: vec![Range::Left(0)] };
    assert_eq!(row(&["top", "two"]), selected(&t, &["top", "two"]));
}

#[test]
fn select_right_over_right() {
    let t = Target { ranges: vec![Range::Right(3)] };
    assert_eq!(row(&["top", "two"]), selected(&t, &["top", "two"]));
}

#[test]
fn select_right_center() {
    let t = Target { ranges: vec![Range::Right(0)] };
    assert_eq!(row(&["top"]), selected(&t, &["top", "two"]));
}

#[test]
fn select_right() {
    let t = Target { ranges: vec![Range::Right(1)] };
    assert_eq!(row(&["top", "two"]), selected(&t, &["top", "two"]));
}

#[test]
fn select_interval_out_of_bounds() {
    let t = Target { ranges: vec![Range::Interval(2, 3)] };
    assert_eq!(empty_strs(), selected(&t, &["top"]));
}

#[test]
fn select_interval_right_out_of_bounds() {
    let t = Target { ranges: vec![Range::Interval(0, 3)] };
    assert_eq!(row(&["top"]), selected(&t, &["top"]));
}

#[test]
fn select_interval_single() {
    let t = Target { ranges: vec![Range::Interval(1, 1)] };
    assert_eq!(row(&["two"]), selected(&t, &["top", "two"]));
}

#[test]
fn select_interval_negative() {
    let t = Target { ranges: vec![Range::Interval(1, 0)] };
    assert_eq!(empty_strs(), selected(&t, &["top", "two"]));
}

#[test]
fn select_single_and_interval() {
    let t = Target { ranges: vec![Range::Single(0), Range::Interval(3, 4)] };
    assert_eq!(row(&["0", "3", "4"]), selected(&t, &["0", "1", "2", "3", "4", "5"]));
}

#[test]
fn select_single_and_interval_crossing() {
    let t = Target { ranges: vec![Range::Single(3), Range::Interval(2, 4)] };
    assert_eq!(row(&["3", "2", "3", "4"]), selected(&t, &["0", "1", "2", "3", "4", "5"]));
}

#[test]
fn ends_of_each_shape() {
    assert_eq!((3, 4), Range::Single(3).ends());
    assert_eq!((4, usize::MAX), Range::Left(4).ends());
    assert_eq!((0, 6), Range::Right(5).ends());
    assert_eq!((7, 10), Range::Interval(7, 9).ends());
}
