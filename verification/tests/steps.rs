use seqalign::text::{push_blanks, push_decimal, push_digits, push_padded_decimal};
use seqalign::Step;
use std::cmp::Ordering;

fn text(v: Vec<u8>) -> String {
    String::from_utf8(v).unwrap()
}

#[test]
fn from_sets_place_and_score_and_no_backpointer() {
    let s = Step::from(3, 5, -7);
    assert_eq!(s.i(), 3);
    assert_eq!(s.j(), 5);
    assert_eq!(s.val(), -7);
    assert_eq!(s.next(), None);
}

#[test]
fn linked_to_sets_the_backpointer_only() {
    let s = Step::from(3, 5, -7).linked_to(2, 4);
    assert_eq!(s.i(), 3);
    assert_eq!(s.j(), 5);
    assert_eq!(s.val(), -7);
    assert_eq!(s.next(), Some((2, 4)));
}

#[test]
fn default_is_the_lowest_cell_at_the_origin() {
    let s = Step::default();
    assert_eq!(s.i(), 0);
    assert_eq!(s.j(), 0);
    assert_eq!(s.val(), i128::MIN);
    assert_eq!(s.next(), None);
    assert!(s < Step::from(0, 0, i128::MIN + 1));
}

#[test]
fn equality_is_by_place_and_score() {
    assert!(Step::from(1, 2, 3) == Step::from(1, 2, 3));
    assert!(Step::from(1, 2, 3) == Step::from(1, 2, 3).linked_to(0, 1));
    assert!(Step::from(1, 2, 3) != Step::from(1, 2, 4));
    assert!(Step::from(1, 2, 3) != Step::from(2, 2, 3));
    assert!(Step::from(1, 2, 3) != Step::from(1, 3, 3));
}

#[test]
fn order_is_by_score_alone() {
    let low = Step::from(9, 9, -1);
    let high = Step::from(0, 0, 4);
    assert!(low < high);
    assert!(high > low);
    assert!(low <= high);
    assert_eq!(low.cmp(&high), Ordering::Less);
    assert_eq!(high.cmp(&low), Ordering::Greater);
    assert_eq!(low.partial_cmp(&high), Some(Ordering::Less));
}

#[test]
fn cells_with_equal_scores_compare_equal_in_order_but_differ() {
    let x = Step::from(1, 1, 5);
    let y = Step::from(2, 7, 5);
    assert_eq!(x.cmp(&y), Ordering::Equal);
    assert_eq!(x.partial_cmp(&y), Some(Ordering::Equal));
    assert!(!(x < y) && !(x > y));
    assert!(x != y);
}

#[test]
fn render_writes_place_and_score() {
    assert_eq!("(1, 2): -3", text(Step::from(1, 2, -3).render()));
    assert_eq!("(0, 0): 0", text(Step::from(0, 0, 0).render()));
    assert_eq!("(10, 207): 1500", text(Step::from(10, 207, 1500).render()));
}

#[test]
fn render_writes_the_lowest_score() {
    assert_eq!(
        "(0, 0): -170141183460469231731687303715884105728",
        text(Step::default().render())
    );
}

#[test]
fn digits_have_no_leading_zeros() {
    for n in [0u128, 7, 9, 10, 11, 99, 100, 101, 4096, u128::MAX] {
        let mut out = Vec::new();
        push_digits(&mut out, n);
        assert_eq!(n.to_string(), text(out));
    }
}

#[test]
fn decimal_writes_a_sign_for_negative_numbers() {
    for v in [0i128, -1, 1, -9, -10, 10, 42, -1234567, i128::MAX, i128::MIN] {
        let mut out = vec![b'#'];
        push_decimal(&mut out, v);
        assert_eq!(format!("#{}", v), text(out));
    }
}

#[test]
fn padded_decimal_fills_up_with_blanks() {
    for (v, expected) in [
        (0i128, "0  "),
        (-1, "-1 "),
        (12, "12 "),
        (-12, "-12"),
        (123, "123"),
        (1234, "1234"),
    ] {
        let mut out = Vec::new();
        push_padded_decimal(&mut out, v, 3);
        assert_eq!(expected, text(out));
    }
}

#[test]
fn padded_decimal_of_width_zero_adds_nothing() {
    let mut out = Vec::new();
    push_padded_decimal(&mut out, 5, 0);
    assert_eq!("5", text(out));
}

#[test]
fn blanks_are_appended() {
    let mut out = vec![b'a'];
    push_blanks(&mut out, 3);
    assert_eq!("a   ", text(out.clone()));
    push_blanks(&mut out, 0);
    assert_eq!("a   ", text(out));
}
