use segdag::spanset::SpanSet;

fn set_of(ids: &[u64]) -> SpanSet {
    SpanSet::from_spans(ids.to_vec())
}

#[test]
fn from_spans_normalizes_unsorted_input() {
    let s = set_of(&[5, 1, 2, 3, 9, 2, 10]);
    assert_eq!(s.span_count(), 3);
    assert_eq!(s.span_at(0).low, 9);
    assert_eq!(s.span_at(0).high, 10);
    assert_eq!(s.span_at(1).low, 5);
    assert_eq!(s.span_at(1).high, 5);
    assert_eq!(s.span_at(2).low, 1);
    assert_eq!(s.span_at(2).high, 3);
    assert_eq!(s.iter_desc(), vec![10, 9, 5, 3, 2, 1]);
    assert_eq!(s.iter_asc(), vec![1, 2, 3, 5, 9, 10]);
}

#[test]
fn empty_set_has_no_bounds() {
    let s = SpanSet::empty();
    assert_eq!(s.min(), None);
    assert_eq!(s.max(), None);
    assert_eq!(s.count(), 0);
    assert!(!s.contains(0));
    assert_eq!(s.iter_desc(), Vec::<u64>::new());
}

#[test]
fn contains_min_max_count() {
    let s = set_of(&[0, 1, 2, 7, 8, 20]);
    assert!(s.contains(0));
    assert!(s.contains(8));
    assert!(s.contains(20));
    assert!(!s.contains(3));
    assert!(!s.contains(21));
    assert_eq!(s.min(), Some(0));
    assert_eq!(s.max(), Some(20));
    assert_eq!(s.count(), 6);
}

#[test]
fn union_merges_adjacent_intervals() {
    let a = SpanSet::from_range(1, 3);
    let b = SpanSet::from_range(4, 6);
    let u = a.union(&b);
    assert_eq!(u.span_count(), 1);
    assert_eq!(u.iter_asc(), vec![1, 2, 3, 4, 5, 6]);
}

#[test]
fn union_is_commutative() {
    let x = set_of(&[1, 2, 3, 10, 11, 40]);
    let y = set_of(&[3, 4, 12, 30, 41]);
    assert_eq!(x.union(&y), y.union(&x));
    assert_eq!(x.union(&y).iter_asc(), vec![1, 2, 3, 4, 10, 11, 12, 30, 40, 41]);
}

#[test]
fn intersection_with_union_gives_set_back() {
    let x = set_of(&[1, 2, 3, 10, 11, 40]);
    let y = set_of(&[3, 4, 12, 30, 41]);
    assert_eq!(x.intersection(&x.union(&y)), x);
    assert_eq!(x.intersection(&y).iter_asc(), vec![3]);
}

#[test]
fn difference_with_itself_is_empty() {
    let x = set_of(&[1, 2, 3, 10, 11, 40]);
    assert_eq!(x.difference(&x), SpanSet::empty());
    let y = SpanSet::from_range(2, 10);
    assert_eq!(x.difference(&y).iter_asc(), vec![1, 11, 40]);
}

#[test]
fn ids_round_trip() {
    let s = set_of(&[100, 3, 4, 5, 50, 51, 0]);
    assert_eq!(SpanSet::from_spans(s.iter_desc()), s);
    assert_eq!(SpanSet::from_spans(s.iter_asc()), s);
}

#[test]
fn complement_covers_the_rest() {
    let s = SpanSet::from_range(5, 10);
    let c = s.complement();
    assert!(c.contains(0));
    assert!(c.contains(4));
    assert!(!c.contains(5));
    assert!(!c.contains(10));
    assert!(c.contains(11));
    assert!(c.contains(u64::MAX));
    assert_eq!(c.span_count(), 2);
}

#[test]
fn largest_ids_are_handled() {
    let s = SpanSet::from_range(u64::MAX - 1, u64::MAX);
    assert_eq!(s.max(), Some(u64::MAX));
    assert_eq!(s.count(), 2);
    assert_eq!(s.complement().max(), Some(u64::MAX - 2));
    assert_eq!(SpanSet::from_range(0, u64::MAX).complement(), SpanSet::empty());
}

#[test]
fn shift_down_lowers_every_id() {
    let s = set_of(&[1, 2, 9]);
    assert_eq!(s.shift_down().iter_asc(), vec![0, 1, 8]);
}
