use segdag::dag::{Dag, DagError};
use segdag::spanset::SpanSet;

fn set_of(ids: &[u64]) -> SpanSet {
    SpanSet::from_spans(ids.to_vec())
}

fn segments(d: &Dag) -> Vec<(u64, u64)> {
    (0..d.segment_count(0)).map(|i| d.segment_range(i)).collect()
}

/// 0 <- 1 <- 2 <- 3, 1 <- 4, {3, 4} <- 5
fn merge_dag() -> Dag {
    let mut d = Dag::new(16, 4);
    let ps = vec![vec![], vec![0], vec![1], vec![2], vec![1], vec![3, 4]];
    assert_eq!(d.build_segments_persistent(5, &ps), Ok(Some(0)));
    d
}

#[test]
fn linear_chain_is_one_segment() {
    let mut d = Dag::new(16, 4);
    let ps = vec![vec![], vec![0], vec![1]];
    assert_eq!(d.build_segments_persistent(2, &ps), Ok(Some(0)));
    assert_eq!(segments(&d), vec![(0, 2)]);
    assert_eq!(d.ancestors(&set_of(&[2])).unwrap().iter_asc(), vec![0, 1, 2]);
    assert_eq!(d.parents(&set_of(&[2])).unwrap().iter_asc(), vec![1]);
    assert_eq!(d.heads(&set_of(&[0, 1, 2])).unwrap().iter_asc(), vec![2]);
}

#[test]
fn merge_splits_segments() {
    let d = merge_dag();
    assert_eq!(segments(&d), vec![(0, 3), (4, 4), (5, 5)]);
    assert_eq!(d.parents(&set_of(&[5])).unwrap().iter_asc(), vec![3, 4]);
    assert_eq!(d.parents(&set_of(&[4, 3])).unwrap().iter_asc(), vec![1, 2]);
    assert_eq!(d.ancestors(&set_of(&[4])).unwrap().iter_asc(), vec![0, 1, 4]);
    assert_eq!(d.ancestors(&set_of(&[5])).unwrap().iter_asc(), vec![0, 1, 2, 3, 4, 5]);
}

#[test]
fn ancestors_are_closed() {
    let d = merge_dag();
    let s = set_of(&[3, 4]);
    let a = d.ancestors(&s).unwrap();
    assert_eq!(d.ancestors(&a).unwrap(), a);
    assert_eq!(s.difference(&a), SpanSet::empty());
}

#[test]
fn heads_of_ancestors_are_unrelated() {
    let d = merge_dag();
    let h = d.heads(&d.ancestors(&set_of(&[3, 4])).unwrap()).unwrap();
    assert_eq!(h.iter_asc(), vec![3, 4]);
    assert_eq!(d.is_ancestor(3, 4), Ok(false));
    assert_eq!(d.is_ancestor(4, 3), Ok(false));
}

#[test]
fn is_ancestor_agrees_with_ancestors() {
    let d = merge_dag();
    for b in 0..6u64 {
        let anc = d.ancestors(&set_of(&[b])).unwrap();
        for a in 0..6u64 {
            assert_eq!(d.is_ancestor(a, b), Ok(anc.contains(a)));
        }
    }
    assert_eq!(d.is_ancestor(1, 5), Ok(true));
    assert_eq!(d.is_ancestor(2, 4), Ok(false));
}

#[test]
fn gca_of_linear_chain_is_the_middle() {
    let mut d = Dag::new(16, 4);
    let ps = vec![vec![], vec![0], vec![1]];
    d.build_segments_persistent(2, &ps).unwrap();
    assert_eq!(d.gca_one(&set_of(&[1, 2])), Ok(Some(1)));
}

#[test]
fn common_ancestors_of_a_merge() {
    // A = 0, B = 1, C = 2, D = 3; B and C both have A as parent.
    let mut d = Dag::new(16, 4);
    let ps = vec![vec![], vec![0], vec![0], vec![1, 2]];
    d.build_segments_persistent(3, &ps).unwrap();
    let ca = d.common_ancestors(&set_of(&[1, 2])).unwrap();
    assert_eq!(ca, d.ancestors(&set_of(&[0])).unwrap());
    assert_eq!(d.gca_one(&set_of(&[1, 2])), Ok(Some(0)));
    assert_eq!(d.gca_all(&set_of(&[1, 2])).unwrap().iter_asc(), vec![0]);
    assert_eq!(d.common_ancestors(&SpanSet::empty()).unwrap(), SpanSet::empty());
    assert_eq!(d.gca_one(&SpanSet::empty()), Ok(None));
}

#[test]
fn gca_of_two_roots_is_none() {
    let mut d = Dag::new(16, 4);
    let ps = vec![vec![], vec![]];
    d.build_segments_persistent(1, &ps).unwrap();
    assert_eq!(d.gca_one(&set_of(&[0, 1])), Ok(None));
    assert_eq!(d.gca_all(&set_of(&[0, 1])).unwrap(), SpanSet::empty());
}

#[test]
fn queries_reject_unindexed_ids() {
    let d = merge_dag();
    assert_eq!(d.ancestors(&set_of(&[6])), Err(DagError::InvalidInput));
    assert_eq!(d.parents(&set_of(&[1, 9])), Err(DagError::InvalidInput));
    assert_eq!(d.heads(&set_of(&[7])), Err(DagError::InvalidInput));
    assert_eq!(d.common_ancestors(&set_of(&[7])), Err(DagError::InvalidInput));
    assert_eq!(d.is_ancestor(0, 6), Err(DagError::InvalidInput));
    assert_eq!(d.is_ancestor(6, 0), Err(DagError::InvalidInput));
}

#[test]
fn build_rejects_bad_parent_tables() {
    let mut d = Dag::new(16, 4);
    // A parent that is not below its child.
    assert_eq!(d.build_segments_persistent(1, &vec![vec![], vec![1]]), Err(DagError::InvalidInput));
    // A table that stops before the last id.
    assert_eq!(d.build_segments_volatile(3, &vec![vec![], vec![0]]), Err(DagError::InvalidInput));
    assert_eq!(d.segment_count(0), 0);
    assert_eq!(d.next_free_id(), 0);
}

#[test]
fn volatile_build_is_idempotent() {
    let mut d = Dag::new(16, 4);
    let ps = vec![vec![], vec![0], vec![1], vec![0], vec![3]];
    d.build_segments_persistent(1, &ps).unwrap();
    d.build_segments_volatile(4, &ps).unwrap();
    let first = segments(&d);
    d.build_segments_volatile(4, &ps).unwrap();
    assert_eq!(segments(&d), first);
    assert_eq!(first, vec![(0, 1), (2, 2), (3, 4)]);
    d.build_segments_persistent(4, &ps).unwrap();
    assert_eq!(segments(&d), first);
    assert_eq!(d.next_free_id(), 5);
}

#[test]
fn persistent_build_drops_volatile_segments() {
    let mut d = Dag::new(16, 4);
    let ps = vec![vec![], vec![0], vec![1]];
    d.build_segments_volatile(2, &ps).unwrap();
    assert_eq!(d.next_free_id(), 3);
    assert_eq!(d.build_segments_persistent(0, &ps), Ok(Some(0)));
    assert_eq!(segments(&d), vec![(0, 0)]);
    assert_eq!(d.next_free_id(), 1);
    assert_eq!(d.build_segments_persistent(0, &ps), Ok(None));
}

fn level(d: &Dag, l: u8) -> Vec<(u64, u64, bool, Vec<u64>)> {
    (0..d.segment_count(l)).map(|i| d.segment_at(l, i)).collect()
}

#[test]
fn levels_merge_full_runs() {
    let mut d = Dag::new(2, 2);
    let ps: Vec<Vec<u64>> = (0..8u64).map(|x| if x == 0 { vec![] } else { vec![x - 1] }).collect();
    let mut tops = Vec::new();
    for x in 0..8u64 {
        tops.push(d.build_segments_persistent(x, &ps).unwrap());
    }
    assert_eq!(tops, vec![Some(0), Some(1), Some(0), Some(2), Some(0), Some(1), Some(0), Some(2)]);
    assert_eq!(d.segment_count(0), 8);
    assert_eq!(
        level(&d, 1),
        vec![(0, 1, true, vec![]), (2, 3, true, vec![1]), (4, 5, true, vec![3]), (6, 7, true, vec![5])]
    );
    assert_eq!(level(&d, 2), vec![(0, 3, true, vec![]), (4, 7, true, vec![3])]);
    assert_eq!(d.ancestors(&set_of(&[5])).unwrap().iter_asc(), vec![0, 1, 2, 3, 4, 5]);
}

#[test]
fn levels_record_outside_parents() {
    let mut d = Dag::new(2, 3);
    let ps = vec![vec![], vec![0], vec![0], vec![1, 2]];
    assert_eq!(d.build_segments_persistent(3, &ps), Ok(Some(1)));
    assert_eq!(level(&d, 0), vec![(0, 1, true, vec![]), (2, 2, true, vec![0]), (3, 3, true, vec![1, 2])]);
    assert_eq!(level(&d, 1), vec![(0, 2, false, vec![])]);
    assert_eq!(d.segment_count(2), 0);
    assert_eq!(d.segment_count(3), 0);
}

#[test]
fn level_zero_only_when_max_level_is_zero() {
    let mut d = Dag::new(1, 0);
    let ps = vec![vec![], vec![0]];
    assert_eq!(d.build_segments_persistent(1, &ps), Ok(Some(0)));
    assert_eq!(d.segment_count(0), 1);
}

#[test]
fn store_round_trip() {
    let mut d = Dag::new(2, 2);
    let ps = vec![vec![], vec![0], vec![0], vec![1, 2], vec![3]];
    d.build_segments_persistent(3, &ps).unwrap();
    d.build_segments_volatile(4, &ps).unwrap();
    let bytes = d.to_bytes();
    let mut expected: Vec<u8> = Vec::new();
    for n in [1u64, 0, 2, 1, 0, 3, 2, 1, 2] {
        expected.extend_from_slice(&n.to_le_bytes());
    }
    assert_eq!(bytes, expected);
    let back = Dag::from_bytes(&bytes, 2, 2).unwrap();
    assert_eq!(level(&back, 0), vec![(0, 1, true, vec![]), (2, 2, true, vec![0]), (3, 3, true, vec![1, 2])]);
    assert_eq!(level(&back, 1), level(&d, 1)[..1].to_vec());
    assert_eq!(back.next_free_id(), 4);
    assert_eq!(back.to_bytes(), bytes);
    assert_eq!(back.ancestors(&set_of(&[3])).unwrap().iter_asc(), vec![0, 1, 2, 3]);
}

#[test]
fn store_rejects_bad_bytes() {
    assert_eq!(Dag::from_bytes(&[], 16, 4).unwrap().next_free_id(), 0);
    let mut gap: Vec<u8> = Vec::new();
    for n in [1u64, 0, 0u64, 0] {
        gap.extend_from_slice(&n.to_le_bytes());
    }
    // The second entry ends below where it starts.
    assert_eq!(Dag::from_bytes(&gap, 16, 4).err(), Some(DagError::Corruption));
    let mut late: Vec<u8> = Vec::new();
    for n in [0u64, 1, 5] {
        late.extend_from_slice(&n.to_le_bytes());
    }
    // A parent that is not below its segment.
    assert_eq!(Dag::from_bytes(&late, 16, 4).err(), Some(DagError::Corruption));
    assert_eq!(Dag::from_bytes(&[0, 0, 0], 16, 4).err(), Some(DagError::Corruption));
}
