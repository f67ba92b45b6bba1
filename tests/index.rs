use segdag::dag::DagError;
use segdag::errors::ErrorKind;
use segdag::idmap::{IdMap, ParentGraph};
use segdag::index::Index;
use segdag::spanset::SpanSet;

fn key(s: &str) -> Vec<u8> {
    s.as_bytes().to_vec()
}

fn graph(entries: &[(&str, &[&str])]) -> ParentGraph {
    let mut g = ParentGraph::new();
    for (node, parents) in entries {
        assert!(g.insert(key(node), parents.iter().map(|p| key(p)).collect()));
    }
    g
}

fn set_of(ids: &[u64]) -> SpanSet {
    SpanSet::from_spans(ids.to_vec())
}

#[test]
fn empty_head_list_changes_nothing() {
    let mut ix = Index::new(16, 4);
    let g = graph(&[("A", &[])]);
    assert_eq!(ix.build_disk(&vec![], &g), Ok(None));
    assert_eq!(ix.build_mem(&vec![], &g), Ok(None));
    assert_eq!(ix.map.next_free_id(), 0);
    assert_eq!(ix.dag.segment_count(0), 0);
}

#[test]
fn chain_gets_ids_in_order() {
    let g = graph(&[("A", &[]), ("B", &["A"]), ("C", &["B"])]);
    let mut map = IdMap::new();
    assert_eq!(map.assign_head(b"C", &g), Ok(2));
    assert_eq!(map.find_id_by_slice(b"A"), Some(0));
    assert_eq!(map.find_id_by_slice(b"B"), Some(1));
    assert_eq!(map.find_id_by_slice(b"C"), Some(2));
    let mut ix = Index::new(16, 4);
    assert_eq!(ix.build_disk(&vec![key("C")], &g), Ok(Some(0)));
    assert_eq!(ix.dag.segment_count(0), 1);
    assert_eq!(ix.dag.segment_range(0), (0, 2));
    assert_eq!(ix.dag.ancestors(&set_of(&[2])).unwrap().iter_asc(), vec![0, 1, 2]);
    assert_eq!(ix.dag.parents(&set_of(&[2])).unwrap().iter_asc(), vec![1]);
    assert_eq!(ix.dag.heads(&set_of(&[0, 1, 2])).unwrap().iter_asc(), vec![2]);
}

#[test]
fn merge_common_ancestors() {
    let g = graph(&[("A", &[]), ("B", &["A"]), ("C", &["A"]), ("D", &["B", "C"])]);
    let mut ix = Index::new(16, 4);
    ix.build_disk(&vec![key("D")], &g).unwrap();
    let id = |k: &str| ix.map.find_id_by_slice(k.as_bytes()).unwrap();
    let (a, b, c) = (id("A"), id("B"), id("C"));
    let ca = ix.dag.common_ancestors(&set_of(&[b, c])).unwrap();
    assert_eq!(ca, ix.dag.ancestors(&set_of(&[a])).unwrap());
    assert_eq!(ix.dag.gca_one(&set_of(&[b, c])), Ok(Some(a)));
}

#[test]
fn first_parent_follows_directly() {
    let g = graph(&[("A", &[]), ("B", &["A"]), ("C", &["A"]), ("D", &["B", "C"])]);
    let mut map = IdMap::new();
    let d = map.assign_head(b"D", &g).unwrap();
    let b = map.find_id_by_slice(b"B").unwrap();
    let c = map.find_id_by_slice(b"C").unwrap();
    assert_eq!(d, b + 1);
    assert!(c < b);
}

#[test]
fn parents_have_smaller_ids() {
    let g = graph(&[("A", &[]), ("B", &["A"]), ("C", &["A"]), ("D", &["B", "C"]), ("E", &["D", "A"])]);
    let mut map = IdMap::new();
    map.assign_head(b"E", &g).unwrap();
    let table = map.build_get_parents_by_id(&g).unwrap();
    assert_eq!(table.len(), 5);
    for (child, parents) in table.iter().enumerate() {
        for p in parents {
            assert!((*p as usize) < child);
        }
    }
}

#[test]
fn key_round_trip() {
    let g = graph(&[("A", &[]), ("B", &["A"]), ("C", &["B"])]);
    let mut map = IdMap::new();
    map.assign_head(b"C", &g).unwrap();
    for k in ["A", "B", "C"] {
        let id = map.find_id_by_slice(k.as_bytes()).unwrap();
        assert_eq!(map.find_slice_by_id(id), Some(k.as_bytes()));
    }
    assert_eq!(map.find_slice_by_id(3), None);
    assert_eq!(map.find_id_by_slice(b"Z"), None);
}

#[test]
fn assigned_head_keeps_its_id() {
    let g = graph(&[("A", &[]), ("B", &["A"])]);
    let mut map = IdMap::new();
    assert_eq!(map.assign_head(b"A", &g), Ok(0));
    assert_eq!(map.assign_head(b"B", &g), Ok(1));
    assert_eq!(map.assign_head(b"A", &g), Ok(0));
    assert_eq!(map.next_free_id(), 2);
}

#[test]
fn unknown_nodes_and_cycles_fail() {
    let g = graph(&[("A", &["B"]), ("B", &["A"]), ("C", &["X"])]);
    let mut map = IdMap::new();
    assert_eq!(map.assign_head(b"Q", &g), Err(DagError::InvalidInput));
    assert_eq!(map.assign_head(b"A", &g), Err(DagError::InvalidInput));
    assert_eq!(map.assign_head(b"C", &g), Err(DagError::InvalidInput));
    assert_eq!(map.next_free_id(), 0);
}

#[test]
fn parent_table_needs_assigned_parents() {
    let g = graph(&[("A", &[]), ("B", &["A"])]);
    let other = graph(&[("A", &["Z"])]);
    let mut map = IdMap::new();
    map.assign_head(b"B", &g).unwrap();
    assert_eq!(map.build_get_parents_by_id(&g), Ok(vec![vec![], vec![0]]));
    assert_eq!(map.build_get_parents_by_id(&other), Err(DagError::InvalidInput));
}

#[test]
fn sync_and_discard_pending() {
    let g = graph(&[("A", &[]), ("B", &["A"]), ("C", &["B"])]);
    let mut map = IdMap::new();
    map.assign_head(b"A", &g).unwrap();
    map.sync();
    map.assign_head(b"C", &g).unwrap();
    assert_eq!(map.next_free_id(), 3);
    map.discard_pending();
    assert_eq!(map.next_free_id(), 1);
    assert_eq!(map.find_id_by_slice(b"C"), None);
}

#[test]
fn graph_keeps_first_entry() {
    let mut g = ParentGraph::new();
    assert!(g.insert(key("A"), vec![]));
    assert!(!g.insert(key("A"), vec![key("B")]));
}

#[test]
fn build_mem_then_build_disk() {
    let g = graph(&[("A", &[]), ("B", &["A"]), ("C", &["B"])]);
    let mut ix = Index::new(16, 4);
    assert_eq!(ix.build_mem(&vec![key("C")], &g), Ok(Some(0)));
    assert_eq!(ix.dag.next_free_id(), 3);
    assert_eq!(ix.build_disk(&vec![key("C")], &g), Ok(Some(0)));
    assert_eq!(ix.dag.segment_count(0), 1);
    assert_eq!(ix.map.next_free_id(), 3);
}

#[test]
fn runtime_shutdown_message() {
    assert_eq!(ErrorKind::RuntimeShuttingDown.message(), "Runtime is shutting down");
}

#[test]
fn id_map_store_round_trip() {
    let g = graph(&[("A", &[]), ("BB", &["A"]), ("C", &["BB"])]);
    let mut map = IdMap::new();
    map.assign_head(b"BB", &g).unwrap();
    map.sync();
    map.assign_head(b"C", &g).unwrap();
    let bytes = map.to_bytes();
    assert_eq!(bytes, vec![1, 0, 0, 0, 0, 0, 0, 0, b'A', 2, 0, 0, 0, 0, 0, 0, 0, b'B', b'B']);
    let back = IdMap::from_bytes(&bytes).unwrap();
    assert_eq!(back.next_free_id(), 2);
    assert_eq!(back.find_id_by_slice(b"BB"), Some(1));
    assert_eq!(back.find_id_by_slice(b"C"), None);
    assert_eq!(back.to_bytes(), bytes);
}

#[test]
fn id_map_store_rejects_bad_bytes() {
    assert_eq!(IdMap::from_bytes(&[]).unwrap().next_free_id(), 0);
    assert_eq!(IdMap::from_bytes(&[1, 0, 0]).err(), Some(DagError::Corruption));
    assert_eq!(IdMap::from_bytes(&[5, 0, 0, 0, 0, 0, 0, 0, b'A']).err(), Some(DagError::Corruption));
    let twice = [1, 0, 0, 0, 0, 0, 0, 0, b'A', 1, 0, 0, 0, 0, 0, 0, 0, b'A'];
    assert_eq!(IdMap::from_bytes(&twice).err(), Some(DagError::Corruption));
}

#[test]
fn failed_build_publishes_nothing() {
    let g = graph(&[("A", &[]), ("B", &["A"])]);
    let mut ix = Index::new(16, 4);
    ix.build_disk(&vec![key("A")], &g).unwrap();
    let map_bytes = ix.map.to_bytes();
    let dag_bytes = ix.dag.to_bytes();
    // A head without an entry.
    assert_eq!(ix.build_disk(&vec![key("Z")], &g), Err(DagError::InvalidInput));
    assert_eq!(ix.map.to_bytes(), map_bytes);
    assert_eq!(ix.dag.to_bytes(), dag_bytes);
    // Ids are given, but the table then makes a node its own parent.
    ix.map.assign_head(b"B", &g).unwrap();
    let flipped = graph(&[("A", &[]), ("B", &["B"])]);
    assert_eq!(ix.build_disk(&vec![key("B")], &flipped), Err(DagError::InvalidInput));
    assert_eq!(ix.map.to_bytes(), map_bytes);
    assert_eq!(ix.dag.to_bytes(), dag_bytes);
}

#[test]
fn children_listed_first_still_assign() {
    let g = graph(&[("C", &["B"]), ("B", &["A"]), ("A", &[])]);
    let mut ix = Index::new(16, 4);
    assert_eq!(ix.build_disk(&vec![key("C")], &g), Ok(Some(0)));
    assert_eq!(ix.map.find_id_by_slice(b"A"), Some(0));
    assert_eq!(ix.map.find_id_by_slice(b"B"), Some(1));
    assert_eq!(ix.map.find_id_by_slice(b"C"), Some(2));
}

#[test]
fn repeated_build_mem_keeps_segments() {
    let g = graph(&[("A", &[]), ("B", &["A"]), ("C", &["A"]), ("D", &["B", "C"])]);
    let mut ix = Index::new(2, 2);
    ix.build_mem(&vec![key("D")], &g).unwrap();
    let first: Vec<(u64, u64)> = (0..ix.dag.segment_count(0)).map(|i| ix.dag.segment_range(i)).collect();
    ix.build_mem(&vec![key("D")], &g).unwrap();
    let second: Vec<(u64, u64)> = (0..ix.dag.segment_count(0)).map(|i| ix.dag.segment_range(i)).collect();
    assert_eq!(first, second);
    ix.build_disk(&vec![key("D")], &g).unwrap();
    let durable: Vec<(u64, u64)> = (0..ix.dag.segment_count(0)).map(|i| ix.dag.segment_range(i)).collect();
    assert_eq!(durable, first);
}
