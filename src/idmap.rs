//! The map between node keys and dense ids, and the table of parent keys
//! that ids are assigned from.
use vstd::prelude::*;
use crate::codec::{le_bytes, le_value, lemma_le_bytes_of_value, lemma_le_round_trip, push_u64, read_u64};
use crate::dag::DagError;

verus! {

/// Whether two byte strings are equal.
pub fn bytes_eq(a: &[u8], b: &[u8]) -> (r: bool)
    ensures
        r == (a@ == b@),
{
    if a.len() != b.len() {
        return false;
    }
    let mut i: usize = 0;
    while i < a.len()
        invariant
            a@.len() == b@.len(),
            i <= a.len(),
            forall|j: int| 0 <= j < i ==> a@[j] == b@[j],
        decreases a.len() - i,
    {
        if a[i] != b[i] {
            return false;
        }
        i = i + 1;
    }
    assert(a@ =~= b@);
    true
}

/// A vector holding the bytes of `a`.
pub fn bytes_to_vec(a: &[u8]) -> (r: Vec<u8>)
    ensures
        r@ == a@,
{
    let mut r: Vec<u8> = Vec::new();
    let mut i: usize = 0;
    while i < a.len()
        invariant
            i <= a.len(),
            r@ == a@.subrange(0, i as int),
        decreases a.len() - i,
    {
        r.push(a[i]);
        i = i + 1;
        assert(r@ =~= a@.subrange(0, i as int));
    }
    assert(r@ =~= a@);
    r
}

/// The position of `k` in `s`, where it occurs.
fn position_of(s: &Vec<Vec<u8>>, k: &[u8]) -> (r: Option<usize>)
    ensures
        r matches Some(i) ==> i < s.len() && s@[i as int]@ == k@,
        r is None ==> forall|i: int| 0 <= i < s.len() ==> (#[trigger] s@[i])@ != k@,
{
    let mut i: usize = 0;
    while i < s.len()
        invariant
            i <= s.len(),
            forall|j: int| 0 <= j < i ==> (#[trigger] s@[j])@ != k@,
        decreases s.len() - i,
    {
        if bytes_eq(s[i].as_slice(), k) {
            return Some(i);
        }
        i = i + 1;
    }
    None
}

/// The byte strings of a vector of vectors.
pub open spec fn keys_view(s: Seq<Vec<u8>>) -> Seq<Seq<u8>> {
    s.map_values(|v: Vec<u8>| v@)
}

/// No two entries are equal.
pub open spec fn distinct(s: Seq<Seq<u8>>) -> bool {
    forall|i: int, j: int| 0 <= i < s.len() && 0 <= j < s.len() && i != j ==> s[i] != s[j]
}

/// The parent keys of each node, in the order the parents are listed.
pub struct ParentGraph {
    nodes: Vec<Vec<u8>>,
    parents: Vec<Vec<Vec<u8>>>,
}

impl ParentGraph {
    /// The node keys of the table.
    pub closed spec fn nodes(&self) -> Seq<Seq<u8>> {
        keys_view(self.nodes@)
    }

    /// The parent keys of the node at position `i`.
    pub closed spec fn parents_at(&self, i: int) -> Seq<Seq<u8>> {
        keys_view(self.parents@[i]@)
    }

    pub closed spec fn wf(&self) -> bool {
        &&& self.nodes.len() == self.parents.len()
        &&& distinct(self.nodes())
    }

    /// The node `k` has an entry.
    pub open spec fn has(&self, k: Seq<u8>) -> bool {
        self.nodes().contains(k)
    }

    /// Every parent has an entry.
    pub open spec fn closed(&self) -> bool {
        forall|i: int, k: int| 0 <= i < self.nodes().len() && 0 <= k < self.parents_at(i).len()
            ==> self.has(#[trigger] self.parents_at(i)[k])
    }

    /// Every parent ranks below its child.
    pub open spec fn ranked_by(&self, rank: spec_fn(Seq<u8>) -> nat) -> bool {
        forall|i: int, k: int| 0 <= i < self.nodes().len() && 0 <= k < self.parents_at(i).len()
            ==> rank(#[trigger] self.parents_at(i)[k]) < rank(self.nodes()[i])
    }

    /// No node is its own ancestor: some rank drops along every parent edge.
    pub open spec fn acyclic(&self) -> bool {
        exists|rank: spec_fn(Seq<u8>) -> nat| self.ranked_by(rank)
    }

    /// The parent keys of `k`, for a node that has an entry.
    pub open spec fn parents_of(&self, k: Seq<u8>) -> Seq<Seq<u8>> {
        self.parents_at(self.nodes().index_of(k))
    }

    pub fn new() -> (r: ParentGraph)
        ensures
            r.wf(),
            r.nodes() == Seq::<Seq<u8>>::empty(),
    {
        let r = ParentGraph { nodes: Vec::new(), parents: Vec::new() };
        assert(r.nodes() =~= Seq::<Seq<u8>>::empty());
        r
    }

    /// Records the parents of `node`; a node that already has an entry
    /// keeps it, and `false` is returned.
    pub fn insert(&mut self, node: Vec<u8>, parents: Vec<Vec<u8>>) -> (r: bool)
        requires
            old(self).wf(),
        ensures
            final(self).wf(),
            r == !old(self).has(node@),
            r ==> final(self).nodes() == old(self).nodes().push(node@),
            r ==> final(self).parents_of(node@) == keys_view(parents@),
            r ==> forall|k: Seq<u8>| #[trigger] old(self).has(k) ==> final(self).parents_of(k) == old(self).parents_of(k),
            !r ==> *final(self) == *old(self),
    {
        match position_of(&self.nodes, node.as_slice()) {
            Some(i) => {
                proof {
                    assert(self.nodes()[i as int] == node@);
                }
                false
            },
            None => {
                let ghost old_nodes = self.nodes();
                let ghost nv = node@;
                proof {
                    assert forall|i: int| 0 <= i < old_nodes.len() implies old_nodes[i] != nv by {
                        assert(self.nodes@[i]@ != nv);
                    }
                }
                self.nodes.push(node);
                self.parents.push(parents);
                proof {
                    let n = self.nodes();
                    assert(n =~= old_nodes.push(nv));
                    assert(n.index_of(nv) == old_nodes.len()) by {
                        assert(n[old_nodes.len() as int] == nv);
                    }
                    assert forall|k: Seq<u8>| #[trigger] old(self).has(k) implies self.parents_of(k) == old(self).parents_of(k) by {
                        let i = old_nodes.index_of(k);
                        assert(n[i] == k);
                        assert(n.index_of(k) == i) by {
                            assert(distinct(n)) by {
                                assert forall|a: int, b: int| 0 <= a < n.len() && 0 <= b < n.len() && a != b implies n[a] != n[b] by {
                                    if a < old_nodes.len() && b < old_nodes.len() {
                                    } else if a < old_nodes.len() {
                                        assert(old_nodes[a] != nv);
                                    } else if b < old_nodes.len() {
                                        assert(old_nodes[b] != nv);
                                    }
                                }
                            }
                        }
                    }
                }
                true
            },
        }
    }
}

impl ParentGraph {
    /// The position of `k` in the table.
    fn find(&self, k: &[u8]) -> (r: Option<usize>)
        requires
            self.wf(),
        ensures
            r matches Some(i) ==> i < self.nodes().len() && self.nodes()[i as int] == k@ && self.nodes().index_of(k@) == i,
            r is None <==> !self.has(k@),
    {
        let r = position_of(&self.nodes, k);
        proof {
            match r {
                Some(i) => {
                    assert(self.nodes()[i as int] == k@);
                    assert(self.nodes().contains(k@));
                    let j = self.nodes().index_of(k@);
                    assert(self.nodes()[j] == k@);
                },
                None => {
                    if self.nodes().contains(k@) {
                        let j = self.nodes().index_of(k@);
                        assert(self.nodes@[j]@ == k@);
                    }
                },
            }
        }
        r
    }
}

/// The number of table nodes that are neither assigned nor waiting on the
/// stack.
pub open spec fn count_fresh(t: Seq<Seq<u8>>, assigned: Seq<Seq<u8>>, stack: Seq<Seq<u8>>) -> nat
    decreases t.len(),
{
    if t.len() == 0 {
        0
    } else {
        count_fresh(t.drop_last(), assigned, stack) + if !assigned.contains(t.last()) && !stack.contains(t.last()) {
            1nat
        } else {
            0nat
        }
    }
}

proof fn lemma_count_fresh(t: Seq<Seq<u8>>, m1: Seq<Seq<u8>>, s1: Seq<Seq<u8>>, m2: Seq<Seq<u8>>, s2: Seq<Seq<u8>>, i: int)
    requires
        forall|k: Seq<u8>| !m2.contains(k) && !s2.contains(k) ==> !m1.contains(k) && !s1.contains(k),
    ensures
        count_fresh(t, m2, s2) <= count_fresh(t, m1, s1),
        0 <= i < t.len() && !m1.contains(t[i]) && !s1.contains(t[i]) && (m2.contains(t[i]) || s2.contains(t[i]))
            ==> count_fresh(t, m2, s2) < count_fresh(t, m1, s1),
    decreases t.len(),
{
    if t.len() > 0 {
        lemma_count_fresh(t.drop_last(), m1, s1, m2, s2, i);
        if 0 <= i < t.len() - 1 {
            assert(t.drop_last()[i] == t[i]);
        }
    }
}

/// Every entry from `start` on is a node of `graph` whose parents all
/// have smaller ids.
pub open spec fn assigned_after_parents(keys: Seq<Seq<u8>>, graph: ParentGraph, start: int) -> bool {
    forall|i: int| start <= i < keys.len() ==> graph.has(#[trigger] keys[i])
        && forall|k: int| 0 <= k < graph.parents_of(keys[i]).len()
            ==> #[trigger] assigned_before(keys, graph.parents_of(keys[i])[k], i)
}

/// `key` has an id below `i`.
pub open spec fn assigned_before(keys: Seq<Seq<u8>>, key: Seq<u8>, i: int) -> bool {
    exists|j: int| 0 <= j < i && keys[j] == key
}

/// Appending a node whose parents all have ids keeps parents before
/// children.
proof fn lemma_assign_step(kb: Seq<Seq<u8>>, graph: ParentGraph, start: int, top: Seq<u8>)
    requires
        0 <= start <= kb.len(),
        assigned_after_parents(kb, graph, start),
        graph.has(top),
        forall|k: int| 0 <= k < graph.parents_of(top).len() ==> kb.contains(#[trigger] graph.parents_of(top)[k]),
    ensures
        assigned_after_parents(kb.push(top), graph, start),
{
    let kn = kb.push(top);
    assert forall|i: int| start <= i < kn.len() implies graph.has(#[trigger] kn[i])
        && forall|k: int| 0 <= k < graph.parents_of(kn[i]).len()
            ==> #[trigger] assigned_before(kn, graph.parents_of(kn[i])[k], i) by {
        if i < kb.len() {
            assert(kn[i] == kb[i]);
            assert(graph.has(kb[i]));
            assert forall|k: int| 0 <= k < graph.parents_of(kn[i]).len() implies
                #[trigger] assigned_before(kn, graph.parents_of(kn[i])[k], i) by {
                assert(assigned_before(kb, graph.parents_of(kb[i])[k], i));
                let j = choose|j: int| 0 <= j < i && kb[j] == graph.parents_of(kb[i])[k];
                assert(kn[j] == kb[j]);
            }
        } else {
            assert(kn[i] == top);
            assert forall|k: int| 0 <= k < graph.parents_of(kn[i]).len() implies
                #[trigger] assigned_before(kn, graph.parents_of(kn[i])[k], i) by {
                assert(kb.contains(graph.parents_of(top)[k]));
                let j = choose|j: int| 0 <= j < kb.len() && kb[j] == graph.parents_of(top)[k];
                assert(kn[j] == kb[j]);
            }
        }
    }
}

/// `t` gives, for each id, the ids of its node's parents in `graph`, in
/// the order they are listed.
pub open spec fn id_table_of(keys: Seq<Seq<u8>>, graph: ParentGraph, t: Seq<Seq<u64>>) -> bool {
    &&& t.len() == keys.len()
    &&& forall|i: int| 0 <= i < t.len() ==> (#[trigger] t[i]).len() == graph.parents_of(keys[i]).len()
    &&& forall|i: int, k: int| 0 <= i < t.len() && 0 <= k < t[i].len() ==> (#[trigger] t[i][k]) < keys.len()
        && keys[t[i][k] as int] == graph.parents_of(keys[i])[k]
}

/// Every assigned node has an entry in `graph`, and all of its parents
/// are assigned.
pub open spec fn parents_known(keys: Seq<Seq<u8>>, graph: ParentGraph) -> bool {
    forall|i: int| 0 <= i < keys.len() ==> graph.has(#[trigger] keys[i])
        && forall|k: int| 0 <= k < graph.parents_of(keys[i]).len() ==> keys.contains(#[trigger] graph.parents_of(keys[i])[k])
}

/// The stored form of a list of keys: for each key in turn, its length
/// and then its bytes.
pub open spec fn encode_keys(keys: Seq<Seq<u8>>) -> Seq<u8>
    decreases keys.len(),
{
    if keys.len() == 0 {
        Seq::empty()
    } else {
        encode_keys(keys.drop_last()) + le_bytes(keys.last().len() as u64) + keys.last()
    }
}

/// The stored form of the first `j + 1` keys extends that of the first `j`.
proof fn lemma_encode_step(keys: Seq<Seq<u8>>, j: int)
    requires
        0 <= j < keys.len(),
    ensures
        encode_keys(keys.subrange(0, j + 1)) == encode_keys(keys.subrange(0, j)) + le_bytes(keys[j].len() as u64) + keys[j],
{
    let t = keys.subrange(0, j + 1);
    assert(t.drop_last() =~= keys.subrange(0, j));
    assert(t.last() == keys[j]);
}

/// The stored form of the first `j` keys starts the stored form of all.
proof fn lemma_encode_prefix(keys: Seq<Seq<u8>>, j: int)
    requires
        0 <= j <= keys.len(),
    ensures
        encode_keys(keys.subrange(0, j)).len() <= encode_keys(keys).len(),
        encode_keys(keys).subrange(0, encode_keys(keys.subrange(0, j)).len() as int) == encode_keys(keys.subrange(0, j)),
        j < keys.len() ==> encode_keys(keys.subrange(0, j)).len() < encode_keys(keys).len(),
    decreases keys.len(),
{
    if j == keys.len() {
        assert(keys.subrange(0, j) =~= keys);
        assert(encode_keys(keys).subrange(0, encode_keys(keys).len() as int) =~= encode_keys(keys));
    } else {
        let d = keys.drop_last();
        lemma_encode_prefix(d, j);
        assert(d.subrange(0, j) =~= keys.subrange(0, j));
        let e = encode_keys(keys);
        let ed = encode_keys(d);
        let ej = encode_keys(keys.subrange(0, j));
        assert(e == ed + le_bytes(keys.last().len() as u64) + keys.last());
        assert(e.subrange(0, ej.len() as int) =~= ed.subrange(0, ej.len() as int));
    }
}

/// Every key of `k` is shorter than `bound`.
pub open spec fn keys_shorter(k: Seq<Seq<u8>>, bound: int) -> bool {
    forall|i: int| 0 <= i < k.len() ==> (#[trigger] k[i]).len() < bound
}

proof fn lemma_encoded_keys_short(keys: Seq<Seq<u8>>)
    ensures
        keys_shorter(keys, encode_keys(keys).len() as int + 1),
        keys.len() <= encode_keys(keys).len(),
    decreases keys.len(),
{
    if keys.len() > 0 {
        let d = keys.drop_last();
        lemma_encoded_keys_short(d);
        assert forall|i: int| 0 <= i < keys.len() implies (#[trigger] keys[i]).len() < encode_keys(keys).len() + 1 by {
            if i < keys.len() - 1 {
                assert(keys[i] == d[i]);
            }
        }
    }
}

/// Where the stored form of the first `j` keys of `k` fills `b` up to
/// `pos` and `b` holds more, the next entry of `b` is the key `k[j]`.
proof fn lemma_next_entry(k: Seq<Seq<u8>>, b: Seq<u8>, j: int, pos: int)
    requires
        encode_keys(k) == b,
        0 <= j <= k.len(),
        encode_keys(k.subrange(0, j)).len() == pos,
        pos < b.len(),
        b.len() <= usize::MAX,
    ensures
        j < k.len(),
        pos + 8 <= b.len(),
        le_value(b, pos) == k[j].len(),
        pos + 8 + k[j].len() <= b.len(),
        b.subrange(pos + 8, pos + 8 + k[j].len()) == k[j],
        b.subrange(0, pos + 8 + k[j].len()) == encode_keys(k.subrange(0, j + 1)),
{
    if j == k.len() {
        assert(k.subrange(0, j) =~= k);
    }
    lemma_encoded_keys_short(k);
    lemma_encode_step(k, j);
    lemma_encode_prefix(k, j + 1);
    lemma_encode_prefix(k, j);
    let e = encode_keys(k.subrange(0, j + 1));
    let lb = le_bytes(k[j].len() as u64);
    assert(k[j].len() < b.len() + 1);
    assert(k[j].len() as u64 == k[j].len());
    assert(e == encode_keys(k.subrange(0, j)) + lb + k[j]);
    assert(b.subrange(0, e.len() as int) == e);
    assert forall|t: int| 0 <= t < 8 implies b[pos + t] == lb[t] by {
        assert(b[pos + t] == e[pos + t]);
    }
    lemma_le_round_trip(k[j].len() as u64);
    assert(le_value(b, pos) == le_value(lb, 0));
    assert(b.subrange(pos + 8, pos + 8 + k[j].len()) =~= k[j]) by {
        assert forall|q: int| 0 <= q < k[j].len() implies b[pos + 8 + q] == k[j][q] by {
            assert(b[pos + 8 + q] == e[pos + 8 + q]);
        }
    }
}

/// `child` has an entry in `graph` that lists `parent`.
pub open spec fn parent_edge(graph: ParentGraph, child: Seq<u8>, parent: Seq<u8>) -> bool {
    graph.has(child) && graph.parents_of(child).contains(parent)
}

/// Each key of `path` after the first is a parent, in `graph`, of the key
/// before it.
pub open spec fn is_path(graph: ParentGraph, path: Seq<Seq<u8>>) -> bool {
    &&& path.len() > 0
    &&& forall|i: int| 0 < i < path.len() ==> #[trigger] parent_edge(graph, path[i - 1], path[i])
}

/// A path extended by a parent of its last key is a path.
proof fn lemma_path_push(graph: ParentGraph, path: Seq<Seq<u8>>, p: Seq<u8>)
    requires
        is_path(graph, path),
        graph.has(path.last()),
        graph.parents_of(path.last()).contains(p),
    ensures
        is_path(graph, path.push(p)),
{
    let np = path.push(p);
    assert forall|q: int| 0 < q < np.len() implies #[trigger] parent_edge(graph, np[q - 1], np[q]) by {
        if q < path.len() {
            assert(np[q] == path[q] && np[q - 1] == path[q - 1]);
            assert(parent_edge(graph, path[q - 1], path[q]));
        } else {
            assert(np[q - 1] == path.last());
            assert(np[q] == p);
        }
    }
}

/// `to` is `from` or an ancestor of it in `graph`.
pub open spec fn reaches(graph: ParentGraph, from: Seq<u8>, to: Seq<u8>) -> bool {
    exists|path: Seq<Seq<u8>>| #[trigger] is_path(graph, path) && path[0] == from && path.last() == to
}

/// Distinct keys make a set of as many keys.
proof fn lemma_distinct_set_len(k: Seq<Seq<u8>>)
    requires
        distinct(k),
    ensures
        k.to_set().finite(),
        k.to_set().len() == k.len(),
    decreases k.len(),
{
    broadcast use vstd::seq_lib::seq_to_set_is_finite;
    if k.len() == 0 {
        assert(k.to_set() =~= Set::<Seq<u8>>::empty());
    } else {
        let d = k.drop_last();
        assert(distinct(d)) by {
            assert forall|i: int, j: int| 0 <= i < d.len() && 0 <= j < d.len() && i != j implies d[i] != d[j] by {
                assert(d[i] == k[i] && d[j] == k[j]);
            }
        }
        lemma_distinct_set_len(d);
        assert(k.to_set() =~= d.to_set().insert(k.last())) by {
            assert forall|x: Seq<u8>| #[trigger] k.to_set().contains(x) <==> d.to_set().insert(k.last()).contains(x) by {
                if k.contains(x) {
                    let i = choose|i: int| 0 <= i < k.len() && k[i] == x;
                    if i < k.len() - 1 {
                        assert(d[i] == x);
                    }
                }
                if d.contains(x) {
                    let i = choose|i: int| 0 <= i < d.len() && d[i] == x;
                    assert(k[i] == x);
                }
            }
        }
        assert(!d.to_set().contains(k.last())) by {
            if d.contains(k.last()) {
                let i = choose|i: int| 0 <= i < d.len() && d[i] == k.last();
                assert(k[i] == k[k.len() - 1]);
            }
        }
    }
}

/// Distinct keys that all have an entry in `graph` are no more than its
/// entries.
pub proof fn lemma_keys_bound(keys: Seq<Seq<u8>>, graph: ParentGraph)
    requires
        distinct(keys),
        forall|i: int| 0 <= i < keys.len() ==> graph.has(#[trigger] keys[i]),
    ensures
        keys.len() <= graph.nodes().len(),
{
    broadcast use vstd::seq_lib::seq_to_set_is_finite;
    lemma_distinct_set_len(keys);
    assert(keys.to_set().subset_of(graph.nodes().to_set())) by {
        assert forall|x: Seq<u8>| #[trigger] keys.to_set().contains(x) implies graph.nodes().to_set().contains(x) by {
            let i = choose|i: int| 0 <= i < keys.len() && keys[i] == x;
            assert(graph.has(keys[i]));
        }
    }
    vstd::set_lib::lemma_len_subset(keys.to_set(), graph.nodes().to_set());
    graph.nodes().lemma_cardinality_of_set();
}

/// Parents before children on a prefix and on the rest make parents
/// before children throughout.
pub proof fn lemma_assigned_extend(kb: Seq<Seq<u8>>, kn: Seq<Seq<u8>>, graph: ParentGraph)
    requires
        assigned_after_parents(kb, graph, 0),
        kn.len() >= kb.len(),
        kn.subrange(0, kb.len() as int) == kb,
        assigned_after_parents(kn, graph, kb.len() as int),
    ensures
        assigned_after_parents(kn, graph, 0),
        parents_known(kn, graph),
{
    assert forall|i: int| 0 <= i < kn.len() implies graph.has(#[trigger] kn[i])
        && forall|k: int| 0 <= k < graph.parents_of(kn[i]).len() ==> #[trigger] assigned_before(kn, graph.parents_of(kn[i])[k], i) by {
        if i < kb.len() {
            assert(kn[i] == kb[i]);
            assert forall|k: int| 0 <= k < graph.parents_of(kn[i]).len() implies #[trigger] assigned_before(kn, graph.parents_of(kn[i])[k], i) by {
                assert(assigned_before(kb, graph.parents_of(kb[i])[k], i));
                let j = choose|j: int| 0 <= j < i && kb[j] == graph.parents_of(kb[i])[k];
                assert(kn[j] == kb[j]);
            }
        }
    }
    assert forall|i: int| 0 <= i < kn.len() implies graph.has(#[trigger] kn[i])
        && forall|k: int| 0 <= k < graph.parents_of(kn[i]).len() ==> kn.contains(#[trigger] graph.parents_of(kn[i])[k]) by {
        assert forall|k: int| 0 <= k < graph.parents_of(kn[i]).len() implies kn.contains(#[trigger] graph.parents_of(kn[i])[k]) by {
            assert(assigned_before(kn, graph.parents_of(kn[i])[k], i));
            let j = choose|j: int| 0 <= j < i && kn[j] == graph.parents_of(kn[i])[k];
        }
    }
}

/// The map between node keys and ids: the node of id `i` is the `i`-th
/// key. Entries are only ever appended.
pub struct IdMap {
    keys: Vec<Vec<u8>>,
    durable_len: usize,
}

/// An assigned key has exactly one id, so looking up the key of that id
/// gives the key back.
pub proof fn lemma_key_round_trip(map: IdMap, key: Seq<u8>, id: int)
    requires
        map.wf(),
        0 <= id < map.keys().len(),
        map.keys()[id] == key,
    ensures
        forall|j: int| 0 <= j < map.keys().len() && #[trigger] map.keys()[j] == key ==> j == id,
{
}

/// Ids handed out by `assign_head` from `start` on put each node after
/// its parents: in the parent-id table, a parent's id is below its child's.
pub proof fn lemma_parents_below(keys: Seq<Seq<u8>>, graph: ParentGraph, start: int, t: Seq<Seq<u64>>)
    requires
        distinct(keys),
        0 <= start,
        assigned_after_parents(keys, graph, start),
        id_table_of(keys, graph, t),
    ensures
        forall|i: int, k: int| start <= i < t.len() && 0 <= k < t[i].len() ==> #[trigger] t[i][k] < i,
{
    assert forall|i: int, k: int| start <= i < t.len() && 0 <= k < t[i].len() implies #[trigger] t[i][k] < i by {
        assert(graph.has(keys[i]));
        assert(assigned_before(keys, graph.parents_of(keys[i])[k], i));
        let j = choose|j: int| 0 <= j < i && keys[j] == graph.parents_of(keys[i])[k];
        assert(keys[t[i][k] as int] == keys[j]);
    }
}

/// The published entries of a map are distinct, so reading back their
/// stored form gives them again.
pub proof fn lemma_store_round_trip(map: IdMap)
    requires
        map.wf(),
    ensures
        distinct(map.keys().subrange(0, map.durable_len() as int)),
{
    let p = map.keys().subrange(0, map.durable_len() as int);
    assert forall|i: int, j: int| 0 <= i < p.len() && 0 <= j < p.len() && i != j implies p[i] != p[j] by {
        assert(p[i] == map.keys()[i] && p[j] == map.keys()[j]);
    }
}

impl IdMap {
    /// The node key of each id.
    pub closed spec fn keys(&self) -> Seq<Seq<u8>> {
        keys_view(self.keys@)
    }

    /// The number of entries that `sync` has published.
    pub closed spec fn durable_len(&self) -> nat {
        self.durable_len as nat
    }

    pub closed spec fn wf(&self) -> bool {
        &&& distinct(self.keys())
        &&& self.keys.len() <= u64::MAX
        &&& self.durable_len <= self.keys.len()
    }

    /// What a well-formed map guarantees: distinct keys, no more than
    /// `u64::MAX` of them, and no more published entries than entries.
    pub proof fn lemma_wf(&self)
        requires
            self.wf(),
        ensures
            distinct(self.keys()),
            self.keys().len() <= u64::MAX,
            self.durable_len() <= self.keys().len(),
    {
    }

    pub fn new() -> (r: IdMap)
        ensures
            r.wf(),
            r.keys() == Seq::<Seq<u8>>::empty(),
            r.durable_len() == 0,
    {
        let r = IdMap { keys: Vec::new(), durable_len: 0 };
        assert(r.keys() =~= Seq::<Seq<u8>>::empty());
        r
    }

    /// The first id that is not assigned.
    pub fn next_free_id(&self) -> (r: u64)
        requires
            self.wf(),
        ensures
            r == self.keys().len(),
    {
        self.keys.len() as u64
    }

    /// The id of `key`, where it has one.
    pub fn find_id_by_slice(&self, key: &[u8]) -> (r: Option<u64>)
        requires
            self.wf(),
        ensures
            r matches Some(i) ==> i < self.keys().len() && self.keys()[i as int] == key@,
            r is None <==> !self.keys().contains(key@),
    {
        match position_of(&self.keys, key) {
            Some(i) => {
                proof {
                    assert(self.keys()[i as int] == key@);
                }
                Some(i as u64)
            },
            None => {
                proof {
                    if self.keys().contains(key@) {
                        let j = choose|j: int| 0 <= j < self.keys().len() && self.keys()[j] == key@;
                        assert(self.keys@[j]@ == key@);
                    }
                }
                None
            },
        }
    }

    /// The key of `id`, where it is assigned.
    pub fn find_slice_by_id(&self, id: u64) -> (r: Option<&[u8]>)
        requires
            self.wf(),
        ensures
            r is Some <==> id < self.keys().len(),
            r matches Some(k) ==> k@ == self.keys()[id as int],
    {
        if id < self.keys.len() as u64 {
            Some(self.keys[id as usize].as_slice())
        } else {
            None
        }
    }

    /// Publishes every entry: after this, all of them are durable.
    pub fn sync(&mut self)
        requires
            old(self).wf(),
        ensures
            final(self).wf(),
            final(self).keys() == old(self).keys(),
            final(self).durable_len() == final(self).keys().len(),
    {
        self.durable_len = self.keys.len();
    }

    /// Drops the entries that `sync` has not published.
    pub fn discard_pending(&mut self)
        requires
            old(self).wf(),
        ensures
            final(self).wf(),
            final(self).keys() == old(self).keys().subrange(0, old(self).durable_len() as int),
            final(self).durable_len() == old(self).durable_len(),
    {
        self.keys.truncate(self.durable_len);
        proof {
            assert(self.keys() =~= old(self).keys().subrange(0, old(self).durable_len() as int));
        }
    }

    /// Binds `key` to the next id.
    fn push_key(&mut self, key: &[u8]) -> (r: u64)
        requires
            old(self).wf(),
            !old(self).keys().contains(key@),
            old(self).keys().len() < u64::MAX,
        ensures
            final(self).wf(),
            final(self).keys() == old(self).keys().push(key@),
            final(self).durable_len() == old(self).durable_len(),
            r == old(self).keys().len(),
    {
        let r = self.keys.len() as u64;
        let ghost k0 = self.keys();
        let v = bytes_to_vec(key);
        self.keys.push(v);
        proof {
            let k1 = self.keys();
            assert(k1 =~= k0.push(key@));
            assert forall|i: int, j: int| 0 <= i < k1.len() && 0 <= j < k1.len() && i != j implies k1[i] != k1[j] by {
                if i < k0.len() && j < k0.len() {
                } else if i < k0.len() {
                    assert(k0.contains(k0[i]));
                } else {
                    assert(k0.contains(k0[j]));
                }
            }
        }
        r
    }

    /// Assigns ids to `head` and to those of its ancestors in `graph` that
    /// have none, parents before children, and returns the id of `head`.
    /// Of the unassigned parents of a node, the first listed is given its
    /// id last, so that a node follows its first parent where it can.
    /// Fails where a node that is reached has no entry in `graph`, where
    /// the parents form a cycle, or where the ids run out; entries assigned
    /// before the failure stay.
    #[verifier::rlimit(80)]
    pub fn assign_head(&mut self, head: &[u8], graph: &ParentGraph) -> (r: Result<u64, DagError>)
        requires
            old(self).wf(),
            graph.wf(),
        ensures
            final(self).wf(),
            final(self).durable_len() == old(self).durable_len(),
            final(self).keys().len() >= old(self).keys().len(),
            final(self).keys().subrange(0, old(self).keys().len() as int) == old(self).keys(),
            assigned_after_parents(final(self).keys(), *graph, old(self).keys().len() as int),
            r matches Ok(id) ==> id < final(self).keys().len() && final(self).keys()[id as int] == head@,
            old(self).keys().contains(head@) ==> r is Ok && final(self).keys() == old(self).keys(),
            !old(self).keys().contains(head@) && !graph.has(head@) ==> r is Err && final(self).keys() == old(self).keys(),
            graph.closed() && graph.acyclic() && graph.has(head@) ==> r is Ok || final(self).keys().len() == u64::MAX,
            forall|j: int| old(self).keys().len() <= j < final(self).keys().len() ==> reaches(*graph, head@, #[trigger] final(self).keys()[j]),
            r matches Ok(id) ==> old(self).keys().contains(head@) || id == final(self).keys().len() - 1,
    {
        let ghost k0 = self.keys();
        let ghost t = graph.nodes();
        let ghost acyc = graph.closed() && graph.acyclic();
        let ghost rank = choose|rank: spec_fn(Seq<u8>) -> nat| graph.ranked_by(rank);
        match self.find_id_by_slice(head) {
            Some(id) => {
                proof {
                    assert(self.keys().subrange(0, k0.len() as int) =~= k0);
                }
                return Ok(id);
            },
            None => {},
        }
        if graph.find(head).is_none() {
            proof {
                assert(self.keys().subrange(0, k0.len() as int) =~= k0);
            }
            return Err(DagError::InvalidInput);
        }
        let mut stack: Vec<Vec<u8>> = Vec::new();
        stack.push(bytes_to_vec(head));
        proof {
            assert(self.keys().subrange(0, k0.len() as int) =~= k0);
            assert(keys_view(stack@) =~= seq![head@]);
            assert(is_path(*graph, seq![head@]));
        }
        while stack.len() > 0
            invariant
                self.wf(),
                graph.wf(),
                k0 == old(self).keys(),
                !k0.contains(head@),
                graph.has(head@),
                t == graph.nodes(),
                self.durable_len() == old(self).durable_len(),
                self.keys().len() >= k0.len(),
                self.keys().subrange(0, k0.len() as int) == k0,
                assigned_after_parents(self.keys(), *graph, k0.len() as int),
                !self.keys().contains(head@) ==> stack.len() > 0 && keys_view(stack@)[0] == head@,
                stack.len() == 0 ==> self.keys().len() > 0 && self.keys().last() == head@,
                stack.len() > 0 ==> keys_view(stack@)[0] == head@,
                forall|i: int| 0 <= i < stack.len() ==> graph.has(#[trigger] keys_view(stack@)[i]) && !self.keys().contains(keys_view(stack@)[i]),
                distinct(keys_view(stack@)),
                acyc == (graph.closed() && graph.acyclic()),
                acyc ==> graph.ranked_by(rank),
                acyc ==> forall|i: int, j: int| 0 <= i < j < stack.len() ==> rank(#[trigger] keys_view(stack@)[j]) < rank(#[trigger] keys_view(stack@)[i]),
                forall|i: int| 0 <= i < stack.len() ==> reaches(*graph, head@, #[trigger] keys_view(stack@)[i]),
                forall|j: int| k0.len() <= j < self.keys().len() ==> reaches(*graph, head@, #[trigger] self.keys()[j]),
            decreases 2 * count_fresh(t, self.keys(), keys_view(stack@)) + stack.len(),
        {
            let ghost sv = keys_view(stack@);
            let ghost kb = self.keys();
            let n = stack.len();
            proof {
                assert(sv[n - 1] == stack@[n - 1]@);
            }
            let pos = match graph.find(stack[n - 1].as_slice()) {
                Some(p) => p,
                None => {
                    proof {
                        assert(graph.has(sv[n - 1]));
                        assert(false);
                    }
                    return Err(DagError::InvalidInput);
                },
            };
            let ps = &graph.parents[pos];
            let ghost pv = graph.parents_at(pos as int);
            proof {
                assert(pv == graph.parents_of(sv[n - 1]));
                assert(pv == keys_view(ps@));
            }
            // The last listed parent that has no id.
            let mut j: usize = ps.len();
            let mut found: Option<usize> = None;
            while j > 0 && found.is_none()
                invariant
                    self.wf(),
                    j <= ps.len(),
                    pv == keys_view(ps@),
                    found matches Some(f) ==> f < ps.len() && !self.keys().contains(pv[f as int]),
                    found is None ==> forall|k: int| j <= k < ps.len() ==> self.keys().contains(#[trigger] pv[k]),
                decreases j,
            {
                j = j - 1;
                if self.find_id_by_slice(ps[j].as_slice()).is_none() {
                    found = Some(j);
                } else {
                    proof {
                        assert(pv[j as int] == ps@[j as int]@);
                    }
                }
            }
            match found {
                None => {
                    if self.keys.len() as u64 == u64::MAX {
                        return Err(DagError::InvalidInput);
                    }
                    let top = stack.pop().unwrap();
                    proof {
                        assert(top@ == sv[n - 1]);
                        assert(keys_view(stack@) =~= sv.subrange(0, n - 1));
                    }
                    self.push_key(top.as_slice());
                    proof {
                        let kn = self.keys();
                        let sn = keys_view(stack@);
                        assert(kn.subrange(0, k0.len() as int) =~= k0) by {
                            assert(kb.subrange(0, k0.len() as int) == k0);
                        }
                        assert forall|k: int| 0 <= k < graph.parents_of(sv[n - 1]).len() implies kb.contains(#[trigger] graph.parents_of(sv[n - 1])[k]) by {
                            assert(pv[k] == graph.parents_of(sv[n - 1])[k]);
                        }
                        assert(kn =~= kb.push(sv[n - 1]));
                        lemma_assign_step(kb, *graph, k0.len() as int, sv[n - 1]);
                        assert forall|i: int| 0 <= i < sn.len() implies graph.has(#[trigger] sn[i]) && !kn.contains(sn[i]) by {
                            assert(sn[i] == sv[i]);
                            assert(sv[i] != sv[n - 1]);
                            if kn.contains(sn[i]) {
                                let j = choose|j: int| 0 <= j < kn.len() && kn[j] == sn[i];
                                if j < kb.len() {
                                    assert(kb[j] == kn[j]);
                                }
                            }
                        }
                        if !kn.contains(head@) {
                            assert(!kb.contains(head@)) by {
                                if kb.contains(head@) {
                                    let j = choose|j: int| 0 <= j < kb.len() && kb[j] == head@;
                                    assert(kn[j] == kb[j]);
                                }
                            }
                            assert(sv[0] == head@);
                            if n == 1 {
                                assert(kn[kb.len() as int] == sv[n - 1]);
                                assert(kn.contains(head@));
                            }
                            assert(sn[0] == sv[0]);
                        }
                        assert(distinct(sn)) by {
                            assert forall|a: int, b: int| 0 <= a < sn.len() && 0 <= b < sn.len() && a != b implies sn[a] != sn[b] by {
                                assert(sn[a] == sv[a] && sn[b] == sv[b]);
                            }
                        }
                        if acyc {
                            assert forall|a: int, b: int| 0 <= a < b < sn.len() implies rank(#[trigger] sn[b]) < rank(#[trigger] sn[a]) by {
                                assert(sn[a] == sv[a] && sn[b] == sv[b]);
                            }
                        }
                        assert forall|i: int| 0 <= i < sn.len() implies reaches(*graph, head@, #[trigger] sn[i]) by {
                            assert(sn[i] == sv[i]);
                        }
                        assert forall|j: int| k0.len() <= j < kn.len() implies reaches(*graph, head@, #[trigger] kn[j]) by {
                            if j < kb.len() {
                                assert(kn[j] == kb[j]);
                            } else {
                                assert(kn[j] == sv[n - 1]);
                            }
                        }
                        assert forall|k: Seq<u8>| !kn.contains(k) && !sn.contains(k) implies !kb.contains(k) && !sv.contains(k) by {
                            if kb.contains(k) {
                                let j = choose|j: int| 0 <= j < kb.len() && kb[j] == k;
                                assert(kn[j] == kb[j]);
                            }
                            if sv.contains(k) {
                                let j = choose|j: int| 0 <= j < sv.len() && sv[j] == k;
                                if j < n - 1 {
                                    assert(sn[j] == sv[j]);
                                } else {
                                    assert(kn[kb.len() as int] == k);
                                }
                            }
                        }
                        if n == 1 {
                            assert(kn.last() == sv[n - 1]);
                            assert(sv[0] == head@);
                        } else {
                            assert(sn[0] == sv[0]);
                        }
                        lemma_count_fresh(t, kb, sv, kn, sn, 0);
                    }
                },
                Some(f) => {
                    let p = &ps[f];
                    proof {
                        assert(pv[f as int] == p@);
                    }
                    proof {
                        if acyc {
                            let ti = pos as int;
                            assert(graph.parents_at(ti)[f as int] == p@);
                            assert(graph.has(p@));
                            assert(t[ti] == sv[n - 1]);
                            assert(rank(p@) < rank(sv[n - 1]));
                        }
                    }
                    if graph.find(p.as_slice()).is_none() {
                        return Err(DagError::InvalidInput);
                    }
                    if position_of(&stack, p.as_slice()).is_some() {
                        proof {
                            if acyc {
                                let q = choose|q: int| 0 <= q < stack.len() && stack@[q]@ == p@;
                                assert(sv[q] == p@);
                                if q < n - 1 {
                                    assert(rank(sv[n - 1]) < rank(sv[q]));
                                }
                            }
                        }
                        return Err(DagError::InvalidInput);
                    }
                    stack.push(bytes_to_vec(p.as_slice()));
                    proof {
                        let sn = keys_view(stack@);
                        assert(sn =~= sv.push(p@));
                        assert forall|i: int| 0 <= i < sv.len() implies sv[i] != p@ by {
                            assert(stack@[i]@ == sv[i]);
                        }
                        assert(!sv.contains(p@));
                        assert(distinct(sn)) by {
                            assert forall|a: int, b: int| 0 <= a < sn.len() && 0 <= b < sn.len() && a != b implies sn[a] != sn[b] by {
                                if a < sv.len() && b < sv.len() {
                                } else if a < sv.len() {
                                    assert(sn[a] == sv[a]);
                                } else {
                                    assert(sn[b] == sv[b]);
                                }
                            }
                        }
                        assert forall|i: int| 0 <= i < sn.len() implies graph.has(#[trigger] sn[i]) && !kb.contains(sn[i]) by {
                            if i < sv.len() {
                                assert(sn[i] == sv[i]);
                            }
                        }
                        if !kb.contains(head@) {
                            assert(sn[0] == sv[0]);
                        }
                        if acyc {
                            assert forall|a: int, b: int| 0 <= a < b < sn.len() implies rank(#[trigger] sn[b]) < rank(#[trigger] sn[a]) by {
                                if b < sv.len() {
                                    assert(sn[a] == sv[a] && sn[b] == sv[b]);
                                } else {
                                    assert(sn[a] == sv[a]);
                                    if a < n - 1 {
                                        assert(rank(sv[n - 1]) < rank(sv[a]));
                                    }
                                }
                            }
                        }
                        assert(pv.contains(p@)) by {
                            assert(pv[f as int] == p@);
                        }
                        assert forall|i: int| 0 <= i < sn.len() implies reaches(*graph, head@, #[trigger] sn[i]) by {
                            if i < sv.len() {
                                assert(sn[i] == sv[i]);
                            } else {
                                assert(reaches(*graph, head@, sv[n - 1]));
                                let path = choose|path: Seq<Seq<u8>>| #[trigger] is_path(*graph, path) && path[0] == head@ && path.last() == sv[n - 1];
                                let np = path.push(p@);
                                assert(graph.has(sv[n - 1]));
                                lemma_path_push(*graph, path, p@);
                                assert(np[0] == head@ && np.last() == sn[i]);
                                assert(reaches(*graph, head@, sn[i]));
                            }
                        }
                        assert forall|k: Seq<u8>| !kb.contains(k) && !sn.contains(k) implies !kb.contains(k) && !sv.contains(k) by {
                            if sv.contains(k) {
                                let j = choose|j: int| 0 <= j < sv.len() && sv[j] == k;
                                assert(sn[j] == sv[j]);
                            }
                        }
                        let ti = t.index_of(p@);
                        assert(t[ti] == p@);
                        assert(sn.contains(p@)) by {
                            assert(sn[sv.len() as int] == p@);
                        }
                        lemma_count_fresh(t, kb, sv, kb, sn, ti);
                    }
                },
            }
        }
        let last = self.keys.len() as u64 - 1;
        proof {
            assert(self.keys()[last as int] == head@);
            assert forall|j: int| 0 <= j < self.keys().len() && self.keys()[j] == head@ implies j == last by {
                assert(distinct(self.keys()));
            }
        }
        match self.find_id_by_slice(head) {
            Some(id) => Ok(id),
            None => {
                proof {
                    assert(false);
                }
                Err(DagError::InvalidInput)
            },
        }
    }


    /// The parent ids of every assigned id, from the parent keys in
    /// `graph`; fails where an assigned node has no entry there or has a
    /// parent without an id.
    pub fn build_get_parents_by_id(&self, graph: &ParentGraph) -> (r: Result<Vec<Vec<u64>>, DagError>)
        requires
            self.wf(),
            graph.wf(),
        ensures
            r is Ok <==> parents_known(self.keys(), *graph),
            r matches Ok(t) ==> id_table_of(self.keys(), *graph, crate::dag::table_view(t@)),
    {
        let ghost kv = self.keys();
        let n = self.keys.len();
        let mut out: Vec<Vec<u64>> = Vec::new();
        let mut i: usize = 0;
        while i < n
            invariant
                self.wf(),
                graph.wf(),
                kv == self.keys(),
                n == kv.len(),
                i <= n,
                out.len() == i,
                forall|a: int| 0 <= a < i ==> graph.has(#[trigger] kv[a])
                    && forall|k: int| 0 <= k < graph.parents_of(kv[a]).len() ==> kv.contains(#[trigger] graph.parents_of(kv[a])[k]),
                forall|a: int| 0 <= a < i ==> (#[trigger] out@[a])@.len() == graph.parents_of(kv[a]).len(),
                forall|a: int, k: int| 0 <= a < i && 0 <= k < out@[a]@.len() ==> (#[trigger] out@[a]@[k]) < kv.len()
                    && kv[out@[a]@[k] as int] == graph.parents_of(kv[a])[k],
            decreases n - i,
        {
            proof {
                assert(kv[i as int] == self.keys@[i as int]@);
            }
            let pos = match graph.find(self.keys[i].as_slice()) {
                Some(p) => p,
                None => {
                    return Err(DagError::InvalidInput);
                },
            };
            let ps = &graph.parents[pos];
            let ghost pv = graph.parents_at(pos as int);
            proof {
                assert(pv == graph.parents_of(kv[i as int]));
                assert(pv == keys_view(ps@));
            }
            let mut ids: Vec<u64> = Vec::new();
            let mut k: usize = 0;
            while k < ps.len()
                invariant
                    self.wf(),
                    kv == self.keys(),
                    graph.wf(),
                    i < n,
                    n == kv.len(),
                    pv == keys_view(ps@),
                    pv == graph.parents_of(kv[i as int]),
                    k <= ps.len(),
                    ids.len() == k,
                    forall|j: int| 0 <= j < k ==> (#[trigger] ids@[j]) < kv.len() && kv[ids@[j] as int] == pv[j],
                decreases ps.len() - k,
            {
                proof {
                    assert(pv[k as int] == ps@[k as int]@);
                }
                match self.find_id_by_slice(ps[k].as_slice()) {
                    Some(id) => {
                        ids.push(id);
                    },
                    None => {
                        proof {
                            assert(!kv.contains(pv[k as int]));
                            assert(graph.parents_of(kv[i as int])[k as int] == pv[k as int]);
                            assert(!parents_known(kv, *graph));
                        }
                        return Err(DagError::InvalidInput);
                    },
                }
                k = k + 1;
            }
            out.push(ids);
            proof {
                assert forall|k: int| 0 <= k < pv.len() implies kv.contains(#[trigger] pv[k]) by {
                    assert(kv[ids@[k] as int] == pv[k]);
                }
            }
            i = i + 1;
        }
        proof {
            let tv = crate::dag::table_view(out@);
            assert forall|a: int| 0 <= a < tv.len() implies (#[trigger] tv[a]).len() == graph.parents_of(kv[a]).len() by {
                assert(tv[a] == out@[a]@);
            }
            assert forall|a: int, k: int| 0 <= a < tv.len() && 0 <= k < tv[a].len() implies (#[trigger] tv[a][k]) < kv.len()
                && kv[tv[a][k] as int] == graph.parents_of(kv[a])[k] by {
                assert(tv[a] == out@[a]@);
                assert(out@[a]@[k] == tv[a][k]);
            }
        }
        Ok(out)
    }


    /// The stored form of the published entries.
    pub fn to_bytes(&self) -> (r: Vec<u8>)
        requires
            self.wf(),
        ensures
            r@ == encode_keys(self.keys().subrange(0, self.durable_len() as int)),
    {
        let ghost kv = self.keys();
        let mut out: Vec<u8> = Vec::new();
        let mut i: usize = 0;
        proof {
            assert(kv.subrange(0, 0) =~= Seq::<Seq<u8>>::empty());
        }
        while i < self.durable_len
            invariant
                self.wf(),
                kv == self.keys(),
                i <= self.durable_len,
                out@ == encode_keys(kv.subrange(0, i as int)),
            decreases self.durable_len - i,
        {
            let key = &self.keys[i];
            proof {
                assert(key@ == kv[i as int]);
                lemma_encode_step(kv, i as int);
            }
            push_u64(&mut out, key.len() as u64);
            let ghost mid = out@;
            let mut k: usize = 0;
            while k < key.len()
                invariant
                    k <= key.len(),
                    out@ == mid + key@.subrange(0, k as int),
                decreases key.len() - k,
            {
                out.push(key[k]);
                k = k + 1;
                assert(out@ =~= mid + key@.subrange(0, k as int));
            }
            proof {
                assert(key@.subrange(0, k as int) =~= key@);
            }
            i = i + 1;
        }
        out
    }

    /// Reads the stored form of a map; every entry read is published. Fails
    /// with `Corruption` where the bytes are not the stored form of a list
    /// of distinct keys.
    pub fn from_bytes(b: &[u8]) -> (r: Result<IdMap, DagError>)
        ensures
            r matches Ok(m) ==> m.wf() && encode_keys(m.keys()) == b@ && m.durable_len() == m.keys().len(),
            r matches Err(e) ==> e == DagError::Corruption,
            forall|k: Seq<Seq<u8>>| distinct(k) && #[trigger] encode_keys(k) == b@ ==> (r matches Ok(m) && m.keys() == k),
    {
        let mut keys: Vec<Vec<u8>> = Vec::new();
        let mut pos: usize = 0;
        proof {
            assert(b@.subrange(0, 0) =~= encode_keys(keys_view(keys@)));
            assert forall|k: Seq<Seq<u8>>| distinct(k) && #[trigger] encode_keys(k) == b@ implies keys_view(keys@) == k.subrange(0, 0) by {
                assert(keys_view(keys@) =~= k.subrange(0, 0));
            }
        }
        while pos < b.len()
            invariant
                pos <= b.len(),
                b@.subrange(0, pos as int) == encode_keys(keys_view(keys@)),
                distinct(keys_view(keys@)),
                keys.len() <= pos,
                forall|k: Seq<Seq<u8>>| distinct(k) && #[trigger] encode_keys(k) == b@ ==> keys.len() <= k.len() && keys_view(keys@) == k.subrange(0, keys.len() as int),
            decreases b.len() - pos,
        {
            let ghost kv = keys_view(keys@);
            let ghost j = keys.len() as int;
            proof {
                assert forall|k: Seq<Seq<u8>>| distinct(k) && #[trigger] encode_keys(k) == b@ implies
                    j < k.len() && pos + 8 <= b.len() && le_value(b@, pos as int) == k[j].len() && pos + 8 + k[j].len() <= b.len()
                    && b@.subrange(pos + 8, pos + 8 + k[j].len()) == k[j] by {
                    assert(kv == k.subrange(0, j));
                    lemma_next_entry(k, b@, j, pos as int);
                }
            }
            if b.len() - pos < 8 {
                return Err(DagError::Corruption);
            }
            let n = read_u64(b, pos);
            if ((b.len() - pos - 8) as u64) < n {
                return Err(DagError::Corruption);
            }
            let start = pos + 8;
            let end = start + n as usize;
            let mut key: Vec<u8> = Vec::new();
            let mut t: usize = start;
            while t < end
                invariant
                    start <= t <= end <= b.len(),
                    key@ == b@.subrange(start as int, t as int),
                decreases end - t,
            {
                key.push(b[t]);
                t = t + 1;
                assert(key@ =~= b@.subrange(start as int, t as int));
            }
            if position_of(&keys, key.as_slice()).is_some() {
                proof {
                    assert forall|k: Seq<Seq<u8>>| distinct(k) implies #[trigger] encode_keys(k) != b@ by {
                        if encode_keys(k) == b@ {
                            let q = choose|q: int| 0 <= q < keys.len() && keys@[q]@ == key@;
                            assert(kv[q] == k[q]);
                            assert(key@ == k[j]);
                        }
                    }
                }
                return Err(DagError::Corruption);
            }
            let ghost kb = key@;
            keys.push(key);
            proof {
                let nk = keys_view(keys@);
                assert(nk =~= kv.push(kb));
                assert(nk.drop_last() =~= kv);
                lemma_le_bytes_of_value(b@, pos as int);
                assert(b@.subrange(0, end as int) =~= b@.subrange(0, pos as int) + b@.subrange(pos as int, start as int) + kb);
                assert(kb.len() == n);
                assert(distinct(nk)) by {
                    assert forall|x: int, y: int| 0 <= x < nk.len() && 0 <= y < nk.len() && x != y implies nk[x] != nk[y] by {
                        if x < kv.len() && y < kv.len() {
                        } else if x < kv.len() {
                            assert(keys@[x]@ != kb);
                        } else {
                            assert(keys@[y]@ != kb);
                        }
                    }
                }
                assert forall|k: Seq<Seq<u8>>| distinct(k) && #[trigger] encode_keys(k) == b@ implies keys.len() <= k.len() && nk == k.subrange(0, keys.len() as int) by {
                    assert(kv == k.subrange(0, j));
                    assert(kb == k[j]);
                    assert(nk =~= k.subrange(0, j + 1));
                }
            }
            pos = end;
        }
        let len = keys.len();
        proof {
            assert(b@.subrange(0, pos as int) =~= b@);
            assert forall|k: Seq<Seq<u8>>| distinct(k) && #[trigger] encode_keys(k) == b@ implies keys_view(keys@) == k by {
                lemma_encode_prefix(k, keys.len() as int);
                assert(keys_view(keys@) == k.subrange(0, keys.len() as int));
                if keys.len() < k.len() {
                    assert(encode_keys(k.subrange(0, keys.len() as int)).len() < encode_keys(k).len());
                }
                assert(k.subrange(0, keys.len() as int) =~= k);
            }
        }
        Ok(IdMap { keys, durable_len: len })
    }

}

} // verus!
