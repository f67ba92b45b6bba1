//! An id map and a segment index kept side by side: heads are given ids,
//! then the segments are extended over them.
use vstd::prelude::*;
use crate::dag::{persistent_built, table_view, volatile_built, Dag, DagError};
use crate::idmap::{
    assigned_after_parents, distinct, is_path, parent_edge, reaches, id_table_of, lemma_assigned_extend, lemma_keys_bound, lemma_parents_below, IdMap,
    ParentGraph,
};

verus! {

/// `key` has an id no larger than `top`.
pub open spec fn key_at_or_below(keys: Seq<Seq<u8>>, key: Seq<u8>, top: int) -> bool {
    exists|w: int| 0 <= w <= top && keys[w] == key
}

/// `m` is the id of one of `heads`, and no head has a larger id.
pub open spec fn top_head_id(keys: Seq<Seq<u8>>, heads: Seq<Vec<u8>>, m: int) -> bool {
    &&& 0 <= m < keys.len()
    &&& exists|h: int| 0 <= h < heads.len() && keys[m] == (#[trigger] heads[h])@
    &&& forall|h: int| 0 <= h < heads.len() ==> key_at_or_below(keys, (#[trigger] heads[h])@, m)
}

/// Every head already has an id.
pub open spec fn all_assigned(keys: Seq<Seq<u8>>, heads: Seq<Vec<u8>>) -> bool {
    forall|h: int| 0 <= h < heads.len() ==> keys.contains((#[trigger] heads[h])@)
}

/// A build over `heads` cannot fail: the table names every parent it
/// lists and has no cycle, every head has an entry, the ids already given
/// follow the table with parents before children, and the table is small
/// enough that ids cannot run out.
pub open spec fn build_owed(keys: Seq<Seq<u8>>, heads: Seq<Vec<u8>>, graph: ParentGraph) -> bool {
    &&& graph.closed()
    &&& graph.acyclic()
    &&& assigned_after_parents(keys, graph, 0)
    &&& forall|h: int| 0 <= h < heads.len() ==> graph.has((#[trigger] heads[h])@)
    &&& graph.nodes().len() < u64::MAX
}

/// For distinct keys, the parent-id table and the largest head id that a
/// build's contract speaks of are unique: two builds over the same keys,
/// table and heads extend the segments with the same arguments, so a
/// repeated build gives the same segments.
pub proof fn lemma_build_arguments_unique(
    keys: Seq<Seq<u8>>,
    graph: ParentGraph,
    heads: Seq<Vec<u8>>,
    t1: Seq<Seq<u64>>,
    t2: Seq<Seq<u64>>,
    m1: int,
    m2: int,
)
    requires
        distinct(keys),
        id_table_of(keys, graph, t1),
        id_table_of(keys, graph, t2),
        top_head_id(keys, heads, m1),
        top_head_id(keys, heads, m2),
    ensures
        t1 == t2,
        m1 == m2,
{
    assert forall|i: int| 0 <= i < t1.len() implies t1[i] == t2[i] by {
        assert forall|k: int| 0 <= k < t1[i].len() implies t1[i][k] == t2[i][k] by {
            assert(keys[t1[i][k] as int] == keys[t2[i][k] as int]);
        }
        assert(t1[i] =~= t2[i]);
    }
    assert(t1 =~= t2);
    let h1 = choose|h: int| 0 <= h < heads.len() && keys[m1] == (#[trigger] heads[h])@;
    let h2 = choose|h: int| 0 <= h < heads.len() && keys[m2] == (#[trigger] heads[h])@;
    assert(key_at_or_below(keys, heads[h1]@, m2));
    assert(key_at_or_below(keys, heads[h2]@, m1));
    let w1 = choose|w: int| 0 <= w <= m2 && keys[w] == heads[h1]@;
    let w2 = choose|w: int| 0 <= w <= m1 && keys[w] == heads[h2]@;
    assert(w1 == m1);
    assert(w2 == m2);
}

/// Where the ids have a parent-id table, as after a build, every key that
/// a key with an id reaches by parent edges has an id too.
pub proof fn lemma_reached_keys_assigned(keys: Seq<Seq<u8>>, graph: ParentGraph, t: Seq<Seq<u64>>, head: Seq<u8>, k: Seq<u8>)
    requires
        id_table_of(keys, graph, t),
        keys.contains(head),
        reaches(graph, head, k),
    ensures
        keys.contains(k),
{
    let path = choose|path: Seq<Seq<u8>>| #[trigger] is_path(graph, path) && path[0] == head && path.last() == k;
    lemma_path_assigned(keys, graph, t, path, path.len() - 1);
}

proof fn lemma_path_assigned(keys: Seq<Seq<u8>>, graph: ParentGraph, t: Seq<Seq<u64>>, path: Seq<Seq<u8>>, i: int)
    requires
        id_table_of(keys, graph, t),
        is_path(graph, path),
        keys.contains(path[0]),
        0 <= i < path.len(),
    ensures
        keys.contains(path[i]),
    decreases i,
{
    if i > 0 {
        lemma_path_assigned(keys, graph, t, path, i - 1);
        assert(parent_edge(graph, path[i - 1], path[i]));
        let j = choose|j: int| 0 <= j < keys.len() && keys[j] == path[i - 1];
        let ps = graph.parents_of(keys[j]);
        let k = choose|k: int| 0 <= k < ps.len() && ps[k] == path[i];
        assert(t[j].len() == ps.len());
        assert(keys[t[j][k] as int] == ps[k]);
    }
}

/// The id map and the segment index of one graph.
pub struct Index {
    pub map: IdMap,
    pub dag: Dag,
}

impl Index {
    pub open spec fn wf(&self) -> bool {
        self.map.wf() && self.dag.wf()
    }

    /// An empty index; see `Dag::new` for the two settings.
    pub fn new(segment_size: usize, max_segment_level: u8) -> (r: Index)
        requires
            segment_size > 0,
        ensures
            r.wf(),
            r.map.keys() == Seq::<Seq<u8>>::empty(),
            r.dag.graph() == Seq::<Seq<u64>>::empty(),
            r.dag.segment_size() == segment_size,
            r.dag.max_level() == max_segment_level,
    {
        Index { map: IdMap::new(), dag: Dag::new(segment_size, max_segment_level) }
    }

    /// Gives ids to the `heads` and their ancestors in `graph`, and
    /// returns the largest id of a head together with the parent ids of
    /// every assigned id.
    fn assign_heads(&mut self, heads: &Vec<Vec<u8>>, graph: &ParentGraph) -> (r: Result<(u64, Vec<Vec<u64>>), DagError>)
        requires
            old(self).wf(),
            graph.wf(),
            heads.len() > 0,
        ensures
            final(self).wf(),
            final(self).dag == old(self).dag,
            final(self).map.durable_len() == old(self).map.durable_len(),
            final(self).map.keys().len() >= old(self).map.keys().len(),
            final(self).map.keys().subrange(0, old(self).map.keys().len() as int) == old(self).map.keys(),
            all_assigned(old(self).map.keys(), heads@) ==> final(self).map.keys() == old(self).map.keys(),
            build_owed(old(self).map.keys(), heads@, *graph) ==> r is Ok && assigned_after_parents(final(self).map.keys(), *graph, 0),
            r matches Ok((_, t)) ==> id_table_of(final(self).map.keys(), *graph, table_view(t@)),
            r matches Ok((m, _)) ==> top_head_id(final(self).map.keys(), heads@, m as int),
    {
        let ghost k0 = self.map.keys();
        let ghost owed = build_owed(k0, heads@, *graph);
        let mut top: u64 = 0;
        let mut i: usize = 0;
        proof {
            assert(self.map.keys().subrange(0, k0.len() as int) =~= k0);
        }
        while i < heads.len()
            invariant
                self.wf(),
                graph.wf(),
                k0 == old(self).map.keys(),
                owed == build_owed(k0, heads@, *graph),
                self.dag == old(self).dag,
                self.map.durable_len() == old(self).map.durable_len(),
                i <= heads.len(),
                i == 0 ==> top == 0,
                i > 0 ==> top < self.map.keys().len() && exists|h: int| 0 <= h < i && self.map.keys()[top as int] == (#[trigger] heads@[h])@,
                forall|a: int| 0 <= a < i ==> key_at_or_below(self.map.keys(), (#[trigger] heads@[a])@, top as int),
                self.map.keys().len() >= k0.len(),
                self.map.keys().subrange(0, k0.len() as int) == k0,
                all_assigned(k0, heads@) ==> self.map.keys() == k0,
                owed ==> assigned_after_parents(self.map.keys(), *graph, 0),
            decreases heads.len() - i,
        {
            let ghost before = self.map.keys();
            let ghost old_top = top;
            let id = match self.map.assign_head(heads[i].as_slice(), graph) {
                Ok(id) => id,
                Err(e) => {
                    proof {
                        let now = self.map.keys();
                        assert(now.subrange(0, k0.len() as int) =~= k0) by {
                            assert(now.subrange(0, before.len() as int) == before);
                        }
                        if owed {
                            assert(graph.has(heads@[i as int]@));
                            lemma_assigned_extend(before, now, *graph);
                            self.map.lemma_wf();
                            lemma_keys_bound(now, *graph);
                            assert(false);
                        }
                        if all_assigned(k0, heads@) {
                            assert(k0.contains(heads@[i as int]@));
                        }
                    }
                    return Err(e);
                },
            };
            if id > top {
                top = id;
            }
            i = i + 1;
            proof {
                let now = self.map.keys();
                assert(now.subrange(0, k0.len() as int) =~= k0) by {
                    assert(now.subrange(0, before.len() as int) == before);
                }
                if owed {
                    lemma_assigned_extend(before, now, *graph);
                }
                if all_assigned(k0, heads@) {
                    assert(k0.contains(heads@[i - 1]@));
                }
                assert forall|a: int| 0 <= a < i implies key_at_or_below(now, (#[trigger] heads@[a])@, top as int) by {
                    if a < i - 1 {
                        assert(key_at_or_below(before, heads@[a]@, old_top as int));
                        let j = choose|j: int| 0 <= j <= old_top && before[j] == heads@[a]@;
                        assert(now.subrange(0, before.len() as int)[j] == before[j]);
                    } else {
                        assert(now[id as int] == heads@[a]@);
                    }
                }
                if top == id {
                    assert(now[top as int] == heads@[i - 1]@);
                } else {
                    let h = choose|h: int| 0 <= h < i - 1 && before[old_top as int] == (#[trigger] heads@[h])@;
                    assert(now.subrange(0, before.len() as int)[old_top as int] == before[old_top as int]);
                    assert(now[top as int] == heads@[h]@);
                }
            }
        }
        proof {
            if owed {
                let kv = self.map.keys();
                assert(kv.subrange(0, kv.len() as int) =~= kv);
                lemma_assigned_extend(kv, kv, *graph);
            }
        }
        match self.map.build_get_parents_by_id(graph) {
            Ok(t) => Ok((top, t)),
            Err(e) => Err(e),
        }
    }

    /// Extends the index over the `heads` and makes everything durable:
    /// the segments are built persistently, and only then is the map
    /// published. An empty list of heads changes nothing and returns
    /// `None`; otherwise the result is the highest segment level built. A
    /// failed build leaves the published entries and the durable segments
    /// as they were.
    pub fn build_disk(&mut self, heads: &Vec<Vec<u8>>, graph: &ParentGraph) -> (r: Result<Option<u8>, DagError>)
        requires
            old(self).wf(),
            graph.wf(),
        ensures
            final(self).wf(),
            heads.len() == 0 ==> r == Ok::<Option<u8>, DagError>(None) && *final(self) == *old(self),
            heads.len() > 0 && build_owed(old(self).map.keys(), heads@, *graph) ==> r is Ok,
            r is Ok && heads.len() > 0 ==> exists|t: Seq<Seq<u64>>, m: u64|
                #[trigger] id_table_of(final(self).map.keys(), *graph, t) && #[trigger] top_head_id(final(self).map.keys(), heads@, m as int)
                && persistent_built(old(self).dag, final(self).dag, m, t),
            r is Ok && heads.len() > 0 ==> final(self).map.durable_len() == final(self).map.keys().len(),
            r is Ok && heads.len() > 0 ==> final(self).dag.durable_segments() == final(self).dag.segments(),
            r is Ok ==> forall|h: int| 0 <= h < heads.len() ==> key_at_or_below(final(self).map.keys(), (#[trigger] heads@[h])@, final(self).dag.next_id() - 1),
            all_assigned(old(self).map.keys(), heads@) ==> final(self).map.keys() == old(self).map.keys(),
            r is Err ==> final(self).map.durable_len() == old(self).map.durable_len()
                && final(self).map.keys().subrange(0, old(self).map.durable_len() as int) == old(self).map.keys().subrange(0, old(self).map.durable_len() as int)
                && final(self).dag.durable_segments() == old(self).dag.durable_segments(),
    {
        if heads.len() == 0 {
            return Ok(None);
        }
        let ghost k0 = self.map.keys();
        let ghost owed = build_owed(k0, heads@, *graph);
        let (top, t) = match self.assign_heads(heads, graph) {
            Ok(x) => x,
            Err(e) => {
                proof {
                    old(self).map.lemma_wf();
                    assert(self.map.keys().subrange(0, self.map.durable_len() as int) =~= k0.subrange(0, self.map.durable_len() as int)) by {
                        assert(self.map.keys().subrange(0, k0.len() as int) == k0);
                    }
                }
                return Err(e);
            },
        };
        let ghost tv = table_view(t@);
        let ghost kv = self.map.keys();
        proof {
            self.map.lemma_wf();
            old(self).map.lemma_wf();
            self.dag.lemma_durable_next();
            if owed {
                lemma_parents_below(kv, *graph, 0, tv);
                assert(top_head_id(kv, heads@, top as int));
                assert(top < tv.len());
                assert(top < u64::MAX);
                assert forall|x: int, k: int| self.dag.durable_next() <= x <= top && 0 <= k < tv[x].len() implies #[trigger] tv[x][k] < x by {
                    assert(0 <= x < tv.len());
                }
                assert(table_fits_here(tv, self.dag.durable_next(), top as int));
            }
            assert(kv.subrange(0, self.map.durable_len() as int) =~= k0.subrange(0, self.map.durable_len() as int)) by {
                assert(kv.subrange(0, k0.len() as int) == k0);
            }
        }
        let r = self.dag.build_segments_persistent(top, &t);
        match r {
            Ok(_) => {},
            Err(e) => {
                return Err(e);
            },
        }
        self.map.sync();
        proof {
            assert(id_table_of(self.map.keys(), *graph, tv) && top_head_id(self.map.keys(), heads@, top as int));
            assert forall|h: int| 0 <= h < heads.len() implies key_at_or_below(self.map.keys(), (#[trigger] heads@[h])@, self.dag.next_id() - 1) by {
                assert(key_at_or_below(self.map.keys(), heads@[h]@, top as int));
                let w = choose|w: int| 0 <= w <= top && self.map.keys()[w] == heads@[h]@;
                assert(0 <= w <= self.dag.next_id() - 1 && self.map.keys()[w] == heads@[h]@);
            }
        }
        r
    }

    /// Extends the index over the `heads` in memory: ids are assigned but
    /// not published, and the segments are built in memory, replacing
    /// those of an earlier in-memory build. An empty list of heads changes
    /// nothing and returns `None`. The published entries and the durable
    /// segments stay as they were.
    pub fn build_mem(&mut self, heads: &Vec<Vec<u8>>, graph: &ParentGraph) -> (r: Result<Option<u8>, DagError>)
        requires
            old(self).wf(),
            graph.wf(),
        ensures
            final(self).wf(),
            heads.len() == 0 ==> r == Ok::<Option<u8>, DagError>(None) && *final(self) == *old(self),
            heads.len() > 0 && build_owed(old(self).map.keys(), heads@, *graph) ==> r is Ok,
            r is Ok && heads.len() > 0 ==> exists|t: Seq<Seq<u64>>, m: u64|
                #[trigger] id_table_of(final(self).map.keys(), *graph, t) && #[trigger] top_head_id(final(self).map.keys(), heads@, m as int)
                && volatile_built(old(self).dag, final(self).dag, m, t),
            r is Ok ==> forall|h: int| 0 <= h < heads.len() ==> key_at_or_below(final(self).map.keys(), (#[trigger] heads@[h])@, final(self).dag.next_id() - 1),
            all_assigned(old(self).map.keys(), heads@) ==> final(self).map.keys() == old(self).map.keys(),
            final(self).map.durable_len() == old(self).map.durable_len(),
            final(self).map.keys().subrange(0, old(self).map.durable_len() as int) == old(self).map.keys().subrange(0, old(self).map.durable_len() as int),
            final(self).dag.durable_segments() == old(self).dag.durable_segments(),
    {
        if heads.len() == 0 {
            proof {
                old(self).map.lemma_wf();
                assert(self.map.keys().subrange(0, self.map.durable_len() as int) =~= old(self).map.keys().subrange(0, self.map.durable_len() as int));
            }
            return Ok(None);
        }
        let ghost k0 = self.map.keys();
        let ghost owed = build_owed(k0, heads@, *graph);
        let (top, t) = match self.assign_heads(heads, graph) {
            Ok(x) => x,
            Err(e) => {
                proof {
                    old(self).map.lemma_wf();
                    assert(self.map.keys().subrange(0, self.map.durable_len() as int) =~= k0.subrange(0, self.map.durable_len() as int)) by {
                        assert(self.map.keys().subrange(0, k0.len() as int) == k0);
                    }
                }
                return Err(e);
            },
        };
        let ghost tv = table_view(t@);
        let ghost kv = self.map.keys();
        proof {
            self.map.lemma_wf();
            old(self).map.lemma_wf();
            self.dag.lemma_durable_next();
            if owed {
                lemma_parents_below(kv, *graph, 0, tv);
                assert(top_head_id(kv, heads@, top as int));
                assert(top < tv.len());
                assert(top < u64::MAX);
                assert forall|x: int, k: int| self.dag.durable_next() <= x <= top && 0 <= k < tv[x].len() implies #[trigger] tv[x][k] < x by {
                    assert(0 <= x < tv.len());
                }
                assert(table_fits_here(tv, self.dag.durable_next(), top as int));
            }
            assert(kv.subrange(0, self.map.durable_len() as int) =~= k0.subrange(0, self.map.durable_len() as int)) by {
                assert(kv.subrange(0, k0.len() as int) == k0);
            }
        }
        let r = self.dag.build_segments_volatile(top, &t);
        proof {
            if r is Ok {
                assert(id_table_of(self.map.keys(), *graph, tv) && top_head_id(self.map.keys(), heads@, top as int));
                assert forall|h: int| 0 <= h < heads.len() implies key_at_or_below(self.map.keys(), (#[trigger] heads@[h])@, self.dag.next_id() - 1) by {
                    assert(key_at_or_below(self.map.keys(), heads@[h]@, top as int));
                    let w = choose|w: int| 0 <= w <= top && self.map.keys()[w] == heads@[h]@;
                    assert(0 <= w <= self.dag.next_id() - 1 && self.map.keys()[w] == heads@[h]@);
                }
            }
        }
        r
    }
}

/// The parent table fits a build from `start` to `max_id`.
spec fn table_fits_here(t: Seq<Seq<u64>>, start: int, max_id: int) -> bool {
    crate::dag::table_fits(t, start, max_id)
}

} // verus!
