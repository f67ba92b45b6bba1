//! The segment index: level-0 segments record runs of ids whose only
//! parent is the id before, segments of higher levels cover runs of those
//! below, and ancestry queries walk whole segments.
use vstd::prelude::*;
use crate::codec::{le_bytes, le_value, lemma_le_bytes_of_value, lemma_le_round_trip, push_u64, read_u64};
use crate::spanset::SpanSet;

verus! {

/// What a segment holds, as plain values.
pub struct SegView {
    pub low: u64,
    pub high: u64,
    pub flat: bool,
    pub parents: Seq<u64>,
}

/// A run of ids `[low, high]`; `parents` are the parents of `low`, and
/// every other id of the run has the id before it as its only parent
/// when `flat` is set.
#[derive(Debug)]
pub struct Segment {
    pub low: u64,
    pub high: u64,
    pub flat: bool,
    pub parents: Vec<u64>,
}

impl View for Segment {
    type V = SegView;

    open spec fn view(&self) -> SegView {
        SegView { low: self.low, high: self.high, flat: self.flat, parents: self.parents@ }
    }
}

/// The error of an index operation.
#[derive(Debug, Clone, Copy, PartialEq, Eq, Structural)]
pub enum DagError {
    /// An id that is not indexed, or a parent table that breaks the
    /// numbering (a parent not below its child, an id missing from it).
    InvalidInput,
    /// Stored bytes that are not the form a store writes.
    Corruption,
}

/// Every parent id is below its child.
pub open spec fn topo(g: Seq<Seq<u64>>) -> bool {
    forall|x: int, k: int| 0 <= x < g.len() && 0 <= k < g[x].len() ==> #[trigger] g[x][k] < x
}

pub open spec fn seg_has(s: SegView, x: int) -> bool {
    s.low <= x && x <= s.high
}

/// The parents that the segment `s` gives to the id `x` within it.
pub open spec fn seg_parents_of(s: SegView, x: int) -> Seq<u64> {
    if x == s.low {
        s.parents
    } else {
        seq![(x - 1) as u64]
    }
}

/// The level-0 segments `s` tile the ids of `g` in ascending order and
/// record its parent lists exactly.
pub open spec fn level0_wf(s: Seq<SegView>, g: Seq<Seq<u64>>) -> bool {
    &&& topo(g)
    &&& g.len() <= u64::MAX
    &&& (s.len() == 0 <==> g.len() == 0)
    &&& s.len() > 0 ==> s[0].low == 0 && s.last().high + 1 == g.len()
    &&& forall|i: int| 0 <= i < s.len() ==> (#[trigger] s[i]).low <= s[i].high && s[i].flat
    &&& forall|i: int| 0 < i < s.len() ==> (#[trigger] s[i]).low == s[i - 1].high + 1
    &&& forall|i: int, j: int| 0 <= i < j < s.len() ==> (#[trigger] s[i]).high < (#[trigger] s[j]).low
    &&& forall|i: int, x: int| 0 <= i < s.len() && #[trigger] seg_has(s[i], x) ==> #[trigger] g[x] == seg_parents_of(s[i], x)
}

/// The parent lists of a table of vectors.
pub open spec fn table_view(ps: Seq<Vec<u64>>) -> Seq<Seq<u64>> {
    ps.map_values(|v: Vec<u64>| v@)
}

/// The level-0 segments after ids `start .. end` with the parent lists
/// `ps` are added to `base`: a run keeps growing while an id's only parent
/// is the id before it, and a build always opens a new segment at `start`.
pub open spec fn segments_for(base: Seq<SegView>, start: int, ps: Seq<Seq<u64>>, end: int) -> Seq<SegView>
    decreases end - start,
{
    if end <= start {
        base
    } else {
        let prev = segments_for(base, start, ps, end - 1);
        let x = end - 1;
        if x > start && ps[x] == seq![(x - 1) as u64] {
            prev.update(prev.len() - 1, SegView { high: x as u64, ..prev.last() })
        } else {
            prev.push(SegView { low: x as u64, high: x as u64, flat: true, parents: ps[x] })
        }
    }
}

/// Each id from `start` to `max_id` has its parents in `ps`, all below it.
pub open spec fn table_fits(ps: Seq<Seq<u64>>, start: int, max_id: int) -> bool {
    &&& max_id < ps.len()
    &&& max_id < u64::MAX
    &&& forall|x: int, k: int| start <= x <= max_id && 0 <= k < ps[x].len() ==> #[trigger] ps[x][k] < x
}

/// `a` is `b`, or is reached from `b` by following parent edges where
/// the first edge leaves `b` through one of its first `k` parents.
pub open spec fn anc_upto(g: Seq<Seq<u64>>, a: int, b: int, k: int) -> bool
    decreases b, k,
{
    if b < 0 || b >= g.len() {
        false
    } else if a == b {
        true
    } else if k <= 0 || k > g[b].len() {
        false
    } else {
        let p = g[b][k - 1] as int;
        (p < b && anc_upto(g, a, p, g[p].len() as int)) || anc_upto(g, a, b, k - 1)
    }
}

/// `a` is `b` or is reached from `b` by following parent edges.
pub open spec fn is_anc(g: Seq<Seq<u64>>, a: int, b: int) -> bool {
    0 <= b < g.len() && anc_upto(g, a, b, g[b].len() as int)
}

proof fn lemma_anc_upto(g: Seq<Seq<u64>>, a: int, b: int, k: int)
    requires
        0 <= b < g.len(),
        a != b,
        0 <= k <= g[b].len(),
    ensures
        anc_upto(g, a, b, k) <==> exists|j: int| 0 <= j < k && g[b][j] < b && #[trigger] is_anc(g, a, g[b][j] as int),
    decreases k,
{
    if k > 0 {
        lemma_anc_upto(g, a, b, k - 1);
        let p = g[b][k - 1] as int;
        if p < b && anc_upto(g, a, p, g[p].len() as int) {
            assert(is_anc(g, a, g[b][k - 1] as int));
        }
        if exists|j: int| 0 <= j < k && g[b][j] < b && #[trigger] is_anc(g, a, g[b][j] as int) {
            let j = choose|j: int| 0 <= j < k && g[b][j] < b && #[trigger] is_anc(g, a, g[b][j] as int);
            if j < k - 1 {
                assert(exists|j: int| 0 <= j < k - 1 && g[b][j] < b && #[trigger] is_anc(g, a, g[b][j] as int));
            }
        }
    }
}

/// One step of the ancestor relation.
pub proof fn lemma_anc_unfold(g: Seq<Seq<u64>>, a: int, b: int)
    ensures
        is_anc(g, a, b) <==> (0 <= b < g.len() && (a == b || exists|k: int| 0 <= k < g[b].len() && g[b][k] < b && #[trigger] is_anc(g, a, g[b][k] as int))),
{
    if 0 <= b < g.len() && a != b {
        lemma_anc_upto(g, a, b, g[b].len() as int);
    }
}

/// `a` is an ancestor of one of `ps`.
pub open spec fn anc_of_any(g: Seq<Seq<u64>>, ps: Seq<u64>, a: int) -> bool {
    exists|k: int| 0 <= k < ps.len() && #[trigger] is_anc(g, a, ps[k] as int)
}

/// The ancestors of the ids of `s`, the ids themselves included.
pub open spec fn ancestors_of(g: Seq<Seq<u64>>, s: Set<u64>) -> Set<u64> {
    Set::new(|a: u64| exists|b: u64| #[trigger] s.contains(b) && is_anc(g, a as int, b as int))
}

/// The parents of the ids of `s`.
pub open spec fn parents_of(g: Seq<Seq<u64>>, s: Set<u64>) -> Set<u64> {
    Set::new(|p: u64| exists|x: u64| #[trigger] s.contains(x) && x < g.len() && g[x as int].contains(p))
}

/// The ids of `s` that are no ancestor of another id of `s`.
pub open spec fn heads_of(g: Seq<Seq<u64>>, s: Set<u64>) -> Set<u64> {
    Set::new(|x: u64| s.contains(x) && !exists|y: u64| #[trigger] s.contains(y) && y != x && is_anc(g, x as int, y as int))
}

/// The ids that are ancestors of every id of `s`; none for an empty `s`.
pub open spec fn common_ancestors_of(g: Seq<Seq<u64>>, s: Set<u64>) -> Set<u64> {
    Set::new(|a: u64| (exists|x: u64| #[trigger] s.contains(x)) && forall|x: u64| #[trigger] s.contains(x) ==> is_anc(g, a as int, x as int))
}

/// Every id of `s` is indexed in `g`.
pub open spec fn indexed(g: Seq<Seq<u64>>, s: Set<u64>) -> bool {
    forall|x: u64| #[trigger] s.contains(x) ==> x < g.len()
}

/// An ancestor is never above its descendant, which is an indexed id.
pub proof fn lemma_anc_bounds(g: Seq<Seq<u64>>, a: int, b: int)
    requires
        topo(g),
        is_anc(g, a, b),
    ensures
        a <= b,
        0 <= b < g.len(),
    decreases b,
{
    lemma_anc_unfold(g, a, b);
    if a != b {
        let k = choose|k: int| 0 <= k < g[b].len() && g[b][k] < b && #[trigger] is_anc(g, a, g[b][k] as int);
        lemma_anc_bounds(g, a, g[b][k] as int);
    }
}

/// An ancestor of an ancestor is an ancestor.
pub proof fn lemma_anc_trans(g: Seq<Seq<u64>>, a: int, b: int, c: int)
    requires
        topo(g),
        is_anc(g, a, b),
        is_anc(g, b, c),
    ensures
        is_anc(g, a, c),
    decreases c,
{
    lemma_anc_unfold(g, b, c);
    lemma_anc_unfold(g, a, c);
    if b != c {
        let k = choose|k: int| 0 <= k < g[c].len() && g[c][k] < c && #[trigger] is_anc(g, b, g[c][k] as int);
        lemma_anc_trans(g, a, b, g[c][k] as int);
        lemma_anc_bounds(g, a, b);
        lemma_anc_bounds(g, b, c);
        if a == c {
        } else {
            assert(is_anc(g, a, g[c][k] as int));
        }
    }
}

/// A parent is an ancestor.
pub proof fn lemma_parent_is_anc(g: Seq<Seq<u64>>, x: int, k: int)
    requires
        topo(g),
        0 <= x < g.len(),
        0 <= k < g[x].len(),
    ensures
        is_anc(g, g[x][k] as int, x),
{
    let p = g[x][k] as int;
    assert(g[x][k] < x);
    lemma_anc_unfold(g, p, p);
    lemma_anc_unfold(g, p, x);
    assert(is_anc(g, p, g[x][k] as int));
}

/// Within a level-0 segment, the ancestors of `y` are the ids of the
/// segment up to `y` and the ancestors of the segment's parents.
pub proof fn lemma_chain(s: Seq<SegView>, g: Seq<Seq<u64>>, i: int, y: int, a: int)
    requires
        level0_wf(s, g),
        0 <= i < s.len(),
        seg_has(s[i], y),
    ensures
        is_anc(g, a, y) <==> ((s[i].low <= a && a <= y) || anc_of_any(g, s[i].parents, a)),
    decreases y - s[i].low,
{
    assert(g[y] == seg_parents_of(s[i], y));
    lemma_anc_unfold(g, a, y);
    assert(s[i].high + 1 <= g.len()) by {
        if i < s.len() - 1 {
            assert(s[i].high < s[s.len() - 1].low);
        }
    }
    if y == s[i].low {
        if anc_of_any(g, s[i].parents, a) {
            let k = choose|k: int| 0 <= k < s[i].parents.len() && #[trigger] is_anc(g, a, s[i].parents[k] as int);
            assert(g[y][k] < y);
        }
    } else {
        lemma_chain(s, g, i, y - 1, a);
        assert(g[y] == seq![(y - 1) as u64]);
        assert(g[y][0] < y);
        if is_anc(g, a, y - 1) {
            assert(is_anc(g, a, g[y][0] as int));
        }
    }
}

/// One step of the ancestor sweep: taking the largest id `x` of `t`
/// replaces the ids of a chain segment up to `x` by the segment's parents.
proof fn lemma_ancestors_step(g: Seq<Seq<u64>>, sv: SegView, t: Set<u64>, x: u64, t2: Set<u64>)
    requires
        chain_seg(g, sv),
        seg_has(sv, x as int),
        t.contains(x),
        forall|y: u64| #[trigger] t.contains(y) ==> y <= x,
        forall|y: u64| #[trigger] t2.contains(y) <==> ((t.contains(y) && !(sv.low <= y <= x)) || sv.parents.contains(y)),
    ensures
        forall|a: u64| #[trigger] ancestors_of(g, t).contains(a) <==> ((sv.low <= a <= x) || ancestors_of(g, t2).contains(a)),
        forall|y: u64| #[trigger] t2.contains(y) ==> y < sv.low,
{
    let low = sv.low;
    assert forall|a: u64| #[trigger] ancestors_of(g, t).contains(a) <==> ((low <= a <= x) || ancestors_of(g, t2).contains(a)) by {
        assert(is_anc(g, a as int, x as int) <==> ((low <= a && a <= x) || anc_of_any(g, sv.parents, a as int)));
        if ancestors_of(g, t).contains(a) {
            let b = choose|b: u64| #[trigger] t.contains(b) && is_anc(g, a as int, b as int);
            if b >= low {
                assert(is_anc(g, a as int, b as int) <==> ((low <= a && a <= b) || anc_of_any(g, sv.parents, a as int)));
                if !(low <= a <= b) {
                    let k = choose|k: int| 0 <= k < sv.parents.len() && #[trigger] is_anc(g, a as int, sv.parents[k] as int);
                    let p = sv.parents[k];
                    assert(t2.contains(p));
                }
            } else {
                assert(t2.contains(b));
            }
        }
        if low <= a <= x {
            assert(t.contains(x));
        }
        if ancestors_of(g, t2).contains(a) {
            let b = choose|b: u64| #[trigger] t2.contains(b) && is_anc(g, a as int, b as int);
            if t.contains(b) {
            } else {
                let k = choose|k: int| 0 <= k < sv.parents.len() && sv.parents[k] == b;
                assert(is_anc(g, a as int, sv.parents[k] as int));
                assert(anc_of_any(g, sv.parents, a as int));
                assert(t.contains(x));
            }
        }
    }
    assert forall|y: u64| #[trigger] t2.contains(y) implies y < low by {
        if sv.parents.contains(y) {
            let k = choose|k: int| 0 <= k < sv.parents.len() && sv.parents[k] == y;
        }
    }
}

/// An id that is a proper ancestor of `y` is a parent of some ancestor of `y`.
proof fn lemma_proper_anc(g: Seq<Seq<u64>>, x: int, y: int) -> (z: int)
    requires
        topo(g),
        is_anc(g, x, y),
        x != y,
    ensures
        0 <= z < g.len(),
        is_anc(g, z, y),
        g[z].contains(x as u64),
        0 <= x,
    decreases y,
{
    lemma_anc_unfold(g, x, y);
    let k = choose|k: int| 0 <= k < g[y].len() && g[y][k] < y && #[trigger] is_anc(g, x, g[y][k] as int);
    let p = g[y][k] as int;
    lemma_parent_is_anc(g, y, k);
    lemma_anc_unfold(g, y, y);
    if p == x {
        assert(g[y][k] == x as u64);
        y
    } else {
        let z = lemma_proper_anc(g, x, p);
        lemma_anc_trans(g, z, p, y);
        z
    }
}

/// The heads of a set are its ids that are no parent of an ancestor of it.
proof fn lemma_heads(g: Seq<Seq<u64>>, s: Set<u64>)
    requires
        topo(g),
        indexed(g, s),
    ensures
        heads_of(g, s) == s.difference(parents_of(g, ancestors_of(g, s))),
{
    assert forall|x: u64| #[trigger] heads_of(g, s).contains(x) <==> s.difference(parents_of(g, ancestors_of(g, s))).contains(x) by {
        if s.contains(x) {
            if parents_of(g, ancestors_of(g, s)).contains(x) {
                let z = choose|z: u64| #[trigger] ancestors_of(g, s).contains(z) && z < g.len() && g[z as int].contains(x);
                let y = choose|y: u64| #[trigger] s.contains(y) && is_anc(g, z as int, y as int);
                let k = choose|k: int| 0 <= k < g[z as int].len() && g[z as int][k] == x;
                lemma_parent_is_anc(g, z as int, k);
                lemma_anc_trans(g, x as int, z as int, y as int);
                lemma_anc_bounds(g, z as int, y as int);
                assert(g[z as int][k] < z);
                assert(s.contains(y) && y != x && is_anc(g, x as int, y as int));
            }
            if !heads_of(g, s).contains(x) {
                let y = choose|y: u64| #[trigger] s.contains(y) && y != x && is_anc(g, x as int, y as int);
                let z = lemma_proper_anc(g, x as int, y as int);
                lemma_anc_bounds(g, z, y as int);
                assert(ancestors_of(g, s).contains(z as u64));
                assert(parents_of(g, ancestors_of(g, s)).contains(x));
            }
        }
    }
    assert(heads_of(g, s) =~= s.difference(parents_of(g, ancestors_of(g, s))));
}

/// What the segments of a vector hold.
pub open spec fn seg_views(v: Seq<Segment>) -> Seq<SegView> {
    v.map_values(|s: Segment| s@)
}

/// The ids of `ps` below `low`, in order.
pub open spec fn below(ps: Seq<u64>, low: u64) -> Seq<u64>
    decreases ps.len(),
{
    if ps.len() == 0 {
        Seq::empty()
    } else if ps.last() < low {
        below(ps.drop_last(), low).push(ps.last())
    } else {
        below(ps.drop_last(), low)
    }
}

/// The parents of the segments of `run` that lie below `low`, segment by
/// segment.
pub open spec fn run_parents(run: Seq<SegView>, low: u64) -> Seq<u64>
    decreases run.len(),
{
    if run.len() == 0 {
        Seq::empty()
    } else {
        run_parents(run.drop_last(), low) + below(run.last().parents, low)
    }
}

/// The segments of `run` form one chain: each is flat, and each after the
/// first has the end of the one before as its only parent.
pub open spec fn run_flat(run: Seq<SegView>) -> bool {
    &&& forall|i: int| 0 <= i < run.len() ==> (#[trigger] run[i]).flat
    &&& forall|i: int| 0 < i < run.len() ==> (#[trigger] run[i]).parents == seq![run[i - 1].high]
}

/// The segment that covers the consecutive segments of `run`.
pub open spec fn merge_run(run: Seq<SegView>) -> SegView {
    SegView { low: run[0].low, high: run.last().high, flat: run_flat(run), parents: run_parents(run, run[0].low) }
}

/// The segments of the level above `lower`: one for each full run of
/// `size` consecutive segments.
pub open spec fn level_above(lower: Seq<SegView>, size: nat) -> Seq<SegView> {
    Seq::new(lower.len() / size, |i: int| merge_run(lower.subrange(i * size, i * size + size)))
}

/// The segments of level `l` over the level-0 segments `s`.
pub open spec fn level_seq(s: Seq<SegView>, size: nat, l: nat) -> Seq<SegView>
    decreases l,
{
    if l == 0 {
        s
    } else {
        level_above(level_seq(s, size, (l - 1) as nat), size)
    }
}

/// The highest level from `l` down whose segments outnumber those over `a`
/// when built over `b`.
pub open spec fn highest_grown(a: Seq<SegView>, b: Seq<SegView>, size: nat, l: nat) -> Option<u8>
    decreases l,
{
    if level_seq(b, size, l).len() > level_seq(a, size, l).len() {
        Some(l as u8)
    } else if l == 0 {
        None
    } else {
        highest_grown(a, b, size, (l - 1) as nat)
    }
}

/// Whether `ps` is exactly the one id `x`.
fn is_only(ps: &Vec<u64>, x: u64) -> (r: bool)
    ensures
        r == (ps@ == seq![x]),
{
    let r = ps.len() == 1 && ps[0] == x;
    proof {
        if r {
            assert(ps@ =~= seq![x]);
        }
    }
    r
}

/// The segment that covers `lower[from .. from + size]`.
fn merge_segments(lower: &Vec<Segment>, from: usize, size: usize) -> (r: Segment)
    requires
        size > 0,
        from + size <= lower.len(),
    ensures
        r@ == merge_run(seg_views(lower@).subrange(from as int, from + size)),
{
    let ghost run = seg_views(lower@).subrange(from as int, from + size);
    let low = lower[from].low;
    let mut parents: Vec<u64> = Vec::new();
    let mut flat = true;
    let mut j: usize = 0;
    while j < size
        invariant
            size > 0,
            from + size <= lower.len(),
            run == seg_views(lower@).subrange(from as int, from + size),
            low == run[0].low,
            j <= size,
            parents@ == run_parents(run.subrange(0, j as int), low),
            flat == run_flat(run.subrange(0, j as int)),
        decreases size - j,
    {
        let seg = &lower[from + j];
        let ghost sv = run[j as int];
        proof {
            assert(sv == seg@);
        }
        let ok = seg.flat && (j == 0 || is_only(&seg.parents, lower[from + j - 1].high));
        proof {
            let r0 = run.subrange(0, j as int);
            let r1 = run.subrange(0, j + 1);
            assert(r1.drop_last() =~= r0);
            if j > 0 {
                assert(lower[from + j - 1]@ == run[j - 1]);
            }
            assert(run_flat(r1) == (run_flat(r0) && ok)) by {
                if run_flat(r1) {
                    assert(r1[j as int] == sv);
                    if j > 0 {
                        assert(r1[j - 1] == run[j - 1]);
                    }
                    assert forall|i: int| 0 <= i < r0.len() implies (#[trigger] r0[i]).flat by {
                        assert(r0[i] == r1[i]);
                    }
                    assert forall|i: int| 0 < i < r0.len() implies (#[trigger] r0[i]).parents == seq![r0[i - 1].high] by {
                        assert(r0[i] == r1[i] && r0[i - 1] == r1[i - 1]);
                    }
                }
                if run_flat(r0) && ok {
                    assert forall|i: int| 0 <= i < r1.len() implies (#[trigger] r1[i]).flat by {
                        if i < j {
                            assert(r0[i] == r1[i]);
                        }
                    }
                    assert forall|i: int| 0 < i < r1.len() implies (#[trigger] r1[i]).parents == seq![r1[i - 1].high] by {
                        if i < j {
                            assert(r0[i] == r1[i] && r0[i - 1] == r1[i - 1]);
                        }
                    }
                }
            }
        }
        flat = flat && ok;
        // The parents of this segment that lie below the merged range.
        let ghost base = parents@;
        let mut k: usize = 0;
        while k < seg.parents.len()
            invariant
                k <= seg.parents.len(),
                parents@ == base + below(seg.parents@.subrange(0, k as int), low),
            decreases seg.parents.len() - k,
        {
            let p = seg.parents[k];
            proof {
                let q1 = seg.parents@.subrange(0, k + 1);
                assert(q1.drop_last() =~= seg.parents@.subrange(0, k as int));
                assert(q1.last() == p);
            }
            if p < low {
                parents.push(p);
            }
            k = k + 1;
            proof {
                assert(parents@ =~= base + below(seg.parents@.subrange(0, k as int), low));
            }
        }
        proof {
            assert(seg.parents@.subrange(0, k as int) =~= seg.parents@);
            let r1 = run.subrange(0, j + 1);
            assert(r1.drop_last() =~= run.subrange(0, j as int));
            assert(r1.last() == sv);
        }
        j = j + 1;
    }
    let high = lower[from + size - 1].high;
    proof {
        assert(run.subrange(0, size as int) =~= run);
        assert(run.last() == lower@[from + size - 1]@);
    }
    Segment { low, high, flat, parents }
}

/// The segments of the level above `lower`.
fn build_level_above(lower: &Vec<Segment>, size: usize) -> (r: Vec<Segment>)
    requires
        size > 0,
    ensures
        seg_views(r@) == level_above(seg_views(lower@), size as nat),
{
    let ghost lv = seg_views(lower@);
    let n = lower.len();
    let mut out: Vec<Segment> = Vec::new();
    let mut from: usize = 0;
    assert(0 * size == 0) by (nonlinear_arith);
    while size <= n - from
        invariant
            size > 0,
            n == lower.len(),
            lv == seg_views(lower@),
            from == out.len() * size,
            from <= n,
            forall|i: int| 0 <= i < out.len() ==> (#[trigger] out@[i])@ == merge_run(lv.subrange(i * size, i * size + size)),
        decreases n - from,
    {
        let seg = merge_segments(lower, from, size);
        out.push(seg);
        from = from + size;
        proof {
            assert((out.len() - 1) * size + size == out.len() * size) by (nonlinear_arith);
        }
    }
    proof {
        let k = out.len() as int;
        let z = size as int;
        assert(n as int / z == k) by (nonlinear_arith)
            requires
                k * z <= n,
                n < k * z + z,
                z > 0,
        ;
        assert forall|i: int| 0 <= i < k implies #[trigger] (i * z) + z <= n by {
            assert(i * z + z <= k * z) by (nonlinear_arith)
                requires
                    0 <= i < k,
                    z > 0,
            ;
        }
        assert(seg_views(out@) =~= level_above(lv, size as nat));
    }
    out
}

proof fn lemma_segments_for_grows(base: Seq<SegView>, start: int, ps: Seq<Seq<u64>>, end: int)
    ensures
        segments_for(base, start, ps, end).len() >= base.len(),
        end > start ==> segments_for(base, start, ps, end).len() > base.len(),
    decreases end - start,
{
    if end > start {
        lemma_segments_for_grows(base, start, ps, end - 1);
    }
}

proof fn lemma_grown_same(a: Seq<SegView>, size: nat, l: nat)
    ensures
        highest_grown(a, a, size, l) == None::<u8>,
    decreases l,
{
    if l > 0 {
        lemma_grown_same(a, size, (l - 1) as nat);
    }
}

proof fn lemma_grown_some(a: Seq<SegView>, b: Seq<SegView>, size: nat, l: nat)
    requires
        b.len() > a.len(),
    ensures
        highest_grown(a, b, size, l) is Some,
    decreases l,
{
    if l > 0 {
        lemma_grown_some(a, b, size, (l - 1) as nat);
    }
}

/// `p` is a parent of an id of `set` from `lo` to `hi`.
pub open spec fn parent_within(g: Seq<Seq<u64>>, set: Set<u64>, lo: u64, hi: u64, p: u64) -> bool {
    exists|x: u64| #[trigger] set.contains(x) && lo <= x <= hi && g[x as int].contains(p)
}

/// The parents of the ids of `set` within the level-0 segment `i`: the
/// ids below the segment's inner ids, and the segment's parents where its
/// first id is in `set`.
proof fn lemma_parents_in_segment(s: Seq<SegView>, g: Seq<Seq<u64>>, i: int, set: Set<u64>, shifted: Set<u64>, pset: Set<u64>, has_low: bool)
    requires
        level0_wf(s, g),
        0 <= i < s.len(),
        forall|y: u64| #[trigger] shifted.contains(y) <==> (y < u64::MAX && set.contains((y + 1) as u64) && s[i].low + 1 <= y + 1 <= s[i].high),
        has_low == set.contains(s[i].low),
        pset == s[i].parents.to_set(),
    ensures
        forall|p: u64| ((has_low && pset.contains(p)) || shifted.contains(p)) <==> #[trigger] parent_within(g, set, s[i].low, s[i].high, p),
{
    let low = s[i].low;
    let high = s[i].high;
    assert forall|p: u64| ((has_low && pset.contains(p)) || shifted.contains(p)) <==> #[trigger] parent_within(g, set, low, high, p) by {
        if has_low && pset.contains(p) {
            assert(seg_has(s[i], low as int));
            assert(g[low as int] == s[i].parents);
            assert(set.contains(low) && low <= low <= high && g[low as int].contains(p));
        }
        if shifted.contains(p) {
            let x = (p + 1) as u64;
            assert(seg_has(s[i], x as int));
            assert(g[x as int] == seg_parents_of(s[i], x as int));
            assert(g[x as int] == seq![p]);
            assert(g[x as int][0] == p);
            assert(set.contains(x) && low <= x <= high && g[x as int].contains(p));
        }
        if exists|x: u64| #[trigger] set.contains(x) && low <= x <= high && g[x as int].contains(p) {
            let x = choose|x: u64| #[trigger] set.contains(x) && low <= x <= high && g[x as int].contains(p);
            assert(seg_has(s[i], x as int));
            assert(g[x as int] == seg_parents_of(s[i], x as int));
            if x == low {
                assert(s[i].parents.contains(p));
            } else {
                assert(g[x as int] == seq![(x - 1) as u64]);
                let k = choose|k: int| 0 <= k < g[x as int].len() && g[x as int][k] == p;
                assert(p == x - 1);
                assert(shifted.contains(p));
            }
        }
    }
}

/// The stored form of a list of ids: eight bytes each.
pub open spec fn encode_ids(ps: Seq<u64>) -> Seq<u8>
    decreases ps.len(),
{
    if ps.len() == 0 {
        Seq::empty()
    } else {
        encode_ids(ps.drop_last()) + le_bytes(ps.last())
    }
}

/// The stored form of a level-0 segment: its last id, the number of its
/// parents, and the parents. Its first id follows from the one before.
pub open spec fn encode_segment(s: SegView) -> Seq<u8> {
    le_bytes(s.high) + le_bytes(s.parents.len() as u64) + encode_ids(s.parents)
}

/// The stored form of a list of level-0 segments.
pub open spec fn encode_segments(segs: Seq<SegView>) -> Seq<u8>
    decreases segs.len(),
{
    if segs.len() == 0 {
        Seq::empty()
    } else {
        encode_segments(segs.drop_last()) + encode_segment(segs.last())
    }
}

/// A list of level-0 segments that an index can hold: they tile the ids
/// from 0 on, each is flat, and every parent lies below its segment.
pub open spec fn storable(segs: Seq<SegView>) -> bool {
    &&& forall|i: int| 0 <= i < segs.len() ==> (#[trigger] segs[i]).flat && segs[i].low <= segs[i].high
    &&& forall|i: int, k: int| 0 <= i < segs.len() && 0 <= k < segs[i].parents.len() ==> #[trigger] segs[i].parents[k] < segs[i].low
    &&& segs.len() > 0 ==> segs[0].low == 0 && segs.last().high < u64::MAX
    &&& forall|i: int| 0 < i < segs.len() ==> (#[trigger] segs[i]).low == segs[i - 1].high + 1
}

proof fn lemma_encode_ids(ps: Seq<u64>, k: int)
    requires
        0 <= k < ps.len(),
    ensures
        encode_ids(ps).len() == 8 * ps.len(),
        encode_ids(ps).subrange(8 * k, 8 * k + 8) == le_bytes(ps[k]),
        encode_ids(ps.subrange(0, k + 1)) == encode_ids(ps.subrange(0, k)) + le_bytes(ps[k]),
    decreases ps.len(),
{
    let d = ps.drop_last();
    lemma_encode_ids_len(ps);
    lemma_encode_ids_len(d);
    if k < ps.len() - 1 {
        lemma_encode_ids(d, k);
        assert(encode_ids(ps).subrange(8 * k, 8 * k + 8) =~= encode_ids(d).subrange(8 * k, 8 * k + 8));
        assert(d.subrange(0, k + 1) =~= ps.subrange(0, k + 1));
        assert(d.subrange(0, k) =~= ps.subrange(0, k));
    } else {
        assert(encode_ids(ps).subrange(8 * k, 8 * k + 8) =~= le_bytes(ps[k]));
        assert(ps.subrange(0, k + 1) =~= ps);
        assert(ps.subrange(0, k) =~= d);
    }
}

proof fn lemma_encode_ids_len(ps: Seq<u64>)
    ensures
        encode_ids(ps).len() == 8 * ps.len(),
    decreases ps.len(),
{
    if ps.len() > 0 {
        lemma_encode_ids_len(ps.drop_last());
    }
}

proof fn lemma_encode_segments_step(segs: Seq<SegView>, j: int)
    requires
        0 <= j < segs.len(),
    ensures
        encode_segments(segs.subrange(0, j + 1)) == encode_segments(segs.subrange(0, j)) + encode_segment(segs[j]),
{
    let t = segs.subrange(0, j + 1);
    assert(t.drop_last() =~= segs.subrange(0, j));
}

proof fn lemma_encode_segments_prefix(segs: Seq<SegView>, j: int)
    requires
        0 <= j <= segs.len(),
    ensures
        encode_segments(segs.subrange(0, j)).len() <= encode_segments(segs).len(),
        encode_segments(segs).subrange(0, encode_segments(segs.subrange(0, j)).len() as int) == encode_segments(segs.subrange(0, j)),
        j < segs.len() ==> encode_segments(segs.subrange(0, j)).len() < encode_segments(segs).len(),
    decreases segs.len(),
{
    if j == segs.len() {
        assert(segs.subrange(0, j) =~= segs);
        assert(encode_segments(segs).subrange(0, encode_segments(segs).len() as int) =~= encode_segments(segs));
    } else {
        let d = segs.drop_last();
        lemma_encode_segments_prefix(d, j);
        assert(d.subrange(0, j) =~= segs.subrange(0, j));
        let e = encode_segments(segs);
        let ed = encode_segments(d);
        let ej = encode_segments(segs.subrange(0, j));
        assert(e == ed + encode_segment(segs.last()));
        assert(e.subrange(0, ej.len() as int) =~= ed.subrange(0, ej.len() as int));
    }
}

/// Building the ids `low ..= high` where `low` has the parents `t[low]`
/// and each later id has only the id before adds one segment.
proof fn lemma_one_segment(base: Seq<SegView>, t: Seq<Seq<u64>>, low: int, end: int)
    requires
        0 <= low < end,
        end - 1 <= u64::MAX,
        forall|x: int| low < x < end ==> #[trigger] t[x] == seq![(x - 1) as u64],
    ensures
        segments_for(base, low, t, end) == base.push(SegView { low: low as u64, high: (end - 1) as u64, flat: true, parents: t[low] }),
    decreases end - low,
{
    assert(segments_for(base, low, t, low) == base);
    if end - 1 > low {
        lemma_one_segment(base, t, low, end - 1);
        let prev = base.push(SegView { low: low as u64, high: (end - 2) as u64, flat: true, parents: t[low] });
        assert(segments_for(base, low, t, end - 1) == prev);
        assert(t[end - 1] == seq![(end - 2) as u64]);
        assert(prev.update(prev.len() - 1, SegView { high: (end - 1) as u64, ..prev.last() })
            =~= base.push(SegView { low: low as u64, high: (end - 1) as u64, flat: true, parents: t[low] }));
    }
}

/// Reads the stored segment that starts at `pos`: its last id, its
/// parents, and where the entry ends.
fn read_segment(b: &[u8], pos: usize) -> (r: Option<(u64, Vec<u64>, usize)>)
    requires
        pos <= b@.len(),
    ensures
        r matches Some((high, ps, end)) ==> pos < end <= b@.len()
            && b@.subrange(pos as int, end as int) == le_bytes(high) + le_bytes(ps@.len() as u64) + encode_ids(ps@),
        forall|sv: SegView| pos + encode_segment(sv).len() <= b@.len()
            && #[trigger] b@.subrange(pos as int, pos + encode_segment(sv).len()) == encode_segment(sv)
            ==> (r matches Some((high, ps, end)) && high == sv.high && ps@ == sv.parents && end == pos + encode_segment(sv).len()),
{
    proof {
        assert forall|sv: SegView| pos + encode_segment(sv).len() <= b@.len()
            && #[trigger] b@.subrange(pos as int, pos + encode_segment(sv).len()) == encode_segment(sv)
            implies b@.len() - pos >= 16 && le_value(b@, pos as int) == sv.high && le_value(b@, pos + 8) == sv.parents.len()
                && sv.parents.len() * 8 <= b@.len() - pos - 16 by {
            let e = encode_segment(sv);
            lemma_encode_ids_len(sv.parents);
            assert(b@.len() == b.len());
            assert(8 * sv.parents.len() <= b@.len());
            assert(sv.parents.len() as u64 == sv.parents.len());
            assert forall|t: int| 0 <= t < 8 implies b@[pos + t] == le_bytes(sv.high)[t] && b@[pos + 8 + t] == le_bytes(sv.parents.len() as u64)[t] by {
                assert(b@[pos + t] == e[t]);
                assert(b@[pos + 8 + t] == e[8 + t]);
            }
            lemma_le_round_trip(sv.high);
            lemma_le_round_trip(sv.parents.len() as u64);
            assert(le_value(b@, pos as int) == le_value(le_bytes(sv.high), 0));
            assert(le_value(b@, pos + 8) == le_value(le_bytes(sv.parents.len() as u64), 0));
        }
    }
    if b.len() - pos < 16 {
        return None;
    }
    let high = read_u64(b, pos);
    let count = read_u64(b, pos + 8);
    let room = (b.len() - pos - 16) / 8;
    if (room as u64) < count {
        return None;
    }
    let n = count as usize;
    let start = pos + 16;
    let mut ps: Vec<u64> = Vec::new();
    let mut k: usize = 0;
    proof {
        assert(b@.subrange(start as int, start as int) =~= encode_ids(ps@));
    }
    while k < n
        invariant
            start == pos + 16,
            start + 8 * n <= b.len(),
            b@.len() == b.len(),
            k <= n,
            ps.len() == k,
            b@.subrange(start as int, start + 8 * k) == encode_ids(ps@),
            forall|sv: SegView| pos + encode_segment(sv).len() <= b@.len()
                && #[trigger] b@.subrange(pos as int, pos + encode_segment(sv).len()) == encode_segment(sv)
                ==> sv.parents.len() == n && forall|q: int| 0 <= q < k ==> ps@[q] == #[trigger] sv.parents[q],
        decreases n - k,
    {
        let v = read_u64(b, start + 8 * k);
        proof {
            lemma_le_bytes_of_value(b@, start + 8 * k);
            let nps = ps@.push(v);
            assert(nps.drop_last() =~= ps@);
            assert(b@.subrange(start as int, start + 8 * (k + 1)) =~= b@.subrange(start as int, start + 8 * k) + b@.subrange(start + 8 * k, start + 8 * k + 8));
            assert forall|sv: SegView| pos + encode_segment(sv).len() <= b@.len()
                && #[trigger] b@.subrange(pos as int, pos + encode_segment(sv).len()) == encode_segment(sv)
                implies v == sv.parents[k as int] by {
                let e = encode_segment(sv);
                lemma_encode_ids(sv.parents, k as int);
                let ei = encode_ids(sv.parents);
                assert forall|t: int| 0 <= t < 8 implies b@[start + 8 * k + t] == le_bytes(sv.parents[k as int])[t] by {
                    assert(b@[start + 8 * k + t] == e[16 + 8 * k + t]);
                    assert(e[16 + 8 * k + t] == ei[8 * k + t]);
                }
                lemma_le_round_trip(sv.parents[k as int]);
                assert(le_value(b@, start + 8 * k) == le_value(le_bytes(sv.parents[k as int]), 0));
            }
        }
        ps.push(v);
        k = k + 1;
    }
    let end = start + 8 * n;
    proof {
        lemma_le_bytes_of_value(b@, pos as int);
        lemma_le_bytes_of_value(b@, pos + 8);
        assert(ps@.len() as u64 == count);
        assert(b@.subrange(pos as int, end as int) =~= b@.subrange(pos as int, pos + 8) + b@.subrange(pos + 8, pos + 16) + b@.subrange(start as int, end as int));
        assert forall|sv: SegView| pos + encode_segment(sv).len() <= b@.len()
            && #[trigger] b@.subrange(pos as int, pos + encode_segment(sv).len()) == encode_segment(sv)
            implies ps@ == sv.parents && end == pos + encode_segment(sv).len() by {
            assert(ps@ =~= sv.parents);
            lemma_encode_ids_len(sv.parents);
        }
    }
    Some((high, ps, end))
}

/// In a storable list, a segment's last id is below the last id of the list.
proof fn lemma_storable_below_last(segs: Seq<SegView>, j: int)
    requires
        storable(segs),
        0 <= j < segs.len() - 1,
    ensures
        segs[j].high < segs.last().high,
    decreases segs.len() - 1 - j,
{
    assert(segs[j + 1].low == segs[j].high + 1);
    assert(segs[j + 1].low <= segs[j + 1].high);
    if j + 1 < segs.len() - 1 {
        lemma_storable_below_last(segs, j + 1);
    }
}

/// Adding the id `x` with the parents `px`, by extending the last segment
/// or opening a new one, keeps the level-0 segments well formed.
proof fn lemma_append_step(before: Seq<SegView>, gb: Seq<Seq<u64>>, x: u64, px: Seq<u64>, extend: bool)
    requires
        level0_wf(before, gb),
        gb.len() == x,
        x < u64::MAX,
        forall|k: int| 0 <= k < px.len() ==> #[trigger] px[k] < x,
        extend ==> before.len() > 0 && px == seq![(x - 1) as u64],
    ensures
        level0_wf(
            if extend {
                before.update(before.len() - 1, SegView { high: x, ..before.last() })
            } else {
                before.push(SegView { low: x, high: x, flat: true, parents: px })
            },
            gb.push(px),
        ),
{
    let sg = if extend {
        before.update(before.len() - 1, SegView { high: x, ..before.last() })
    } else {
        before.push(SegView { low: x, high: x, flat: true, parents: px })
    };
    let g = gb.push(px);
    assert(topo(g)) by {
        assert forall|y: int, k: int| 0 <= y < g.len() && 0 <= k < g[y].len() implies #[trigger] g[y][k] < y by {
            if y < gb.len() {
                assert(g[y] == gb[y]);
            }
        }
    }
    assert forall|i: int, y: int| 0 <= i < sg.len() && #[trigger] seg_has(sg[i], y) implies #[trigger] g[y] == seg_parents_of(sg[i], y) by {
        if y < x {
            assert(g[y] == gb[y]);
            if extend && i == sg.len() - 1 {
                assert(seg_has(before[i], y));
            } else if i < before.len() {
                assert(sg[i] == before[i]);
            } else {
                assert(before.len() > 0 ==> before.last().high < x);
            }
        } else {
            if i < sg.len() - 1 {
                assert(sg[i] == before[i]);
                assert(before[i].high <= before.last().high) by {
                    if i < before.len() - 1 {
                        assert(before[i].high < before[before.len() - 1].low);
                    }
                }
            }
        }
    }
    assert forall|i: int, j: int| 0 <= i < j < sg.len() implies (#[trigger] sg[i]).high < (#[trigger] sg[j]).low by {
        if j < sg.len() - 1 {
            assert(sg[i] == before[i] && sg[j] == before[j]);
        } else if before.len() > 0 && (extend || j == before.len()) {
            assert(sg[i].high <= before.last().high) by {
                if i < before.len() - 1 {
                    assert(before[i].high < before[before.len() - 1].low);
                }
            }
        }
    }
}

/// Within `s`, the ancestors of each id are the ids of `s` up to it and
/// the ancestors of the parents of `s`, which all lie below `s`.
pub open spec fn chain_seg(g: Seq<Seq<u64>>, s: SegView) -> bool {
    &&& s.low <= s.high
    &&& s.high < g.len()
    &&& forall|k: int| 0 <= k < s.parents.len() ==> #[trigger] s.parents[k] < s.low
    &&& forall|y: int, a: int| s.low <= y <= s.high ==> (#[trigger] is_anc(g, a, y) <==> ((s.low <= a && a <= y) || anc_of_any(g, s.parents, a)))
}

/// The segments `v` tile the ids from 0 up in order, within the ids of
/// `g`, and each flat one is a chain.
pub open spec fn good_level(g: Seq<Seq<u64>>, v: Seq<SegView>) -> bool {
    &&& forall|i: int| 0 <= i < v.len() ==> (#[trigger] v[i]).low <= v[i].high && v[i].high < g.len()
    &&& forall|i: int| 0 < i < v.len() ==> (#[trigger] v[i]).low == v[i - 1].high + 1
    &&& v.len() > 0 ==> v[0].low == 0
    &&& forall|i: int| 0 <= i < v.len() && (#[trigger] v[i]).flat ==> chain_seg(g, v[i])
}

proof fn lemma_good_ordered(g: Seq<Seq<u64>>, v: Seq<SegView>, i: int, j: int)
    requires
        good_level(g, v),
        0 <= i < j < v.len(),
    ensures
        v[i].high < v[j].low,
    decreases j - i,
{
    assert(v[j].low == v[j - 1].high + 1);
    if i < j - 1 {
        lemma_good_ordered(g, v, i, j - 1);
        assert(v[j - 1].low <= v[j - 1].high);
    }
}

proof fn lemma_level0_good(s: Seq<SegView>, g: Seq<Seq<u64>>)
    requires
        level0_wf(s, g),
    ensures
        good_level(g, s),
{
    assert forall|i: int| 0 <= i < s.len() implies (#[trigger] s[i]).low <= s[i].high && s[i].high < g.len() by {
        if i < s.len() - 1 {
            assert(s[i].high < s[s.len() - 1].low);
        }
    }
    assert forall|i: int| 0 <= i < s.len() && (#[trigger] s[i]).flat implies chain_seg(g, s[i]) by {
        assert forall|k: int| 0 <= k < s[i].parents.len() implies #[trigger] s[i].parents[k] < s[i].low by {
            assert(seg_has(s[i], s[i].low as int));
            assert(g[s[i].low as int] == s[i].parents);
            assert(g[s[i].low as int][k] < s[i].low);
        }
        assert forall|y: int, a: int| s[i].low <= y <= s[i].high implies (#[trigger] is_anc(g, a, y) <==> ((s[i].low <= a && a <= y) || anc_of_any(g, s[i].parents, a))) by {
            lemma_chain(s, g, i, y, a);
        }
    }
}

proof fn lemma_below_all(ps: Seq<u64>, low: u64)
    requires
        forall|k: int| 0 <= k < ps.len() ==> #[trigger] ps[k] < low,
    ensures
        below(ps, low) == ps,
    decreases ps.len(),
{
    if ps.len() > 0 {
        lemma_below_all(ps.drop_last(), low);
        assert(ps.drop_last().push(ps.last()) =~= ps);
    }
}

proof fn lemma_below_none(ps: Seq<u64>, low: u64)
    requires
        forall|k: int| 0 <= k < ps.len() ==> #[trigger] ps[k] >= low,
    ensures
        below(ps, low) == Seq::<u64>::empty(),
    decreases ps.len(),
{
    if ps.len() > 0 {
        lemma_below_none(ps.drop_last(), low);
    }
}

/// A run of consecutive segments of a good level that forms one chain is
/// itself a chain, with the parents of its first segment.
proof fn lemma_flat_run(g: Seq<Seq<u64>>, v: Seq<SegView>, from: int, len: int)
    requires
        good_level(g, v),
        0 <= from,
        1 <= len,
        from + len <= v.len(),
        run_flat(v.subrange(from, from + len)),
    ensures
        run_parents(v.subrange(from, from + len), v[from].low) == v[from].parents,
        chain_seg(g, SegView { low: v[from].low, high: v[from + len - 1].high, flat: true, parents: v[from].parents }),
    decreases len,
{
    let run = v.subrange(from, from + len);
    let low = v[from].low;
    assert(run[0] == v[from]);
    assert(run[0].flat);
    assert(chain_seg(g, v[from]));
    if len == 1 {
        assert(run.drop_last() =~= Seq::<SegView>::empty());
        lemma_below_all(v[from].parents, low);
        assert(run.last() == v[from]);
        assert(run_parents(run, low) =~= run_parents(run.drop_last(), low) + below(v[from].parents, low));
        assert(run_parents(run, low) =~= v[from].parents);
    } else {
        let prev = v.subrange(from, from + len - 1);
        assert(run.drop_last() =~= prev);
        assert(run_flat(prev)) by {
            assert forall|i: int| 0 <= i < prev.len() implies (#[trigger] prev[i]).flat by {
                assert(prev[i] == run[i]);
            }
            assert forall|i: int| 0 < i < prev.len() implies (#[trigger] prev[i]).parents == seq![prev[i - 1].high] by {
                assert(prev[i] == run[i] && prev[i - 1] == run[i - 1]);
            }
        }
        lemma_flat_run(g, v, from, len - 1);
        let last = v[from + len - 1];
        let before = v[from + len - 2];
        assert(run.last() == last);
        assert(run[len - 1] == last && run[len - 2] == before);
        assert(last.parents == seq![before.high]);
        assert(before.high >= low) by {
            if from < from + len - 2 {
                lemma_good_ordered(g, v, from, from + len - 2);
            }
        }
        lemma_below_none(last.parents, low);
        assert(run_parents(run, low) =~= run_parents(prev, low));
        assert(last.flat);
        assert(chain_seg(g, last));
        assert(last.low == before.high + 1);
        let m = SegView { low, high: before.high, flat: true, parents: v[from].parents };
        assert(chain_seg(g, m));
        assert forall|y: int, a: int| low <= y <= last.high implies (#[trigger] is_anc(g, a, y) <==> ((low <= a && a <= y) || anc_of_any(g, v[from].parents, a))) by {
            if y <= before.high {
                assert(is_anc(g, a, y) <==> ((m.low <= a && a <= y) || anc_of_any(g, m.parents, a)));
            } else {
                assert(is_anc(g, a, y) <==> ((last.low <= a && a <= y) || anc_of_any(g, last.parents, a)));
                if anc_of_any(g, last.parents, a) {
                    let k = choose|k: int| 0 <= k < last.parents.len() && #[trigger] is_anc(g, a, last.parents[k] as int);
                    assert(last.parents[k] == before.high);
                    assert(is_anc(g, a, before.high as int) <==> ((m.low <= a && a <= before.high) || anc_of_any(g, m.parents, a)));
                }
                if (low <= a && a <= before.high) || anc_of_any(g, v[from].parents, a) {
                    assert(is_anc(g, a, before.high as int) <==> ((m.low <= a && a <= before.high) || anc_of_any(g, m.parents, a)));
                    assert(last.parents[0] == before.high);
                    assert(anc_of_any(g, last.parents, a));
                }
            }
        }
    }
}

/// The level above a good level is good.
proof fn lemma_level_above_good(g: Seq<Seq<u64>>, v: Seq<SegView>, z: nat)
    requires
        good_level(g, v),
        z > 0,
    ensures
        good_level(g, level_above(v, z)),
{
    let u = level_above(v, z);
    let n = v.len() / z;
    assert forall|i: int| 0 <= i < u.len() implies #[trigger] (i * z) + z <= v.len() by {
        assert(i * z + z <= n * z) by (nonlinear_arith)
            requires
                0 <= i < n,
                z > 0,
        ;
        assert(n * z <= v.len()) by (nonlinear_arith)
            requires
                n == v.len() / z,
                z > 0,
        ;
    }
    assert forall|i: int| 0 <= i < u.len() implies (#[trigger] u[i]).low <= u[i].high && u[i].high < g.len() by {
        assert(i * z >= 0) by (nonlinear_arith)
            requires
                i >= 0,
                z > 0,
        ;
        let f = i * z;
        let run = v.subrange(f, f + z);
        assert(u[i] == merge_run(run));
        assert(run[0] == v[f] && run.last() == v[f + z - 1]);
        if z > 1 {
            lemma_good_ordered(g, v, f, f + z - 1);
        }
    }
    assert forall|i: int| 0 < i < u.len() implies (#[trigger] u[i]).low == u[i - 1].high + 1 by {
        assert(i * z == (i - 1) * z + z) by (nonlinear_arith);
        let f = i * z;
        assert((i - 1) * z >= 0) by (nonlinear_arith)
            requires
                i >= 1,
                z > 0,
        ;
        assert(v[f].low == v[f - 1].high + 1);
        assert(v.subrange(f, f + z)[0] == v[f]);
        let p = v.subrange((i - 1) * z, (i - 1) * z + z);
        assert(p.last() == v[f - 1]);
    }
    assert forall|i: int| 0 <= i < u.len() && (#[trigger] u[i]).flat implies chain_seg(g, u[i]) by {
        assert(i * z >= 0) by (nonlinear_arith)
            requires
                i >= 0,
                z > 0,
        ;
        let f = i * z;
        let run = v.subrange(f, f + z);
        assert(u[i] == merge_run(run));
        assert(run_flat(run));
        lemma_flat_run(g, v, f, z as int);
        assert(run[0] == v[f] && run.last() == v[f + z - 1]);
    }
    if u.len() > 0 {
        assert(0 * z == 0) by (nonlinear_arith);
        assert((0int * z) + z <= v.len());
        assert(u[0] == merge_run(v.subrange(0, z as int)));
        assert(v.subrange(0, z as int)[0] == v[0]);
    }
}

/// Every level built over well-formed level-0 segments is good.
proof fn lemma_levels_good(s: Seq<SegView>, g: Seq<Seq<u64>>, z: nat, l: nat)
    requires
        level0_wf(s, g),
        z > 0,
    ensures
        good_level(g, level_seq(s, z, l)),
    decreases l,
{
    if l == 0 {
        lemma_level0_good(s, g);
    } else {
        lemma_levels_good(s, g, z, (l - 1) as nat);
        lemma_level_above_good(g, level_seq(s, z, (l - 1) as nat), z);
    }
}

/// The position of the segment of `level` that holds `x`, where one does.
fn find_in_level(level: &Vec<Segment>, x: u64, g: Ghost<Seq<Seq<u64>>>) -> (r: Option<usize>)
    requires
        good_level(g@, seg_views(level@)),
    ensures
        r matches Some(i) ==> i < level.len() && seg_has(seg_views(level@)[i as int], x as int),
{
    let ghost v = seg_views(level@);
    let n = level.len();
    if n == 0 {
        return None;
    }
    let mut lo: usize = 0;
    let mut hi: usize = n - 1;
    if level[hi].high < x {
        return None;
    }
    while lo < hi
        invariant
            v == seg_views(level@),
            good_level(g@, v),
            n == level.len(),
            lo <= hi < n,
            forall|k: int| 0 <= k < lo ==> v[k].high < x,
            v[hi as int].high >= x,
        decreases hi - lo,
    {
        let mid = lo + (hi - lo) / 2;
        proof {
            assert(level@[mid as int]@ == v[mid as int]);
        }
        if level[mid].high < x {
            proof {
                assert forall|k: int| 0 <= k < mid + 1 implies v[k].high < x by {
                    if k < mid {
                        lemma_good_ordered(g@, v, k, mid as int);
                        assert(v[mid as int].low <= v[mid as int].high);
                    }
                }
            }
            lo = mid + 1;
        } else {
            hi = mid;
        }
    }
    proof {
        assert(level@[lo as int]@ == v[lo as int]);
    }
    if level[lo].low <= x {
        Some(lo)
    } else {
        None
    }
}

/// `after` is `before` extended in memory to `max_id` with the parent
/// lists `ps`: the durable segments stay, and the rest is rebuilt from them.
pub open spec fn volatile_built(before: Dag, after: Dag, max_id: u64, ps: Seq<Seq<u64>>) -> bool {
    let dn = before.durable_next();
    &&& after.durable_segments() == before.durable_segments()
    &&& after.durable_next() == dn
    &&& after.segments() == segments_for(before.durable_segments(), dn, ps, max_id + 1)
    &&& after.graph() == if max_id < dn {
        before.graph().subrange(0, dn)
    } else {
        before.graph().subrange(0, dn) + ps.subrange(dn, max_id + 1)
    }
}

/// `after` is `before` extended to `max_id` with the parent lists `ps`,
/// its in-memory segments dropped first, and every segment durable.
pub open spec fn persistent_built(before: Dag, after: Dag, max_id: u64, ps: Seq<Seq<u64>>) -> bool {
    let dn = before.durable_next();
    &&& after.segments() == segments_for(before.durable_segments(), dn, ps, max_id + 1)
    &&& after.durable_segments() == after.segments()
    &&& after.durable_next() == after.next_id()
    &&& after.graph() == if max_id < dn {
        before.graph().subrange(0, dn)
    } else {
        before.graph().subrange(0, dn) + ps.subrange(dn, max_id + 1)
    }
}

/// The ancestors of a set of indexed ids hold the set, and taking
/// ancestors again adds nothing.
pub proof fn lemma_ancestors_closure(dag: Dag, s: Set<u64>)
    requires
        dag.wf(),
        indexed(dag.graph(), s),
    ensures
        s.subset_of(ancestors_of(dag.graph(), s)),
        ancestors_of(dag.graph(), ancestors_of(dag.graph(), s)) == ancestors_of(dag.graph(), s),
{
    let g = dag.graph();
    assert(topo(g));
    assert forall|x: u64| #[trigger] s.contains(x) implies ancestors_of(g, s).contains(x) by {
        lemma_anc_unfold(g, x as int, x as int);
    }
    assert forall|a: u64| #[trigger] ancestors_of(g, ancestors_of(g, s)).contains(a) <==> ancestors_of(g, s).contains(a) by {
        if ancestors_of(g, ancestors_of(g, s)).contains(a) {
            let b = choose|b: u64| #[trigger] ancestors_of(g, s).contains(b) && is_anc(g, a as int, b as int);
            let c = choose|c: u64| #[trigger] s.contains(c) && is_anc(g, b as int, c as int);
            lemma_anc_trans(g, a as int, b as int, c as int);
        }
        if ancestors_of(g, s).contains(a) {
            let c = choose|c: u64| #[trigger] s.contains(c) && is_anc(g, a as int, c as int);
            lemma_anc_bounds(g, a as int, c as int);
            lemma_anc_unfold(g, a as int, a as int);
            assert(ancestors_of(g, s).contains(a) && is_anc(g, a as int, a as int));
        }
    }
    assert(ancestors_of(g, ancestors_of(g, s)) =~= ancestors_of(g, s));
}

/// No head of the ancestors of a set has another of those heads as an
/// ancestor.
pub proof fn lemma_heads_of_ancestors(dag: Dag, s: Set<u64>)
    requires
        dag.wf(),
    ensures
        forall|x: u64, y: u64|
            #[trigger] heads_of(dag.graph(), ancestors_of(dag.graph(), s)).contains(x)
            && #[trigger] heads_of(dag.graph(), ancestors_of(dag.graph(), s)).contains(y)
            && x != y ==> !is_anc(dag.graph(), y as int, x as int),
{
    let g = dag.graph();
    let h = heads_of(g, ancestors_of(g, s));
    assert forall|x: u64, y: u64| #[trigger] h.contains(x) && #[trigger] h.contains(y) && x != y implies !is_anc(g, y as int, x as int) by {
        if is_anc(g, y as int, x as int) {
            assert(ancestors_of(g, s).contains(x) && x != y && is_anc(g, y as int, x as int));
        }
    }
}

/// `a` is an ancestor of `b` exactly when `a` is among the ancestors of
/// the set that holds `b` alone.
pub proof fn lemma_is_ancestor_by_set(dag: Dag, a: u64, b: u64)
    requires
        dag.wf(),
    ensures
        is_anc(dag.graph(), a as int, b as int) <==> ancestors_of(dag.graph(), set![b]).contains(a),
{
    let g = dag.graph();
    if ancestors_of(g, set![b]).contains(a) {
        let y = choose|y: u64| #[trigger] set![b].contains(y) && is_anc(g, a as int, y as int);
    }
    if is_anc(g, a as int, b as int) {
        assert(set![b].contains(b));
    }
}

/// Where `a` is an ancestor of `b` (as on a chain `r`, `a`, `b`), the
/// common ancestors of `a` and `b` are the ancestors of `a`, and `a` is
/// the largest of them.
pub proof fn lemma_gca_of_chain(dag: Dag, a: u64, b: u64)
    requires
        dag.wf(),
        is_anc(dag.graph(), a as int, b as int),
    ensures
        common_ancestors_of(dag.graph(), set![a, b]) == ancestors_of(dag.graph(), set![a]),
        common_ancestors_of(dag.graph(), set![a, b]).contains(a),
        forall|y: u64| #[trigger] common_ancestors_of(dag.graph(), set![a, b]).contains(y) ==> y <= a,
{
    let g = dag.graph();
    assert(topo(g));
    lemma_anc_bounds(g, a as int, b as int);
    lemma_anc_unfold(g, a as int, a as int);
    assert(set![a, b].contains(a));
    assert forall|y: u64| #[trigger] common_ancestors_of(g, set![a, b]).contains(y) <==> ancestors_of(g, set![a]).contains(y) by {
        if common_ancestors_of(g, set![a, b]).contains(y) {
            assert(is_anc(g, y as int, a as int));
            assert(set![a].contains(a));
        }
        if ancestors_of(g, set![a]).contains(y) {
            let z = choose|z: u64| #[trigger] set![a].contains(z) && is_anc(g, y as int, z as int);
            lemma_anc_trans(g, y as int, a as int, b as int);
            assert forall|x: u64| #[trigger] set![a, b].contains(x) implies is_anc(g, y as int, x as int) by {}
        }
    }
    assert(common_ancestors_of(g, set![a, b]) =~= ancestors_of(g, set![a]));
    assert forall|y: u64| #[trigger] common_ancestors_of(g, set![a, b]).contains(y) implies y <= a by {
        assert(is_anc(g, y as int, a as int));
        lemma_anc_bounds(g, y as int, a as int);
    }
}

/// Building the same range in memory twice gives the same segments and
/// parent lists as building it once, and a persistent build of that range
/// gives them again, all durable.
pub proof fn lemma_build_idempotent(d0: Dag, d1: Dag, d2: Dag, d3: Dag, max_id: u64, ps: Seq<Seq<u64>>)
    requires
        d0.wf(),
        volatile_built(d0, d1, max_id, ps),
        volatile_built(d1, d2, max_id, ps),
        persistent_built(d1, d3, max_id, ps),
    ensures
        d2.segments() == d1.segments(),
        d2.graph() == d1.graph(),
        d3.segments() == d1.segments(),
        d3.graph() == d1.graph(),
        d3.durable_segments() == d3.segments(),
{
    let dn = d0.durable_next();
    assert(dn <= d0.graph().len()) by {
        assert(d0.durable_next <= d0.next);
    }
    assert(d1.graph().subrange(0, dn) =~= d0.graph().subrange(0, dn));
}

/// The segment index.
pub struct Dag {
    segment_size: usize,
    max_level: u8,
    level0: Vec<Segment>,
    upper: Vec<Vec<Segment>>,
    durable_len: usize,
    next: u64,
    durable_next: u64,
    graph: Ghost<Seq<Seq<u64>>>,
}

impl Dag {
    pub closed spec fn segments(&self) -> Seq<SegView> {
        seg_views(self.level0@)
    }

    /// The parent list of every indexed id.
    pub closed spec fn graph(&self) -> Seq<Seq<u64>> {
        self.graph@
    }

    /// The segments that a build keeps: those written by a persistent build.
    pub closed spec fn durable_segments(&self) -> Seq<SegView> {
        self.segments().subrange(0, self.durable_len as int)
    }

    /// The first id that no durable segment covers.
    pub closed spec fn durable_next(&self) -> int {
        self.durable_next as int
    }

    /// The durable ids are a prefix of the indexed ones.
    pub proof fn lemma_durable_next(&self)
        requires
            self.wf(),
        ensures
            0 <= self.durable_next() <= self.next_id(),
    {
    }

    /// The first id that no segment covers.
    pub open spec fn next_id(&self) -> int {
        self.graph().len() as int
    }

    /// The segments of level `l`.
    pub closed spec fn level(&self, l: nat) -> Seq<SegView> {
        if l == 0 {
            self.segments()
        } else {
            seg_views(self.upper@[l - 1]@)
        }
    }

    /// Each level above 0 is built from the one below it.
    pub closed spec fn levels_wf(&self) -> bool {
        &&& self.upper.len() == self.max_level
        &&& forall|l: int| 1 <= l <= self.max_level ==> #[trigger] self.level(l as nat) == level_seq(self.segments(), self.segment_size as nat, l as nat)
    }

    pub closed spec fn wf(&self) -> bool {
        &&& self.base_wf()
        &&& self.levels_wf()
    }

    closed spec fn base_wf(&self) -> bool {
        &&& self.segment_size > 0
        &&& level0_wf(self.segments(), self.graph@)
        &&& self.next as int == self.graph@.len()
        &&& self.durable_len <= self.level0.len()
        &&& self.durable_next <= self.next
        &&& (self.durable_len == 0 <==> self.durable_next == 0)
        &&& self.durable_len > 0 ==> self.segments()[self.durable_len - 1].high + 1 == self.durable_next
        &&& level0_wf(self.durable_segments(), self.graph@.subrange(0, self.durable_next as int))
    }

    /// The number of segments of one level that a segment of the level
    /// above covers.
    pub closed spec fn segment_size(&self) -> nat {
        self.segment_size as nat
    }

    /// The highest level that segments are built at.
    pub closed spec fn max_level(&self) -> nat {
        self.max_level as nat
    }

    /// An index with no ids, whose segments of level `l + 1` each cover
    /// `segment_size` segments of level `l`, up to level `max_level`.
    pub fn new(segment_size: usize, max_level: u8) -> (r: Dag)
        requires
            segment_size > 0,
        ensures
            r.wf(),
            r.segment_size() == segment_size,
            r.max_level() == max_level,
            r.segments() == Seq::<SegView>::empty(),
            r.durable_segments() == Seq::<SegView>::empty(),
            r.graph() == Seq::<Seq<u64>>::empty(),
    {
        let mut r = Dag { segment_size, max_level, level0: Vec::new(), upper: Vec::new(), durable_len: 0, next: 0, durable_next: 0, graph: Ghost(Seq::empty()) };
        assert(r.segments() =~= Seq::<SegView>::empty());
        assert(r.durable_segments() =~= Seq::<SegView>::empty());
        assert(r.graph@.subrange(0, 0) =~= Seq::<Seq<u64>>::empty());
        r.rebuild_levels();
        r
    }

    /// The first id that no segment covers.
    pub fn next_free_id(&self) -> (r: u64)
        requires
            self.wf(),
        ensures
            r == self.next_id(),
    {
        self.next
    }

    /// The index of the level-0 segment that holds `x`.
    fn find_segment(&self, x: u64) -> (r: usize)
        requires
            self.wf(),
            x < self.next_id(),
        ensures
            r < self.segments().len(),
            seg_has(self.segments()[r as int], x as int),
    {
        let n = self.level0.len();
        let ghost s = self.segments();
        proof {
            assert(s.len() > 0);
            assert(s.last().high + 1 == self.graph@.len());
        }
        let mut lo: usize = 0;
        let mut hi: usize = n - 1;
        while lo < hi
            invariant
                n == self.level0.len(),
                s == self.segments(),
                n == s.len(),
                forall|i: int| 0 <= i < n ==> (#[trigger] s[i]).high == self.level0@[i].high,
                forall|i: int, j: int| 0 <= i < j < n ==> (#[trigger] s[i]).high < (#[trigger] s[j]).low,
                forall|i: int| 0 <= i < n ==> (#[trigger] s[i]).low <= s[i].high,
                lo <= hi < n,
                forall|k: int| 0 <= k < lo ==> s[k].high < x,
                s[hi as int].high >= x,
            decreases hi - lo,
        {
            let mid = lo + (hi - lo) / 2;
            if self.level0[mid].high < x {
                proof {
                    assert forall|k: int| 0 <= k < mid + 1 implies s[k].high < x by {
                        if k < mid {
                            assert(s[k].high < s[mid as int].low);
                        }
                    }
                }
                lo = mid + 1;
            } else {
                hi = mid;
            }
        }
        proof {
            if lo > 0 {
                assert(s[lo as int].low == s[lo - 1].high + 1);
            }
        }
        lo
    }

    /// Adds the ids from `next_id()` to `max_id`, with their parent lists
    /// from `ps`, to the index.
    fn append_ids(&mut self, max_id: u64, ps: &Vec<Vec<u64>>)
        requires
            old(self).base_wf(),
            old(self).next_id() <= max_id,
            table_fits(table_view(ps@), old(self).next_id(), max_id as int),
        ensures
            final(self).base_wf(),
            final(self).segments() == segments_for(old(self).segments(), old(self).next_id(), table_view(ps@), max_id + 1),
            final(self).graph() == old(self).graph() + table_view(ps@).subrange(old(self).next_id(), max_id + 1),
            final(self).durable_segments() == old(self).durable_segments(),
            final(self).durable_next() == old(self).durable_next(),
            final(self).segment_size == old(self).segment_size,
            final(self).max_level == old(self).max_level,
    {
        let ghost t = table_view(ps@);
        let ghost base = self.segments();
        let ghost g0 = self.graph@;
        assert(max_id < ps.len());
        let ghost dsegs = self.durable_segments();
        let start = self.next;
        let mut x: u64 = start;
        while x <= max_id
            invariant
                start <= x <= max_id + 1,
                max_id < u64::MAX,
                max_id < ps.len(),
                t == table_view(ps@),
                table_fits(t, start as int, max_id as int),
                self.segment_size > 0,
                level0_wf(self.segments(), self.graph@),
                self.next as int == self.graph@.len(),
                self.durable_len <= self.level0.len(),
                self.durable_next <= start,
                self.durable_len == old(self).durable_len,
                self.graph@.subrange(0, self.durable_next as int) == g0.subrange(0, self.durable_next as int),
                self.next == x,
                self.segments() == segments_for(base, start as int, t, x as int),
                self.graph@ == g0 + t.subrange(start as int, x as int),
                self.segments().len() >= base.len(),
                self.segments().subrange(0, base.len() as int) == base,
                x > start ==> self.segments().len() > base.len(),
                self.durable_len <= base.len(),
                self.durable_segments() == dsegs,
                self.durable_next == old(self).durable_next,
                self.segment_size == old(self).segment_size,
                self.max_level == old(self).max_level,
                base.subrange(0, self.durable_len as int) == dsegs,
                g0.len() == start,
            decreases max_id + 1 - x,
        {
            let ghost before = self.segments();
            let ghost gb = self.graph@;
            let n = self.level0.len();
            let px = &ps[x as usize];
            let flat_step = x > start && px.len() == 1 && px[0] == x - 1;
            proof {
                assert(t[x as int] == px@);
                if flat_step {
                    assert(px@ =~= seq![(x - 1) as u64]);
                } else {
                    assert(!(x > start && t[x as int] == seq![(x - 1) as u64])) by {
                        if x > start && t[x as int] == seq![(x - 1) as u64] {
                            assert(px@.len() == 1 && px@[0] == x - 1);
                        }
                    }
                }
                assert forall|k: int| 0 <= k < t[x as int].len() implies #[trigger] t[x as int][k] < x by {
                    assert(t[x as int][k] == ps@[x as int]@[k]);
                }
            }
            if flat_step {
                let mut last = self.level0.pop().unwrap();
                last.high = x;
                self.level0.push(last);
            } else {
                let parents = px.clone();
                proof {
                    assert(parents@ =~= px@);
                }
                self.level0.push(Segment { low: x, high: x, flat: true, parents });
            }
            self.graph = Ghost(self.graph@.push(t[x as int]));
            self.next = x + 1;
            proof {
                let sg = self.segments();
                let g = self.graph@;
                if flat_step {
                    assert(sg =~= before.update(before.len() - 1, SegView { high: x, ..before.last() }));
                } else {
                    assert(sg =~= before.push(SegView { low: x, high: x, flat: true, parents: t[x as int] }));
                }
                assert(g =~= g0 + t.subrange(start as int, x + 1));
                assert(sg.subrange(0, base.len() as int) =~= base) by {
                    assert(before.subrange(0, base.len() as int) == base);
                    if flat_step {
                        assert(before.len() > base.len());
                    }
                }
                assert(sg.subrange(0, self.durable_len as int) =~= dsegs) by {
                    assert(sg.subrange(0, base.len() as int) == base);
                    assert(sg.subrange(0, self.durable_len as int) =~= base.subrange(0, self.durable_len as int));
                }
                assert(g.subrange(0, self.durable_next as int) =~= gb.subrange(0, self.durable_next as int));
                lemma_append_step(before, gb, x, t[x as int], flat_step);
            }
            x = x + 1;
        }
        proof {
            assert(self.durable_segments() == old(self).durable_segments());
            assert(self.graph@.subrange(0, self.durable_next as int) =~= old(self).graph@.subrange(0, old(self).durable_next as int));
            if self.durable_len > 0 {
                assert(self.segments()[self.durable_len - 1] == dsegs[self.durable_len - 1]);
                assert(dsegs[self.durable_len - 1] == old(self).segments()[self.durable_len - 1]);
            }
        }
    }

    /// Whether every id from `start` to `max_id` has a parent list in `ps`
    /// with all of its parents below it.
    fn table_fits_exec(ps: &Vec<Vec<u64>>, start: u64, max_id: u64) -> (r: bool)
        ensures
            r == table_fits(table_view(ps@), start as int, max_id as int),
    {
        let ghost t = table_view(ps@);
        if ps.len() as u64 <= max_id || max_id == u64::MAX {
            return false;
        }
        let mut x: u64 = start;
        while x <= max_id
            invariant
                t == table_view(ps@),
                max_id < ps.len(),
                max_id < u64::MAX,
                start <= x || x > max_id,
                forall|y: int, k: int| start <= y < x && 0 <= k < t[y].len() ==> #[trigger] t[y][k] < y,
            decreases max_id + 1 - x,
        {
            let px = &ps[x as usize];
            let mut k: usize = 0;
            while k < px.len()
                invariant
                    t == table_view(ps@),
                    start <= x <= max_id < ps.len(),
                    px@ == t[x as int],
                    k <= px.len(),
                    forall|j: int| 0 <= j < k ==> #[trigger] px@[j] < x,
                decreases px.len() - k,
            {
                if px[k] >= x {
                    proof {
                        assert(t[x as int][k as int] == px@[k as int]);
                        assert(start <= x <= max_id);
                        assert(!(t[x as int][k as int] < x));
                        assert(!table_fits(t, start as int, max_id as int));
                    }
                    return false;
                }
                k = k + 1;
            }
            x = x + 1;
        }
        true
    }

    /// Drops the segments that no persistent build wrote.
    fn discard_volatile(&mut self)
        requires
            old(self).base_wf(),
        ensures
            final(self).base_wf(),
            final(self).segments() == old(self).durable_segments(),
            final(self).durable_segments() == old(self).durable_segments(),
            final(self).graph() == old(self).graph().subrange(0, old(self).durable_next()),
            final(self).next_id() == old(self).durable_next(),
            final(self).durable_next() == old(self).durable_next(),
            final(self).segment_size == old(self).segment_size,
            final(self).max_level == old(self).max_level,
    {
        let ghost dsegs = self.durable_segments();
        self.level0.truncate(self.durable_len);
        self.graph = Ghost(self.graph@.subrange(0, self.durable_next as int));
        self.next = self.durable_next;
        proof {
            assert(self.segments() =~= dsegs);
            assert(self.durable_segments() =~= dsegs);
            assert(self.graph@.subrange(0, self.durable_next as int) =~= self.graph@);
        }
    }

    /// Extends the index in memory to the ids up to `max_id`, whose parent
    /// lists `ps` gives by id. Segments of an earlier in-memory build are
    /// replaced, so the result depends only on the durable segments and
    /// the arguments. Returns the highest level that got a segment.
    pub fn build_segments_volatile(&mut self, max_id: u64, ps: &Vec<Vec<u64>>) -> (r: Result<Option<u8>, DagError>)
        requires
            old(self).wf(),
        ensures
            final(self).wf(),
            r is Err <==> (max_id >= old(self).durable_next() && !table_fits(table_view(ps@), old(self).durable_next(), max_id as int)),
            r is Err ==> *final(self) == *old(self),
            r is Ok ==> volatile_built(*old(self), *final(self), max_id, table_view(ps@)),
            r is Ok ==> (r == Ok::<Option<u8>, DagError>(None) <==> max_id < old(self).durable_next()),
            r is Ok ==> final(self).next_id() > max_id,
            final(self).segment_size() == old(self).segment_size(),
            final(self).max_level() == old(self).max_level(),
            r is Ok ==> r == Ok::<Option<u8>, DagError>(highest_grown(old(self).durable_segments(), final(self).segments(), final(self).segment_size(), final(self).max_level())),
    {
        let dn = self.durable_next;
        if max_id >= dn && !Self::table_fits_exec(ps, dn, max_id) {
            return Err(DagError::InvalidInput);
        }
        self.discard_volatile();
        self.rebuild_levels();
        let ghost base = self.segments();
        if max_id < dn {
            proof {
                lemma_grown_same(base, self.segment_size as nat, self.max_level as nat);
            }
            return Ok(None);
        }
        let before = self.level_counts();
        self.append_ids(max_id, ps);
        self.rebuild_levels();
        proof {
            lemma_segments_for_grows(base, dn as int, table_view(ps@), max_id + 1);
            lemma_grown_some(base, self.segments(), self.segment_size as nat, self.max_level as nat);
        }
        Ok(self.highest_grown_since(&before, Ghost(base)))
    }

    /// Extends the index to the ids up to `max_id` and makes every segment
    /// durable. Segments of an in-memory build are first dropped. Returns
    /// the highest level that got a segment.
    pub fn build_segments_persistent(&mut self, max_id: u64, ps: &Vec<Vec<u64>>) -> (r: Result<Option<u8>, DagError>)
        requires
            old(self).wf(),
        ensures
            final(self).wf(),
            r is Err <==> (max_id >= old(self).durable_next() && !table_fits(table_view(ps@), old(self).durable_next(), max_id as int)),
            r is Err ==> *final(self) == *old(self),
            r is Ok ==> persistent_built(*old(self), *final(self), max_id, table_view(ps@)),
            r is Ok ==> (r == Ok::<Option<u8>, DagError>(None) <==> max_id < old(self).durable_next()),
            r is Ok ==> final(self).next_id() > max_id,
            final(self).segment_size() == old(self).segment_size(),
            final(self).max_level() == old(self).max_level(),
            r is Ok ==> r == Ok::<Option<u8>, DagError>(highest_grown(old(self).durable_segments(), final(self).segments(), final(self).segment_size(), final(self).max_level())),
    {
        let dn = self.durable_next;
        if max_id >= dn && !Self::table_fits_exec(ps, dn, max_id) {
            return Err(DagError::InvalidInput);
        }
        self.discard_volatile();
        self.rebuild_levels();
        let ghost base = self.segments();
        let before = self.level_counts();
        if max_id >= dn {
            self.append_ids(max_id, ps);
            self.rebuild_levels();
        }
        self.mark_durable();
        proof {
            if max_id < dn {
                lemma_grown_same(base, self.segment_size as nat, self.max_level as nat);
            } else {
                lemma_segments_for_grows(base, dn as int, table_view(ps@), max_id + 1);
                lemma_grown_some(base, self.segments(), self.segment_size as nat, self.max_level as nat);
            }
        }
        Ok(self.highest_grown_since(&before, Ghost(base)))
    }


    /// All ancestors of the ids of `set`, the ids themselves included;
    /// an error where `set` holds an id that is not indexed. The walk goes
    /// down from the largest id left, and takes at each step the whole
    /// chain segment that holds it, from the highest level that has one.
    pub fn ancestors(&self, set: &SpanSet) -> (r: Result<SpanSet, DagError>)
        requires
            self.wf(),
            set.wf(),
        ensures
            r is Err <==> !indexed(self.graph(), set@),
            r matches Ok(a) ==> a.wf() && a@ == ancestors_of(self.graph(), set@),
    {
        let ghost g = self.graph@;
        let ghost segs = self.segments();
        let top = set.max();
        match top {
            Some(m) => {
                if m >= self.next {
                    return Err(DagError::InvalidInput);
                }
            },
            None => {},
        }
        let mut result = SpanSet::empty();
        let mut frontier = set.copy();
        let mut cur = frontier.max();
        let ghost mut bound: int = self.next as int;
        while cur.is_some()
            invariant
                self.wf(),
                g == self.graph@,
                segs == self.segments(),
                set.wf(),
                result.wf(),
                frontier.wf(),
                cur is None <==> frontier@ == Set::<u64>::empty(),
                cur matches Some(x) ==> frontier@.contains(x) && forall|y: u64| #[trigger] frontier@.contains(y) ==> y <= x,
                0 <= bound <= g.len(),
                forall|y: u64| #[trigger] frontier@.contains(y) ==> y < bound,
                forall|a: u64| #[trigger] ancestors_of(g, set@).contains(a) <==> (result@.contains(a) || ancestors_of(g, frontier@).contains(a)),
            decreases bound,
        {
            let x = cur.unwrap();
            let (low, high, pv) = self.chain_at(x);
            let ghost sv = SegView { low, high, flat: true, parents: pv@ };
            let run = SpanSet::from_range(low, x);
            let rest = frontier.difference(&run);
            let ps = SpanSet::from_spans(pv);
            let frontier2 = rest.union(&ps);
            proof {
                assert forall|y: u64| #[trigger] frontier2@.contains(y) <==> ((frontier@.contains(y) && !(sv.low <= y <= x)) || sv.parents.contains(y)) by {
                    if ps@.contains(y) {
                        assert(sv.parents.contains(y));
                    }
                    if sv.parents.contains(y) {
                        assert(ps@.contains(y));
                    }
                }
                lemma_ancestors_step(g, sv, frontier@, x, frontier2@);
            }
            result = result.union(&run);
            frontier = frontier2;
            cur = frontier.max();
            proof {
                bound = low as int;
            }
        }
        proof {
            assert forall|a: u64| #[trigger] ancestors_of(g, set@).contains(a) <==> result@.contains(a) by {
                if ancestors_of(g, frontier@).contains(a) {
                    let b = choose|b: u64| #[trigger] frontier@.contains(b) && is_anc(g, a as int, b as int);
                }
            }
            assert(result@ =~= ancestors_of(g, set@));
        }
        Ok(result)
    }


    /// The parents of the ids of `set`; an error where `set` holds an id
    /// that is not indexed.
    #[verifier::rlimit(100)]
    pub fn parents(&self, set: &SpanSet) -> (r: Result<SpanSet, DagError>)
        requires
            self.wf(),
            set.wf(),
        ensures
            r is Err <==> !indexed(self.graph(), set@),
            r matches Ok(p) ==> p.wf() && p@ == parents_of(self.graph(), set@),
    {
        let ghost g = self.graph@;
        let ghost segs = self.segments();
        let top = set.max();
        let bottom = set.min();
        let (m, b) = match (top, bottom) {
            (Some(m), Some(b)) => (m, b),
            _ => {
                let e = SpanSet::empty();
                assert(e@ =~= parents_of(g, set@));
                return Ok(e);
            },
        };
        if m >= self.next {
            return Err(DagError::InvalidInput);
        }
        let first = self.find_segment(b);
        let last = self.find_segment(m);
        proof {
            if last < first {
                assert(segs[last as int].high < segs[first as int].low);
            }
        }
        let mut result = SpanSet::empty();
        let mut i: usize = first;
        let ghost mut cut: int = segs[first as int].low as int;
        while i <= last
            invariant
                level0_wf(segs, g),
                segs.len() == self.level0.len(),
                g == self.graph@,
                segs == self.segments(),
                set.wf(),
                result.wf(),
                first <= i <= last + 1,
                last < segs.len(),
                seg_has(segs[last as int], m as int),
                forall|y: u64| #[trigger] set@.contains(y) ==> y <= m,
                i <= last ==> cut == segs[i as int].low,
                i > last ==> cut == segs[last as int].high + 1,
                forall|y: u64| #[trigger] set@.contains(y) ==> cut <= y || segs[first as int].low <= y,
                forall|y: u64| #[trigger] set@.contains(y) ==> segs[first as int].low <= y,
                forall|p: u64| #[trigger] result@.contains(p) <==> exists|x: u64| #[trigger] set@.contains(x) && x < cut && g[x as int].contains(p),
            decreases last + 1 - i,
        {
            let low = self.level0[i].low;
            let high = self.level0[i].high;
            proof {
                assert(segs[i as int].high + 1 <= g.len()) by {
                    if i < segs.len() - 1 {
                        assert(segs[i as int].high < segs[segs.len() - 1].low);
                    }
                }
            }
            let part = set.intersection(&SpanSet::from_range(low + 1, high));
            let shifted = part.shift_down();
            let mut next_result = result.union(&shifted);
            let has_low = set.contains(low);
            let pset = SpanSet::from_spans(self.level0[i].parents.clone());
            proof {
                assert(self.level0@[i as int].parents@ == segs[i as int].parents);
                assert(pset@ == segs[i as int].parents.to_set());
            }
            if has_low {
                next_result = next_result.union(&pset);
            }
            proof {
                lemma_parents_in_segment(segs, g, i as int, set@, shifted@, pset@, has_low);
                let cut2 = high as int + 1;
                assert forall|p: u64| #[trigger] next_result@.contains(p) <==> exists|x: u64| #[trigger] set@.contains(x) && x < cut2 && g[x as int].contains(p) by {
                    if exists|x: u64| #[trigger] set@.contains(x) && x < cut2 && g[x as int].contains(p) {
                        let x = choose|x: u64| #[trigger] set@.contains(x) && x < cut2 && g[x as int].contains(p);
                        if x < cut {
                            assert(result@.contains(p));
                        } else {
                            assert(segs[i as int].low <= x <= segs[i as int].high && set@.contains(x) && g[x as int].contains(p));
                            assert(parent_within(g, set@, segs[i as int].low, segs[i as int].high, p));
                        }
                    }
                    if result@.contains(p) {
                        let x = choose|x: u64| #[trigger] set@.contains(x) && x < cut && g[x as int].contains(p);
                        assert(set@.contains(x) && x < cut2 && g[x as int].contains(p));
                    }
                    if (has_low && pset@.contains(p)) || shifted@.contains(p) {
                        assert(parent_within(g, set@, segs[i as int].low, segs[i as int].high, p));
                        let x = choose|x: u64| #[trigger] set@.contains(x) && segs[i as int].low <= x <= segs[i as int].high && g[x as int].contains(p);
                        assert(set@.contains(x) && x < cut2 && g[x as int].contains(p));
                    }
                }
                if i < last {
                    assert(segs[i + 1].low == segs[i as int].high + 1);
                }
                cut = cut2;
            }
            result = next_result;
            i = i + 1;
        }
        proof {
            assert(result@ =~= parents_of(g, set@));
        }
        Ok(result)
    }

    /// The ids of `set` that are no ancestor of another id of `set`; an
    /// error where `set` holds an id that is not indexed.
    pub fn heads(&self, set: &SpanSet) -> (r: Result<SpanSet, DagError>)
        requires
            self.wf(),
            set.wf(),
        ensures
            r is Err <==> !indexed(self.graph(), set@),
            r matches Ok(h) ==> h.wf() && h@ == heads_of(self.graph(), set@),
    {
        let anc = self.ancestors(set)?;
        proof {
            assert(indexed(self.graph@, anc@)) by {
                assert forall|a: u64| #[trigger] anc@.contains(a) implies a < self.graph@.len() by {
                    let b = choose|b: u64| #[trigger] set@.contains(b) && is_anc(self.graph@, a as int, b as int);
                    lemma_anc_bounds(self.graph@, a as int, b as int);
                }
            }
        }
        let ps = match self.parents(&anc) {
            Ok(p) => p,
            Err(e) => {
                return Err(e);
            },
        };
        let h = set.difference(&ps);
        proof {
            lemma_heads(self.graph@, set@);
        }
        Ok(h)
    }

    /// Whether `a` is an ancestor of `b` (or `b` itself); an error where
    /// either id is not indexed.
    pub fn is_ancestor(&self, a: u64, b: u64) -> (r: Result<bool, DagError>)
        requires
            self.wf(),
        ensures
            r is Err <==> (a >= self.next_id() || b >= self.next_id()),
            r matches Ok(v) ==> v == is_anc(self.graph(), a as int, b as int),
    {
        let ghost g = self.graph@;
        if a >= self.next || b >= self.next {
            return Err(DagError::InvalidInput);
        }
        if a > b {
            proof {
                if is_anc(g, a as int, b as int) {
                    lemma_anc_bounds(g, a as int, b as int);
                }
            }
            return Ok(false);
        }
        let i = self.find_segment(b);
        if self.level0[i].low <= a {
            proof {
                lemma_chain(self.segments(), g, i as int, b as int, a as int);
            }
            return Ok(true);
        }
        let single = SpanSet::from_range(b, b);
        let anc = self.ancestors(&single)?;
        let r = anc.contains(a);
        proof {
            if r {
                let y = choose|y: u64| #[trigger] single@.contains(y) && is_anc(g, a as int, y as int);
            }
            if is_anc(g, a as int, b as int) {
                assert(single@.contains(b));
                assert(ancestors_of(g, single@).contains(a));
            }
        }
        Ok(r)
    }

    /// The ids that are ancestors of every id of `set`; none for an empty
    /// set, and an error where `set` holds an id that is not indexed.
    pub fn common_ancestors(&self, set: &SpanSet) -> (r: Result<SpanSet, DagError>)
        requires
            self.wf(),
            set.wf(),
        ensures
            r is Err <==> !indexed(self.graph(), set@),
            r matches Ok(c) ==> c.wf() && c@ == common_ancestors_of(self.graph(), set@),
    {
        let ghost g = self.graph@;
        let ids = set.iter_desc();
        if ids.len() == 0 {
            let e = SpanSet::empty();
            proof {
                assert forall|x: u64| !#[trigger] set@.contains(x) by {
                    if set@.contains(x) {
                        assert(ids@.to_set().contains(x));
                    }
                }
                assert(e@ =~= common_ancestors_of(g, set@));
            }
            return Ok(e);
        }
        if ids[0] >= self.next {
            proof {
                assert(ids@.to_set().contains(ids@[0]));
            }
            return Err(DagError::InvalidInput);
        }
        proof {
            assert forall|x: u64| #[trigger] set@.contains(x) implies x < g.len() by {
                assert(ids@.to_set().contains(x));
                let j = choose|j: int| 0 <= j < ids@.len() && ids@[j] == x;
                if j > 0 {
                    assert(ids@[0] > ids@[j]);
                }
            }
        }
        let first = SpanSet::from_range(ids[0], ids[0]);
        let mut result = self.ancestors(&first)?;
        let mut i: usize = 1;
        proof {
            assert forall|a: u64| #[trigger] result@.contains(a) <==> forall|j: int| 0 <= j < 1 ==> is_anc(g, a as int, #[trigger] ids@[j] as int) by {
                if result@.contains(a) {
                    let y = choose|y: u64| #[trigger] first@.contains(y) && is_anc(g, a as int, y as int);
                }
                if forall|j: int| 0 <= j < 1 ==> is_anc(g, a as int, #[trigger] ids@[j] as int) {
                    assert(is_anc(g, a as int, ids@[0] as int));
                    assert(first@.contains(ids@[0]));
                }
            }
        }
        while i < ids.len()
            invariant
                self.wf(),
                g == self.graph@,
                1 <= i <= ids.len(),
                result.wf(),
                forall|x: u64| #[trigger] set@.contains(x) ==> x < g.len(),
                ids@.to_set() == set@,
                forall|a: u64| #[trigger] result@.contains(a) <==> forall|j: int| 0 <= j < i ==> is_anc(g, a as int, #[trigger] ids@[j] as int),
            decreases ids.len() - i,
        {
            let x = ids[i];
            proof {
                assert(ids@.to_set().contains(x));
            }
            let single = SpanSet::from_range(x, x);
            let anc = match self.ancestors(&single) {
                Ok(a) => a,
                Err(e) => {
                    proof {
                        assert forall|y: u64| #[trigger] single@.contains(y) implies y < g.len() by {
                            assert(y == x);
                        }
                    }
                    return Err(e);
                },
            };
            result = result.intersection(&anc);
            proof {
                assert forall|a: u64| #[trigger] result@.contains(a) <==> forall|j: int| 0 <= j < i + 1 ==> is_anc(g, a as int, #[trigger] ids@[j] as int) by {
                    if anc@.contains(a) {
                        let y = choose|y: u64| #[trigger] single@.contains(y) && is_anc(g, a as int, y as int);
                    }
                    if forall|j: int| 0 <= j < i + 1 ==> is_anc(g, a as int, #[trigger] ids@[j] as int) {
                        assert(is_anc(g, a as int, ids@[i as int] as int));
                        assert(single@.contains(x));
                        assert forall|j: int| 0 <= j < i implies is_anc(g, a as int, #[trigger] ids@[j] as int) by {
                            assert(0 <= j < i + 1);
                        }
                    }
                }
            }
            i = i + 1;
        }
        proof {
            assert forall|a: u64| #[trigger] result@.contains(a) <==> common_ancestors_of(g, set@).contains(a) by {
                assert(set@.contains(ids@[0]));
                if result@.contains(a) {
                    assert forall|x: u64| #[trigger] set@.contains(x) implies is_anc(g, a as int, x as int) by {
                        assert(ids@.to_set().contains(x));
                        let j = choose|j: int| 0 <= j < ids@.len() && ids@[j] == x;
                    }
                }
                if common_ancestors_of(g, set@).contains(a) {
                    assert forall|j: int| 0 <= j < ids.len() implies is_anc(g, a as int, #[trigger] ids@[j] as int) by {
                        assert(ids@.to_set().contains(ids@[j]));
                    }
                }
            }
            assert(result@ =~= common_ancestors_of(g, set@));
        }
        Ok(result)
    }

    /// One greatest common ancestor of `set`: the largest id among the
    /// common ancestors, or `None` where there is none.
    pub fn gca_one(&self, set: &SpanSet) -> (r: Result<Option<u64>, DagError>)
        requires
            self.wf(),
            set.wf(),
        ensures
            r is Err <==> !indexed(self.graph(), set@),
            r == Ok::<Option<u64>, DagError>(None) <==> (indexed(self.graph(), set@) && common_ancestors_of(self.graph(), set@) == Set::<u64>::empty()),
            r matches Ok(Some(m)) ==> common_ancestors_of(self.graph(), set@).contains(m)
                && forall|y: u64| #[trigger] common_ancestors_of(self.graph(), set@).contains(y) ==> y <= m,
    {
        let c = self.common_ancestors(set)?;
        Ok(c.max())
    }

    /// All greatest common ancestors of `set`: the heads of its common
    /// ancestors.
    pub fn gca_all(&self, set: &SpanSet) -> (r: Result<SpanSet, DagError>)
        requires
            self.wf(),
            set.wf(),
        ensures
            r is Err <==> !indexed(self.graph(), set@),
            r matches Ok(h) ==> h.wf() && h@ == heads_of(self.graph(), common_ancestors_of(self.graph(), set@)),
    {
        let c = self.common_ancestors(set)?;
        proof {
            assert forall|a: u64| #[trigger] c@.contains(a) implies a < self.graph@.len() by {
                let x = choose|x: u64| #[trigger] set@.contains(x);
                assert(is_anc(self.graph@, a as int, x as int));
                lemma_anc_bounds(self.graph@, a as int, x as int);
            }
        }
        match self.heads(&c) {
            Ok(h) => Ok(h),
            Err(e) => Err(e),
        }
    }


    /// The number of segments of level `level`.
    pub fn segment_count(&self, level: u8) -> (r: usize)
        requires
            self.wf(),
            level <= self.max_level(),
        ensures
            r == level_seq(self.segments(), self.segment_size(), level as nat).len(),
    {
        proof {
            if level > 0 {
                let li = level as int;
                assert(self.level(li as nat) == level_seq(self.segments(), self.segment_size as nat, li as nat));
            }
        }
        if level == 0 {
            self.level0.len()
        } else {
            self.upper[level as usize - 1].len()
        }
    }

    /// The segment at position `i` of level `level`: its first and last
    /// id, whether it is one unbroken chain, and its parents below it.
    pub fn segment_at(&self, level: u8, i: usize) -> (r: (u64, u64, bool, Vec<u64>))
        requires
            self.wf(),
            level <= self.max_level(),
            i < level_seq(self.segments(), self.segment_size(), level as nat).len(),
        ensures
            ({
                let s = level_seq(self.segments(), self.segment_size(), level as nat)[i as int];
                r.0 == s.low && r.1 == s.high && r.2 == s.flat && r.3@ == s.parents
            }),
    {
        proof {
            if level > 0 {
                let li = level as int;
                assert(self.level(li as nat) == level_seq(self.segments(), self.segment_size as nat, li as nat));
            }
        }
        let seg = if level == 0 {
            &self.level0[i]
        } else {
            &self.upper[level as usize - 1][i]
        };
        let parents = seg.parents.clone();
        proof {
            assert(parents@ =~= seg.parents@);
        }
        (seg.low, seg.high, seg.flat, parents)
    }

    /// The first and last id of the level-0 segment at position `i`.
    pub fn segment_range(&self, i: usize) -> (r: (u64, u64))
        requires
            i < self.segments().len(),
        ensures
            r == (self.segments()[i as int].low, self.segments()[i as int].high),
    {
        (self.level0[i].low, self.level0[i].high)
    }


    /// Rebuilds every level above 0 from the level-0 segments.
    fn rebuild_levels(&mut self)
        requires
            old(self).base_wf(),
        ensures
            final(self).wf(),
            final(self).segments() == old(self).segments(),
            final(self).graph() == old(self).graph(),
            final(self).durable_segments() == old(self).durable_segments(),
            final(self).durable_next() == old(self).durable_next(),
            final(self).segment_size == old(self).segment_size,
            final(self).max_level == old(self).max_level,
    {
        let mut levels: Vec<Vec<Segment>> = Vec::new();
        let mut l: u8 = 0;
        while l < self.max_level
            invariant
                self.base_wf(),
                self == old(self),
                l <= self.max_level,
                levels.len() == l,
                forall|i: int| 0 <= i < l ==> seg_views(#[trigger] levels@[i]@) == level_seq(self.segments(), self.segment_size as nat, (i + 1) as nat),
            decreases self.max_level - l,
        {
            let next = if l == 0 {
                build_level_above(&self.level0, self.segment_size)
            } else {
                build_level_above(&levels[l as usize - 1], self.segment_size)
            };
            proof {
                if l == 0 {
                    assert(seg_views(self.level0@) == level_seq(self.segments(), self.segment_size as nat, 0));
                }
            }
            levels.push(next);
            l = l + 1;
        }
        self.upper = levels;
        proof {
            assert forall|k: int| 1 <= k <= self.max_level implies #[trigger] self.level(k as nat) == level_seq(self.segments(), self.segment_size as nat, k as nat) by {
                assert(seg_views(self.upper@[k - 1]@) == level_seq(self.segments(), self.segment_size as nat, k as nat));
            }
        }
    }

    /// The number of segments of each level, from level 0 up.
    fn level_counts(&self) -> (r: Vec<usize>)
        requires
            self.wf(),
        ensures
            r.len() == self.max_level + 1,
            forall|l: int| 0 <= l < r.len() ==> #[trigger] r@[l] == level_seq(self.segments(), self.segment_size as nat, l as nat).len(),
    {
        let mut r: Vec<usize> = Vec::new();
        r.push(self.level0.len());
        let mut l: usize = 0;
        while l < self.upper.len()
            invariant
                self.wf(),
                l <= self.upper.len(),
                r.len() == l + 1,
                forall|i: int| 0 <= i < r.len() ==> #[trigger] r@[i] == level_seq(self.segments(), self.segment_size as nat, i as nat).len(),
            decreases self.upper.len() - l,
        {
            proof {
                assert(self.level((l + 1) as nat) == level_seq(self.segments(), self.segment_size as nat, (l + 1) as nat));
            }
            r.push(self.upper[l].len());
            l = l + 1;
        }
        r
    }


    /// The highest level that has more segments now than it had over the
    /// level-0 segments `base`, whose level sizes `before` holds.
    fn highest_grown_since(&self, before: &Vec<usize>, base: Ghost<Seq<SegView>>) -> (r: Option<u8>)
        requires
            self.wf(),
            before.len() == self.max_level + 1,
            forall|l: int| 0 <= l < before.len() ==> #[trigger] before@[l] == level_seq(base@, self.segment_size as nat, l as nat).len(),
        ensures
            r == highest_grown(base@, self.segments(), self.segment_size as nat, self.max_level as nat),
    {
        let ghost z = self.segment_size as nat;
        let ghost m = self.max_level as nat;
        let after = self.level_counts();
        let mut l: usize = self.max_level as usize + 1;
        while l > 0
            invariant
                self.wf(),
                z == self.segment_size as nat,
                m == self.max_level as nat,
                after.len() == m + 1,
                before.len() == m + 1,
                forall|k: int| 0 <= k < after.len() ==> #[trigger] after@[k] == level_seq(self.segments(), z, k as nat).len(),
                forall|k: int| 0 <= k < before.len() ==> #[trigger] before@[k] == level_seq(base@, z, k as nat).len(),
                l <= m + 1,
                l >= 1 ==> highest_grown(base@, self.segments(), z, m) == highest_grown(base@, self.segments(), z, (l - 1) as nat),
                l == 0 ==> highest_grown(base@, self.segments(), z, m) == None::<u8>,
            decreases l,
        {
            let k = l - 1;
            if after[k] > before[k] {
                return Some(k as u8);
            }
            l = k;
        }
        None
    }


    /// Makes every segment durable.
    fn mark_durable(&mut self)
        requires
            old(self).wf(),
        ensures
            final(self).wf(),
            final(self).segments() == old(self).segments(),
            final(self).graph() == old(self).graph(),
            final(self).durable_segments() == final(self).segments(),
            final(self).durable_next() == final(self).next_id(),
            final(self).segment_size == old(self).segment_size,
            final(self).max_level == old(self).max_level,
            final(self).upper == old(self).upper,
    {
        self.durable_len = self.level0.len();
        self.durable_next = self.next;
        proof {
            assert(self.segments().subrange(0, self.durable_len as int) =~= self.segments());
            assert(self.graph@.subrange(0, self.durable_next as int) =~= self.graph@);
            assert forall|l: int| 1 <= l <= self.max_level implies #[trigger] self.level(l as nat) == level_seq(self.segments(), self.segment_size as nat, l as nat) by {
                assert(old(self).level(l as nat) == level_seq(old(self).segments(), old(self).segment_size as nat, l as nat));
            }
        }
    }


    /// The stored form of the durable level-0 segments.
    pub fn to_bytes(&self) -> (r: Vec<u8>)
        requires
            self.wf(),
        ensures
            r@ == encode_segments(self.durable_segments()),
    {
        let ghost ds = self.durable_segments();
        let mut out: Vec<u8> = Vec::new();
        let mut i: usize = 0;
        proof {
            assert(ds.subrange(0, 0) =~= Seq::<SegView>::empty());
        }
        while i < self.durable_len
            invariant
                self.wf(),
                ds == self.durable_segments(),
                i <= self.durable_len,
                out@ == encode_segments(ds.subrange(0, i as int)),
            decreases self.durable_len - i,
        {
            let seg = &self.level0[i];
            proof {
                assert(seg@ == ds[i as int]);
                lemma_encode_segments_step(ds, i as int);
            }
            let ghost before = out@;
            push_u64(&mut out, seg.high);
            push_u64(&mut out, seg.parents.len() as u64);
            let ghost mid = out@;
            let mut k: usize = 0;
            proof {
                assert(seg.parents@.subrange(0, 0) =~= Seq::<u64>::empty());
            }
            while k < seg.parents.len()
                invariant
                    k <= seg.parents.len(),
                    out@ == mid + encode_ids(seg.parents@.subrange(0, k as int)),
                decreases seg.parents.len() - k,
            {
                proof {
                    lemma_encode_ids(seg.parents@, k as int);
                }
                push_u64(&mut out, seg.parents[k]);
                k = k + 1;
                assert(out@ =~= mid + encode_ids(seg.parents@.subrange(0, k as int)));
            }
            proof {
                assert(seg.parents@.subrange(0, k as int) =~= seg.parents@);
                assert(out@ =~= before + encode_segment(ds[i as int]));
            }
            i = i + 1;
        }
        proof {
            assert(ds.subrange(0, i as int) =~= ds);
        }
        out
    }

    /// Reads the stored form of an index; every segment read is durable,
    /// and the levels above 0 are built with the given settings. Fails with
    /// `Corruption` where the bytes are not the stored form of segments an
    /// index can hold.
    #[verifier::rlimit(100)]
    pub fn from_bytes(b: &[u8], segment_size: usize, max_level: u8) -> (r: Result<Dag, DagError>)
        requires
            segment_size > 0,
        ensures
            r matches Ok(d) ==> d.wf() && d.durable_segments() == d.segments() && encode_segments(d.segments()) == b@
                && d.segment_size() == segment_size && d.max_level() == max_level,
            r matches Err(e) ==> e == DagError::Corruption,
            forall|segs: Seq<SegView>| storable(segs) && #[trigger] encode_segments(segs) == b@ ==> (r matches Ok(d) && d.segments() == segs),
    {
        let mut d = Dag::new(segment_size, max_level);
        let mut table: Vec<Vec<u64>> = Vec::new();
        let mut pos: usize = 0;
        proof {
            assert(b@.subrange(0, 0) =~= encode_segments(d.segments()));
            assert forall|segs: Seq<SegView>| storable(segs) && #[trigger] encode_segments(segs) == b@ implies d.segments() == segs.subrange(0, 0) by {
                assert(segs.subrange(0, 0) =~= d.segments());
            }
        }
        while pos < b.len()
            invariant
                d.wf(),
                d.segment_size() == segment_size,
                d.max_level() == max_level,
                d.durable_segments() == d.segments(),
                d.durable_next() == d.next_id(),
                table.len() == d.next_id(),
                pos <= b.len(),
                b@.subrange(0, pos as int) == encode_segments(d.segments()),
                forall|segs: Seq<SegView>| storable(segs) && #[trigger] encode_segments(segs) == b@ ==> d.segments().len() <= segs.len() && d.segments() == segs.subrange(0, d.segments().len() as int),
            decreases b.len() - pos,
        {
            let ghost old_segs = d.segments();
            let ghost j = old_segs.len() as int;
            let low = d.next_free_id();
            proof {
                assert forall|segs: Seq<SegView>| storable(segs) && #[trigger] encode_segments(segs) == b@ implies
                    j < segs.len() && pos + encode_segment(segs[j]).len() <= b@.len()
                    && b@.subrange(pos as int, pos + encode_segment(segs[j]).len()) == encode_segment(segs[j])
                    && segs[j].low == low && segs[j].flat && segs[j].low <= segs[j].high && segs[j].high < u64::MAX
                    && (forall|k: int| 0 <= k < segs[j].parents.len() ==> #[trigger] segs[j].parents[k] < low) by {
                    lemma_encode_segments_prefix(segs, j);
                    if j == segs.len() {
                        assert(segs.subrange(0, j) =~= segs);
                    }
                    lemma_encode_segments_step(segs, j);
                    lemma_encode_segments_prefix(segs, j + 1);
                    let e = encode_segments(segs.subrange(0, j + 1));
                    let es = encode_segment(segs[j]);
                    assert(encode_segments(segs.subrange(0, j)).len() == pos);
                    assert(b@.subrange(pos as int, pos + es.len()) =~= es) by {
                        assert forall|q: int| 0 <= q < es.len() implies b@[pos + q] == es[q] by {
                            assert(b@[pos + q] == e[pos + q]);
                        }
                    }
                    assert(d.graph().len() == d.next_id());
                    if j > 0 {
                        assert(segs[j].low == segs[j - 1].high + 1);
                        assert(segs[j - 1] == old_segs[j - 1]);
                        assert(old_segs.last().high + 1 == d.graph().len());
                    } else {
                        assert(segs[0].low == 0);
                    }
                    if j < segs.len() - 1 {
                        assert(segs[j].high < segs[j + 1].low) by {
                            assert(segs[j + 1].low == segs[j].high + 1);
                        }
                        assert(segs[j + 1].low <= segs[j + 1].high);
                        lemma_storable_below_last(segs, j);
                    }
                }
            }
            let (high, ps, end) = match read_segment(b, pos) {
                Some(e) => e,
                None => {
                    return Err(DagError::Corruption);
                },
            };
            if high < low || high == u64::MAX {
                return Err(DagError::Corruption);
            }
            let ghost pv = ps@;
            table.push(ps);
            let mut x: u64 = low + 1;
            while x <= high
                invariant
                    low < x <= high + 1,
                    high < u64::MAX,
                    table.len() == x,
                    table_view(table@)[low as int] == pv,
                    forall|y: int| low < y < x ==> #[trigger] table_view(table@)[y] == seq![(y - 1) as u64],
                decreases high + 1 - x,
            {
                let ghost tb = table_view(table@);
                table.push(vec![x - 1]);
                proof {
                    let tn = table_view(table@);
                    assert(tn[x as int] == seq![(x - 1) as u64]);
                    assert forall|y: int| low < y < x + 1 implies #[trigger] tn[y] == seq![(y - 1) as u64] by {
                        if y < x {
                            assert(tn[y] == tb[y]);
                        }
                    }
                    assert(tn[low as int] == tb[low as int]);
                }
                x = x + 1;
            }
            let ghost before = d;
            let ghost t = table_view(table@);
            proof {
                assert forall|segs: Seq<SegView>| storable(segs) && #[trigger] encode_segments(segs) == b@ implies
                    table_fits(t, low as int, high as int) by {
                    assert(segs[j].high == high && segs[j].parents == pv);
                    assert forall|y: int, k: int| low <= y <= high && 0 <= k < t[y].len() implies #[trigger] t[y][k] < y by {
                        if y == low {
                            assert(segs[j].parents[k] < low);
                        }
                    }
                }
            }
            match d.build_segments_persistent(high, &table) {
                Ok(_) => {},
                Err(_) => {
                    return Err(DagError::Corruption);
                },
            }
            proof {
                lemma_one_segment(old_segs, t, low as int, high + 1);
                let sv = SegView { low, high, flat: true, parents: pv };
                assert(d.segments() == old_segs.push(sv));
                lemma_encode_ids_len(pv);
                assert(encode_segments(d.segments()) == encode_segments(old_segs) + encode_segment(sv)) by {
                    assert(d.segments().drop_last() =~= old_segs);
                }
                assert(b@.subrange(0, end as int) =~= b@.subrange(0, pos as int) + b@.subrange(pos as int, end as int));
                assert forall|segs: Seq<SegView>| storable(segs) && #[trigger] encode_segments(segs) == b@ implies
                    d.segments().len() <= segs.len() && d.segments() == segs.subrange(0, d.segments().len() as int) by {
                    assert(segs[j] == sv);
                    assert(d.segments() =~= segs.subrange(0, j + 1));
                }
            }
            pos = end;
        }
        proof {
            assert(b@.subrange(0, pos as int) =~= b@);
            assert forall|segs: Seq<SegView>| storable(segs) && #[trigger] encode_segments(segs) == b@ implies d.segments() == segs by {
                lemma_encode_segments_prefix(segs, d.segments().len() as int);
                if d.segments().len() < segs.len() {
                    assert(encode_segments(segs.subrange(0, d.segments().len() as int)).len() < encode_segments(segs).len());
                }
                assert(segs.subrange(0, d.segments().len() as int) =~= segs);
            }
        }
        Ok(d)
    }


    /// The durable segments of an index are a list an index can hold, so
    /// reading back their stored form gives them again.
    pub proof fn lemma_store_round_trip(&self)
        requires
            self.wf(),
        ensures
            storable(self.durable_segments()),
    {
        let ds = self.durable_segments();
        let g = self.graph@.subrange(0, self.durable_next as int);
        assert(level0_wf(ds, g));
        lemma_level0_good(ds, g);
        assert forall|i: int, k: int| 0 <= i < ds.len() && 0 <= k < ds[i].parents.len() implies #[trigger] ds[i].parents[k] < ds[i].low by {
            assert(ds[i].flat);
            assert(chain_seg(g, ds[i]));
        }
    }


    /// A chain segment that holds `x`: a flat segment of the highest level
    /// that has one there, else the level-0 segment of `x`.
    fn chain_at(&self, x: u64) -> (r: (u64, u64, Vec<u64>))
        requires
            self.wf(),
            x < self.next_id(),
        ensures
            r.0 <= x <= r.1,
            chain_seg(self.graph(), SegView { low: r.0, high: r.1, flat: true, parents: r.2@ }),
    {
        let ghost g = self.graph@;
        let mut l: u8 = self.max_level;
        while l > 0
            invariant
                self.wf(),
                g == self.graph@,
                l <= self.max_level,
            decreases l,
        {
            let level = &self.upper[l as usize - 1];
            proof {
                let li = l as int;
                assert(self.level(li as nat) == level_seq(self.segments(), self.segment_size as nat, li as nat));
                lemma_levels_good(self.segments(), g, self.segment_size as nat, l as nat);
            }
            match find_in_level(level, x, Ghost(g)) {
                Some(i) => {
                    if level[i].flat {
                        let parents = level[i].parents.clone();
                        proof {
                            assert(parents@ =~= level[i as int].parents@);
                            assert(seg_views(level@)[i as int] == level@[i as int]@);
                            assert(chain_seg(g, level@[i as int]@));
                        }
                        return (level[i].low, level[i].high, parents);
                    }
                },
                None => {},
            }
            l = l - 1;
        }
        let i = self.find_segment(x);
        let parents = self.level0[i].parents.clone();
        proof {
            lemma_level0_good(self.segments(), g);
            assert(parents@ =~= self.level0@[i as int].parents@);
            assert(self.segments()[i as int] == self.level0@[i as int]@);
            assert(self.segments()[i as int].flat);
        }
        (self.level0[i].low, self.level0[i].high, parents)
    }

}

} // verus!
