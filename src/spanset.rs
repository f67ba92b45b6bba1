//! Sets of ids kept as descending, disjoint, non-adjacent closed intervals.
use vstd::prelude::*;

verus! {

/// A closed interval `[low, high]` of ids.
#[derive(Clone, Copy, Debug, PartialEq, Eq, Structural)]
pub struct Span {
    pub low: u64,
    pub high: u64,
}

pub open spec fn span_has(s: Span, x: u64) -> bool {
    s.low <= x && x <= s.high
}

/// Some span with index in `[lo, hi)` holds `x`.
pub open spec fn spans_have(s: Seq<Span>, lo: int, hi: int, x: u64) -> bool {
    exists|k: int| lo <= k < hi && #[trigger] span_has(s[k], x)
}

/// Every span is non-empty, and spans are sorted by descending ids with a
/// gap of at least one id between any two of them.
pub open spec fn canonical(s: Seq<Span>) -> bool {
    &&& forall|i: int| 0 <= i < s.len() ==> (#[trigger] s[i]).low <= s[i].high
    &&& forall|i: int, j: int| 0 <= i < j < s.len() ==> (#[trigger] s[j]).high + 1 < (#[trigger] s[i]).low
}

/// The ids that a span list covers.
pub open spec fn spans_set(s: Seq<Span>) -> Set<u64> {
    Set::new(|x: u64| spans_have(s, 0, s.len() as int, x))
}

/// The number of ids covered, counted span by span.
pub open spec fn spans_count(s: Seq<Span>) -> nat
    decreases s.len(),
{
    if s.len() == 0 {
        0
    } else {
        spans_count(s.drop_last()) + (s.last().high - s.last().low + 1) as nat
    }
}

/// A finite set of ids.
#[derive(Clone, Debug, PartialEq, Eq)]
pub struct SpanSet {
    spans: Vec<Span>,
}

/// Appends `[lo, hi]` below the spans of `out`, merging it into the lowest
/// span where the two touch or overlap.
fn push_span(out: &mut Vec<Span>, lo: u64, hi: u64)
    requires
        lo <= hi,
        canonical(old(out)@),
        old(out).len() > 0 ==> hi <= old(out)@.last().high,
    ensures
        canonical(final(out)@),
        spans_set(final(out)@) == spans_set(old(out)@).union(Set::new(|x: u64| lo <= x <= hi)),
        final(out).len() > 0,
        final(out)@.last().low == if old(out).len() == 0 || hi + 1 < old(out)@.last().low {
            lo
        } else if lo < old(out)@.last().low {
            lo
        } else {
            old(out)@.last().low
        },
        final(out)@.last().high == if old(out).len() == 0 || hi + 1 < old(out)@.last().low {
            hi
        } else {
            old(out)@.last().high
        },
{
    let n = out.len();
    if n > 0 && (hi as u128) + 1 >= out[n - 1].low as u128 {
        let last = out[n - 1];
        let low = if lo < last.low { lo } else { last.low };
        out.set(n - 1, Span { low, high: last.high });
        proof {
            let o = old(out)@;
            let f = out@;
            assert(f == o.update(n - 1, Span { low, high: last.high }));
            assert forall|x: u64| spans_have(f, 0, f.len() as int, x) <==> (spans_have(o, 0, o.len() as int, x) || (lo <= x <= hi)) by {
                if spans_have(o, 0, o.len() as int, x) {
                    let k = choose|k: int| 0 <= k < o.len() && span_has(o[k], x);
                    assert(span_has(f[k], x));
                }
                if lo <= x <= hi {
                    assert(span_has(f[n - 1], x));
                }
                if spans_have(f, 0, f.len() as int, x) {
                    let k = choose|k: int| 0 <= k < f.len() && span_has(f[k], x);
                    if k == n - 1 && !(lo <= x <= hi) {
                        assert(span_has(o[k], x));
                    } else if k != n - 1 {
                        assert(span_has(o[k], x));
                    }
                }
            }
            assert(spans_set(f) =~= spans_set(o).union(Set::new(|x: u64| lo <= x <= hi)));
        }
    } else {
        out.push(Span { low: lo, high: hi });
        proof {
            let o = old(out)@;
            let f = out@;
            assert(f == o.push(Span { low: lo, high: hi }));
            assert forall|x: u64| spans_have(f, 0, f.len() as int, x) <==> (spans_have(o, 0, o.len() as int, x) || (lo <= x <= hi)) by {
                if spans_have(o, 0, o.len() as int, x) {
                    let k = choose|k: int| 0 <= k < o.len() && span_has(o[k], x);
                    assert(span_has(f[k], x));
                }
                if lo <= x <= hi {
                    assert(span_has(f[o.len() as int], x));
                }
                if spans_have(f, 0, f.len() as int, x) {
                    let k = choose|k: int| 0 <= k < f.len() && span_has(f[k], x);
                    if k < o.len() {
                        assert(span_has(o[k], x));
                    }
                }
            }
            assert(spans_set(f) =~= spans_set(o).union(Set::new(|x: u64| lo <= x <= hi)));
        }
    }
}

proof fn lemma_count_prefix(s: Seq<Span>, k: int)
    requires
        0 <= k <= s.len(),
        canonical(s),
    ensures
        spans_count(s.subrange(0, k)) <= spans_count(s),
    decreases s.len() - k,
{
    if k < s.len() {
        lemma_count_prefix(s, k + 1);
        let t = s.subrange(0, k + 1);
        assert(t.drop_last() =~= s.subrange(0, k));
        assert(t.last() == s[k]);
        assert(spans_count(t) == spans_count(s.subrange(0, k)) + (s[k].high - s[k].low + 1) as nat);
    } else {
        assert(s.subrange(0, k) =~= s);
    }
}

/// Two canonical interval lists that cover the same ids are the same list.
pub proof fn lemma_canonical_unique(s: Seq<Span>, t: Seq<Span>)
    requires
        canonical(s),
        canonical(t),
        spans_set(s) == spans_set(t),
    ensures
        s == t,
    decreases s.len(),
{
    if s.len() == 0 {
        if t.len() > 0 {
            assert(span_has(t[0], t[0].low));
            assert(spans_set(t).contains(t[0].low));
        }
        assert(s =~= t);
    } else {
        assert(span_has(s[0], s[0].low));
        assert(spans_set(s).contains(s[0].low));
        assert(t.len() > 0);
        let (a, b) = (s[0], t[0]);
        assert(spans_set(s).contains(a.high)) by {
            assert(span_has(s[0], a.high));
        }
        assert(spans_set(t).contains(b.high)) by {
            assert(span_has(t[0], b.high));
        }
        // The highest ids agree.
        let ka = choose|k: int| 0 <= k < t.len() && span_has(t[k], a.high);
        if ka > 0 {
            assert(t[ka].high + 1 < t[0].low);
        }
        let kb = choose|k: int| 0 <= k < s.len() && span_has(s[k], b.high);
        if kb > 0 {
            assert(s[kb].high + 1 < s[0].low);
        }
        assert(a.high == b.high);
        // So do the lowest ids of the top intervals.
        if a.low < b.low {
            let y = (b.low - 1) as u64;
            assert(span_has(s[0], y));
            assert(spans_set(s).contains(y));
            let k = choose|k: int| 0 <= k < t.len() && span_has(t[k], y);
            if k > 0 {
                assert(t[k].high + 1 < t[0].low);
            }
        }
        if b.low < a.low {
            let y = (a.low - 1) as u64;
            assert(span_has(t[0], y));
            assert(spans_set(t).contains(y));
            let k = choose|k: int| 0 <= k < s.len() && span_has(s[k], y);
            if k > 0 {
                assert(s[k].high + 1 < s[0].low);
            }
        }
        assert(a == b);
        let s2 = s.subrange(1, s.len() as int);
        let t2 = t.subrange(1, t.len() as int);
        assert(canonical(s2)) by {
            assert forall|i: int, j: int| 0 <= i < j < s2.len() implies (#[trigger] s2[j]).high + 1 < (#[trigger] s2[i]).low by {
                assert(s2[j] == s[j + 1] && s2[i] == s[i + 1]);
            }
        }
        assert(canonical(t2)) by {
            assert forall|i: int, j: int| 0 <= i < j < t2.len() implies (#[trigger] t2[j]).high + 1 < (#[trigger] t2[i]).low by {
                assert(t2[j] == t[j + 1] && t2[i] == t[i + 1]);
            }
        }
        assert forall|x: u64| #[trigger] spans_set(s2).contains(x) <==> spans_set(t2).contains(x) by {
            if spans_set(s2).contains(x) {
                let k = choose|k: int| 0 <= k < s2.len() && span_has(s2[k], x);
                assert(span_has(s[k + 1], x));
                assert(spans_set(t).contains(x));
                assert(s[k + 1].high + 1 < s[0].low);
                let j = choose|j: int| 0 <= j < t.len() && span_has(t[j], x);
                assert(j > 0);
                assert(span_has(t2[j - 1], x));
            }
            if spans_set(t2).contains(x) {
                let k = choose|k: int| 0 <= k < t2.len() && span_has(t2[k], x);
                assert(span_has(t[k + 1], x));
                assert(spans_set(s).contains(x));
                assert(t[k + 1].high + 1 < t[0].low);
                let j = choose|j: int| 0 <= j < s.len() && span_has(s[j], x);
                assert(j > 0);
                assert(span_has(s2[j - 1], x));
            }
        }
        assert(spans_set(s2) =~= spans_set(t2));
        lemma_canonical_unique(s2, t2);
        assert(s =~= seq![a] + s2);
        assert(t =~= seq![b] + t2);
    }
}

/// Two sets with the same ids have the same intervals.
pub proof fn lemma_same_ids_same_spans(a: SpanSet, b: SpanSet)
    requires
        a.wf(),
        b.wf(),
        a@ == b@,
    ensures
        a.spans() == b.spans(),
{
    lemma_canonical_unique(a.spans(), b.spans());
}

/// Union does not depend on the order of its operands; intersecting a set
/// with its union with another gives the set back; a set less itself is
/// empty.
pub proof fn lemma_algebra(x: SpanSet, y: SpanSet)
    requires
        x.wf(),
        y.wf(),
    ensures
        x@.union(y@) == y@.union(x@),
        x@.intersect(x@.union(y@)) == x@,
        x@.difference(x@) == Set::<u64>::empty(),
{
    assert(x@.union(y@) =~= y@.union(x@));
    assert(x@.intersect(x@.union(y@)) =~= x@);
    assert(x@.difference(x@) =~= Set::<u64>::empty());
}

/// Listing the ids of a set and building a set from that list gives the
/// same intervals back.
pub proof fn lemma_ids_round_trip(s: SpanSet, ids: Seq<u64>, r: SpanSet)
    requires
        s.wf(),
        ids.to_set() == s@,
        r.wf(),
        r@ == ids.to_set(),
    ensures
        r.spans() == s.spans(),
{
    lemma_canonical_unique(r.spans(), s.spans());
}

/// The ids from `lo` to `hi` form a finite set of `hi - lo + 1` ids.
proof fn lemma_range_len(lo: u64, hi: u64)
    requires
        lo <= hi,
    ensures
        Set::new(|x: u64| lo <= x <= hi).finite(),
        Set::new(|x: u64| lo <= x <= hi).len() == hi - lo + 1,
    decreases hi - lo,
{
    let r = Set::new(|x: u64| lo <= x <= hi);
    if lo == hi {
        assert(r =~= Set::<u64>::empty().insert(lo));
    } else {
        let r0 = Set::new(|x: u64| lo <= x <= (hi - 1) as u64);
        lemma_range_len(lo, (hi - 1) as u64);
        assert(r =~= r0.insert(hi));
    }
}

/// A canonical interval list covers a finite set of as many ids as its
/// intervals hold together.
pub proof fn lemma_count_is_len(s: Seq<Span>)
    requires
        canonical(s),
    ensures
        spans_set(s).finite(),
        spans_set(s).len() == spans_count(s),
    decreases s.len(),
{
    if s.len() == 0 {
        assert(spans_set(s) =~= Set::<u64>::empty());
    } else {
        let t = s.drop_last();
        let last = s.last();
        assert(canonical(t)) by {
            assert forall|i: int, j: int| 0 <= i < j < t.len() implies (#[trigger] t[j]).high + 1 < (#[trigger] t[i]).low by {
                assert(t[j] == s[j] && t[i] == s[i]);
            }
            assert forall|i: int| 0 <= i < t.len() implies (#[trigger] t[i]).low <= t[i].high by {
                assert(t[i] == s[i]);
            }
        }
        lemma_count_is_len(t);
        assert(last.low <= last.high);
        lemma_range_len(last.low, last.high);
        let r = Set::new(|x: u64| last.low <= x <= last.high);
        assert(spans_set(s) =~= spans_set(t) + r) by {
            assert forall|x: u64| #[trigger] spans_set(s).contains(x) <==> (spans_set(t) + r).contains(x) by {
                if spans_set(s).contains(x) {
                    let k = choose|k: int| 0 <= k < s.len() && span_has(s[k], x);
                    if k < s.len() - 1 {
                        assert(span_has(t[k], x));
                    }
                }
                if spans_set(t).contains(x) {
                    let k = choose|k: int| 0 <= k < t.len() && span_has(t[k], x);
                    assert(span_has(s[k], x));
                }
                if r.contains(x) {
                    assert(span_has(s[s.len() - 1], x));
                }
            }
        }
        assert(spans_set(t).disjoint(r)) by {
            assert forall|x: u64| spans_set(t).contains(x) implies !r.contains(x) by {
                let k = choose|k: int| 0 <= k < t.len() && span_has(t[k], x);
                assert(s[s.len() - 1].high + 1 < s[k].low);
            }
        }
        vstd::set_lib::lemma_set_disjoint_lens(spans_set(t), r);
    }
}

impl SpanSet {
    pub closed spec fn spans(&self) -> Seq<Span> {
        self.spans@
    }

    pub open spec fn wf(&self) -> bool {
        canonical(self.spans())
    }

    pub open spec fn view(&self) -> Set<u64> {
        spans_set(self.spans())
    }

    pub fn empty() -> (r: SpanSet)
        ensures
            r.wf(),
            r@ == Set::<u64>::empty(),
    {
        let r = SpanSet { spans: Vec::new() };
        assert(r@ =~= Set::<u64>::empty());
        r
    }

    /// The ids from `low` to `high`, both included.
    pub fn from_range(low: u64, high: u64) -> (r: SpanSet)
        ensures
            r.wf(),
            r@ == Set::new(|x: u64| low <= x <= high),
    {
        let mut spans: Vec<Span> = Vec::new();
        if low <= high {
            push_span(&mut spans, low, high);
            assert(spans_set(Seq::<Span>::empty()) =~= Set::<u64>::empty());
        }
        let r = SpanSet { spans };
        assert(r@ =~= Set::new(|x: u64| low <= x <= high));
        r
    }

    /// Whether `id` is in the set.
    pub fn contains(&self, id: u64) -> (r: bool)
        requires
            self.wf(),
        ensures
            r == self@.contains(id),
    {
        let n = self.spans.len();
        let mut lo: usize = 0;
        let mut hi: usize = n;
        // Binary search for the first span whose low end is at most `id`.
        while lo < hi
            invariant
                self.wf(),
                n == self.spans@.len(),
                lo <= hi <= n,
                forall|k: int| 0 <= k < lo ==> self.spans@[k].low > id,
                forall|k: int| hi <= k < n ==> self.spans@[k].low <= id,
            decreases hi - lo,
        {
            let mid = lo + (hi - lo) / 2;
            if self.spans[mid].low > id {
                lo = mid + 1;
            } else {
                hi = mid;
            }
        }
        let r = lo < n && id <= self.spans[lo].high;
        proof {
            let s = self.spans@;
            if spans_have(s, 0, n as int, id) {
                let k = choose|k: int| 0 <= k < n && span_has(s[k], id);
                if k < lo {
                } else if k > lo {
                    assert(s[k].high + 1 < s[lo as int].low);
                }
            }
            if r {
                assert(span_has(s[lo as int], id));
            }
        }
        r
    }

    /// The largest id, or `None` for the empty set.
    pub fn max(&self) -> (r: Option<u64>)
        requires
            self.wf(),
        ensures
            r is None <==> self@ == Set::<u64>::empty(),
            r matches Some(m) ==> self@.contains(m) && forall|x: u64| #[trigger] self@.contains(x) ==> x <= m,
    {
        if self.spans.len() == 0 {
            assert(self@ =~= Set::<u64>::empty());
            None
        } else {
            let m = self.spans[0].high;
            proof {
                let s = self.spans@;
                assert(span_has(s[0], m));
                assert(self@.contains(m));
                assert forall|x: u64| #[trigger] self@.contains(x) implies x <= m by {
                    let k = choose|k: int| 0 <= k < s.len() && span_has(s[k], x);
                    if k > 0 {
                        assert(s[k].high + 1 < s[0].low);
                    }
                }
            }
            Some(m)
        }
    }

    /// The smallest id, or `None` for the empty set.
    pub fn min(&self) -> (r: Option<u64>)
        requires
            self.wf(),
        ensures
            r is None <==> self@ == Set::<u64>::empty(),
            r matches Some(m) ==> self@.contains(m) && forall|x: u64| #[trigger] self@.contains(x) ==> m <= x,
    {
        let n = self.spans.len();
        if n == 0 {
            assert(self@ =~= Set::<u64>::empty());
            None
        } else {
            let m = self.spans[n - 1].low;
            proof {
                let s = self.spans@;
                assert(span_has(s[n - 1], m));
                assert(self@.contains(m));
                assert forall|x: u64| #[trigger] self@.contains(x) implies m <= x by {
                    let k = choose|k: int| 0 <= k < s.len() && span_has(s[k], x);
                    if k < n - 1 {
                        assert(s[n - 1].high + 1 < s[k].low);
                    }
                }
            }
            Some(m)
        }
    }

    /// All ids in either set, by one merge over both interval lists.
    pub fn union(&self, other: &SpanSet) -> (r: SpanSet)
        requires
            self.wf(),
            other.wf(),
        ensures
            r.wf(),
            r@ == self@.union(other@),
    {
        let a = &self.spans;
        let b = &other.spans;
        let mut out: Vec<Span> = Vec::new();
        let mut i: usize = 0;
        let mut j: usize = 0;
        while i < a.len() || j < b.len()
            invariant
                canonical(a@),
                canonical(b@),
                canonical(out@),
                i <= a.len(),
                j <= b.len(),
                forall|x: u64| #[trigger] spans_set(out@).contains(x) <==> (spans_have(a@, 0, i as int, x) || spans_have(b@, 0, j as int, x)),
                out.len() > 0 ==> (i < a.len() ==> a@[i as int].high <= out@.last().high),
                out.len() > 0 ==> (j < b.len() ==> b@[j as int].high <= out@.last().high),
            decreases a.len() + b.len() - i - j,
        {
            let take_a = j >= b.len() || (i < a.len() && a[i].high >= b[j].high);
            let s = if take_a { a[i] } else { b[j] };
            push_span(&mut out, s.low, s.high);
            let ghost i0 = i as int;
            let ghost j0 = j as int;
            if take_a {
                i = i + 1;
            } else {
                j = j + 1;
            }
            proof {
                if take_a {
                    if i < a.len() {
                        assert(a@[i as int].high + 1 < a@[i0].low);
                    }
                } else {
                    if j < b.len() {
                        assert(b@[j as int].high + 1 < b@[j0].low);
                    }
                }
                assert forall|x: u64| #[trigger] spans_set(out@).contains(x) <==> (spans_have(a@, 0, i as int, x) || spans_have(b@, 0, j as int, x)) by {
                    if spans_have(a@, 0, i as int, x) {
                        let k = choose|k: int| 0 <= k < i && span_has(a@[k], x);
                        if k < i0 {
                            assert(spans_have(a@, 0, i0, x));
                        }
                    }
                    if spans_have(b@, 0, j as int, x) {
                        let k = choose|k: int| 0 <= k < j && span_has(b@[k], x);
                        if k < j0 {
                            assert(spans_have(b@, 0, j0, x));
                        }
                    }
                    if span_has(s, x) {
                        if take_a {
                            assert(span_has(a@[i0], x));
                        } else {
                            assert(span_has(b@[j0], x));
                        }
                    }
                }
            }
        }
        let r = SpanSet { spans: out };
        assert(r@ =~= self@.union(other@));
        r
    }

    /// All ids in both sets, by one merge over both interval lists.
    pub fn intersection(&self, other: &SpanSet) -> (r: SpanSet)
        requires
            self.wf(),
            other.wf(),
        ensures
            r.wf(),
            r@ == self@.intersect(other@),
    {
        let a = &self.spans;
        let b = &other.spans;
        let mut out: Vec<Span> = Vec::new();
        let mut i: usize = 0;
        let mut j: usize = 0;
        while i < a.len() && j < b.len()
            invariant
                canonical(a@),
                canonical(b@),
                canonical(out@),
                i <= a.len(),
                j <= b.len(),
                forall|x: u64| #[trigger] spans_set(out@).contains(x) || (spans_have(a@, i as int, a.len() as int, x) && spans_have(b@, j as int, b.len() as int, x))
                    <==> (spans_have(a@, 0, a.len() as int, x) && spans_have(b@, 0, b.len() as int, x)),
                out.len() > 0 ==> (i < a.len() && j < b.len() ==> (a@[i as int].high <= out@.last().high || b@[j as int].high <= out@.last().high)),
            decreases a.len() + b.len() - i - j,
        {
            let sa = a[i];
            let sb = b[j];
            let lo = if sa.low > sb.low { sa.low } else { sb.low };
            let hi = if sa.high < sb.high { sa.high } else { sb.high };
            if lo <= hi {
                push_span(&mut out, lo, hi);
            }
            let advance_a = sa.low >= sb.low;
            proof {
                let al = a.len() as int;
                let bl = b.len() as int;
                assert forall|x: u64|
                    (spans_have(a@, i as int, al, x) && spans_have(b@, j as int, bl, x)) <==>
                    ((span_has(sa, x) && span_has(sb, x)) || (
                        if advance_a { spans_have(a@, i + 1, al, x) && spans_have(b@, j as int, bl, x) }
                        else { spans_have(a@, i as int, al, x) && spans_have(b@, j + 1, bl, x) })) by {
                    if spans_have(a@, i as int, al, x) && spans_have(b@, j as int, bl, x) {
                        let ka = choose|k: int| i <= k < al && span_has(a@[k], x);
                        let kb = choose|k: int| j <= k < bl && span_has(b@[k], x);
                        if ka > i {
                            assert(a@[ka].high + 1 < a@[i as int].low);
                        }
                        if kb > j {
                            assert(b@[kb].high + 1 < b@[j as int].low);
                        }
                        if ka == i && kb == j {
                        } else if advance_a {
                            assert(spans_have(a@, i + 1, al, x));
                        } else {
                            assert(spans_have(b@, j + 1, bl, x));
                        }
                    }
                    if span_has(sa, x) && span_has(sb, x) {
                        assert(span_has(a@[i as int], x));
                        assert(span_has(b@[j as int], x));
                    }
                    if advance_a && spans_have(a@, i + 1, al, x) {
                        let ka = choose|k: int| i + 1 <= k < al && span_has(a@[k], x);
                        assert(span_has(a@[ka], x));
                    }
                    if !advance_a && spans_have(b@, j + 1, bl, x) {
                        let kb = choose|k: int| j + 1 <= k < bl && span_has(b@[k], x);
                        assert(span_has(b@[kb], x));
                    }
                }
                if advance_a && i + 1 < al {
                    assert(a@[i + 1].high + 1 < a@[i as int].low);
                }
                if !advance_a && j + 1 < bl {
                    assert(b@[j + 1].high + 1 < b@[j as int].low);
                }
            }
            let ghost before = spans_set(out@);
            if advance_a {
                i = i + 1;
            } else {
                j = j + 1;
            }
            proof {
                assert forall|x: u64| #[trigger] spans_set(out@).contains(x) || (spans_have(a@, i as int, a.len() as int, x) && spans_have(b@, j as int, b.len() as int, x))
                    <==> (spans_have(a@, 0, a.len() as int, x) && spans_have(b@, 0, b.len() as int, x)) by {
                    if lo <= hi && lo <= x <= hi {
                        assert(span_has(sa, x) && span_has(sb, x));
                    }
                    if span_has(sa, x) && span_has(sb, x) {
                        assert(lo <= x <= hi);
                    }
                }
            }
        }
        let r = SpanSet { spans: out };
        assert(r@ =~= self@.intersect(other@));
        r
    }

    /// All ids that are not in the set.
    pub fn complement(&self) -> (r: SpanSet)
        requires
            self.wf(),
        ensures
            r.wf(),
            forall|x: u64| #[trigger] r@.contains(x) <==> !self@.contains(x),
    {
        let b = &self.spans;
        let n = b.len();
        let mut out: Vec<Span> = Vec::new();
        // Ids above the spans seen so far are all placed; `open_top` tells
        // whether any id is left below them, and `top` is the largest such id.
        let mut open_top = true;
        let mut top: u64 = u64::MAX;
        let mut k: usize = 0;
        while k < n && open_top
            invariant
                canonical(b@),
                canonical(out@),
                n == b.len(),
                k <= n,
                k == 0 ==> open_top && top == u64::MAX,
                k > 0 && open_top ==> top as int == b@[k - 1].low - 1,
                k > 0 && !open_top ==> b@[k - 1].low == 0,
                out.len() > 0 && open_top ==> top < out@.last().low,
                forall|x: u64| #[trigger] spans_set(out@).contains(x) <==>
                    ((!open_top || x > top) && !spans_have(b@, 0, k as int, x)),
            decreases n - k,
        {
            let s = b[k];
            if s.high < top {
                push_span(&mut out, s.high + 1, top);
            }
            proof {
                if k > 0 {
                    assert(s.high + 1 < b@[k - 1].low);
                }
                assert forall|x: u64| spans_have(b@, 0, k + 1, x) <==> (spans_have(b@, 0, k as int, x) || span_has(s, x)) by {
                    if spans_have(b@, 0, k + 1, x) {
                        let j = choose|j: int| 0 <= j < k + 1 && span_has(b@[j], x);
                    }
                }
                assert forall|x: u64| spans_have(b@, 0, k as int, x) implies x > top by {
                    let j = choose|j: int| 0 <= j < k && span_has(b@[j], x);
                    if j < k - 1 {
                        assert(b@[k - 1].high + 1 < b@[j].low);
                    }
                }
            }
            let ghost top0 = top;
            let ghost k0 = k as int;
            if s.low == 0 {
                open_top = false;
            } else {
                top = s.low - 1;
            }
            k = k + 1;
            proof {
                assert forall|x: u64| #[trigger] spans_set(out@).contains(x) <==>
                    ((!open_top || x > top) && !spans_have(b@, 0, k as int, x)) by {
                    if spans_have(b@, 0, k0, x) {
                        assert(spans_have(b@, 0, k as int, x));
                    }
                    if span_has(s, x) {
                        assert(span_has(b@[k0], x));
                    }
                }
            }
        }
        if open_top {
            proof {
                if out.len() > 0 {
                    assert(top < out@.last().low);
                }
            }
            push_span(&mut out, 0, top);
        }
        proof {
            if k < n {
                assert forall|x: u64| spans_have(b@, 0, n as int, x) implies spans_have(b@, 0, k as int, x) by {
                    let j = choose|j: int| 0 <= j < n && span_has(b@[j], x);
                    if j >= k {
                        assert(b@[j].high + 1 < b@[k - 1].low);
                    }
                }
            }
        }
        SpanSet { spans: out }
    }

    /// The ids of `self` that are not in `other`.
    pub fn difference(&self, other: &SpanSet) -> (r: SpanSet)
        requires
            self.wf(),
            other.wf(),
        ensures
            r.wf(),
            r@ == self@.difference(other@),
    {
        let c = other.complement();
        let r = self.intersection(&c);
        assert(r@ =~= self@.difference(other@));
        r
    }


    /// The set of the given ids, in any order and with repeats allowed.
    pub fn from_spans(ids: Vec<u64>) -> (r: SpanSet)
        ensures
            r.wf(),
            r@ == ids@.to_set(),
    {
        let mut r = SpanSet::empty();
        let mut i: usize = 0;
        while i < ids.len()
            invariant
                r.wf(),
                i <= ids.len(),
                forall|x: u64| #[trigger] r@.contains(x) <==> exists|k: int| 0 <= k < i && ids@[k] == x,
            decreases ids.len() - i,
        {
            let one = SpanSet::from_range(ids[i], ids[i]);
            r = r.union(&one);
            i = i + 1;
            proof {
                assert forall|x: u64| #[trigger] r@.contains(x) <==> exists|k: int| 0 <= k < i && ids@[k] == x by {
                    if x == ids@[i - 1] {
                        assert(ids@[i - 1] == x);
                    }
                }
            }
        }
        assert(r@ =~= ids@.to_set());
        r
    }

    /// The ids of the set from the largest down.
    pub fn iter_desc(&self) -> (r: Vec<u64>)
        requires
            self.wf(),
        ensures
            forall|i: int, j: int| 0 <= i < j < r.len() ==> r@[i] > r@[j],
            r@.to_set() == self@,
    {
        let a = &self.spans;
        let n = a.len();
        let mut r: Vec<u64> = Vec::new();
        let mut k: usize = 0;
        while k < n
            invariant
                canonical(a@),
                n == a.len(),
                k <= n,
                forall|i: int, j: int| 0 <= i < j < r.len() ==> r@[i] > r@[j],
                forall|y: u64| #[trigger] r@.contains(y) <==> spans_have(a@, 0, k as int, y),
                r.len() > 0 && k < n ==> a@[k as int].high < r@.last(),
            decreases n - k,
        {
            let s = a[k];
            let ghost base = r@;
            let mut x: u64 = s.high;
            let mut done = false;
            while !done
                invariant
                    canonical(a@),
                    s == a@[k as int],
                    k < n,
                    n == a.len(),
                    s.low <= x <= s.high,
                    done ==> x == s.low,
                    r.len() > 0 ==> (!done ==> x < r@.last()) && (done ==> x == r@.last()),
                    r@.len() >= base.len(),
                    r@.subrange(0, base.len() as int) == base,
                    forall|i: int, j: int| 0 <= i < j < r.len() ==> r@[i] > r@[j],
                    forall|y: u64| #[trigger] r@.contains(y) <==> (base.contains(y) || (x < y <= s.high) || (done && y == x)),
                decreases x - s.low + (if done { 0int } else { 1int }),
            {
                let ghost before = r@;
                r.push(x);
                proof {
                    assert forall|y: u64| #[trigger] r@.contains(y) <==> (before.contains(y) || y == x) by {
                        if r@.contains(y) {
                            let i = choose|i: int| 0 <= i < r@.len() && r@[i] == y;
                            if i < before.len() {
                                assert(before[i] == y);
                            }
                        }
                        if before.contains(y) {
                            let i = choose|i: int| 0 <= i < before.len() && before[i] == y;
                            assert(r@[i] == y);
                        }
                        if y == x {
                            assert(r@[before.len() as int] == y);
                        }
                    }
                    assert(r@.subrange(0, base.len() as int) =~= base);
                }
                if x == s.low {
                    done = true;
                } else {
                    x = x - 1;
                }
            }
            k = k + 1;
            proof {
                assert forall|y: u64| #[trigger] r@.contains(y) <==> spans_have(a@, 0, k as int, y) by {
                    if spans_have(a@, 0, k as int, y) {
                        let j = choose|j: int| 0 <= j < k && span_has(a@[j], y);
                        if j < k - 1 {
                            assert(spans_have(a@, 0, k - 1, y));
                        }
                    }
                    if span_has(s, y) {
                        assert(span_has(a@[k - 1], y));
                    }
                }
                if r.len() > 0 && k < n {
                    assert(a@[k as int].high + 1 < a@[k - 1].low);
                }
            }
        }
        assert(r@.to_set() =~= self@);
        r
    }

    /// The ids of the set from the smallest up.
    pub fn iter_asc(&self) -> (r: Vec<u64>)
        requires
            self.wf(),
        ensures
            forall|i: int, j: int| 0 <= i < j < r.len() ==> r@[i] < r@[j],
            r@.to_set() == self@,
    {
        let d = self.iter_desc();
        let n = d.len();
        let mut r: Vec<u64> = Vec::new();
        let mut i: usize = 0;
        while i < n
            invariant
                n == d.len(),
                i <= n,
                r.len() == i,
                forall|k: int| 0 <= k < i ==> r@[k] == d@[n - 1 - k],
            decreases n - i,
        {
            r.push(d[n - 1 - i]);
            i = i + 1;
        }
        proof {
            assert forall|a: int, b: int| 0 <= a < b < r.len() implies r@[a] < r@[b] by {
                assert(d@[n - 1 - b] > d@[n - 1 - a]);
            }
            assert forall|y: u64| #[trigger] r@.contains(y) <==> d@.contains(y) by {
                if r@.contains(y) {
                    let k = choose|k: int| 0 <= k < r@.len() && r@[k] == y;
                    assert(d@[n - 1 - k] == y);
                }
                if d@.contains(y) {
                    let k = choose|k: int| 0 <= k < d@.len() && d@[k] == y;
                    assert(r@[n - 1 - k] == y);
                }
            }
            assert(r@.to_set() =~= d@.to_set());
        }
        r
    }

    /// The number of ids in the set. The set of all `u64` ids, whose size
    /// does not fit, is left out.
    pub fn count(&self) -> (r: u64)
        requires
            self.wf(),
            self@.len() <= u64::MAX,
        ensures
            r == self@.len(),
            r == spans_count(self.spans()),
    {
        proof {
            lemma_count_is_len(self.spans());
        }
        let a = &self.spans;
        let mut total: u64 = 0;
        let mut k: usize = 0;
        while k < a.len()
            invariant
                canonical(a@),
                k <= a.len(),
                spans_count(a@) <= u64::MAX,
                total == spans_count(a@.subrange(0, k as int)),
            decreases a.len() - k,
        {
            proof {
                assert(a@.subrange(0, k + 1).drop_last() =~= a@.subrange(0, k as int));
                lemma_count_prefix(a@, k + 1);
            }
            total = total + (a[k].high - a[k].low + 1);
            k = k + 1;
        }
        assert(a@.subrange(0, k as int) =~= a@);
        total
    }


    /// The same set, as a new value.
    pub fn copy(&self) -> (r: SpanSet)
        requires
            self.wf(),
        ensures
            r.wf(),
            r@ == self@,
            r.spans() == self.spans(),
    {
        let spans = self.spans.clone();
        assert(spans@ =~= self.spans@);
        SpanSet { spans }
    }

    /// The number of intervals.
    pub fn span_count(&self) -> (r: usize)
        ensures
            r == self.spans().len(),
    {
        self.spans.len()
    }

    /// The interval at position `i`, counted from the highest.
    pub fn span_at(&self, i: usize) -> (r: Span)
        requires
            i < self.spans().len(),
        ensures
            r == self.spans()[i as int],
    {
        self.spans[i]
    }

    /// The set with every id lowered by one.
    pub fn shift_down(&self) -> (r: SpanSet)
        requires
            self.wf(),
            !self@.contains(0),
        ensures
            r.wf(),
            forall|x: u64| #[trigger] r@.contains(x) <==> (x < u64::MAX && self@.contains((x + 1) as u64)),
    {
        let a = &self.spans;
        let n = a.len();
        let mut out: Vec<Span> = Vec::new();
        let mut k: usize = 0;
        proof {
            if n > 0 {
                assert(span_has(a@[n - 1], a@[n - 1].low));
                assert(a@[n - 1].low > 0);
            }
        }
        while k < n
            invariant
                canonical(a@),
                n == a.len(),
                k <= n,
                n > 0 ==> a@[n - 1].low > 0,
                out.len() == k,
                forall|i: int| 0 <= i < k ==> (#[trigger] out@[i]).low == a@[i].low - 1 && out@[i].high == a@[i].high - 1,
            decreases n - k,
        {
            proof {
                if k < n - 1 {
                    assert(a@[n - 1].high + 1 < a@[k as int].low);
                }
            }
            out.push(Span { low: a[k].low - 1, high: a[k].high - 1 });
            k = k + 1;
        }
        proof {
            assert forall|x: u64| #[trigger] spans_set(out@).contains(x) <==> (x < u64::MAX && self@.contains((x + 1) as u64)) by {
                if spans_set(out@).contains(x) {
                    let i = choose|i: int| 0 <= i < out@.len() && span_has(out@[i], x);
                    assert(span_has(a@[i], (x + 1) as u64));
                }
                if x < u64::MAX && self@.contains((x + 1) as u64) {
                    let i = choose|i: int| 0 <= i < n && span_has(a@[i], (x + 1) as u64);
                    assert(span_has(out@[i], x));
                }
            }
        }
        SpanSet { spans: out }
    }

}

} // verus!
