//! Bounded top-K / bottom-K extraction over centrality scores, with a
//! deterministic tie-break.

use vstd::prelude::*;
use crate::centrality::Centrality;

verus! {

/// The capacity used for the top and bottom sets when nothing else is
/// asked for.
pub const DEFAULT_CAPACITY: usize = 20;

/// One ranked entry: a score together with the handle of the node that
/// earned it.
#[derive(Clone, Copy, Debug, PartialEq, Eq, Structural)]
pub struct Entry {
    pub score: Centrality,
    pub node: usize,
}

/// The rational `a` is strictly smaller than `b`, by cross
/// multiplication.
pub open spec fn frac_lt(a: Centrality, b: Centrality) -> bool {
    a.num * b.den < b.num * a.den
}

/// The rationals `a` and `b` have equal value.
pub open spec fn frac_eq(a: Centrality, b: Centrality) -> bool {
    a.num * b.den == b.num * a.den
}

/// `a` ranks strictly ahead of `b` in the top order: larger score first,
/// smaller node handle first on ties of value.
pub open spec fn top_before(a: Entry, b: Entry) -> bool {
    frac_lt(b.score, a.score) || (frac_eq(a.score, b.score) && a.node < b.node)
}

/// `a` ranks strictly ahead of `b` in the bottom order: smaller score
/// first, smaller node handle first on ties of value.
pub open spec fn bottom_before(a: Entry, b: Entry) -> bool {
    frac_lt(a.score, b.score) || (frac_eq(a.score, b.score) && a.node < b.node)
}

/// The order used by a ranked set: the top order or the bottom order.
pub open spec fn before(toward_top: bool, a: Entry, b: Entry) -> bool {
    if toward_top {
        top_before(a, b)
    } else {
        bottom_before(a, b)
    }
}

/// Entries with distinct handles are strictly ordered one way or the
/// other.
pub proof fn lemma_before_total(toward_top: bool, a: Entry, b: Entry)
    requires
        a.node != b.node,
    ensures
        before(toward_top, a, b) || before(toward_top, b, a),
{
}

/// Strict inequality of positive-denominator rationals is transitive.
pub proof fn lemma_frac_lt_trans(a: Centrality, b: Centrality, c: Centrality)
    requires
        a.den >= 1,
        b.den >= 1,
        c.den >= 1,
        frac_lt(a, b),
        frac_lt(b, c),
    ensures
        frac_lt(a, c),
{
    assert((a.num * c.den) * b.den < (c.num * a.den) * b.den) by (nonlinear_arith)
        requires
            a.den >= 1,
            b.den >= 1,
            c.den >= 1,
            a.num * b.den < b.num * a.den,
            b.num * c.den < c.num * b.den,
    ;
    assert(a.num * c.den < c.num * a.den) by (nonlinear_arith)
        requires
            b.den >= 1,
            (a.num * c.den) * b.den < (c.num * a.den) * b.den,
    ;
}

/// A strict inequality survives replacing one side by an equal value.
pub proof fn lemma_frac_lt_eq_trans(a: Centrality, b: Centrality, c: Centrality)
    requires
        a.den >= 1,
        b.den >= 1,
        c.den >= 1,
        frac_lt(a, b),
        frac_eq(b, c),
    ensures
        frac_lt(a, c),
{
    assert((a.num * c.den) * b.den < (c.num * a.den) * b.den) by (nonlinear_arith)
        requires
            a.den >= 1,
            b.den >= 1,
            c.den >= 1,
            a.num * b.den < b.num * a.den,
            b.num * c.den == c.num * b.den,
    ;
    assert(a.num * c.den < c.num * a.den) by (nonlinear_arith)
        requires
            b.den >= 1,
            (a.num * c.den) * b.den < (c.num * a.den) * b.den,
    ;
}

/// A strict inequality survives replacing the other side by an equal
/// value.
pub proof fn lemma_frac_eq_lt_trans(a: Centrality, b: Centrality, c: Centrality)
    requires
        a.den >= 1,
        b.den >= 1,
        c.den >= 1,
        frac_eq(a, b),
        frac_lt(b, c),
    ensures
        frac_lt(a, c),
{
    assert((a.num * c.den) * b.den < (c.num * a.den) * b.den) by (nonlinear_arith)
        requires
            a.den >= 1,
            b.den >= 1,
            c.den >= 1,
            a.num * b.den == b.num * a.den,
            b.num * c.den < c.num * b.den,
    ;
    assert(a.num * c.den < c.num * a.den) by (nonlinear_arith)
        requires
            b.den >= 1,
            (a.num * c.den) * b.den < (c.num * a.den) * b.den,
    ;
}

/// Equality of positive-denominator rationals is transitive.
pub proof fn lemma_frac_eq_trans(a: Centrality, b: Centrality, c: Centrality)
    requires
        a.den >= 1,
        b.den >= 1,
        c.den >= 1,
        frac_eq(a, b),
        frac_eq(b, c),
    ensures
        frac_eq(a, c),
{
    assert((a.num * c.den) * b.den == (c.num * a.den) * b.den) by (nonlinear_arith)
        requires
            a.num * b.den == b.num * a.den,
            b.num * c.den == c.num * b.den,
    ;
    assert(a.num * c.den == c.num * a.den) by (nonlinear_arith)
        requires
            b.den >= 1,
            (a.num * c.den) * b.den == (c.num * a.den) * b.den,
    ;
}

/// Both rank orders are transitive over entries with positive
/// denominators.
pub proof fn lemma_before_trans(toward_top: bool, a: Entry, b: Entry, c: Entry)
    requires
        a.score.den >= 1,
        b.score.den >= 1,
        c.score.den >= 1,
        before(toward_top, a, b),
        before(toward_top, b, c),
    ensures
        before(toward_top, a, c),
{
    if toward_top {
        if frac_lt(b.score, a.score) && frac_lt(c.score, b.score) {
            lemma_frac_lt_trans(c.score, b.score, a.score);
        } else if frac_lt(b.score, a.score) && frac_eq(b.score, c.score) {
            lemma_frac_eq_lt_trans(c.score, b.score, a.score) ;
        } else if frac_eq(a.score, b.score) && frac_lt(c.score, b.score) {
            lemma_frac_lt_eq_trans(c.score, b.score, a.score);
        } else {
            lemma_frac_eq_trans(a.score, b.score, c.score);
        }
    } else {
        if frac_lt(a.score, b.score) && frac_lt(b.score, c.score) {
            lemma_frac_lt_trans(a.score, b.score, c.score);
        } else if frac_lt(a.score, b.score) && frac_eq(b.score, c.score) {
            lemma_frac_lt_eq_trans(a.score, b.score, c.score);
        } else if frac_eq(a.score, b.score) && frac_lt(b.score, c.score) {
            lemma_frac_eq_lt_trans(a.score, b.score, c.score);
        } else {
            lemma_frac_eq_trans(a.score, b.score, c.score);
        }
    }
}

/// The smaller of two integers.
pub open spec fn min_int(a: int, b: int) -> int {
    if a <= b {
        a
    } else {
        b
    }
}

/// A bounded ranked set of capacity `capacity`: it retains, of all the
/// entries inserted so far (recorded in the ghost `seen`), exactly the
/// `capacity` first ones under its order, sorted, and never more than
/// `capacity` of them. Eviction is a pure function of the current
/// contents and the new entry: the entry ranked last leaves.
pub struct RankedSet {
    pub capacity: usize,
    pub toward_top: bool,
    pub entries: Vec<Entry>,
    pub seen: Ghost<Seq<Entry>>,
}

impl RankedSet {
    /// Everything the set promises:
    /// the retained entries are strictly sorted by the order; each was
    /// inserted; inserted entries carry distinct node handles and
    /// positive denominators; the set holds as many entries as were
    /// inserted, up to the capacity; and every inserted entry that is
    /// not retained ranks behind every retained one.
    pub open spec fn wf(self) -> bool {
        &&& forall|p: int, q: int|
            0 <= p < q < self.entries@.len()
                ==> before(self.toward_top, self.entries@[p], self.entries@[q])
        &&& forall|p: int|
            0 <= p < self.entries@.len() ==> self.seen@.contains(#[trigger] self.entries@[p])
        &&& forall|k: int|
            0 <= k < self.seen@.len() ==> (#[trigger] self.seen@[k]).score.den >= 1
        &&& forall|k1: int, k2: int|
            0 <= k1 < k2 < self.seen@.len() ==> self.seen@[k1].node != self.seen@[k2].node
        &&& self.entries@.len() == min_int(self.capacity as int, self.seen@.len() as int)
        &&& forall|k: int|
            0 <= k < self.seen@.len() && !self.entries@.contains(#[trigger] self.seen@[k])
                ==> self.entries@.len() == self.capacity
                    && (forall|p: int|
                        0 <= p < self.entries@.len()
                            ==> before(self.toward_top, #[trigger] self.entries@[p],
                                self.seen@[k]))
    }

    /// An empty ranked set.
    pub fn new(capacity: usize, toward_top: bool) -> (s: RankedSet)
        ensures
            s.wf(),
            s.capacity == capacity,
            s.toward_top == toward_top,
            s.seen@ == Seq::<Entry>::empty(),
            s.entries@.len() == 0,
    {
        RankedSet {
            capacity,
            toward_top,
            entries: Vec::new(),
            seen: Ghost(Seq::empty()),
        }
    }

    /// Insert one entry: it takes its rank among the retained entries,
    /// and if the set then exceeds its capacity the last-ranked entry
    /// leaves.
    pub fn insert(&mut self, e: Entry)
        requires
            old(self).wf(),
            e.score.den >= 1,
            forall|k: int|
                0 <= k < old(self).seen@.len() ==> (#[trigger] old(self).seen@[k]).node != e.node,
        ensures
            final(self).wf(),
            final(self).seen@ == old(self).seen@.push(e),
            final(self).capacity == old(self).capacity,
            final(self).toward_top == old(self).toward_top,
    {
        let ghost old_entries = self.entries@;
        let ghost old_seen = self.seen@;
        let tt = self.toward_top;
        let mut pos: usize = 0;
        while pos < self.entries.len() && before_exec(tt, &self.entries[pos], &e)
            invariant
                pos <= self.entries@.len(),
                *self == *old(self),
                self.entries@ == old_entries,
                self.seen@ == old_seen,
                tt == self.toward_top,
                forall|t: int| 0 <= t < pos ==> before(tt, #[trigger] self.entries@[t], e),
            decreases self.entries@.len() - pos,
        {
            pos = pos + 1;
        }
        proof {
            if pos < self.entries@.len() {
                assert(self.seen@.contains(self.entries@[pos as int]));
                let k = choose|k: int|
                    0 <= k < self.seen@.len() && self.seen@[k] == self.entries@[pos as int];
                assert(self.entries@[pos as int].node != e.node);
                lemma_before_total(tt, self.entries@[pos as int], e);
                assert(before(tt, e, self.entries@[pos as int]));
            }
            // every retained entry from `pos` on ranks behind `e`
            assert forall|t: int| pos <= t < self.entries@.len() implies
                before(tt, e, #[trigger] self.entries@[t])
            by {
                if t > pos {
                    assert(before(tt, self.entries@[pos as int], self.entries@[t]));
                    assert(self.seen@.contains(self.entries@[t]));
                    assert(self.seen@.contains(self.entries@[pos as int]));
                    lemma_before_trans(tt, e, self.entries@[pos as int], self.entries@[t]);
                }
            }
        }
        self.entries.insert(pos, e);
        self.seen = Ghost(old_seen.push(e));
        let ghost mid_entries = self.entries@;
        if self.entries.len() > self.capacity {
            let _evicted = self.entries.pop();
        }
        proof {
            let fin = self.entries@;
            let cap = self.capacity as int;
            if mid_entries.len() > cap {
                assert(fin =~= mid_entries.drop_last());
            }
            assert(forall|p: int| 0 <= p < fin.len() ==> #[trigger] fin[p] == mid_entries[p]);
            // entries inserted so far keep positive denominators and
            // distinct handles
            assert forall|k1: int, k2: int|
                0 <= k1 < k2 < self.seen@.len() implies
                self.seen@[k1].node != self.seen@[k2].node
            by {
                if k2 == self.seen@.len() - 1 {
                    assert(self.seen@[k1] == old_seen[k1]);
                }
            }
            // the new entry sequence, before any eviction, is sorted
            assert forall|p: int, q: int| 0 <= p < q < mid_entries.len() implies
                before(tt, mid_entries[p], mid_entries[q])
            by {
                if q < pos {
                    assert(mid_entries[p] == old_entries[p] && mid_entries[q] == old_entries[q]);
                } else if p < pos && q == pos {
                    assert(mid_entries[p] == old_entries[p] && mid_entries[q] == e);
                } else if p < pos && q > pos {
                    assert(mid_entries[p] == old_entries[p]
                        && mid_entries[q] == old_entries[q - 1]);
                } else if p == pos {
                    assert(mid_entries[p] == e && mid_entries[q] == old_entries[q - 1]);
                } else {
                    assert(mid_entries[p] == old_entries[p - 1]
                        && mid_entries[q] == old_entries[q - 1]);
                }
            }
            // membership of the retained entries in the insertion record
            assert forall|p: int| 0 <= p < mid_entries.len() implies
                self.seen@.contains(#[trigger] mid_entries[p])
            by {
                if p < pos {
                    assert(old_seen.contains(old_entries[p]));
                    let k = choose|k: int|
                        0 <= k < old_seen.len() && old_seen[k] == old_entries[p];
                    assert(self.seen@[k] == old_entries[p]);
                } else if p == pos {
                    assert(self.seen@[self.seen@.len() - 1] == e);
                } else {
                    assert(mid_entries[p] == old_entries[p - 1]);
                    assert(old_seen.contains(old_entries[p - 1]));
                    let k = choose|k: int|
                        0 <= k < old_seen.len() && old_seen[k] == old_entries[p - 1];
                    assert(self.seen@[k] == old_entries[p - 1]);
                }
            }
            // completeness: every inserted entry missing from the set is
            // beaten by the whole set
            assert forall|k: int|
                0 <= k < self.seen@.len() && !fin.contains(#[trigger] self.seen@[k]) implies
                fin.len() == cap
                    && (forall|p: int|
                        0 <= p < fin.len() ==> before(tt, #[trigger] fin[p], self.seen@[k]))
            by {
                let s = self.seen@[k];
                if mid_entries.len() > cap {
                    // one entry was evicted: the last of the unpopped list
                    let x = mid_entries[mid_entries.len() - 1];
                    assert(fin =~= mid_entries.drop_last());
                    assert(fin.len() == cap);
                    assert(old_entries.len() == cap);
                    if s == e {
                        // e itself left: it was placed last
                        assert(mid_entries[pos as int] == e);
                        if (pos as int) < mid_entries.len() - 1 {
                            assert(fin[pos as int] == e);
                            assert(fin.contains(e));
                            assert(false);
                        }
                        assert forall|p: int| 0 <= p < fin.len() implies
                            before(tt, #[trigger] fin[p], s)
                        by {
                            assert(fin[p] == mid_entries[p]);
                        }
                    } else {
                        // s was inserted earlier
                        let k2 = choose|k2: int|
                            0 <= k2 < old_seen.len() && old_seen[k2] == s;
                        if old_entries.contains(s) {
                            // s is the evicted last entry, or it is still in
                            let t = choose|t: int|
                                0 <= t < old_entries.len() && old_entries[t] == s;
                            let mt: int = if t < pos { t } else { t + 1 };
                            assert(mid_entries[mt] == s);
                            if mt < mid_entries.len() - 1 {
                                assert(fin[mt] == s);
                                assert(false);
                            }
                            assert forall|p: int| 0 <= p < fin.len() implies
                                before(tt, #[trigger] fin[p], s)
                            by {
                                assert(fin[p] == mid_entries[p]);
                                assert(before(tt, mid_entries[p],
                                    mid_entries[mid_entries.len() - 1]));
                            }
                        } else {
                            // s was already outside: everything old beats it,
                            // and e slots in ahead of an old entry
                            assert(old_entries.len() == cap);
                            assert forall|p: int| 0 <= p < fin.len() implies
                                before(tt, #[trigger] fin[p], s)
                            by {
                                assert(fin[p] == mid_entries[p]);
                                if mid_entries[p] == e {
                                    // pos < cap here, so e ranks ahead of
                                    // some old entry, which beats s
                                    assert(p == pos && pos < cap);
                                    assert(before(tt, e, mid_entries[pos + 1]));
                                    assert(mid_entries[pos + 1] == old_entries[pos as int]);
                                    assert(before(tt, old_entries[pos as int], s));
                                    assert(old_seen.contains(old_entries[pos as int]));
                                    assert(e.score.den >= 1 && s.score.den >= 1
                                        && old_entries[pos as int].score.den >= 1);
                                    lemma_before_trans(tt, e, old_entries[pos as int], s);
                                } else {
                                    assert(old_entries.contains(mid_entries[p]));
                                }
                            }
                        }
                    }
                } else {
                    // nothing evicted: the set absorbed the entry
                    assert(fin == mid_entries);
                    if s == e {
                        assert(mid_entries[pos as int] == e);
                        assert(fin.contains(s));
                        assert(false);
                    } else {
                        assert(old_seen.contains(s)) by {
                            assert(self.seen@[k] == s && k < old_seen.len());
                        }
                        if old_entries.contains(s) {
                            let t = choose|t: int|
                                0 <= t < old_entries.len() && old_entries[t] == s;
                            let mt: int = if t < pos { t } else { t + 1 };
                            assert(mid_entries[mt] == s);
                            assert(fin.contains(s));
                            assert(false);
                        }
                        assert(old_entries.len() == cap);
                        assert(mid_entries.len() == cap + 1);
                        assert(false);
                    }
                }
            }
        }
    }
}

/// Bounded top-K and bottom-K extraction over one stream of scored
/// nodes: both sets see every inserted entry.
pub struct RankExtractor {
    pub top_set: RankedSet,
    pub bottom_set: RankedSet,
}

impl RankExtractor {
    /// Both sets are well formed, share one capacity, rank in opposite
    /// directions, and have seen the same stream.
    pub open spec fn wf(self) -> bool {
        &&& self.top_set.wf()
        &&& self.bottom_set.wf()
        &&& self.top_set.toward_top
        &&& !self.bottom_set.toward_top
        &&& self.top_set.capacity == self.bottom_set.capacity
        &&& self.top_set.seen@ == self.bottom_set.seen@
    }

    /// The stream of entries inserted so far.
    pub open spec fn seen(self) -> Seq<Entry> {
        self.top_set.seen@
    }

    /// The common capacity of the two sets.
    pub open spec fn capacity(self) -> int {
        self.top_set.capacity as int
    }

    /// An empty extractor of capacity `k`.
    pub fn new(k: usize) -> (r: RankExtractor)
        ensures
            r.wf(),
            r.capacity() == k,
            r.seen() == Seq::<Entry>::empty(),
    {
        RankExtractor { top_set: RankedSet::new(k, true), bottom_set: RankedSet::new(k, false) }
    }

    /// Feed one scored node to both sets.
    pub fn insert(&mut self, score: Centrality, node: usize)
        requires
            old(self).wf(),
            score.den >= 1,
            forall|k: int|
                0 <= k < old(self).seen().len() ==> (#[trigger] old(self).seen()[k]).node != node,
        ensures
            final(self).wf(),
            final(self).seen() == old(self).seen().push(Entry { score, node }),
            final(self).capacity() == old(self).capacity(),
    {
        let e = Entry { score, node };
        proof {
            assert forall|k: int| 0 <= k < self.top_set.seen@.len() implies
                (#[trigger] self.top_set.seen@[k]).node != e.node
            by {
                assert(old(self).seen()[k] == self.top_set.seen@[k]);
            }
            assert forall|k: int| 0 <= k < self.bottom_set.seen@.len() implies
                (#[trigger] self.bottom_set.seen@[k]).node != e.node
            by {
                assert(old(self).seen()[k] == self.bottom_set.seen@[k]);
            }
        }
        self.top_set.insert(e);
        self.bottom_set.insert(e);
    }

    /// The retained top entries, best first.
    pub fn top(&self) -> (r: &Vec<Entry>)
        ensures
            r@ == self.top_set.entries@,
    {
        &self.top_set.entries
    }

    /// The retained bottom entries, smallest first.
    pub fn bottom(&self) -> (r: &Vec<Entry>)
        ensures
            r@ == self.bottom_set.entries@,
    {
        &self.bottom_set.entries
    }
}

/// Rank every score of `scores` under its node handle: the extractor
/// sees the entry `(scores[v], v)` for every handle `v`, in order.
pub fn rank_scores(scores: &Vec<Centrality>, k: usize) -> (r: RankExtractor)
    requires
        forall|v: int| 0 <= v < scores@.len() ==> (#[trigger] scores@[v]).den >= 1,
    ensures
        r.wf(),
        r.capacity() == k,
        r.seen() =~= Seq::new(scores@.len(), |v: int| Entry { score: scores@[v], node: v as usize }),
{
    let mut ex = RankExtractor::new(k);
    let mut v: usize = 0;
    while v < scores.len()
        invariant
            v <= scores@.len(),
            forall|w: int| 0 <= w < scores@.len() ==> (#[trigger] scores@[w]).den >= 1,
            ex.wf(),
            ex.capacity() == k,
            ex.seen().len() == v,
            forall|w: int|
                0 <= w < v
                    ==> (#[trigger] ex.seen()[w]) == (Entry { score: scores@[w], node: w as usize }),
        decreases scores@.len() - v,
    {
        ex.insert(scores[v], v);
        v = v + 1;
    }
    ex
}

/// After any stream is consumed in full, a ranked set holds exactly
/// `min(K, total entries)` entries; every entry it dropped ranks behind
/// every entry it kept, so the retained entries are exactly the first
/// `K` of the stream under the set's order, sorted by that order.
pub proof fn lemma_bounded_extraction(s: RankedSet)
    requires
        s.wf(),
    ensures
        s.entries@.len() == min_int(s.capacity as int, s.seen@.len() as int),
        forall|p: int, q: int|
            0 <= p < q < s.entries@.len()
                ==> before(s.toward_top, s.entries@[p], s.entries@[q]),
        forall|k: int|
            0 <= k < s.seen@.len() && !s.entries@.contains(#[trigger] s.seen@[k])
                ==> forall|p: int|
                    0 <= p < s.entries@.len()
                        ==> before(s.toward_top, #[trigger] s.entries@[p], s.seen@[k]),
{
}

/// Compare two scores strictly, as rational values.
fn frac_lt_exec(a: &Centrality, b: &Centrality) -> (r: bool)
    ensures
        r == frac_lt(*a, *b),
{
    !b.le(a)
}

/// Decide whether `a` ranks strictly ahead of `b` in the given order.
fn before_exec(toward_top: bool, a: &Entry, b: &Entry) -> (r: bool)
    ensures
        r == before(toward_top, *a, *b),
{
    let lt_ab = frac_lt_exec(&a.score, &b.score);
    let lt_ba = frac_lt_exec(&b.score, &a.score);
    let eq = !lt_ab && !lt_ba;
    if toward_top {
        lt_ba || (eq && a.node < b.node)
    } else {
        lt_ab || (eq && a.node < b.node)
    }
}

} // verus!
