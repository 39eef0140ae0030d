//! The set of documentation entries: sorted, and free of duplicates.

use crate::bytes::Order;
use crate::item::{doc_lt, lemma_doc_transitive, lemma_doc_trichotomy, DocItem, DocView};
use vstd::prelude::*;

verus! {

/// What each entry of a sequence stands for.
pub open spec fn doc_views(items: Seq<DocItem>) -> Seq<DocView> {
    Seq::new(items.len(), |i: int| items[i]@)
}

/// Every entry comes strictly before all later ones, so that none occurs
/// twice.
pub open spec fn strictly_sorted(s: Seq<DocView>) -> bool {
    forall|i: int, j: int| 0 <= i < j < s.len() ==> doc_lt(#[trigger] s[i], #[trigger] s[j])
}

/// The entries that occur in a sequence.
pub open spec fn elements(s: Seq<DocView>) -> Set<DocView> {
    Set::new(|v: DocView| s.contains(v))
}

/// The entries that a list of positions picks from `items`, in the order of
/// the list.
pub open spec fn picked(items: Seq<DocItem>, at: Seq<usize>) -> Seq<DocView> {
    Seq::new(at.len(), |j: int| items[at[j] as int]@)
}

/// Every position of the list lies in `lo..hi`.
pub open spec fn positions_within(at: Seq<usize>, lo: int, hi: int) -> bool {
    forall|j: int| 0 <= j < at.len() ==> lo <= #[trigger] at[j] < hi
}

/// A strictly sorted sequence is fixed by the entries that occur in it.
pub proof fn lemma_sorted_unique(s: Seq<DocView>, t: Seq<DocView>)
    requires
        strictly_sorted(s),
        strictly_sorted(t),
        elements(s) == elements(t),
    ensures
        s == t,
    decreases s.len(),
{
    if s.len() == 0 {
        if t.len() > 0 {
            assert(t.contains(t[0]));
            assert(elements(t).contains(t[0]));
            assert(s.contains(t[0]));
        }
        assert(s =~= t);
    } else {
        let n = s.len() - 1;
        assert(s.contains(s[n]));
        assert(elements(s).contains(s[n]));
        assert(t.contains(s[n]));
        let m = t.len() - 1;
        // the last entry of each is the greatest of their common elements
        assert(t.contains(t[m]));
        assert(elements(t).contains(t[m]));
        assert(s.contains(t[m]));
        let i = choose|i: int| 0 <= i < s.len() && s[i] == t[m];
        let j = choose|j: int| 0 <= j < t.len() && t[j] == s[n];
        lemma_doc_trichotomy(s[n], t[m]);
        if i < n {
            assert(doc_lt(s[i], s[n]));
        }
        if j < m {
            assert(doc_lt(t[j], t[m]));
        }
        assert(s[n] == t[m]);
        let s1 = s.drop_last();
        let t1 = t.drop_last();
        assert(strictly_sorted(s1)) by {
            assert forall|a: int, b: int| 0 <= a < b < s1.len() implies doc_lt(
                #[trigger] s1[a],
                #[trigger] s1[b],
            ) by {
                assert(doc_lt(s[a], s[b]));
            }
        }
        assert(strictly_sorted(t1)) by {
            assert forall|a: int, b: int| 0 <= a < b < t1.len() implies doc_lt(
                #[trigger] t1[a],
                #[trigger] t1[b],
            ) by {
                assert(doc_lt(t[a], t[b]));
            }
        }
        assert forall|v: DocView| s1.contains(v) <==> t1.contains(v) by {
            lemma_doc_trichotomy(v, s[n]);
            if s1.contains(v) {
                let a = choose|a: int| 0 <= a < s1.len() && s1[a] == v;
                assert(s[a] == v);
                assert(doc_lt(s[a], s[n]));
                assert(s.contains(v));
                assert(elements(s).contains(v));
                assert(t.contains(v));
                let b = choose|b: int| 0 <= b < t.len() && t[b] == v;
                assert(b < m);
                assert(t1[b] == v);
            }
            if t1.contains(v) {
                let b = choose|b: int| 0 <= b < t1.len() && t1[b] == v;
                assert(t[b] == v);
                assert(doc_lt(t[b], t[m]));
                assert(t.contains(v));
                assert(elements(t).contains(v));
                assert(s.contains(v));
                let a = choose|a: int| 0 <= a < s.len() && s[a] == v;
                assert(a < n);
                assert(s1[a] == v);
            }
        }
        assert(elements(s1) =~= elements(t1));
        lemma_sorted_unique(s1, t1);
        assert(s =~= s1.push(s[n]));
        assert(t =~= t1.push(t[m]));
    }
}

proof fn lemma_contains_push(s: Seq<DocView>, v: DocView)
    ensures
        s.push(v).contains(v),
        forall|w: DocView| s.contains(w) ==> #[trigger] s.push(v).contains(w),
        forall|w: DocView| #[trigger] s.push(v).contains(w) ==> s.contains(w) || w == v,
{
    assert(s.push(v)[s.len() as int] == v);
    assert forall|w: DocView| s.contains(w) implies #[trigger] s.push(v).contains(w) by {
        let i = choose|i: int| 0 <= i < s.len() && s[i] == w;
        assert(s.push(v)[i] == w);
    }
    assert forall|w: DocView| #[trigger] s.push(v).contains(w) implies s.contains(w) || w == v by {
        let i = choose|i: int| 0 <= i < s.push(v).len() && s.push(v)[i] == w;
        if i < s.len() {
            assert(s[i] == w);
        }
    }
}

proof fn lemma_sorted_push(s: Seq<DocView>, v: DocView)
    requires
        strictly_sorted(s),
        s.len() > 0 ==> doc_lt(s.last(), v),
    ensures
        strictly_sorted(s.push(v)),
{
    let t = s.push(v);
    assert forall|i: int, j: int| 0 <= i < j < t.len() implies doc_lt(
        #[trigger] t[i],
        #[trigger] t[j],
    ) by {
        if j < s.len() {
            assert(doc_lt(s[i], s[j]));
        } else if i < s.len() - 1 {
            assert(doc_lt(s[i], s[s.len() - 1]));
            lemma_doc_transitive(s[i], s.last(), v);
        }
    }
}

/// Appends the position `p` to `out`, whose entry comes after all that `out`
/// picks.
fn push_position(items: &Vec<DocItem>, out: &mut Vec<usize>, p: usize)
    requires
        p < items.len(),
        positions_within(old(out)@, 0, items.len() as int),
        strictly_sorted(picked(items@, old(out)@)),
        old(out).len() > 0 ==> doc_lt(picked(items@, old(out)@).last(), items[p as int]@),
    ensures
        final(out)@ == old(out)@.push(p),
        picked(items@, final(out)@) == picked(items@, old(out)@).push(items[p as int]@),
        strictly_sorted(picked(items@, final(out)@)),
        positions_within(final(out)@, 0, items.len() as int),
{
    proof {
        lemma_sorted_push(picked(items@, out@), items[p as int]@);
        assert(picked(items@, out@.push(p)) =~= picked(items@, out@).push(items[p as int]@));
    }
    out.push(p);
}

/// Merges two lists of positions, each picking entries in strict order, into
/// one that picks in strict order the entries of both.
fn merge_positions(items: &Vec<DocItem>, a: &Vec<usize>, b: &Vec<usize>) -> (out: Vec<usize>)
    requires
        positions_within(a@, 0, items.len() as int),
        positions_within(b@, 0, items.len() as int),
        strictly_sorted(picked(items@, a@)),
        strictly_sorted(picked(items@, b@)),
    ensures
        out.len() <= a.len() + b.len(),
        positions_within(out@, 0, items.len() as int),
        strictly_sorted(picked(items@, out@)),
        forall|m: int| 0 <= m < out.len() ==> a@.contains(#[trigger] out[m]) || b@.contains(out[m]),
        forall|k: int| 0 <= k < a.len() ==> picked(items@, out@).contains(#[trigger] picked(items@, a@)[k]),
        forall|k: int| 0 <= k < b.len() ==> picked(items@, out@).contains(#[trigger] picked(items@, b@)[k]),
{
    let ghost pa = picked(items@, a@);
    let ghost pb = picked(items@, b@);
    let mut out: Vec<usize> = Vec::new();
    let mut i: usize = 0;
    let mut j: usize = 0;
    while i < a.len() || j < b.len()
        invariant
            pa == picked(items@, a@),
            pb == picked(items@, b@),
            positions_within(a@, 0, items.len() as int),
            positions_within(b@, 0, items.len() as int),
            strictly_sorted(pa),
            strictly_sorted(pb),
            i <= a.len(),
            j <= b.len(),
            out.len() <= i + j,
            positions_within(out@, 0, items.len() as int),
            strictly_sorted(picked(items@, out@)),
            out.len() > 0 && i < a.len() ==> doc_lt(picked(items@, out@).last(), pa[i as int]),
            out.len() > 0 && j < b.len() ==> doc_lt(picked(items@, out@).last(), pb[j as int]),
            forall|m: int| 0 <= m < out.len() ==> a@.contains(#[trigger] out[m]) || b@.contains(out[m]),
            forall|k: int| 0 <= k < i ==> picked(items@, out@).contains(#[trigger] pa[k]),
            forall|k: int| 0 <= k < j ==> picked(items@, out@).contains(#[trigger] pb[k]),
        decreases a.len() - i + b.len() - j,
    {
        let ghost before = picked(items@, out@);
        let take: Order = if i == a.len() {
            Order::Greater
        } else if j == b.len() {
            Order::Less
        } else {
            assert(pa[i as int] == items[a[i as int] as int]@);
            assert(pb[j as int] == items[b[j as int] as int]@);
            items[a[i]].compare(&items[b[j]])
        };
        match take {
            Order::Less => {
                let p: usize = a[i];
                assert(pa[i as int] == items[p as int]@);
                push_position(items, &mut out, p);
                proof {
                    lemma_contains_push(before, items[p as int]@);
                    assert(a@[i as int] == p);
                    if i + 1 < a.len() {
                        assert(doc_lt(pa[i as int], pa[i + 1]));
                    }
                }
                i += 1;
            },
            Order::Greater => {
                let p: usize = b[j];
                assert(pb[j as int] == items[p as int]@);
                push_position(items, &mut out, p);
                proof {
                    lemma_contains_push(before, items[p as int]@);
                    assert(b@[j as int] == p);
                    if j + 1 < b.len() {
                        assert(doc_lt(pb[j as int], pb[j + 1]));
                    }
                }
                j += 1;
            },
            Order::Equal => {
                let p: usize = a[i];
                assert(pa[i as int] == items[p as int]@);
                push_position(items, &mut out, p);
                proof {
                    lemma_contains_push(before, items[p as int]@);
                    assert(a@[i as int] == p);
                    if i + 1 < a.len() {
                        assert(doc_lt(pa[i as int], pa[i + 1]));
                    }
                    if j + 1 < b.len() {
                        assert(doc_lt(pb[j as int], pb[j + 1]));
                    }
                }
                i += 1;
                j += 1;
            },
        }
    }
    out
}

/// The positions `lo..hi` of `items`, ordered by the entries that stand
/// there, one position for each distinct entry.
fn sorted_positions(items: &Vec<DocItem>, lo: usize, hi: usize) -> (out: Vec<usize>)
    requires
        lo <= hi <= items.len(),
    ensures
        out.len() <= hi - lo,
        positions_within(out@, lo as int, hi as int),
        strictly_sorted(picked(items@, out@)),
        forall|k: int| lo <= k < hi ==> picked(items@, out@).contains(#[trigger] items[k]@),
    decreases hi - lo,
{
    if hi - lo == 0 {
        Vec::new()
    } else if hi - lo == 1 {
        let mut out: Vec<usize> = Vec::new();
        out.push(lo);
        proof {
            assert(picked(items@, out@)[0] == items[lo as int]@);
        }
        out
    } else {
        let mid: usize = lo + (hi - lo) / 2;
        let a = sorted_positions(items, lo, mid);
        let b = sorted_positions(items, mid, hi);
        let out = merge_positions(items, &a, &b);
        proof {
            let po = picked(items@, out@);
            assert forall|m: int| 0 <= m < out.len() implies lo <= #[trigger] out[m] < hi by {
                if a@.contains(out[m]) {
                    let k = choose|k: int| 0 <= k < a.len() && a[k] == out[m];
                    assert(lo <= a[k] < mid);
                } else {
                    let k = choose|k: int| 0 <= k < b.len() && b[k] == out[m];
                    assert(mid <= b[k] < hi);
                }
            }
            assert forall|k: int| lo <= k < hi implies po.contains(#[trigger] items[k]@) by {
                if k < mid {
                    let pa = picked(items@, a@);
                    let m = choose|m: int| 0 <= m < pa.len() && pa[m] == items[k]@;
                    assert(po.contains(pa[m]));
                } else {
                    let pb = picked(items@, b@);
                    let m = choose|m: int| 0 <= m < pb.len() && pb[m] == items[k]@;
                    assert(po.contains(pb[m]));
                }
            }
        }
        out
    }
}

/// A set of documentation entries, held in their order with no entry twice.
#[derive(Debug, PartialEq, Eq)]
pub struct RustDoc {
    items: Vec<DocItem>,
}

impl View for RustDoc {
    type V = Seq<DocView>;

    closed spec fn view(&self) -> Seq<DocView> {
        doc_views(self.items@)
    }
}

impl RustDoc {
    #[verifier::type_invariant]
    spec fn ordered(&self) -> bool {
        strictly_sorted(doc_views(self.items@))
    }

    /// The set of the given entries: each distinct entry once, in order.
    pub fn new(items: Vec<DocItem>) -> (doc: RustDoc)
        ensures
            strictly_sorted(doc@),
            elements(doc@) == elements(doc_views(items@)),
            doc@.len() <= items.len(),
    {
        let at = sorted_positions(&items, 0, items.len());
        let mut sorted: Vec<DocItem> = Vec::with_capacity(at.len());
        let mut j: usize = 0;
        while j < at.len()
            invariant
                j <= at.len(),
                positions_within(at@, 0, items.len() as int),
                sorted.len() == j,
                forall|m: int| 0 <= m < j ==> (#[trigger] sorted[m])@ == picked(items@, at@)[m],
            decreases at.len() - j,
        {
            sorted.push(items[at[j]].duplicate());
            j += 1;
        }
        proof {
            assert(doc_views(sorted@) =~= picked(items@, at@));
            let s = doc_views(sorted@);
            let t = doc_views(items@);
            assert forall|v: DocView| s.contains(v) <==> t.contains(v) by {
                if s.contains(v) {
                    let m = choose|m: int| 0 <= m < s.len() && s[m] == v;
                    assert(t[at[m] as int] == v);
                }
                if t.contains(v) {
                    let k = choose|k: int| 0 <= k < t.len() && t[k] == v;
                    assert(s.contains(items[k]@));
                }
            }
            assert(elements(s) =~= elements(t));
        }
        RustDoc { items: sorted }
    }

    /// The entries, in order.
    pub fn items(&self) -> (items: &Vec<DocItem>)
        ensures
            doc_views(items@) == self@,
            strictly_sorted(self@),
    {
        proof {
            use_type_invariant(self);
        }
        &self.items
    }

    /// The number of entries.
    pub fn len(&self) -> (n: usize)
        ensures
            n == self@.len(),
    {
        self.items.len()
    }

    /// Gives up the entries, in order.
    pub fn into_items(self) -> (items: Vec<DocItem>)
        ensures
            doc_views(items@) == self@,
            strictly_sorted(self@),
    {
        proof {
            use_type_invariant(&self);
        }
        self.items
    }
}

} // verus!
