//! The searchable index: the entries in order, with a table of their
//! distinct keys, and the search that walks the table with an acceptor.

use crate::acceptor::{
    accepts, is_subsequence, lemma_dead_prefix, lemma_state_after_inv, lemma_state_after_push,
    state_after, Acceptor, Intersection, Prefix, Subsequence, Union,
};
use crate::bytes::{
    common_prefix, lemma_lex_transitive, lemma_shared_len, lex_lt, shared_len,
    starts_with,
};
use crate::doc::{doc_views, elements, strictly_sorted, RustDoc};
use crate::item::{doc_lt, key_of, lemma_doc_lt_keys, DocItem, DocView};
use crate::pattern::{
    levenshtein_table, regex_table, table_accepts, EditDistance, PatternError, RegexAcceptor,
};
use vstd::prelude::*;
use vstd::utf8::encode_utf8;

verus! {

/// One row of the table of keys: the entries at the positions `start..end`
/// are those of one key, and the key shares its first `shared` bytes with the
/// key of the row before. The row `next` is the first later row that shares
/// fewer bytes than this row does with the key before it, or the end of the
/// table: the keys of the rows from this one up to `next` all begin with the
/// first `shared` bytes of this row's key.
#[derive(Clone, Copy, Debug, PartialEq, Eq, Structural)]
pub struct KeyRange {
    pub start: usize,
    pub end: usize,
    pub shared: usize,
    pub next: usize,
}

/// The key of row `i` of the table.
pub open spec fn row_key(s: Seq<DocView>, t: Seq<KeyRange>, i: int) -> Seq<u8> {
    key_of(s[t[i].start as int])
}

/// The key of the row before row `i`; the empty key before the first row.
pub open spec fn key_before(s: Seq<DocView>, t: Seq<KeyRange>, i: int) -> Seq<u8> {
    if i <= 0 {
        Seq::empty()
    } else {
        row_key(s, t, i - 1)
    }
}

/// Row `i` of the table is in order: it begins where the row before ends, or
/// at the first entry; it is not empty and ends within the first `upto`
/// entries; its entries all have its key, which is not the key of the row
/// before; and it knows how much of its key it shares with that row's key.
pub open spec fn row_ok(s: Seq<DocView>, t: Seq<KeyRange>, i: int, upto: int) -> bool {
    &&& t[i].start < t[i].end <= upto
    &&& i == 0 ==> t[i].start == 0
    &&& i > 0 ==> t[i].start == t[i - 1].end && row_key(s, t, i) != row_key(s, t, i - 1)
    &&& t[i].shared == shared_len(key_before(s, t, i), row_key(s, t, i))
    &&& forall|j: int| t[i].start <= j < t[i].end ==> key_of(#[trigger] s[j]) == row_key(s, t, i)
}

/// The table `t` groups the first `upto` entries of `s` by key: its rows are
/// in order, and the last of them ends at `upto`.
pub open spec fn table_covers(s: Seq<DocView>, t: Seq<KeyRange>, upto: int) -> bool {
    &&& 0 <= upto <= s.len()
    &&& (t.len() == 0 <==> upto == 0)
    &&& t.len() > 0 ==> t[t.len() - 1].end == upto
    &&& forall|i: int| 0 <= i < t.len() ==> #[trigger] row_ok(s, t, i, upto)
}

/// Row `x` is the first row after row `i` that shares fewer bytes with the
/// key before it than row `i` does; the end of the table where no later
/// row does.
pub open spec fn skips_to(t: Seq<KeyRange>, i: int, x: int) -> bool {
    &&& i < x <= t.len()
    &&& forall|r: int| i < r < x ==> (#[trigger] t[r]).shared >= t[i].shared
    &&& x < t.len() ==> t[x].shared < t[i].shared
}

/// Row `i` knows the row that a walk may skip to from it.
pub open spec fn skip_ok(t: Seq<KeyRange>, i: int) -> bool {
    skips_to(t, i, t[i].next as int)
}

/// The table `t` groups all entries of `s` by key, and each of its rows
/// knows the row that a walk may skip to from it.
pub open spec fn table_ok(s: Seq<DocView>, t: Seq<KeyRange>) -> bool {
    &&& table_covers(s, t, s.len() as int)
    &&& forall|i: int| 0 <= i < t.len() ==> #[trigger] skip_ok(t, i)
}

/// The position at which row `i` begins; the number of entries for the end
/// of the table.
pub open spec fn row_start(s: Seq<DocView>, t: Seq<KeyRange>, i: int) -> int {
    if i < t.len() {
        t[i].start as int
    } else {
        s.len() as int
    }
}

/// The two tables have the same rows, but for where a walk may skip to.
pub open spec fn same_ranges(a: Seq<KeyRange>, b: Seq<KeyRange>) -> bool {
    &&& a.len() == b.len()
    &&& forall|i: int|
        0 <= i < a.len() ==> (#[trigger] a[i]).start == b[i].start && a[i].end == b[i].end
            && a[i].shared == b[i].shared
}

/// The entries among the first `n` of `s` whose key meets `wanted`, in the
/// order of `s`.
pub open spec fn selected(s: Seq<DocView>, wanted: spec_fn(Seq<u8>) -> bool, n: int) -> Seq<
    DocView,
>
    decreases n,
{
    if n <= 0 {
        Seq::empty()
    } else if wanted(key_of(s[n - 1])) {
        selected(s, wanted, n - 1).push(s[n - 1])
    } else {
        selected(s, wanted, n - 1)
    }
}

/// The entries of `s` that the acceptor accepts by their key, in the order of
/// `s`.
pub open spec fn matching<A: Acceptor>(s: Seq<DocView>, acc: &A) -> Seq<DocView> {
    selected(s, |key: Seq<u8>| accepts(acc, key), s.len() as int)
}

/// What each of the entries referred to stands for.
pub open spec fn found_views(found: Seq<&DocItem>) -> Seq<DocView> {
    Seq::new(found.len(), |i: int| found[i]@)
}

/// What is selected depends only on which keys are wanted.
pub proof fn lemma_selected_same(
    s: Seq<DocView>,
    f: spec_fn(Seq<u8>) -> bool,
    g: spec_fn(Seq<u8>) -> bool,
    n: int,
)
    requires
        n <= s.len(),
        forall|j: int| 0 <= j < n ==> f(key_of(s[j])) == g(key_of(s[j])),
    ensures
        selected(s, f, n) == selected(s, g, n),
    decreases n,
{
    if n > 0 {
        lemma_selected_same(s, f, g, n - 1);
    }
}

/// An entry is selected if and only if it is among the entries looked at and
/// its key is wanted.
pub proof fn lemma_selected_contains(
    s: Seq<DocView>,
    wanted: spec_fn(Seq<u8>) -> bool,
    n: int,
    v: DocView,
)
    requires
        n <= s.len(),
    ensures
        selected(s, wanted, n).contains(v) <==> wanted(key_of(v)) && exists|j: int|
            0 <= j < n && s[j] == v,
    decreases n,
{
    if n > 0 {
        lemma_selected_contains(s, wanted, n - 1, v);
        let before = selected(s, wanted, n - 1);
        let now = selected(s, wanted, n);
        if wanted(key_of(s[n - 1])) {
            assert(now == before.push(s[n - 1]));
            if before.contains(v) {
                let i = choose|i: int| 0 <= i < before.len() && before[i] == v;
                assert(now[i] == v);
            }
            if s[n - 1] == v {
                assert(now[now.len() - 1] == v);
            }
            if now.contains(v) {
                let i = choose|i: int| 0 <= i < now.len() && now[i] == v;
                if i < before.len() {
                    assert(before[i] == v);
                }
            }
        }
    }
}

/// Where no key of the entries from `lo` to `hi` is wanted, nothing is
/// selected among them.
pub proof fn lemma_selected_skip(
    s: Seq<DocView>,
    wanted: spec_fn(Seq<u8>) -> bool,
    lo: int,
    hi: int,
)
    requires
        0 <= lo <= hi <= s.len(),
        forall|j: int| lo <= j < hi ==> !wanted(key_of(s[j])),
    ensures
        selected(s, wanted, hi) == selected(s, wanted, lo),
    decreases hi - lo,
{
    if lo < hi {
        lemma_selected_skip(s, wanted, lo, hi - 1);
    }
}

/// The rows of a table are fixed by the entries that it groups: two tables
/// for the same entries agree in the ranges of their first rows.
proof fn lemma_rows_same(s: Seq<DocView>, t1: Seq<KeyRange>, t2: Seq<KeyRange>, i: int)
    requires
        table_covers(s, t1, s.len() as int),
        table_covers(s, t2, s.len() as int),
        0 <= i < t1.len(),
    ensures
        i < t2.len(),
        t1[i].start == t2[i].start,
        t1[i].end == t2[i].end,
        t1[i].shared == t2[i].shared,
    decreases i,
{
    let n = s.len() as int;
    assert(row_ok(s, t1, i, n));
    if i > 0 {
        lemma_rows_same(s, t1, t2, i - 1);
        assert(row_ok(s, t1, i - 1, n));
        assert(row_ok(s, t2, i - 1, n));
        if i >= t2.len() {
            assert(t2[t2.len() - 1].end == n);
        }
    } else {
        assert(t2.len() > 0);
    }
    assert(row_ok(s, t2, i, n));
    let a = t1[i];
    let b = t2[i];
    assert(a.start == b.start);
    assert(row_key(s, t1, i) == row_key(s, t2, i));
    assert(key_before(s, t1, i) == key_before(s, t2, i));
    if a.end < b.end {
        assert(key_of(s[a.end as int]) == row_key(s, t2, i));
        assert(i + 1 < t1.len());
        assert(row_ok(s, t1, i + 1, n));
    }
    if b.end < a.end {
        assert(key_of(s[b.end as int]) == row_key(s, t1, i));
        assert(i + 1 < t2.len());
        assert(row_ok(s, t2, i + 1, n));
    }
}

/// Two tables that group the same entries have the same rows, but for where
/// a walk may skip to.
proof fn lemma_ranges_unique(s: Seq<DocView>, t1: Seq<KeyRange>, t2: Seq<KeyRange>)
    requires
        table_covers(s, t1, s.len() as int),
        table_covers(s, t2, s.len() as int),
    ensures
        same_ranges(t1, t2),
{
    if t1.len() > 0 {
        lemma_rows_same(s, t1, t2, t1.len() - 1);
    }
    if t2.len() > 0 {
        lemma_rows_same(s, t2, t1, t2.len() - 1);
    }
    assert forall|i: int| 0 <= i < t1.len() implies (#[trigger] t1[i]).start == t2[i].start
        && t1[i].end == t2[i].end && t1[i].shared == t2[i].shared by {
        lemma_rows_same(s, t1, t2, i);
    }
}

/// Only one row is the row that a walk may skip to from row `i`, and it is
/// the same in two tables that have the same ranges.
proof fn lemma_skip_unique(t1: Seq<KeyRange>, t2: Seq<KeyRange>, i: int, x1: int, x2: int)
    requires
        same_ranges(t1, t2),
        0 <= i < t1.len(),
        skips_to(t1, i, x1),
        skips_to(t2, i, x2),
    ensures
        x1 == x2,
{
    if x1 < x2 {
        assert(t2[x1].shared >= t2[i].shared);
        assert(t1[x1].shared == t2[x1].shared);
    }
    if x2 < x1 {
        assert(t1[x2].shared >= t1[i].shared);
        assert(t1[x2].shared == t2[x2].shared);
    }
}

/// Building is deterministic: the entries fix their table of keys, so one
/// set of entries has one order of keys and one range of entries for each.
pub proof fn lemma_table_unique(s: Seq<DocView>, t1: Seq<KeyRange>, t2: Seq<KeyRange>)
    requires
        table_ok(s, t1),
        table_ok(s, t2),
    ensures
        t1 == t2,
{
    lemma_ranges_unique(s, t1, t2);
    assert forall|i: int| 0 <= i < t1.len() implies t1[i] == t2[i] by {
        assert(skip_ok(t1, i));
        assert(skip_ok(t2, i));
        lemma_skip_unique(t1, t2, i, t1[i].next as int, t2[i].next as int);
    }
    assert(t1 =~= t2);
}

/// A table that groups the entries still does so when its rows are given
/// other rows to skip to.
proof fn lemma_covers_same_ranges(s: Seq<DocView>, a: Seq<KeyRange>, b: Seq<KeyRange>)
    requires
        table_covers(s, a, s.len() as int),
        same_ranges(a, b),
    ensures
        table_covers(s, b, s.len() as int),
{
    let n = s.len() as int;
    assert forall|i: int| 0 <= i < b.len() implies #[trigger] row_ok(s, b, i, n) by {
        assert(row_ok(s, a, i, n));
        assert(a[i].start == b[i].start);
        if i > 0 {
            assert(a[i - 1].start == b[i - 1].start);
        }
        assert(row_key(s, a, i) == row_key(s, b, i));
        assert(key_before(s, a, i) == key_before(s, b, i));
    }
    if b.len() > 0 {
        assert(a[a.len() - 1].end == b[b.len() - 1].end);
    }
}

/// For each row, the row that a walk may skip to from it.
fn skip_rows(rows: &Vec<KeyRange>) -> (nexts: Vec<usize>)
    ensures
        nexts.len() == rows.len(),
        forall|k: int| 0 <= k < rows.len() ==> skips_to(rows@, k, #[trigger] nexts[k] as int),
{
    let n: usize = rows.len();
    let mut nexts: Vec<usize> = Vec::with_capacity(n);
    let mut k: usize = 0;
    while k < n
        invariant
            k <= n,
            nexts.len() == k,
        decreases n - k,
    {
        nexts.push(n);
        k += 1;
    }
    let mut i: usize = n;
    while i > 0
        invariant
            n == rows.len(),
            nexts.len() == n,
            i <= n,
            forall|k: int| i <= k < n ==> skips_to(rows@, k, #[trigger] nexts[k] as int),
        decreases i,
    {
        i -= 1;
        let mut j: usize = i + 1;
        while j < n && rows[j].shared >= rows[i].shared
            invariant
                n == rows.len(),
                nexts.len() == n,
                i < j <= n,
                forall|k: int| i < k < n ==> skips_to(rows@, k, #[trigger] nexts[k] as int),
                forall|r: int| i < r < j ==> (#[trigger] rows[r]).shared >= rows[i as int].shared,
            decreases n - j,
        {
            assert(skips_to(rows@, j as int, nexts[j as int] as int));
            j = nexts[j];
        }
        let ghost before = nexts@;
        nexts.set(i, j);
        proof {
            assert forall|k: int| i <= k < n implies skips_to(
                rows@,
                k,
                #[trigger] nexts[k] as int,
            ) by {
                if k > i {
                    assert(nexts[k] == before[k]);
                }
            }
        }
    }
    nexts
}

/// The end of the run of entries that have the key of the entry at `start`,
/// and how much of that key the entry after the run shares.
fn run_end(items: &Vec<DocItem>, start: usize) -> (r: (usize, usize))
    requires
        start < items.len(),
    ensures
        start < r.0 <= items.len(),
        forall|j: int| start <= j < r.0 ==> key_of(#[trigger] items[j]@) == key_of(items[start as int]@),
        r.0 < items.len() ==> key_of(items[r.0 as int]@) != key_of(items[start as int]@) && r.1
            == shared_len(key_of(items[start as int]@), key_of(items[r.0 as int]@)),
{
    let key = items[start].index_key();
    let mut end: usize = start + 1;
    let mut next_shared: usize = 0;
    let mut open: bool = true;
    while open && end < items.len()
        invariant
            start < end <= items.len(),
            key@ == key_of(items[start as int]@),
            forall|j: int| start <= j < end ==> key_of(#[trigger] items[j]@) == key@,
            !open ==> end < items.len() && key_of(items[end as int]@) != key@ && next_shared
                == shared_len(key@, key_of(items[end as int]@)),
        decreases items.len() - end + (if open { 1int } else { 0int }),
    {
        let other = items[end].index_key();
        let n = common_prefix(key, other);
        proof {
            lemma_shared_len(key@, other@);
        }
        if n == key.len() && n == other.len() {
            assert(key@ =~= other@);
            end += 1;
        } else {
            next_shared = n;
            open = false;
        }
    }
    (end, next_shared)
}

/// The index: the entries in order, and the table of their keys.
#[derive(Debug, PartialEq, Eq)]
pub struct RustDocSeeker {
    items: Vec<DocItem>,
    keys: Vec<KeyRange>,
}

impl View for RustDocSeeker {
    type V = Seq<DocView>;

    closed spec fn view(&self) -> Seq<DocView> {
        doc_views(self.items@)
    }
}

impl RustDoc {
    /// Builds the index of these entries: the entries as they are ordered,
    /// and the table that groups them by key.
    pub fn build(self) -> (seeker: RustDocSeeker)
        ensures
            seeker@ == self@,
            table_ok(seeker@, seeker.table()),
    {
        let ghost s = self@;
        let items = self.into_items();
        let mut keys: Vec<KeyRange> = Vec::new();
        let mut start: usize = 0;
        let mut shared: usize = 0;
        while start < items.len()
            invariant
                s == doc_views(items@),
                start <= items.len(),
                table_covers(s, keys@, start as int),
                start < items.len() ==> shared == shared_len(
                    key_before(s, keys@, keys.len() as int),
                    key_of(s[start as int]),
                ),
                start < items.len() && keys.len() > 0 ==> key_of(s[start as int]) != key_before(
                    s,
                    keys@,
                    keys.len() as int,
                ),
            decreases items.len() - start,
        {
            let (end, next_shared) = run_end(&items, start);
            let ghost before = keys@;
            let row = KeyRange { start, end, shared, next: 0 };
            keys.push(row);
            proof {
                let t = keys@;
                let n = before.len() as int;
                assert(t[n] == row);
                assert forall|i: int| 0 <= i < t.len() implies #[trigger] row_ok(
                    s,
                    t,
                    i,
                    end as int,
                ) by {
                    if i < n {
                        assert(row_ok(s, before, i, start as int));
                        assert(t[i] == before[i]);
                        if i > 0 {
                            assert(t[i - 1] == before[i - 1]);
                        }
                    } else {
                        if n > 0 {
                            assert(t[n - 1] == before[n - 1]);
                        }
                        assert forall|j: int| row.start <= j < row.end implies key_of(
                            #[trigger] s[j],
                        ) == row_key(s, t, i) by {
                            assert(s[j] == items[j]@);
                        }
                    }
                }
                if end < items.len() {
                    assert(s[end as int] == items[end as int]@);
                    assert(key_before(s, t, t.len() as int) == key_of(s[start as int]));
                }
            }
            shared = next_shared;
            start = end;
        }
        let nexts = skip_rows(&keys);
        let mut rows: Vec<KeyRange> = Vec::with_capacity(keys.len());
        let mut k: usize = 0;
        while k < keys.len()
            invariant
                k <= keys.len(),
                nexts.len() == keys.len(),
                rows.len() == k,
                forall|m: int|
                    0 <= m < k ==> (#[trigger] rows[m]).start == keys[m].start && rows[m].end
                        == keys[m].end && rows[m].shared == keys[m].shared && rows[m].next
                        == nexts[m],
            decreases keys.len() - k,
        {
            let row = keys[k];
            rows.push(KeyRange { start: row.start, end: row.end, shared: row.shared, next: nexts[k] });
            k += 1;
        }
        proof {
            assert(same_ranges(keys@, rows@));
            lemma_covers_same_ranges(s, keys@, rows@);
            assert forall|i: int| 0 <= i < rows.len() implies #[trigger] skip_ok(rows@, i) by {
                assert(skips_to(keys@, i, nexts[i] as int));
                assert forall|r: int| i < r < rows[i].next implies (#[trigger] rows[r]).shared
                    >= rows[i].shared by {
                    assert(keys[r].shared >= keys[i].shared);
                }
                if rows[i].next < rows.len() {
                    assert(keys[rows[i].next as int].shared < keys[i].shared);
                }
            }
        }
        RustDocSeeker { items, keys: rows }
    }
}

impl RustDocSeeker {
    #[verifier::type_invariant]
    spec fn ordered(&self) -> bool {
        strictly_sorted(doc_views(self.items@)) && table_ok(doc_views(self.items@), self.keys@)
    }

    /// The table of keys.
    pub closed spec fn table(&self) -> Seq<KeyRange> {
        self.keys@
    }

    /// The entries, in order.
    pub fn items(&self) -> (items: &Vec<DocItem>)
        ensures
            doc_views(items@) == self@,
            strictly_sorted(self@),
    {
        proof {
            use_type_invariant(self);
        }
        &self.items
    }

    /// The table of the distinct keys, in order, each with the range of its
    /// entries.
    pub fn key_ranges(&self) -> (keys: &Vec<KeyRange>)
        ensures
            keys@ == self.table(),
            table_ok(self@, self.table()),
    {
        proof {
            use_type_invariant(self);
        }
        &self.keys
    }

    /// The entries whose key the acceptor accepts, in the order of the
    /// index: by key, and the entries of one key in their own order.
    ///
    /// The walk keeps the acceptor's states along the key it has just read.
    /// For the next key it goes on from the state at the end of the bytes
    /// that the two keys share, and it leaves a key as soon as the acceptor
    /// is in a state from which nothing can be accepted. From there it skips
    /// all rows whose keys begin with the bytes that led to that state,
    /// without looking at them: it goes from row to row by `next`.
    pub fn search<'a, A: Acceptor>(&'a self, acc: &A) -> (found: Vec<&'a DocItem>)
        requires
            acc.wf(),
        ensures
            found_views(found@) == matching(self@, acc),
    {
        proof {
            use_type_invariant(self);
        }
        let ghost s = doc_views(self.items@);
        let ghost t = self.keys@;
        let ghost wanted = |key: Seq<u8>| accepts(acc, key);
        let mut found: Vec<&'a DocItem> = Vec::new();
        let mut states: Vec<A::State> = Vec::new();
        states.push(acc.start());
        let ghost mut last: Seq<u8> = Seq::empty();
        let mut g: usize = 0;
        proof {
            assert(last.subrange(0, 0) =~= Seq::<u8>::empty());
            assert(found_views(found@) =~= selected(s, wanted, 0));
            acc.lemma_initial();
            if t.len() > 0 {
                assert(row_ok(s, t, 0, s.len() as int));
            }
        }
        while g < self.keys.len()
            invariant
                acc.wf(),
                s == doc_views(self.items@),
                t == self.keys@,
                wanted == (|key: Seq<u8>| accepts(acc, key)),
                table_ok(s, t),
                g <= t.len(),
                1 <= states.len() <= last.len() + 1,
                forall|d: int|
                    0 <= d < states.len() ==> #[trigger] states[d] == state_after(
                        acc,
                        last.subrange(0, d),
                    ),
                forall|d: int| 0 <= d < states.len() ==> acc.inv(#[trigger] states[d]),
                forall|i: int|
                    0 <= i < states.len() - 1 && i < key_before(s, t, g as int).len()
                        ==> #[trigger] last[i] == key_before(s, t, g as int)[i],
                found_views(found@) == selected(s, wanted, row_start(s, t, g as int)),
            decreases t.len() - g,
        {
            let row = self.keys[g];
            assert(row_ok(s, t, g as int, s.len() as int));
            assert(skip_ok(t, g as int));
            let depth: usize = states.len() - 1;
            let dead: bool = row.shared >= depth && !acc.can_match(&states[depth]);
            if dead {
                proof {
                    assert forall|r: int| g <= r < row.next implies !wanted(
                        #[trigger] row_key(s, t, r),
                    ) by {
                        lemma_rows_begin_alike(s, t, g as int, r, last, depth as int);
                        assert(row_key(s, t, r).subrange(0, depth as int) =~= last.subrange(
                            0,
                            depth as int,
                        ));
                        lemma_dead_prefix(acc, row_key(s, t, r), depth as int);
                    }
                    lemma_selected_skip_rows(s, t, wanted, g as int, row.next as int);
                    lemma_rows_begin_alike(s, t, g as int, row.next - 1, last, depth as int);
                }
                g = row.next;
            } else {
                let key = self.items[row.start].index_key();
                assert(key@ == row_key(s, t, g as int));
                proof {
                    lemma_shared_len(key_before(s, t, g as int), key@);
                }
                let keep: usize = if row.shared < depth {
                    row.shared
                } else {
                    depth
                };
                let ghost kept = states@;
                states.truncate(keep + 1);
                assert forall|d: int| 0 <= d < states.len() implies #[trigger] states[d]
                    == state_after(acc, key@.subrange(0, d)) && acc.inv(states[d]) by {
                    assert(states[d] == kept[d]);
                    assert forall|i: int| 0 <= i < d implies last[i] == key@[i] by {
                        assert(last[i] == key_before(s, t, g as int)[i]);
                    }
                    assert(last.subrange(0, d) =~= key@.subrange(0, d));
                }
                let mut d: usize = keep;
                while d < key.len() && acc.can_match(&states[d])
                    invariant
                        acc.wf(),
                        d <= key.len(),
                        states.len() == d + 1,
                        forall|e: int|
                            0 <= e < states.len() ==> #[trigger] states[e] == state_after(
                                acc,
                                key@.subrange(0, e),
                            ),
                        forall|e: int| 0 <= e < states.len() ==> acc.inv(#[trigger] states[e]),
                    decreases key.len() - d,
                {
                    proof {
                        lemma_state_after_push(acc, key@, d as int);
                        lemma_state_after_inv(acc, key@.subrange(0, d + 1));
                    }
                    let next = acc.accept(&states[d], key[d]);
                    states.push(next);
                    d += 1;
                }
                let hit: bool = d == key.len() && acc.is_match(&states[d]);
                proof {
                    if d == key.len() {
                        assert(key@.subrange(0, d as int) =~= key@);
                    } else {
                        lemma_dead_prefix(acc, key@, d as int);
                    }
                    assert(hit == wanted(key@));
                }
                if hit {
                    let mut j: usize = row.start;
                    while j < row.end
                        invariant
                            s == doc_views(self.items@),
                            g < t.len(),
                            row == t[g as int],
                            row_ok(s, t, g as int, s.len() as int),
                            row.start <= j <= row.end,
                            wanted(row_key(s, t, g as int)),
                            found_views(found@) == selected(s, wanted, j as int),
                        decreases row.end - j,
                    {
                        let ghost before = found@;
                        found.push(&self.items[j]);
                        proof {
                            assert(key_of(s[j as int]) == row_key(s, t, g as int));
                            assert(found_views(found@) =~= found_views(before).push(s[j as int]));
                        }
                        j += 1;
                    }
                } else {
                    proof {
                        assert forall|j: int| row.start <= j < row.end implies !wanted(
                            key_of(s[j]),
                        ) by {
                            assert(key_of(s[j]) == row_key(s, t, g as int));
                        }
                        lemma_selected_skip(s, wanted, row.start as int, row.end as int);
                    }
                }
                proof {
                    last = key@;
                    if g + 1 < t.len() {
                        assert(row_ok(s, t, g + 1, s.len() as int));
                    }
                }
                g += 1;
            }
        }
        found
    }

    /// The entries whose key begins with the bytes of `text`.
    pub fn search_prefix<'a>(&'a self, text: &str) -> (found: Vec<&'a DocItem>)
        ensures
            found_views(found@) == selected(
                self@,
                |key: Seq<u8>| starts_with(key, encode_utf8(text@)),
                self@.len() as int,
            ),
    {
        let acc = Prefix::new(text);
        let found = self.search(&acc);
        proof {
            assert forall|j: int| 0 <= j < self@.len() implies accepts(&acc, key_of(self@[j]))
                == starts_with(key_of(self@[j]), encode_utf8(text@)) by {
                acc.lemma_accepts(key_of(self@[j]));
            }
            lemma_selected_same(
                self@,
                |key: Seq<u8>| accepts(&acc, key),
                |key: Seq<u8>| starts_with(key, encode_utf8(text@)),
                self@.len() as int,
            );
        }
        found
    }

    /// The entries in whose key the bytes of `text` occur in their order,
    /// with any bytes between them. Bytes are meant, those of the UTF-8
    /// encoding, not characters: beyond ASCII the two differ, since the bytes
    /// of one character of `text` may be found in two characters of a key.
    pub fn search_subsequence<'a>(&'a self, text: &str) -> (found: Vec<&'a DocItem>)
        ensures
            found_views(found@) == selected(
                self@,
                |key: Seq<u8>| is_subsequence(encode_utf8(text@), key),
                self@.len() as int,
            ),
    {
        let acc = Subsequence::new(text);
        let found = self.search(&acc);
        proof {
            assert forall|j: int| 0 <= j < self@.len() implies accepts(&acc, key_of(self@[j]))
                == is_subsequence(encode_utf8(text@), key_of(self@[j])) by {
                acc.lemma_accepts(key_of(self@[j]));
            }
            lemma_selected_same(
                self@,
                |key: Seq<u8>| accepts(&acc, key),
                |key: Seq<u8>| is_subsequence(encode_utf8(text@), key),
                self@.len() as int,
            );
        }
        found
    }

    /// The entries whose key the regular expression `pattern` matches as a
    /// whole: those whose key the table that the pattern compiles into
    /// accepts. Fails, before any search, if and only if the pattern does not
    /// compile.
    pub fn search_regex<'a>(&'a self, pattern: &str) -> (r: Result<Vec<&'a DocItem>, PatternError>)
        ensures
            r is Ok <==> regex_table(pattern@, usize::BITS) is Some,
            match r {
                Ok(found) => regex_table(pattern@, usize::BITS) matches Some(table) && found_views(
                    found@,
                ) == selected(
                    self@,
                    |key: Seq<u8>| table_accepts(table, key),
                    self@.len() as int,
                ),
                Err(e) => e matches PatternError::InvalidRegex { pattern: p } && p@ == pattern@,
            },
    {
        match RegexAcceptor::new(pattern) {
            Ok(acc) => {
                let found = self.search(&acc);
                proof {
                    let table = regex_table(pattern@, usize::BITS)->0;
                    assert forall|j: int| 0 <= j < self@.len() implies accepts(
                        &acc,
                        key_of(self@[j]),
                    ) == table_accepts(table, key_of(self@[j])) by {
                        acc.lemma_accepts(key_of(self@[j]));
                    }
                    lemma_selected_same(
                        self@,
                        |key: Seq<u8>| accepts(&acc, key),
                        |key: Seq<u8>| table_accepts(table, key),
                        self@.len() as int,
                    );
                }
                Ok(found)
            },
            Err(e) => Err(e),
        }
    }

    /// The entries whose key is within the edit distance `distance` of
    /// `text`. Fails, before any search, if the distance is the greatest that
    /// can be written, or no automaton can be built for the text within it.
    pub fn search_edist<'a>(&'a self, text: &str, distance: u32) -> (r: Result<
        Vec<&'a DocItem>,
        PatternError,
    >)
        ensures
            r is Ok <==> distance < u32::MAX && levenshtein_table(text@, distance) is Some,
            match r {
                Ok(found) => levenshtein_table(text@, distance) matches Some(table) && found_views(
                    found@,
                ) == selected(
                    self@,
                    |key: Seq<u8>| table_accepts(table, key),
                    self@.len() as int,
                ),
                Err(e) => e matches PatternError::InvalidDistance { text: t, distance: d } && t@
                    == text@ && d == distance,
            },
    {
        match EditDistance::new(text, distance) {
            Ok(acc) => {
                let found = self.search(&acc);
                proof {
                    let table = levenshtein_table(text@, distance)->0;
                    assert forall|j: int| 0 <= j < self@.len() implies accepts(
                        &acc,
                        key_of(self@[j]),
                    ) == table_accepts(table, key_of(self@[j])) by {
                        acc.lemma_accepts(key_of(self@[j]));
                    }
                    lemma_selected_same(
                        self@,
                        |key: Seq<u8>| accepts(&acc, key),
                        |key: Seq<u8>| table_accepts(table, key),
                        self@.len() as int,
                    );
                }
                Ok(found)
            },
            Err(e) => Err(e),
        }
    }
}

/// The keys of the rows from row `g` up to the row that a walk may skip to
/// from it all begin with the bytes that the key before row `g` begins with,
/// as far as row `g` shares them: where `base` agrees with that key in its
/// first `depth` bytes, it agrees with the keys of all these rows.
proof fn lemma_rows_begin_alike(
    s: Seq<DocView>,
    t: Seq<KeyRange>,
    g: int,
    r: int,
    base: Seq<u8>,
    depth: int,
)
    requires
        table_ok(s, t),
        0 <= g < t.len(),
        g <= r < t[g].next,
        0 <= depth <= t[g].shared,
        depth <= base.len(),
        forall|i: int|
            0 <= i < depth && i < key_before(s, t, g).len() ==> #[trigger] base[i] == key_before(
                s,
                t,
                g,
            )[i],
    ensures
        r < t.len(),
        depth <= row_key(s, t, r).len(),
        forall|i: int| 0 <= i < depth ==> #[trigger] row_key(s, t, r)[i] == base[i],
    decreases r - g,
{
    let n = s.len() as int;
    assert(skip_ok(t, g));
    assert(row_ok(s, t, r, n));
    lemma_shared_len(key_before(s, t, r), row_key(s, t, r));
    if r > g {
        lemma_rows_begin_alike(s, t, g, r - 1, base, depth);
        assert(t[r].shared >= t[g].shared);
        assert forall|i: int| 0 <= i < depth implies #[trigger] row_key(s, t, r)[i] == base[i] by {
            assert(row_key(s, t, r - 1)[i] == base[i]);
            assert(key_before(s, t, r)[i] == row_key(s, t, r)[i]);
        }
    } else {
        assert forall|i: int| 0 <= i < depth implies #[trigger] row_key(s, t, r)[i] == base[i] by {
            assert(base[i] == key_before(s, t, g)[i]);
            assert(key_before(s, t, r)[i] == row_key(s, t, r)[i]);
        }
    }
}

/// Where no key of the rows from `a` to `b` is wanted, nothing is selected
/// among their entries.
proof fn lemma_selected_skip_rows(
    s: Seq<DocView>,
    t: Seq<KeyRange>,
    wanted: spec_fn(Seq<u8>) -> bool,
    a: int,
    b: int,
)
    requires
        table_ok(s, t),
        0 <= a <= b <= t.len(),
        forall|r: int| a <= r < b ==> !wanted(#[trigger] row_key(s, t, r)),
    ensures
        0 <= row_start(s, t, a) <= row_start(s, t, b) <= s.len(),
        selected(s, wanted, row_start(s, t, b)) == selected(s, wanted, row_start(s, t, a)),
    decreases b - a,
{
    let n = s.len() as int;
    if a < b {
        lemma_selected_skip_rows(s, t, wanted, a, b - 1);
        assert(row_ok(s, t, b - 1, n));
        if b < t.len() {
            assert(row_ok(s, t, b, n));
        }
        assert(!wanted(row_key(s, t, b - 1)));
        assert forall|j: int| t[b - 1].start <= j < t[b - 1].end implies !wanted(
            key_of(s[j]),
        ) by {
            assert(key_of(s[j]) == row_key(s, t, b - 1));
        }
        lemma_selected_skip(s, wanted, t[b - 1].start as int, t[b - 1].end as int);
    } else if a < t.len() {
        assert(row_ok(s, t, a, n));
    }
}

/// The rows of a table begin one after the other.
proof fn lemma_rows_ascend(s: Seq<DocView>, t: Seq<KeyRange>, i: int, j: int)
    requires
        table_ok(s, t),
        0 <= i < j < t.len(),
    ensures
        t[i].start < t[i].end <= t[j].start < s.len(),
    decreases j - i,
{
    let n = s.len() as int;
    assert(row_ok(s, t, i, n));
    assert(row_ok(s, t, j, n));
    if i + 1 < j {
        lemma_rows_ascend(s, t, i, j - 1);
        assert(row_ok(s, t, j - 1, n));
    }
}

/// The table of an index is sorted by key: the key of each row comes
/// strictly before the keys of all later rows in lexicographic order.
pub proof fn lemma_table_keys_sorted(s: Seq<DocView>, t: Seq<KeyRange>, i: int, j: int)
    requires
        strictly_sorted(s),
        table_ok(s, t),
        0 <= i < j < t.len(),
    ensures
        lex_lt(row_key(s, t, i), row_key(s, t, j)),
{
    let n = s.len() as int;
    lemma_rows_ascend(s, t, i, j);
    assert(row_ok(s, t, i + 1, n));
    let a = s[t[i].start as int];
    let b = s[t[i + 1].start as int];
    let c = s[t[j].start as int];
    assert(doc_lt(a, b));
    lemma_doc_lt_keys(a, b);
    assert(lex_lt(key_of(a), key_of(b)));
    if i + 1 < j {
        lemma_rows_ascend(s, t, i + 1, j);
        assert(doc_lt(b, c));
        lemma_doc_lt_keys(b, c);
        if key_of(b) != key_of(c) {
            lemma_lex_transitive(key_of(a), key_of(b), key_of(c));
        }
    }
}

/// Where every key is wanted, every entry is selected.
pub proof fn lemma_selected_all(s: Seq<DocView>, wanted: spec_fn(Seq<u8>) -> bool, n: int)
    requires
        0 <= n <= s.len(),
        forall|j: int| 0 <= j < n ==> wanted(key_of(s[j])),
    ensures
        selected(s, wanted, n) == s.subrange(0, n),
    decreases n,
{
    if n > 0 {
        lemma_selected_all(s, wanted, n - 1);
        assert(s.subrange(0, n) =~= s.subrange(0, n - 1).push(s[n - 1]));
    } else {
        assert(s.subrange(0, 0) =~= Seq::<DocView>::empty());
    }
}

/// What is selected from entries in strict order is in strict order: a
/// search yields its entries in the order of the index, and none twice.
pub proof fn lemma_selected_sorted(s: Seq<DocView>, wanted: spec_fn(Seq<u8>) -> bool, n: int)
    requires
        0 <= n <= s.len(),
        strictly_sorted(s),
    ensures
        strictly_sorted(selected(s, wanted, n)),
    decreases n,
{
    if n > 0 {
        lemma_selected_sorted(s, wanted, n - 1);
        let before = selected(s, wanted, n - 1);
        let now = selected(s, wanted, n);
        if wanted(key_of(s[n - 1])) {
            assert forall|i: int, j: int| 0 <= i < j < now.len() implies doc_lt(
                #[trigger] now[i],
                #[trigger] now[j],
            ) by {
                if j < before.len() {
                    assert(doc_lt(before[i], before[j]));
                } else {
                    assert(before.contains(before[i]));
                    lemma_selected_contains(s, wanted, n - 1, before[i]);
                    let k = choose|k: int| 0 <= k < n - 1 && s[k] == before[i];
                    assert(doc_lt(s[k], s[n - 1]));
                }
            }
        }
    }
}

/// A search by prefix finds an entry of the index if and only if the
/// entry's key begins with the prefix.
pub proof fn lemma_prefix_search(s: Seq<DocView>, prefix: Seq<u8>, v: DocView)
    requires
        s.contains(v),
    ensures
        selected(s, |key: Seq<u8>| starts_with(key, prefix), s.len() as int).contains(v)
            <==> starts_with(key_of(v), prefix),
{
    lemma_selected_contains(s, |key: Seq<u8>| starts_with(key, prefix), s.len() as int, v);
}

/// A search by the empty prefix finds every entry of the index.
pub proof fn lemma_empty_prefix_search(s: Seq<DocView>, prefix: Seq<u8>)
    requires
        prefix.len() == 0,
    ensures
        selected(s, |key: Seq<u8>| starts_with(key, prefix), s.len() as int) == s,
{
    assert forall|j: int| 0 <= j < s.len() implies starts_with(key_of(s[j]), prefix) by {
        assert(key_of(s[j]).subrange(0, 0) =~= prefix);
    }
    lemma_selected_all(s, |key: Seq<u8>| starts_with(key, prefix), s.len() as int);
    assert(s.subrange(0, s.len() as int) =~= s);
}

/// A search with the union of two acceptors finds the entries that a search
/// with either of them finds.
pub proof fn lemma_union_search<A: Acceptor, B: Acceptor>(s: Seq<DocView>, both: Union<A, B>)
    ensures
        elements(matching(s, &both)) == elements(matching(s, &both.first)).union(
            elements(matching(s, &both.second)),
        ),
{
    let n = s.len() as int;
    assert forall|v: DocView|
        elements(matching(s, &both)).contains(v) <==> elements(matching(s, &both.first)).contains(v)
            || elements(matching(s, &both.second)).contains(v) by {
        both.lemma_accepts(key_of(v));
        lemma_selected_contains(s, |key: Seq<u8>| accepts(&both, key), n, v);
        lemma_selected_contains(s, |key: Seq<u8>| accepts(&both.first, key), n, v);
        lemma_selected_contains(s, |key: Seq<u8>| accepts(&both.second, key), n, v);
    }
    assert(elements(matching(s, &both)) =~= elements(matching(s, &both.first)).union(
        elements(matching(s, &both.second)),
    ));
}

/// A search with the intersection of two acceptors finds the entries that
/// the searches with each of them both find.
pub proof fn lemma_intersection_search<A: Acceptor, B: Acceptor>(
    s: Seq<DocView>,
    both: Intersection<A, B>,
)
    ensures
        elements(matching(s, &both)) == elements(matching(s, &both.first)).intersect(
            elements(matching(s, &both.second)),
        ),
{
    let n = s.len() as int;
    assert forall|v: DocView|
        elements(matching(s, &both)).contains(v) <==> elements(matching(s, &both.first)).contains(v)
            && elements(matching(s, &both.second)).contains(v) by {
        both.lemma_accepts(key_of(v));
        lemma_selected_contains(s, |key: Seq<u8>| accepts(&both, key), n, v);
        lemma_selected_contains(s, |key: Seq<u8>| accepts(&both.first, key), n, v);
        lemma_selected_contains(s, |key: Seq<u8>| accepts(&both.second, key), n, v);
    }
    assert(elements(matching(s, &both)) =~= elements(matching(s, &both.first)).intersect(
        elements(matching(s, &both.second)),
    ));
}

/// A search in an index without entries finds nothing, whatever the
/// acceptor.
pub proof fn lemma_empty_index_search<A: Acceptor>(s: Seq<DocView>, acc: &A)
    requires
        s.len() == 0,
    ensures
        matching(s, acc).len() == 0,
{
}

} // verus!
