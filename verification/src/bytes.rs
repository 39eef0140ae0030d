//! Byte strings in lexicographic order.

use vstd::prelude::*;

verus! {

/// The outcome of comparing two values.
#[derive(Clone, Copy, Debug, PartialEq, Eq, Structural)]
pub enum Order {
    Less,
    Equal,
    Greater,
}

/// The length of the longest common prefix of `a` and `b`, counted from `i`
/// on, where the two are known to agree before `i`.
pub open spec fn shared_from(a: Seq<u8>, b: Seq<u8>, i: int) -> int
    decreases a.len() - i,
{
    if 0 <= i < a.len() && i < b.len() && a[i] == b[i] {
        shared_from(a, b, i + 1)
    } else {
        i
    }
}

/// The length of the longest common prefix of `a` and `b`.
pub open spec fn shared_len(a: Seq<u8>, b: Seq<u8>) -> int {
    shared_from(a, b, 0)
}

/// `n` is the length of the longest common prefix of `a` and `b`: they agree
/// before `n`, and at `n` one of them ends or they differ.
pub open spec fn is_shared_len(a: Seq<u8>, b: Seq<u8>, n: int) -> bool {
    &&& 0 <= n <= a.len()
    &&& n <= b.len()
    &&& forall|j: int| 0 <= j < n ==> a[j] == b[j]
    &&& (n == a.len() || n == b.len() || a[n] != b[n])
}

/// `a` comes strictly before `b` in lexicographic order: at the end of their
/// common prefix, `a` ends and `b` does not, or `a` holds the smaller byte.
pub open spec fn lex_lt(a: Seq<u8>, b: Seq<u8>) -> bool {
    let n = shared_len(a, b);
    n < b.len() && (n == a.len() || a[n] < b[n])
}

/// `p` is a prefix of `s`.
pub open spec fn starts_with(s: Seq<u8>, p: Seq<u8>) -> bool {
    p.len() <= s.len() && s.subrange(0, p.len() as int) == p
}

proof fn lemma_shared_from(a: Seq<u8>, b: Seq<u8>, i: int)
    requires
        0 <= i <= a.len(),
        i <= b.len(),
    ensures
        i <= shared_from(a, b, i) <= a.len(),
        shared_from(a, b, i) <= b.len(),
        forall|j: int| i <= j < shared_from(a, b, i) ==> a[j] == b[j],
        shared_from(a, b, i) == a.len() || shared_from(a, b, i) == b.len() || a[shared_from(
            a,
            b,
            i,
        )] != b[shared_from(a, b, i)],
    decreases a.len() - i,
{
    if i < a.len() && i < b.len() && a[i] == b[i] {
        lemma_shared_from(a, b, i + 1);
    }
}

/// The longest common prefix has the length that `shared_len` gives.
pub proof fn lemma_shared_len(a: Seq<u8>, b: Seq<u8>)
    ensures
        is_shared_len(a, b, shared_len(a, b)),
{
    lemma_shared_from(a, b, 0);
}

/// Only one length is that of the longest common prefix.
pub proof fn lemma_shared_len_unique(a: Seq<u8>, b: Seq<u8>, n: int)
    requires
        is_shared_len(a, b, n),
    ensures
        shared_len(a, b) == n,
{
    lemma_shared_len(a, b);
    let m = shared_len(a, b);
    if m < n {
        assert(a[m] == b[m]);
    } else if n < m {
        assert(a[n] == b[n]);
    }
}

/// The common prefix does not depend on the order of the two strings.
pub proof fn lemma_shared_len_symmetric(a: Seq<u8>, b: Seq<u8>)
    ensures
        shared_len(a, b) == shared_len(b, a),
{
    lemma_shared_len(a, b);
    lemma_shared_len_unique(b, a, shared_len(a, b));
}

/// A string shares all of itself with itself.
pub proof fn lemma_shared_len_self(a: Seq<u8>)
    ensures
        shared_len(a, a) == a.len(),
{
    lemma_shared_len_unique(a, a, a.len() as int);
}

/// Of two byte strings exactly one holds: the first comes before the second,
/// they are equal, or the second comes before the first.
pub proof fn lemma_lex_trichotomy(a: Seq<u8>, b: Seq<u8>)
    ensures
        lex_lt(a, b) || a == b || lex_lt(b, a),
        !(lex_lt(a, b) && a == b),
        !(lex_lt(b, a) && a == b),
        !(lex_lt(a, b) && lex_lt(b, a)),
{
    lemma_shared_len(a, b);
    lemma_shared_len_symmetric(a, b);
    let n = shared_len(a, b);
    if n == a.len() && n == b.len() {
        assert(a =~= b);
    }
    if a == b {
        lemma_shared_len_self(a);
    }
}

/// The lexicographic order is transitive.
pub proof fn lemma_lex_transitive(a: Seq<u8>, b: Seq<u8>, c: Seq<u8>)
    requires
        lex_lt(a, b),
        lex_lt(b, c),
    ensures
        lex_lt(a, c),
{
    lemma_shared_len(a, b);
    lemma_shared_len(b, c);
    let n1 = shared_len(a, b);
    let n2 = shared_len(b, c);
    let n = if n1 <= n2 { n1 } else { n2 };
    assert forall|j: int| 0 <= j < n implies a[j] == c[j] by {
        assert(a[j] == b[j]);
        assert(b[j] == c[j]);
    }
    if n1 < n2 {
        assert(b[n1] == c[n1]);
    } else if n2 < n1 {
        assert(a[n2] == b[n2]);
    }
    lemma_shared_len_unique(a, c, n);
}

/// The length of the longest common prefix of two byte strings.
pub fn common_prefix(a: &[u8], b: &[u8]) -> (n: usize)
    ensures
        n == shared_len(a@, b@),
{
    let mut i: usize = 0;
    while i < a.len() && i < b.len() && a[i] == b[i]
        invariant
            i <= a.len(),
            i <= b.len(),
            forall|j: int| 0 <= j < i ==> a@[j] == b@[j],
        decreases a.len() - i,
    {
        i += 1;
    }
    proof {
        lemma_shared_len_unique(a@, b@, i as int);
    }
    i
}

/// Compares two byte strings in lexicographic order.
pub fn compare_bytes(a: &[u8], b: &[u8]) -> (r: Order)
    ensures
        r == Order::Less <==> lex_lt(a@, b@),
        r == Order::Equal <==> a@ == b@,
        r == Order::Greater <==> lex_lt(b@, a@),
{
    let n = common_prefix(a, b);
    proof {
        lemma_shared_len(a@, b@);
        lemma_shared_len_symmetric(a@, b@);
        lemma_lex_trichotomy(a@, b@);
    }
    if n == a.len() {
        if n == b.len() {
            Order::Equal
        } else {
            Order::Less
        }
    } else if n == b.len() {
        Order::Greater
    } else if a[n] < b[n] {
        Order::Less
    } else {
        Order::Greater
    }
}

} // verus!
