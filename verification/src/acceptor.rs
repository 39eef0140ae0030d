//! Finite-state acceptors over the bytes of a key, and the acceptors that
//! are built from others.

use crate::bytes::starts_with;
use vstd::prelude::*;
use vstd::slice::slice_to_vec;
use vstd::utf8::encode_utf8;

verus! {

/// A finite-state acceptor: it reads a key byte by byte and says of the state
/// it has reached whether the key read so far is accepted, and whether any
/// longer key can still be.
pub trait Acceptor {
    type State;

    /// The acceptor is fit for use.
    spec fn wf(&self) -> bool;

    /// `s` is a state of this acceptor.
    spec fn inv(&self, s: Self::State) -> bool;

    /// The state before any byte is read.
    spec fn initial(&self) -> Self::State;

    /// The state after `b` is read in state `s`.
    spec fn step(&self, s: Self::State, b: u8) -> Self::State;

    /// The key that led to `s` is accepted.
    spec fn accepting(&self, s: Self::State) -> bool;

    /// The key that led to `s`, or one that begins with it, may be accepted.
    spec fn live(&self, s: Self::State) -> bool;

    /// The initial state is a state of the acceptor.
    proof fn lemma_initial(&self)
        requires
            self.wf(),
        ensures
            self.inv(self.initial()),
    ;

    /// A step leads from a state of the acceptor to a state of the acceptor.
    proof fn lemma_step(&self, s: Self::State, b: u8)
        requires
            self.wf(),
            self.inv(s),
        ensures
            self.inv(self.step(s, b)),
    ;

    /// A state that is not live accepts nothing and leads only to states
    /// that are not live.
    proof fn lemma_dead(&self, s: Self::State, b: u8)
        requires
            self.wf(),
            self.inv(s),
        ensures
            !self.live(s) ==> !self.accepting(s) && !self.live(self.step(s, b)),
    ;

    fn start(&self) -> (s: Self::State)
        requires
            self.wf(),
        ensures
            s == self.initial(),
    ;

    fn accept(&self, s: &Self::State, b: u8) -> (t: Self::State)
        requires
            self.wf(),
            self.inv(*s),
        ensures
            t == self.step(*s, b),
    ;

    fn is_match(&self, s: &Self::State) -> (r: bool)
        requires
            self.wf(),
            self.inv(*s),
        ensures
            r == self.accepting(*s),
    ;

    fn can_match(&self, s: &Self::State) -> (r: bool)
        requires
            self.wf(),
            self.inv(*s),
        ensures
            r == self.live(*s),
    ;
}

/// The state that the acceptor is in after it has read `key`.
pub open spec fn state_after<A: Acceptor>(acc: &A, key: Seq<u8>) -> A::State
    decreases key.len(),
{
    if key.len() == 0 {
        acc.initial()
    } else {
        acc.step(state_after(acc, key.drop_last()), key.last())
    }
}

/// The acceptor accepts `key`.
pub open spec fn accepts<A: Acceptor>(acc: &A, key: Seq<u8>) -> bool {
    acc.accepting(state_after(acc, key))
}

/// Reading one more byte is one step from the state after the bytes before.
pub proof fn lemma_state_after_push<A: Acceptor>(acc: &A, key: Seq<u8>, n: int)
    requires
        0 <= n < key.len(),
    ensures
        state_after(acc, key.subrange(0, n + 1)) == acc.step(
            state_after(acc, key.subrange(0, n)),
            key[n],
        ),
{
    let k = key.subrange(0, n + 1);
    assert(k.drop_last() =~= key.subrange(0, n));
    assert(k.last() == key[n]);
}

/// Every state that reading a key leads to is a state of the acceptor.
pub proof fn lemma_state_after_inv<A: Acceptor>(acc: &A, key: Seq<u8>)
    requires
        acc.wf(),
    ensures
        acc.inv(state_after(acc, key)),
    decreases key.len(),
{
    if key.len() == 0 {
        acc.lemma_initial();
    } else {
        lemma_state_after_inv(acc, key.drop_last());
        acc.lemma_step(state_after(acc, key.drop_last()), key.last());
    }
}

/// A key is not accepted once one of its prefixes has led to a state that is
/// not live.
pub proof fn lemma_dead_prefix<A: Acceptor>(acc: &A, key: Seq<u8>, n: int)
    requires
        acc.wf(),
        0 <= n <= key.len(),
        !acc.live(state_after(acc, key.subrange(0, n))),
    ensures
        !accepts(acc, key),
        !acc.live(state_after(acc, key)),
    decreases key.len() - n,
{
    lemma_state_after_inv(acc, key.subrange(0, n));
    if n == key.len() {
        assert(key.subrange(0, n) =~= key);
        acc.lemma_dead(state_after(acc, key), 0);
    } else {
        lemma_state_after_push(acc, key, n);
        acc.lemma_dead(state_after(acc, key.subrange(0, n)), key[n]);
        lemma_dead_prefix(acc, key, n + 1);
    }
}

/// Accepts the keys that begin with `text`.
#[derive(Clone, Debug, PartialEq, Eq)]
pub struct Prefix {
    pub text: Vec<u8>,
}

impl Prefix {
    /// The acceptor of the keys that begin with the bytes of `text`.
    pub fn new(text: &str) -> (p: Prefix)
        ensures
            p.text@ == encode_utf8(text@),
    {
        Prefix { text: slice_to_vec(text.as_bytes()) }
    }

    /// The state after `key`: how many bytes of the text have been matched,
    /// or none where `key` and the text differ.
    pub proof fn lemma_state(&self, key: Seq<u8>)
        ensures
            match state_after(self, key) {
                Some(i) => if key.len() <= self.text@.len() {
                    i == key.len() && starts_with(self.text@, key)
                } else {
                    i == self.text@.len() && starts_with(key, self.text@)
                },
                None => if key.len() <= self.text@.len() {
                    !starts_with(self.text@, key)
                } else {
                    !starts_with(key, self.text@)
                },
            },
        decreases key.len(),
    {
        let t = self.text@;
        let bound: usize = self.text.len();
        if key.len() > 0 {
            let k = key.drop_last();
            self.lemma_state(k);
            if key.len() <= t.len() {
                if starts_with(t, k) && t[k.len() as int] == key.last() {
                    assert(t.subrange(0, key.len() as int) =~= key);
                } else if starts_with(t, key) {
                    assert(t.subrange(0, k.len() as int) =~= k);
                    assert(t.subrange(0, key.len() as int)[k.len() as int] == key.last());
                }
            } else if k.len() <= t.len() {
                assert(k.len() == t.len());
                if starts_with(t, k) {
                    assert(t.subrange(0, k.len() as int) =~= t);
                    assert(key.subrange(0, t.len() as int) =~= k);
                } else if starts_with(key, t) {
                    assert(key.subrange(0, t.len() as int) =~= k);
                    assert(t.subrange(0, k.len() as int) =~= t);
                }
            } else {
                assert(key.subrange(0, t.len() as int) =~= k.subrange(0, t.len() as int));
            }
        } else {
            assert(t.subrange(0, 0) =~= key);
        }
    }

    /// A key is accepted if and only if it begins with the text.
    pub proof fn lemma_accepts(&self, key: Seq<u8>)
        ensures
            accepts(self, key) <==> starts_with(key, self.text@),
    {
        self.lemma_state(key);
        let bound: usize = self.text.len();
        if key.len() <= self.text@.len() {
            assert(key.subrange(0, key.len() as int) =~= key);
            assert(self.text@.subrange(0, self.text@.len() as int) =~= self.text@);
        }
    }
}

impl Acceptor for Prefix {
    type State = Option<usize>;

    open spec fn wf(&self) -> bool {
        true
    }

    open spec fn inv(&self, s: Option<usize>) -> bool {
        match s {
            Some(i) => i <= self.text@.len(),
            None => true,
        }
    }

    open spec fn initial(&self) -> Option<usize> {
        Some(0)
    }

    open spec fn step(&self, s: Option<usize>, b: u8) -> Option<usize> {
        match s {
            Some(i) => if i >= self.text@.len() {
                Some(i)
            } else if self.text@[i as int] == b {
                Some((i + 1) as usize)
            } else {
                None
            },
            None => None,
        }
    }

    open spec fn accepting(&self, s: Option<usize>) -> bool {
        s == Some(self.text@.len() as usize)
    }

    open spec fn live(&self, s: Option<usize>) -> bool {
        s is Some
    }

    proof fn lemma_initial(&self) {
    }

    proof fn lemma_step(&self, s: Option<usize>, b: u8) {
    }

    proof fn lemma_dead(&self, s: Option<usize>, b: u8) {
    }

    fn start(&self) -> (s: Option<usize>) {
        Some(0)
    }

    fn accept(&self, s: &Option<usize>, b: u8) -> (t: Option<usize>) {
        match *s {
            Some(i) => if i >= self.text.len() {
                Some(i)
            } else if self.text[i] == b {
                Some(i + 1)
            } else {
                None
            },
            None => None,
        }
    }

    fn is_match(&self, s: &Option<usize>) -> (r: bool) {
        match *s {
            Some(i) => i == self.text.len(),
            None => false,
        }
    }

    fn can_match(&self, s: &Option<usize>) -> (r: bool) {
        s.is_some()
    }
}

/// The bytes of `text` occur in `key` in their order, with any bytes between
/// them.
pub open spec fn is_subsequence(text: Seq<u8>, key: Seq<u8>) -> bool
    decreases key.len(),
{
    if text.len() == 0 {
        true
    } else if key.len() == 0 {
        false
    } else {
        (text.last() == key.last() && is_subsequence(text.drop_last(), key.drop_last()))
            || is_subsequence(text, key.drop_last())
    }
}

/// Accepts the keys in which the bytes of `text` occur in their order. Bytes
/// are meant, not characters: a key is read byte by byte.
#[derive(Clone, Debug, PartialEq, Eq)]
pub struct Subsequence {
    pub text: Vec<u8>,
}

impl Subsequence {
    /// The acceptor of the keys in which the bytes of `text` occur in their
    /// order.
    pub fn new(text: &str) -> (p: Subsequence)
        ensures
            p.text@ == encode_utf8(text@),
    {
        Subsequence { text: slice_to_vec(text.as_bytes()) }
    }

    /// The state after `key` is the length of the longest prefix of the text
    /// that occurs in `key` as a subsequence.
    pub proof fn lemma_state(&self, key: Seq<u8>)
        ensures
            state_after(self, key) <= self.text@.len(),
            forall|j: int|
                0 <= j <= self.text@.len() ==> (#[trigger] is_subsequence(
                    self.text@.subrange(0, j),
                    key,
                ) <==> j <= state_after(self, key)),
        decreases key.len(),
    {
        let t = self.text@;
        let bound: usize = self.text.len();
        if key.len() > 0 {
            let k = key.drop_last();
            self.lemma_state(k);
            let m = state_after(self, k);
            assert forall|j: int| 0 <= j <= t.len() implies (#[trigger] is_subsequence(
                t.subrange(0, j),
                key,
            ) <==> j <= state_after(self, key)) by {
                if j > 0 {
                    let tj = t.subrange(0, j);
                    assert(tj.drop_last() =~= t.subrange(0, j - 1));
                    assert(tj.last() == t[j - 1]);
                    assert(is_subsequence(t.subrange(0, j - 1), k) <==> j - 1 <= m);
                    assert(is_subsequence(tj, k) <==> j <= m);
                }
            }
        }
    }

    /// A key is accepted if and only if the text is a subsequence of it.
    pub proof fn lemma_accepts(&self, key: Seq<u8>)
        ensures
            accepts(self, key) <==> is_subsequence(self.text@, key),
    {
        self.lemma_state(key);
        assert(self.text@.subrange(0, self.text@.len() as int) =~= self.text@);
    }
}

impl Acceptor for Subsequence {
    type State = usize;

    open spec fn wf(&self) -> bool {
        true
    }

    open spec fn inv(&self, s: usize) -> bool {
        s <= self.text@.len()
    }

    open spec fn initial(&self) -> usize {
        0
    }

    open spec fn step(&self, s: usize, b: u8) -> usize {
        if s < self.text@.len() && self.text@[s as int] == b {
            (s + 1) as usize
        } else {
            s
        }
    }

    open spec fn accepting(&self, s: usize) -> bool {
        s == self.text@.len()
    }

    open spec fn live(&self, s: usize) -> bool {
        true
    }

    proof fn lemma_initial(&self) {
    }

    proof fn lemma_step(&self, s: usize, b: u8) {
    }

    proof fn lemma_dead(&self, s: usize, b: u8) {
    }

    fn start(&self) -> (s: usize) {
        0
    }

    fn accept(&self, s: &usize, b: u8) -> (t: usize) {
        if *s < self.text.len() && self.text[*s] == b {
            *s + 1
        } else {
            *s
        }
    }

    fn is_match(&self, s: &usize) -> (r: bool) {
        *s == self.text.len()
    }

    fn can_match(&self, s: &usize) -> (r: bool) {
        true
    }
}

/// Accepts the keys that either of two acceptors accepts.
#[derive(Clone, Debug, PartialEq, Eq)]
pub struct Union<A, B> {
    pub first: A,
    pub second: B,
}

impl<A: Acceptor, B: Acceptor> Union<A, B> {
    /// The acceptor of the keys that `first` or `second` accepts.
    pub fn new(first: A, second: B) -> (u: Union<A, B>)
        ensures
            u.first == first,
            u.second == second,
    {
        Union { first, second }
    }

    /// The state after `key` pairs the states of the two acceptors after it.
    pub proof fn lemma_state(&self, key: Seq<u8>)
        ensures
            state_after(self, key) == (state_after(&self.first, key), state_after(&self.second, key)),
        decreases key.len(),
    {
        if key.len() > 0 {
            self.lemma_state(key.drop_last());
        }
    }

    /// A key is accepted if and only if one of the two acceptors accepts it.
    pub proof fn lemma_accepts(&self, key: Seq<u8>)
        ensures
            accepts(self, key) <==> accepts(&self.first, key) || accepts(&self.second, key),
    {
        self.lemma_state(key);
    }
}

impl<A: Acceptor, B: Acceptor> Acceptor for Union<A, B> {
    type State = (A::State, B::State);

    open spec fn wf(&self) -> bool {
        self.first.wf() && self.second.wf()
    }

    open spec fn inv(&self, s: (A::State, B::State)) -> bool {
        self.first.inv(s.0) && self.second.inv(s.1)
    }

    open spec fn initial(&self) -> (A::State, B::State) {
        (self.first.initial(), self.second.initial())
    }

    open spec fn step(&self, s: (A::State, B::State), b: u8) -> (A::State, B::State) {
        (self.first.step(s.0, b), self.second.step(s.1, b))
    }

    open spec fn accepting(&self, s: (A::State, B::State)) -> bool {
        self.first.accepting(s.0) || self.second.accepting(s.1)
    }

    open spec fn live(&self, s: (A::State, B::State)) -> bool {
        self.first.live(s.0) || self.second.live(s.1)
    }

    proof fn lemma_initial(&self) {
        self.first.lemma_initial();
        self.second.lemma_initial();
    }

    proof fn lemma_step(&self, s: (A::State, B::State), b: u8) {
        self.first.lemma_step(s.0, b);
        self.second.lemma_step(s.1, b);
    }

    proof fn lemma_dead(&self, s: (A::State, B::State), b: u8) {
        self.first.lemma_dead(s.0, b);
        self.second.lemma_dead(s.1, b);
    }

    fn start(&self) -> (s: (A::State, B::State)) {
        (self.first.start(), self.second.start())
    }

    fn accept(&self, s: &(A::State, B::State), b: u8) -> (t: (A::State, B::State)) {
        (self.first.accept(&s.0, b), self.second.accept(&s.1, b))
    }

    fn is_match(&self, s: &(A::State, B::State)) -> (r: bool) {
        self.first.is_match(&s.0) || self.second.is_match(&s.1)
    }

    fn can_match(&self, s: &(A::State, B::State)) -> (r: bool) {
        self.first.can_match(&s.0) || self.second.can_match(&s.1)
    }
}

/// Accepts the keys that both of two acceptors accept.
#[derive(Clone, Debug, PartialEq, Eq)]
pub struct Intersection<A, B> {
    pub first: A,
    pub second: B,
}

impl<A: Acceptor, B: Acceptor> Intersection<A, B> {
    /// The acceptor of the keys that `first` and `second` both accept.
    pub fn new(first: A, second: B) -> (u: Intersection<A, B>)
        ensures
            u.first == first,
            u.second == second,
    {
        Intersection { first, second }
    }

    /// The state after `key` pairs the states of the two acceptors after it.
    pub proof fn lemma_state(&self, key: Seq<u8>)
        ensures
            state_after(self, key) == (state_after(&self.first, key), state_after(&self.second, key)),
        decreases key.len(),
    {
        if key.len() > 0 {
            self.lemma_state(key.drop_last());
        }
    }

    /// A key is accepted if and only if both acceptors accept it.
    pub proof fn lemma_accepts(&self, key: Seq<u8>)
        ensures
            accepts(self, key) <==> accepts(&self.first, key) && accepts(&self.second, key),
    {
        self.lemma_state(key);
    }
}

impl<A: Acceptor, B: Acceptor> Acceptor for Intersection<A, B> {
    type State = (A::State, B::State);

    open spec fn wf(&self) -> bool {
        self.first.wf() && self.second.wf()
    }

    open spec fn inv(&self, s: (A::State, B::State)) -> bool {
        self.first.inv(s.0) && self.second.inv(s.1)
    }

    open spec fn initial(&self) -> (A::State, B::State) {
        (self.first.initial(), self.second.initial())
    }

    open spec fn step(&self, s: (A::State, B::State), b: u8) -> (A::State, B::State) {
        (self.first.step(s.0, b), self.second.step(s.1, b))
    }

    open spec fn accepting(&self, s: (A::State, B::State)) -> bool {
        self.first.accepting(s.0) && self.second.accepting(s.1)
    }

    open spec fn live(&self, s: (A::State, B::State)) -> bool {
        self.first.live(s.0) && self.second.live(s.1)
    }

    proof fn lemma_initial(&self) {
        self.first.lemma_initial();
        self.second.lemma_initial();
    }

    proof fn lemma_step(&self, s: (A::State, B::State), b: u8) {
        self.first.lemma_step(s.0, b);
        self.second.lemma_step(s.1, b);
    }

    proof fn lemma_dead(&self, s: (A::State, B::State), b: u8) {
        self.first.lemma_dead(s.0, b);
        self.second.lemma_dead(s.1, b);
    }

    fn start(&self) -> (s: (A::State, B::State)) {
        (self.first.start(), self.second.start())
    }

    fn accept(&self, s: &(A::State, B::State), b: u8) -> (t: (A::State, B::State)) {
        (self.first.accept(&s.0, b), self.second.accept(&s.1, b))
    }

    fn is_match(&self, s: &(A::State, B::State)) -> (r: bool) {
        self.first.is_match(&s.0) && self.second.is_match(&s.1)
    }

    fn can_match(&self, s: &(A::State, B::State)) -> (r: bool) {
        self.first.can_match(&s.0) && self.second.can_match(&s.1)
    }
}

/// The state of a `StartsWith`: a prefix of the key has been accepted, or the
/// inner acceptor is still reading.
#[derive(Clone, Debug, PartialEq, Eq)]
pub enum Lifted<S> {
    Done,
    Running(S),
}

/// Accepts the keys of which the inner acceptor accepts a prefix.
#[derive(Clone, Debug, PartialEq, Eq)]
pub struct StartsWith<A> {
    pub inner: A,
}

/// The acceptor accepts one of the prefixes of `key`, `key` itself counted.
pub open spec fn accepts_prefix<A: Acceptor>(acc: &A, key: Seq<u8>) -> bool {
    exists|n: int| 0 <= n <= key.len() && #[trigger] accepts(acc, key.subrange(0, n))
}

impl<A: Acceptor> StartsWith<A> {
    /// The acceptor of the keys that begin with a key that `inner` accepts.
    pub fn new(inner: A) -> (u: StartsWith<A>)
        ensures
            u.inner == inner,
    {
        StartsWith { inner }
    }

    /// The state after `key` is `Done` where the inner acceptor accepts a
    /// prefix of `key`, and else holds the inner acceptor's state after it.
    pub proof fn lemma_state(&self, key: Seq<u8>)
        ensures
            state_after(self, key) == (if accepts_prefix(&self.inner, key) {
                Lifted::Done
            } else {
                Lifted::Running(state_after(&self.inner, key))
            }),
        decreases key.len(),
    {
        let inner = &self.inner;
        assert(key.subrange(0, key.len() as int) =~= key);
        if key.len() == 0 {
            if inner.accepting(inner.initial()) {
                assert(accepts(inner, key.subrange(0, 0)));
            }
        } else {
            let k = key.drop_last();
            self.lemma_state(k);
            if accepts_prefix(inner, k) {
                let n = choose|n: int| 0 <= n <= k.len() && #[trigger] accepts(inner, k.subrange(0, n));
                assert(key.subrange(0, n) =~= k.subrange(0, n));
                assert(accepts(inner, key.subrange(0, n)));
            } else if accepts(inner, key) {
                assert(accepts(inner, key.subrange(0, key.len() as int)));
            } else if accepts_prefix(inner, key) {
                let n = choose|n: int|
                    0 <= n <= key.len() && #[trigger] accepts(inner, key.subrange(0, n));
                assert(n < key.len());
                assert(key.subrange(0, n) =~= k.subrange(0, n));
                assert(accepts(inner, k.subrange(0, n)));
            }
        }
    }

    /// A key is accepted if and only if the inner acceptor accepts one of its
    /// prefixes.
    pub proof fn lemma_accepts(&self, key: Seq<u8>)
        ensures
            accepts(self, key) <==> accepts_prefix(&self.inner, key),
    {
        self.lemma_state(key);
    }
}

impl<A: Acceptor> Acceptor for StartsWith<A> {
    type State = Lifted<A::State>;

    open spec fn wf(&self) -> bool {
        self.inner.wf()
    }

    open spec fn inv(&self, s: Lifted<A::State>) -> bool {
        match s {
            Lifted::Done => true,
            Lifted::Running(t) => self.inner.inv(t),
        }
    }

    open spec fn initial(&self) -> Lifted<A::State> {
        if self.inner.accepting(self.inner.initial()) {
            Lifted::Done
        } else {
            Lifted::Running(self.inner.initial())
        }
    }

    open spec fn step(&self, s: Lifted<A::State>, b: u8) -> Lifted<A::State> {
        match s {
            Lifted::Done => Lifted::Done,
            Lifted::Running(t) => if self.inner.accepting(self.inner.step(t, b)) {
                Lifted::Done
            } else {
                Lifted::Running(self.inner.step(t, b))
            },
        }
    }

    open spec fn accepting(&self, s: Lifted<A::State>) -> bool {
        s is Done
    }

    open spec fn live(&self, s: Lifted<A::State>) -> bool {
        match s {
            Lifted::Done => true,
            Lifted::Running(t) => self.inner.live(t),
        }
    }

    proof fn lemma_initial(&self) {
        self.inner.lemma_initial();
    }

    proof fn lemma_step(&self, s: Lifted<A::State>, b: u8) {
        if let Lifted::Running(t) = s {
            self.inner.lemma_step(t, b);
        }
    }

    proof fn lemma_dead(&self, s: Lifted<A::State>, b: u8) {
        if let Lifted::Running(t) = s {
            self.inner.lemma_dead(t, b);
            self.inner.lemma_step(t, b);
            self.inner.lemma_dead(self.inner.step(t, b), b);
        }
    }

    fn start(&self) -> (s: Lifted<A::State>) {
        proof {
            self.inner.lemma_initial();
        }
        let t = self.inner.start();
        if self.inner.is_match(&t) {
            Lifted::Done
        } else {
            Lifted::Running(t)
        }
    }

    fn accept(&self, s: &Lifted<A::State>, b: u8) -> (t: Lifted<A::State>) {
        match s {
            Lifted::Done => Lifted::Done,
            Lifted::Running(t) => {
                proof {
                    self.inner.lemma_step(*t, b);
                }
                let n = self.inner.accept(t, b);
                if self.inner.is_match(&n) {
                    Lifted::Done
                } else {
                    Lifted::Running(n)
                }
            },
        }
    }

    fn is_match(&self, s: &Lifted<A::State>) -> (r: bool) {
        match s {
            Lifted::Done => true,
            Lifted::Running(_) => false,
        }
    }

    fn can_match(&self, s: &Lifted<A::State>) -> (r: bool) {
        match s {
            Lifted::Done => true,
            Lifted::Running(t) => self.inner.can_match(t),
        }
    }
}

} // verus!
