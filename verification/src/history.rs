//! Fixed-capacity ring buffer for time series.
//!
//! Capacity is fixed at construction so a long-running session has a hard memory
//! ceiling. When full, a push evicts the oldest element.
use std::collections::VecDeque;
use vstd::prelude::*;
use vstd::std_specs::vecdeque::*;

verus! {

broadcast use vstd::std_specs::vecdeque::group_vec_dequeue_axioms;

/// The contents of a ring of capacity `cap` holding `s` after `v` is pushed.
pub open spec fn ring_push<A>(s: Seq<A>, v: A, cap: nat) -> Seq<A> {
    if s.len() >= cap {
        s.drop_first().push(v)
    } else {
        s.push(v)
    }
}

/// The contents of a ring of capacity `cap` holding `s` after the values `vs`
/// are pushed in order.
pub open spec fn ring_push_all<A>(s: Seq<A>, vs: Seq<A>, cap: nat) -> Seq<A>
    decreases vs.len(),
{
    if vs.len() == 0 {
        s
    } else {
        ring_push_all(ring_push(s, vs[0], cap), vs.drop_first(), cap)
    }
}

/// The last `min(n, s.len())` elements of `s`.
pub open spec fn last_n<A>(s: Seq<A>, n: nat) -> Seq<A> {
    if s.len() <= n {
        s
    } else {
        s.subrange(s.len() - n, s.len() as int)
    }
}

/// A bounded FIFO that drops its oldest element when full.
#[derive(Debug, Clone)]
pub struct Ring<T> {
    buf: VecDeque<T>,
    cap: usize,
}

impl<T> View for Ring<T> {
    type V = Seq<T>;

    /// Oldest to newest.
    closed spec fn view(&self) -> Seq<T> {
        self.buf@
    }
}

impl<T> Ring<T> {
    /// The fixed capacity.
    pub closed spec fn cap(&self) -> nat {
        self.cap as nat
    }

    /// The ring's internal invariant: a positive capacity that the contents fit in.
    pub closed spec fn wf(&self) -> bool {
        &&& 1 <= self.cap
        &&& self.buf@.len() <= self.cap
    }

    /// Create a ring holding at most `cap` elements. `cap` of zero is clamped to one.
    pub fn new(cap: usize) -> (r: Ring<T>)
        ensures
            r.wf(),
            r@ == Seq::<T>::empty(),
            r.cap() == (if cap == 0 { 1 } else { cap as nat }),
    {
        let cap = if cap == 0 { 1 } else { cap };
        Ring { buf: VecDeque::with_capacity(cap), cap }
    }

    /// Append, evicting the oldest element if at capacity.
    pub fn push(&mut self, value: T)
        requires
            old(self).wf(),
        ensures
            final(self).wf(),
            final(self).cap() == old(self).cap(),
            final(self)@ == ring_push(old(self)@, value, old(self).cap()),
            final(self)@.len() <= final(self).cap(),
    {
        if self.buf.len() == self.cap {
            let _ = self.buf.pop_front();
        }
        self.buf.push_back(value);
    }

    pub fn capacity(&self) -> (r: usize)
        requires
            self.wf(),
        ensures
            r == self.cap(),
            r >= 1,
            self@.len() <= r,
    {
        self.cap
    }

    pub fn len(&self) -> (r: usize)
        requires
            self.wf(),
        ensures
            r == self@.len(),
            r <= self.cap(),
    {
        self.buf.len()
    }

    pub fn is_empty(&self) -> (r: bool)
        ensures
            r == (self@.len() == 0),
    {
        self.buf.len() == 0
    }

    /// Most recently pushed element.
    pub fn latest(&self) -> (r: Option<&T>)
        ensures
            r == (if self@.len() == 0 {
                None::<&T>
            } else {
                Some(&self@.last())
            }),
    {
        let n = self.buf.len();
        if n == 0 {
            None
        } else {
            Some(&self.buf[n - 1])
        }
    }

    /// Oldest to newest.
    pub fn iter(&self) -> (r: std::collections::vec_deque::Iter<'_, T>)
        ensures
            vstd::std_specs::iter::IteratorSpec::remaining(&r) == self@.as_ref(),
    {
        self.buf.iter()
    }

    /// Discard all elements, keeping capacity.
    pub fn clear(&mut self)
        requires
            old(self).wf(),
        ensures
            final(self).wf(),
            final(self)@ == Seq::<T>::empty(),
            final(self).cap() == old(self).cap(),
    {
        self.buf.clear();
    }
}

/// Pushing into a ring never lets it hold more than its capacity, and what it
/// holds is exactly the newest values: starting from any contents that fit, a
/// run of pushes leaves the last `cap` elements of the old contents followed by
/// the pushed values.
pub proof fn lemma_ring_keeps_newest<A>(s: Seq<A>, vs: Seq<A>, cap: nat)
    requires
        cap >= 1,
        s.len() <= cap,
    ensures
        ring_push_all(s, vs, cap) == last_n(s + vs, cap),
        ring_push_all(s, vs, cap).len() <= cap,
    decreases vs.len(),
{
    if vs.len() == 0 {
        assert(s + vs =~= s);
    } else {
        let s1 = ring_push(s, vs[0], cap);
        lemma_ring_keeps_newest(s1, vs.drop_first(), cap);
        let t = s + vs;
        let t1 = s1 + vs.drop_first();
        if s.len() >= cap {
            assert(t1 =~= t.drop_first());
            assert(last_n(t1, cap) =~= last_n(t, cap));
        } else {
            assert(t1 =~= t);
        }
    }
}

/// The contents of a ring of capacity `cap` holding `s` after a run of calls:
/// `Some(v)` pushes `v`, `None` clears.
pub open spec fn ring_run<A>(s: Seq<A>, ops: Seq<Option<A>>, cap: nat) -> Seq<A>
    decreases ops.len(),
{
    if ops.len() == 0 {
        s
    } else {
        let r = ring_run(s, ops.drop_last(), cap);
        match ops.last() {
            Some(v) => ring_push(r, v, cap),
            None => Seq::empty(),
        }
    }
}

/// What a ring holding `s` has been given since it was last cleared, oldest
/// first: `s` and the pushes of `ops` when `ops` holds no clear, else the pushes
/// after the last clear.
pub open spec fn since_clear<A>(s: Seq<A>, ops: Seq<Option<A>>) -> Seq<A>
    decreases ops.len(),
{
    if ops.len() == 0 {
        s
    } else {
        match ops.last() {
            Some(v) => since_clear(s, ops.drop_last()).push(v),
            None => Seq::empty(),
        }
    }
}

proof fn lemma_push_onto_newest<A>(t: Seq<A>, v: A, cap: nat)
    requires
        cap >= 1,
    ensures
        ring_push(last_n(t, cap), v, cap) == last_n(t.push(v), cap),
{
    let u = t.push(v);
    if t.len() < cap {
        assert(last_n(u, cap) =~= u);
    } else if t.len() == cap {
        assert(last_n(t, cap).drop_first().push(v) =~= u.subrange(u.len() - cap, u.len() as int));
    } else {
        assert(last_n(t, cap).drop_first().push(v) =~= u.subrange(u.len() - cap, u.len() as int));
    }
}

/// Whatever run of pushes and clears a ring goes through, it holds exactly the
/// newest `cap` of the values it was given since its last clear, oldest first,
/// and never more than `cap` of them. From a new ring (`s` empty) after `k`
/// pushes with no clear, that is the last `min(k, cap)` values pushed.
pub proof fn lemma_ring_run_keeps_newest<A>(s: Seq<A>, ops: Seq<Option<A>>, cap: nat)
    requires
        cap >= 1,
        s.len() <= cap,
    ensures
        ring_run(s, ops, cap) == last_n(since_clear(s, ops), cap),
        ring_run(s, ops, cap).len() <= cap,
    decreases ops.len(),
{
    if ops.len() == 0 {
        assert(last_n(s, cap) == s);
    } else {
        lemma_ring_run_keeps_newest(s, ops.drop_last(), cap);
        match ops.last() {
            Some(v) => {
                lemma_push_onto_newest(since_clear(s, ops.drop_last()), v, cap);
            },
            None => {
                assert(last_n(Seq::<A>::empty(), cap) == Seq::<A>::empty());
            },
        }
    }
}

} // verus!
