//! A multi-callback dispatcher: a table of slots, each empty or holding a callback stamped
//! with a sequence number. Callbacks run in the order they were installed, whatever slot
//! they landed in; freed slots are reused lowest first.
//!
//! The callback type `C` is any `Fn(A) -> R`. To install different closures in one
//! dispatcher, use a boxed closure type such as `Box<dyn Fn(A) -> R + Send>`.
use std::marker::PhantomData;
use std::sync::Arc;
use vstd::prelude::*;

verus! {

/// One position of the table.
pub enum Slot<C> {
    Empty,
    /// A callback with the sequence number it was installed under.
    Occupied(u64, C),
}

/// The slot holds a callback.
pub open spec fn occupied<C>(s: Slot<C>) -> bool {
    s is Occupied
}

/// The sequence number of an occupied slot (0 for an empty one).
pub open spec fn seq_no<C>(s: Slot<C>) -> int {
    match s {
        Slot::Occupied(k, _) => k as int,
        Slot::Empty => 0,
    }
}

/// `r` is what the slot's callback may return when handed a copy of `arg`.
pub open spec fn answers<A: Clone, R, C: Fn(A) -> R>(s: Slot<C>, arg: A, r: R) -> bool {
    match s {
        Slot::Occupied(_, f) => exists|c: A| cloned(arg, c) && call_ensures(f, (c,), r),
        Slot::Empty => false,
    }
}

/// An empty slot, or one whose callback accepts every argument.
pub open spec fn accepts_all<A, R, C: Fn(A) -> R>(s: Slot<C>) -> bool {
    match s {
        Slot::Occupied(_, f) => forall|a: A| call_requires(f, (a,)),
        Slot::Empty => true,
    }
}

/// The callback of an occupied slot.
pub open spec fn callback<C>(s: Slot<C>) -> C
    recommends
        s is Occupied,
{
    s->Occupied_1
}

/// The number of occupied slots in `t`.
pub open spec fn occupied_count<C>(t: Seq<Slot<C>>) -> nat
    decreases t.len(),
{
    if t.len() == 0 {
        0
    } else {
        occupied_count(t.drop_last()) + if occupied(t.last()) {
            1nat
        } else {
            0nat
        }
    }
}

/// Whether the slot holds no callback.
fn is_empty<C>(s: &Slot<C>) -> (r: bool)
    ensures
        r == !occupied(*s),
{
    match s {
        Slot::Empty => true,
        Slot::Occupied(_, _) => false,
    }
}

/// The occupied positions of `t`.
pub open spec fn occupied_set<C>(t: Seq<Slot<C>>) -> Set<int> {
    Set::new(|p: int| 0 <= p < t.len() && occupied(t[p]))
}

/// `occupied_count` counts the positions of `occupied_set`.
proof fn lemma_occupied_count_is_set_len<C>(t: Seq<Slot<C>>)
    ensures
        occupied_set(t).finite(),
        occupied_set(t).len() == occupied_count(t),
    decreases t.len(),
{
    if t.len() == 0 {
        assert(occupied_set(t) =~= Set::empty());
    } else {
        let s = t.drop_last();
        lemma_occupied_count_is_set_len(s);
        if occupied(t.last()) {
            assert(occupied_set(t) =~= occupied_set(s).insert(t.len() - 1));
        } else {
            assert(occupied_set(t) =~= occupied_set(s));
        }
    }
}

/// Why `remove` refused a handle.
#[derive(Debug, Clone, Copy, PartialEq, Eq)]
pub enum DelegateError {
    /// The dispatcher that issued the handle no longer exists.
    StaleHandle,
    /// The handle's position lies beyond the table.
    OutOfBounds,
    /// The handle was issued by another dispatcher.
    ForeignHandle,
}

/// A non-owning reference to a dispatcher's liveness anchor: it does not keep the
/// dispatcher alive, and resolves to nothing once the dispatcher is gone.
#[verifier::external_body]
struct Link {
    target: std::sync::Weak<()>,
}

/// Relies on `std::sync::Arc::downgrade`: a weak reference to the anchor's allocation
/// that does not keep it alive.
#[verifier::external_body]
fn link_to(anchor: &Arc<()>) -> (l: Link) {
    Link { target: Arc::downgrade(anchor) }
}

/// Relies on `std::sync::Weak::upgrade`: a strong reference to the allocation while one
/// still exists elsewhere, `None` once it was dropped.
#[verifier::external_body]
fn resolve(l: &Link) -> (r: Option<Arc<()>>) {
    l.target.upgrade()
}

/// Relies on `std::sync::Arc::ptr_eq`: whether two strong references share one allocation.
#[verifier::external_body]
fn same_anchor(a: &Arc<()>, b: &Arc<()>) -> (r: bool) {
    Arc::ptr_eq(a, b)
}

/// What resolving a handle's link against a dispatcher found.
#[derive(Debug, Clone, Copy, PartialEq, Eq)]
pub enum Resolution {
    /// The issuing dispatcher is gone.
    Dropped,
    /// The issuing dispatcher is alive but is not this one.
    Foreign,
    /// The handle was issued by this dispatcher.
    Own,
}

/// Returned by [`Delegate::add`]; names the slot that the callback went to. It is consumed
/// by [`Delegate::remove`], so it can be used at most once.
#[verifier::reject_recursive_types(A)]
#[verifier::reject_recursive_types(R)]
pub struct SlotHandle<A, R> {
    pos: usize,
    link: Link,
    sig: PhantomData<(A, R)>,
}

impl<A, R> SlotHandle<A, R> {
    /// The table position recorded in the handle.
    pub closed spec fn position(&self) -> int {
        self.pos as int
    }

    /// The table position that the handle's callback occupies.
    pub fn pos(&self) -> (r: usize)
        ensures
            r == self.position(),
    {
        self.pos
    }
}

/// The dispatcher: a table of slots, the counter that stamps new callbacks, and the
/// anchor that its handles refer to without owning it.
#[verifier::reject_recursive_types(A)]
#[verifier::reject_recursive_types(R)]
pub struct Delegate<A, R, C: Fn(A) -> R> {
    slots: Vec<Slot<C>>,
    sig: PhantomData<(A, R)>,
    max: u64,
    anchor: Arc<()>,
    /// The occupied positions, in the order their callbacks run.
    order: Ghost<Seq<int>>,
}

impl<A, R, C: Fn(A) -> R> Delegate<A, R, C> {
    /// The slot table.
    pub closed spec fn table(&self) -> Seq<Slot<C>> {
        self.slots@
    }

    /// The last sequence number handed out (0 before the first `add`).
    pub closed spec fn issued(&self) -> int {
        self.max as int
    }

    /// The occupied positions in invocation order.
    pub closed spec fn order(&self) -> Seq<int> {
        self.order@
    }

    /// Sequence numbers lie in `1..=issued`; `order` lists every occupied position and
    /// nothing else, by strictly increasing sequence number.
    pub open spec fn wf(&self) -> bool {
        let t = self.table();
        let o = self.order();
        &&& 0 <= self.issued() <= u64::MAX
        &&& forall|p: int|
            0 <= p < t.len() && occupied(#[trigger] t[p]) ==> 1 <= seq_no(t[p]) <= self.issued()
        &&& forall|p: int| 0 <= p < t.len() ==> accepts_all::<A, R, C>(#[trigger] t[p])
        &&& forall|i: int| 0 <= i < o.len() ==> 0 <= #[trigger] o[i] < t.len() && occupied(t[o[i]])
        &&& forall|p: int| 0 <= p < t.len() && occupied(#[trigger] t[p]) ==> o.contains(p)
        &&& forall|i: int, j: int|
            0 <= i < j < o.len() ==> seq_no(t[#[trigger] o[i]]) < seq_no(t[#[trigger] o[j]])
    }

    /// `after` is `before` with `cb` installed at `pos`: the lowest empty position, or a
    /// new one at the end; it gets the next sequence number and runs last.
    pub open spec fn added(before: Self, after: Self, pos: int, cb: C) -> bool {
        let t = before.table();
        let u = after.table();
        &&& 0 <= pos <= t.len()
        &&& forall|q: int| 0 <= q < pos ==> occupied(#[trigger] t[q])
        &&& pos < t.len() ==> !occupied(t[pos])
        &&& u.len() == t.len() + if pos == t.len() {
            1int
        } else {
            0int
        }
        &&& forall|q: int| 0 <= q < t.len() && q != pos ==> #[trigger] u[q] == t[q]
        &&& u[pos] == Slot::Occupied((before.issued() + 1) as u64, cb)
        &&& after.issued() == before.issued() + 1
        &&& after.order() == before.order().push(pos)
    }

    /// `after` is `before` with the slot at `pos` emptied.
    pub open spec fn removed(before: Self, after: Self, pos: int) -> bool {
        &&& 0 <= pos < before.table().len()
        &&& after.table() == before.table().update(pos, Slot::Empty)
        &&& after.issued() == before.issued()
        &&& after.order() == before.order().remove_value(pos)
        &&& after.order().len() == before.order().len() - if occupied(before.table()[pos]) {
            1int
        } else {
            0int
        }
    }

    /// The invocation order has one entry per occupied slot.
    proof fn lemma_order_len(&self)
        requires
            self.wf(),
        ensures
            self.order().len() == occupied_count(self.table()),
    {
        let t = self.table();
        let o = self.order();
        lemma_occupied_count_is_set_len(t);
        assert(o.no_duplicates()) by {
            assert forall|i: int, j: int| 0 <= i < o.len() && 0 <= j < o.len() && i != j implies o[i]
                != o[j] by {
                if i < j {
                    assert(seq_no(t[o[i]]) < seq_no(t[o[j]]));
                } else {
                    assert(seq_no(t[o[j]]) < seq_no(t[o[i]]));
                }
            }
        }
        o.unique_seq_to_set();
        assert(o.to_set() =~= occupied_set(t)) by {
            assert forall|p: int| o.to_set().contains(p) implies occupied_set(t).contains(p) by {
                let i = choose|i: int| 0 <= i < o.len() && o[i] == p;
                assert(0 <= o[i] < t.len());
            }
            assert forall|p: int| occupied_set(t).contains(p) implies o.to_set().contains(p) by {
                assert(occupied(t[p]));
            }
        }
    }

    /// An empty dispatcher.
    pub fn new() -> (d: Self)
        ensures
            d.wf(),
            d.table().len() == 0,
            d.order().len() == 0,
            d.issued() == 0,
    {
        Delegate { slots: Vec::new(), sig: PhantomData, max: 0, anchor: Arc::new(()), order: Ghost(Seq::empty()) }
    }

    /// The number of occupied slots.
    pub fn len(&self) -> (r: usize)
        requires
            self.wf(),
        ensures
            r == occupied_count(self.table()),
            r == self.order().len(),
    {
        let ghost t = self.table();
        let mut n: usize = 0;
        let mut p: usize = 0;
        while p < self.slots.len()
            invariant
                t == self.slots@,
                p <= t.len(),
                n <= p,
                n == occupied_count(t.take(p as int)),
            decreases t.len() - p,
        {
            assert(t.take(p + 1).drop_last() =~= t.take(p as int));
            if !is_empty(&self.slots[p]) {
                n = n + 1;
            }
            p = p + 1;
        }
        proof {
            assert(t.take(t.len() as int) =~= t);
            self.lemma_order_len();
        }
        n
    }

    /// Stamps `cb` with the next sequence number, advancing the counter.
    fn make_occupied(&mut self, cb: C) -> (s: Slot<C>)
        requires
            old(self).wf(),
            old(self).issued() < u64::MAX,
        ensures
            final(self).wf(),
            final(self).table() == old(self).table(),
            final(self).order() == old(self).order(),
            final(self).issued() == old(self).issued() + 1,
            s == Slot::Occupied(final(self).issued() as u64, cb),
    {
        let next = self.max + 1;
        self.max = next;
        assert(self.table() == old(self).table());
        assert(self.order() == old(self).order());
        Slot::Occupied(next, cb)
    }

    /// Installs the closure `cb` in the lowest empty slot, or in a new slot at the end
    /// when none is empty. It gets the next sequence number, so it runs after every
    /// callback already installed.
    pub fn add(&mut self, cb: C) -> (h: SlotHandle<A, R>)
        requires
            old(self).wf(),
            old(self).issued() < u64::MAX,
            forall|a: A| call_requires(cb, (a,)),
        ensures
            final(self).wf(),
            Self::added(*old(self), *final(self), h.position(), cb),
    {
        let ghost t0 = self.slots@;
        let mut i: usize = 0;
        while i < self.slots.len() && !is_empty(&self.slots[i])
            invariant
                self.slots@ == t0,
                0 <= i <= t0.len(),
                forall|q: int| 0 <= q < i ==> occupied(#[trigger] t0[q]),
            decreases t0.len() - i,
        {
            i = i + 1;
        }
        let ghost before = *self;
        let slot = self.make_occupied(cb);
        let ghost k = seq_no(slot);
        let pos = if i < self.slots.len() {
            self.slots[i] = slot;
            i
        } else {
            let n = self.slots.len();
            self.slots.push(slot);
            n
        };
        assert(self.slots@.len() == t0.len() + if pos == t0.len() { 1int } else { 0int });
        assert(self.slots@[pos as int] == Slot::Occupied(k as u64, cb));
        assert(forall|q: int| 0 <= q < t0.len() && q != pos ==> self.slots@[q] == t0[q]);
        proof {
            let o0 = before.order();
            self.order = Ghost(o0.push(pos as int));
            let t = self.table();
            let o = self.order();
            assert(t == self.slots@);
            assert(o0 == old(self).order());
            assert forall|p: int| 0 <= p < t.len() && occupied(#[trigger] t[p]) implies o.contains(
                p,
            ) by {
                if p != pos {
                    assert(occupied(t0[p]));
                    assert(o0.contains(p));
                    let j = choose|j: int| 0 <= j < o0.len() && o0[j] == p;
                    assert(o[j] == p);
                } else {
                    assert(o[o.len() - 1] == p);
                }
            }
            assert forall|j: int| 0 <= j < o.len() implies 0 <= #[trigger] o[j] < t.len() && occupied(
                t[o[j]],
            ) by {
                if j < o0.len() {
                    assert(o[j] == o0[j]);
                    assert(occupied(t0[o0[j]]));
                }
            }
            assert forall|j: int, l: int| 0 <= j < l < o.len() implies seq_no(t[#[trigger] o[j]])
                < seq_no(t[#[trigger] o[l]]) by {
                assert(o[j] == o0[j]);
                assert(occupied(t0[o0[j]]));
                if l < o0.len() {
                    assert(o[l] == o0[l]);
                }
            }
        }
        SlotHandle { pos, link: link_to(&self.anchor), sig: PhantomData }
    }

    /// Empties the slot that `handle` names, consuming the handle. The checks run in this
    /// order: the issuing dispatcher must still exist (else `StaleHandle`), the position
    /// must lie in the table (else `OutOfBounds`), and the issuer must be this dispatcher
    /// (else `ForeignHandle`). A refused handle leaves the dispatcher as it was.
    pub fn remove(&mut self, handle: SlotHandle<A, R>) -> (r: Result<(), DelegateError>)
        requires
            old(self).wf(),
        ensures
            final(self).wf(),
            r is Ok ==> Self::removed(*old(self), *final(self), handle.position()),
            r is Err ==> *final(self) == *old(self),
            r == Err::<(), DelegateError>(DelegateError::OutOfBounds) ==> handle.position()
                >= old(self).table().len(),
            r == Err::<(), DelegateError>(DelegateError::ForeignHandle) ==> handle.position()
                < old(self).table().len(),
            handle.position() >= old(self).table().len() ==> r == Err::<(), DelegateError>(
                DelegateError::StaleHandle,
            ) || r == Err::<(), DelegateError>(DelegateError::OutOfBounds),
    {
        let found = match resolve(&handle.link) {
            None => Resolution::Dropped,
            Some(anchor) => {
                if same_anchor(&anchor, &self.anchor) {
                    Resolution::Own
                } else {
                    Resolution::Foreign
                }
            },
        };
        self.settle(handle.pos, found)
    }

    /// Decides a removal at `pos` once the issuer of the handle has been resolved to
    /// `found`; this is the decision that [`Delegate::remove`] makes after resolving.
    pub fn settle(&mut self, pos: usize, found: Resolution) -> (r: Result<(), DelegateError>)
        requires
            old(self).wf(),
        ensures
            final(self).wf(),
            found == Resolution::Dropped ==> r == Err::<(), DelegateError>(
                DelegateError::StaleHandle,
            ),
            found != Resolution::Dropped && pos >= old(self).table().len() ==> r == Err::<
                (),
                DelegateError,
            >(DelegateError::OutOfBounds),
            found == Resolution::Foreign && pos < old(self).table().len() ==> r == Err::<
                (),
                DelegateError,
            >(DelegateError::ForeignHandle),
            found == Resolution::Own && pos < old(self).table().len() ==> r == Ok::<
                (),
                DelegateError,
            >(()) && Self::removed(*old(self), *final(self), pos as int),
            r is Err ==> *final(self) == *old(self),
    {
        if let Resolution::Dropped = found {
            return Err(DelegateError::StaleHandle);
        }
        if pos >= self.slots.len() {
            return Err(DelegateError::OutOfBounds);
        }
        if let Resolution::Foreign = found {
            return Err(DelegateError::ForeignHandle);
        }
        let ghost before = *self;
        self.slots[pos] = Slot::Empty;
        proof {
            let o0 = before.order();
            let t0 = before.table();
            let t = self.table();
            assert(t == t0.update(pos as int, Slot::Empty));
            o0.index_of_first_ensures(pos as int);
            let o = o0.remove_value(pos as int);
            self.order = Ghost(o);
            assert(self.order() == o);
            match o0.index_of_first(pos as int) {
                Some(k) => {
                    assert(o.len() == o0.len() - 1);
                    assert forall|j: int| 0 <= j < o.len() implies #[trigger] o[j] == if j < k {
                        o0[j]
                    } else {
                        o0[j + 1]
                    } by {}
                    assert forall|m: int| 0 <= m < o0.len() && m != k implies #[trigger] o0[m]
                        != pos by {
                        if m < k {
                            assert(seq_no(t0[o0[m]]) < seq_no(t0[o0[k]]));
                        } else {
                            assert(seq_no(t0[o0[k]]) < seq_no(t0[o0[m]]));
                        }
                    }
                    assert forall|j: int| 0 <= j < o.len() implies 0 <= #[trigger] o[j] < t.len()
                        && occupied(t[o[j]]) by {
                        if j < k {
                            assert(o0[j] != pos);
                        } else {
                            assert(o0[j + 1] != pos);
                        }
                    }
                    assert forall|p: int| 0 <= p < t.len() && occupied(#[trigger] t[p]) implies o.contains(
                        p,
                    ) by {
                        assert(occupied(t0[p]));
                        assert(o0.contains(p));
                        let m = choose|m: int| 0 <= m < o0.len() && o0[m] == p;
                        if m < k {
                            assert(o[m] == p);
                        } else {
                            assert(o[m - 1] == p);
                        }
                    }
                    assert forall|i: int, j: int| 0 <= i < j < o.len() implies seq_no(
                        t[#[trigger] o[i]],
                    ) < seq_no(t[#[trigger] o[j]]) by {
                        let mi = if i < k {
                            i
                        } else {
                            i + 1
                        };
                        let mj = if j < k {
                            j
                        } else {
                            j + 1
                        };
                        assert(o[i] == o0[mi] && o[j] == o0[mj]);
                        assert(o0[mi] != pos && o0[mj] != pos);
                        assert(seq_no(t0[o0[mi]]) < seq_no(t0[o0[mj]]));
                    }
                },
                None => {
                    assert(o == o0);
                    assert(!o0.contains(pos as int));
                    assert(!occupied(t0[pos as int]));
                    assert forall|j: int| 0 <= j < o.len() implies 0 <= #[trigger] o[j] < t.len()
                        && occupied(t[o[j]]) by {
                        assert(o0[j] != pos);
                    }
                    assert forall|p: int| 0 <= p < t.len() && occupied(#[trigger] t[p]) implies o.contains(
                        p,
                    ) by {
                        assert(occupied(t0[p]));
                    }
                    assert forall|i: int, j: int| 0 <= i < j < o.len() implies seq_no(
                        t[#[trigger] o[i]],
                    ) < seq_no(t[#[trigger] o[j]]) by {
                        assert(o0[i] != pos && o0[j] != pos);
                    }
                },
            }
        }
        Ok(())
    }

    /// Calls every installed callback with a copy of `arg`, in the order in which the
    /// callbacks were installed, and returns their results in that order.
    pub fn invoke(&self, arg: A) -> (r: Vec<R>) where A: Clone
        requires
            self.wf(),
        ensures
            r@.len() == self.order().len(),
            forall|i: int|
                0 <= i < r@.len() ==> answers(self.table()[self.order()[i]], arg, #[trigger] r@[i]),
    {
        let ghost t = self.table();
        let ghost o = self.order();
        let mut out: Vec<R> = Vec::new();
        let mut last: u64 = 0;
        loop
            invariant
                self.wf(),
                t == self.slots@,
                t == self.table(),
                o == self.order(),
                out@.len() <= o.len(),
                out@.len() == 0 ==> last == 0,
                out@.len() > 0 ==> last == seq_no(t[o[out@.len() - 1]]),
                last <= self.issued(),
                forall|i: int| 0 <= i < out@.len() ==> answers(t[o[i]], arg, #[trigger] out@[i]),
            ensures
                out@.len() == o.len(),
                forall|i: int| 0 <= i < out@.len() ==> answers(t[o[i]], arg, #[trigger] out@[i]),
            decreases self.issued() - last,
        {
            // Each round calls the occupied slot with the smallest sequence number above the
            // last one called.
            let ghost n = out@.len() as int;
            let mut best: usize = self.slots.len();
            let mut best_seq: u64 = 0;
            let mut p: usize = 0;
            while p < self.slots.len()
                invariant
                    t == self.slots@,
                    p <= t.len(),
                    best == t.len() || (best < t.len() && occupied(t[best as int]) && seq_no(
                        t[best as int],
                    ) == best_seq && best_seq > last),
                    forall|q: int|
                        0 <= q < p && occupied(#[trigger] t[q]) && seq_no(t[q]) > last ==> best
                            < t.len() && best_seq <= seq_no(t[q]),
                decreases t.len() - p,
            {
                match &self.slots[p] {
                    Slot::Occupied(k, _) => {
                        if *k > last && (best == self.slots.len() || *k < best_seq) {
                            best = p;
                            best_seq = *k;
                        }
                    },
                    Slot::Empty => {},
                }
                p = p + 1;
            }
            if best == self.slots.len() {
                proof {
                    if n < o.len() {
                        if n > 0 {
                            assert(seq_no(t[o[n - 1]]) < seq_no(t[o[n]]));
                        }
                        assert(occupied(t[o[n]]));
                    }
                }
                break;
            }
            proof {
                assert(o.contains(best as int));
                let j = choose|j: int| 0 <= j < o.len() && o[j] == best as int;
                if j < n - 1 {
                    assert(seq_no(t[o[j]]) < seq_no(t[o[n - 1]]));
                }
                if n < o.len() && j > n {
                    assert(seq_no(t[o[n]]) < seq_no(t[o[j]]));
                    assert(occupied(t[o[n]]));
                }
                if n < o.len() && n > 0 {
                    assert(seq_no(t[o[n - 1]]) < seq_no(t[o[n]]));
                }
                assert(j == n);
            }
            match &self.slots[best] {
                Slot::Occupied(_, cb) => {
                    let c = arg.clone();
                    assert(accepts_all::<A, R, C>(t[best as int]));
                    let v = cb(c);
                    assert(cloned(arg, c) && call_ensures(*cb, (c,), v));
                    out.push(v);
                },
                Slot::Empty => {},
            }
            last = best_seq;
        }
        out
    }
}

/// How many entries of `ops` equal `v`.
pub open spec fn count_of(ops: Seq<bool>, v: bool) -> nat
    decreases ops.len(),
{
    if ops.len() == 0 {
        0
    } else {
        count_of(ops.drop_last(), v) + if ops.last() == v {
            1nat
        } else {
            0nat
        }
    }
}

/// An add leaves every occupied position other than its own as it was.
proof fn lemma_add_keeps_others<A, R, C: Fn(A) -> R>(
    prev: Delegate<A, R, C>,
    next: Delegate<A, R, C>,
    pos: int,
    cb: C,
    q: int,
)
    requires
        Delegate::added(prev, next, pos, cb),
        0 <= q < prev.table().len(),
        occupied(prev.table()[q]),
    ensures
        q != pos,
        0 <= q < next.table().len(),
        next.table()[q] == prev.table()[q],
{
}

/// An add keeps the invocation order of the callbacks already installed and puts the new
/// callback after them: what `invoke` returns afterwards is what it returned before,
/// followed by the new callback's result.
pub proof fn law_add_appends_to_invocation<A, R, C: Fn(A) -> R>(
    before: Delegate<A, R, C>,
    after: Delegate<A, R, C>,
    pos: int,
    cb: C,
)
    requires
        before.wf(),
        Delegate::added(before, after, pos, cb),
    ensures
        after.order().len() == before.order().len() + 1,
        forall|i: int|
            0 <= i < before.order().len() ==> after.table()[#[trigger] after.order()[i]]
                == before.table()[before.order()[i]],
        after.order().last() == pos,
        callback(after.table()[after.order().last()]) == cb,
{
    assert forall|i: int| 0 <= i < before.order().len() implies after.table()[
        #[trigger] after.order()[i]] == before.table()[before.order()[i]] by {
        assert(after.order()[i] == before.order()[i]);
        lemma_add_keeps_others(before, after, pos, cb, before.order()[i]);
    }
}

/// Callbacks added one after another, with no removal in between, run in the order in
/// which they were added: starting from a dispatcher with nothing installed, the
/// invocation order is the list of positions that the adds returned, and the callback
/// that runs `i`-th is the one given to the `i`-th add.
pub proof fn law_adds_run_in_order<A, R, C: Fn(A) -> R>(
    states: Seq<Delegate<A, R, C>>,
    positions: Seq<int>,
    cbs: Seq<C>,
)
    requires
        states.len() == positions.len() + 1,
        cbs.len() == positions.len(),
        states[0].order().len() == 0,
        forall|i: int|
            0 <= i < positions.len() ==> #[trigger] Delegate::added(
                states[i],
                states[i + 1],
                positions[i],
                cbs[i],
            ),
    ensures
        states.last().order() == positions,
        forall|i: int|
            0 <= i < positions.len() ==> 0 <= #[trigger] positions[i] < states.last().table().len()
                && occupied(states.last().table()[positions[i]]) && states.last().table()[positions[i]]
                == states[i + 1].table()[positions[i]],
        forall|i: int|
            0 <= i < cbs.len() ==> callback(states.last().table()[states.last().order()[i]])
                == #[trigger] cbs[i],
    decreases positions.len(),
{
    let n = positions.len() as int;
    if n == 0 {
        assert(positions =~= Seq::<int>::empty());
    } else {
        let s0 = states.take(n);
        let p0 = positions.take(n - 1);
        let c0 = cbs.take(n - 1);
        assert forall|i: int| 0 <= i < p0.len() implies #[trigger] Delegate::added(
            s0[i],
            s0[i + 1],
            p0[i],
            c0[i],
        ) by {
            assert(s0[i] == states[i] && s0[i + 1] == states[i + 1] && p0[i] == positions[i]
                && c0[i] == cbs[i]);
            assert(Delegate::added(states[i], states[i + 1], positions[i], cbs[i]));
        }
        law_adds_run_in_order(s0, p0, c0);
        let prev = states[n - 1];
        let last = states[n];
        assert(states.last() == last);
        assert(s0.last() == prev);
        assert(Delegate::added(states[n - 1], states[n], positions[n - 1], cbs[n - 1]));
        assert(last.order() =~= positions);
        assert forall|i: int| 0 <= i < positions.len() implies 0 <= #[trigger] positions[i]
            < states.last().table().len() && occupied(states.last().table()[positions[i]])
            && states.last().table()[positions[i]] == states[i + 1].table()[positions[i]] by {
            if i < n - 1 {
                assert(s0[i + 1] == states[i + 1] && p0[i] == positions[i]);
                assert(0 <= p0[i] < prev.table().len());
                assert(s0[i + 1].table()[p0[i]] == prev.table()[p0[i]]);
                lemma_add_keeps_others(prev, last, positions[n - 1], cbs[n - 1], positions[i]);
            } else {
                assert(states[i + 1] == last);
                assert(occupied(last.table()[positions[n - 1]]));
            }
        }
        assert forall|i: int| 0 <= i < cbs.len() implies callback(
            states.last().table()[states.last().order()[i]],
        ) == #[trigger] cbs[i] by {
            assert(states.last().order()[i] == positions[i]);
            assert(0 <= positions[i] < states.last().table().len());
            assert(Delegate::added(states[i], states[i + 1], positions[i], cbs[i]));
        }
    }
}

/// After a removal frees a slot, the next add reuses the lowest empty position, which is
/// no higher than the freed one, so the table does not grow; yet the new callback runs
/// after every other one, whatever its position.
pub proof fn law_readd_reuses_lowest_and_runs_last<A, R, C: Fn(A) -> R>(
    d0: Delegate<A, R, C>,
    d1: Delegate<A, R, C>,
    d2: Delegate<A, R, C>,
    freed: int,
    pos: int,
    cb: C,
)
    requires
        Delegate::removed(d0, d1, freed),
        Delegate::added(d1, d2, pos, cb),
    ensures
        pos <= freed,
        !occupied(d1.table()[pos]),
        forall|q: int| 0 <= q < pos ==> occupied(#[trigger] d1.table()[q]),
        d2.table().len() == d1.table().len(),
        d2.order().last() == pos,
        callback(d2.table()[d2.order().last()]) == cb,
{
    if pos > freed {
        assert(occupied(d1.table()[freed]));
    }
}

/// Starting from a dispatcher with nothing installed, after a run of adds and of
/// successful removals, each of a callback that was still installed, the number of
/// installed callbacks is the number of adds minus the number of removals.
pub proof fn law_len_is_adds_minus_removes<A, R, C: Fn(A) -> R>(
    states: Seq<Delegate<A, R, C>>,
    adds: Seq<bool>,
    positions: Seq<int>,
    cbs: Seq<C>,
)
    requires
        states.len() == adds.len() + 1,
        positions.len() == adds.len(),
        cbs.len() == adds.len(),
        states[0].order().len() == 0,
        forall|i: int|
            0 <= i < adds.len() && adds[i] ==> #[trigger] Delegate::added(
                states[i],
                states[i + 1],
                positions[i],
                cbs[i],
            ),
        forall|i: int|
            0 <= i < adds.len() && !adds[i] ==> #[trigger] Delegate::removed(
                states[i],
                states[i + 1],
                positions[i],
            ) && occupied(states[i].table()[positions[i]]),
    ensures
        states.last().order().len() == count_of(adds, true) - count_of(adds, false),
    decreases adds.len(),
{
    let n = adds.len() as int;
    if n > 0 {
        let s0 = states.take(n);
        let a0 = adds.take(n - 1);
        let p0 = positions.take(n - 1);
        let c0 = cbs.take(n - 1);
        assert forall|i: int| 0 <= i < a0.len() && a0[i] implies #[trigger] Delegate::added(
            s0[i],
            s0[i + 1],
            p0[i],
            c0[i],
        ) by {
            assert(s0[i] == states[i] && s0[i + 1] == states[i + 1] && p0[i] == positions[i]
                && c0[i] == cbs[i]);
            assert(adds[i]);
            assert(Delegate::added(states[i], states[i + 1], positions[i], cbs[i]));
        }
        assert forall|i: int| 0 <= i < a0.len() && !a0[i] implies #[trigger] Delegate::removed(
            s0[i],
            s0[i + 1],
            p0[i],
        ) && occupied(s0[i].table()[p0[i]]) by {
            assert(s0[i] == states[i] && s0[i + 1] == states[i + 1] && p0[i] == positions[i]);
            assert(!adds[i]);
            assert(Delegate::removed(states[i], states[i + 1], positions[i]));
        }
        law_len_is_adds_minus_removes(s0, a0, p0, c0);
        assert(adds.drop_last() =~= a0);
        if adds[n - 1] {
            assert(Delegate::added(states[n - 1], states[n], positions[n - 1], cbs[n - 1]));
        } else {
            assert(Delegate::removed(states[n - 1], states[n], positions[n - 1]));
        }
    }
}

} // verus!
