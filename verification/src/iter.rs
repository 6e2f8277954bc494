use vstd::prelude::*;

use crate::source::Source;
use crate::state::State;
use crate::Iterable;

verus! {

/// `count` copies of the bumper value.
pub open spec fn bumpers<T: Iterable>(count: nat) -> Seq<T> {
    Seq::new(count, |i: int| T::bumper_spec())
}

/// The windows still to be emitted when `pending` holds the items that have
/// not yet passed through the leading window position: one window of width
/// `n` starting at each position of `pending`, read from `pending` followed
/// by `n - 1` bumper values.
pub open spec fn drain_windows<T: Iterable>(pending: Seq<T>, n: nat) -> Seq<Seq<T>> {
    Seq::new(pending.len(), |k: int| (pending + bumpers::<T>((n - 1) as nat)).subrange(k, k + n))
}

/// All windows of width `n` over `items`: none when `items` is empty,
/// otherwise the `items.len() + 1` windows of width `n` over the padded
/// sequence `bumper + items + bumper^(n-1)`.
pub open spec fn windows_of<T: Iterable>(items: Seq<T>, n: nat) -> Seq<Seq<T>> {
    if items.len() == 0 {
        Seq::empty()
    } else {
        drain_windows(seq![T::bumper_spec()] + items, n)
    }
}

/// An empty input yields no windows; a non-empty input of `m` items yields
/// exactly `m + 1` windows: one led by the bumper value, then one led by each
/// input item in turn as the buffer drains.
pub proof fn lemma_window_count<T: Iterable>(items: Seq<T>, n: nat)
    requires
        n >= 2,
    ensures
        items.len() == 0 ==> windows_of(items, n).len() == 0,
        items.len() > 0 ==> windows_of(items, n).len() == items.len() + 1,
{
}

/// Every window has exactly the requested width.
pub proof fn lemma_window_width<T: Iterable>(items: Seq<T>, n: nat)
    requires
        n >= 2,
    ensures
        forall|k: int|
            0 <= k < windows_of(items, n).len() ==> (#[trigger] windows_of(items, n)[k]).len()
                == n,
{
}

/// When the input holds at least `n - 1` items, the trailing element of
/// window `k` is input item `k + n - 2` as long as one exists; in particular
/// the last input item is the tail of window `items.len() - n + 1`, the last
/// window whose tail can carry real data. The tail of every later window is
/// the bumper value: once the last item has passed the tail position, the
/// remaining windows only drain padding, and they end exactly when the
/// held-back items run out.
pub proof fn lemma_last_item_at_tail<T: Iterable>(items: Seq<T>, n: nat)
    requires
        n >= 2,
        items.len() >= n - 1,
    ensures
        forall|k: int|
            0 <= k <= items.len() - n + 1 ==> (#[trigger] windows_of(items, n)[k]).last()
                == items[k + n - 2],
        windows_of(items, n)[items.len() - n + 1].last() == items.last(),
        forall|k: int|
            items.len() - n + 1 < k < windows_of(items, n).len() ==> (#[trigger] windows_of(
                items,
                n,
            )[k]).last() == T::bumper_spec(),
{
    let m = items.len() as int;
    let u0 = seq![T::bumper_spec()] + items;
    let pad = bumpers::<T>((n - 1) as nat);
    let p = u0 + pad;
    let kk = m - n + 1;
    assert forall|k: int| 0 <= k <= kk implies (#[trigger] windows_of(items, n)[k]).last()
        == items[k + n - 2] by {
        assert(windows_of(items, n)[k] == p.subrange(k, k + n));
        assert(p.subrange(k, k + n).last() == p[k + n - 1]);
        assert(p[k + n - 1] == items[k + n - 2]);
    }
    assert(windows_of(items, n)[kk].last() == items[m - 1]);
    assert forall|k: int| kk < k < m + 1 implies (#[trigger] windows_of(items, n)[k]).last()
        == T::bumper_spec() by {
        assert(windows_of(items, n)[k] == p.subrange(k, k + n));
        assert(p.subrange(k, k + n).last() == p[k + n - 1]);
        assert(p[k + n - 1] == pad[k + n - 1 - (m + 1)]);
    }
}

/// Dropping the head of the pending items drops exactly the first pending
/// window.
proof fn lemma_drain_windows_step<T: Iterable>(pending: Seq<T>, n: nat)
    requires
        pending.len() >= 1,
        n >= 1,
    ensures
        drain_windows(pending.skip(1), n) == drain_windows(pending, n).skip(1),
{
    let pad = bumpers::<T>((n - 1) as nat);
    assert(pending.skip(1) + pad =~= (pending + pad).skip(1));
    assert forall|k: int| 0 <= k < pending.len() - 1 implies drain_windows(pending.skip(1), n)[k]
        == drain_windows(pending, n).skip(1)[k] by {
        assert((pending.skip(1) + pad).subrange(k, k + n) =~= (pending + pad).subrange(
            k + 1,
            k + 1 + n,
        ));
    }
    assert(drain_windows(pending.skip(1), n) =~= drain_windows(pending, n).skip(1));
}

/// An iterator over the N-grams of a sequence of copyable items, padded at
/// both ends with the item type's bumper value. `N` must be at least 2.
pub struct Iter<T, S, const N: usize> where T: Iterable + Copy, S: Source<T> {
    it: S,
    state: State<T>,
}

impl<T, S, const N: usize> Iter<T, S, N> where T: Iterable + Copy, S: Source<T> {
    /// The engine is well formed: in `Middle` the buffer holds between 1 and
    /// `N - 1` items, and is full whenever the source still has items.
    pub closed spec fn wf(&self) -> bool {
        match self.state {
            State::Start => true,
            State::Middle(buf) => {
                &&& 1 <= buf@.len() <= N - 1
                &&& self.it.remaining().len() > 0 ==> buf@.len() == N - 1
            },
            State::End => true,
        }
    }

    /// The windows this engine has yet to emit, in order.
    pub closed spec fn windows(&self) -> Seq<Seq<T>> {
        match self.state {
            State::Start => windows_of(self.it.remaining(), N as nat),
            State::Middle(buf) => drain_windows(buf@ + self.it.remaining(), N as nat),
            State::End => Seq::empty(),
        }
    }

    /// Build an engine over `it`; no items are pulled until the first `next`.
    /// A width of less than 2 is a violated precondition, not a degraded mode.
    pub fn from(it: S) -> (r: Self)
        requires
            N >= 2,
        ensures
            r.wf(),
            r.windows() == windows_of(it.remaining(), N as nat),
    {
        Iter { it, state: State::Start }
    }

    /// Produce the next window: exactly `N` items, the first entry of the
    /// pending window sequence; or `None` once every window has been emitted.
    /// Exhaustion is idempotent: after the first `None`, every later call
    /// returns `None` again.
    pub fn next(&mut self) -> (r: Option<Vec<T>>)
        requires
            N >= 2,
            old(self).wf(),
        ensures
            final(self).wf(),
            match r {
                Some(w) => {
                    &&& old(self).windows().len() > 0
                    &&& w@ == old(self).windows()[0]
                    &&& w@.len() == N
                    &&& final(self).windows() == old(self).windows().skip(1)
                },
                None => {
                    &&& old(self).windows().len() == 0
                    &&& final(self).windows() == old(self).windows()
                },
            },
    {
        let ghost w0 = old(self).windows();
        let mut st: State<T> = State::End;
        core::mem::swap(&mut st, &mut self.state);
        match st {
            State::Start => {
                let ghost s0 = self.it.remaining();
                match self.it.next() {
                    None => {
                        // empty source: no window is ever produced
                        None
                    },
                    Some(item0) => {
                        let mut rb: Vec<T> = Vec::new();
                        let mut out: Vec<T> = Vec::new();
                        rb.push(item0);
                        out.push(T::bumper_item());
                        out.push(item0);
                        proof {
                            assert(rb@ =~= s0.subrange(0, 1));
                            assert(out@ =~= seq![T::bumper_spec()] + rb@);
                        }
                        let mut i: usize = 2;
                        let mut live: bool = true;
                        while i < N && live
                            invariant
                                N >= 2,
                                2 <= i <= N,
                                i as int - 1 <= s0.len(),
                                rb@.len() == i as int - 1,
                                rb@ == s0.subrange(0, i as int - 1),
                                out@ == seq![T::bumper_spec()] + rb@,
                                self.it.remaining() == s0.skip(i as int - 1),
                                !live ==> self.it.remaining().len() == 0,
                            decreases N - i, if live { 1int } else { 0int },
                        {
                            match self.it.next() {
                                Some(item) => {
                                    rb.push(item);
                                    out.push(item);
                                    i = i + 1;
                                    proof {
                                        assert(rb@ =~= s0.subrange(0, i as int - 1));
                                        assert(out@ =~= seq![T::bumper_spec()] + rb@);
                                        assert(self.it.remaining() =~= s0.skip(i as int - 1));
                                    }
                                },
                                None => {
                                    live = false;
                                },
                            }
                        }
                        let ghost filled = out@;
                        let ghost i1 = i as int;
                        while i < N
                            invariant
                                i1 <= i <= N,
                                filled.len() == i1,
                                out@ == filled + bumpers::<T>((i as int - i1) as nat),
                            decreases N - i,
                        {
                            out.push(T::bumper_item());
                            i = i + 1;
                            proof {
                                assert(out@ =~= filled + bumpers::<T>((i as int - i1) as nat));
                            }
                        }
                        proof {
                            let pad = bumpers::<T>((N - 1) as nat);
                            let u0 = seq![T::bumper_spec()] + s0;
                            assert(i1 == N || self.it.remaining().len() == 0);
                            assert(out@ =~= (u0 + pad).subrange(0, N as int));
                            assert(w0 == drain_windows(u0, N as nat));
                            lemma_drain_windows_step::<T>(u0, N as nat);
                            assert(u0.skip(1) =~= s0);
                            assert(rb@ + self.it.remaining() =~= s0);
                        }
                        self.state = State::Middle(rb);
                        Some(out)
                    },
                }
            },
            State::Middle(mut rb) => {
                let ghost buf0 = rb@;
                let ghost rem0 = self.it.remaining();
                let ghost u = buf0 + rem0;
                let mut out: Vec<T> = Vec::new();
                let head = rb.remove(0);
                out.push(head);
                let mut j: usize = 0;
                proof {
                    assert(out@ =~= seq![buf0[0]] + rb@.subrange(0, 0));
                }
                while j < rb.len()
                    invariant
                        j <= rb@.len(),
                        rb@ == buf0.skip(1),
                        buf0.len() >= 1,
                        out@ == seq![buf0[0]] + rb@.subrange(0, j as int),
                    decreases rb@.len() - j,
                {
                    let c = rb[j];
                    out.push(c);
                    j = j + 1;
                    proof {
                        assert(out@ =~= seq![buf0[0]] + rb@.subrange(0, j as int));
                    }
                }
                proof {
                    assert(out@ =~= buf0);
                }
                match self.it.next() {
                    Some(item) => {
                        rb.push(item);
                        out.push(item);
                    },
                    None => {},
                }
                let ghost filled = out@;
                while out.len() < N
                    invariant
                        filled.len() <= out@.len() <= N,
                        out@ == filled + bumpers::<T>((out@.len() - filled.len()) as nat),
                    decreases N - out.len(),
                {
                    out.push(T::bumper_item());
                    proof {
                        assert(out@ =~= filled + bumpers::<T>((out@.len() - filled.len()) as nat));
                    }
                }
                proof {
                    let pad = bumpers::<T>((N - 1) as nat);
                    assert(w0 == drain_windows(u, N as nat));
                    assert(out@ =~= (u + pad).subrange(0, N as int));
                    lemma_drain_windows_step::<T>(u, N as nat);
                    assert(rb@ + self.it.remaining() =~= u.skip(1));
                }
                if rb.len() == 0 {
                    // buffer drained: terminal state; the swap above already
                    // left the engine in `End`
                    proof {
                        assert(u.skip(1) =~= Seq::<T>::empty());
                        assert(w0.skip(1) =~= Seq::<Seq<T>>::empty());
                    }
                } else {
                    self.state = State::Middle(rb);
                }
                Some(out)
            },
            State::End => None,
        }
    }
}

} // verus!
