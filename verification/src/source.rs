use vstd::prelude::*;

verus! {

/// A pull-based producer of items: each call yields the next item or signals
/// exhaustion. `remaining()` models the items not yet produced, in order; an
/// exhausted source stays exhausted.
pub trait Source<T>: Sized {
    /// The items this source has not yet produced, oldest first.
    spec fn remaining(&self) -> Seq<T>;

    /// Produce the next item, or `None` once the source is exhausted.
    fn next(&mut self) -> (r: Option<T>)
        ensures
            old(self).remaining().len() == 0 ==> r is None
                && final(self).remaining() == old(self).remaining(),
            old(self).remaining().len() > 0 ==> r == Some(old(self).remaining()[0])
                && final(self).remaining() == old(self).remaining().skip(1),
    ;
}

/// A source that yields the elements of a vector in order.
pub struct VecSource<T> {
    items: Vec<T>,
    pos: usize,
}

impl<T: Copy> VecSource<T> {
    /// Build a source over all elements of `items`.
    pub fn new(items: Vec<T>) -> (s: Self)
        ensures
            s.remaining() == items@,
    {
        let s = VecSource { items, pos: 0 };
        proof {
            assert(s.remaining() =~= s.items@);
        }
        s
    }
}

impl<T: Copy> Source<T> for VecSource<T> {
    closed spec fn remaining(&self) -> Seq<T> {
        if self.pos <= self.items@.len() {
            self.items@.skip(self.pos as int)
        } else {
            Seq::empty()
        }
    }

    fn next(&mut self) -> (r: Option<T>) {
        if self.pos < self.items.len() {
            let t = self.items[self.pos];
            self.pos = self.pos + 1;
            proof {
                assert(self.remaining() =~= old(self).remaining().skip(1));
            }
            Some(t)
        } else {
            None
        }
    }
}

} // verus!
