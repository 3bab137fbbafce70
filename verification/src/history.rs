//! The fixed-size ring of most recent input samples.

use vstd::prelude::*;

verus! {

/// The last `len` samples of a stream, in a ring that is written in place and
/// never grows.
pub struct History<S> {
    ring: Vec<S>,
    head: usize,
}

impl<S> History<S> {
    /// Ring slot of the sample `i` places after the oldest.
    spec fn slot(self, i: int) -> int {
        if self.head + 1 + i < self.ring@.len() {
            self.head + 1 + i
        } else {
            self.head + 1 + i - self.ring@.len()
        }
    }

    pub closed spec fn wf(self) -> bool {
        self.head < self.ring@.len()
    }
}

impl<S> View for History<S> {
    type V = Seq<S>;

    /// The samples, oldest first.
    closed spec fn view(&self) -> Seq<S> {
        Seq::new(self.ring@.len(), |i: int| self.ring@[self.slot(i)])
    }
}

impl<S: Copy> History<S> {
    /// A history of `len` samples, all `fill`.
    pub fn new(len: usize, fill: S) -> (r: Self)
        requires
            len > 0,
        ensures
            r.wf(),
            r@ == Seq::new(len as nat, |i: int| fill),
    {
        let mut ring: Vec<S> = Vec::with_capacity(len);
        let mut i: usize = 0;
        while i < len
            invariant
                i <= len,
                ring@.len() == i,
                forall|k: int| 0 <= k < i ==> ring@[k] == fill,
            decreases len - i,
        {
            ring.push(fill);
            i += 1;
        }
        let r = History { ring, head: len - 1 };
        assert(r@ =~= Seq::new(len as nat, |i: int| fill));
        r
    }

    /// Number of samples kept.
    pub fn len(&self) -> (n: usize)
        requires
            self.wf(),
        ensures
            n == self@.len(),
            n > 0,
    {
        self.ring.len()
    }

    /// The ring's storage: the samples in order, starting at some slot and
    /// wrapping around.
    pub fn ring(&self) -> (r: &Vec<S>)
        requires
            self.wf(),
        ensures
            exists|c: int|
                0 <= c <= r@.len() && self@ == #[trigger] r@.skip(c) + r@.take(c),
    {
        proof {
            let c = self.head + 1;
            assert(self@ =~= self.ring@.skip(c) + self.ring@.take(c));
        }
        &self.ring
    }

    /// Forgets the oldest sample and takes `sample` as the newest.
    pub fn push(&mut self, sample: S)
        requires
            old(self).wf(),
        ensures
            final(self).wf(),
            final(self)@ == old(self)@.skip(1).push(sample),
    {
        let n = self.ring.len();
        let next: usize = if self.head + 1 < n {
            self.head + 1
        } else {
            0
        };
        self.head = next;
        self.ring[next] = sample;
        assert(self@ =~= old(self)@.skip(1).push(sample));
    }

    /// The sample `j` places before the newest.
    pub fn back(&self, j: usize) -> (s: S)
        requires
            self.wf(),
            j < self@.len(),
        ensures
            s == self@[self@.len() - 1 - j],
    {
        if j <= self.head {
            self.ring[self.head - j]
        } else {
            self.ring[self.ring.len() - j + self.head]
        }
    }

    /// Makes every sample `fill`, in place.
    pub fn clear(&mut self, fill: S)
        requires
            old(self).wf(),
        ensures
            final(self).wf(),
            final(self)@ == Seq::new(old(self)@.len(), |i: int| fill),
    {
        let n = self.ring.len();
        let mut i: usize = 0;
        while i < n
            invariant
                i <= n,
                n == self.ring@.len(),
                n == old(self).ring@.len(),
                n > 0,
                forall|k: int| 0 <= k < i ==> self.ring@[k] == fill,
            decreases n - i,
        {
            self.ring[i] = fill;
            i += 1;
        }
        self.head = n - 1;
        assert(self@ =~= Seq::new(old(self)@.len(), |i: int| fill));
    }
}

}
