use vstd::prelude::*;

verus! {

/// The storage of a delay line: a circular buffer whose head walks
/// backwards. Seen from outside it is a queue of fixed length: each push
/// hands back the oldest value and appends the new one, so a value comes
/// back out `len` pushes after it went in.
pub struct DelayLine<T> {
    line: Vec<T>,
    head: usize,
}

impl<T: Copy> DelayLine<T> {
    /// The buffer slot that the `k`-th next push reads.
    spec fn slot(&self, k: int) -> int {
        if k <= self.head {
            self.head - k
        } else {
            self.head + self.line@.len() - k
        }
    }

    /// The values in the order the coming pushes hand them back.
    pub closed spec fn contents(&self) -> Seq<T> {
        Seq::new(self.line@.len(), |k: int| self.line@[self.slot(k)])
    }

    /// The buffer is not empty and the head lies inside it.
    pub closed spec fn wf(&self) -> bool {
        0 < self.line@.len() && self.head < self.line@.len()
    }

    /// A delay of `length` samples, every slot holding `fill`.
    pub fn new(length: usize, fill: T) -> (d: DelayLine<T>)
        requires
            length > 0,
        ensures
            d.wf(),
            d.contents() == Seq::new(length as nat, |k: int| fill),
    {
        let mut line: Vec<T> = Vec::new();
        let mut i: usize = 0;
        while i < length
            invariant
                i <= length,
                line@ == Seq::new(i as nat, |k: int| fill),
            decreases length - i,
        {
            line.push(fill);
            i += 1;
            proof {
                assert(line@ =~= Seq::new(i as nat, |k: int| fill));
            }
        }
        let d = DelayLine { line, head: 0 };
        assert(d.contents() =~= Seq::new(length as nat, |k: int| fill));
        d
    }

    /// The length of the delay, in samples.
    pub fn len(&self) -> (r: usize)
        ensures
            r == self.contents().len(),
    {
        self.line.len()
    }

    /// The value the next push hands back.
    pub fn peek(&self) -> (r: T)
        requires
            self.wf(),
        ensures
            r == self.contents()[0],
    {
        self.line[self.head]
    }

    /// Hands back the oldest value and appends `value`.
    pub fn push(&mut self, value: T) -> (out: T)
        requires
            old(self).wf(),
        ensures
            final(self).wf(),
            out == old(self).contents()[0],
            final(self).contents() == old(self).contents().drop_first().push(value),
    {
        let out = self.line[self.head];
        let h = self.head;
        self.line.set(h, value);
        if h == 0 {
            self.head = self.line.len() - 1;
        } else {
            self.head = h - 1;
        }
        proof {
            let n = self.line@.len();
            let expect = old(self).contents().drop_first().push(value);
            assert forall|k: int| 0 <= k < n implies #[trigger] self.contents()[k] == expect[k] by {
                if k < n - 1 {
                    assert(old(self).contents()[k + 1] == old(self).line@[old(self).slot(k + 1)]);
                } else {
                    assert(self.slot(k) == h);
                }
            }
            assert(self.contents() =~= expect);
        }
        out
    }

    /// Sets every slot to `fill` and moves the head back to the start.
    pub fn reset(&mut self, fill: T)
        requires
            old(self).wf(),
        ensures
            final(self).wf(),
            final(self).contents() == Seq::new(old(self).contents().len(), |k: int| fill),
    {
        let ghost n = self.line@.len();
        let mut i: usize = 0;
        while i < self.line.len()
            invariant
                self.line@.len() == n,
                i <= n,
                forall|k: int| 0 <= k < i ==> self.line@[k] == fill,
            decreases n - i,
        {
            self.line.set(i, fill);
            i += 1;
        }
        self.head = 0;
        assert(self.contents() =~= Seq::new(n, |k: int| fill));
    }
}

} // verus!
