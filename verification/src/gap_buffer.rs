//! Relocatable-gap array: a resizable sequence keeping one contiguous free
//! region (the gap) that is moved to the edit point, so that repeated edits
//! near the same spot cost time proportional to the distance moved rather
//! than to the whole length.

use vstd::prelude::*;
use vstd::pervasive::VecAdditionalExecFns;

verus! {

/// A sequence of `T` stored in one backing vector with a free gap between
/// `gap_start` and `gap_end`.  Logical positions below `gap_start` map to the
/// same physical index; positions at or above it map past the gap.
pub struct GapBuffer<T> {
    data: Vec<T>,
    gap_start: usize,
    gap_end: usize,
}

impl<T> View for GapBuffer<T> {
    type V = Seq<T>;

    closed spec fn view(&self) -> Seq<T> {
        self.data@.subrange(0, self.gap_start as int) + self.data@.subrange(
            self.gap_end as int,
            self.data@.len() as int,
        )
    }
}

impl<T: Copy> GapBuffer<T> {
    /// The gap bounds are ordered and lie within the backing vector.
    pub closed spec fn wf(&self) -> bool {
        self.gap_start <= self.gap_end <= self.data@.len()
    }

    /// Wraps an existing vector; the gap starts empty at the end.
    pub fn new(data: Vec<T>) -> (r: Self)
        ensures
            r.wf(),
            r@ == data@,
    {
        let n = data.len();
        let r = GapBuffer { data, gap_start: n, gap_end: n };
        proof {
            assert(r@ =~= r.data@);
        }
        r
    }

    pub fn len(&self) -> (r: usize)
        requires
            self.wf(),
        ensures
            r == self@.len(),
    {
        self.data.len() - (self.gap_end - self.gap_start)
    }

    pub fn get_one(&self, pos: usize) -> (r: T)
        requires
            self.wf(),
            pos < self@.len(),
        ensures
            r == self@[pos as int],
    {
        let dl = self.data.len();
        proof {
            assert(self@.len() == self.gap_start + self.data@.len() - self.gap_end);
        }
        if pos < self.gap_start {
            self.data[pos]
        } else {
            self.data[pos + (self.gap_end - self.gap_start)]
        }
    }

    /// Overwrites the element at logical position `pos`.
    fn set_one(&mut self, pos: usize, value: T)
        requires
            old(self).wf(),
            pos < old(self)@.len(),
        ensures
            final(self).wf(),
            final(self)@ == old(self)@.update(pos as int, value),
            final(self).gap_start == old(self).gap_start,
            final(self).gap_end == old(self).gap_end,
            final(self).data@.len() == old(self).data@.len(),
    {
        let dl = self.data.len();
        proof {
            assert(self@.len() == self.gap_start + self.data@.len() - self.gap_end);
        }
        if pos < self.gap_start {
            self.data.set(pos, value);
        } else {
            self.data.set(pos + (self.gap_end - self.gap_start), value);
        }
        proof {
            assert(self@ =~= old(self)@.update(pos as int, value));
        }
    }

    /// Slides elements across the gap until the gap starts at `index`.
    fn move_gap_to(&mut self, index: usize)
        requires
            old(self).wf(),
            index <= old(self)@.len(),
        ensures
            final(self).wf(),
            final(self)@ == old(self)@,
            final(self).gap_start == index,
            final(self).gap_end - final(self).gap_start == old(self).gap_end - old(self).gap_start,
            final(self).data@.len() == old(self).data@.len(),
    {
        while self.gap_start > index
            invariant
                self.wf(),
                index <= self@.len(),
                self@ == old(self)@,
                self.gap_end - self.gap_start == old(self).gap_end - old(self).gap_start,
                self.data@.len() == old(self).data@.len(),
            decreases self.gap_start,
        {
            let v = self.data[self.gap_start - 1];
            let ghost prev = *self;
            self.data.set(self.gap_end - 1, v);
            self.gap_start = self.gap_start - 1;
            self.gap_end = self.gap_end - 1;
            proof {
                assert(self@ =~= prev@);
            }
        }
        while self.gap_start < index
            invariant
                self.wf(),
                index <= self@.len(),
                self@ == old(self)@,
                self.gap_start <= index,
                self.gap_end - self.gap_start == old(self).gap_end - old(self).gap_start,
                self.data@.len() == old(self).data@.len(),
            decreases index - self.gap_start,
        {
            let dl = self.data.len();
            proof {
                assert(self@.len() == self.gap_start + self.data@.len() - self.gap_end);
            }
            let v = self.data[self.gap_end];
            let ghost prev = *self;
            self.data.set(self.gap_start, v);
            self.gap_start = self.gap_start + 1;
            self.gap_end = self.gap_end + 1;
            proof {
                assert(self@ =~= prev@);
            }
        }
    }

    /// Inserts `items` so that they occupy logical positions
    /// `index .. index + items.len()`.  When the gap is too small the backing
    /// vector is rebuilt with a fresh gap at the edit point, doubling the
    /// reserve so that edits stay amortized cheap.
    pub fn insert(&mut self, index: usize, items: &[T])
        requires
            old(self).wf(),
            index <= old(self)@.len(),
        ensures
            final(self).wf(),
            final(self)@ == old(self)@.subrange(0, index as int) + items@ + old(self)@.subrange(
                index as int,
                old(self)@.len() as int,
            ),
    {
        let gap = self.gap_end - self.gap_start;
        if gap < items.len() {
            // items is non-empty here, so items[0] exists to fill the reserve
            let old_len = self.len();
            let mut nd: Vec<T> = Vec::new();
            let mut i: usize = 0;
            while i < index
                invariant
                    self == old(self),
                    self.wf(),
                    i <= index <= self@.len(),
                    nd@ == self@.subrange(0, i as int),
                decreases index - i,
            {
                nd.push(self.get_one(i));
                i = i + 1;
                proof {
                    assert(nd@ =~= self@.subrange(0, i as int));
                }
            }
            let mut j: usize = 0;
            while j < items.len()
                invariant
                    self == old(self),
                    self.wf(),
                    index <= self@.len(),
                    j <= items@.len(),
                    nd@ == self@.subrange(0, index as int) + items@.subrange(0, j as int),
                decreases items@.len() - j,
            {
                nd.push(items[j]);
                j = j + 1;
                proof {
                    assert(nd@ =~= self@.subrange(0, index as int) + items@.subrange(
                        0,
                        j as int,
                    ));
                }
            }
            proof {
                assert(items@.subrange(0, items@.len() as int) =~= items@);
            }
            let new_gap_start = nd.len();
            // reserve roughly doubles the occupied size
            let mut k: usize = 0;
            let reserve = old_len;
            while k < reserve
                invariant
                    k <= reserve,
                    nd@.len() == index + items@.len() + k,
                    nd@.subrange(0, (index + items@.len()) as int) == self@.subrange(
                        0,
                        index as int,
                    ) + items@,
                    items@.len() > 0,
                    self == old(self),
                    self.wf(),
                    index <= self@.len(),
                decreases reserve - k,
            {
                nd.push(items[0]);
                k = k + 1;
                proof {
                    assert(nd@.subrange(0, (index + items@.len()) as int) =~= self@.subrange(
                        0,
                        index as int,
                    ) + items@);
                }
            }
            let new_gap_end = nd.len();
            let mut m: usize = index;
            while m < old_len
                invariant
                    index <= m <= old_len == self@.len(),
                    nd@.len() == new_gap_end + (m - index),
                    nd@.subrange(0, new_gap_start as int) == self@.subrange(0, index as int)
                        + items@,
                    new_gap_start == index + items@.len(),
                    new_gap_start <= new_gap_end,
                    nd@.subrange(new_gap_end as int, nd@.len() as int) == self@.subrange(
                        index as int,
                        m as int,
                    ),
                    self == old(self),
                    self.wf(),
                decreases old_len - m,
            {
                nd.push(self.get_one(m));
                m = m + 1;
                proof {
                    assert(nd@.subrange(new_gap_end as int, nd@.len() as int) =~= self@.subrange(
                        index as int,
                        m as int,
                    ));
                    assert(nd@.subrange(0, new_gap_start as int) =~= self@.subrange(
                        0,
                        index as int,
                    ) + items@);
                }
            }
            self.data = nd;
            self.gap_start = new_gap_start;
            self.gap_end = new_gap_end;
            proof {
                assert(old(self)@.subrange(index as int, old(self)@.len() as int) =~= old(
                    self,
                )@.subrange(index as int, old_len as int));
                assert(self@ =~= old(self)@.subrange(0, index as int) + items@ + old(
                    self,
                )@.subrange(index as int, old(self)@.len() as int));
            }
        } else {
            self.move_gap_to(index);
            let ghost mid = *self;
            let mut j: usize = 0;
            while j < items.len()
                invariant
                    j <= items@.len(),
                    mid.wf(),
                    mid.gap_start == index,
                    mid@ == old(self)@,
                    mid.gap_start + items@.len() <= mid.gap_end <= mid.data@.len(),
                    self.gap_start == mid.gap_start,
                    self.gap_end == mid.gap_end,
                    self.data@.len() == mid.data@.len(),
                    forall|k: int|
                        0 <= k < self.data@.len() && !(mid.gap_start <= k < mid.gap_start + j)
                            ==> self.data@[k] == mid.data@[k],
                    forall|k: int|
                        0 <= k < j ==> self.data@[mid.gap_start + k] == items@[k],
                decreases items@.len() - j,
            {
                self.data.set(self.gap_start + j, items[j]);
                j = j + 1;
            }
            self.gap_start = self.gap_start + items.len();
            proof {
                assert(self@ =~= old(self)@.subrange(0, index as int) + items@ + old(
                    self,
                )@.subrange(index as int, old(self)@.len() as int));
            }
        }
    }

    /// Removes the `len` elements at logical positions `from .. from + len`.
    pub fn remove(&mut self, from: usize, len: usize)
        requires
            old(self).wf(),
            from + len <= old(self)@.len(),
        ensures
            final(self).wf(),
            final(self)@ == old(self)@.subrange(0, from as int) + old(self)@.subrange(
                (from + len) as int,
                old(self)@.len() as int,
            ),
    {
        self.move_gap_to(from);
        let ghost mid = *self;
        let dl = self.data.len();
        proof {
            assert(self@.len() == self.gap_start + self.data@.len() - self.gap_end);
        }
        self.gap_end = self.gap_end + len;
        proof {
            assert(self@ =~= old(self)@.subrange(0, from as int) + old(self)@.subrange(
                (from + len) as int,
                old(self)@.len() as int,
            ));
        }
    }

    /// Copies out the elements at logical positions `from .. to`.
    pub fn get_by_range(&self, from: usize, to: usize) -> (r: Vec<T>)
        requires
            self.wf(),
            from <= to <= self@.len(),
        ensures
            r@ == self@.subrange(from as int, to as int),
    {
        let mut r: Vec<T> = Vec::new();
        let mut i: usize = from;
        while i < to
            invariant
                from <= i <= to <= self@.len(),
                self.wf(),
                r@ == self@.subrange(from as int, i as int),
            decreases to - i,
        {
            r.push(self.get_one(i));
            i = i + 1;
            proof {
                assert(r@ =~= self@.subrange(from as int, i as int));
            }
        }
        r
    }

    /// Copies out every element at or after logical position `from`.
    pub fn get_to_end(&self, from: usize) -> (r: Vec<T>)
        requires
            self.wf(),
            from <= self@.len(),
        ensures
            r@ == self@.subrange(from as int, self@.len() as int),
    {
        let n = self.len();
        self.get_by_range(from, n)
    }

    /// Appends `items` after the last element.
    pub fn push_back(&mut self, items: &[T])
        requires
            old(self).wf(),
        ensures
            final(self).wf(),
            final(self)@ == old(self)@ + items@,
    {
        let n = self.len();
        self.insert(n, items);
        proof {
            assert(old(self)@.subrange(0, old(self)@.len() as int) =~= old(self)@);
            assert(old(self)@.subrange(old(self)@.len() as int, old(self)@.len() as int)
                =~= Seq::<T>::empty());
            assert(self@ =~= old(self)@ + items@);
        }
    }
}

impl GapBuffer<usize> {
    /// Adds `by` to every element at logical positions `from .. to`; used to
    /// shift line-start offsets after an insertion.
    pub fn increment_range_by(&mut self, from: usize, to: usize, by: usize)
        requires
            old(self).wf(),
            from <= to <= old(self)@.len(),
            forall|i: int| from <= i < to ==> old(self)@[i] + by <= usize::MAX,
        ensures
            final(self).wf(),
            final(self)@.len() == old(self)@.len(),
            forall|i: int| from <= i < to ==> final(self)@[i] == old(self)@[i] + by,
            forall|i: int|
                0 <= i < final(self)@.len() && !(from <= i < to) ==> final(self)@[i] == old(self)@[i],
    {
        let mut i: usize = from;
        while i < to
            invariant
                from <= i <= to <= self@.len(),
                self.wf(),
                self@.len() == old(self)@.len(),
                forall|k: int| from <= k < to ==> old(self)@[k] + by <= usize::MAX,
                forall|k: int| from <= k < i ==> self@[k] == old(self)@[k] + by,
                forall|k: int|
                    0 <= k < self@.len() && !(from <= k < i) ==> self@[k] == old(self)@[k],
            decreases to - i,
        {
            let v = self.get_one(i);
            self.set_one(i, v + by);
            i = i + 1;
        }
    }

    /// Subtracts `by` from every element at logical positions `from .. to`;
    /// used to shift line-start offsets after a removal.
    pub fn decrement_range_by(&mut self, from: usize, to: usize, by: usize)
        requires
            old(self).wf(),
            from <= to <= old(self)@.len(),
            forall|i: int| from <= i < to ==> old(self)@[i] >= by,
        ensures
            final(self).wf(),
            final(self)@.len() == old(self)@.len(),
            forall|i: int| from <= i < to ==> final(self)@[i] == old(self)@[i] - by,
            forall|i: int|
                0 <= i < final(self)@.len() && !(from <= i < to) ==> final(self)@[i] == old(self)@[i],
    {
        let mut i: usize = from;
        while i < to
            invariant
                from <= i <= to <= self@.len(),
                self.wf(),
                self@.len() == old(self)@.len(),
                forall|k: int| from <= k < to ==> old(self)@[k] >= by,
                forall|k: int| from <= k < i ==> self@[k] == old(self)@[k] - by,
                forall|k: int|
                    0 <= k < self@.len() && !(from <= k < i) ==> self@[k] == old(self)@[k],
            decreases to - i,
        {
            let v = self.get_one(i);
            self.set_one(i, v - by);
            i = i + 1;
        }
    }
}

/// Forward cursor over the logical contents of a byte gap buffer.
pub struct GapBufferIter<'a> {
    index: usize,
    inner: &'a GapBuffer<u8>,
}

impl GapBuffer<u8> {
    /// Starts a forward iterator at logical position `index`.
    pub fn into_iterator(&self, index: usize) -> (r: GapBufferIter<'_>)
        requires
            self.wf(),
            index <= self@.len(),
        ensures
            r.wf(),
            r.inner() == self,
            r.pos() == index,
    {
        GapBufferIter { index, inner: self }
    }

    /// Starts a backward iterator whose first yield is logical position `index`.
    pub fn into_rev_iterator(&self, index: usize) -> (r: GapBufferRevIter<'_>)
        requires
            self.wf(),
            index < self@.len(),
        ensures
            r.wf(),
            r.inner() == self,
            r.pos() == index + 1,
    {
        let n = self.len();
        GapBufferRevIter { index: index + 1, inner: self }
    }
}

impl<'a> GapBufferIter<'a> {
    pub closed spec fn inner(&self) -> &'a GapBuffer<u8> {
        self.inner
    }

    pub closed spec fn pos(&self) -> nat {
        self.index as nat
    }

    pub closed spec fn wf(&self) -> bool {
        self.inner.wf() && self.index <= self.inner@.len()
    }

    pub fn next(&mut self) -> (r: Option<u8>)
        requires
            old(self).wf(),
        ensures
            final(self).wf(),
            final(self).inner() == old(self).inner(),
            old(self).pos() < old(self).inner()@.len() ==> r == Some(
                old(self).inner()@[old(self).pos() as int],
            ) && final(self).pos() == old(self).pos() + 1,
            old(self).pos() >= old(self).inner()@.len() ==> r is None && final(self).pos() == old(
                self,
            ).pos(),
    {
        if self.index >= self.inner.len() {
            return None;
        }
        let b = self.inner.get_one(self.index);
        self.index = self.index + 1;
        Some(b)
    }
}

/// Backward cursor over the logical contents of a byte gap buffer; `index` is
/// one past the next position to yield.
pub struct GapBufferRevIter<'a> {
    index: usize,
    inner: &'a GapBuffer<u8>,
}

impl<'a> GapBufferRevIter<'a> {
    pub closed spec fn inner(&self) -> &'a GapBuffer<u8> {
        self.inner
    }

    pub closed spec fn pos(&self) -> nat {
        self.index as nat
    }

    pub closed spec fn wf(&self) -> bool {
        self.inner.wf() && self.index <= self.inner@.len()
    }

    pub fn next(&mut self) -> (r: Option<u8>)
        requires
            old(self).wf(),
        ensures
            final(self).wf(),
            final(self).inner() == old(self).inner(),
            old(self).pos() > 0 ==> r == Some(
                old(self).inner()@[old(self).pos() - 1],
            ) && final(self).pos() == old(self).pos() - 1,
            old(self).pos() == 0 ==> r is None && final(self).pos() == 0,
    {
        if self.index == 0 {
            return None;
        }
        let b = self.inner.get_one(self.index - 1);
        self.index = self.index - 1;
        Some(b)
    }
}

} // verus!
