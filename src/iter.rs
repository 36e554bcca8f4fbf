use vstd::prelude::*;

use crate::bitmap::Bitmap;

verus! {

/// Capacity of the buffer that a batched cursor fills on each step.
pub const BATCH_SIZE: usize = 32;

/// A forward-only cursor that yields the elements of a set one at a time,
/// in ascending order. It borrows the set for its whole lifetime.
pub struct BitmapIterator<'a> {
    bitmap: &'a Bitmap,
    pos: usize,
}

impl<'a> BitmapIterator<'a> {
    /// The elements of the set the cursor reads, in ascending order.
    pub closed spec fn source(&self) -> Seq<u32> {
        self.bitmap.elements()
    }

    /// How many elements the cursor has already yielded.
    pub closed spec fn position(&self) -> int {
        self.pos as int
    }

    /// The elements already yielded, in the order they came.
    pub open spec fn produced(&self) -> Seq<u32> {
        self.source().take(self.position())
    }

    /// The elements still to come, in the order they will come.
    pub open spec fn remaining(&self) -> Seq<u32> {
        self.source().skip(self.position())
    }

    pub open spec fn wf(&self) -> bool {
        &&& crate::bitmap::strictly_ascending(self.source())
        &&& 0 <= self.position() <= self.source().len()
    }

    fn new(bitmap: &'a Bitmap) -> (r: BitmapIterator<'a>)
        requires
            bitmap.wf(),
        ensures
            r.wf(),
            r.source() == bitmap.elements(),
            r.position() == 0,
    {
        BitmapIterator { bitmap, pos: 0 }
    }

    fn has_value(&self) -> (r: bool)
        requires
            self.wf(),
        ensures
            r == (self.remaining().len() > 0),
    {
        self.pos < self.bitmap.len()
    }

    /// The element the cursor stands on, if any.
    fn current_value(&self) -> (r: Option<u32>)
        requires
            self.wf(),
        ensures
            self.remaining().len() == 0 ==> r is None,
            self.remaining().len() > 0 ==> r == Some(self.remaining()[0]),
    {
        if self.has_value() {
            Some(self.bitmap.get(self.pos))
        } else {
            None
        }
    }

    /// Moves to the next element; tells whether the cursor stands on one.
    fn advance(&mut self) -> (r: bool)
        requires
            old(self).wf(),
            old(self).remaining().len() > 0,
        ensures
            final(self).wf(),
            final(self).source() == old(self).source(),
            final(self).position() == old(self).position() + 1,
            r == (final(self).remaining().len() > 0),
    {
        let len = self.bitmap.len();
        assert(self.pos < len);
        self.pos = self.pos + 1;
        self.has_value()
    }

    /// Yields the element the cursor stands on and moves past it; `None` once
    /// every element has been yielded, as often as it is called.
    pub fn next(&mut self) -> (r: Option<u32>)
        requires
            old(self).wf(),
        ensures
            final(self).wf(),
            final(self).source() == old(self).source(),
            old(self).remaining().len() == 0 ==> r is None && *final(self) == *old(self),
            old(self).remaining().len() > 0 ==> {
                &&& r == Some(old(self).remaining()[0])
                &&& final(self).position() == old(self).position() + 1
                &&& final(self).produced() == old(self).produced().push(r->Some_0)
                &&& final(self).remaining() == old(self).remaining().drop_first()
            },
            r is Some ==> forall|i: int|
                0 <= i < old(self).produced().len() ==> old(self).produced()[i] < r->Some_0,
            r is Some ==> forall|i: int|
                0 <= i < final(self).remaining().len() ==> r->Some_0 < final(self).remaining()[i],
    {
        match self.current_value() {
            Some(value) => {
                self.advance();
                assert(self.produced() =~= old(self).produced().push(value));
                assert(self.remaining() =~= old(self).remaining().drop_first());
                Some(value)
            },
            None => None,
        }
    }
}

/// A cursor that yields the elements of a set in ascending order, up to
/// `BATCH_SIZE` of them per step, through a buffer that it owns and reuses.
pub struct BatchedBitmapIterator<'a> {
    bitmap: &'a Bitmap,
    pos: usize,
    buffer: [u32; 32],
    done: bool,
}

/// The number of elements that a fill takes from `r`.
pub open spec fn batch_len(r: Seq<u32>) -> int {
    if r.len() < BATCH_SIZE {
        r.len() as int
    } else {
        BATCH_SIZE as int
    }
}

impl<'a> BatchedBitmapIterator<'a> {
    /// The elements of the set the cursor reads, in ascending order.
    pub closed spec fn source(&self) -> Seq<u32> {
        self.bitmap.elements()
    }

    /// How many elements the cursor has already handed out.
    pub closed spec fn position(&self) -> int {
        self.pos as int
    }

    /// Whether the cursor has reached its terminal state.
    pub closed spec fn is_done(&self) -> bool {
        self.done
    }

    /// The contents of the buffer, stale slots included.
    pub closed spec fn buffer(&self) -> Seq<u32> {
        self.buffer@
    }

    /// The elements already handed out, in the order they came.
    pub open spec fn produced(&self) -> Seq<u32> {
        self.source().take(self.position())
    }

    /// The elements still to come, in the order they will come.
    pub open spec fn remaining(&self) -> Seq<u32> {
        self.source().skip(self.position())
    }

    pub open spec fn wf(&self) -> bool {
        &&& crate::bitmap::strictly_ascending(self.source())
        &&& 0 <= self.position() <= self.source().len()
        &&& self.is_done() ==> self.position() == self.source().len()
    }

    fn new(bitmap: &'a Bitmap) -> (r: BatchedBitmapIterator<'a>)
        requires
            bitmap.wf(),
        ensures
            r.wf(),
            r.source() == bitmap.elements(),
            r.position() == 0,
            !r.is_done(),
    {
        BatchedBitmapIterator { bitmap, pos: 0, buffer: [0; 32], done: false }
    }

    /// Copies the next elements, up to a full buffer, into the buffer and
    /// returns how many were copied.
    fn read_batch(&mut self) -> (n: u32)
        requires
            old(self).wf(),
        ensures
            final(self).source() == old(self).source(),
            final(self).is_done() == old(self).is_done(),
            n == batch_len(old(self).remaining()),
            final(self).position() == old(self).position() + n,
            final(self).buffer().take(n as int) == old(self).remaining().take(n as int),
    {
        let len = self.bitmap.len();
        let mut n: usize = 0;
        while n < BATCH_SIZE && self.pos < len
            invariant
                self.bitmap == old(self).bitmap,
                self.done == old(self).done,
                len == self.source().len(),
                n <= BATCH_SIZE,
                self.pos == old(self).pos + n,
                self.pos <= len,
                self.buffer@.len() == BATCH_SIZE,
                forall|i: int| 0 <= i < n ==> self.buffer@[i] == old(self).remaining()[i],
            decreases BATCH_SIZE - n,
        {
            let v = self.bitmap.get(self.pos);
            self.buffer[n] = v;
            self.pos = self.pos + 1;
            n = n + 1;
        }
        assert(self.buffer().take(n as int) =~= old(self).remaining().take(n as int));
        n as u32
    }

    /// Fills the buffer with the next elements and returns how many were
    /// written together with a view of exactly those slots. Returns `None`
    /// once every element has been handed out. A full fill leaves the cursor
    /// active; a shorter one ends the traversal, and every later call returns
    /// `None` without reading anything.
    pub fn next(&mut self) -> (r: Option<(u32, &[u32])>)
        requires
            old(self).wf(),
        ensures
            final(self).wf(),
            final(self).source() == old(self).source(),
            old(self).is_done() ==> r is None && *final(self) == *old(self),
            r is None <==> old(self).remaining().len() == 0,
            r is None ==> final(self).is_done() && final(self).remaining() == old(self).remaining(),
            r is Some ==> {
                let n = r->Some_0.0;
                &&& n == batch_len(old(self).remaining())
                &&& 0 < n <= BATCH_SIZE
                &&& r->Some_0.1@ == old(self).remaining().take(n as int)
                &&& final(self).produced() == old(self).produced() + r->Some_0.1@
                &&& final(self).remaining() == old(self).remaining().skip(n as int)
                &&& batch_fills(old(self).remaining()) == seq![r->Some_0.1@] + batch_fills(
                    final(self).remaining(),
                )
                &&& final(self).is_done() == (n < BATCH_SIZE)
            },
            r is Some ==> forall|i: int, j: int|
                0 <= i < old(self).produced().len() && 0 <= j < r->Some_0.1@.len() ==> (
                #[trigger] old(self).produced()[i]) < #[trigger] r->Some_0.1@[j],
            final(self).is_done() ==> final(self).remaining().len() == 0,
    {
        if self.done {
            return None;
        }
        let n = self.read_batch();
        if n == 0 {
            self.done = true;
            None
        } else {
            if n < 32 {
                self.done = true;
            }
            let view = vstd::slice::slice_subrange(self.buffer.as_slice(), 0, n as usize);
            assert(view@ =~= old(self).remaining().take(n as int));
            assert(self.remaining() =~= old(self).remaining().skip(n as int));
            assert(self.produced() =~= old(self).produced() + view@);
            proof {
                let ghost s = old(self).source();
                let ghost p = old(self).position();
                assert forall|i: int, j: int|
                    0 <= i < old(self).produced().len() && 0 <= j < view@.len() implies (
                    #[trigger] old(self).produced()[i]) < #[trigger] view@[j] by {
                    assert(old(self).produced()[i] == s[i]);
                    assert(view@[j] == s[p + j]);
                }
            }
            Some((n, view))
        }
    }
}

/// The batches that repeated fills hand out from `r`, one per fill that
/// returns elements.
pub open spec fn batch_fills(r: Seq<u32>) -> Seq<Seq<u32>>
    decreases r.len(),
{
    if r.len() == 0 {
        Seq::empty()
    } else {
        seq![r.take(batch_len(r))] + batch_fills(r.skip(batch_len(r)))
    }
}

/// Concatenating every batch that fills hand out from the remaining elements
/// gives those elements in order, which is what single steps yield one by
/// one. Each batch holds between one and `BATCH_SIZE` elements, and every
/// batch but the last is full.
pub proof fn lemma_batches_match_single_steps(r: Seq<u32>)
    ensures
        batch_fills(r).flatten() == r,
        forall|i: int|
            0 <= i < batch_fills(r).len() ==> 0 < #[trigger] batch_fills(r)[i].len()
                <= BATCH_SIZE,
        forall|i: int|
            0 <= i < batch_fills(r).len() - 1 ==> #[trigger] batch_fills(r)[i].len()
                == BATCH_SIZE,
    decreases r.len(),
{
    if r.len() > 0 {
        let n = batch_len(r);
        let rest = r.skip(n);
        lemma_batches_match_single_steps(rest);
        let b = batch_fills(r);
        assert(b[0] == r.take(n));
        assert(b.drop_first() =~= batch_fills(rest));
        assert(r.take(n) + rest =~= r);
        assert forall|i: int| 0 <= i < b.len() implies 0 < #[trigger] b[i].len()
            <= BATCH_SIZE by {
            if i > 0 {
                assert(b[i] == batch_fills(rest)[i - 1]);
            }
        }
        assert forall|i: int| 0 <= i < b.len() - 1 implies #[trigger] b[i].len()
            == BATCH_SIZE by {
            if i > 0 {
                assert(b[i] == batch_fills(rest)[i - 1]);
            } else {
                assert(rest.len() > 0);
            }
        }
    }
}
impl<'a> BitmapIterator<'a> {
    /// The values a cursor yields come in strictly ascending order: those
    /// already yielded ascend, and each is below every value still to come.
    pub proof fn lemma_yields_ascending(&self)
        requires
            self.wf(),
        ensures
            crate::bitmap::strictly_ascending(self.produced()),
            crate::bitmap::strictly_ascending(self.remaining()),
            forall|i: int, j: int|
                0 <= i < self.produced().len() && 0 <= j < self.remaining().len() ==> (
                #[trigger] self.produced()[i]) < #[trigger] self.remaining()[j],
            self.produced() + self.remaining() == self.source(),
    {
        assert(self.produced() + self.remaining() =~= self.source());
    }
}

impl<'a> BatchedBitmapIterator<'a> {
    /// The values a batched cursor hands out come in strictly ascending order
    /// across all its fills: those already handed out ascend, and each is
    /// below every value still to come, so any value of a later batch exceeds
    /// every value of an earlier one.
    pub proof fn lemma_batches_ascending(&self)
        requires
            self.wf(),
        ensures
            crate::bitmap::strictly_ascending(self.produced()),
            crate::bitmap::strictly_ascending(self.remaining()),
            forall|i: int, j: int|
                0 <= i < self.produced().len() && 0 <= j < self.remaining().len() ==> (
                #[trigger] self.produced()[i]) < #[trigger] self.remaining()[j],
            self.produced() + self.remaining() == self.source(),
    {
        assert(self.produced() + self.remaining() =~= self.source());
    }
}

impl Bitmap {
    /// A cursor over the elements of the set, in ascending order.
    pub fn iter(&self) -> (r: BitmapIterator<'_>)
        requires
            self.wf(),
        ensures
            r.wf(),
            r.source() == self.elements(),
            r.produced().len() == 0,
            r.remaining() == self.elements(),
    {
        let r = BitmapIterator::new(self);
        assert(r.remaining() =~= self.elements());
        r
    }

    /// A cursor that hands out the elements of the set in ascending order,
    /// up to `BATCH_SIZE` at a time.
    pub fn batched_iter(&self) -> (r: BatchedBitmapIterator<'_>)
        requires
            self.wf(),
        ensures
            r.wf(),
            r.source() == self.elements(),
            !r.is_done(),
            r.remaining() == self.elements(),
    {
        let r = BatchedBitmapIterator::new(self);
        assert(r.remaining() =~= self.elements());
        r
    }
}

} // verus!
