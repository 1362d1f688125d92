use vstd::prelude::*;

verus! {

/// Bookkeeping of a `Vector`: number of elements, room reserved, and how
/// much room each growth adds.
#[derive(Clone, Copy)]
pub struct VectorMeta {
    pub pos: usize,
    pub len: usize,
    pub extend_size: usize,
}

/// A growable array: elements `0 .. pos`, room for `len` of them; when full,
/// a push grows the room by `extend_size`.
pub struct Vector<T> {
    data: Vec<T>,
    meta: VectorMeta,
}

impl<T> View for Vector<T> {
    type V = Seq<T>;

    closed spec fn view(&self) -> Seq<T> {
        self.data@
    }
}

impl<T> Vector<T> {
    /// Elements fill the first `pos` places of the reserved room.
    pub closed spec fn wf(&self) -> bool {
        &&& self.data@.len() == self.meta.pos
        &&& self.meta.pos <= self.meta.len
    }

    /// The bookkeeping of the vector.
    pub closed spec fn meta(&self) -> VectorMeta {
        self.meta
    }

    /// A push does not overflow the reserved room: either room is left or
    /// the vector grows.
    pub open spec fn can_push(&self) -> bool {
        &&& self.meta().pos < self.meta().len || self.meta().extend_size > 0
        &&& self.meta().len + self.meta().extend_size <= usize::MAX
    }

    /// An empty vector with room for `len` elements.
    pub fn new(len: usize, extend_size: usize) -> (r: Vector<T>)
        ensures
            r.wf(),
            r@ == Seq::<T>::empty(),
            r.meta() == (VectorMeta { pos: 0, len, extend_size }),
    {
        Vector { data: Vec::new(), meta: VectorMeta { pos: 0, len, extend_size } }
    }

    /// A vector made of the first `meta.pos` elements of `data`.
    pub fn new_manual(data: Vec<T>, meta: VectorMeta) -> (r: Vector<T>)
        requires
            data@.len() == meta.pos,
            meta.pos <= meta.len,
        ensures
            r.wf(),
            r@ == data@,
            r.meta() == meta,
    {
        Vector { data, meta }
    }

    /// Appends `value`; when the reserved room is full it first grows by
    /// `extend_size`.
    pub fn push(&mut self, value: T)
        requires
            old(self).wf(),
            old(self).can_push(),
        ensures
            final(self).wf(),
            final(self)@ == old(self)@.push(value),
            final(self).meta().pos == old(self).meta().pos + 1,
            final(self).meta().extend_size == old(self).meta().extend_size,
            final(self).meta().len == (if old(self).meta().pos < old(self).meta().len {
                old(self).meta().len
            } else {
                (old(self).meta().len + old(self).meta().extend_size) as usize
            }),
    {
        if self.meta.pos >= self.meta.len {
            self.meta.len = self.meta.len + self.meta.extend_size;
        }
        self.data.push(value);
        self.meta.pos = self.meta.pos + 1;
    }

    /// The elements.
    pub fn as_ptr(&self) -> (r: &[T])
        ensures
            r@ == self@,
    {
        self.data.as_slice()
    }

    /// The elements.
    pub fn as_slice(&self) -> (r: &[T])
        ensures
            r@ == self@,
    {
        self.data.as_slice()
    }

    /// Number of elements.
    pub fn len(&self) -> (r: usize)
        requires
            self.wf(),
        ensures
            r == self@.len(),
            r == self.meta().pos,
    {
        self.meta.pos
    }

    /// Element `index`.
    pub fn get(&self, index: usize) -> (r: &T)
        requires
            index < self@.len(),
        ensures
            *r == self@[index as int],
    {
        &self.data[index]
    }

    /// The last element.
    pub fn last(&self) -> (r: &T)
        requires
            self.wf(),
            self@.len() > 0,
        ensures
            *r == self@.last(),
    {
        &self.data[self.meta.pos - 1]
    }

    /// Replaces element `index`.
    pub fn set(&mut self, index: usize, value: T)
        requires
            index < old(self)@.len(),
        ensures
            final(self)@ == old(self)@.update(index as int, value),
            final(self).meta() == old(self).meta(),
            old(self).wf() ==> final(self).wf(),
    {
        self.data.set(index, value);
    }

    /// Releases the vector.
    pub fn free(self) {
    }
}

impl<T: Copy> Vector<T> {
    /// A copy of the vector, with the same elements and bookkeeping.
    pub fn clone(&self) -> (r: Vector<T>)
        ensures
            r@ == self@,
            r.meta() == self.meta(),
            self.wf() ==> r.wf(),
    {
        let mut data: Vec<T> = Vec::new();
        let mut i: usize = 0;
        while i < self.data.len()
            invariant
                0 <= i <= self.data@.len(),
                data@ == self.data@.take(i as int),
            decreases self.data@.len() - i,
        {
            data.push(self.data[i]);
            i = i + 1;
            assert(data@ =~= self.data@.take(i as int));
        }
        assert(data@ =~= self.data@);
        Vector { data, meta: self.meta }
    }
}

/// A value owned through a pointer.
pub struct Ptr<T> {
    data_ptr: Box<T>,
}

impl<T> View for Ptr<T> {
    type V = T;

    closed spec fn view(&self) -> T {
        *self.data_ptr
    }
}

impl<T> Ptr<T> {
    /// Moves `data` behind a pointer.
    pub fn new(data: T) -> (r: Ptr<T>)
        ensures
            r@ == data,
    {
        Ptr { data_ptr: Box::new(data) }
    }

    /// The value pointed to.
    pub fn deref(&self) -> (r: &T)
        ensures
            *r == self@,
    {
        &self.data_ptr
    }
}

/// A bump allocator over a row of memory zones of `memzone_data_size` bytes
/// each: allocations are laid out one after another in the current zone,
/// one byte apart, and move on to the next zone when they no longer fit.
/// The heap keeps the positions; the zones' bytes live elsewhere.
pub struct Heap {
    current_memzone: isize,
    max_memzone_num: isize,
    memzone_data_size: isize,
    size: usize,
    next_pos: isize,
}

impl Heap {
    /// The zone allocations are taken from.
    pub closed spec fn current_memzone(&self) -> int {
        self.current_memzone as int
    }

    /// The number of zones.
    pub closed spec fn max_memzone_num(&self) -> int {
        self.max_memzone_num as int
    }

    /// The size of a zone, in bytes.
    pub closed spec fn memzone_data_size(&self) -> int {
        self.memzone_data_size as int
    }

    /// Where the next allocation may start in the current zone.
    pub closed spec fn next_pos(&self) -> int {
        self.next_pos as int
    }

    /// Where an allocation of `bytes` bytes lands, as (zone, start), and where
    /// the next one may start.
    pub open spec fn place(&self, bytes: int) -> (int, int, int) {
        if self.next_pos() + bytes > self.memzone_data_size() {
            (self.current_memzone() + 1, 0, bytes + 1)
        } else {
            (self.current_memzone(), self.next_pos(), self.next_pos() + bytes + 1)
        }
    }

    /// An allocation of `size` elements of `T` fits: in the current zone, or
    /// at the start of the next one, which exists.
    pub open spec fn can_malloc<T>(&self, size: usize) -> bool {
        let bytes = vstd::layout::size_of::<T>() * size;
        let (zone, start, next) = self.place(bytes);
        &&& bytes <= usize::MAX
        &&& 0 <= self.next_pos()
        &&& self.next_pos() + bytes + 1 <= isize::MAX
        &&& start + bytes <= self.memzone_data_size()
        &&& 0 <= zone < self.max_memzone_num()
    }

    /// The heap before any zone is set up: ten zones of 1 GiB, nothing
    /// allocated.
    pub fn new() -> (r: Heap)
        ensures
            r.current_memzone() == 0,
            r.max_memzone_num() == 10,
            r.memzone_data_size() == 1073741824,
            r.next_pos() == 0,
    {
        Heap { current_memzone: 0, max_memzone_num: 10, memzone_data_size: 1073741824, size: 0, next_pos: 0 }
    }

    /// Sets the number and size of the zones.
    pub fn init(&mut self, memzone_data_size: usize, max_memzone_num: usize)
        requires
            memzone_data_size <= isize::MAX,
            max_memzone_num <= isize::MAX,
        ensures
            final(self).memzone_data_size() == memzone_data_size,
            final(self).max_memzone_num() == max_memzone_num,
            final(self).current_memzone() == old(self).current_memzone(),
            final(self).next_pos() == old(self).next_pos(),
    {
        self.max_memzone_num = max_memzone_num as isize;
        self.memzone_data_size = memzone_data_size as isize;
    }

    /// Allocates room for `size` elements of `T`: returns the zone and the
    /// start position (see `place`).
    pub fn malloc<T>(&mut self, size: usize) -> (r: (usize, isize))
        requires
            old(self).can_malloc::<T>(size),
        ensures
            ({
                let (zone, start, next) = old(self).place(vstd::layout::size_of::<T>() * size);
                &&& r.0 == zone
                &&& r.1 == start
                &&& final(self).current_memzone() == zone
                &&& final(self).next_pos() == next
                &&& final(self).memzone_data_size() == old(self).memzone_data_size()
                &&& final(self).max_memzone_num() == old(self).max_memzone_num()
            }),
    {
        let elem = core::mem::size_of::<T>();
        assert(elem * size <= usize::MAX);
        let bytes = elem * size;
        let mut start_pos = self.next_pos;
        let mut end_pos = start_pos + bytes as isize;
        if end_pos > self.memzone_data_size {
            self.current_memzone = self.current_memzone + 1;
            start_pos = 0;
            end_pos = bytes as isize;
        }
        self.next_pos = end_pos + 1;
        (self.current_memzone as usize, start_pos)
    }
}

/// Law of the heap: allocations never overlap. After an allocation of `b1`
/// bytes, the next one of `b2` bytes lands in a later zone, or in the same
/// zone past the end of the first.
pub proof fn law_heap_no_overlap(h0: Heap, h1: Heap, b1: int, b2: int)
    requires
        0 <= b1,
        0 <= b2,
        0 <= h0.next_pos(),
        h1.current_memzone() == h0.place(b1).0,
        h1.next_pos() == h0.place(b1).2,
        h1.memzone_data_size() == h0.memzone_data_size(),
    ensures
        h1.place(b2).0 > h0.place(b1).0 || (h1.place(b2).0 == h0.place(b1).0 && h1.place(b2).1 >= h0.place(b1).1
            + b1 + 1),
        0 <= h0.place(b1).1,
{
}

/// A list stored in chunks of `chunk_len` elements: elements are added at
/// the end, a new chunk is started when the last one is full, and added
/// elements never move.
pub struct LinearList<T> {
    chunks: Vec<Vec<T>>,
    chunk_len: usize,
}

/// The elements of a row of chunks, in order.
pub open spec fn flatten<T>(chunks: Seq<Vec<T>>) -> Seq<T>
    decreases chunks.len(),
{
    if chunks.len() == 0 {
        Seq::empty()
    } else {
        flatten(chunks.drop_last()) + chunks.last()@
    }
}

proof fn lemma_flatten_len<T>(chunks: Seq<Vec<T>>, cl: int)
    requires
        chunks.len() >= 1,
        forall|i: int| 0 <= i < chunks.len() - 1 ==> (#[trigger] chunks[i])@.len() == cl,
    ensures
        flatten(chunks).len() == (chunks.len() - 1) * cl + chunks.last()@.len(),
    decreases chunks.len(),
{
    if chunks.len() > 1 {
        let d = chunks.drop_last();
        assert forall|i: int| 0 <= i < d.len() - 1 implies (#[trigger] d[i])@.len() == cl by {
            assert(d[i] == chunks[i]);
        }
        lemma_flatten_len(d, cl);
        assert(d.last() == chunks[chunks.len() - 2]);
        let n = chunks.len() as int;
        assert((n - 2) * cl + cl == (n - 1) * cl) by (nonlinear_arith);
    } else {
        assert(chunks.drop_last() =~= Seq::<Vec<T>>::empty());
        assert(flatten(Seq::<Vec<T>>::empty()) =~= Seq::<T>::empty());
    }
}

impl<T> View for LinearList<T> {
    type V = Seq<T>;

    closed spec fn view(&self) -> Seq<T> {
        flatten(self.chunks@)
    }
}

impl<T> LinearList<T> {
    /// Every chunk but the last is full, and none holds more than a chunk's
    /// room.
    pub closed spec fn wf(&self) -> bool {
        &&& self.chunks@.len() >= 1
        &&& forall|i: int| 0 <= i < self.chunks@.len() ==> (#[trigger] self.chunks@[i])@.len() <= self.chunk_len
        &&& forall|i: int| 0 <= i < self.chunks@.len() - 1 ==> (#[trigger] self.chunks@[i])@.len() == self.chunk_len
    }

    /// The room of one chunk.
    pub closed spec fn chunk_len(&self) -> usize {
        self.chunk_len
    }

    /// An empty list with chunks of `len` elements.
    pub fn new(len: usize) -> (r: LinearList<T>)
        ensures
            r.wf(),
            r@ == Seq::<T>::empty(),
            r.chunk_len() == len,
    {
        let mut chunks: Vec<Vec<T>> = Vec::new();
        chunks.push(Vec::new());
        let r = LinearList { chunks, chunk_len: len };
        assert(r.chunks@.drop_last() =~= Seq::<Vec<T>>::empty());
        assert(r.chunks@.last()@ =~= Seq::<T>::empty());
        assert(flatten(Seq::<Vec<T>>::empty()) =~= Seq::<T>::empty());
        assert(flatten(r.chunks@) =~= Seq::<T>::empty());
        r
    }

    /// Adds `element` at the end of the list, while the first chunk has room;
    /// returns where it was put as (chunk, position).
    pub fn insert(&mut self, element: T) -> (r: (usize, usize))
        requires
            old(self).wf(),
            old(self)@.len() < old(self).chunk_len(),
        ensures
            final(self).wf(),
            final(self)@ == old(self)@.push(element),
            final(self).chunk_len() == old(self).chunk_len(),
            r == (0usize, old(self)@.len() as usize),
    {
        proof {
            lemma_flatten_len(self.chunks@, self.chunk_len as int);
            let n = self.chunks@.len() as int;
            let cl = self.chunk_len as int;
            if n > 1 {
                assert((n - 1) * cl >= cl) by (nonlinear_arith)
                    requires
                        n > 1,
                        cl >= 0,
                ;
            }
            assert(n == 1);
            assert((n - 1) * cl == 0) by (nonlinear_arith)
                requires
                    n == 1,
            ;
            assert(self.chunks@.last()@.len() == flatten(self.chunks@).len());
        }
        let ghost c1 = self.chunks@;
        let last = self.chunks.len() - 1;
        let mut chunk = Vec::new();
        std::mem::swap(&mut chunk, &mut self.chunks[last]);
        chunk.push(element);
        let pos = chunk.len() - 1;
        self.chunks.set(last, chunk);
        proof {
            assert(self.chunks@.drop_last() =~= c1.drop_last());
            assert(flatten(self.chunks@) =~= flatten(c1).push(element));
        }
        (last, pos)
    }
}

} // verus!
