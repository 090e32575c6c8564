//! A bump allocator over one pre-allocated byte buffer.
use vstd::prelude::*;

verus! {

/// Where a value lies in an arena: its first byte and its length.
#[derive(Clone, Copy, Debug)]
pub struct ArenaPtr {
    pub offset: usize,
    pub length: usize,
}

/// A fixed buffer of `capacity` bytes handed out front to back; bytes before
/// `alloc_offset` are taken, the next allocation starts at `alloc_offset`.
pub struct Arena {
    pub memory: Vec<u8>,
    pub capacity: usize,
    pub alloc_offset: usize,
}

impl Arena {
    /// The arena's invariant: the buffer holds `capacity` bytes and the next
    /// free byte lies within it.
    pub open spec fn wf(&self) -> bool {
        &&& self.memory@.len() == self.capacity
        &&& self.alloc_offset <= self.capacity
    }

    /// The bytes that `ptr` points at.
    pub open spec fn bytes_at(&self, ptr: ArenaPtr) -> Seq<u8> {
        self.memory@.subrange(ptr.offset as int, ptr.offset + ptr.length)
    }

    /// A zeroed arena of `capacity` bytes with nothing allocated.
    pub fn new(capacity: usize) -> (r: Self)
        ensures
            r.wf(),
            r.capacity == capacity,
            r.alloc_offset == 0,
            r.memory@ == Seq::new(capacity as nat, |i: int| 0u8),
    {
        let mut memory: Vec<u8> = Vec::with_capacity(capacity);
        let mut i: usize = 0;
        while i < capacity
            invariant
                i <= capacity,
                memory@ == Seq::new(i as nat, |j: int| 0u8),
            decreases capacity - i,
        {
            memory.push(0u8);
            assert(memory@ =~= Seq::new((i + 1) as nat, |j: int| 0u8));
            i = i + 1;
        }
        Self { memory, capacity, alloc_offset: 0 }
    }

    /// Copies `data` into the next free bytes and returns where it lies, or
    /// returns `None`, changing nothing, when it does not fit before the end
    /// of the buffer.
    pub fn allocate(&mut self, data: &[u8]) -> (r: Option<ArenaPtr>)
        ensures
            final(self).capacity == old(self).capacity,
            old(self).alloc_offset + data@.len() > old(self).memory@.len() ==> {
                &&& r is None
                &&& final(self).memory@ == old(self).memory@
                &&& final(self).alloc_offset == old(self).alloc_offset
            },
            old(self).alloc_offset + data@.len() <= old(self).memory@.len() ==> {
                &&& r == Some(ArenaPtr { offset: old(self).alloc_offset, length: data@.len() as usize })
                &&& final(self).alloc_offset == old(self).alloc_offset + data@.len()
                &&& final(self).memory@.len() == old(self).memory@.len()
                &&& forall|j: int| 0 <= j < old(self).alloc_offset ==> final(self).memory@[j] == old(self).memory@[j]
                &&& final(self).memory@.subrange(old(self).alloc_offset as int, old(self).alloc_offset + data@.len()) == data@
                &&& final(self).bytes_at(r->0) == data@
                &&& forall|p: ArenaPtr| p.offset + p.length <= old(self).alloc_offset ==> #[trigger] final(self).bytes_at(p) == old(self).bytes_at(p)
                &&& final(self).memory@ == old(self).memory@.subrange(0, old(self).alloc_offset as int)
                    + data@ + old(self).memory@.subrange(
                    old(self).alloc_offset + data@.len(),
                    old(self).memory@.len() as int,
                )
            },
    {
        if self.alloc_offset > self.memory.len() || data.len() > self.memory.len() - self.alloc_offset {
            return None;
        }
        let start = self.alloc_offset;
        let end = start + data.len();
        let mut i: usize = 0;
        while i < data.len()
            invariant
                start + data@.len() <= self.memory@.len(),
                end == start + data@.len(),
                i <= data@.len(),
                self.memory@.len() == old(self).memory@.len(),
                self.capacity == old(self).capacity,
                self.alloc_offset == old(self).alloc_offset,
                start == old(self).alloc_offset,
                forall|j: int| 0 <= j < start ==> self.memory@[j] == old(self).memory@[j],
                forall|j: int| start <= j < start + i ==> self.memory@[j] == data@[j - start],
                forall|j: int| start + i <= j < self.memory@.len() ==> self.memory@[j] == old(self).memory@[j],
            decreases data@.len() - i,
        {
            self.memory.set(start + i, data[i]);
            i = i + 1;
        }
        self.alloc_offset = end;
        assert(self.memory@ =~= old(self).memory@.subrange(0, start as int) + data@ + old(self).memory@.subrange(
            end as int,
            old(self).memory@.len() as int,
        ));
        assert(self.memory@.subrange(start as int, end as int) =~= data@);
        assert forall|p: ArenaPtr| p.offset + p.length <= old(self).alloc_offset implies #[trigger] self.bytes_at(p) == old(self).bytes_at(p) by {
            assert(self.bytes_at(p) =~= old(self).bytes_at(p));
        }
        Some(ArenaPtr { offset: start, length: data.len() })
    }

    /// The bytes that `ptr` points at; `ptr` must lie within the buffer.
    pub fn read(&self, ptr: ArenaPtr) -> (r: &[u8])
        requires
            ptr.offset + ptr.length <= self.memory.len(),
        ensures
            r@ == self.bytes_at(ptr),
    {
        let s = self.memory.as_slice();
        &s[ptr.offset..(ptr.offset + ptr.length)]
    }
}

} // verus!
