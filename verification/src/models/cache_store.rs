//! The key-value store: keys index values that live in an arena, and dead
//! values are reclaimed by compaction when the arena fills up.
use vstd::prelude::*;
use vstd::set::fold::{is_fun_commutative, lemma_fold_empty, lemma_fold_insert};
use crate::bytes::{bytes_eq, copy_range};
use crate::models::arena::{Arena, ArenaPtr};

verus! {

/// The sum of the lengths that `ptrs` point at.
pub open spec fn total_length(ptrs: Seq<ArenaPtr>) -> int
    decreases ptrs.len(),
{
    if ptrs.len() == 0 {
        0
    } else {
        total_length(ptrs.drop_last()) + ptrs.last().length
    }
}

/// Whether the arena usage `used / capacity` has reached 85%.
pub open spec fn usage_reaches_threshold(used: int, capacity: int) -> bool {
    capacity > 0 && 20 * used >= 17 * capacity
}

/// Whether the arena usage `used / capacity` is above 85%.
pub open spec fn usage_exceeds_threshold(used: int, capacity: int) -> bool {
    capacity > 0 && 20 * used > 17 * capacity
}

fn reaches_threshold(used: usize, capacity: usize) -> (r: bool)
    ensures
        r == usage_reaches_threshold(used as int, capacity as int),
{
    capacity > 0 && (used as u128) * 20 >= (capacity as u128) * 17
}

fn exceeds_threshold(used: usize, capacity: usize) -> (r: bool)
    ensures
        r == usage_exceeds_threshold(used as int, capacity as int),
{
    capacity > 0 && (used as u128) * 20 > (capacity as u128) * 17
}

/// A key-value store whose values live in one arena.
///
/// The index from keys to arena positions is held in two vectors, with each
/// key at most once (see `wf`), and searched from the front. vstd specifies
/// `HashMap` only for key types whose hashing it models (`obeys_key_model`),
/// which it establishes for integer keys and not for byte-string keys.
pub struct CacheStore {
    keys: Vec<Vec<u8>>,
    ptrs: Vec<ArenaPtr>,
    arena: Arena,
}

/// The type under which the server holds its store.
pub type Cache = CacheStore;

impl CacheStore {
    /// The key stored at position `i`.
    pub closed spec fn key_at(&self, i: int) -> Seq<u8> {
        self.keys@[i]@
    }

    /// The value stored at position `i`.
    pub closed spec fn value_at(&self, i: int) -> Seq<u8> {
        self.arena.bytes_at(self.ptrs@[i])
    }

    /// The number of stored keys.
    pub closed spec fn size(&self) -> nat {
        self.keys@.len()
    }

    /// Whether `k` is stored.
    pub closed spec fn has_key(&self, k: Seq<u8>) -> bool {
        exists|i: int| 0 <= i < self.size() && #[trigger] self.key_at(i) == k
    }

    /// The position of a stored key.
    pub closed spec fn index_of(&self, k: Seq<u8>) -> int {
        choose|i: int| 0 <= i < self.size() && #[trigger] self.key_at(i) == k
    }

    /// The bytes the arena has handed out, live or dead.
    pub closed spec fn used(&self) -> int {
        self.arena.alloc_offset as int
    }

    /// The arena's size.
    pub closed spec fn capacity(&self) -> int {
        self.arena.capacity as int
    }

    /// The total length of the stored values.
    pub closed spec fn live_bytes(&self) -> int {
        total_length(self.ptrs@)
    }

    /// The store's invariant: the arena is well formed, each key occurs once,
    /// and the stored values lie in the used part of the arena, in storage
    /// order and without overlap.
    pub closed spec fn wf(&self) -> bool {
        &&& self.arena.wf()
        &&& self.keys@.len() == self.ptrs@.len()
        &&& forall|i: int, j: int|
            0 <= i < self.size() && 0 <= j < self.size() && i != j ==> #[trigger] self.key_at(i)
                != #[trigger] self.key_at(j)
        &&& forall|i: int|
            0 <= i < self.size() ==> #[trigger] self.ptrs@[i].offset + self.ptrs@[i].length
                <= self.arena.alloc_offset
        &&& forall|i: int, j: int|
            0 <= i < j < self.size() ==> #[trigger] self.ptrs@[i].offset + self.ptrs@[i].length
                <= #[trigger] self.ptrs@[j].offset
    }
}

impl CacheStore {
    /// Whether a set compacts the arena first: usage has reached 85%.
    pub open spec fn set_compacts(&self) -> bool {
        usage_reaches_threshold(self.used(), self.capacity())
    }

    /// Where a set allocates its value: after the live bytes when it
    /// compacts, else after the used bytes.
    pub open spec fn set_base(&self) -> int {
        if self.set_compacts() {
            self.live_bytes()
        } else {
            self.used()
        }
    }

    /// Whether a set is refused as out of memory: it compacts, and the live
    /// bytes are still above 85% of the capacity.
    pub open spec fn set_full(&self) -> bool {
        self.set_compacts() && usage_exceeds_threshold(self.live_bytes(), self.capacity())
    }

    /// Whether a value of `len` bytes fits after the base.
    pub open spec fn set_fits(&self, len: nat) -> bool {
        self.set_base() + len <= self.capacity()
    }

    /// Whether a set of a value of `len` bytes succeeds.
    pub open spec fn set_succeeds(&self, len: nat) -> bool {
        !self.set_full() && self.set_fits(len)
    }
}

/// What a successful set of `value` under `key` leaves: the pair is stored,
/// the other pairs are kept, the value follows the base, and the live bytes
/// lose the old value of `key` and gain the new one.
pub open spec fn written(before: CacheStore, after: CacheStore, key: Seq<u8>, value: Seq<u8>) -> bool {
    &&& after@ == before@.insert(key, value)
    &&& after.used() == before.set_base() + value.len()
    &&& after.live_bytes() == before.live_bytes() - (if before@.contains_key(key) {
        before@[key].len() as int
    } else {
        0
    }) + value.len()
}

/// Adds the length of the value stored under a key to a running total.
pub open spec fn add_value_length(m: Map<Seq<u8>, Seq<u8>>) -> spec_fn(int, Seq<u8>) -> int {
    |acc: int, k: Seq<u8>| acc + m[k].len()
}

/// The total length of the values of `m`.
pub open spec fn value_bytes(m: Map<Seq<u8>, Seq<u8>>) -> int {
    m.dom().fold(0int, add_value_length(m))
}

impl View for CacheStore {
    type V = Map<Seq<u8>, Seq<u8>>;

    /// The stored key-value pairs.
    closed spec fn view(&self) -> Map<Seq<u8>, Seq<u8>> {
        Map::new(|k: Seq<u8>| self.has_key(k), |k: Seq<u8>| self.value_at(self.index_of(k)))
    }
}

impl CacheStore {
    proof fn lemma_view_at(&self, i: int)
        requires
            self.wf(),
            0 <= i < self.size(),
        ensures
            self@.contains_key(self.key_at(i)),
            self@[self.key_at(i)] == self.value_at(i),
    {
        let k = self.key_at(i);
        assert(self.has_key(k));
        let j = self.index_of(k);
        assert(self.key_at(j) == k);
    }

    proof fn lemma_view_absent(&self, k: Seq<u8>)
        requires
            forall|i: int| 0 <= i < self.size() ==> #[trigger] self.key_at(i) != k,
        ensures
            !self@.contains_key(k),
    {
    }

    /// The keys at the first `i` positions.
    closed spec fn key_set(&self, i: nat) -> Set<Seq<u8>>
        decreases i,
    {
        if i == 0 {
            Set::empty()
        } else {
            self.key_set((i - 1) as nat).insert(self.key_at(i - 1))
        }
    }

    proof fn lemma_key_set(&self, i: nat)
        requires
            self.wf(),
            i <= self.size(),
        ensures
            self.key_set(i).finite(),
            forall|k: Seq<u8>| #[trigger] self.key_set(i).contains(k) <==> exists|j: int| 0 <= j < i && self.key_at(j) == k,
            self.key_set(i).fold(0int, add_value_length(self@)) == total_length(self.ptrs@.take(i as int)),
        decreases i,
    {
        let f = add_value_length(self@);
        if i == 0 {
            assert(self.ptrs@.take(0) =~= Seq::<ArenaPtr>::empty());
            lemma_fold_empty::<Seq<u8>, int>(0int, f);
        } else {
            let j = (i - 1) as int;
            self.lemma_key_set((i - 1) as nat);
            assert forall|k: Seq<u8>| #[trigger] self.key_set(i).contains(k) <==> exists|jj: int| 0 <= jj < i && self.key_at(jj) == k by {
                if self.key_set(i).contains(k) && k != self.key_at(j) {
                    assert(self.key_set((i - 1) as nat).contains(k));
                }
            }
            assert(!self.key_set((i - 1) as nat).contains(self.key_at(j))) by {
                if self.key_set((i - 1) as nat).contains(self.key_at(j)) {
                    let jj = choose|jj: int| 0 <= jj < i - 1 && self.key_at(jj) == self.key_at(j);
                    assert(self.key_at(jj) != self.key_at(j));
                }
            }
            assert(is_fun_commutative(f));
            lemma_fold_insert(self.key_set((i - 1) as nat), 0int, f, self.key_at(j));
            self.lemma_view_at(j);
            assert(self.ptrs@[j].offset + self.ptrs@[j].length <= self.arena.alloc_offset);
            assert(self.value_at(j).len() == self.ptrs@[j].length);
            assert(self.ptrs@.take(i as int).drop_last() =~= self.ptrs@.take(j));
        }
    }

    /// The live bytes are the total length of the stored values.
    pub proof fn lemma_live_bytes_are_value_bytes(&self)
        requires
            self.wf(),
        ensures
            self.live_bytes() == value_bytes(self@),
    {
        let n = self.size();
        self.lemma_key_set(n);
        assert forall|k: Seq<u8>| #[trigger] self.key_set(n).contains(k) <==> self@.dom().contains(k) by {
            if self@.dom().contains(k) {
                let j = self.index_of(k);
                assert(self.key_at(j) == k);
            }
        }
        assert(self.key_set(n) =~= self@.dom());
        assert(self.ptrs@.take(n as int) =~= self.ptrs@);
    }

    /// The live bytes never exceed the used bytes, which never exceed the
    /// capacity.
    pub proof fn lemma_bounds(&self)
        requires
            self.wf(),
        ensures
            0 <= self.live_bytes() <= self.used() <= self.capacity(),
    {
        self.lemma_prefix_lengths(self.size());
        assert(self.ptrs@.take(self.size() as int) =~= self.ptrs@);
    }

    /// The values before position `n` take no more room than the offset of
    /// the value at `n` (or than the used bytes, at the end).
    proof fn lemma_prefix_lengths(&self, n: nat)
        requires
            self.wf(),
            n <= self.size(),
        ensures
            0 <= total_length(self.ptrs@.take(n as int)),
            n < self.size() ==> total_length(self.ptrs@.take(n as int)) <= self.ptrs@[n as int].offset,
            n == self.size() ==> total_length(self.ptrs@.take(n as int)) <= self.arena.alloc_offset,
        decreases n,
    {
        if n == 0 {
            assert(self.ptrs@.take(0) =~= Seq::<ArenaPtr>::empty());
        } else {
            self.lemma_prefix_lengths((n - 1) as nat);
            assert(self.ptrs@.take(n as int).drop_last() =~= self.ptrs@.take(n - 1));
            if n < self.size() {
                assert(self.ptrs@[n - 1].offset + self.ptrs@[n - 1].length <= self.ptrs@[n as int].offset);
            }
        }
        if n == self.size() {
            assert(self.ptrs@.take(n as int) =~= self.ptrs@);
        }
    }
}


proof fn lemma_total_length_push(s: Seq<ArenaPtr>, p: ArenaPtr)
    ensures
        total_length(s.push(p)) == total_length(s) + p.length,
{
    assert(s.push(p).drop_last() =~= s);
}

proof fn lemma_total_length_remove(s: Seq<ArenaPtr>, i: int)
    requires
        0 <= i < s.len(),
    ensures
        total_length(s.remove(i)) == total_length(s) - s[i].length,
    decreases s.len(),
{
    if i == s.len() - 1 {
        assert(s.remove(i) =~= s.drop_last());
    } else {
        lemma_total_length_remove(s.drop_last(), i);
        assert(s.remove(i).drop_last() =~= s.drop_last().remove(i));
        assert(s.remove(i).last() == s.last());
    }
}

/// Bytes below `a` that a write at or above `a` leaves alone.
proof fn lemma_range_kept(m1: Seq<u8>, m2: Seq<u8>, a: int, off: int, len: int)
    requires
        0 <= off,
        0 <= len,
        off + len <= a <= m1.len(),
        a <= m2.len(),
        forall|j: int| 0 <= j < a ==> m2[j] == m1[j],
    ensures
        m2.subrange(off, off + len) == m1.subrange(off, off + len),
{
    assert(m2.subrange(off, off + len) =~= m1.subrange(off, off + len));
}

impl CacheStore {
    /// Two stores with the same keys and values at every position hold the
    /// same pairs.
    proof fn lemma_same_contents(a: &CacheStore, b: &CacheStore)
        requires
            a.wf(),
            b.wf(),
            a.size() == b.size(),
            forall|i: int| 0 <= i < a.size() ==> #[trigger] a.key_at(i) == b.key_at(i),
            forall|i: int| 0 <= i < a.size() ==> #[trigger] a.value_at(i) == b.value_at(i),
        ensures
            a@ == b@,
    {
        assert forall|k: Seq<u8>| a@.contains_key(k) implies b@.contains_key(k) && b@[k] == a@[k] by {
            let i = a.index_of(k);
            assert(a.key_at(i) == k);
            a.lemma_view_at(i);
            b.lemma_view_at(i);
        }
        assert forall|k: Seq<u8>| b@.contains_key(k) implies a@.contains_key(k) by {
            let i = b.index_of(k);
            assert(b.key_at(i) == k);
            a.lemma_view_at(i);
        }
        assert(a@ =~= b@);
    }

    /// An empty store over a zeroed arena of `capacity` bytes.
    pub fn new(capacity: usize) -> (r: Self)
        ensures
            r.wf(),
            r@ == Map::<Seq<u8>, Seq<u8>>::empty(),
            r.used() == 0,
            r.live_bytes() == 0,
            r.capacity() == capacity,
    {
        let r = Self { keys: Vec::new(), ptrs: Vec::new(), arena: Arena::new(capacity) };
        assert(r@ =~= Map::<Seq<u8>, Seq<u8>>::empty());
        r
    }

    /// The arena that holds the values.
    pub fn arena(&self) -> (r: &Arena)
        requires
            self.wf(),
        ensures
            r.wf(),
            r.alloc_offset == self.used(),
            r.capacity == self.capacity(),
    {
        &self.arena
    }

    /// The position of `key`, if it is stored.
    fn find(&self, key: &[u8]) -> (r: Option<usize>)
        requires
            self.wf(),
        ensures
            match r {
                Some(i) => i < self.size() && self.key_at(i as int) == key@,
                None => forall|i: int| 0 <= i < self.size() ==> #[trigger] self.key_at(i) != key@,
            },
    {
        let n = self.keys.len();
        let mut i: usize = 0;
        while i < n
            invariant
                n == self.size(),
                i <= n,
                forall|j: int| 0 <= j < i ==> #[trigger] self.key_at(j) != key@,
            decreases n - i,
        {
            if bytes_eq(self.keys[i].as_slice(), key) {
                return Some(i);
            }
            i = i + 1;
        }
        None
    }

    /// The value stored under `key`, if any.
    pub fn get(&self, key: &[u8]) -> (r: Option<&[u8]>)
        requires
            self.wf(),
        ensures
            r is Some == self@.contains_key(key@),
            r matches Some(v) ==> v@ == self@[key@],
    {
        match self.find(key) {
            Some(i) => {
                proof {
                    self.lemma_view_at(i as int);
                }
                let ptr = self.ptrs[i];
                Some(self.arena.read(ptr))
            },
            None => {
                proof {
                    self.lemma_view_absent(key@);
                }
                None
            },
        }
    }

    /// Removes the position `i` from the index; the arena is left alone.
    fn remove_at(&mut self, i: usize)
        requires
            old(self).wf(),
            i < old(self).size(),
        ensures
            final(self).wf(),
            final(self)@ == old(self)@.remove(old(self).key_at(i as int)),
            final(self).used() == old(self).used(),
            final(self).capacity() == old(self).capacity(),
            final(self).live_bytes() == old(self).live_bytes() - old(self)@[old(self).key_at(i as int)].len(),
            final(self).arena == old(self).arena,
            final(self).ptrs@ == old(self).ptrs@.remove(i as int),
            final(self).keys@ == old(self).keys@.remove(i as int),
    {
        let ghost pre = *self;
        proof {
            pre.lemma_view_at(i as int);
        }
        self.keys.remove(i);
        self.ptrs.remove(i);
        proof {
            let ii = i as int;
            let k = pre.key_at(ii);
            assert forall|a: int, b: int|
                0 <= a < self.size() && 0 <= b < self.size() && a != b implies #[trigger] self.key_at(a)
                != #[trigger] self.key_at(b) by {
                let a2 = if a < ii { a } else { a + 1 };
                let b2 = if b < ii { b } else { b + 1 };
                assert(self.key_at(a) == pre.key_at(a2));
                assert(self.key_at(b) == pre.key_at(b2));
            }
            assert forall|a: int| 0 <= a < self.size() implies #[trigger] self.ptrs@[a].offset
                + self.ptrs@[a].length <= self.arena.alloc_offset by {
                let a2 = if a < ii { a } else { a + 1 };
                assert(self.ptrs@[a] == pre.ptrs@[a2]);
            }
            assert forall|a: int, b: int| 0 <= a < b < self.size() implies #[trigger] self.ptrs@[a].offset
                + self.ptrs@[a].length <= #[trigger] self.ptrs@[b].offset by {
                let a2 = if a < ii { a } else { a + 1 };
                let b2 = if b < ii { b } else { b + 1 };
                assert(self.ptrs@[a] == pre.ptrs@[a2]);
                assert(self.ptrs@[b] == pre.ptrs@[b2]);
            }
            assert(self.wf());
            assert forall|kk: Seq<u8>| #[trigger] self@.contains_key(kk) == pre@.remove(k).contains_key(kk)
                && (self@.contains_key(kk) ==> self@[kk] == pre@.remove(k)[kk]) by {
                if self@.contains_key(kk) {
                    let a = self.index_of(kk);
                    assert(self.key_at(a) == kk);
                    let a2 = if a < ii { a } else { a + 1 };
                    assert(self.key_at(a) == pre.key_at(a2));
                    assert(self.value_at(a) == pre.value_at(a2));
                    self.lemma_view_at(a);
                    pre.lemma_view_at(a2);
                }
                if pre@.remove(k).contains_key(kk) {
                    let a2 = pre.index_of(kk);
                    assert(pre.key_at(a2) == kk);
                    assert(a2 != ii);
                    let a = if a2 < ii { a2 } else { a2 - 1 };
                    assert(self.key_at(a) == pre.key_at(a2));
                    self.lemma_view_at(a);
                }
            }
            assert(self@ =~= pre@.remove(k));
            lemma_total_length_remove(pre.ptrs@, ii);
        }
    }

    /// Removes `key`; returns whether it was stored. The value's bytes stay
    /// in the arena until the next compaction.
    pub fn delete(&mut self, key: &[u8]) -> (r: bool)
        requires
            old(self).wf(),
        ensures
            final(self).wf(),
            r == old(self)@.contains_key(key@),
            final(self)@ == old(self)@.remove(key@),
            op_applied(old(self)@, final(self)@, (StoreOp::Delete { key: key@ })),
            final(self).used() == old(self).used(),
            final(self).capacity() == old(self).capacity(),
            final(self).live_bytes() == old(self).live_bytes() - (if r {
                old(self)@[key@].len() as int
            } else {
                0
            }),
    {
        match self.find(key) {
            Some(i) => {
                proof {
                    self.lemma_view_at(i as int);
                }
                self.remove_at(i);
                true
            },
            None => {
                proof {
                    self.lemma_view_absent(key@);
                    assert(self@.remove(key@) =~= self@);
                }
                false
            },
        }
    }

    /// Moves every stored value to the front of a fresh arena of the same
    /// capacity, in storage order, so that the used bytes become the live
    /// bytes; the stored pairs stay as they were.
    pub fn compact(&mut self)
        requires
            old(self).wf(),
        ensures
            final(self).wf(),
            final(self)@ == old(self)@,
            final(self).used() == old(self).live_bytes(),
            final(self).used() == value_bytes(old(self)@),
            final(self).live_bytes() == old(self).live_bytes(),
            final(self).capacity() == old(self).capacity(),
    {
        proof {
            self.lemma_live_bytes_are_value_bytes();
        }
        let ghost pre = *self;
        let mut new_arena = Arena::new(self.arena.capacity);
        let n = self.ptrs.len();
        let mut i: usize = 0;
        while i < n
            invariant
                pre.wf(),
                n == pre.size(),
                self.keys == pre.keys,
                self.arena == pre.arena,
                self.ptrs@.len() == n,
                i <= n,
                new_arena.wf(),
                new_arena.capacity == pre.arena.capacity,
                new_arena.alloc_offset == total_length(pre.ptrs@.take(i as int)),
                total_length(self.ptrs@.take(i as int)) == total_length(pre.ptrs@.take(i as int)),
                forall|j: int| i <= j < n ==> self.ptrs@[j] == pre.ptrs@[j],
                forall|j: int|
                    0 <= j < i ==> #[trigger] self.ptrs@[j].offset + self.ptrs@[j].length
                        <= new_arena.alloc_offset,
                forall|j: int, k: int|
                    0 <= j < k < i ==> #[trigger] self.ptrs@[j].offset + self.ptrs@[j].length
                        <= #[trigger] self.ptrs@[k].offset,
                forall|j: int|
                    0 <= j < i ==> #[trigger] new_arena.bytes_at(self.ptrs@[j]) == pre.value_at(j),
            decreases n - i,
        {
            let p = self.ptrs[i];
            proof {
                pre.lemma_prefix_lengths(i as nat);
            }
            let data = self.arena.read(p);
            let ghost before = new_arena;
            let np = match new_arena.allocate(data) {
                Some(np) => np,
                None => {
                    assert(false);
                    p
                },
            };
            let ghost prev_ptrs = self.ptrs@;
            self.ptrs.set(i, np);
            proof {
                assert forall|j: int| 0 <= j < i implies #[trigger] new_arena.bytes_at(self.ptrs@[j])
                    == pre.value_at(j) by {
                    assert(self.ptrs@[j] == prev_ptrs[j]);
                    assert(before.bytes_at(prev_ptrs[j]) == pre.value_at(j));
                    assert(prev_ptrs[j].offset + prev_ptrs[j].length <= before.alloc_offset);
                    lemma_range_kept(
                        before.memory@,
                        new_arena.memory@,
                        before.alloc_offset as int,
                        prev_ptrs[j].offset as int,
                        prev_ptrs[j].length as int,
                    );
                }
                assert(new_arena.bytes_at(np) =~= data@);
                assert(self.ptrs@.take(i + 1).drop_last() =~= prev_ptrs.take(i as int));
                assert(pre.ptrs@.take(i + 1).drop_last() =~= pre.ptrs@.take(i as int));
            }
            i = i + 1;
        }
        self.arena = new_arena;
        proof {
            assert(self.ptrs@.take(n as int) =~= self.ptrs@);
            assert(pre.ptrs@.take(n as int) =~= pre.ptrs@);
            assert(self.arena.wf());
            assert(self.keys@.len() == self.ptrs@.len());
            assert forall|i: int, j: int|
                0 <= i < self.size() && 0 <= j < self.size() && i != j implies #[trigger] self.key_at(i)
                != #[trigger] self.key_at(j) by {
                assert(self.key_at(i) == pre.key_at(i));
                assert(self.key_at(j) == pre.key_at(j));
            }
            assert(forall|i: int|
            0 <= i < self.size() ==> #[trigger] self.ptrs@[i].offset + self.ptrs@[i].length
                <= self.arena.alloc_offset);
            assert(self.wf());
            CacheStore::lemma_same_contents(self, &pre);
        }
    }

    /// Copies `value` into the arena without indexing it.
    fn allocate_value(&mut self, value: &[u8]) -> (r: Option<ArenaPtr>)
        requires
            old(self).wf(),
        ensures
            final(self).wf(),
            final(self)@ == old(self)@,
            final(self).keys == old(self).keys,
            final(self).ptrs == old(self).ptrs,
            final(self).capacity() == old(self).capacity(),
            final(self).live_bytes() == old(self).live_bytes(),
            (old(self).used() + value@.len() > old(self).capacity() ==> (r is None && final(self).used()
                == old(self).used())),
            (old(self).used() + value@.len() <= old(self).capacity() ==> (r matches Some(ptr) && {
                &&& ptr.offset == old(self).used()
                &&& ptr.length == value@.len()
                &&& final(self).used() == old(self).used() + value@.len()
                &&& final(self).arena.bytes_at(ptr) == value@
            })),
    {
        let ghost mid = *self;
        let r = self.arena.allocate(value);
        proof {
            assert forall|j: int| 0 <= j < self.size() implies #[trigger] self.value_at(j)
                == mid.value_at(j) by {
                assert(mid.ptrs@[j].offset + mid.ptrs@[j].length <= mid.arena.alloc_offset);
                if r is Some {
                    lemma_range_kept(
                        mid.arena.memory@,
                        self.arena.memory@,
                        mid.arena.alloc_offset as int,
                        mid.ptrs@[j].offset as int,
                        mid.ptrs@[j].length as int,
                    );
                }
            }
            assert forall|i: int, j: int|
                0 <= i < self.size() && 0 <= j < self.size() && i != j implies #[trigger] self.key_at(i)
                != #[trigger] self.key_at(j) by {
                assert(self.key_at(i) == mid.key_at(i));
                assert(self.key_at(j) == mid.key_at(j));
            }
            assert forall|i: int| 0 <= i < self.size() implies #[trigger] self.ptrs@[i].offset
                + self.ptrs@[i].length <= self.arena.alloc_offset by {
                assert(mid.ptrs@[i].offset + mid.ptrs@[i].length <= mid.arena.alloc_offset);
            }
            assert forall|i: int, j: int| 0 <= i < j < self.size() implies #[trigger] self.ptrs@[i].offset
                + self.ptrs@[i].length <= #[trigger] self.ptrs@[j].offset by {
                assert(mid.ptrs@[i].offset + mid.ptrs@[i].length <= mid.ptrs@[j].offset);
            }
            assert(self.wf());
            CacheStore::lemma_same_contents(self, &mid);
        }
        r
    }

    /// Indexes under `key` the value at `ptr`, which lies after every stored
    /// value and within the used bytes; an old value of `key` is dropped
    /// from the index.
    fn place(&mut self, key: Vec<u8>, ptr: ArenaPtr)
        requires
            old(self).wf(),
            ptr.offset + ptr.length <= old(self).arena.alloc_offset,
            forall|i: int| 0 <= i < old(self).size() ==> #[trigger] old(self).ptrs@[i].offset
                + old(self).ptrs@[i].length <= ptr.offset,
        ensures
            final(self).wf(),
            final(self)@ == old(self)@.insert(key@, old(self).arena.bytes_at(ptr)),
            final(self).arena == old(self).arena,
            final(self).live_bytes() == old(self).live_bytes() - (if old(self)@.contains_key(key@) {
                old(self)@[key@].len() as int
            } else {
                0
            }) + ptr.length,
    {
        let ghost pre = *self;
        let ghost value = self.arena.bytes_at(ptr);
        match self.find(key.as_slice()) {
            Some(i) => {
                proof {
                    self.lemma_view_at(i as int);
                }
                self.remove_at(i);
            },
            None => {
                proof {
                    self.lemma_view_absent(key@);
                    assert(self@.remove(key@) =~= self@);
                }
            },
        }
        let ghost removed = *self;
        let ghost kv = key@;
        proof {
            assert forall|j: int| 0 <= j < removed.size() implies removed.ptrs@[j].offset
                + removed.ptrs@[j].length <= ptr.offset by {
                if removed.size() == pre.size() {
                    assert(removed.ptrs@[j] == pre.ptrs@[j]);
                } else {
                    let i = choose|i: int| 0 <= i < pre.size() && removed.ptrs@ == pre.ptrs@.remove(i);
                    let j2 = if j < i { j } else { j + 1 };
                    assert(removed.ptrs@[j] == pre.ptrs@[j2]);
                }
            }
        }
        self.keys.push(key);
        self.ptrs.push(ptr);
        proof {
            let n = removed.size() as int;
            assert(self.key_at(n) == kv);
            assert forall|j: int| 0 <= j < n implies #[trigger] self.key_at(j) == removed.key_at(j)
                && self.ptrs@[j] == removed.ptrs@[j] by {}
            assert forall|j: int| 0 <= j < n implies #[trigger] removed.key_at(j) != kv by {
                if removed.key_at(j) == kv {
                    removed.lemma_view_at(j);
                }
            }
            assert forall|a: int, b: int|
                0 <= a < self.size() && 0 <= b < self.size() && a != b implies #[trigger] self.key_at(a)
                != #[trigger] self.key_at(b) by {
                if a < n && b < n {
                    assert(removed.key_at(a) != removed.key_at(b));
                }
            }
            assert forall|a: int| 0 <= a < self.size() implies #[trigger] self.ptrs@[a].offset
                + self.ptrs@[a].length <= self.arena.alloc_offset by {
                if a < n {
                    assert(removed.ptrs@[a].offset + removed.ptrs@[a].length <= removed.arena.alloc_offset);
                }
            }
            assert forall|a: int, b: int| 0 <= a < b < self.size() implies #[trigger] self.ptrs@[a].offset
                + self.ptrs@[a].length <= #[trigger] self.ptrs@[b].offset by {
                if b < n {
                    assert(removed.ptrs@[a].offset + removed.ptrs@[a].length <= removed.ptrs@[b].offset);
                } else {
                    assert(removed.ptrs@[a].offset + removed.ptrs@[a].length <= ptr.offset);
                }
            }
            assert(self.wf());
            assert forall|kk: Seq<u8>| #[trigger] self@.contains_key(kk) == removed@.insert(kv, value).contains_key(kk)
                && (self@.contains_key(kk) ==> self@[kk] == removed@.insert(kv, value)[kk]) by {
                if kk == kv {
                    self.lemma_view_at(n);
                } else {
                    if self@.contains_key(kk) {
                        let a = self.index_of(kk);
                        assert(self.key_at(a) == kk);
                        assert(a != n);
                        removed.lemma_view_at(a);
                        self.lemma_view_at(a);
                    }
                    if removed@.contains_key(kk) {
                        let a = removed.index_of(kk);
                        assert(removed.key_at(a) == kk);
                        self.lemma_view_at(a);
                    }
                }
            }
            assert(self@ =~= removed@.insert(kv, value));
            assert(removed@.insert(kv, value) =~= pre@.insert(kv, value));
            lemma_total_length_push(removed.ptrs@, ptr);
        }
    }

    /// Stores `value` under `key`. When the arena is 85% used, it is
    /// compacted first; if it is then still above 85%, the store refuses with
    /// an out-of-memory error. Otherwise the value is copied into the arena,
    /// or refused if it does not fit.
    pub fn set(&mut self, key: Vec<u8>, value: &[u8]) -> (r: Result<(), &'static str>)
        requires
            old(self).wf(),
        ensures
            final(self).wf(),
            final(self).capacity() == old(self).capacity(),
            old(self).set_full() ==> r == Err::<(), &'static str>("OOM: Arena full even after compaction"),
            !old(self).set_full() && !old(self).set_fits(value@.len()) ==> r == Err::<(), &'static str>(
                "Failed to allocate in arena",
            ),
            old(self).set_succeeds(value@.len()) ==> r == Ok::<(), &'static str>(()),
            r is Err ==> final(self)@ == old(self)@ && final(self).used() == old(self).set_base()
                && final(self).live_bytes() == old(self).live_bytes(),
            r is Ok ==> written(*old(self), *final(self), key@, value@),
            op_applied(old(self)@, final(self)@, (StoreOp::Put { key: key@, value: value@, stored: r is Ok })),
    {
        proof {
            self.lemma_bounds();
        }
        if reaches_threshold(self.arena.alloc_offset, self.arena.capacity) {
            self.compact();
            if exceeds_threshold(self.arena.alloc_offset, self.arena.capacity) {
                return Err("OOM: Arena full even after compaction");
            }
        }
        let ghost mid = *self;
        match self.allocate_value(value) {
            None => Err("Failed to allocate in arena"),
            Some(ptr) => {
                proof {
                    assert forall|i: int| 0 <= i < self.size() implies #[trigger] self.ptrs@[i].offset
                        + self.ptrs@[i].length <= ptr.offset by {
                        assert(mid.ptrs@[i].offset + mid.ptrs@[i].length <= mid.arena.alloc_offset);
                    }
                }
                self.place(key, ptr);
                Ok(())
            },
        }
    }
}

/// A value set under a key is what a get of that key returns, and every
/// other key reads as it did before the set.
pub proof fn law_read_after_write(before: CacheStore, after: CacheStore, key: Seq<u8>, value: Seq<u8>)
    requires
        written(before, after, key, value),
    ensures
        after@.contains_key(key),
        after@[key] == value,
        forall|k: Seq<u8>| k != key ==> #[trigger] after@.contains_key(k) == before@.contains_key(k),
        forall|k: Seq<u8>| k != key && before@.contains_key(k) ==> #[trigger] after@[k] == before@[k],
{
}

/// A value small enough to fit after compaction is always stored: when the
/// live bytes together with the value stay within 85% of the capacity and
/// the value takes at most 15% of it, a set succeeds, whatever dead bytes
/// the arena holds. (Larger values can be refused although compaction would
/// make room, because the arena is compacted only from 85% usage on.)
pub proof fn law_small_values_always_fit(s: CacheStore, len: nat)
    requires
        s.wf(),
        20 * (s.live_bytes() + len) <= 17 * s.capacity(),
        20 * len <= 3 * s.capacity(),
    ensures
        s.set_succeeds(len),
{
    s.lemma_bounds();
}

/// Deleting a key makes its reads miss and keeps every other key.
pub proof fn law_read_after_delete(before: CacheStore, after: CacheStore, key: Seq<u8>)
    requires
        after@ == before@.remove(key),
    ensures
        !after@.contains_key(key),
        forall|k: Seq<u8>| k != key ==> #[trigger] after@.contains_key(k) == before@.contains_key(k),
        forall|k: Seq<u8>| k != key && before@.contains_key(k) ==> #[trigger] after@[k] == before@[k],
{
}

/// A set that compacts the arena leaves no dead bytes but the key's
/// replaced value: compaction reclaims everything else.
pub proof fn law_compaction_reclaims_dead_space_on_set(before: CacheStore, after: CacheStore, key: Seq<u8>, value: Seq<u8>)
    requires
        before.set_compacts(),
        written(before, after, key, value),
    ensures
        after.used() - after.live_bytes() == if before@.contains_key(key) {
            before@[key].len() as int
        } else {
            0
        },
{
}

/// One call on the store, as far as its contents go: a set of `value` under
/// `key` that was stored (`Ok`) or refused, or a delete of `key`.
pub enum StoreOp {
    Put { key: Seq<u8>, value: Seq<u8>, stored: bool },
    Delete { key: Seq<u8> },
}

/// How one call changes the stored pairs, as the contracts of `set` and
/// `delete` state it.
pub open spec fn op_applied(before: Map<Seq<u8>, Seq<u8>>, after: Map<Seq<u8>, Seq<u8>>, op: StoreOp) -> bool {
    match op {
        StoreOp::Put { key, value, stored } => if stored {
            after == before.insert(key, value)
        } else {
            after == before
        },
        StoreOp::Delete { key } => after == before.remove(key),
    }
}

/// What a get of `k` returns after the calls `h`: the value of the last
/// stored set of `k`, unless a delete of `k` came after it; else nothing.
pub open spec fn last_write(h: Seq<StoreOp>, k: Seq<u8>) -> Option<Seq<u8>>
    decreases h.len(),
{
    if h.len() == 0 {
        None
    } else {
        match h.last() {
            StoreOp::Put { key, value, stored } => if stored && key == k {
                Some(value)
            } else {
                last_write(h.drop_last(), k)
            },
            StoreOp::Delete { key } => if key == k {
                None
            } else {
                last_write(h.drop_last(), k)
            },
        }
    }
}

/// Over any history of calls on a store that starts empty, each call
/// changing the pairs as `set` and `delete` state, a get of any key returns
/// the value of its last stored set unless a delete of it came later, and
/// misses otherwise.
pub proof fn law_get_returns_last_write(views: Seq<Map<Seq<u8>, Seq<u8>>>, h: Seq<StoreOp>, k: Seq<u8>)
    requires
        views.len() == h.len() + 1,
        views[0] == Map::<Seq<u8>, Seq<u8>>::empty(),
        forall|i: int| 0 <= i < h.len() ==> #[trigger] op_applied(views[i], views[i + 1], h[i]),
    ensures
        views.last().contains_key(k) == last_write(h, k) is Some,
        last_write(h, k) matches Some(v) ==> views.last()[k] == v,
    decreases h.len(),
{
    if h.len() > 0 {
        let n = h.len() - 1;
        assert forall|i: int| 0 <= i < h.drop_last().len() implies #[trigger] op_applied(
            views.drop_last()[i],
            views.drop_last()[i + 1],
            h.drop_last()[i],
        ) by {
            assert(op_applied(views[i], views[i + 1], h[i]));
        }
        law_get_returns_last_write(views.drop_last(), h.drop_last(), k);
        assert(op_applied(views[n], views[n + 1], h[n]));
        assert(views.drop_last().last() == views[n]);
    }
}

} // verus!
