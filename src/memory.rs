//! The memory substrate: a paged heap addressed by packed 32-bit addresses,
//! a bump arena over it, and a typed slab with a first-fit free list.
use vstd::prelude::*;
use vstd::slice::slice_subrange;
use std::marker::PhantomData;

verus! {

/// Bytes in a page that the arena requests.
pub const PAGE_SIZE: usize = 65536;

/// Number of addressable pages: the high 16 bits of an address.
pub const NUM_PAGES: u32 = 65536;

pub const PAGE_INDEX_SHIFT: u32 = 16;

pub const PAGE_INDEX_MASK: u32 = 0xffff_0000;

pub const PAGE_OFFSET_MASK: u32 = 0xffff;

/// The reserved address that never dereferences.
pub const NULL_ADDR: u32 = 1;

/// Largest single arena allocation: its rounded size must leave the offset
/// representable in the low 16 bits.
pub const MAX_ALLOC: u32 = 65528;

/// Page index held in the high bits of an address.
pub open spec fn addr_page(addr: u32) -> nat {
    addr as nat / 65536
}

/// Offset held in the low bits of an address.
pub open spec fn addr_offset(addr: u32) -> nat {
    addr as nat % 65536
}

/// The address made of a page index and an in-page offset.
pub open spec fn addr_of(page: nat, offset: nat) -> nat {
    page * 65536 + offset
}

/// A size rounded up to the next multiple of 8.
pub open spec fn round8(n: nat) -> nat {
    (n + 7) / 8 * 8
}

/// A fresh page of `len` zero bytes.
pub open spec fn zero_page(len: nat) -> Seq<u8> {
    Seq::new(len, |i: int| 0u8)
}

pub fn unpack_addr(addr: u32) -> (r: (u32, u32))
    ensures
        r.0 as nat == addr_page(addr),
        r.1 as nat == addr_offset(addr),
{
    let page_index = (addr & PAGE_INDEX_MASK) >> PAGE_INDEX_SHIFT;
    let offset = addr & PAGE_OFFSET_MASK;
    assert((addr & 0xffff_0000u32) >> 16u32 == addr / 65536u32) by (bit_vector);
    assert(addr & 0xffffu32 == addr % 65536u32) by (bit_vector);
    (page_index, offset)
}

pub fn pack_addr(page: u32, offset: u32) -> (r: u32)
    requires
        page < NUM_PAGES,
    ensures
        r as nat == addr_of(page as nat, offset as nat % 65536),
{
    assert(page < 65536u32 ==> (page << 16u32) | (offset & 0xffffu32) == page * 65536u32
        + offset % 65536u32) by (bit_vector);
    (page << PAGE_INDEX_SHIFT) | (offset & PAGE_OFFSET_MASK)
}

proof fn lemma_addr_parts(page: nat, offset: nat)
    requires
        offset < 65536,
        addr_of(page, offset) <= u32::MAX,
    ensures
        addr_page(addr_of(page, offset) as u32) == page,
        addr_offset(addr_of(page, offset) as u32) == offset,
{
    assert((page * 65536 + offset) / 65536 == page) by (nonlinear_arith)
        requires
            offset < 65536,
    ;
    assert((page * 65536 + offset) % 65536 == offset) by (nonlinear_arith)
        requires
            offset < 65536,
    ;
}

/// Process-wide heap of pages. Pages are appended and never moved or freed
/// one by one.
pub struct PageAllocator {
    pages: Vec<Vec<u8>>,
}

impl View for PageAllocator {
    type V = Seq<Seq<u8>>;

    closed spec fn view(&self) -> Seq<Seq<u8>> {
        Seq::new(self.pages@.len(), |i: int| self.pages@[i]@)
    }
}

impl PageAllocator {
    pub fn new() -> (r: Self)
        ensures
            r@ == Seq::<Seq<u8>>::empty(),
    {
        PageAllocator { pages: Vec::new() }
    }

    /// Number of pages handed out so far.
    pub fn page_count(&self) -> (r: usize)
        ensures
            r == self@.len(),
    {
        self.pages.len()
    }

    /// Appends a zero-filled page of at least `max(min_size, PAGE_SIZE)` bytes
    /// and returns its index.
    pub fn alloc_page(&mut self, min_size: usize) -> (r: u32)
        requires
            old(self)@.len() < NUM_PAGES,
        ensures
            r as nat == old(self)@.len(),
            final(self)@ == old(self)@.push(
                zero_page(if min_size > PAGE_SIZE { min_size as nat } else { PAGE_SIZE as nat }),
            ),
    {
        let len = if min_size > PAGE_SIZE {
            min_size
        } else {
            PAGE_SIZE
        };
        let page: Vec<u8> = vec![0u8; len];
        assert(page@ == zero_page(len as nat));
        let index = self.pages.len() as u32;
        self.pages.push(page);
        assert(self@ == old(self)@.push(zero_page(len as nat)));
        index
    }

    /// The bytes of page `index`.
    pub fn get_page(&self, index: u32) -> (r: &[u8])
        requires
            (index as nat) < self@.len(),
        ensures
            r@ == self@[index as int],
    {
        self.pages[index as usize].as_slice()
    }

    /// The `len` bytes that start at `addr`.
    pub fn get_slice(&self, addr: u32, len: usize) -> (r: &[u8])
        requires
            addr != NULL_ADDR,
            addr_page(addr) < self@.len(),
            addr_offset(addr) + len <= self@[addr_page(addr) as int].len(),
        ensures
            r@ == self@[addr_page(addr) as int].subrange(
                addr_offset(addr) as int,
                addr_offset(addr) + len,
            ),
    {
        let (page_index, offset) = unpack_addr(addr);
        let page = self.pages[page_index as usize].as_slice();
        assert(page@ == self@[page_index as int]);
        assert(page@.len() == page.len());
        slice_subrange(page, offset as usize, offset as usize + len)
    }
}

/// Bump allocator over pages of a `PageAllocator`. The cursor is the address
/// of the next free byte, or `NULL_ADDR` before the first allocation.
pub struct Arena {
    addr: u32,
}

impl Default for Arena {
    fn default() -> (r: Self)
        ensures
            r.cursor() == NULL_ADDR,
    {
        Arena::new()
    }
}

/// What an arena allocation of `size` bytes does, given the cursor and the
/// number of pages: `(result, next cursor, takes a fresh page)`.
pub open spec fn arena_step(cursor: u32, page_count: nat, size: nat) -> (nat, nat, bool) {
    let s = round8(size);
    if cursor == NULL_ADDR || addr_offset(cursor) + s >= PAGE_SIZE {
        (addr_of(page_count, 0), addr_of(page_count, s), true)
    } else {
        (cursor as nat, (cursor + s) as nat, false)
    }
}

/// `r` is what an arena allocation of `size` bytes returns, and the cursor and
/// heap move from `(c0, h0)` to `(c1, h1)` as it does.
pub open spec fn arena_allocated(
    c0: u32,
    c1: u32,
    h0: Seq<Seq<u8>>,
    h1: Seq<Seq<u8>>,
    size: nat,
    r: u32,
) -> bool {
    let (res, next, fresh) = arena_step(c0, h0.len(), size);
    &&& r as nat == res
    &&& c1 as nat == next
    &&& fresh ==> h1 == h0.push(zero_page(PAGE_SIZE as nat))
    &&& !fresh ==> h1 == h0
}

impl Arena {
    pub fn new() -> (r: Self)
        ensures
            r.cursor() == NULL_ADDR,
    {
        Arena { addr: NULL_ADDR }
    }

    pub closed spec fn cursor(&self) -> u32 {
        self.addr
    }

    /// The cursor points into a full-size page of `heap`, at an 8-aligned
    /// offset, or is null.
    pub open spec fn wf(&self, heap: &PageAllocator) -> bool {
        self.cursor() == NULL_ADDR || {
            &&& addr_page(self.cursor()) < heap@.len()
            &&& heap@[addr_page(self.cursor()) as int].len() == PAGE_SIZE
            &&& addr_offset(self.cursor()) % 8 == 0
        }
    }

    /// Hands out `size` bytes, rounded up to 8, from the current page, or from
    /// a fresh page when the current one cannot hold them.
    pub fn allocate(&mut self, heap: &mut PageAllocator, size: u32) -> (r: u32)
        requires
            old(self).wf(old(heap)),
            size <= MAX_ALLOC,
            old(heap)@.len() < NUM_PAGES,
        ensures
            final(self).wf(final(heap)),
            arena_allocated(
                old(self).cursor(),
                final(self).cursor(),
                old(heap)@,
                final(heap)@,
                size as nat,
                r,
            ),
            addr_page(r) < final(heap)@.len(),
            addr_offset(r) % 8 == 0,
            addr_offset(r) + size <= final(heap)@[addr_page(r) as int].len(),
    {
        let padded: u32 = size + 7;
        assert(padded & !7u32 == padded - padded % 8) by (bit_vector);
        let size: u32 = padded & !7u32;
        let addr = self.addr;
        if addr != NULL_ADDR {
            let (page_index, offset) = unpack_addr(addr);
            if offset + size < PAGE_SIZE as u32 {
                self.addr = addr + size;
                proof {
                    lemma_addr_parts(page_index as nat, (offset + size) as nat);
                    lemma_addr_parts(page_index as nat, offset as nat);
                }
                return addr;
            }
        }
        let page_index = heap.alloc_page(size as usize);
        self.addr = pack_addr(page_index, size);
        let r = pack_addr(page_index, 0);
        proof {
            lemma_addr_parts(page_index as nat, size as nat);
            lemma_addr_parts(page_index as nat, 0);
        }
        r
    }

    /// Gives back the most recent allocation of `size` bytes at `addr`; any
    /// other release leaves the arena as it is.
    pub fn dealloc(&mut self, addr: u32, size: u32)
        ensures
            ({
                let s = round8(size as nat);
                let c = old(self).cursor();
                if c != NULL_ADDR && addr_offset(c) >= s && c - s == addr {
                    final(self).cursor() == c - s
                } else {
                    final(self).cursor() == c
                }
            }),
            forall|heap: &PageAllocator| old(self).wf(heap) ==> #[trigger] final(self).wf(heap),
    {
        if size > MAX_ALLOC {
            // No allocation is this large, so this is not the last one.
            assert(round8(size as nat) >= 65536);
            return ;
        }
        let padded: u32 = size + 7;
        assert(padded & !7u32 == padded - padded % 8) by (bit_vector);
        let size: u32 = padded & !7u32;
        let cur = self.addr;
        if cur == NULL_ADDR {
            return ;
        }
        let (page_index, offset) = unpack_addr(cur);
        if offset >= size && cur - size == addr {
            self.addr = cur - size;
            proof {
                lemma_addr_parts(page_index as nat, (offset - size) as nat);
                lemma_addr_parts(page_index as nat, offset as nat);
                assert(offset % 8 == 0 ==> (offset - size) % 8 == 0) by (nonlinear_arith)
                    requires
                        size % 8 == 0,
                        offset >= size,
                ;
            }
        }
    }
}

/// A run of `slots` free elements that starts at `addr`.
#[derive(Clone, Copy, Debug, PartialEq, Eq)]
pub struct FreeNode {
    pub addr: u32,
    pub slots: u32,
}

/// Run `i` is the first of `runs` with room for `count` elements.
pub open spec fn is_first_fit(runs: Seq<FreeNode>, count: u32, i: int) -> bool {
    &&& 0 <= i < runs.len()
    &&& runs[i].slots >= count
    &&& forall|j: int| 0 <= j < i ==> runs[j].slots < count
}

/// What taking `count` elements of `size` bytes from the free list gives: the
/// address and the remaining list, or `None` when no run is large enough.
/// A larger run is split from its tail; a run of exactly `count` is unlinked.
pub open spec fn slab_reuse(runs: Seq<FreeNode>, count: u32, size: nat) -> Option<(nat, Seq<FreeNode>)> {
    if exists|i: int| is_first_fit(runs, count, i) {
        let i = choose|i: int| is_first_fit(runs, count, i);
        let n = runs[i];
        if count < n.slots {
            let left = (n.slots - count) as u32;
            Some(((n.addr + size * left) as nat, runs.update(i, FreeNode { addr: n.addr, slots: left })))
        } else {
            Some((n.addr as nat, runs.remove(i)))
        }
    } else {
        None
    }
}

/// Every run of the list lies below the end of the address space.
pub open spec fn runs_fit(runs: Seq<FreeNode>, size: nat) -> bool {
    forall|i: int| 0 <= i < runs.len() ==> runs[i].addr + size * runs[i].slots <= u32::MAX
}

/// Free-list allocator of elements of `T`, with bump allocation from an arena
/// when no free run is large enough.
pub struct Slab<T> {
    free: Vec<FreeNode>,
    phantom: PhantomData<T>,
}

impl<T> View for Slab<T> {
    type V = Seq<FreeNode>;

    /// The free runs, most recently freed first.
    closed spec fn view(&self) -> Seq<FreeNode> {
        self.free@
    }
}

impl<T> Slab<T> {
    pub fn new() -> (r: Self)
        ensures
            r@ == Seq::<FreeNode>::empty(),
    {
        Slab { free: Vec::new(), phantom: PhantomData }
    }

    pub open spec fn wf(&self) -> bool {
        runs_fit(self@, vstd::layout::size_of::<T>())
    }

    /// Takes room for `count` elements: from the first free run that holds
    /// them, else from the arena.
    pub fn allocate(&mut self, arena: &mut Arena, heap: &mut PageAllocator, count: u32) -> (r: u32)
        requires
            old(self).wf(),
            old(arena).wf(old(heap)),
            vstd::layout::size_of::<T>() <= MAX_ALLOC,
            slab_reuse(old(self)@, count, vstd::layout::size_of::<T>()) is None ==> {
                &&& old(heap)@.len() < NUM_PAGES
                &&& vstd::layout::size_of::<T>() * count <= MAX_ALLOC
            },
        ensures
            final(self).wf(),
            final(arena).wf(final(heap)),
            match slab_reuse(old(self)@, count, vstd::layout::size_of::<T>()) {
                Some((a, rest)) => {
                    &&& r as nat == a
                    &&& final(self)@ == rest
                    &&& *final(arena) == *old(arena)
                    &&& final(heap)@ == old(heap)@
                },
                None => {
                    &&& final(self)@ == old(self)@
                    &&& arena_allocated(
                        old(arena).cursor(),
                        final(arena).cursor(),
                        old(heap)@,
                        final(heap)@,
                        (vstd::layout::size_of::<T>() * count) as nat,
                        r,
                    )
                },
            },
    {
        let size = core::mem::size_of::<T>() as u32;
        let ghost sz = vstd::layout::size_of::<T>();
        let ghost runs = self@;
        let mut i: usize = 0;
        while i < self.free.len()
            invariant
                self@ == runs,
                runs == old(self)@,
                sz == vstd::layout::size_of::<T>(),
                *arena == *old(arena),
                heap@ == old(heap)@,
                arena.wf(heap),
                runs_fit(runs, sz),
                size as nat == sz,
                0 <= i <= runs.len(),
                forall|j: int| 0 <= j < i ==> runs[j].slots < count,
            decreases runs.len() - i,
        {
            let node = self.free[i];
            if node.slots >= count {
                assert(is_first_fit(runs, count, i as int));
                assert forall|k: int| is_first_fit(runs, count, k) implies k == i by {
                    if k < i {
                    } else if k > i {
                        assert(runs[i as int].slots < count);
                    }
                }
                assert(node.addr + sz * node.slots <= u32::MAX);
                if count < node.slots {
                    let left = node.slots - count;
                    assert(sz * left <= sz * node.slots) by (nonlinear_arith)
                        requires
                            left <= node.slots,
                    ;
                    let addr = node.addr + size * left;
                    self.free.remove(i);
                    self.free.insert(i, FreeNode { addr: node.addr, slots: left });
                    assert(self@ == runs.update(i as int, FreeNode { addr: node.addr, slots: left }));
                    assert forall|j: int| 0 <= j < self@.len() implies self@[j].addr + sz
                        * self@[j].slots <= u32::MAX by {
                        if j != i {
                            assert(self@[j] == runs[j]);
                        }
                    }
                    assert(slab_reuse(runs, count, sz) == Some((addr as nat, self@)));
                    return addr;
                } else {
                    self.free.remove(i);
                    return node.addr;
                }
            }
            i += 1;
        }
        assert(!exists|k: int| is_first_fit(runs, count, k));
        arena.allocate(heap, size * count)
    }

    /// Puts a run of `count` elements at `addr` at the head of the free list.
    pub fn dealloc(&mut self, addr: u32, count: u32)
        requires
            old(self).wf(),
            addr + vstd::layout::size_of::<T>() * count <= u32::MAX,
        ensures
            final(self).wf(),
            final(self)@ == old(self)@.insert(0, FreeNode { addr, slots: count }),
    {
        self.free.insert(0, FreeNode { addr, slots: count });
    }
}

impl<T> Default for Slab<T> {
    fn default() -> (r: Self)
        ensures
            r@ == Seq::<FreeNode>::empty(),
    {
        Slab::new()
    }
}

/// Freeing a run and then asking for the same number of elements gives back
/// the same address and leaves the rest of the free list as it was.
pub proof fn lemma_slab_round_trip(runs: Seq<FreeNode>, addr: u32, count: u32, size: nat)
    ensures
        slab_reuse(runs.insert(0, FreeNode { addr, slots: count }), count, size) == Some(
            (addr as nat, runs),
        ),
{
    let freed = runs.insert(0, FreeNode { addr, slots: count });
    assert(is_first_fit(freed, count, 0));
    assert forall|k: int| is_first_fit(freed, count, k) implies k == 0 by {
        if k > 0 {
            assert(freed[0].slots < count);
        }
    }
    assert(freed.remove(0) =~= runs);
}

} // verus!
