//! First-fit heap allocation over a fixed virtual region, with a free list
//! kept in address order and no coalescing.
use vstd::prelude::*;
use vstd::arithmetic::div_mod::{
    lemma_div_multiples_vanish_fancy,
    lemma_fundamental_div_mod,
    lemma_mod_multiples_basic,
};
use crate::frame::BootInfoFrameAllocator;
use crate::paging::{page_number, MapToError, OffsetPageTable, PRESENT, WRITABLE};

verus! {

/// The smallest block the free list tracks: room for a size and a link.
pub const MIN_BLOCK_SIZE: u64 = 16;

/// The alignment of every block, so that a list node fits at its start.
pub const NODE_ALIGN: u64 = 8;

/// A run of free heap memory `[addr, addr + size)`.
#[derive(Clone, Copy, Debug, PartialEq, Eq, Structural)]
pub struct FreeBlock {
    pub addr: u64,
    pub size: u64,
}

/// Two address ranges, each given as (start, length), do not overlap.
pub open spec fn disjoint(a: (int, int), b: (int, int)) -> bool {
    a.0 + a.1 <= b.0 || b.0 + b.1 <= a.0
}

/// The range that a free block covers.
pub open spec fn range_of(b: FreeBlock) -> (int, int) {
    (b.addr as int, b.size as int)
}

/// The bytes to skip from `addr` up to the next multiple of `align`.
pub open spec fn padding(addr: int, align: int) -> int {
    if addr % align == 0 {
        0
    } else {
        align - addr % align
    }
}

/// The size a request occupies: a whole number of 8-byte words, at least
/// `MIN_BLOCK_SIZE`, so that the block can later hold a list node.
pub open spec fn block_size(size: int) -> int {
    let rounded = if size % 8 == 0 {
        size
    } else {
        size + 8 - size % 8
    };
    if rounded < 16 {
        16
    } else {
        rounded
    }
}

/// The alignment a request gets: its own, raised to `NODE_ALIGN` where that
/// is a multiple of it.
pub open spec fn block_align(align: int) -> int {
    if align < 8 && 8int % align == 0 {
        8
    } else {
        align
    }
}

/// An address aligned to `block_align(align)` is aligned to `align`.
proof fn lemma_block_align(p: int, align: int)
    requires
        p >= 0,
        align > 0,
        p % block_align(align) == 0,
    ensures
        p % align == 0,
{
    if align < 8 && 8int % align == 0 {
        lemma_fundamental_div_mod(p, 8);
        lemma_fundamental_div_mod(8int, align);
        assert(p == (p / 8 * (8int / align)) * align) by (nonlinear_arith)
            requires
                p == 8 * (p / 8) + p % 8,
                p % 8 == 0,
                8 == align * (8int / align) + 8int % align,
                8int % align == 0,
        ;
        lemma_mod_multiples_basic(p / 8 * (8int / align), align);
    }
}

/// Whether `size` bytes aligned to `align` can be carved out of `b`.
pub open spec fn fits(b: FreeBlock, size: int, align: int) -> bool {
    padding(b.addr as int, align) + size <= b.size
}

/// The address an allocation carved out of `b` starts at.
pub open spec fn carve_start(b: FreeBlock, align: int) -> int {
    b.addr + padding(b.addr as int, align)
}

/// Rounding up to a multiple of `align` gives a multiple of `align`.
proof fn lemma_padding(addr: int, align: int)
    requires
        addr >= 0,
        align > 0,
    ensures
        0 <= padding(addr, align) < align,
        (addr + padding(addr, align)) % align == 0,
{
    lemma_fundamental_div_mod(addr, align);
    vstd::arithmetic::div_mod::lemma_mod_bound(addr, align);
    if addr % align == 0 {
    } else {
        assert(addr + padding(addr, align) == (addr / align + 1) * align) by (nonlinear_arith)
            requires
                addr == align * (addr / align) + addr % align,
                padding(addr, align) == align - addr % align,
        ;
        lemma_mod_multiples_basic(addr / align + 1, align);
    }
}

/// `after` is `before` with `b` inserted at position `k`, after the blocks
/// below `b` and before those above it.
pub open spec fn inserted_at(before: Seq<FreeBlock>, after: Seq<FreeBlock>, k: int, b: FreeBlock) -> bool {
    &&& 0 <= k <= before.len()
    &&& after == before.insert(k, b)
    &&& forall|j: int| 0 <= j < k ==> (#[trigger] before[j]).addr < b.addr
    &&& forall|j: int| k <= j < before.len() ==> (#[trigger] before[j]).addr > b.addr
}

/// A linked-list allocator over `[heap_start, heap_end)`.
pub struct LinkedListAllocator {
    pub heap_start: u64,
    pub heap_end: u64,
    pub free: Vec<FreeBlock>,
    /// The regions handed out and not given back, as (start, length).
    pub live: Ghost<Set<(int, int)>>,
}

impl LinkedListAllocator {
    /// Free blocks and live regions lie in the heap and never overlap.
    pub open spec fn wf(&self) -> bool {
        &&& self.heap_start <= self.heap_end
        &&& forall|i: int|
            0 <= i < self.free@.len() ==> {
                let b = #[trigger] self.free@[i];
                &&& self.heap_start <= b.addr
                &&& b.addr + b.size <= self.heap_end
                &&& b.size >= MIN_BLOCK_SIZE
            }
        &&& forall|i: int, j: int|
            0 <= i < j < self.free@.len() ==> (#[trigger] self.free@[i]).addr < (
            #[trigger] self.free@[j]).addr
        &&& forall|i: int, j: int|
            0 <= i < self.free@.len() && 0 <= j < self.free@.len() && i != j ==> disjoint(
                range_of(#[trigger] self.free@[i]),
                range_of(#[trigger] self.free@[j]),
            )
        &&& forall|l: (int, int)|
            #[trigger] self.live@.contains(l) ==> self.heap_start <= l.0 && l.0 + l.1
                <= self.heap_end && l.1 > 0
        &&& forall|l: (int, int), i: int|
            #[trigger] self.live@.contains(l) && 0 <= i < self.free@.len() ==> disjoint(
                l,
                range_of(#[trigger] self.free@[i]),
            )
        &&& forall|l: (int, int), m: (int, int)|
            #[trigger] self.live@.contains(l) && #[trigger] self.live@.contains(m) && l != m
                ==> disjoint(l, m)
    }

    /// An allocator whose whole region `[heap_start, heap_start + heap_size)`
    /// is one free block (no block if the region is too small to track).
    pub fn new(heap_start: u64, heap_size: u64) -> (r: Self)
        requires
            heap_start + heap_size <= u64::MAX,
        ensures
            r.wf(),
            r.heap_start == heap_start,
            r.heap_end == heap_start + heap_size,
            r.live@ == Set::<(int, int)>::empty(),
            heap_size >= MIN_BLOCK_SIZE ==> r.free@ == seq![
                FreeBlock { addr: heap_start, size: heap_size },
            ],
            heap_size < MIN_BLOCK_SIZE ==> r.free@.len() == 0,
    {
        let mut free: Vec<FreeBlock> = Vec::new();
        if heap_size >= MIN_BLOCK_SIZE {
            free.push(FreeBlock { addr: heap_start, size: heap_size });
        }
        LinkedListAllocator {
            heap_start,
            heap_end: heap_start + heap_size,
            free,
            live: Ghost(Set::empty()),
        }
    }

    /// Whether no free block can hold `size` bytes aligned to `align`.
    pub open spec fn no_fit(&self, size: int, align: int) -> bool {
        forall|i: int| 0 <= i < self.free@.len() ==> !fits(#[trigger] self.free@[i], size, align)
    }

    /// Allocates `size` bytes aligned to `align` from the first free block
    /// that can hold them. The rest of that block stays free when it is at
    /// least `MIN_BLOCK_SIZE` long; otherwise the whole block is used up.
    pub fn allocate(&mut self, size: u64, align: u64) -> (r: Option<u64>)
        requires
            old(self).wf(),
            size > 0,
            align > 0,
        ensures
            final(self).wf(),
            final(self).heap_start == old(self).heap_start,
            final(self).heap_end == old(self).heap_end,
            r is None <==> old(self).no_fit(block_size(size as int), block_align(align as int)),
            r is None ==> *final(self) == *old(self),
            match r {
                Some(p) => {
                    &&& p % align == 0
                    &&& old(self).heap_start <= p
                    &&& p + size <= old(self).heap_end
                    &&& forall|l: (int, int)|
                        #[trigger] old(self).live@.contains(l) ==> disjoint(
                            l,
                            (p as int, block_size(size as int)),
                        )
                    &&& final(self).live@ == old(self).live@.insert(
                        (p as int, block_size(size as int)),
                    )
                    &&& exists|k: int|
                        0 <= k < old(self).free@.len() && fits(
                            old(self).free@[k],
                            block_size(size as int),
                            block_align(align as int),
                        ) && p == carve_start(old(self).free@[k], block_align(align as int))
                            && forall|j: int|
                            0 <= j < k ==> !fits(
                                #[trigger] old(self).free@[j],
                                block_size(size as int),
                                block_align(align as int),
                            )
                },
                None => true,
            },
    {
        let rem: u64 = size % 8;
        if rem != 0 && size > u64::MAX - 8 {
            proof {
                assert forall|i: int| 0 <= i < self.free@.len() implies !fits(
                    #[trigger] self.free@[i],
                    block_size(size as int),
                    block_align(align as int),
                ) by {
                    lemma_padding(self.free@[i].addr as int, block_align(align as int));
                }
            }
            return None;
        }
        let mut s: u64 = if rem == 0 {
            size
        } else {
            size + 8 - rem
        };
        if s < MIN_BLOCK_SIZE {
            s = MIN_BLOCK_SIZE;
        }
        let a: u64 = if align < 8 && 8 % align == 0 {
            8
        } else {
            align
        };
        assert(s as int == block_size(size as int));
        assert(a as int == block_align(align as int));
        let mut i: usize = 0;
        while i < self.free.len()
            invariant
                self.wf(),
                *self == *old(self),
                s as int == block_size(size as int),
                a as int == block_align(align as int),
                a > 0,
                align > 0,
                i <= self.free@.len(),
                forall|j: int| 0 <= j < i ==> !fits(#[trigger] self.free@[j], s as int, a as int),
            decreases self.free@.len() - i,
        {
            let b = self.free[i];
            let r: u64 = b.addr % a;
            let pad: u64 = if r == 0 {
                0
            } else {
                a - r
            };
            if pad <= b.size && s <= b.size - pad {
                let p: u64 = b.addr + pad;
                let rest: u64 = b.size - pad - s;
                let ghost old_free = self.free@;
                let ghost old_live = self.live@;
                proof {
                    lemma_padding(b.addr as int, a as int);
                    lemma_block_align(p as int, align as int);
                    assert(old_free[i as int] == b);
                }
                if rest >= MIN_BLOCK_SIZE {
                    self.free.set(i, FreeBlock { addr: p + s, size: rest });
                    proof {
                        assert forall|j: int, k: int|
                            0 <= j < self.free@.len() && 0 <= k < self.free@.len() && j != k
                                implies disjoint(
                            range_of(#[trigger] self.free@[j]),
                            range_of(#[trigger] self.free@[k]),
                        ) by {
                            assert(disjoint(range_of(old_free[j]), range_of(old_free[k])));
                        }
                    }
                } else {
                    self.free.remove(i);
                    proof {
                        assert forall|j: int, k: int|
                            0 <= j < self.free@.len() && 0 <= k < self.free@.len() && j != k
                                implies disjoint(
                            range_of(#[trigger] self.free@[j]),
                            range_of(#[trigger] self.free@[k]),
                        ) by {
                            let j0 = if j < i { j } else { j + 1 };
                            let k0 = if k < i { k } else { k + 1 };
                            assert(self.free@[j] == old_free[j0]);
                            assert(self.free@[k] == old_free[k0]);
                        }
                        assert forall|j: int| 0 <= j < self.free@.len() implies {
                            let c = #[trigger] self.free@[j];
                            &&& self.heap_start <= c.addr
                            &&& c.addr + c.size <= self.heap_end
                            &&& c.size >= MIN_BLOCK_SIZE
                        } by {
                            let j0 = if j < i { j } else { j + 1 };
                            assert(self.free@[j] == old_free[j0]);
                        }
                    }
                }
                self.live = Ghost(self.live@.insert((p as int, s as int)));
                proof {
                    let n = (p as int, s as int);
                    assert forall|l: (int, int), j: int|
                        #[trigger] self.live@.contains(l) && 0 <= j < self.free@.len()
                            implies disjoint(l, range_of(#[trigger] self.free@[j])) by {
                        if rest >= MIN_BLOCK_SIZE {
                            if j != i {
                                assert(disjoint(range_of(old_free[j]), range_of(b)));
                            }
                        } else {
                            let j0 = if j < i { j } else { j + 1 };
                            assert(self.free@[j] == old_free[j0]);
                            assert(disjoint(range_of(old_free[j0]), range_of(b)));
                        }
                    }
                    assert forall|l: (int, int)| #[trigger] old_live.contains(l) implies disjoint(
                        l,
                        n,
                    ) by {
                        assert(disjoint(l, range_of(old_free[i as int])));
                    }
                    assert forall|l: (int, int), m: (int, int)|
                        #[trigger] self.live@.contains(l) && #[trigger] self.live@.contains(m)
                            && l != m implies disjoint(l, m) by {
                        if l != n && m != n {
                        } else if l == n {
                            assert(old_live.contains(m));
                        } else {
                            assert(old_live.contains(l));
                        }
                    }
                }
                return Some(p);
            }
            proof {
                assert(!fits(b, s as int, a as int));
            }
            i = i + 1;
        }
        None
    }

    /// Gives back a region that `allocate(size, align)` returned: it becomes
    /// a free block, inserted in address order, not merged with its neighbours.
    pub fn deallocate(&mut self, ptr: u64, size: u64, align: u64)
        requires
            old(self).wf(),
            size > 0,
            align > 0,
            old(self).live@.contains((ptr as int, block_size(size as int))),
        ensures
            final(self).wf(),
            final(self).heap_start == old(self).heap_start,
            final(self).heap_end == old(self).heap_end,
            final(self).live@ == old(self).live@.remove((ptr as int, block_size(size as int))),
            exists|k: int|
                #[trigger] inserted_at(
                    old(self).free@,
                    final(self).free@,
                    k,
                    FreeBlock { addr: ptr, size: block_size(size as int) as u64 },
                ),
    {
        let ghost n = (ptr as int, block_size(size as int));
        proof {
            assert(self.live@.contains(n));
        }
        let rem: u64 = size % 8;
        let mut s: u64 = if rem == 0 {
            size
        } else {
            size + 8 - rem
        };
        if s < MIN_BLOCK_SIZE {
            s = MIN_BLOCK_SIZE;
        }
        assert(s as int == n.1);
        let mut k: usize = 0;
        while k < self.free.len() && self.free[k].addr < ptr
            invariant
                *self == *old(self),
                k <= self.free@.len(),
                forall|j: int| 0 <= j < k ==> (#[trigger] self.free@[j]).addr < ptr,
            decreases self.free@.len() - k,
        {
            k = k + 1;
        }
        let block = FreeBlock { addr: ptr, size: s };
        let ghost old_free = self.free@;
        assert(k as int == old_free.len() || old_free[k as int].addr >= ptr);
        let ghost old_live = self.live@;
        self.free.insert(k, block);
        self.live = Ghost(self.live@.remove(n));
        proof {
            assert(range_of(block) == n);
            assert(self.free@ == old_free.insert(k as int, block));
            assert(block == FreeBlock { addr: ptr, size: block_size(size as int) as u64 });
            assert(old_free == old(self).free@);
            assert(inserted_at(old_free, self.free@, k as int, block));
            assert forall|j: int| 0 <= j < self.free@.len() implies {
                let c = #[trigger] self.free@[j];
                &&& self.heap_start <= c.addr
                &&& c.addr + c.size <= self.heap_end
                &&& c.size >= MIN_BLOCK_SIZE
            } by {
                if j < k {
                    assert(self.free@[j] == old_free[j]);
                } else if j > k {
                    assert(self.free@[j] == old_free[j - 1]);
                }
            }
            assert forall|j: int, i: int|
                0 <= j < self.free@.len() && 0 <= i < self.free@.len() && j != i implies disjoint(
                range_of(#[trigger] self.free@[j]),
                range_of(#[trigger] self.free@[i]),
            ) by {
                let j0 = if j < k { j } else { j - 1 };
                let i0 = if i < k { i } else { i - 1 };
                if j == k {
                    assert(self.free@[i] == old_free[i0]);
                    assert(disjoint(n, range_of(old_free[i0])));
                } else if i == k {
                    assert(self.free@[j] == old_free[j0]);
                    assert(disjoint(n, range_of(old_free[j0])));
                } else {
                    assert(self.free@[j] == old_free[j0]);
                    assert(self.free@[i] == old_free[i0]);
                    assert(disjoint(range_of(old_free[j0]), range_of(old_free[i0])));
                }
            }
            assert forall|l: (int, int), j: int|
                #[trigger] self.live@.contains(l) && 0 <= j < self.free@.len() implies disjoint(
                l,
                range_of(#[trigger] self.free@[j]),
            ) by {
                assert(old_live.contains(l));
                if j == k {
                    assert(disjoint(l, n));
                } else {
                    let j0 = if j < k { j } else { j - 1 };
                    assert(self.free@[j] == old_free[j0]);
                    assert(disjoint(l, range_of(old_free[j0])));
                }
            }
            assert forall|l: (int, int), m: (int, int)|
                #[trigger] self.live@.contains(l) && #[trigger] self.live@.contains(m) && l != m
                    implies disjoint(l, m) by {
                assert(old_live.contains(l) && old_live.contains(m));
            }
            assert forall|l: (int, int)| #[trigger] self.live@.contains(l) implies self.heap_start
                <= l.0 && l.0 + l.1 <= self.heap_end && l.1 > 0 by {
                assert(old_live.contains(l));
            }
        }
    }
}

/// The start of the heap region that the kernel maps at startup.
pub const HEAP_START: u64 = 0x4444_4444_0000;

/// The size of the heap region that the kernel maps at startup.
pub const HEAP_SIZE: u64 = 100 * 1024;

/// Every live region lies in the heap, and no two of them overlap, whatever
/// sequence of `allocate` and `deallocate` calls led to the state: each call
/// keeps `wf`, which holds of a new allocator.
pub proof fn lemma_live_regions_disjoint(a: LinkedListAllocator, l: (int, int), m: (int, int))
    requires
        a.wf(),
        a.live@.contains(l),
        a.live@.contains(m),
        l != m,
    ensures
        disjoint(l, m),
        a.heap_start <= l.0 && l.0 + l.1 <= a.heap_end,
        a.heap_start <= m.0 && m.0 + m.1 <= a.heap_end,
{
}

/// Every address of the page that starts at `page` has its page number.
proof fn lemma_same_page(page: u64, x: u64)
    requires
        page as int % 4096 == 0,
        page <= x < page + 4096,
    ensures
        page_number(x) == page_number(page),
{
    lemma_fundamental_div_mod(page as int, 4096);
    lemma_div_multiples_vanish_fancy(page as int / 4096, x - page, 4096);
    lemma_div_multiples_vanish_fancy(page as int / 4096, 0, 4096);
}

/// The number of pages that `size` bytes from a page boundary touch.
pub open spec fn page_count(size: int) -> int {
    if size % 4096 == 0 {
        size / 4096
    } else {
        size / 4096 + 1
    }
}

proof fn lemma_page_count(i: int, size: int)
    requires
        0 <= i,
        4096 * i < size,
    ensures
        i + 1 <= page_count(size),
{
    lemma_fundamental_div_mod(size, 4096);
    vstd::arithmetic::div_mod::lemma_mod_bound(size, 4096);
    assert(i + 1 <= page_count(size)) by (nonlinear_arith)
        requires
            4096 * i < size,
            size == 4096 * (size / 4096) + size % 4096,
            0 <= size % 4096 < 4096,
            page_count(size) == (if size % 4096 == 0 {
                size / 4096
            } else {
                size / 4096 + 1
            }),
    ;
}

/// Pages less than 2^48 bytes apart have different page numbers.
proof fn lemma_distinct_pages(a: u64, x: u64)
    requires
        a as int % 4096 == 0,
        a + 4096 <= x,
        x - a < 0x1_0000_0000_0000,
    ensures
        page_number(x) != page_number(a),
{
    let m: int = 0x10_0000_0000;
    let p = a as int / 4096;
    let q = x as int / 4096;
    lemma_fundamental_div_mod(a as int, 4096);
    lemma_fundamental_div_mod(x as int, 4096);
    vstd::arithmetic::div_mod::lemma_mod_bound(x as int, 4096);
    assert(0 < q - p < m) by (nonlinear_arith)
        requires
            a == 4096 * p,
            x == 4096 * q + x % 4096,
            0 <= x % 4096 < 4096,
            a + 4096 <= x,
            x - a < 0x1_0000_0000_0000,
            m == 0x10_0000_0000,
    ;
    lemma_fundamental_div_mod(p, m);
    lemma_fundamental_div_mod(q, m);
    if p % m == q % m {
        assert(false) by (nonlinear_arith)
            requires
                p == m * (p / m) + p % m,
                q == m * (q / m) + q % m,
                p % m == q % m,
                0 < q - p < m,
                m > 0,
        ;
    }
}

/// Maps every page of `[heap_start, heap_start + heap_size)` to a fresh frame,
/// writable, and then seeds an allocator with the whole region.
pub fn init_heap(
    mapper: &mut OffsetPageTable,
    frames: &mut BootInfoFrameAllocator,
    heap_start: u64,
    heap_size: u64,
) -> (r: Result<LinkedListAllocator, MapToError>)
    requires
        old(mapper).wf(),
        heap_start as int % 4096 == 0,
        heap_start + heap_size <= u64::MAX,
    ensures
        final(mapper).wf(),
        final(frames).memory_map@ == old(frames).memory_map@,
        r == Err::<LinkedListAllocator, MapToError>(MapToError::FrameAllocationFailed)
            ==> final(frames).exhausted(),
        heap_size <= 0x1_0000_0000_0000 && old(frames).remaining() >= 4 * page_count(
            heap_size as int,
        ) && (forall|x: u64|
            heap_start <= x < heap_start + heap_size ==> (#[trigger] old(mapper).mapped(
                page_number(x),
            )) is None) ==> r is Ok,
        match r {
            Ok(a) => {
                &&& a.wf()
                &&& a.heap_start == heap_start
                &&& a.heap_end == heap_start + heap_size
                &&& a.live@ == Set::<(int, int)>::empty()
                &&& heap_size >= MIN_BLOCK_SIZE ==> a.free@ == seq![
                    FreeBlock { addr: heap_start, size: heap_size },
                ]
                &&& forall|x: u64|
                    heap_start <= x < heap_start + heap_size
                        ==> (#[trigger] final(mapper).mapped(page_number(x))) is Some
            },
            Err(_) => true,
        },
{
    let end: u64 = heap_start + heap_size;
    let mut addr: u64 = heap_start;
    let ghost fresh = heap_size <= 0x1_0000_0000_0000 && old(frames).remaining() >= 4 * page_count(
        heap_size as int,
    ) && (forall|x: u64|
        heap_start <= x < heap_start + heap_size ==> (#[trigger] old(mapper).mapped(
            page_number(x),
        )) is None);
    let ghost mut i: int = 0;
    while addr < end
        invariant
            mapper.wf(),
            i >= 0,
            addr == end || addr == heap_start + 4096 * i,
            addr < end ==> 4096 * i < heap_size,
            old(frames).remaining() - frames.remaining() <= 4 * i,
            fresh == (heap_size <= 0x1_0000_0000_0000 && old(frames).remaining() >= 4 * page_count(
                heap_size as int,
            ) && (forall|x: u64|
                heap_start <= x < heap_start + heap_size ==> (#[trigger] old(mapper).mapped(
                    page_number(x),
                )) is None)),
            fresh ==> forall|x: u64|
                addr <= x < end ==> (#[trigger] mapper.mapped(page_number(x))) is None,
            frames.memory_map@ == old(frames).memory_map@,
            heap_start <= addr,
            addr as int % 4096 == 0 || addr == end,
            addr <= end,
            end == heap_start + heap_size,
            end <= u64::MAX,
            forall|x: u64|
                heap_start <= x < addr && x < end ==> (#[trigger] mapper.mapped(page_number(x))) is Some,
        decreases end - addr,
    {
        let ghost m0 = *mapper;
        proof {
            lemma_page_count(i, heap_size as int);
            if fresh {
                assert(m0.mapped(page_number(addr)) is None);
            }
        }
        let frame = match frames.allocate_frame() {
            Some(f) => f,
            None => {
                return Err(MapToError::FrameAllocationFailed);
            },
        };
        let ghost before = mapper.leaves@;
        match mapper.map_to(addr, frame, PRESENT | WRITABLE, frames) {
            Ok(()) => {},
            Err(e) => {
                return Err(e);
            },
        }
        proof {
            assert forall|x: u64|
                heap_start <= x < addr + 4096 && x < end implies (#[trigger] mapper.mapped(
                page_number(x),
            )) is Some by {
                crate::paging::lemma_translate_after_map(
                    before,
                    addr,
                    frame,
                    PRESENT | WRITABLE,
                    page_number(x),
                );
                assert(mapper.leaves@ == before.push(
                    crate::paging::Mapping { page: page_number(addr), frame, flags: PRESENT | WRITABLE },
                ));
                if x >= addr + 4096 {
                    if fresh {
                        lemma_distinct_pages(addr, x);
                        assert(m0.mapped(page_number(x)) is None);
                    }
                }
                if x >= addr {
                    lemma_same_page(addr, x);
                } else {
                    assert(m0.mapped(page_number(x)) is Some);
                }
            }
        }
        proof {
            if fresh {
                assert forall|x: u64| addr + 4096 <= x < end implies (#[trigger] mapper.mapped(
                    page_number(x),
                )) is None by {
                    crate::paging::lemma_translate_after_map(
                        before,
                        addr,
                        frame,
                        PRESENT | WRITABLE,
                        page_number(x),
                    );
                    assert(mapper.leaves@ == before.push(
                        crate::paging::Mapping { page: page_number(addr), frame, flags: PRESENT | WRITABLE },
                    ));
                    lemma_distinct_pages(addr, x);
                    assert(m0.mapped(page_number(x)) is None);
                }
            }
        }
        if end - addr <= 4096 {
            addr = end;
        } else {
            addr = addr + 4096;
        }
        proof {
            i = i + 1;
        }
    }
    Ok(LinkedListAllocator::new(heap_start, heap_size))
}

} // verus!
