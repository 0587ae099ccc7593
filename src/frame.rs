//! Physical frame allocation from the boot memory map.
use vstd::prelude::*;

verus! {

/// Size of a physical frame and of a virtual page, in bytes.
pub const FRAME_SIZE: u64 = 4096;

/// One entry of the boot memory map: the physical range `[start, end)`.
#[derive(Clone, Copy, Debug, PartialEq, Eq, Structural)]
pub struct MemoryRegion {
    pub start: u64,
    pub end: u64,
    pub usable: bool,
}

/// Number of the first frame that lies wholly at or above `start`.
pub open spec fn first_frame_number(start: u64) -> int {
    if start as int % 4096 == 0 {
        start as int / 4096
    } else {
        start as int / 4096 + 1
    }
}

/// Number of whole, aligned frames inside a region (zero if it is not usable).
pub open spec fn region_frame_count(r: MemoryRegion) -> int {
    let lo = first_frame_number(r.start);
    let hi = r.end as int / 4096;
    if r.usable && lo < hi {
        hi - lo
    } else {
        0
    }
}

/// Start addresses of the whole, aligned frames of one region, ascending.
pub open spec fn region_frames(r: MemoryRegion) -> Seq<u64> {
    Seq::new(
        region_frame_count(r) as nat,
        |i: int| ((first_frame_number(r.start) + i) * 4096) as u64,
    )
}

/// Every usable frame of a memory map, region by region, in map order.
pub open spec fn usable_frames(map: Seq<MemoryRegion>) -> Seq<u64>
    decreases map.len(),
{
    if map.len() == 0 {
        Seq::empty()
    } else {
        usable_frames(map.drop_last()) + region_frames(map.last())
    }
}

/// The frames of a prefix of the map come first among the frames of the map.
proof fn lemma_prefix_frames(map: Seq<MemoryRegion>, i: int)
    requires
        0 <= i <= map.len(),
    ensures
        usable_frames(map.take(i)).len() <= usable_frames(map).len(),
        usable_frames(map).take(usable_frames(map.take(i)).len() as int) =~= usable_frames(
            map.take(i),
        ),
    decreases map.len() - i,
{
    if i == map.len() {
        assert(map.take(i) =~= map);
    } else {
        lemma_prefix_frames(map, i + 1);
        assert(map.take(i + 1).drop_last() =~= map.take(i));
        assert(map.take(i + 1).last() == map[i]);
    }
}

/// Hands out the usable frames of the boot memory map one by one, never twice.
pub struct BootInfoFrameAllocator {
    pub memory_map: Vec<MemoryRegion>,
    pub next: usize,
}

impl BootInfoFrameAllocator {
    /// The frames that this allocator hands out, in order.
    pub open spec fn frames(&self) -> Seq<u64> {
        usable_frames(self.memory_map@)
    }

    /// Whether no frame can be handed out any more.
    pub open spec fn exhausted(&self) -> bool {
        self.next >= self.frames().len() || self.next == usize::MAX
    }

    /// How many more frames `allocate_frame` will hand out.
    pub open spec fn remaining(&self) -> int {
        if self.exhausted() {
            0
        } else if self.frames().len() - self.next <= usize::MAX - self.next {
            self.frames().len() - self.next
        } else {
            usize::MAX - self.next
        }
    }

    /// Creates an allocator over the usable regions of a boot memory map.
    pub fn init(memory_map: Vec<MemoryRegion>) -> (r: Self)
        ensures
            r.memory_map@ == memory_map@,
            r.next == 0,
    {
        BootInfoFrameAllocator { memory_map, next: 0 }
    }

    /// The `n`-th usable frame of the memory map, if there is one.
    pub fn nth_usable_frame(&self, n: usize) -> (r: Option<u64>)
        ensures
            r == (if (n as int) < self.frames().len() {
                Some(self.frames()[n as int])
            } else {
                None::<u64>
            }),
    {
        let map = &self.memory_map;
        let mut i: usize = 0;
        let mut rest: usize = n;
        while i < map.len()
            invariant
                0 <= i <= map@.len(),
                map == &self.memory_map,
                n as int == usable_frames(map@.take(i as int)).len() + rest,
            decreases map@.len() - i,
        {
            proof {
                lemma_prefix_frames(map@, i as int);
                lemma_prefix_frames(map@, i as int + 1);
                assert(map@.take(i + 1).drop_last() =~= map@.take(i as int));
            }
            let r = map[i];
            if r.usable {
                let lo: u64 = if r.start % FRAME_SIZE == 0 {
                    r.start / FRAME_SIZE
                } else {
                    r.start / FRAME_SIZE + 1
                };
                let hi: u64 = r.end / FRAME_SIZE;
                if lo < hi {
                    let count: u64 = hi - lo;
                    if (rest as u64) < count {
                        let addr: u64 = (lo + rest as u64) * FRAME_SIZE;
                        proof {
                            let pre = usable_frames(map@.take(i as int));
                            let cur = usable_frames(map@.take(i + 1));
                            assert(map@.take(i + 1).last() == r);
                            assert(region_frame_count(r) == count as int);
                            assert(cur[n as int] == region_frames(r)[rest as int]);
                            assert(usable_frames(map@).take(cur.len() as int)[n as int]
                                == cur[n as int]);
                        }
                        return Some(addr);
                    }
                    rest = rest - count as usize;
                }
            }
            i = i + 1;
        }
        proof {
            assert(map@.take(i as int) =~= map@);
        }
        None
    }

    /// Takes the next usable frame, or `None` once the map is exhausted.
    pub fn allocate_frame(&mut self) -> (r: Option<u64>)
        ensures
            final(self).memory_map@ == old(self).memory_map@,
            match r {
                Some(f) => {
                    &&& !old(self).exhausted()
                    &&& final(self).remaining() == old(self).remaining() - 1
                    &&& f == old(self).frames()[old(self).next as int]
                    &&& final(self).next == old(self).next + 1
                },
                None => {
                    &&& old(self).exhausted()
                    &&& *final(self) == *old(self)
                },
            },
    {
        if self.next == usize::MAX {
            return None;
        }
        let r = self.nth_usable_frame(self.next);
        if r.is_some() {
            self.next = self.next + 1;
        }
        r
    }
}

} // verus!
