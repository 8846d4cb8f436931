//! Boot-supplied memory map: an ordered sequence of physical regions tagged
//! usable or reserved. The frame allocator draws from the usable regions,
//! which expand into the sequence of their 4096-byte-aligned frame bases.

use vstd::prelude::*;
use crate::addr::{MAX_PHYS_ADDR, PAGE_SIZE};

verus! {

/// One physical region: byte addresses `start..end`, usable or reserved.
#[derive(Clone, Copy, PartialEq, Eq, Structural, Debug)]
pub struct MemoryRegion {
    pub start: u64,
    pub end: u64,
    pub usable: bool,
}

/// The boot memory map: regions in increasing, non-overlapping order.
pub struct MemoryMap {
    pub regions: Vec<MemoryRegion>,
}

impl MemoryRegion {
    /// Frame-aligned bounds inside the physical address space.
    pub open spec fn wf(self) -> bool {
        &&& self.start % PAGE_SIZE == 0
        &&& self.end % PAGE_SIZE == 0
        &&& self.start <= self.end
        &&& self.end <= MAX_PHYS_ADDR
    }

    /// The frame bases this region contributes to the allocator's supply:
    /// none if reserved, else every 4096th address from `start` up to `end`.
    pub open spec fn frames(self) -> Seq<u64> {
        if self.usable {
            Seq::new(((self.end - self.start) / (PAGE_SIZE as int)) as nat, |k: int| (self.start + 4096 * k) as u64)
        } else {
            Seq::empty()
        }
    }
}

/// Every region well-formed, and regions sorted and disjoint.
pub open spec fn regions_wf(rs: Seq<MemoryRegion>) -> bool {
    &&& forall|i: int| 0 <= i < rs.len() ==> (#[trigger] rs[i]).wf()
    &&& forall|i: int, j: int| 0 <= i < j < rs.len() ==> (#[trigger] rs[i]).end <= (#[trigger] rs[j]).start
}

/// The allocator's whole supply: the usable regions' frames, flattened in
/// memory-map order.
pub open spec fn usable_frames(rs: Seq<MemoryRegion>) -> Seq<u64>
    decreases rs.len(),
{
    if rs.len() == 0 {
        Seq::empty()
    } else {
        rs[0].frames() + usable_frames(rs.skip(1))
    }
}

impl MemoryMap {
    pub open spec fn wf(self) -> bool {
        regions_wf(self.regions@)
    }

    /// The supply of frame bases this map offers.
    pub open spec fn frames(self) -> Seq<u64> {
        usable_frames(self.regions@)
    }
}

/// Walk the regions from position `i` and return the `n`th usable frame
/// base among them, if the supply reaches that far. Recomputing from the
/// start on every allocation is quadratic overall, which is acceptable for
/// the small, bounded number of boot-time calls.
pub(crate) fn nth_usable_frame(regions: &Vec<MemoryRegion>, i: usize, n: u64) -> (r: Option<u64>)
    requires
        regions_wf(regions@),
        i <= regions@.len(),
    ensures
        ({
            let s = usable_frames(regions@.skip(i as int));
            if (n as int) < s.len() {
                r == Some(s[n as int])
            } else {
                r == None::<u64>
            }
        }),
    decreases regions@.len() - i,
{
    if i == regions.len() {
        proof {
            assert(regions@.skip(i as int) =~= Seq::<MemoryRegion>::empty());
        }
        return None;
    }
    let reg = regions[i];
    proof {
        assert(regions@[i as int].wf());
        assert(regions@.skip(i as int)[0] == regions@[i as int]);
        assert(regions@.skip(i as int).skip(1) =~= regions@.skip(i as int + 1));
    }
    if reg.usable {
        let count = (reg.end - reg.start) / 4096;
        proof {
            assert((reg.end - reg.start) % 4096 == 0) by (nonlinear_arith)
                requires reg.start % 4096 == 0, reg.end % 4096 == 0, reg.start <= reg.end;
            assert((count as int) * 4096 == reg.end - reg.start) by (nonlinear_arith)
                requires
                    (reg.end - reg.start) % 4096 == 0,
                    count as int == (reg.end - reg.start) / 4096,
                    reg.start <= reg.end;
        }
        if n < count {
            proof {
                assert((n as int) * 4096 + 4096 <= (count as int) * 4096) by (nonlinear_arith)
                    requires (n as int) < (count as int);
                assert(reg.frames()[n as int] == (reg.start + 4096 * n) as u64);
            }
            return Some(reg.start + n * 4096);
        }
        proof {
            assert(reg.frames().len() == count);
        }
        return nth_usable_frame(regions, i + 1, n - count);
    }
    proof {
        assert(reg.frames() =~= Seq::<u64>::empty());
        assert(usable_frames(regions@.skip(i as int)) =~= usable_frames(regions@.skip(i as int + 1)));
    }
    nth_usable_frame(regions, i + 1, n)
}

/// A region's own frames are aligned, bounded by the region, and strictly
/// increasing.
proof fn lemma_region_frames(r: MemoryRegion)
    requires
        r.wf(),
    ensures
        forall|n: int| 0 <= n < r.frames().len() ==> r.start <= #[trigger] r.frames()[n] < r.end,
        forall|n: int| 0 <= n < r.frames().len() ==> (#[trigger] r.frames()[n]) % 4096 == 0,
        forall|n: int, m: int| 0 <= n < m < r.frames().len()
            ==> #[trigger] r.frames()[n] < #[trigger] r.frames()[m],
{
    if r.usable {
        let count = (r.end - r.start) / (PAGE_SIZE as int);
        assert((r.end - r.start) % 4096 == 0) by (nonlinear_arith)
            requires r.start % 4096 == 0, r.end % 4096 == 0, r.start <= r.end;
        assert(count * 4096 == r.end - r.start) by (nonlinear_arith)
            requires (r.end - r.start) % 4096 == 0, count == (r.end - r.start) / 4096, r.start <= r.end;
        assert forall|n: int| 0 <= n < r.frames().len() implies
            r.start <= #[trigger] r.frames()[n] < r.end
                && (r.frames()[n]) % 4096 == 0 by {
            assert(4096 * n + 4096 <= 4096 * count) by (nonlinear_arith)
                requires n < count;
            assert((r.start + 4096 * n) % 4096 == 0) by (nonlinear_arith)
                requires r.start % 4096 == 0, n >= 0;
        }
        assert forall|n: int, m: int| 0 <= n < m < r.frames().len() implies
            #[trigger] r.frames()[n] < #[trigger] r.frames()[m] by {
            assert(4096 * n < 4096 * m) by (nonlinear_arith)
                requires n < m;
            assert(4096 * m + 4096 <= 4096 * count) by (nonlinear_arith)
                requires m < count;
        }
    }
}

/// If every region starts at or above `b`, every supplied frame is at or
/// above `b`.
proof fn lemma_frames_lower_bound(rs: Seq<MemoryRegion>, b: u64)
    requires
        regions_wf(rs),
        forall|i: int| 0 <= i < rs.len() ==> b <= (#[trigger] rs[i]).start,
    ensures
        forall|n: int| 0 <= n < usable_frames(rs).len() ==> b <= #[trigger] usable_frames(rs)[n],
    decreases rs.len(),
{
    if rs.len() > 0 {
        lemma_region_frames(rs[0]);
        let tail = rs.skip(1);
        assert(regions_wf(tail)) by {
            assert forall|i: int| 0 <= i < tail.len() implies (#[trigger] tail[i]).wf() by {
                assert(tail[i] == rs[i + 1]);
            }
            assert forall|i: int, j: int| 0 <= i < j < tail.len() implies
                (#[trigger] tail[i]).end <= (#[trigger] tail[j]).start by {
                assert(tail[i] == rs[i + 1] && tail[j] == rs[j + 1]);
            }
        }
        assert forall|i: int| 0 <= i < tail.len() implies b <= (#[trigger] tail[i]).start by {
            assert(tail[i] == rs[i + 1]);
        }
        lemma_frames_lower_bound(tail, b);
        let head = rs[0].frames();
        assert forall|n: int| 0 <= n < usable_frames(rs).len() implies
            b <= #[trigger] usable_frames(rs)[n] by {
            if n < head.len() {
                assert(usable_frames(rs)[n] == head[n]);
                assert(rs[0].start <= head[n]);
            } else {
                assert(usable_frames(rs)[n] == usable_frames(tail)[n - head.len()]);
            }
        }
    }
}

/// The supply is strictly increasing, and every frame in it is aligned and
/// inside the physical address space. In particular no frame base occurs
/// twice in the supply.
pub proof fn lemma_frames_increasing(rs: Seq<MemoryRegion>)
    requires
        regions_wf(rs),
    ensures
        forall|n: int, m: int| 0 <= n < m < usable_frames(rs).len()
            ==> #[trigger] usable_frames(rs)[n] < #[trigger] usable_frames(rs)[m],
        forall|n: int| 0 <= n < usable_frames(rs).len()
            ==> (#[trigger] usable_frames(rs)[n]) % 4096 == 0
                && usable_frames(rs)[n] < MAX_PHYS_ADDR,
    decreases rs.len(),
{
    if rs.len() > 0 {
        lemma_region_frames(rs[0]);
        let tail = rs.skip(1);
        assert(regions_wf(tail)) by {
            assert forall|i: int| 0 <= i < tail.len() implies (#[trigger] tail[i]).wf() by {
                assert(tail[i] == rs[i + 1]);
            }
            assert forall|i: int, j: int| 0 <= i < j < tail.len() implies
                (#[trigger] tail[i]).end <= (#[trigger] tail[j]).start by {
                assert(tail[i] == rs[i + 1] && tail[j] == rs[j + 1]);
            }
        }
        lemma_frames_increasing(tail);
        assert forall|i: int| 0 <= i < tail.len() implies rs[0].end <= (#[trigger] tail[i]).start by {
            assert(tail[i] == rs[i + 1]);
        }
        lemma_frames_lower_bound(tail, rs[0].end);
        let head = rs[0].frames();
        assert forall|n: int, m: int| 0 <= n < m < usable_frames(rs).len() implies
            #[trigger] usable_frames(rs)[n] < #[trigger] usable_frames(rs)[m] by {
            if m < head.len() {
            } else if n >= head.len() {
                assert(usable_frames(rs)[n] == usable_frames(tail)[n - head.len()]);
                assert(usable_frames(rs)[m] == usable_frames(tail)[m - head.len()]);
            } else {
                assert(usable_frames(rs)[n] == head[n] && head[n] < rs[0].end);
                assert(usable_frames(rs)[m] == usable_frames(tail)[m - head.len()]);
                assert(rs[0].end <= usable_frames(tail)[m - head.len()]);
            }
        }
    }
}

} // verus!
