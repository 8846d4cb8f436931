//! Heap bootstrap: back a fixed virtual window with physical frames, page by
//! page, then hand exactly that byte range to a bump allocator.
//!
//! The bump allocator is deliberately simple: allocation advances a cursor,
//! release only counts; when the last allocation is released the cursor
//! rewinds, so the whole capacity is available again. The backing bytes are
//! held word by word, so a value written through the heap can be read back.

use vstd::prelude::*;
use crate::addr::{Page, page_base, same_page, page_containing_address,
    lemma_page_base, lemma_page_base_aligned, lemma_align_down_monotone, lemma_aligned_close,
    lemma_aligned_le, lemma_align_down_props, lemma_same_page_transitive,
    LOW_HALF_END};
use crate::memory::{Mapper, BootInfoFrameAllocator, MapToError, MappingFlags};
use crate::page_table::{PageTableEntry, WalkResult, walk, absent_entry, tables_missing,
    lemma_walk_absent_characterization, lemma_same_page_same_walk};

verus! {

/// Start of the fixed virtual window reserved for the kernel heap.
pub const HEAP_START: u64 = 0x4444_4444_0000;

/// Size of the kernel heap window in bytes.
pub const HEAP_SIZE: u64 = 100 * 1024;

/// Base of the first page of the window starting at `start`.
pub open spec fn first_heap_page(start: u64) -> u64 {
    (start - start % 4096) as u64
}

/// Base of the last page of the window `[start, start + size)`.
pub open spec fn last_heap_page(start: u64, size: u64) -> u64 {
    ((start + size - 1) - (start + size - 1) % 4096) as u64
}

/// How many pages span the window.
pub open spec fn heap_page_count(start: u64, size: u64) -> int {
    (last_heap_page(start, size) - first_heap_page(start)) / 4096 + 1
}

/// Address `a` lies in a page of the window.
pub open spec fn in_heap_pages(a: u64, start: u64, size: u64) -> bool {
    first_heap_page(start) <= page_base(a) <= last_heap_page(start, size)
}

/// Every page of the window is unmapped under `m`.
pub open spec fn heap_range_free(m: Map<u64, crate::page_table::TableModel>, root: u64,
    start: u64, size: u64) -> bool {
    forall|a: u64| in_heap_pages(a, start, size) ==> #[trigger] walk(m, root, a) is Absent
}

/// The level-1 entry an address translates through, or the cleared entry if
/// it is unmapped.
pub open spec fn mapped_entry(m: Map<u64, crate::page_table::TableModel>, root: u64, a: u64)
    -> PageTableEntry {
    match walk(m, root, a) {
        WalkResult::Mapped(e) => e,
        _ => absent_entry(),
    }
}

/// The process-wide dynamic allocator, once the window behind it is backed:
/// a bump allocator over `[start, start + size)` together with the backing
/// words themselves.
pub struct KernelHeap {
    pub start: u64,
    pub size: u64,
    pub next_offset: u64,
    pub allocations: u64,
    pub words: Vec<u64>,
}

impl KernelHeap {
    /// Bytes the allocator manages (the window rounded down to whole words).
    pub open spec fn capacity(self) -> int {
        self.words@.len() as int * 8
    }

    /// Bytes still free ahead of the cursor.
    pub open spec fn remaining(self) -> int {
        self.capacity() - self.next_offset
    }

    pub open spec fn wf(self) -> bool {
        &&& self.start % 8 == 0
        &&& self.size <= 0xffff_ffff
        &&& self.words@.len() == self.size / 8
        &&& self.next_offset <= self.capacity()
        &&& self.next_offset % 8 == 0
        &&& (self.allocations == 0 ==> self.next_offset == 0)
        &&& self.start + self.size <= LOW_HALF_END
    }

    /// `a` addresses one whole word of the heap.
    pub open spec fn in_window(self, a: u64) -> bool {
        &&& self.start <= a
        &&& a + 8 <= self.start + self.capacity()
        &&& (a - self.start) % 8 == 0
    }

    /// The word stored at heap address `a`.
    pub open spec fn word_at(self, a: u64) -> u64 {
        self.words@[(a - self.start) / 8]
    }

    /// Allocation request sizes are served in whole words.
    pub open spec fn round_to_words(bytes: u64) -> int {
        ((bytes + 7) / 8) * 8
    }

    /// Allocate `bytes` bytes: succeeds exactly when the request, rounded to
    /// whole words, does not exceed the remaining capacity, and then returns
    /// the word-aligned address right behind everything allocated so far.
    pub fn allocate(&mut self, bytes: u64) -> (r: Option<u64>)
        requires
            old(self).wf(),
            bytes <= 0xffff_ffff,
            old(self).allocations < u64::MAX,
        ensures
            final(self).wf(),
            final(self).start == old(self).start,
            final(self).size == old(self).size,
            final(self).words == old(self).words,
            (r is Some) <==> Self::round_to_words(bytes) <= old(self).remaining(),
            r matches Some(a) ==> {
                &&& a == old(self).start + old(self).next_offset
                &&& a % 8 == 0
                &&& final(self).next_offset == old(self).next_offset + Self::round_to_words(bytes)
                &&& final(self).allocations == old(self).allocations + 1
                &&& bytes > 0 ==> final(self).in_window(a)
            },
            r is None ==> *final(self) == *old(self),
    {
        let need = ((bytes + 7) / 8) * 8;
        let cap = (self.words.len() as u64) * 8;
        proof {
            assert(self.capacity() <= self.size);
            assert(need % 8 == 0) by (nonlinear_arith)
                requires need == ((bytes + 7) / 8) * 8;
            assert(need >= bytes) by (nonlinear_arith)
                requires need == ((bytes + 7) / 8) * 8, bytes <= 0xffff_ffff;
        }
        if need <= cap - self.next_offset {
            let a = self.start + self.next_offset;
            let ghost s0 = self.start;
            let ghost off0 = self.next_offset;
            self.next_offset = self.next_offset + need;
            self.allocations = self.allocations + 1;
            proof {
                assert(a % 8 == 0) by (nonlinear_arith)
                    requires
                        s0 % 8 == 0,
                        off0 % 8 == 0,
                        a == s0 + off0;
                let off1 = self.next_offset;
                assert(off1 % 8 == 0) by (nonlinear_arith)
                    requires
                        off0 % 8 == 0,
                        need % 8 == 0,
                        off1 == off0 + need;
            }
            Some(a)
        } else {
            None
        }
    }

    /// Release one allocation. The bump design frees memory only in bulk:
    /// the cursor rewinds once every allocation has been released, and the
    /// whole capacity is available again.
    pub fn deallocate(&mut self)
        requires
            old(self).wf(),
            old(self).allocations >= 1,
        ensures
            final(self).wf(),
            final(self).start == old(self).start,
            final(self).size == old(self).size,
            final(self).words == old(self).words,
            final(self).allocations == old(self).allocations - 1,
            final(self).allocations == 0 ==> final(self).next_offset == 0,
            final(self).allocations > 0 ==> final(self).next_offset == old(self).next_offset,
    {
        self.allocations = self.allocations - 1;
        if self.allocations == 0 {
            self.next_offset = 0;
        }
    }

    /// Store a word at heap address `a`.
    pub fn write_word(&mut self, a: u64, value: u64)
        requires
            old(self).wf(),
            old(self).in_window(a),
        ensures
            final(self).wf(),
            final(self).start == old(self).start,
            final(self).size == old(self).size,
            final(self).next_offset == old(self).next_offset,
            final(self).allocations == old(self).allocations,
            final(self).words@ == old(self).words@.update(((a - old(self).start) / 8) as int, value),
            final(self).word_at(a) == value,
            forall|b: u64| old(self).in_window(b) && (b - old(self).start) / 8 != (a - old(self).start) / 8
                ==> #[trigger] final(self).word_at(b) == old(self).word_at(b),
    {
        proof {
            let off = a - self.start;
            assert(off / 8 < self.words@.len()) by (nonlinear_arith)
                requires
                    off % 8 == 0,
                    off + 8 <= self.words@.len() * 8,
                    off >= 0;
            assert(off / 8 <= 0xffff_ffff);
        }
        let idx = ((a - self.start) / 8) as usize;
        self.words[idx] = value;
    }

    /// Load the word at heap address `a`.
    pub fn read_word(&self, a: u64) -> (r: u64)
        requires
            self.wf(),
            self.in_window(a),
        ensures
            r == self.word_at(a),
    {
        proof {
            let off = a - self.start;
            assert(off / 8 < self.words@.len()) by (nonlinear_arith)
                requires
                    off % 8 == 0,
                    off + 8 <= self.words@.len() * 8,
                    off >= 0;
            assert(off / 8 <= 0xffff_ffff);
        }
        let idx = ((a - self.start) / 8) as usize;
        self.words[idx]
    }
}

/// Back every page of the window `[start, start + size)` with its own
/// physical frame, present and writable, and only then hand exactly that
/// byte range to the bump allocator. Success is owed when the window holds
/// no pre-existing mapping and the frame allocator can supply four frames
/// per page (one to back it plus at most three intermediate tables); success
/// is only possible if the window was free and the allocator held at least
/// one frame per page. A failure aborts the bootstrap; mappings already
/// created are not rolled back.
#[verifier::loop_isolation(false)]
pub fn init_heap_range(mapper: &mut Mapper, frame_allocator: &mut BootInfoFrameAllocator,
    start: u64, size: u64) -> (r: Result<KernelHeap, MapToError>)
    requires
        old(mapper).wf(),
        old(frame_allocator).wf(),
        old(mapper).disjoint_from(*old(frame_allocator)),
        start % 8 == 0,
        1 <= size <= 0xffff_ffff,
        start + size <= LOW_HALF_END,
        old(frame_allocator).next + 4 * heap_page_count(start, size) <= u64::MAX,
    ensures
        final(mapper).wf(),
        final(mapper).root == old(mapper).root,
        final(frame_allocator).wf(),
        final(frame_allocator).memory_map == old(frame_allocator).memory_map,
        final(mapper).disjoint_from(*final(frame_allocator)),
        heap_range_free(old(mapper).mem@, old(mapper).root, start, size)
            && old(frame_allocator).supply() >= 4 * heap_page_count(start, size)
            ==> r is Ok,
        r is Ok ==> heap_range_free(old(mapper).mem@, old(mapper).root, start, size),
        r is Ok ==> old(frame_allocator).supply() >= heap_page_count(start, size),
        r matches Ok(h) ==> {
            &&& h.wf()
            &&& h.start == start
            &&& h.size == size
            &&& h.allocations == 0
            &&& h.next_offset == 0
            &&& forall|a: u64| in_heap_pages(a, start, size)
                    ==> (#[trigger] walk(final(mapper).mem@, final(mapper).root, a)
                        matches WalkResult::Mapped(e) && e.writable && e.present)
            &&& forall|a: u64, b: u64|
                    in_heap_pages(a, start, size) && in_heap_pages(b, start, size)
                    && !same_page(a, b)
                    ==> #[trigger] mapped_entry(final(mapper).mem@, final(mapper).root, a).addr
                        != #[trigger] mapped_entry(final(mapper).mem@, final(mapper).root, b).addr
            &&& forall|a: u64| !in_heap_pages(a, start, size)
                    ==> #[trigger] walk(final(mapper).mem@, final(mapper).root, a)
                        == walk(old(mapper).mem@, old(mapper).root, a)
        },
{
    let ghost m0 = mapper.mem@;
    let ghost root0 = mapper.root;
    let ghost fa0 = *frame_allocator;
    let ghost count = heap_page_count(start, size);
    let first = page_containing_address(start);
    let last = page_containing_address(start + size - 1);
    proof {
        lemma_align_down_props(start);
        lemma_align_down_props((start + size - 1) as u64);
        lemma_align_down_monotone(start, (start + size - 1) as u64);
        assert(count >= 1);
    }
    let mut p = first;
    let ghost mut k: int = 0;
    while p <= last
        invariant
            mapper.wf(),
            frame_allocator.wf(),
            mapper.disjoint_from(*frame_allocator),
            mapper.root == root0,
            frame_allocator.memory_map == fa0.memory_map,
            fa0.wf(),
            first == first_heap_page(start),
            last == last_heap_page(start, size),
            first % 4096 == 0,
            last % 4096 == 0,
            first <= last < LOW_HALF_END,
            count == heap_page_count(start, size),
            fa0.next + 4 * count <= u64::MAX,
            0 <= k <= count,
            p == first + 4096 * k,
            p % 4096 == 0,
            first <= p <= last + 4096,
            fa0.next + k <= frame_allocator.next <= fa0.next + 4 * k,
            frame_allocator.supply() <= fa0.supply() - k,
            forall|a: u64| first <= page_base(a) < p ==>
                (#[trigger] walk(mapper.mem@, root0, a) matches WalkResult::Mapped(e)
                    && e.writable && e.present && !frame_allocator.in_remaining(e.addr)),
            forall|a: u64| first <= page_base(a) < p ==> #[trigger] walk(m0, root0, a) is Absent,
            forall|a: u64| !(first <= page_base(a) < p)
                ==> #[trigger] walk(mapper.mem@, root0, a) == walk(m0, root0, a),
            forall|a: u64, b: u64|
                first <= page_base(a) < p && first <= page_base(b) < p && !same_page(a, b)
                ==> #[trigger] mapped_entry(mapper.mem@, root0, a).addr
                    != #[trigger] mapped_entry(mapper.mem@, root0, b).addr,
        decreases last + 4096 - p,
    {
        proof {
            lemma_page_base(p, p);
            assert(k < count) by {
                if k == count {
                    assert(p == first + 4096 * count);
                    assert(p > last);
                }
            }
        }
        let ghost fa_pre = *frame_allocator;
        let frame = match frame_allocator.allocate_frame() {
            Some(f) => f,
            None => {
                proof {
                    if heap_range_free(m0, root0, start, size)
                        && fa0.supply() >= 4 * count {
                        assert(fa_pre.supply() <= 0);
                        assert(fa_pre.supply() >= fa0.supply() - 4 * k);
                        assert(false);
                    }
                }
                return Err(MapToError::FrameAllocationFailed);
            },
        };
        let ghost fa_mid = *frame_allocator;
        let ghost m_pre = mapper.mem@;
        let flags = MappingFlags { writable: true };
        let res = mapper.map_to(Page { base: p }, frame, flags, frame_allocator);
        match res {
            Err(e) => {
                proof {
                    if heap_range_free(m0, root0, start, size)
                        && fa0.supply() >= 4 * count {
                        assert(in_heap_pages(p, start, size));
                        assert(walk(m_pre, root0, p) == walk(m0, root0, p));
                        assert(walk(m_pre, root0, p) is Absent);
                        lemma_walk_absent_characterization(m_pre, root0, p);
                        assert(fa_mid.supply() >= fa0.supply() - 4 * k - 1);
                        assert(fa_mid.supply() >= 3);
                        assert(tables_missing(m_pre, root0, p) <= 3);
                        assert(false);
                    }
                }
                return Err(e);
            },
            Ok(()) => {},
        }
        proof {
            let m_new = mapper.mem@;
            let leaf = PageTableEntry {
                present: true, writable: true, huge: false, addr: frame.base,
            };
            lemma_walk_absent_characterization(m_pre, root0, p);
            assert(walk(m_pre, root0, p) is Absent);
            assert(walk(m0, root0, p) is Absent);
            // every address of the new page is now mapped to the new frame
            assert forall|a: u64| first <= page_base(a) < p + 4096 implies
                (#[trigger] walk(m_new, root0, a) matches WalkResult::Mapped(e)
                    && e.writable && e.present && !frame_allocator.in_remaining(e.addr)) by {
                lemma_page_base(a, p);
                if page_base(a) < p {
                    assert(!same_page(a, p));
                    assert(walk(m_new, root0, a) == walk(mapper.mem@, root0, a));
                } else {
                    lemma_page_base_aligned(a);
                    lemma_aligned_close(page_base(a), p);
                    assert(same_page(a, p));
                    assert(walk(m_new, root0, a) == WalkResult::Mapped(leaf));
                }
            }
            assert forall|a: u64| first <= page_base(a) < p + 4096 implies
                #[trigger] walk(m0, root0, a) is Absent by {
                lemma_page_base(a, p);
                if page_base(a) >= p {
                    lemma_page_base_aligned(a);
                    lemma_aligned_close(page_base(a), p);
                    assert(walk(m_pre, root0, a) == walk(m0, root0, a));
                    assert(same_page(a, p));
                    assert(walk(m_pre, root0, a) == walk(m_pre, root0, p)) by {
                        lemma_same_page_same_walk(m_pre, root0, a, p);
                    }
                }
            }
            assert forall|a: u64| !(first <= page_base(a) < p + 4096) implies
                #[trigger] walk(m_new, root0, a) == walk(m0, root0, a) by {
                lemma_page_base(a, p);
                assert(!same_page(a, p));
            }
            // frames of distinct pages stay distinct: the new frame was still
            // in the supply when every earlier frame had already left it
            assert forall|a: u64, b: u64|
                first <= page_base(a) < p + 4096 && first <= page_base(b) < p + 4096
                && !same_page(a, b) implies
                #[trigger] mapped_entry(m_new, root0, a).addr
                    != #[trigger] mapped_entry(m_new, root0, b).addr by {
                lemma_page_base(a, p);
                lemma_page_base(b, p);
                if page_base(a) >= p {
                    lemma_page_base_aligned(a);
                    lemma_aligned_close(page_base(a), p);
                }
                if page_base(b) >= p {
                    lemma_page_base_aligned(b);
                    lemma_aligned_close(page_base(b), p);
                }
                if page_base(a) < p && page_base(b) < p {
                    assert(!same_page(a, p) && !same_page(b, p));
                    assert(walk(m_new, root0, a) == walk(m_pre, root0, a));
                    assert(walk(m_new, root0, b) == walk(m_pre, root0, b));
                    assert(mapped_entry(m_pre, root0, a).addr != mapped_entry(m_pre, root0, b).addr);
                } else if page_base(a) >= p && page_base(b) >= p {
                    assert(same_page(a, p) && same_page(b, p));
                    lemma_same_page_transitive(a, b, p);
                    assert(false);
                } else if page_base(a) >= p {
                    assert(same_page(a, p));
                    assert(walk(m_new, root0, a) == WalkResult::Mapped(leaf));
                    assert(!same_page(b, p));
                    assert(walk(m_new, root0, b) == walk(m_pre, root0, b));
                    assert((walk(m_pre, root0, b) matches WalkResult::Mapped(e)
                        && !fa_pre.in_remaining(e.addr)));
                    assert(fa_pre.in_remaining(frame.base));
                } else {
                    assert(same_page(b, p));
                    assert(walk(m_new, root0, b) == WalkResult::Mapped(leaf));
                    assert(!same_page(a, p));
                    assert(walk(m_new, root0, a) == walk(m_pre, root0, a));
                    assert((walk(m_pre, root0, a) matches WalkResult::Mapped(e)
                        && !fa_pre.in_remaining(e.addr)));
                    assert(fa_pre.in_remaining(frame.base));
                }
            }
            k = k + 1;
        }
        p = p + 4096;
    }
    proof {
        lemma_aligned_close((last + 4096) as u64, p);
        assert(p == last + 4096);
        assert forall|a: u64| in_heap_pages(a, start, size) implies
            first <= page_base(a) < p by {
        }
        assert forall|a: u64| first <= page_base(a) < p implies
            in_heap_pages(a, start, size) by {
            lemma_page_base_aligned(a);
            lemma_aligned_le(page_base(a), last);
        }
        assert(frame_allocator.supply() >= 0);
        assert(fa0.supply() >= count);
    }
    let word_count = (size / 8) as usize;
    let mut words: Vec<u64> = Vec::new();
    while words.len() < word_count
        invariant
            word_count == size as int / 8,
            size <= 0xffff_ffff,
            words@.len() <= word_count,
        decreases word_count - words@.len(),
    {
        words.push(0);
    }
    let heap = KernelHeap { start, size, next_offset: 0, allocations: 0, words };
    Ok(heap)
}

/// Initialize the kernel heap over the fixed window: back every page of
/// `[HEAP_START, HEAP_START + HEAP_SIZE)` with a frame, then activate the
/// bump allocator over exactly that range.
pub fn init_heap(mapper: &mut Mapper, frame_allocator: &mut BootInfoFrameAllocator)
    -> (r: Result<KernelHeap, MapToError>)
    requires
        old(mapper).wf(),
        old(frame_allocator).wf(),
        old(mapper).disjoint_from(*old(frame_allocator)),
        old(frame_allocator).next + 4 * heap_page_count(HEAP_START, HEAP_SIZE) <= u64::MAX,
    ensures
        final(mapper).wf(),
        final(mapper).root == old(mapper).root,
        final(frame_allocator).wf(),
        final(frame_allocator).memory_map == old(frame_allocator).memory_map,
        final(mapper).disjoint_from(*final(frame_allocator)),
        heap_range_free(old(mapper).mem@, old(mapper).root, HEAP_START, HEAP_SIZE)
            && old(frame_allocator).supply() >= 4 * heap_page_count(HEAP_START, HEAP_SIZE)
            ==> r is Ok,
        r is Ok ==> heap_range_free(old(mapper).mem@, old(mapper).root, HEAP_START, HEAP_SIZE),
        r is Ok ==> old(frame_allocator).supply() >= heap_page_count(HEAP_START, HEAP_SIZE),
        r matches Ok(h) ==> {
            &&& h.wf()
            &&& h.start == HEAP_START
            &&& h.size == HEAP_SIZE
            &&& h.allocations == 0
            &&& h.next_offset == 0
            &&& forall|a: u64| in_heap_pages(a, HEAP_START, HEAP_SIZE)
                    ==> (#[trigger] walk(final(mapper).mem@, final(mapper).root, a)
                        matches WalkResult::Mapped(e) && e.writable && e.present)
            &&& forall|a: u64, b: u64|
                    in_heap_pages(a, HEAP_START, HEAP_SIZE) && in_heap_pages(b, HEAP_START, HEAP_SIZE)
                    && !same_page(a, b)
                    ==> #[trigger] mapped_entry(final(mapper).mem@, final(mapper).root, a).addr
                        != #[trigger] mapped_entry(final(mapper).mem@, final(mapper).root, b).addr
            &&& forall|a: u64| !in_heap_pages(a, HEAP_START, HEAP_SIZE)
                    ==> #[trigger] walk(final(mapper).mem@, final(mapper).root, a)
                        == walk(old(mapper).mem@, old(mapper).root, a)
        },
{
    init_heap_range(mapper, frame_allocator, HEAP_START, HEAP_SIZE)
}

/// Law (round trip): a value written into heap memory and read back is
/// identical, and no other word changes. The hypotheses are exactly what
/// `write_word` ensures of the heap it returns.
pub proof fn lemma_heap_round_trip(h0: KernelHeap, h1: KernelHeap, a: u64, value: u64)
    requires
        h0.wf(),
        h0.in_window(a),
        h1.start == h0.start,
        h1.words@ == h0.words@.update(((a - h0.start) / 8) as int, value),
    ensures
        h1.word_at(a) == value,
        forall|b: u64| h0.in_window(b) && (b - h0.start) / 8 != (a - h0.start) / 8
            ==> #[trigger] h1.word_at(b) == h0.word_at(b),
{
    assert((a - h0.start) / 8 < h0.words@.len()) by (nonlinear_arith)
        requires
            (a - h0.start) % 8 == 0,
            (a - h0.start) + 8 <= h0.words@.len() * 8,
            a >= h0.start;
}

/// Law: once every allocation has been released, the whole capacity is
/// available again, so any request within capacity succeeds.
pub proof fn lemma_released_heap_full_capacity(h: KernelHeap)
    requires
        h.wf(),
        h.allocations == 0,
    ensures
        h.remaining() == h.capacity(),
{
}

} // verus!
