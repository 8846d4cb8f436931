//! Frame allocation, address translation, and page-to-frame binding.
//!
//! The frame allocator hands out unused physical frames from the boot memory
//! map, at a strictly increasing call counter, so no frame is ever handed out
//! twice. The mapper owns the physical-memory window and the root table and
//! creates new page-to-frame bindings, drawing intermediate tables from the
//! frame allocator. Translation walks the hierarchy read-only.

use vstd::prelude::*;
use crate::addr::{Frame, Page, l4_index, l3_index, l2_index, l1_index, page_offset,
    lemma_index_bounds, same_page, p4_index_of, p3_index_of, p2_index_of, p1_index_of,
    page_offset_of};
use crate::memory_map::{MemoryMap, nth_usable_frame, lemma_frames_increasing};
use crate::page_table::{PageTableEntry, TableModel, PhysMemory, WalkResult, walk, entry_at,
    links_to, inv, parent_huge, l1_entry, tables_missing, empty_entries, absent_entry,
    link_entry, table_model_wf, lemma_link_fresh_table, lemma_write_leaf};

verus! {

/// Typed failures of binding a page to a frame.
#[derive(Clone, Copy, PartialEq, Eq, Structural, Debug)]
pub enum MapToError {
    /// The frame allocator could not supply an intermediate table frame.
    FrameAllocationFailed,
    /// An intermediate entry on the page's path is marked as a huge page.
    ParentEntryHugePage,
    /// The page already holds a mapping.
    PageAlreadyMapped,
}

/// Permission flags for a new mapping; a mapping is always present.
#[derive(Clone, Copy, PartialEq, Eq, Structural, Debug)]
pub struct MappingFlags {
    pub writable: bool,
}

/// Frame allocator over the boot memory map: returns the frame at a strictly
/// increasing call counter within the flattened usable-frame supply.
pub struct BootInfoFrameAllocator {
    pub memory_map: MemoryMap,
    pub next: u64,
}

impl BootInfoFrameAllocator {
    pub open spec fn wf(self) -> bool {
        self.memory_map.wf()
    }

    /// The whole supply this allocator draws from.
    pub open spec fn frames(self) -> Seq<u64> {
        self.memory_map.frames()
    }

    /// Frame base `x` may still come out of a future allocation.
    pub open spec fn in_remaining(self, x: u64) -> bool {
        exists|i: int| self.next <= i < self.frames().len() && self.frames()[i] == x
    }

    /// How many more frames this allocator can supply.
    pub open spec fn supply(self) -> int {
        if self.next <= self.frames().len() {
            self.frames().len() - self.next
        } else {
            0
        }
    }

    /// Wrap the boot memory map, with the call counter at zero.
    pub fn init(memory_map: MemoryMap) -> (r: Self)
        ensures
            r.memory_map == memory_map,
            r.next == 0,
    {
        BootInfoFrameAllocator { memory_map, next: 0 }
    }

    /// Return the next unused frame from the usable regions, or `None` once
    /// the supply is exhausted. The counter grows on every call, so no two
    /// calls ever return the same frame.
    pub fn allocate_frame(&mut self) -> (r: Option<Frame>)
        requires
            old(self).wf(),
            old(self).next < u64::MAX,
        ensures
            final(self).wf(),
            final(self).memory_map == old(self).memory_map,
            final(self).next == old(self).next + 1,
            (r is Some) <==> old(self).supply() > 0,
            r matches Some(fr) ==> {
                &&& fr.base == old(self).frames()[old(self).next as int]
                &&& fr.wf()
                &&& old(self).in_remaining(fr.base)
                &&& !final(self).in_remaining(fr.base)
            },
            forall|x: u64| final(self).in_remaining(x) ==> old(self).in_remaining(x),
    {
        proof {
            assert(self.memory_map.regions@.skip(0) =~= self.memory_map.regions@);
            lemma_frames_increasing(self.memory_map.regions@);
        }
        let r = nth_usable_frame(&self.memory_map.regions, 0, self.next);
        self.next = self.next + 1;
        match r {
            Some(base) => {
                proof {
                    let n = old(self).next as int;
                    assert(old(self).frames()[n] == base);
                    assert forall|i: int| self.next <= i < self.frames().len() implies
                        #[trigger] self.frames()[i] != base by {
                        assert(self.frames()[n] < self.frames()[i]);
                    }
                }
                Some(Frame { base })
            },
            None => None,
        }
    }
}

/// Law: across one allocator instance's lifetime, no two allocate calls ever
/// return the same frame. Each call returns the frame at its own position in
/// the supply, the position only grows, and the supply is strictly
/// increasing, so two distinct positions hold two distinct frames.
pub proof fn lemma_no_frame_allocated_twice(fa: BootInfoFrameAllocator, i: int, j: int)
    requires
        fa.wf(),
        0 <= i < j < fa.frames().len(),
    ensures
        fa.frames()[i] != fa.frames()[j],
{
    lemma_frames_increasing(fa.memory_map.regions@);
}

/// The placeholder allocator for contexts that must not hand out physical
/// memory: it always reports exhaustion.
pub struct EmptyFrameAllocator;

impl EmptyFrameAllocator {
    pub fn allocate_frame(&mut self) -> (r: Option<Frame>)
        ensures
            r is None,
    {
        None
    }
}

/// The address-space mapper: the physical-memory window together with the
/// physical base of the active level-4 root table.
pub struct Mapper {
    pub root: u64,
    pub mem: PhysMemory,
}

impl Mapper {
    pub open spec fn wf(self) -> bool {
        &&& self.mem.rep_wf()
        &&& inv(self.mem@, self.root)
    }

    /// No frame holding a table of this hierarchy can still come out of the
    /// allocator: what backs the tables is never handed out again.
    pub open spec fn disjoint_from(self, fa: BootInfoFrameAllocator) -> bool {
        forall|b: u64| #[trigger] self.mem@.dom().contains(b) ==> !fa.in_remaining(b)
    }
}

/// Wrap the active root table into a mapper over a fresh physical-memory
/// window. The root table starts empty: nothing is mapped yet.
pub fn init(root_frame: Frame) -> (r: Mapper)
    requires
        root_frame.wf(),
    ensures
        r.wf(),
        r.root == root_frame.base,
        r.mem@.dom() =~= Set::<u64>::empty().insert(root_frame.base),
        forall|a: u64| #[trigger] walk(r.mem@, r.root, a) == WalkResult::Absent,
{
    let mut mem = PhysMemory::new();
    mem.add_table(root_frame.base, 4);
    let r = Mapper { root: root_frame.base, mem };
    proof {
        let m = r.mem@;
        let root = r.root;
        assert(m[root].entries == empty_entries());
        assert forall|i: int| 0 <= i < 512 implies
            !(#[trigger] entry_at(m, root, i)).present && entry_at(m, root, i).wf() by {
            assert(m[root].entries[i] == absent_entry());
        }
        assert forall|b: u64, i: int, t: u64| !(#[trigger] links_to(m, b, i, t)) by {
            if links_to(m, b, i, t) {
                assert(b == root);
                assert(!entry_at(m, root, i).present);
            }
        }
        assert(inv(m, root));
        assert forall|a: u64| #[trigger] walk(m, root, a) == WalkResult::Absent by {
            lemma_index_bounds(a);
            assert(!entry_at(m, root, l4_index(a)).present);
        }
    }
    r
}

impl Mapper {
    /// Follow the entry at `(cur, idx)` one level down, allocating and
    /// linking a fresh, empty table if the entry is absent.
    fn ensure_table(&mut self, cur: u64, idx: usize, level: u64, fa: &mut BootInfoFrameAllocator)
        -> (r: Result<u64, MapToError>)
        requires
            old(self).wf(),
            old(self).mem@.dom().contains(cur),
            old(self).mem@[cur].level == level as int,
            level >= 2,
            idx < 512,
            old(fa).wf(),
            old(fa).next < u64::MAX,
            old(self).disjoint_from(*old(fa)),
        ensures
            final(self).wf(),
            final(self).root == old(self).root,
            final(fa).wf(),
            final(fa).memory_map == old(fa).memory_map,
            final(self).disjoint_from(*final(fa)),
            forall|x: u64| final(fa).in_remaining(x) ==> old(fa).in_remaining(x),
            match r {
                Ok(t) => {
                    &&& forall|a: u64| #[trigger] walk(final(self).mem@, old(self).root, a)
                            == walk(old(self).mem@, old(self).root, a)
                    &&& links_to(final(self).mem@, cur, idx as int, t)
                    &&& final(self).mem@.dom().contains(t)
                    &&& final(self).mem@[t].level == level as int - 1
                    &&& forall|b: u64, i: int, tt: u64| #[trigger] links_to(old(self).mem@, b, i, tt)
                            ==> links_to(final(self).mem@, b, i, tt)
                    &&& forall|x: u64| #[trigger] final(self).mem@.dom().contains(x)
                            ==> old(self).mem@.dom().contains(x) || x == t
                    &&& if entry_at(old(self).mem@, cur, idx as int).present {
                            &&& *final(self) == *old(self)
                            &&& *final(fa) == *old(fa)
                            &&& entry_at(old(self).mem@, cur, idx as int).is_link()
                            &&& t == entry_at(old(self).mem@, cur, idx as int).addr
                        } else {
                            &&& final(fa).next == old(fa).next + 1
                            &&& old(fa).supply() > 0
                            &&& final(self).mem@[t].entries == empty_entries()
                            &&& !old(self).mem@.dom().contains(t)
                        }
                },
                Err(e) => {
                    &&& *final(self) == *old(self)
                    &&& e != MapToError::PageAlreadyMapped
                    &&& (e == MapToError::ParentEntryHugePage ==> {
                            &&& *final(fa) == *old(fa)
                            &&& entry_at(old(self).mem@, cur, idx as int).present
                            &&& entry_at(old(self).mem@, cur, idx as int).huge
                        })
                    &&& (e == MapToError::FrameAllocationFailed ==> {
                            &&& !entry_at(old(self).mem@, cur, idx as int).present
                            &&& old(fa).supply() <= 0
                            &&& final(fa).next == old(fa).next + 1
                        })
                },
            },
    {
        let ghost m0 = self.mem@;
        let ghost root0 = self.root;
        let e = self.mem.read_entry(cur, idx);
        if e.present {
            if e.huge {
                return Err(MapToError::ParentEntryHugePage);
            }
            proof {
                assert(links_to(m0, cur, idx as int, e.addr));
            }
            return Ok(e.addr);
        }
        match fa.allocate_frame() {
            None => Err(MapToError::FrameAllocationFailed),
            Some(frame) => {
                proof {
                    assert(!m0.dom().contains(frame.base));
                }
                self.mem.add_table(frame.base, level - 1);
                self.mem.write_entry(cur, idx, PageTableEntry {
                    present: true, writable: true, huge: false, addr: frame.base,
                });
                proof {
                    let m1 = self.mem@;
                    let mid = m0.insert(frame.base, TableModel {
                        level: level as int - 1,
                        entries: empty_entries(),
                    });
                    assert(mid[cur] == m0[cur]);
                    assert(m1 == m0.insert(frame.base, TableModel {
                        level: m0[cur].level - 1,
                        entries: empty_entries(),
                    }).insert(cur, TableModel {
                        level: m0[cur].level,
                        entries: m0[cur].entries.update(idx as int, link_entry(frame.base)),
                    }));
                    lemma_link_fresh_table(m0, m1, root0, cur, idx as int, frame.base);
                    assert forall|b: u64| #[trigger] m1.dom().contains(b) implies
                        !fa.in_remaining(b) by {
                        if b != frame.base {
                            assert(m0.dom().contains(b));
                        }
                    }
                }
                Ok(frame.base)
            },
        }
    }

    /// Bind `page` to `frame` with the given flags, creating intermediate
    /// tables as needed, each drawn from the frame allocator. Succeeds
    /// exactly when no intermediate entry on the page's path is a huge page,
    /// the page holds no mapping yet, and the allocator can supply the
    /// missing intermediate tables; afterwards every address of the page
    /// translates to the frame, and no other translation has changed.
    pub fn map_to(&mut self, page: Page, frame: Frame, flags: MappingFlags,
        fa: &mut BootInfoFrameAllocator) -> (r: Result<(), MapToError>)
        requires
            old(self).wf(),
            page.wf(),
            frame.wf(),
            old(fa).wf(),
            old(fa).next + 3 <= u64::MAX,
            old(self).disjoint_from(*old(fa)),
        ensures
            final(self).wf(),
            final(self).root == old(self).root,
            final(fa).wf(),
            final(fa).memory_map == old(fa).memory_map,
            final(self).disjoint_from(*final(fa)),
            forall|x: u64| final(fa).in_remaining(x) ==> old(fa).in_remaining(x),
            old(fa).next <= final(fa).next <= old(fa).next + 3,
            (r is Ok) <==> {
                &&& !parent_huge(old(self).mem@, old(self).root, page.base)
                &&& !(l1_entry(old(self).mem@, old(self).root, page.base)
                        matches Some(e) && e.present)
                &&& old(fa).supply() >= tables_missing(old(self).mem@, old(self).root, page.base)
            },
            r is Ok ==> {
                &&& forall|a: u64| same_page(a, page.base)
                        ==> #[trigger] walk(final(self).mem@, final(self).root, a)
                            == WalkResult::Mapped(PageTableEntry {
                                present: true,
                                writable: flags.writable,
                                huge: false,
                                addr: frame.base,
                            })
                &&& forall|a: u64| !same_page(a, page.base)
                        ==> #[trigger] walk(final(self).mem@, final(self).root, a)
                            == walk(old(self).mem@, old(self).root, a)
                &&& final(fa).next == old(fa).next
                        + tables_missing(old(self).mem@, old(self).root, page.base)
            },
            r is Err ==> forall|a: u64| #[trigger] walk(final(self).mem@, final(self).root, a)
                    == walk(old(self).mem@, old(self).root, a),
            (r matches Err(e) && e == MapToError::ParentEntryHugePage)
                <==> parent_huge(old(self).mem@, old(self).root, page.base),
            (r matches Err(e) && e == MapToError::PageAlreadyMapped)
                <==> {
                    &&& !parent_huge(old(self).mem@, old(self).root, page.base)
                    &&& l1_entry(old(self).mem@, old(self).root, page.base)
                            matches Some(e) && e.present
                },
    {
        let ghost m0 = self.mem@;
        let ghost root0 = self.root;
        let ghost fa0 = *fa;
        let ghost p = page.base;
        proof {
            lemma_index_bounds(p);
        }
        let i4 = p4_index_of(page.base);
        let i3 = p3_index_of(page.base);
        let i2 = p2_index_of(page.base);
        let i1 = p1_index_of(page.base);
        let rt = self.root;
        let ghost e4 = entry_at(m0, root0, l4_index(p));
        let t3 = match self.ensure_table(rt, i4, 4, fa) {
            Ok(t) => t,
            Err(e) => {
                return Err(e);
            },
        };
        let ghost m_a = self.mem@;
        let ghost fa_a = *fa;
        let ghost e3 = entry_at(m_a, t3, l3_index(p));
        proof {
            if !e4.present {
                assert(m_a[t3].entries[l3_index(p)] == absent_entry());
            } else {
                assert(m_a == m0 && t3 == e4.addr);
            }
        }
        let t2 = match self.ensure_table(t3, i3, 3, fa) {
            Ok(t) => t,
            Err(e) => {
                proof {
                    lemma_transfer_err(m0, m_a, root0, p, e4, t3);
                }
                return Err(e);
            },
        };
        let ghost m_b = self.mem@;
        let ghost fa_b = *fa;
        let ghost e2 = entry_at(m_b, t2, l2_index(p));
        proof {
            if !e3.present {
                assert(m_b[t2].entries[l2_index(p)] == absent_entry());
            } else {
                assert(m_b == m_a && t2 == e3.addr);
            }
        }
        let t1 = match self.ensure_table(t2, i2, 2, fa) {
            Ok(t) => t,
            Err(e) => {
                proof {
                    lemma_transfer_err2(m0, m_a, m_b, root0, p, e4, e3, t3, t2);
                }
                return Err(e);
            },
        };
        let ghost m_c = self.mem@;
        let ghost fa_c = *fa;
        proof {
            lemma_path_facts(m0, m_a, m_b, m_c, root0, p, e4, e3, t3, t2, t1,
                fa0, fa_a, fa_b, fa_c);
        }
        let e1 = self.mem.read_entry(t1, i1);
        if e1.present {
            return Err(MapToError::PageAlreadyMapped);
        }
        let leaf = PageTableEntry {
            present: true, writable: flags.writable, huge: false, addr: frame.base,
        };
        let ghost before_leaf = self.mem@;
        self.mem.write_entry(t1, i1, leaf);
        proof {
            let m1 = self.mem@;
            assert(m1 == m_c.insert(t1, TableModel {
                level: m_c[t1].level,
                entries: m_c[t1].entries.update(l1_index(p), leaf),
            }));
            lemma_write_leaf(m_c, m1, root0, p, t3, t2, t1, leaf);
            assert forall|b: u64| #[trigger] m1.dom().contains(b) implies
                !fa.in_remaining(b) by {
                assert(m_c.dom().contains(b));
            }
        }
        Ok(())
    }
}

/// After a failed first descent, the outer error conditions follow from the
/// level-4 entry alone.
proof fn lemma_transfer_err(
    m0: Map<u64, TableModel>, m_a: Map<u64, TableModel>, root: u64, p: u64,
    e4: PageTableEntry, t3: u64,
)
    requires
        e4 == entry_at(m0, root, l4_index(p)),
        !e4.present ==> m_a[t3].entries[l3_index(p)] == absent_entry(),
        e4.present ==> m_a == m0 && e4.is_link() && t3 == e4.addr,
    ensures
        !entry_at(m_a, t3, l3_index(p)).present ==> !(
            l1_entry(m0, root, p) matches Some(e) && e.present),
        !entry_at(m_a, t3, l3_index(p)).present && !e4.present
            ==> tables_missing(m0, root, p) == 3,
        !entry_at(m_a, t3, l3_index(p)).present && e4.present
            ==> tables_missing(m0, root, p) >= 2,
        entry_at(m_a, t3, l3_index(p)).present && entry_at(m_a, t3, l3_index(p)).huge
            ==> parent_huge(m0, root, p),
{
}

/// After a failed second descent, the outer error conditions follow from the
/// level-4 and level-3 entries.
proof fn lemma_transfer_err2(
    m0: Map<u64, TableModel>, m_a: Map<u64, TableModel>, m_b: Map<u64, TableModel>,
    root: u64, p: u64, e4: PageTableEntry, e3: PageTableEntry, t3: u64, t2: u64,
)
    requires
        e4 == entry_at(m0, root, l4_index(p)),
        !e4.present ==> m_a[t3].entries[l3_index(p)] == absent_entry(),
        e4.present ==> m_a == m0 && e4.is_link() && t3 == e4.addr,
        e3 == entry_at(m_a, t3, l3_index(p)),
        !e3.present ==> m_b[t2].entries[l2_index(p)] == absent_entry(),
        e3.present ==> m_b == m_a && e3.is_link() && t2 == e3.addr,
    ensures
        !entry_at(m_b, t2, l2_index(p)).present ==> !(
            l1_entry(m0, root, p) matches Some(e) && e.present),
        !entry_at(m_b, t2, l2_index(p)).present && !parent_huge(m0, root, p)
            ==> tables_missing(m0, root, p) >= 1,
        entry_at(m_b, t2, l2_index(p)).present && entry_at(m_b, t2, l2_index(p)).huge
            ==> parent_huge(m0, root, p),
        !e4.present ==> !entry_at(m_b, t2, l2_index(p)).present,
{
    if !e4.present {
        assert(!e3.present);
    }
}

/// After all three descents succeeded: relate the level-1 entry and the
/// frames consumed to the hierarchy as it stood before the descent.
proof fn lemma_path_facts(
    m0: Map<u64, TableModel>, m_a: Map<u64, TableModel>, m_b: Map<u64, TableModel>,
    m_c: Map<u64, TableModel>, root: u64, p: u64,
    e4: PageTableEntry, e3: PageTableEntry, t3: u64, t2: u64, t1: u64,
    fa0: BootInfoFrameAllocator, fa_a: BootInfoFrameAllocator,
    fa_b: BootInfoFrameAllocator, fa_c: BootInfoFrameAllocator,
)
    requires
        e4 == entry_at(m0, root, l4_index(p)),
        !e4.present ==> m_a[t3].entries[l3_index(p)] == absent_entry()
            && fa_a.next == fa0.next + 1 && fa0.supply() > 0,
        e4.present ==> m_a == m0 && fa_a == fa0 && e4.is_link() && t3 == e4.addr,
        e3 == entry_at(m_a, t3, l3_index(p)),
        !e3.present ==> m_b[t2].entries[l2_index(p)] == absent_entry()
            && fa_b.next == fa_a.next + 1 && fa_a.supply() > 0,
        e3.present ==> m_b == m_a && fa_b == fa_a && e3.is_link() && t2 == e3.addr,
        !entry_at(m_b, t2, l2_index(p)).present ==> m_c[t1].entries[l1_index(p)] == absent_entry()
            && fa_c.next == fa_b.next + 1 && fa_b.supply() > 0,
        entry_at(m_b, t2, l2_index(p)).present ==> m_c == m_b && fa_c == fa_b
            && entry_at(m_b, t2, l2_index(p)).is_link()
            && t1 == entry_at(m_b, t2, l2_index(p)).addr,
        fa_a.memory_map == fa0.memory_map,
        fa_b.memory_map == fa_a.memory_map,
        fa_c.memory_map == fa_b.memory_map,
    ensures
        !parent_huge(m0, root, p),
        entry_at(m_c, t1, l1_index(p)).present <==> (
            l1_entry(m0, root, p) matches Some(e) && e.present),
        entry_at(m_c, t1, l1_index(p)).present ==> l1_entry(m0, root, p)
            == Some(entry_at(m_c, t1, l1_index(p))),
        fa_c.next == fa0.next + tables_missing(m0, root, p),
        fa0.supply() >= tables_missing(m0, root, p),
{
    let e2 = entry_at(m_b, t2, l2_index(p));
    if !e4.present {
        assert(!e3.present);
        assert(!e2.present);
        assert(!entry_at(m_c, t1, l1_index(p)).present);
        assert(tables_missing(m0, root, p) == 3);
    } else if !e3.present {
        assert(!e2.present);
        assert(!entry_at(m_c, t1, l1_index(p)).present);
        assert(tables_missing(m0, root, p) == 2);
    } else if !e2.present {
        assert(!entry_at(m_c, t1, l1_index(p)).present);
        assert(tables_missing(m0, root, p) == 1);
    } else {
        assert(m_c == m0);
        assert(tables_missing(m0, root, p) == 0);
        assert(l1_entry(m0, root, p) == Some(entry_at(m_c, t1, l1_index(p))));
    }
}

/// Translate a virtual address by walking the live hierarchy: absent if any
/// level lacks a present entry for the address's path, else the final
/// frame's base plus the address's in-page offset. An entry marked as a huge
/// page is an unsupported configuration and is ruled out up front.
pub fn translate_addr(addr: u64, mapper: &Mapper) -> (r: Option<u64>)
    requires
        mapper.wf(),
        !(walk(mapper.mem@, mapper.root, addr) is Huge),
    ensures
        (r is Some) <==> walk(mapper.mem@, mapper.root, addr) is Mapped,
        walk(mapper.mem@, mapper.root, addr) matches WalkResult::Mapped(e)
            ==> r == Some((e.addr + page_offset(addr)) as u64),
{
    let ghost m = mapper.mem@;
    let ghost root = mapper.root;
    proof {
        lemma_index_bounds(addr);
    }
    let i4 = p4_index_of(addr);
    let i3 = p3_index_of(addr);
    let i2 = p2_index_of(addr);
    let i1 = p1_index_of(addr);
    let e4 = mapper.mem.read_entry(mapper.root, i4);
    if !e4.present {
        return None;
    }
    if e4.huge {
        proof {
            assert(false);
        }
        return None;
    }
    proof {
        assert(links_to(m, root, l4_index(addr), e4.addr));
    }
    let e3 = mapper.mem.read_entry(e4.addr, i3);
    if !e3.present {
        return None;
    }
    if e3.huge {
        proof {
            assert(false);
        }
        return None;
    }
    proof {
        assert(links_to(m, e4.addr, l3_index(addr), e3.addr));
    }
    let e2 = mapper.mem.read_entry(e3.addr, i2);
    if !e2.present {
        return None;
    }
    if e2.huge {
        proof {
            assert(false);
        }
        return None;
    }
    proof {
        assert(links_to(m, e3.addr, l2_index(addr), e2.addr));
    }
    let e1 = mapper.mem.read_entry(e2.addr, i1);
    if !e1.present {
        return None;
    }
    if e1.huge {
        proof {
            assert(false);
        }
        return None;
    }
    proof {
        assert(table_model_wf(m[e2.addr]));
        assert(e1.wf());
    }
    let off = page_offset_of(addr);
    Some(e1.addr + off)
}

/// Law: for every address inside an already-mapped page, translation is
/// present, and returns the frame most recently bound to the address's page.
/// `map_to` establishes the hypothesis for every address of the page it
/// binds, and `translate_addr` then returns exactly `e.addr` plus the
/// address's own in-page offset.
pub proof fn lemma_translate_inside_mapped_page(m: Map<u64, TableModel>, root: u64,
    p: u64, a: u64, e: PageTableEntry)
    requires
        walk(m, root, p) == WalkResult::Mapped(e),
        same_page(a, p),
    ensures
        walk(m, root, a) == WalkResult::Mapped(e),
{
    crate::page_table::lemma_same_page_same_walk(m, root, a, p);
}

/// Map the given page to the frame holding the VGA text buffer, present and
/// writable. The surrounding design treats a failure here as fatal, so the
/// conditions under which `map_to` fails are ruled out up front.
pub fn crate_example_mapping(page: Page, mapper: &mut Mapper,
    frame_allocator: &mut BootInfoFrameAllocator)
    requires
        old(mapper).wf(),
        page.wf(),
        old(frame_allocator).wf(),
        old(frame_allocator).next + 3 <= u64::MAX,
        old(mapper).disjoint_from(*old(frame_allocator)),
        !parent_huge(old(mapper).mem@, old(mapper).root, page.base),
        !(l1_entry(old(mapper).mem@, old(mapper).root, page.base) matches Some(e) && e.present),
        old(frame_allocator).supply()
            >= tables_missing(old(mapper).mem@, old(mapper).root, page.base),
    ensures
        final(mapper).wf(),
        final(mapper).root == old(mapper).root,
        final(frame_allocator).wf(),
        final(frame_allocator).memory_map == old(frame_allocator).memory_map,
        final(mapper).disjoint_from(*final(frame_allocator)),
        forall|a: u64| same_page(a, page.base)
            ==> #[trigger] walk(final(mapper).mem@, final(mapper).root, a)
                == WalkResult::Mapped(PageTableEntry {
                    present: true, writable: true, huge: false, addr: 0xb8000,
                }),
        forall|a: u64| !same_page(a, page.base)
            ==> #[trigger] walk(final(mapper).mem@, final(mapper).root, a)
                == walk(old(mapper).mem@, old(mapper).root, a),
{
    let frame = Frame { base: 0xb8000 };
    let flags = MappingFlags { writable: true };
    let r = mapper.map_to(page, frame, flags, frame_allocator);
    match r {
        Ok(()) => (),
        Err(_) => {
            proof {
                assert(false);
            }
        },
    }
}

} // verus!
