//! The multi-level page table, held in an explicit physical-memory window.
//!
//! The window models the linear physical-memory mapping the bootstrap loader
//! provides: every page table is addressed by the physical base of the frame
//! holding it, and all table access goes through typed accessors. A walk
//! follows present entries from the level-4 root down to a level-1 leaf;
//! an entry marked as a huge page is an unsupported configuration.

use vstd::prelude::*;
use crate::addr::{l4_index, l3_index, l2_index, l1_index, lemma_index_bounds, same_page,
    MAX_PHYS_ADDR, PAGE_SIZE};

verus! {

/// One page-table entry as the logic reads it: presence and writability
/// flags, the huge-page marker, and the target frame base.
#[derive(Clone, Copy, PartialEq, Eq, Structural, Debug)]
pub struct PageTableEntry {
    pub present: bool,
    pub writable: bool,
    pub huge: bool,
    pub addr: u64,
}

impl PageTableEntry {
    /// The target is a frame base inside the physical address space.
    pub open spec fn wf(self) -> bool {
        self.addr % PAGE_SIZE == 0 && self.addr < MAX_PHYS_ADDR
    }

    /// Points at a next-level table (or, at level 1, at the mapped frame).
    pub open spec fn is_link(self) -> bool {
        self.present && !self.huge
    }
}

/// The cleared entry: not present, no flags, no target.
pub open spec fn absent_entry() -> PageTableEntry {
    PageTableEntry { present: false, writable: false, huge: false, addr: 0 }
}

/// An entry linking an intermediate table to the next level down; the walk
/// may pass through it, so it is present, writable and not huge.
pub open spec fn link_entry(f: u64) -> PageTableEntry {
    PageTableEntry { present: true, writable: true, huge: false, addr: f }
}

/// Mathematical model of one table: its hierarchy level (4 down to 1) and
/// its 512 entries.
pub ghost struct TableModel {
    pub level: int,
    pub entries: Seq<PageTableEntry>,
}

pub open spec fn table_model_wf(t: TableModel) -> bool {
    &&& t.entries.len() == 512
    &&& 1 <= t.level <= 4
    &&& forall|i: int| 0 <= i < 512 ==> (#[trigger] t.entries[i]).wf()
}

/// 512 cleared entries: the contents of a freshly allocated table.
pub open spec fn empty_entries() -> Seq<PageTableEntry> {
    Seq::new(512, |i: int| absent_entry())
}

/// The entry at index `i` of the table based at `b`.
pub open spec fn entry_at(m: Map<u64, TableModel>, b: u64, i: int) -> PageTableEntry {
    m[b].entries[i]
}

/// Slot `(b, i)` holds a pointer from an intermediate table to the
/// next-level table based at `t`.
pub open spec fn links_to(m: Map<u64, TableModel>, b: u64, i: int, t: u64) -> bool {
    &&& m.dom().contains(b)
    &&& 0 <= i < 512
    &&& m[b].level >= 2
    &&& entry_at(m, b, i).is_link()
    &&& entry_at(m, b, i).addr == t
}

/// Outcome of translating a virtual address against the live hierarchy.
pub enum WalkResult {
    /// Some level lacked a present entry: the address is unmapped.
    Absent,
    /// A present entry was marked as a huge page: unsupported.
    Huge,
    /// Every level was present; the level-1 leaf entry is returned.
    Mapped(PageTableEntry),
}

/// Walk the hierarchy for address `a`: read the entry at `a`'s index for
/// each of the four levels, top down, following link targets.
pub open spec fn walk(m: Map<u64, TableModel>, root: u64, a: u64) -> WalkResult {
    let e4 = entry_at(m, root, l4_index(a));
    if !e4.present { WalkResult::Absent } else if e4.huge { WalkResult::Huge } else {
        let e3 = entry_at(m, e4.addr, l3_index(a));
        if !e3.present { WalkResult::Absent } else if e3.huge { WalkResult::Huge } else {
            let e2 = entry_at(m, e3.addr, l2_index(a));
            if !e2.present { WalkResult::Absent } else if e2.huge { WalkResult::Huge } else {
                let e1 = entry_at(m, e2.addr, l1_index(a));
                if !e1.present { WalkResult::Absent } else if e1.huge { WalkResult::Huge } else {
                    WalkResult::Mapped(e1)
                }
            }
        }
    }
}

/// A present entry at one of the three intermediate levels of `a`'s path is
/// marked huge: binding `a`'s page is unsupported.
pub open spec fn parent_huge(m: Map<u64, TableModel>, root: u64, a: u64) -> bool {
    let e4 = entry_at(m, root, l4_index(a));
    let e3 = entry_at(m, e4.addr, l3_index(a));
    let e2 = entry_at(m, e3.addr, l2_index(a));
    ||| (e4.present && e4.huge)
    ||| (e4.is_link() && e3.present && e3.huge)
    ||| (e4.is_link() && e3.is_link() && e2.present && e2.huge)
}

/// The level-1 entry of `a`'s path, if all three intermediate tables exist.
pub open spec fn l1_entry(m: Map<u64, TableModel>, root: u64, a: u64) -> Option<PageTableEntry> {
    let e4 = entry_at(m, root, l4_index(a));
    let e3 = entry_at(m, e4.addr, l3_index(a));
    let e2 = entry_at(m, e3.addr, l2_index(a));
    if e4.is_link() && e3.is_link() && e2.is_link() {
        Some(entry_at(m, e2.addr, l1_index(a)))
    } else {
        None
    }
}

/// How many intermediate tables `a`'s path still lacks (0 to 3); meaningful
/// when no intermediate entry is huge.
pub open spec fn tables_missing(m: Map<u64, TableModel>, root: u64, a: u64) -> int {
    let e4 = entry_at(m, root, l4_index(a));
    let e3 = entry_at(m, e4.addr, l3_index(a));
    let e2 = entry_at(m, e3.addr, l2_index(a));
    if !e4.present { 3 } else if !e3.present { 2 } else if !e2.present { 1 } else { 0 }
}

/// Structural invariant of the hierarchy rooted at `root`:
/// the root exists at level 4; every table is well-formed; every link
/// points at an existing table exactly one level down; no two distinct
/// slots link to the same table; and nothing links to the root.
/// The last two make the hierarchy a tree, so binding one page never
/// disturbs another page's translation.
pub open spec fn inv(m: Map<u64, TableModel>, root: u64) -> bool {
    &&& m.dom().contains(root)
    &&& m[root].level == 4
    &&& forall|b: u64| #[trigger] m.dom().contains(b) ==> table_model_wf(m[b])
    &&& forall|b: u64, i: int, t: u64| #[trigger] links_to(m, b, i, t)
            ==> m.dom().contains(t) && m[t].level == m[b].level - 1
    &&& forall|b1: u64, i1: int, b2: u64, i2: int, t: u64|
            #[trigger] links_to(m, b1, i1, t) && #[trigger] links_to(m, b2, i2, t)
            ==> b1 == b2 && i1 == i2
    &&& forall|b: u64, i: int| !(#[trigger] links_to(m, b, i, root))
}

/// Linking a fresh, empty table into an absent slot of an intermediate
/// table preserves the invariant and changes no translation: the new
/// table holds no present entry, so every path through it still ends
/// absent.
pub proof fn lemma_link_fresh_table(
    m: Map<u64, TableModel>, m1: Map<u64, TableModel>, root: u64,
    b0: u64, i0: int, f: u64,
)
    requires
        inv(m, root),
        m.dom().contains(b0),
        m[b0].level >= 2,
        0 <= i0 < 512,
        !entry_at(m, b0, i0).present,
        !m.dom().contains(f),
        f % PAGE_SIZE == 0,
        f < MAX_PHYS_ADDR,
        m1 == m.insert(f, TableModel { level: m[b0].level - 1, entries: empty_entries() })
               .insert(b0, TableModel {
                    level: m[b0].level,
                    entries: m[b0].entries.update(i0, link_entry(f)),
                }),
    ensures
        inv(m1, root),
        forall|a: u64| #[trigger] walk(m1, root, a) == walk(m, root, a),
        forall|x: u64| #[trigger] m1.dom().contains(x) <==> m.dom().contains(x) || x == f,
        forall|b: u64, i: int, t: u64| #[trigger] links_to(m, b, i, t) ==> links_to(m1, b, i, t),
        links_to(m1, b0, i0, f),
        m1[f].level == m[b0].level - 1,
        m1[f].entries == empty_entries(),
        forall|b: u64| m.dom().contains(b) && b != b0 ==> m1[b] == m[b],
        m1[b0].level == m[b0].level,
        m1[b0].entries == m[b0].entries.update(i0, link_entry(f)),
{
    assert(b0 != f);
    assert forall|i: int| 0 <= i < 512 implies !(#[trigger] empty_entries()[i]).present by {
        assert(empty_entries()[i] == absent_entry());
    }
    assert(table_model_wf(m1[f])) by {
        assert forall|i: int| 0 <= i < 512 implies (#[trigger] m1[f].entries[i]).wf() by {
            assert(m1[f].entries[i] == absent_entry());
        }
    }
    // every link of m1 is an old link or the one new link to the fresh table
    assert forall|b: u64, i: int, t: u64| #[trigger] links_to(m1, b, i, t) implies
        links_to(m, b, i, t) || (b == b0 && i == i0 && t == f) by {
        if b == f {
            assert(entry_at(m1, f, i) == absent_entry());
        } else if b == b0 {
            if i != i0 {
                assert(entry_at(m1, b0, i) == entry_at(m, b0, i));
            }
        } else {
            assert(m1[b] == m[b]);
        }
    }
    assert forall|b: u64, i: int, t: u64| #[trigger] links_to(m, b, i, t) implies
        links_to(m1, b, i, t) by {
        if b == b0 {
            assert(i != i0);
            assert(entry_at(m1, b0, i) == entry_at(m, b0, i));
        } else {
            assert(m1[b] == m[b]);
        }
    }
    // no old link targets the fresh table
    assert forall|b: u64, i: int| !(#[trigger] links_to(m, b, i, f)) by {
        if links_to(m, b, i, f) {
            assert(m.dom().contains(f));
        }
    }
    assert(inv(m1, root)) by {
        assert forall|b: u64| #[trigger] m1.dom().contains(b) implies table_model_wf(m1[b]) by {
            if b == f {
            } else if b == b0 {
                assert(m[b0].entries.update(i0, link_entry(f)).len() == 512);
                assert forall|i: int| 0 <= i < 512 implies (#[trigger] m1[b0].entries[i]).wf() by {
                    if i != i0 {
                        assert(m1[b0].entries[i] == m[b0].entries[i]);
                    }
                }
            } else {
                assert(m1[b] == m[b]);
            }
        }
        assert forall|b: u64, i: int, t: u64| #[trigger] links_to(m1, b, i, t) implies
            m1.dom().contains(t) && m1[t].level == m1[b].level - 1 by {
            if b == b0 && i == i0 {
            } else {
                assert(links_to(m, b, i, t));
                assert(t != f);
            }
        }
        assert forall|b1: u64, i1: int, b2: u64, i2: int, t: u64|
            #[trigger] links_to(m1, b1, i1, t) && #[trigger] links_to(m1, b2, i2, t) implies
            b1 == b2 && i1 == i2 by {
            if t == f {
                assert(b1 == b0 && i1 == i0 && b2 == b0 && i2 == i0);
            } else {
                assert(links_to(m, b1, i1, t) && links_to(m, b2, i2, t));
            }
        }
        assert forall|b: u64, i: int| !(#[trigger] links_to(m1, b, i, root)) by {
            if links_to(m1, b, i, root) {
                assert(root != f);
                assert(links_to(m, b, i, root));
            }
        }
    }
    // no translation changes
    assert forall|a: u64| #[trigger] walk(m1, root, a) == walk(m, root, a) by {
        lemma_index_bounds(a);
        lemma_walk_unchanged_by_link(m, m1, root, b0, i0, f, a);
    }
}

/// Case analysis for `lemma_link_fresh_table`: the walk for `a` either hits
/// the filled slot (and still ends absent, through the empty table) or reads
/// only unchanged entries.
proof fn lemma_walk_unchanged_by_link(
    m: Map<u64, TableModel>, m1: Map<u64, TableModel>, root: u64,
    b0: u64, i0: int, f: u64, a: u64,
)
    requires
        inv(m, root),
        m.dom().contains(b0),
        m[b0].level >= 2,
        0 <= i0 < 512,
        !entry_at(m, b0, i0).present,
        !m.dom().contains(f),
        m1 == m.insert(f, TableModel { level: m[b0].level - 1, entries: empty_entries() })
               .insert(b0, TableModel {
                    level: m[b0].level,
                    entries: m[b0].entries.update(i0, link_entry(f)),
                }),
    ensures
        walk(m1, root, a) == walk(m, root, a),
{
    lemma_index_bounds(a);
    assert(b0 != f);
    assert forall|i: int| 0 <= i < 512 implies !(#[trigger] entry_at(m1, f, i)).present by {
        assert(m1[f].entries[i] == absent_entry());
    }
    let i4 = l4_index(a);
    let i3 = l3_index(a);
    let i2 = l2_index(a);
    let i1 = l1_index(a);
    if root == b0 && i4 == i0 {
        // old walk ends absent at level 4; new walk passes into the empty table
        assert(walk(m, root, a) == WalkResult::Absent);
        assert(entry_at(m1, root, i4) == link_entry(f));
        assert(walk(m1, root, a) == WalkResult::Absent);
    } else {
        assert(entry_at(m1, root, i4) == entry_at(m, root, i4));
        let e4 = entry_at(m, root, i4);
        if !e4.is_link() {
        } else {
            let t3 = e4.addr;
            assert(links_to(m, root, i4, t3));
            assert(m.dom().contains(t3));
            assert(t3 != f);
            if t3 == b0 && i3 == i0 {
                assert(walk(m, root, a) == WalkResult::Absent);
                assert(entry_at(m1, t3, i3) == link_entry(f));
                assert(walk(m1, root, a) == WalkResult::Absent);
            } else {
                assert(entry_at(m1, t3, i3) == entry_at(m, t3, i3));
                let e3 = entry_at(m, t3, i3);
                if !e3.is_link() {
                } else {
                    let t2 = e3.addr;
                    assert(links_to(m, t3, i3, t2));
                    assert(m.dom().contains(t2));
                    assert(t2 != f);
                    if t2 == b0 && i2 == i0 {
                        assert(walk(m, root, a) == WalkResult::Absent);
                        assert(entry_at(m1, t2, i2) == link_entry(f));
                        assert(walk(m1, root, a) == WalkResult::Absent);
                    } else {
                        assert(entry_at(m1, t2, i2) == entry_at(m, t2, i2));
                        let e2 = entry_at(m, t2, i2);
                        if !e2.is_link() {
                        } else {
                            let t1 = e2.addr;
                            assert(links_to(m, t2, i2, t1));
                            assert(m.dom().contains(t1));
                            assert(t1 != f);
                            if t1 == b0 && i1 == i0 {
                                assert(walk(m, root, a) == WalkResult::Absent);
                                assert(entry_at(m1, t1, i1) == link_entry(f));
                                assert(walk(m1, root, a) == WalkResult::Absent);
                            } else {
                                assert(entry_at(m1, t1, i1) == entry_at(m, t1, i1));
                            }
                        }
                    }
                }
            }
        }
    }
}

/// Writing a leaf entry at the end of page `p`'s path binds exactly `p`'s
/// page: every address sharing `p`'s page now translates to the new leaf,
/// and—because the hierarchy is a tree—no other address's translation
/// changes.
pub proof fn lemma_write_leaf(
    m: Map<u64, TableModel>, m1: Map<u64, TableModel>, root: u64,
    p: u64, t3: u64, t2: u64, t1: u64, e_new: PageTableEntry,
)
    requires
        inv(m, root),
        links_to(m, root, l4_index(p), t3),
        links_to(m, t3, l3_index(p), t2),
        links_to(m, t2, l2_index(p), t1),
        e_new.is_link(),
        e_new.wf(),
        m1 == m.insert(t1, TableModel {
            level: m[t1].level,
            entries: m[t1].entries.update(l1_index(p), e_new),
        }),
    ensures
        inv(m1, root),
        forall|a: u64| same_page(a, p) ==> #[trigger] walk(m1, root, a) == WalkResult::Mapped(e_new),
        forall|a: u64| !same_page(a, p) ==> #[trigger] walk(m1, root, a) == walk(m, root, a),
        forall|x: u64| #[trigger] m1.dom().contains(x) <==> m.dom().contains(x),
        forall|b: u64, i: int, t: u64| #[trigger] links_to(m, b, i, t) ==> links_to(m1, b, i, t),
{
    lemma_index_bounds(p);
    assert(m.dom().contains(t1) && m[t1].level == 1);
    assert(m.dom().contains(t2) && m[t2].level == 2);
    assert(m.dom().contains(t3) && m[t3].level == 3);
    // a level-1 table never links, so the link structure is untouched
    assert forall|b: u64, i: int, t: u64| #[trigger] links_to(m1, b, i, t) implies
        links_to(m, b, i, t) by {
        if b == t1 {
            assert(m1[t1].level == 1);
        } else {
            assert(m1[b] == m[b]);
        }
    }
    assert forall|b: u64, i: int, t: u64| #[trigger] links_to(m, b, i, t) implies
        links_to(m1, b, i, t) by {
        if b == t1 {
            assert(m[t1].level == 1);
        } else {
            assert(m1[b] == m[b]);
        }
    }
    assert(inv(m1, root)) by {
        assert forall|b: u64| #[trigger] m1.dom().contains(b) implies table_model_wf(m1[b]) by {
            if b == t1 {
                assert forall|i: int| 0 <= i < 512 implies (#[trigger] m1[t1].entries[i]).wf() by {
                    if i != l1_index(p) {
                        assert(m1[t1].entries[i] == m[t1].entries[i]);
                    }
                }
            } else {
                assert(m1[b] == m[b]);
            }
        }
    }
    assert forall|a: u64| same_page(a, p) implies
        #[trigger] walk(m1, root, a) == WalkResult::Mapped(e_new) by {
        assert(root != t1 && t3 != t1 && t2 != t1);
        assert(entry_at(m1, root, l4_index(a)) == entry_at(m, root, l4_index(p)));
        assert(entry_at(m1, t3, l3_index(a)) == entry_at(m, t3, l3_index(p)));
        assert(entry_at(m1, t2, l2_index(a)) == entry_at(m, t2, l2_index(p)));
        assert(entry_at(m1, t1, l1_index(a)) == e_new);
    }
    assert forall|a: u64| !same_page(a, p) implies
        #[trigger] walk(m1, root, a) == walk(m, root, a) by {
        lemma_index_bounds(a);
        lemma_walk_unchanged_by_leaf(m, m1, root, p, t3, t2, t1, e_new, a);
    }
}

/// An address is unmapped exactly when its path is neither blocked by a huge
/// parent entry nor ends in a present leaf.
pub proof fn lemma_walk_absent_characterization(m: Map<u64, TableModel>, root: u64, a: u64)
    ensures
        (walk(m, root, a) is Absent) <==> {
            &&& !parent_huge(m, root, a)
            &&& !(l1_entry(m, root, a) matches Some(e) && e.present)
        },
{
}

/// Translation reads nothing of an address but its four indices, so two
/// addresses of one page always translate alike.
pub proof fn lemma_same_page_same_walk(m: Map<u64, TableModel>, root: u64, a: u64, b: u64)
    requires
        same_page(a, b),
    ensures
        walk(m, root, a) == walk(m, root, b),
{
}

/// One hardware page table as held in the window: the physical base of the
/// frame holding it, its hierarchy level, and its 512 entries.
pub struct PageTable {
    pub base: u64,
    pub level: u64,
    pub entries: Vec<PageTableEntry>,
}

/// Model of one held table.
pub open spec fn model_of(t: PageTable) -> TableModel {
    TableModel { level: t.level as int, entries: t.entries@ }
}

/// The physical-memory window: the page tables, addressed by the physical
/// base of the frame holding each. All table access goes through the typed
/// accessors below.
pub struct PhysMemory {
    pub tables: Vec<PageTable>,
}

impl PhysMemory {
    /// Representation invariant: one table per base, 512 entries each.
    pub open spec fn rep_wf(self) -> bool {
        &&& forall|i: int, j: int| 0 <= i < j < self.tables@.len()
                ==> (#[trigger] self.tables@[i]).base != (#[trigger] self.tables@[j]).base
        &&& forall|i: int| 0 <= i < self.tables@.len()
                ==> (#[trigger] self.tables@[i]).entries@.len() == 512
    }

    /// A table based at `b` is held in the window.
    pub open spec fn contains_base(self, b: u64) -> bool {
        exists|i: int| 0 <= i < self.tables@.len() && (#[trigger] self.tables@[i]).base == b
    }

    pub open spec fn base_index(self, b: u64) -> int {
        choose|i: int| 0 <= i < self.tables@.len() && (#[trigger] self.tables@[i]).base == b
    }

    pub open spec fn model_at(self, b: u64) -> TableModel {
        model_of(self.tables@[self.base_index(b)])
    }

    /// With distinct bases, the table at any held index is the model the
    /// view assigns to its base.
    pub proof fn lemma_model_at(self, i: int)
        requires
            self.rep_wf(),
            0 <= i < self.tables@.len(),
        ensures
            self@.dom().contains(self.tables@[i].base),
            self@[self.tables@[i].base] == model_of(self.tables@[i]),
            self.base_index(self.tables@[i].base) == i,
    {
        let b = self.tables@[i].base;
        assert(self.contains_base(b));
        let j = self.base_index(b);
        assert(0 <= j < self.tables@.len() && self.tables@[j].base == b);
        if i != j {
            assert(self.tables@[i].base != self.tables@[j].base);
        }
    }

    fn find(&self, b: u64) -> (r: Option<usize>)
        requires
            self.rep_wf(),
        ensures
            match r {
                Some(j) => j < self.tables@.len() && self.tables@[j as int].base == b
                    && self@.dom().contains(b)
                    && self@[b] == model_of(self.tables@[j as int]),
                None => !self@.dom().contains(b),
            },
    {
        let mut i: usize = 0;
        while i < self.tables.len()
            invariant
                self.rep_wf(),
                i <= self.tables@.len(),
                forall|k: int| 0 <= k < i ==> (#[trigger] self.tables@[k]).base != b,
            decreases self.tables@.len() - i,
        {
            if self.tables[i].base == b {
                proof {
                    self.lemma_model_at(i as int);
                }
                return Some(i);
            }
            i += 1;
        }
        proof {
            if self.contains_base(b) {
                let j = self.base_index(b);
                assert(self.tables@[j].base == b);
            }
        }
        None
    }

    /// Read the entry at index `idx` of the table based at `b`.
    pub fn read_entry(&self, b: u64, idx: usize) -> (r: PageTableEntry)
        requires
            self.rep_wf(),
            self@.dom().contains(b),
            idx < 512,
        ensures
            r == entry_at(self@, b, idx as int),
    {
        match self.find(b) {
            Some(j) => self.tables[j].entries[idx],
            None => {
                proof {
                    assert(false);
                }
                PageTableEntry { present: false, writable: false, huge: false, addr: 0 }
            }
        }
    }

    /// Replace the entry at index `idx` of the table based at `b`.
    pub fn write_entry(&mut self, b: u64, idx: usize, e: PageTableEntry)
        requires
            old(self).rep_wf(),
            old(self)@.dom().contains(b),
            idx < 512,
        ensures
            final(self).rep_wf(),
            final(self)@ == old(self)@.insert(b, TableModel {
                level: old(self)@[b].level,
                entries: old(self)@[b].entries.update(idx as int, e),
            }),
    {
        let j = match self.find(b) {
            Some(j) => j,
            None => {
                proof {
                    assert(false);
                }
                0
            }
        };
        let ghost before = *self;
        self.tables[j].entries[idx] = e;
        proof {
            let t0 = before.tables@;
            let t1 = self.tables@;
            assert(t1.len() == t0.len());
            assert(t1[j as int].base == b);
            assert(t1[j as int].level == t0[j as int].level);
            assert(t1[j as int].entries@ == t0[j as int].entries@.update(idx as int, e));
            assert(forall|i: int| 0 <= i < t1.len() && i != j ==> t1[i] == t0[i]);
            assert(forall|i: int| 0 <= i < t1.len()
                ==> (#[trigger] t1[i]).base == t0[i].base && t1[i].entries@.len() == 512);
            assert(self.rep_wf());
            before.lemma_model_at(j as int);
            self.lemma_view_after_update(before, j as int, b, TableModel {
                level: before@[b].level,
                entries: before@[b].entries.update(idx as int, e),
            });
        }
    }

    /// After replacing the table at vector position `j` (same base `b`, same
    /// entry count) the view is the old view with `b` remapped.
    proof fn lemma_view_after_update(self, before: PhysMemory, j: int, b: u64, tm: TableModel)
        requires
            before.rep_wf(),
            self.rep_wf(),
            0 <= j < before.tables@.len(),
            self.tables@.len() == before.tables@.len(),
            before.tables@[j].base == b,
            self.tables@[j].base == b,
            model_of(self.tables@[j]) == tm,
            forall|i: int| 0 <= i < self.tables@.len() && i != j
                ==> self.tables@[i] == before.tables@[i],
        ensures
            self@ == before@.insert(b, tm),
    {
        assert forall|k: u64| #[trigger] self@.dom().contains(k)
            <==> before@.insert(b, tm).dom().contains(k) by {
            if self.contains_base(k) {
                let i = self.base_index(k);
                before.lemma_model_at(i);
            }
            if k == b {
                assert(self.tables@[j].base == k);
                assert(self.contains_base(k));
            } else if before.contains_base(k) {
                let i = before.base_index(k);
                assert(self.tables@[i].base == k);
                assert(self.contains_base(k));
            }
        }
        assert forall|k: u64| self@.dom().contains(k) implies
            self@[k] == before@.insert(b, tm)[k] by {
            let i = self.base_index(k);
            self.lemma_model_at(i);
            if k == b {
                if i != j {
                    assert(self.tables@[i].base != self.tables@[j].base);
                }
                assert(i == j);
            } else {
                assert(i != j);
                before.lemma_model_at(i);
            }
        }
        assert(self@ =~= before@.insert(b, tm));
    }

    /// Install a fresh, empty table at an unoccupied base.
    pub fn add_table(&mut self, base: u64, level: u64)
        requires
            old(self).rep_wf(),
            !old(self)@.dom().contains(base),
        ensures
            final(self).rep_wf(),
            final(self)@ == old(self)@.insert(base, TableModel {
                level: level as int,
                entries: empty_entries(),
            }),
    {
        let ghost before = *self;
        let entries = empty_entries_vec();
        self.tables.push(PageTable { base, level, entries });
        proof {
            let n = before.tables@.len() as int;
            assert forall|i: int| 0 <= i < n implies (#[trigger] self.tables@[i]).base != base by {
                before.lemma_model_at(i);
            }
            assert(self.rep_wf());
            assert forall|k: u64| #[trigger] self@.dom().contains(k)
                <==> before@.insert(base, TableModel { level: level as int, entries: empty_entries() }).dom().contains(k) by {
                if self.contains_base(k) {
                    let i = self.base_index(k);
                    if i < n {
                        before.lemma_model_at(i);
                    }
                }
                if k == base {
                    assert(self.tables@[n].base == k);
                    assert(self.contains_base(k));
                } else if before.contains_base(k) {
                    let i = before.base_index(k);
                    assert(self.tables@[i].base == k);
                    assert(self.contains_base(k));
                }
            }
            assert forall|k: u64| self@.dom().contains(k) implies
                self@[k] == before@.insert(base, TableModel { level: level as int, entries: empty_entries() })[k] by {
                let i = self.base_index(k);
                self.lemma_model_at(i);
                if k == base {
                    if i < n {
                        before.lemma_model_at(i);
                    }
                    assert(i == n);
                } else {
                    assert(i != n);
                    before.lemma_model_at(i);
                }
            }
            assert(self@ =~= before@.insert(base, TableModel { level: level as int, entries: empty_entries() }));
        }
    }

    /// An empty window: no tables at all.
    pub fn new() -> (r: PhysMemory)
        ensures
            r.rep_wf(),
            r@ == Map::<u64, TableModel>::empty(),
    {
        let r = PhysMemory { tables: Vec::new() };
        proof {
            assert forall|k: u64| !(#[trigger] r@.dom().contains(k)) by {
                if r.contains_base(k) {
                    let i = r.base_index(k);
                }
            }
            assert(r@ =~= Map::<u64, TableModel>::empty());
        }
        r
    }
}

impl View for PhysMemory {
    type V = Map<u64, TableModel>;

    open spec fn view(&self) -> Map<u64, TableModel> {
        Map::new(|b: u64| self.contains_base(b), |b: u64| self.model_at(b))
    }
}

/// A vector of 512 cleared entries.
fn empty_entries_vec() -> (r: Vec<PageTableEntry>)
    ensures
        r@ == empty_entries(),
{
    let mut v: Vec<PageTableEntry> = Vec::new();
    let mut i: usize = 0;
    while i < 512
        invariant
            i <= 512,
            v@.len() == i,
            forall|k: int| 0 <= k < i ==> v@[k] == absent_entry(),
        decreases 512 - i,
    {
        v.push(PageTableEntry { present: false, writable: false, huge: false, addr: 0 });
        i += 1;
    }
    proof {
        assert(v@ =~= empty_entries());
    }
    v
}

/// Case analysis for `lemma_write_leaf`: an address of another page either
/// leaves `p`'s path before level 1, and then—since no two slots link to
/// the same table—never reaches `p`'s level-1 table, or shares the whole
/// path and differs only in its level-1 index.
proof fn lemma_walk_unchanged_by_leaf(
    m: Map<u64, TableModel>, m1: Map<u64, TableModel>, root: u64,
    p: u64, t3: u64, t2: u64, t1: u64, e_new: PageTableEntry, a: u64,
)
    requires
        inv(m, root),
        links_to(m, root, l4_index(p), t3),
        links_to(m, t3, l3_index(p), t2),
        links_to(m, t2, l2_index(p), t1),
        !same_page(a, p),
        m1 == m.insert(t1, TableModel {
            level: m[t1].level,
            entries: m[t1].entries.update(l1_index(p), e_new),
        }),
    ensures
        walk(m1, root, a) == walk(m, root, a),
{
    lemma_index_bounds(a);
    lemma_index_bounds(p);
    assert(m.dom().contains(t1) && m[t1].level == 1);
    assert(m.dom().contains(t2) && m[t2].level == 2);
    assert(m.dom().contains(t3) && m[t3].level == 3);
    let i4 = l4_index(a);
    let i3 = l3_index(a);
    let i2 = l2_index(a);
    let i1 = l1_index(a);
    assert(root != t1);
    assert(entry_at(m1, root, i4) == entry_at(m, root, i4));
    let e4 = entry_at(m, root, i4);
    if e4.is_link() {
        let x3 = e4.addr;
        assert(links_to(m, root, i4, x3));
        assert(m.dom().contains(x3) && m[x3].level == 3);
        assert(x3 != t1);
        assert(entry_at(m1, x3, i3) == entry_at(m, x3, i3));
        let e3 = entry_at(m, x3, i3);
        if e3.is_link() {
            let x2 = e3.addr;
            assert(links_to(m, x3, i3, x2));
            assert(m.dom().contains(x2) && m[x2].level == 2);
            assert(x2 != t1);
            assert(entry_at(m1, x2, i2) == entry_at(m, x2, i2));
            let e2 = entry_at(m, x2, i2);
            if e2.is_link() {
                let x1 = e2.addr;
                assert(links_to(m, x2, i2, x1));
                if x1 == t1 {
                    // climb the unique chain of parents: the paths coincide
                    assert(x2 == t2 && i2 == l2_index(p));
                    assert(x3 == t3 && i3 == l3_index(p));
                    assert(i4 == l4_index(p));
                    assert(i1 != l1_index(p));
                    assert(entry_at(m1, t1, i1) == entry_at(m, t1, i1));
                } else {
                    assert(entry_at(m1, x1, i1) == entry_at(m, x1, i1));
                }
            }
        }
    }
}

} // verus!
