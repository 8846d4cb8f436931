//! Virtual-address structure: a 64-bit virtual address decomposes into four
//! 9-bit page-table indices (one per hierarchy level) and a 12-bit in-page
//! offset. Physical addresses are 52-bit; frames and pages are 4096-byte
//! aligned units.

use vstd::prelude::*;

verus! {

/// Size of a page or frame in bytes.
pub const PAGE_SIZE: u64 = 4096;

/// One past the largest physical address (52-bit physical address space).
pub const MAX_PHYS_ADDR: u64 = 0x10_0000_0000_0000;

/// One past the largest low-half canonical virtual address (bit 47 clear).
pub const LOW_HALF_END: u64 = 0x8000_0000_0000;

/// Level-4 page-table index of a virtual address: bits 39..48.
pub open spec fn l4_index(a: u64) -> int {
    ((a >> 39) & 0x1ff) as int
}

/// Level-3 page-table index of a virtual address: bits 30..39.
pub open spec fn l3_index(a: u64) -> int {
    ((a >> 30) & 0x1ff) as int
}

/// Level-2 page-table index of a virtual address: bits 21..30.
pub open spec fn l2_index(a: u64) -> int {
    ((a >> 21) & 0x1ff) as int
}

/// Level-1 page-table index of a virtual address: bits 12..21.
pub open spec fn l1_index(a: u64) -> int {
    ((a >> 12) & 0x1ff) as int
}

/// In-page offset of a virtual address: bits 0..12.
pub open spec fn page_offset(a: u64) -> int {
    (a & 0xfff) as int
}

/// Two virtual addresses lie in the same page exactly when all four of their
/// page-table indices agree; bits 48..64 play no part in translation.
pub open spec fn same_page(a: u64, b: u64) -> bool {
    l4_index(a) == l4_index(b) && l3_index(a) == l3_index(b)
        && l2_index(a) == l2_index(b) && l1_index(a) == l1_index(b)
}

/// The base address of the page holding `a`, with the untranslated bits
/// 48..64 cleared: the canonical representative of `a`'s page.
pub open spec fn page_base(a: u64) -> u64 {
    (a >> 12) << 12 & 0xffff_ffff_ffff
}

/// Each page-table index is a valid position in a 512-entry table.
pub proof fn lemma_index_bounds(a: u64)
    by (bit_vector)
    ensures
        0 <= l4_index(a) < 512,
        0 <= l3_index(a) < 512,
        0 <= l2_index(a) < 512,
        0 <= l1_index(a) < 512,
        0 <= page_offset(a) < 4096,
{
}

/// For a low-half address, sharing a page with `a` is the same as having
/// `a`'s page base, and the page base is where expected.
pub proof fn lemma_page_base(a: u64, b: u64)
    by (bit_vector)
    requires
        b < 0x8000_0000_0000,
        b % 4096 == 0,
    ensures
        same_page(a, b) <==> page_base(a) == b,
        page_base(b) == b,
{
}

/// A page base is aligned and carries only translated bits.
pub proof fn lemma_page_base_aligned(a: u64)
    by (bit_vector)
    ensures
        page_base(a) % 4096 == 0,
        page_base(a) < 0x1_0000_0000_0000,
{
}

/// Aligning down is monotone.
pub proof fn lemma_align_down_monotone(a: u64, b: u64)
    by (bit_vector)
    requires
        a <= b,
    ensures
        a - a % 4096 <= b - b % 4096,
{
}

/// Two aligned values less than a page apart are equal.
pub proof fn lemma_aligned_close(a: u64, b: u64)
    by (bit_vector)
    requires
        a % 4096 == 0,
        b % 4096 == 0,
        b <= a,
        a < b + 4096,
    ensures
        a == b,
{
}

/// An aligned value less than one page past an aligned bound is within it.
pub proof fn lemma_aligned_le(x: u64, y: u64)
    by (bit_vector)
    requires
        x % 4096 == 0,
        y % 4096 == 0,
        y < 0x8000_0000_0000,
        x < y + 4096,
    ensures
        x <= y,
{
}

/// Aligning down yields an aligned value no greater than the input.
pub proof fn lemma_align_down_props(a: u64)
    by (bit_vector)
    ensures
        (a - a % 4096) % 4096 == 0,
        a - a % 4096 <= a,
{
}

/// A 4096-byte-aligned unit of physical memory, identified by its physical
/// base address.
#[derive(Clone, Copy, PartialEq, Eq, Structural, Debug)]
pub struct Frame {
    pub base: u64,
}

impl Frame {
    pub open spec fn wf(self) -> bool {
        self.base % PAGE_SIZE == 0 && self.base < MAX_PHYS_ADDR
    }
}

/// A 4096-byte-aligned unit of virtual address space, identified by its base
/// address; this design works in the low canonical half.
#[derive(Clone, Copy, PartialEq, Eq, Structural, Debug)]
pub struct Page {
    pub base: u64,
}

impl Page {
    pub open spec fn wf(self) -> bool {
        self.base % PAGE_SIZE == 0 && self.base < LOW_HALF_END
    }
}

/// Relies on x86_64::VirtAddr::p4_index (on the canonical form from
/// new_truncate, which keeps bits 0..48): the 9-bit level-4 table index,
/// bits 39..48 of the address.
#[verifier::external_body]
pub(crate) fn p4_index_of(a: u64) -> (r: usize)
    ensures
        r as int == l4_index(a),
{
    usize::from(x86_64::VirtAddr::new_truncate(a).p4_index())
}

/// Relies on x86_64::VirtAddr::p3_index: the 9-bit level-3 table index,
/// bits 30..39 of the address.
#[verifier::external_body]
pub(crate) fn p3_index_of(a: u64) -> (r: usize)
    ensures
        r as int == l3_index(a),
{
    usize::from(x86_64::VirtAddr::new_truncate(a).p3_index())
}

/// Relies on x86_64::VirtAddr::p2_index: the 9-bit level-2 table index,
/// bits 21..30 of the address.
#[verifier::external_body]
pub(crate) fn p2_index_of(a: u64) -> (r: usize)
    ensures
        r as int == l2_index(a),
{
    usize::from(x86_64::VirtAddr::new_truncate(a).p2_index())
}

/// Relies on x86_64::VirtAddr::p1_index: the 9-bit level-1 table index,
/// bits 12..21 of the address.
#[verifier::external_body]
pub(crate) fn p1_index_of(a: u64) -> (r: usize)
    ensures
        r as int == l1_index(a),
{
    usize::from(x86_64::VirtAddr::new_truncate(a).p1_index())
}

/// Relies on x86_64::VirtAddr::page_offset: the 12-bit in-page offset,
/// bits 0..12 of the address.
#[verifier::external_body]
pub(crate) fn page_offset_of(a: u64) -> (r: u64)
    ensures
        r as int == page_offset(a),
{
    u64::from(x86_64::VirtAddr::new_truncate(a).page_offset())
}

/// Relies on x86_64::structures::paging::Page::containing_address: the
/// 4096-byte-aligned base of the page holding the address. VirtAddr::new
/// panics on a non-canonical address, so the address must lie in the low
/// canonical half.
#[verifier::external_body]
pub(crate) fn page_containing_address(a: u64) -> (r: u64)
    requires
        a < LOW_HALF_END,
    ensures
        r == a - a % 4096,
{
    let page: x86_64::structures::paging::Page<x86_64::structures::paging::Size4KiB> =
        x86_64::structures::paging::Page::containing_address(x86_64::VirtAddr::new(a));
    page.start_address().as_u64()
}

/// Sharing a page is transitive through a common page.
pub proof fn lemma_same_page_transitive(a: u64, b: u64, p: u64)
    requires
        same_page(a, p),
        same_page(b, p),
    ensures
        same_page(a, b),
{
}

} // verus!
