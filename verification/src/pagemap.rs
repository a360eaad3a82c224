//! Translating a virtual address through `/proc/<pid>/pagemap`.
//!
//! The pagemap file holds one little-endian 64-bit entry per virtual page.
//! Bit 63 of an entry says whether the page is present in memory; bits 0 to
//! 54 hold its page frame number.
use vstd::prelude::*;

verus! {

/// The number that little-endian bytes denote.
pub open spec fn le_value(b: Seq<u8>) -> nat
    decreases b.len(),
{
    if b.len() == 0 {
        0
    } else {
        b[0] as nat + 256 * le_value(b.drop_first())
    }
}

/// Whether a pagemap entry says that its page is present (bit 63).
pub open spec fn page_present(entry: u64) -> bool {
    entry >= 0x8000_0000_0000_0000
}

/// The page frame number of a pagemap entry (bits 0 to 54).
pub open spec fn page_frame(entry: u64) -> nat {
    (entry % 0x80_0000_0000_0000) as nat
}

/// Byte offset of the pagemap entry for the page holding `vaddr`.
pub fn pagemap_offset(vaddr: u64, page_size: u64) -> (r: u64)
    requires
        page_size > 0,
        (vaddr / page_size) * 8 <= u64::MAX,
    ensures
        r == (vaddr / page_size) * 8,
{
    (vaddr / page_size) * 8
}

/// The 64-bit value of a pagemap entry read as eight little-endian bytes.
pub fn pagemap_entry(bytes: &[u8]) -> (r: u64)
    requires
        bytes@.len() == 8,
    ensures
        r as nat == le_value(bytes@),
{
    let ghost b = bytes@;
    assert(b.skip(8) =~= Seq::<u8>::empty());
    let mut v: u64 = 0;
    let mut i: usize = 8;
    while i > 0
        invariant
            i <= 8,
            b == bytes@,
            b.len() == 8,
            v as nat == le_value(b.skip(i as int)),
            i == 8 ==> v == 0,
            i == 7 ==> v < 0x100,
            i == 6 ==> v < 0x1_0000,
            i == 5 ==> v < 0x100_0000,
            i == 4 ==> v < 0x1_0000_0000,
            i == 3 ==> v < 0x100_0000_0000,
            i == 2 ==> v < 0x1_0000_0000_0000,
            i == 1 ==> v < 0x100_0000_0000_0000,
        decreases i,
    {
        let byte = bytes[i - 1];
        assert(b.skip(i - 1).drop_first() =~= b.skip(i as int));
        assert(b.skip(i - 1)[0] == byte);
        v = v * 256 + byte as u64;
        i = i - 1;
    }
    assert(b.skip(0) =~= b);
    v
}

/// The physical address of `vaddr` given the pagemap entry of its page:
/// `None` where the page is not present, else the frame's address plus the
/// offset of `vaddr` in its page.
pub fn physical_address(entry: u64, vaddr: u64, page_size: u64) -> (r: Option<u64>)
    requires
        page_size > 0,
        page_present(entry) ==> page_frame(entry) * page_size + vaddr % page_size <= u64::MAX,
    ensures
        page_present(entry) ==> r == Some(
            (page_frame(entry) * page_size + vaddr % page_size) as u64,
        ),
        !page_present(entry) ==> r is None,
{
    let present = entry & (1u64 << 63u64) != 0;
    assert(present == (entry >= 0x8000_0000_0000_0000)) by (bit_vector)
        requires
            present == (entry & (1u64 << 63u64) != 0),
    ;
    if !present {
        return None;
    }
    let pfn = entry & 0x7f_ffff_ffff_ffffu64;
    assert(pfn == entry % 0x80_0000_0000_0000) by (bit_vector)
        requires
            pfn == entry & 0x7f_ffff_ffff_ffffu64,
    ;
    Some(pfn * page_size + vaddr % page_size)
}

/// The page frame number of a pagemap entry.
pub fn frame_number(entry: u64) -> (r: u64)
    ensures
        r as nat == page_frame(entry),
{
    let pfn = entry & 0x7f_ffff_ffff_ffffu64;
    assert(pfn == entry % 0x80_0000_0000_0000) by (bit_vector)
        requires
            pfn == entry & 0x7f_ffff_ffff_ffffu64,
    ;
    pfn
}

/// Whether a pagemap entry says that its page is present.
pub fn is_present(entry: u64) -> (b: bool)
    ensures
        b == page_present(entry),
{
    let present = entry & (1u64 << 63u64) != 0;
    assert(present == (entry >= 0x8000_0000_0000_0000)) by (bit_vector)
        requires
            present == (entry & (1u64 << 63u64) != 0),
    ;
    present
}

} // verus!
