//! Facts on the bit operations the kernel uses: masks and shifts of
//! addresses and of words, each the arithmetic it stands for.

use vstd::prelude::*;

verus! {

/// The masks and shifts of an address by page, word, byte and directory
/// sizes are the divisions and remainders they stand for; a small number
/// shifted by a page is multiplied by a page.
pub proof fn lemma_usize_bits(x: usize)
    ensures
        x & !0xfffusize == x - x % 4096,
        x & !0x7usize == x - x % 8,
        x >> 12usize == x / 4096,
        x >> 5usize == x / 32,
        x & 31usize == x % 32,
        x >> 3usize == x / 8,
        x & 7usize == x % 8,
        x & 1023usize == x % 1024,
        (x >> 22usize) & 0x3ffusize == (x / 0x40_0000) % 1024,
        (x >> 12usize) & 0x3ffusize == (x / 0x1000) % 1024,
        x < 0x10_0000 ==> x << 12usize == x * 4096,
{
    assert({
        &&& x & !0xfffusize == x - x % 4096
        &&& x & !0x7usize == x - x % 8
        &&& x >> 12usize == x / 4096
        &&& x >> 5usize == x / 32
        &&& x & 31usize == x % 32
        &&& x >> 3usize == x / 8
        &&& x & 7usize == x % 8
        &&& x & 1023usize == x % 1024
        &&& (x >> 22usize) & 0x3ffusize == (x / 0x40_0000) % 1024
        &&& (x >> 12usize) & 0x3ffusize == (x / 0x1000) % 1024
        &&& (x < 0x10_0000 ==> x << 12usize == x * 4096)
    }) by (bit_vector);
}

/// The masks and shifts of a word by page and word sizes are the
/// divisions and remainders they stand for.
pub proof fn lemma_u32_bits(x: u32)
    ensures
        x & !0xfffu32 == x - x % 4096,
        x >> 12u32 == x / 4096,
        x >> 5u32 == x / 32,
        x & 31u32 == x % 32,
        (x >> 2u32) & 0x1fu32 < 32,
{
    assert({
        &&& x & !0xfffu32 == x - x % 4096
        &&& x >> 12u32 == x / 4096
        &&& x >> 5u32 == x / 32
        &&& x & 31u32 == x % 32
        &&& (x >> 2u32) & 0x1fu32 < 32
    }) by (bit_vector);
}

/// Facts on constants: the flags of a page table entry and of the Status
/// register combine as their sum, and a zero word has no bit set.
pub proof fn lemma_const_bits()
    ensures
        0x80u32 | 0x100u32 == 0x180u32,
        0x8000u32 | 0x1u32 | 0x2u32 | 0x10u32 == 0x8013u32,
        0u32 & 0x80u32 == 0,
        forall|k: u32| #![trigger (0u32 >> k)] k < 32 ==> (0u32 >> k) & 1u32 == 0u32,
        forall|k: u8| #![trigger (0u8 >> k)] k < 8 ==> (0u8 >> k) & 1u8 == 0u8,
        4096usize == 1usize << 12usize,
        0x40_0000usize == 1usize << 22usize,
        0x40u32 == 1u32 << 6u32,
        0x80u32 == 2u32 << 6u32,
        0x100u32 == 4u32 << 6u32,
        0x600u32 == 0x18u32 << 6u32,
{
    assert({
        &&& 0x80u32 | 0x100u32 == 0x180u32
        &&& 0x8000u32 | 0x1u32 | 0x2u32 | 0x10u32 == 0x8013u32
        &&& 0u32 & 0x80u32 == 0
        &&& 4096usize == 1usize << 12usize
        &&& 0x40_0000usize == 1usize << 22usize
        &&& 0x40u32 == 1u32 << 6u32
        &&& 0x80u32 == 2u32 << 6u32
        &&& 0x100u32 == 4u32 << 6u32
        &&& 0x600u32 == 0x18u32 << 6u32
    }) by (bit_vector);
    assert forall|k: u32| #![trigger (0u32 >> k)] k < 32 implies (0u32 >> k) & 1u32 == 0u32 by {
        assert(((0u32 >> k) & 1u32 == 0u32) && ((0u8 >> (k as u8)) & 1u8 == 0u8)) by (bit_vector)
            requires
                k < 32,
        ;
    }
    assert forall|k: u8| #![trigger (0u8 >> k)] k < 8 implies (0u8 >> k) & 1u8 == 0u8 by {
        assert(((0u32 >> (k as u32)) & 1u32 == 0u32) && ((0u8 >> k) & 1u8 == 0u8)) by (bit_vector)
            requires
                k < 8,
        ;
    }
}

} // verus!
