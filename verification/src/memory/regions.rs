//! The address-space layout of the kernel and of the user, the page table
//! entry flags, and the address conversions between them.
//!
//! A 32-bit virtual address is split as follows:
//! ```text
//! | 31                 22 | 21             12 | 11           0 |
//! | Page Directory Offset | Page Table Offset | In-Page Offset |
//! ```
//! A page table entry holds the physical frame in its bits 31..12 and the
//! flags in its bits 11..0.

use vstd::prelude::*;

verus! {

/// Shifted the *In-Page Offset* out to get the **Page Table Offset**.
pub const PGSHIFT: usize = 12;

/// Shifted the *Page Table Offset* and *In-Page Offset* out to get the
/// **Page Directory Offset**.
pub const PDSHIFT: usize = 22;

/// The maximum count of all the **asid**s.
pub const NASID: u32 = 256;

/// Global bit: a TLB entry with it matches regardless of the ASID.
pub const PTE_G: u32 = 0x0040;

/// Valid bit. If 0, any address matching this entry causes a TLB miss.
pub const PTE_V: u32 = 0x0080;

/// Dirty bit, really a write-enable bit.
pub const PTE_D: u32 = 0x0100;

/// Cache Coherency Attributes bits: the entry is cacheable.
pub const PTE_C_CACHEABLE: u32 = 0x0600;

/// The physical page size (in bytes).
pub const PAGE_SIZE: usize = 4096;

/// Bytes mapped by a page directory entry.
pub const PDMAP: usize = 0x40_0000;

/// Kernel memory starts from here.
pub const KERNBASE: usize = 0x8002_0000;

/// The high limit of the user's memory.
pub const ULIM: usize = 0x8000_0000;

/// Kernel stack top.
pub const KSTACKTOP: usize = 0x8040_0000;

/// User's page tables are mapped here (for a [PDMAP] size).
pub const UVPT: usize = 0x7fc0_0000;

/// The kernel array of pages is mapped here.
pub const UPAGES: usize = 0x7f80_0000;

/// The kernel array of envs is mapped here.
pub const UENVS: usize = 0x7f40_0000;

/// The user's space higher boundary.
pub const UTOP: usize = 0x7f40_0000;

/// The exception stack top for the user.
pub const UXSTACKTOP: usize = 0x7f40_0000;

/// Normal user stack top.
pub const USTACKTOP: usize = 0x7f3f_e000;

/// User text segment start.
pub const UTEXT: usize = 0x40_0000;

/// Reserved for copy-on-write (start address).
pub const UCOW: usize = 0x3f_f000;

/// Reserved for temporary usage (start address).
pub const UTEMP: usize = 0x3f_e000;

/// The KSEG1 segment, uncached access to the devices.
pub const KSEG1: usize = 0xA000_0000;

/// The layout constants are derived from one another: each region lies
/// one page directory map, or a page or two, below the one above it.
pub proof fn lemma_layout()
    ensures
        PAGE_SIZE == 1usize << PGSHIFT,
        PDMAP == 1usize << PDSHIFT,
        KSTACKTOP == ULIM + PDMAP,
        UVPT == ULIM - PDMAP,
        UPAGES == UVPT - PDMAP,
        UENVS == UPAGES - PDMAP,
        UTOP == UENVS,
        UXSTACKTOP == UTOP,
        USTACKTOP == UTOP - 2 * PAGE_SIZE,
        UTEXT == PDMAP,
        UCOW == UTEXT - PAGE_SIZE,
        UTEMP == UCOW - PAGE_SIZE,
        PTE_G == 1u32 << 6u32,
        PTE_V == 2u32 << 6u32,
        PTE_D == 4u32 << 6u32,
        PTE_C_CACHEABLE == 0x18u32 << 6u32,
{
    crate::utils::bits::lemma_const_bits();
}

/// The page directory index of a virtual address.
pub open spec fn pdx_spec(va: int) -> int {
    (va / 0x40_0000) % 1024
}

/// The page table index of a virtual address.
pub open spec fn ptx_spec(va: int) -> int {
    (va / 0x1000) % 1024
}

/// Get the **Page Directory Offset** from the virtual address.
pub fn pdx(va: usize) -> (r: usize)
    ensures
        r == pdx_spec(va as int),
        r < 1024,
{
    proof {
        crate::utils::bits::lemma_usize_bits(va);
    }
    (va >> PDSHIFT) & 0x3FF
}

/// Get the **Page Table Offset** from the virtual address.
pub fn ptx(va: usize) -> (r: usize)
    ensures
        r == ptx_spec(va as int),
        r < 1024,
{
    proof {
        crate::utils::bits::lemma_usize_bits(va);
    }
    (va >> PGSHIFT) & 0x3FF
}

/// Get the page number of a physical address.
pub fn ppn(pa: usize) -> (r: usize)
    ensures
        r == pa / 4096,
{
    proof {
        crate::utils::bits::lemma_usize_bits(pa);
    }
    pa >> PGSHIFT
}

/// Get the frame address from a page table entry, dropping the flags.
pub fn pte_addr(pte: u32) -> (r: u32)
    ensures
        r == pte - pte % 4096,
        r % 4096 == 0,
{
    proof {
        crate::utils::bits::lemma_u32_bits(pte);
    }
    pte & !0xFFF
}

/// The physical address of a kernel-segment virtual address. The address
/// must be in the kernel segment.
pub fn paddr(x: usize) -> (r: usize)
    requires
        x >= ULIM,
    ensures
        r == x - ULIM,
{
    x - ULIM
}

/// The kernel-segment virtual address of a physical address.
pub fn kaddr(x: usize) -> (r: usize)
    requires
        x + ULIM <= usize::MAX,
    ensures
        r == x + ULIM,
{
    x + ULIM
}

/// The mask with the bits `l` to `h` (inclusive, counted from the least
/// significant bit) set, in a 32-bit word.
pub fn gen_mask(h: u32, l: u32) -> (r: u32)
    requires
        l <= h < 32,
    ensures
        r == (0xffff_ffffu32 << l) & (0xffff_ffffu32 >> ((31 - h) as u32)),
        forall|i: u32| i < 32 ==> (#[trigger] ((r >> i) & 1u32) == 1u32 <==> l <= i <= h),
{
    let r = (0xffff_ffffu32 << l) & (0xffff_ffffu32 >> (31 - h));
    assert forall|i: u32| i < 32 implies (#[trigger] ((r >> i) & 1u32) == 1u32 <==> l <= i <= h) by {
        assert((((0xffff_ffffu32 << l) & (0xffff_ffffu32 >> ((31 - h) as u32))) >> i) & 1u32
            == 1u32 <==> l <= i <= h) by (bit_vector)
            requires
                l <= h < 32,
                i < 32,
        ;
    }
    r
}

} // verus!
