//! The page-memory manager of MOS: the page array, the free page list, the
//! physical memory and the two-level page tables kept in it.
//!
//! Physical memory is modelled as the sequence of its 32-bit words; a page
//! is 1024 words. A page directory or page table is a page whose words are
//! entries: the physical frame in bits 31..12 and the flags in bits 11..0.
//! Pointers into the kernel segment are kernel virtual addresses (`ULIM` plus
//! the physical address); a page is named by its index in the page array.

use vstd::prelude::*;
use crate::consts::error::KError;
use crate::consts::types::{is_pow2, round, round_up_spec};
use crate::memory::buddy_allocator::BuddyAllocator;
use crate::memory::regions::{
    pdx, pdx_spec, ptx, ptx_spec, NASID, PAGE_SIZE, PTE_C_CACHEABLE, PTE_V, ULIM,
};
use crate::utils::linked_list::{LinkList, LinkNode, links_kept_except};
use crate::memory::tlbex::tlb_invalidate;

verus! {

/// The only page data needed to maintain.
#[derive(Clone, Copy)]
pub struct PageData {
    /// The reference count of the page.
    pub pp_ref: u16,
}

/// Page list, for the free list of pages.
pub type PageList = LinkList<PageData>;

/// Node in the page list: one entry of the page array.
pub type PageNode = LinkNode<PageData>;

/// The page directory entry type.
pub type Pde = u32;

/// The page table entry type.
pub type Pte = u32;

/// The largest number of physical pages the kernel segment can address.
pub const MAX_NPAGE: usize = 0x8_0000;

/// Whether an entry is valid.
pub open spec fn entry_valid(e: u32) -> bool {
    e & 0x80u32 != 0
}

/// The page an entry names.
pub open spec fn entry_page(e: u32) -> int {
    e as int / 4096
}

/// The entry that maps page `page` with the permission bits `perm`, as
/// [page_insert](Pmap::page_insert) writes it.
pub open spec fn make_entry(page: int, perm: u32) -> u32 {
    ((page * 4096) as u32) | perm | 0x600u32 | 0x80u32
}

/// An entry made for a page is valid, and names that page when the
/// permission bits stay below the frame bits.
proof fn lemma_make_entry(page: u32, perm: u32)
    requires
        page < 0x8_0000,
    ensures
        entry_valid(((page * 4096) as u32) | perm | 0x600u32 | 0x80u32),
        perm < 4096 ==> entry_page(((page * 4096) as u32) | perm | 0x600u32 | 0x80u32) == page,
        entry_valid(((page * 4096) as u32) | 0x600u32 | 0x80u32),
        entry_page(((page * 4096) as u32) | 0x600u32 | 0x80u32) == page,
{
    let e = ((page * 4096) as u32) | perm | 0x600u32 | 0x80u32;
    let t = ((page * 4096) as u32) | 0x600u32 | 0x80u32;
    assert(page * 4096 == page << 12u32 && (((page << 12u32) | perm | 0x600u32 | 0x80u32) & 0x80u32 != 0) && (
    perm < 4096 ==> ((page << 12u32) | perm | 0x600u32 | 0x80u32) >> 12u32 == page) && e >> 12u32 == e / 4096
        && (((page << 12u32) | 0x600u32 | 0x80u32) & 0x80u32 != 0) && ((page << 12u32) | 0x600u32 | 0x80u32)
        >> 12u32 == page && t >> 12u32 == t / 4096) by (bit_vector)
        requires
            page < 0x8_0000,
            e == ((page * 4096) as u32) | perm | 0x600u32 | 0x80u32,
            t == ((page * 4096) as u32) | 0x600u32 | 0x80u32,
    ;
}

/// The directory entry that names the page table `t`, as
/// [pgdir_walk](Pmap::pgdir_walk) writes it.
pub open spec fn table_entry(t: int) -> u32 {
    ((t * 4096) as u32) | 0x600u32 | 0x80u32
}

/// A directory entry made for a page table is valid and names that table.
proof fn lemma_table_entry(t: u32)
    requires
        t < 0x8_0000,
    ensures
        entry_valid(((t * 4096) as u32) | 0x600u32 | 0x80u32),
        entry_page(((t * 4096) as u32) | 0x600u32 | 0x80u32) == t,
{
    lemma_make_entry(t, 0);
}

/// What [page_alloc](Pmap::page_alloc) does to the page manager `pre`,
/// leaving `post` and returning `r`: the first free page is taken and
/// zeroed, or `Err(KError::NoMem)` comes back if there is none.
pub open spec fn alloc_post(pre: Pmap, post: Pmap, r: Result<usize, KError>) -> bool {
    &&& post.tlb_requests() == pre.tlb_requests()
    &&& forall|q: int| 0 <= q < post.npage() ==> #[trigger] post.ref_of(q) == pre.ref_of(q)
    &&& (pre.free_list().len() == 0 ==> {
        &&& r == Err::<usize, KError>(KError::NoMem)
        &&& post.free_list() == pre.free_list()
        &&& post.mem() == pre.mem()
    })
    &&& (pre.free_list().len() > 0 ==> {
        &&& r == Ok::<usize, KError>(pre.free_list()[0])
        &&& pre.free_list()[0] < pre.npage()
        &&& post.free_list() == pre.free_list().drop_first()
        &&& post.mem() == zero_page(pre.mem(), pre.free_list()[0] as int)
    })
}

/// What [page_insert](Pmap::page_insert) does to the page manager `pre`,
/// leaving `post` and returning `r`, case by case: `va` maps a page already,
/// the directory entry is valid but `va` is not mapped, or a page table is
/// needed, with or without a free page for it.
pub open spec fn insert_post(
    pre: Pmap,
    post: Pmap,
    pgdir: usize,
    va: usize,
    asid: u32,
    perm: u32,
    page: usize,
    r: Result<(), KError>,
) -> bool {
    &&& (pre.lookup(pgdir, va) matches Some((q, _)) ==> {
        &&& r == Ok::<(), KError>(())
        &&& post.mem() == pre.mem().update(
            pre.pte_index(pgdir, va),
            make_entry(page as int, perm),
        )
        &&& post.tlb_requests() == if q == page {
            pre.tlb_requests().push(tlb_entryhi(asid, va))
        } else {
            pre.tlb_requests().push(tlb_entryhi(asid, va)).push(tlb_entryhi(asid, va))
        }
        &&& forall|x: int| 0 <= x < post.npage() ==> #[trigger] post.ref_of(x) == if q == page {
            pre.ref_of(x)
        } else if x == page {
            (pre.ref_of(x) + 1) as u16
        } else if x == q {
            (pre.ref_of(x) - 1) as u16
        } else {
            pre.ref_of(x)
        }
        &&& post.free_list() == if q != page && pre.ref_of(q as int) == 1 {
            seq![q] + pre.free_list()
        } else {
            pre.free_list()
        }
    })
    &&& (pre.lookup(pgdir, va) is None && entry_valid(pre.pde_of(pgdir, va)) ==> {
        &&& r == Ok::<(), KError>(())
        &&& post.mem() == pre.mem().update(
            pre.pte_index(pgdir, va),
            make_entry(page as int, perm),
        )
        &&& post.tlb_requests() == pre.tlb_requests().push(tlb_entryhi(asid, va))
        &&& forall|x: int| 0 <= x < post.npage() ==> #[trigger] post.ref_of(x) == if x == page {
            (pre.ref_of(x) + 1) as u16
        } else {
            pre.ref_of(x)
        }
        &&& post.free_list() == pre.free_list()
    })
    &&& (!entry_valid(pre.pde_of(pgdir, va)) && pre.free_list().len() == 0 ==> {
        &&& r == Err::<(), KError>(KError::NoMem)
        &&& post.mem() == pre.mem()
        &&& post.tlb_requests() == pre.tlb_requests().push(tlb_entryhi(asid, va))
        &&& forall|x: int| 0 <= x < post.npage() ==> #[trigger] post.ref_of(x) == pre.ref_of(x)
        &&& post.free_list() == pre.free_list()
    })
    &&& (!entry_valid(pre.pde_of(pgdir, va)) && pre.free_list().len() > 0 ==> {
        let t = pre.free_list()[0] as int;
        &&& r == Ok::<(), KError>(())
        &&& post.mem() == zero_page(pre.mem(), t).update(
            Pmap::pde_index(pgdir, va),
            table_entry(t),
        ).update(t * 1024 + ptx_spec(va as int), make_entry(page as int, perm))
        &&& post.tlb_requests() == pre.tlb_requests().push(tlb_entryhi(asid, va))
        &&& forall|x: int| 0 <= x < post.npage() ==> #[trigger] post.ref_of(x) == if x == t {
            1u16
        } else if x == page {
            (pre.ref_of(x) + 1) as u16
        } else {
            pre.ref_of(x)
        }
        &&& post.free_list() == pre.free_list().drop_first()
    })
}

/// The page manager: the page array with the reference counts, the free
/// page list threaded through it, the physical memory, and the TLB entries
/// waiting to be invalidated.
pub struct Pmap {
    /// The array of all pages.
    pages: Vec<PageNode>,
    /// The list of free pages.
    page_free_list: PageList,
    /// The physical memory, word by word.
    mem: Vec<u32>,
    /// The `EntryHi` values of the TLB entries to invalidate, oldest first.
    tlb_requests: Vec<u32>,
}

impl Pmap {
    /// The number of physical pages.
    pub closed spec fn npage(&self) -> nat {
        self.pages@.len()
    }

    /// The reference count of page `p`.
    pub closed spec fn ref_of(&self, p: int) -> u16 {
        self.pages@[p].data.pp_ref
    }

    /// The free pages, in list order.
    pub closed spec fn free_list(&self) -> Seq<usize> {
        self.page_free_list@
    }

    /// The physical memory, word by word.
    pub closed spec fn mem(&self) -> Seq<u32> {
        self.mem@
    }

    /// The TLB invalidations requested so far, as `EntryHi` values.
    pub closed spec fn tlb_requests(&self) -> Seq<u32> {
        self.tlb_requests@
    }

    /// Well-formedness: the memory holds the pages, the free list is
    /// well-formed over the page array, and free pages have no references.
    pub closed spec fn wf(&self) -> bool {
        &&& self.pages@.len() <= MAX_NPAGE
        &&& self.mem@.len() == self.pages@.len() * 1024
        &&& self.page_free_list.wf(self.pages@)
        &&& forall|k: int|
            0 <= k < self.page_free_list@.len() ==> #[trigger] self.pages@[self.page_free_list@[k] as int].data.pp_ref
                == 0
    }

    /// Whether page `p` is free.
    pub open spec fn is_free(&self, p: usize) -> bool {
        self.free_list().contains(p)
    }

    /// The page an in-range, page-aligned kernel address names.
    pub open spec fn kva_page(kva: int) -> int {
        (kva - ULIM) / 4096
    }

    /// Whether `pgdir` is the page-aligned kernel address of a page.
    pub open spec fn is_page_kva(&self, pgdir: usize) -> bool {
        &&& pgdir >= ULIM
        &&& (pgdir - ULIM) % 4096 == 0
        &&& Self::kva_page(pgdir as int) < self.npage()
    }

    /// The word index of the directory entry for `va` in the page directory
    /// at `pgdir`.
    pub open spec fn pde_index(pgdir: usize, va: usize) -> int {
        Self::kva_page(pgdir as int) * 1024 + pdx_spec(va as int)
    }

    /// The directory entry for `va` in the page directory at `pgdir`.
    pub open spec fn pde_of(&self, pgdir: usize, va: usize) -> u32 {
        self.mem()[Self::pde_index(pgdir, va)]
    }

    /// The word index of the table entry for `va` under the page directory
    /// at `pgdir`.
    pub open spec fn pte_index(&self, pgdir: usize, va: usize) -> int {
        entry_page(self.pde_of(pgdir, va)) * 1024 + ptx_spec(va as int)
    }

    /// The table entry for `va` under the page directory at `pgdir`.
    pub open spec fn pte_of(&self, pgdir: usize, va: usize) -> u32 {
        self.mem()[self.pte_index(pgdir, va)]
    }

    /// Whether the walk for `va` under the page directory at `pgdir` stays
    /// in memory: the directory is a page, and a valid directory entry names
    /// a page.
    pub open spec fn walk_ok(&self, pgdir: usize, va: usize) -> bool {
        &&& self.is_page_kva(pgdir)
        &&& entry_valid(self.pde_of(pgdir, va)) ==> entry_page(self.pde_of(pgdir, va)) < self.npage()
    }

    /// The page `va` maps to under the page directory at `pgdir`, with the
    /// kernel address of its table entry.
    pub open spec fn lookup(&self, pgdir: usize, va: usize) -> Option<(usize, usize)> {
        if entry_valid(self.pde_of(pgdir, va)) && entry_valid(self.pte_of(pgdir, va)) {
            Some(
                (
                    entry_page(self.pte_of(pgdir, va)) as usize,
                    (ULIM + self.pte_index(pgdir, va) * 4) as usize,
                ),
            )
        } else {
            None
        }
    }

    /// Whether a mapping of `va` may be dropped: the walk stays in memory,
    /// and a mapped page exists and is referenced.
    pub open spec fn mapping_ok(&self, pgdir: usize, va: usize) -> bool {
        &&& self.walk_ok(pgdir, va)
        &&& self.lookup(pgdir, va) matches Some((p, _)) ==> {
            &&& p < self.npage()
            &&& self.ref_of(p as int) > 0
        }
    }

    /// A referenced page is not free.
    pub proof fn lemma_referenced_not_free(&self, p: usize)
        requires
            self.wf(),
            p < self.npage(),
            self.ref_of(p as int) > 0,
        ensures
            !self.is_free(p),
    {
        if self.page_free_list@.contains(p) {
            let k = self.page_free_list@.index_of(p);
            assert(self.pages@[self.page_free_list@[k] as int].data.pp_ref == 0);
        }
    }

    /// A well-formed page manager has a word of memory for each word of its
    /// pages, and its free list holds distinct pages, each without a
    /// reference.
    pub proof fn lemma_wf_facts(&self)
        requires
            self.wf(),
        ensures
            self.npage() <= MAX_NPAGE,
            self.mem().len() == self.npage() * 1024,
            self.free_list().no_duplicates(),
            forall|p: usize| #[trigger] self.is_free(p) ==> p < self.npage() && self.ref_of(p as int) == 0,
    {
        self.page_free_list.lemma_view_valid(self.pages@);
        assert forall|p: usize| #[trigger] self.is_free(p) implies p < self.npage() && self.ref_of(p as int) == 0 by {
            let k = self.page_free_list@.index_of(p);
            assert(self.pages@[self.page_free_list@[k] as int].data.pp_ref == 0);
        }
    }

    /// Read the memory word at the kernel address `kva`.
    pub fn read_word(&self, kva: usize) -> (r: u32)
        requires
            self.wf(),
            kva >= ULIM,
            (kva - ULIM) % 4 == 0,
            (kva - ULIM) / 4 < self.mem().len(),
        ensures
            r == self.mem()[(kva - ULIM) / 4],
    {
        self.mem[(kva - ULIM) / 4]
    }

    /// Write the memory word at the kernel address `kva`.
    fn write_word(&mut self, kva: usize, v: u32)
        requires
            old(self).wf(),
            kva >= ULIM,
            (kva - ULIM) % 4 == 0,
            (kva - ULIM) / 4 < old(self).mem@.len(),
        ensures
            final(self).wf(),
            final(self).mem@ == old(self).mem@.update((kva - ULIM) / 4, v),
            final(self).pages@ == old(self).pages@,
            final(self).page_free_list == old(self).page_free_list,
            final(self).tlb_requests@ == old(self).tlb_requests@,
    {
        self.mem.set((kva - ULIM) / 4, v);
    }

    /// Write the memory word at the kernel address `kva`.
    pub fn store_word(&mut self, kva: usize, v: u32)
        requires
            old(self).wf(),
            kva >= ULIM,
            (kva - ULIM) % 4 == 0,
            (kva - ULIM) / 4 < old(self).mem().len(),
        ensures
            final(self).wf(),
            final(self).npage() == old(self).npage(),
            final(self).mem() == old(self).mem().update((kva - ULIM) / 4, v),
            final(self).free_list() == old(self).free_list(),
            forall|q: int| 0 <= q < final(self).npage() ==> #[trigger] final(self).ref_of(q) == old(self).ref_of(q),
            final(self).tlb_requests() == old(self).tlb_requests(),
    {
        self.write_word(kva, v);
    }

    /// Add a reference to the page `p`, which is not free.
    pub fn page_incref(&mut self, p: usize)
        requires
            old(self).wf(),
            p < old(self).npage(),
            !old(self).is_free(p),
            old(self).ref_of(p as int) < 0xffff,
        ensures
            final(self).wf(),
            final(self).npage() == old(self).npage(),
            final(self).mem() == old(self).mem(),
            final(self).free_list() == old(self).free_list(),
            forall|q: int| 0 <= q < final(self).npage() ==> #[trigger] final(self).ref_of(q) == if q == p {
                (old(self).ref_of(q) + 1) as u16
            } else {
                old(self).ref_of(q)
            },
            final(self).tlb_requests() == old(self).tlb_requests(),
    {
        let n = self.pages[p].data.pp_ref;
        self.set_ref(p, n + 1);
    }

    /// Write the byte `b` at the physical address `addr`.
    pub fn write_byte(&mut self, addr: usize, b: u8)
        requires
            old(self).wf(),
            addr / 4 < old(self).mem().len(),
        ensures
            final(self).wf(),
            final(self).npage() == old(self).npage(),
            final(self).mem() == old(self).mem().update(
                (addr / 4) as int,
                set_byte(old(self).mem()[(addr / 4) as int], (addr % 4) as u32, b),
            ),
            mem_byte(final(self).mem(), addr as int) == b,
            forall|a: int| 0 <= a < final(self).mem().len() * 4 && a != addr ==> #[trigger] mem_byte(final(self).mem(), a)
                == mem_byte(old(self).mem(), a),
            final(self).free_list() == old(self).free_list(),
            forall|q: int| 0 <= q < final(self).npage() ==> #[trigger] final(self).ref_of(q) == old(self).ref_of(q),
            final(self).tlb_requests() == old(self).tlb_requests(),
    {
        let i = addr / 4;
        let lane = (addr % 4) as u32;
        let w = self.mem[i];
        proof {
            lemma_set_byte(w, lane, b);
            assert(((set_byte(w, lane, b) >> (lane * 8)) & 0xffu32) == b as u32);
            assert forall|a: int| 0 <= a < self.mem@.len() * 4 && a != addr implies #[trigger] mem_byte(
                self.mem@.update((addr / 4) as int, set_byte(w, lane, b)),
                a,
            ) == mem_byte(self.mem@, a) by {
                if a / 4 == addr / 4 {
                    let j = (a % 4) as u32;
                    assert(j != lane);
                    assert(((set_byte(w, lane, b) >> (j * 8)) & 0xffu32) == (w >> (j * 8)) & 0xffu32);
                }
            }
        }
        self.mem.set(i, (w & !(0xffu32 << (lane * 8))) | ((b as u32) << (lane * 8)));
    }

    /// Whether at least `n` pages are free.
    pub fn free_at_least(&self, n: usize) -> (r: bool)
        requires
            self.wf(),
        ensures
            r == (self.free_list().len() >= n),
    {
        self.page_free_list.len_at_least(&self.pages, n)
    }

    /// Whether a mapping of `va` under the page directory at `pgdir` may be
    /// dropped, see [mapping_ok](Pmap::mapping_ok).
    pub fn mapping_checked(&self, pgdir: usize, va: usize) -> (r: bool)
        requires
            self.wf(),
            self.is_page_kva(pgdir),
        ensures
            r == self.mapping_ok(pgdir, va),
    {
        if !self.walk_checked(pgdir, va) {
            return false;
        }
        match self.page_lookup(pgdir, va) {
            None => true,
            Some((p, _)) => p < self.pages.len() && self.pages[p].data.pp_ref > 0,
        }
    }

    /// Whether the directory entry for `va` in the page directory at
    /// `pgdir` is valid.
    pub fn pde_valid(&self, pgdir: usize, va: usize) -> (r: bool)
        requires
            self.wf(),
            self.is_page_kva(pgdir),
        ensures
            r == entry_valid(self.pde_of(pgdir, va)),
    {
        proof {
            self.lemma_pde_index(pgdir, va);
        }
        let e = self.mem[(pgdir - ULIM) / 4 + crate::memory::regions::pdx(va)];
        e & 0x80u32 != 0
    }

    /// The physical address `va` is mapped to under the page directory at
    /// `pgdir`, if the walk stays in memory and the mapped page is a page.
    pub open spec fn translate_spec(&self, pgdir: usize, va: usize) -> Option<int> {
        if self.walk_ok(pgdir, va) {
            match self.lookup(pgdir, va) {
                Some((p, _)) => if p < self.npage() {
                    Some(p * 4096 + va % 4096)
                } else {
                    None
                },
                None => None,
            }
        } else {
            None
        }
    }

    /// Translate `va` under the page directory at `pgdir` to a physical
    /// address, see [translate_spec](Pmap::translate_spec).
    pub fn translate(&self, pgdir: usize, va: usize) -> (r: Option<usize>)
        requires
            self.wf(),
            self.is_page_kva(pgdir),
        ensures
            r == match self.translate_spec(pgdir, va) {
                Some(a) => Some(a as usize),
                None => None,
            },
            r matches Some(a) ==> a < self.mem().len() * 4,
    {
        if !self.walk_checked(pgdir, va) {
            return None;
        }
        match self.page_lookup(pgdir, va) {
            None => None,
            Some((p, _)) => {
                if p < self.pages.len() {
                    proof {
                        assert(p * 4096 + va % 4096 < self.mem@.len() * 4) by (nonlinear_arith)
                            requires
                                p < self.pages@.len(),
                                self.mem@.len() == self.pages@.len() * 1024,
                        ;
                    }
                    Some(p * PAGE_SIZE + va % PAGE_SIZE)
                } else {
                    None
                }
            },
        }
    }

    /// The word at the user address `va`, a multiple of four, under the
    /// page directory at `pgdir`; `None` if it is not mapped.
    pub fn read_user_word(&self, pgdir: usize, va: usize) -> (r: Option<u32>)
        requires
            self.wf(),
            self.is_page_kva(pgdir),
            va % 4 == 0,
        ensures
            r == match self.translate_spec(pgdir, va) {
                Some(a) => Some(self.mem()[a / 4]),
                None => None,
            },
    {
        match self.translate(pgdir, va) {
            None => None,
            Some(a) => Some(self.mem[a / 4]),
        }
    }

    /// The byte at the user address `va` under the page directory at
    /// `pgdir`; `None` if it is not mapped.
    pub fn read_user_byte(&self, pgdir: usize, va: usize) -> (r: Option<u8>)
        requires
            self.wf(),
            self.is_page_kva(pgdir),
        ensures
            r == match self.translate_spec(pgdir, va) {
                Some(a) => Some(mem_byte(self.mem(), a)),
                None => None,
            },
    {
        match self.translate(pgdir, va) {
            None => None,
            Some(a) => {
                let w = self.mem[a / 4];
                Some(((w >> (((a % 4) * 8) as u32)) & 0xffu32) as u8)
            },
        }
    }

    /// Whether [page_insert](Pmap::page_insert) may map the page `page`,
    /// which is not free, at `va` under the page directory at `pgdir`: all
    /// that it requires holds, and the page directory holds a reference.
    pub open spec fn insert_safe(&self, pgdir: usize, va: usize, page: usize) -> bool {
        &&& self.mapping_ok(pgdir, va)
        &&& self.ref_of(Self::kva_page(pgdir as int)) > 0
        &&& self.ref_of(page as int) < 0xffff
        &&& (self.lookup(pgdir, va) matches Some((q, _)) && q != page ==> self.pte_index(pgdir, va)
            != Self::pde_index(pgdir, va))
    }

    /// Whether the address space with the page directory at `pgdir` is
    /// consistent at `va`: the directory is a page and holds a reference; a
    /// valid directory entry for `va` names a page table in memory, other
    /// than the directory's own page, that holds a reference; and a page
    /// mapped at `va` is in memory and holds a reference.
    pub open spec fn space_consistent_at(&self, pgdir: usize, va: usize) -> bool {
        &&& self.is_page_kva(pgdir)
        &&& self.ref_of(Self::kva_page(pgdir as int)) > 0
        &&& entry_valid(self.pde_of(pgdir, va)) ==> {
            &&& entry_page(self.pde_of(pgdir, va)) < self.npage()
            &&& entry_page(self.pde_of(pgdir, va)) != Self::kva_page(pgdir as int)
            &&& self.ref_of(entry_page(self.pde_of(pgdir, va))) > 0
        }
        &&& self.lookup(pgdir, va) matches Some((q, _)) ==> q < self.npage() && self.ref_of(q as int) > 0
    }

    /// Whether the page `page`, which is not free, may be mapped at `va`
    /// under the page directory at `pgdir`, see
    /// [insert_safe](Pmap::insert_safe).
    pub fn can_insert(&self, pgdir: usize, va: usize, page: usize) -> (r: bool)
        requires
            self.wf(),
            self.is_page_kva(pgdir),
            page < self.npage(),
        ensures
            r == self.insert_safe(pgdir, va, page),
            r ==> !self.is_free(Self::kva_page(pgdir as int) as usize),
    {
        if !self.walk_checked(pgdir, va) {
            return false;
        }
        let pg = (pgdir - ULIM) / PAGE_SIZE;
        if self.pages[pg].data.pp_ref == 0 || self.pages[page].data.pp_ref == 0xffff {
            return false;
        }
        proof {
            self.lemma_referenced_not_free(pg);
            self.lemma_pde_index(pgdir, va);
        }
        match self.page_lookup(pgdir, va) {
            None => true,
            Some((q, _)) => {
                proof {
                    self.lemma_pte_index(pgdir, va);
                }
                if q >= self.pages.len() || self.pages[q].data.pp_ref == 0 {
                    return false;
                }
                let pi = self.walk_index(pgdir, va);
                let di = (pgdir - ULIM) / 4 + pdx(va);
                match pi {
                    Some(i) => q == page || i != di,
                    None => true,
                }
            },
        }
    }

    /// Init all the pages of a memory of `npage` pages. The pages below the
    /// kernel address `freemem`, rounded up to a page, are marked *used*; the
    /// others are put onto the free list, each at its head, so that the
    /// highest page comes first. The memory starts zeroed.
    pub fn page_init(npage: usize, freemem: &mut usize) -> (r: Pmap)
        requires
            npage <= MAX_NPAGE,
            *old(freemem) >= ULIM,
            *old(freemem) + 4095 <= usize::MAX,
        ensures
            r.wf(),
            r.npage() == npage,
            *final(freemem) == crate::consts::types::round_up_spec(*old(freemem) as int, 4096),
            forall|p: int| 0 <= p < npage ==> #[trigger] r.ref_of(p) == if p * 4096 < *final(freemem) - ULIM {
                1u16
            } else {
                0u16
            },
            r.free_list() == Seq::new(
                (npage - used_pages(npage, *final(freemem))) as nat,
                |k: int| (npage - 1 - k) as usize,
            ),
            r.mem() == Seq::new(npage as nat * 1024, |i: int| 0u32),
            r.tlb_requests().len() == 0,
    {
        *freemem = round(*freemem, PAGE_SIZE);
        let fm = *freemem - ULIM;
        let mut pages: Vec<PageNode> = Vec::new();
        let mut page_id: usize = 0;
        while page_id < npage && page_id * PAGE_SIZE < fm
            invariant
                page_id <= npage <= MAX_NPAGE,
                pages@.len() == page_id,
                page_id > 0 ==> (page_id - 1) * 4096 < fm,
                forall|k: int| 0 <= k < page_id ==> (#[trigger] pages@[k]).data.pp_ref == 1u16,
            decreases npage - page_id,
        {
            pages.push(LinkNode::new(PageData { pp_ref: 1 }));
            page_id = page_id + 1;
        }
        let used = page_id;
        let mut free_list = PageList::new();
        while page_id < npage
            invariant
                used <= page_id <= npage <= MAX_NPAGE,
                pages@.len() == page_id,
                free_list.wf(pages@),
                forall|k: int| 0 <= k < used ==> (#[trigger] pages@[k]).data.pp_ref == 1u16,
                forall|k: int| used <= k < page_id ==> (#[trigger] pages@[k]).data.pp_ref == 0u16,
                free_list@ == Seq::new((page_id - used) as nat, |k: int| (page_id - 1 - k) as usize),
            decreases npage - page_id,
        {
            let ghost prev = pages@;
            pages.push(LinkNode::new(PageData { pp_ref: 0 }));
            proof {
                free_list.lemma_grow_wf(prev, pages@);
                assert(!free_list@.contains(page_id)) by {
                    if free_list@.contains(page_id) {
                        let k = free_list@.index_of(page_id);
                        free_list@.index_of_first(page_id);
                    }
                }
            }
            free_list.insert_head(&mut pages, page_id);
            page_id = page_id + 1;
            proof {
                assert(free_list@ =~= Seq::new((page_id - used) as nat, |k: int| (page_id - 1 - k) as usize));
            }
        }
        let mut mem: Vec<u32> = Vec::new();
        let total = npage * 1024;
        let mut i: usize = 0;
        while i < total
            invariant
                i <= total,
                mem@.len() == i,
                forall|k: int| 0 <= k < i ==> #[trigger] mem@[k] == 0u32,
            decreases total - i,
        {
            mem.push(0);
            i = i + 1;
        }
        let r = Pmap { pages, page_free_list: free_list, mem, tlb_requests: Vec::new() };
        proof {
            assert(used == used_pages(npage, *freemem));
            assert(r.mem() =~= Seq::new(npage as nat * 1024, |i: int| 0u32));
            assert forall|k: int| 0 <= k < r.page_free_list@.len() implies #[trigger] r.pages@[r.page_free_list@[k] as int].data.pp_ref
                == 0 by {
                assert(r.page_free_list@[k] as int == npage - 1 - k);
            }
            assert forall|p: int| 0 <= p < npage implies #[trigger] r.ref_of(p) == if p * 4096 < *freemem - ULIM {
                1u16
            } else {
                0u16
            } by {
                if p < used {
                    assert(p * 4096 <= (used - 1) * 4096) by (nonlinear_arith)
                        requires p <= used - 1;
                } else {
                    assert(used * 4096 <= p * 4096) by (nonlinear_arith)
                        requires used <= p;
                }
            }
        }
        r
    }

    /// Set the reference count of page `p`.
    fn set_ref(&mut self, p: usize, v: u16)
        requires
            old(self).wf(),
            p < old(self).npage(),
            old(self).is_free(p) ==> v == 0,
        ensures
            final(self).wf(),
            final(self).npage() == old(self).npage(),
            final(self).free_list() == old(self).free_list(),
            final(self).mem() == old(self).mem(),
            final(self).tlb_requests() == old(self).tlb_requests(),
            forall|q: int| 0 <= q < final(self).npage() ==> #[trigger] final(self).ref_of(q) == if q == p {
                v
            } else {
                old(self).ref_of(q)
            },
            final(self).pages@ == old(self).pages@.update(p as int, LinkNode { data: PageData { pp_ref: v }, ..old(self).pages@[p as int] }),
    {
        let n = self.pages[p];
        self.pages.set(p, LinkNode { next: n.next, prev: n.prev, data: PageData { pp_ref: v } });
        proof {
            self.page_free_list.lemma_view_valid(old(self).pages@);
            assert forall|i: int|
                0 <= i < self.page_free_list@.len() implies (#[trigger] self.pages@[self.page_free_list@[i] as int]).next
                    == old(self).pages@[self.page_free_list@[i] as int].next && self.pages@[self.page_free_list@[i] as int].prev
                    == old(self).pages@[self.page_free_list@[i] as int].prev by {
                assert(self.page_free_list@[i] < old(self).pages@.len());
            }
            self.page_free_list.lemma_wf_frame(old(self).pages@, self.pages@);
            assert forall|k: int| 0 <= k < self.page_free_list@.len() implies #[trigger] self.pages@[self.page_free_list@[k] as int].data.pp_ref
                == 0 by {
                assert(self.page_free_list@[k] < old(self).pages@.len());
                assert(old(self).pages@[self.page_free_list@[k] as int].data.pp_ref == 0);
                if self.page_free_list@[k] == p {
                    assert(old(self).page_free_list@.contains(p));
                }
            }
        }
    }

    /// The reference count of page `p`.
    pub fn page_ref(&self, p: usize) -> (r: u16)
        requires
            p < self.npage(),
        ensures
            r == self.ref_of(p as int),
    {
        self.pages[p].data.pp_ref
    }

    /// Allocate a page. Its memory is zeroed. Returns the page, or
    /// `Err(KError::NoMem)` if no free page is left.
    pub fn page_alloc(&mut self) -> (r: Result<usize, KError>)
        requires
            old(self).wf(),
        ensures
            final(self).wf(),
            final(self).npage() == old(self).npage(),
            alloc_post(*old(self), *final(self), r),
            old(self).free_list().len() == 0 ==> *final(self) == *old(self),
    {
        if self.page_free_list.empty(Ghost(self.pages@)) {
            return Err(KError::NoMem);
        }
        match self.page_free_list.pop_head(&mut self.pages) {
            None => Err(KError::NoMem),
            Some(pp) => {
                proof {
                    old(self).page_free_list.lemma_view_valid(old(self).pages@);
                    assert(pp < self.pages@.len());
                    assert forall|k: int| 0 <= k < self.page_free_list@.len() implies #[trigger] self.pages@[self.page_free_list@[k] as int].data.pp_ref
                        == 0 by {
                        assert(self.page_free_list@[k] == old(self).page_free_list@[k + 1]);
                        assert(old(self).pages@[old(self).page_free_list@[k + 1] as int].data.pp_ref == 0);
                    }
                }
                let base = pp * 1024;
                let mut k: usize = 0;
                while k < 1024
                    invariant
                        self.wf(),
                        pp < self.pages@.len(),
                        base == pp * 1024,
                        k <= 1024,
                        self.pages@.len() == old(self).pages@.len(),
                        forall|q: int| 0 <= q < self.pages@.len() ==> #[trigger] self.pages@[q].data == old(self).pages@[q].data,
                        self.page_free_list@ == old(self).page_free_list@.drop_first(),
                        self.tlb_requests@ == old(self).tlb_requests@,
                        self.mem@ == Seq::new(
                            old(self).mem@.len(),
                            |i: int|
                                if base <= i < base + k {
                                    0u32
                                } else {
                                    old(self).mem@[i]
                                },
                        ),
                    decreases 1024 - k,
                {
                    self.mem.set(base + k, 0);
                    k = k + 1;
                    proof {
                        assert(self.mem@ =~= Seq::new(
                            old(self).mem@.len(),
                            |i: int|
                                if base <= i < base + k {
                                    0u32
                                } else {
                                    old(self).mem@[i]
                                },
                        ));
                    }
                }
                proof {
                    assert(self.mem@ =~= zero_page(old(self).mem(), pp as int));
                }
                Ok(pp)
            },
        }
    }

    /// Free a page: put it at the head of the free list. The page must have
    /// no reference left, and must not be free already.
    pub fn page_free(&mut self, page: usize)
        requires
            old(self).wf(),
            page < old(self).npage(),
            old(self).ref_of(page as int) == 0,
            !old(self).is_free(page),
        ensures
            final(self).wf(),
            final(self).npage() == old(self).npage(),
            final(self).free_list() == seq![page] + old(self).free_list(),
            final(self).mem() == old(self).mem(),
            final(self).tlb_requests() == old(self).tlb_requests(),
            forall|q: int| 0 <= q < final(self).npage() ==> #[trigger] final(self).ref_of(q) == old(self).ref_of(q),
    {
        self.page_free_list.insert_head(&mut self.pages, page);
        proof {
            assert forall|k: int| 0 <= k < self.page_free_list@.len() implies #[trigger] self.pages@[self.page_free_list@[k] as int].data.pp_ref
                == 0 by {
                old(self).page_free_list.lemma_view_valid(old(self).pages@);
                if k > 0 {
                    assert(self.page_free_list@[k] == old(self).page_free_list@[k - 1]);
                    assert(old(self).pages@[old(self).page_free_list@[k - 1] as int].data.pp_ref == 0);
                    assert(self.pages@[self.page_free_list@[k] as int].data == old(self).pages@[self.page_free_list@[k] as int].data);
                } else {
                    assert(self.pages@[page as int].data == old(self).pages@[page as int].data);
                }
            }
        }
    }

    /// Decrease the page's reference count. If no reference is left, the
    /// page is freed. The page must be referenced.
    pub fn page_decref(&mut self, page: usize)
        requires
            old(self).wf(),
            page < old(self).npage(),
            old(self).ref_of(page as int) > 0,
            !old(self).is_free(page),
        ensures
            final(self).wf(),
            final(self).npage() == old(self).npage(),
            final(self).mem() == old(self).mem(),
            final(self).tlb_requests() == old(self).tlb_requests(),
            forall|q: int| 0 <= q < final(self).npage() ==> #[trigger] final(self).ref_of(q) == if q == page {
                (old(self).ref_of(q) - 1) as u16
            } else {
                old(self).ref_of(q)
            },
            final(self).free_list() == if old(self).ref_of(page as int) == 1 {
                seq![page] + old(self).free_list()
            } else {
                old(self).free_list()
            },
    {
        let r = self.pages[page].data.pp_ref;
        self.set_ref(page, r - 1);
        if r - 1 == 0 {
            self.page_free(page);
        }
    }

    /// The word index of the table entry for `va`, if the directory entry
    /// for `va` is valid.
    fn walk_index(&self, pgdir: usize, va: usize) -> (r: Option<usize>)
        requires
            self.wf(),
            self.walk_ok(pgdir, va),
        ensures
            r == if entry_valid(self.pde_of(pgdir, va)) {
                Some(self.pte_index(pgdir, va) as usize)
            } else {
                None
            },
            r matches Some(i) ==> i < self.mem().len(),
    {
        let di = (pgdir - ULIM) / 4 + pdx(va);
        proof {
            self.lemma_pde_index(pgdir, va);
        }
        let pde = self.mem[di];
        if pde & PTE_V == 0 {
            None
        } else {
            let t = (pde / 4096) as usize;
            let x = ptx(va);
            proof {
                assert(t * 1024 + x < self.npage() * 1024) by (nonlinear_arith)
                    requires
                        t < self.npage(),
                        x < 1024,
                ;
            }
            Some(t * 1024 + x)
        }
    }

    /// The directory entry index of `va` is the kernel address of the page
    /// directory in words plus the directory offset, and lies in memory.
    proof fn lemma_pde_index(&self, pgdir: usize, va: usize)
        requires
            self.wf(),
            self.is_page_kva(pgdir),
        ensures
            (pgdir - ULIM) / 4 + pdx_spec(va as int) == Self::pde_index(pgdir, va),
            0 <= Self::pde_index(pgdir, va) < self.mem().len(),
    {
        let d = pgdir - ULIM;
        let k = Self::kva_page(pgdir as int);
        assert(d / 4 == k * 1024) by (nonlinear_arith)
            requires
                d % 4096 == 0,
                k == d / 4096,
                d >= 0,
        ;
        assert(k * 1024 + 1024 <= self.npage() * 1024) by (nonlinear_arith)
            requires
                k < self.npage(),
        ;
    }

    /// Whether the walk for `va` under the page directory at `pgdir` stays
    /// in memory, see [walk_ok](Pmap::walk_ok).
    pub fn walk_checked(&self, pgdir: usize, va: usize) -> (r: bool)
        requires
            self.wf(),
            self.is_page_kva(pgdir),
        ensures
            r == self.walk_ok(pgdir, va),
    {
        proof {
            self.lemma_pde_index(pgdir, va);
        }
        let di = (pgdir - ULIM) / 4 + pdx(va);
        let pde = self.mem[di];
        pde & PTE_V == 0 || ((pde / 4096) as usize) < self.pages.len()
    }

    /// The number of pages.
    pub fn page_count(&self) -> (r: usize)
        requires
            self.wf(),
        ensures
            r == self.npage(),
    {
        self.pages.len()
    }

    /// Walk the page directory at `pgdir` to the table entry of `va`, and
    /// give its kernel address.
    ///
    /// If the directory entry is not valid, `create` decides: with it, a
    /// page is allocated as the page table (zeroed, with one reference) and
    /// entered into the directory; without it, `Ok(None)` is returned. If no
    /// page is left for the table, `Err(KError::NoMem)` is returned and
    /// nothing changes.
    pub fn pgdir_walk(&mut self, pgdir: usize, va: usize, create: bool) -> (r: Result<Option<usize>, KError>)
        requires
            old(self).wf(),
            old(self).walk_ok(pgdir, va),
            create && !entry_valid(old(self).pde_of(pgdir, va)) ==> !old(self).is_free(
                Self::kva_page(pgdir as int) as usize,
            ),
        ensures
            final(self).wf(),
            final(self).npage() == old(self).npage(),
            final(self).tlb_requests() == old(self).tlb_requests(),
            entry_valid(old(self).pde_of(pgdir, va)) ==> {
                &&& r == Ok::<Option<usize>, KError>(Some((ULIM + old(self).pte_index(pgdir, va) * 4) as usize))
                &&& *final(self) == *old(self)
            },
            !entry_valid(old(self).pde_of(pgdir, va)) && !create ==> {
                &&& r == Ok::<Option<usize>, KError>(None)
                &&& *final(self) == *old(self)
            },
            !entry_valid(old(self).pde_of(pgdir, va)) && create && old(self).free_list().len() == 0 ==> {
                &&& r == Err::<Option<usize>, KError>(KError::NoMem)
                &&& *final(self) == *old(self)
            },
            !entry_valid(old(self).pde_of(pgdir, va)) && create && old(self).free_list().len() > 0 ==> {
                let t = old(self).free_list()[0] as int;
                &&& t < old(self).npage()
                &&& t != Self::kva_page(pgdir as int)
                &&& r == Ok::<Option<usize>, KError>(Some((ULIM + (t * 1024 + ptx_spec(va as int)) * 4) as usize))
                &&& final(self).free_list() == old(self).free_list().drop_first()
                &&& final(self).mem() == zero_page(old(self).mem(), t).update(
                    Self::pde_index(pgdir, va),
                    table_entry(t),
                )
                &&& forall|q: int| 0 <= q < final(self).npage() ==> #[trigger] final(self).ref_of(q) == if q == t {
                    1u16
                } else {
                    old(self).ref_of(q)
                }
            },
    {
        match self.walk_index(pgdir, va) {
            Some(i) => Ok(Some(ULIM + i * 4)),
            None => {
                if !create {
                    return Ok(None);
                }
                let pp = match self.page_alloc() {
                    Ok(pp) => pp,
                    Err(e) => {
                        return Err(e);
                    },
                };
                proof {
                    old(self).page_free_list.lemma_view_valid(old(self).pages@);
                    assert(old(self).free_list().contains(pp));
                    lemma_table_entry(pp as u32);
                    self.lemma_pde_index(pgdir, va);
                }
                let ghost s1 = *self;
                let di = (pgdir - ULIM) / 4 + pdx(va);
                let entry = ((pp * PAGE_SIZE) as u32) | PTE_C_CACHEABLE | PTE_V;
                self.mem.set(di, entry);
                self.set_ref(pp, 1);
                let x = ptx(va);
                proof {
                    assert(pp * 1024 + x < self.npage() * 1024) by (nonlinear_arith)
                        requires
                            pp < self.npage(),
                            x < 1024,
                    ;
                }
                proof {
                    assert(pp == old(self).free_list()[0]);
                    assert(pp as int != Self::kva_page(pgdir as int));
                    assert(self.mem() == zero_page(old(self).mem(), pp as int).update(
                        Self::pde_index(pgdir, va),
                        table_entry(pp as int),
                    ));
                    assert(self.free_list() == old(self).free_list().drop_first());
                    assert(ULIM + (pp * 1024 + x) * 4 == (ULIM + (pp * 1024 + ptx_spec(va as int)) * 4) as usize);
                    assert forall|q: int| 0 <= q < self.npage() implies #[trigger] self.ref_of(q) == if q == pp {
                        1u16
                    } else {
                        old(self).ref_of(q)
                    } by {
                        assert(s1.ref_of(q) == old(self).ref_of(q));
                    }
                }
                Ok(Some(ULIM + (pp * 1024 + x) * 4))
            },
        }
    }

    /// Look up the page that `va` maps to under the page directory at
    /// `pgdir`. The page and the kernel address of its table entry are
    /// returned if both the directory entry and the table entry are valid.
    pub fn page_lookup(&self, pgdir: usize, va: usize) -> (r: Option<(usize, usize)>)
        requires
            self.wf(),
            self.walk_ok(pgdir, va),
        ensures
            r == self.lookup(pgdir, va),
    {
        match self.walk_index(pgdir, va) {
            None => None,
            Some(i) => {
                let e = self.mem[i];
                if e & PTE_V == 0 {
                    None
                } else {
                    Some(((e / 4096) as usize, ULIM + i * 4))
                }
            },
        }
    }

    /// The table entry index of a valid directory entry lies in memory,
    /// and its kernel address is `ULIM` plus four bytes a word.
    pub proof fn lemma_pte_index(&self, pgdir: usize, va: usize)
        requires
            self.wf(),
            self.walk_ok(pgdir, va),
            entry_valid(self.pde_of(pgdir, va)),
        ensures
            0 <= self.pte_index(pgdir, va) < self.mem().len(),
            ULIM + self.pte_index(pgdir, va) * 4 <= usize::MAX,
            ((ULIM + self.pte_index(pgdir, va) * 4) as usize - ULIM) / 4 == self.pte_index(pgdir, va),
            ((ULIM + self.pte_index(pgdir, va) * 4) as usize - ULIM) % 4 == 0,
    {
        let t = entry_page(self.pde_of(pgdir, va));
        let x = ptx_spec(va as int);
        assert(0 <= t * 1024 + x < self.npage() * 1024) by (nonlinear_arith)
            requires
                0 <= t < self.npage(),
                0 <= x < 1024,
        ;
        assert(self.npage() * 1024 * 4 <= 0x8000_0000) by (nonlinear_arith)
            requires
                self.npage() <= MAX_NPAGE,
        ;
    }

    /// Unmap the page at `va` under the page directory at `pgdir`: drop a
    /// reference to it, clear its table entry and invalidate the TLB entry
    /// of `va` in the address space `asid`. Nothing happens if `va` is not
    /// mapped.
    pub fn page_remove(&mut self, pgdir: usize, va: usize, asid: u32)
        requires
            old(self).wf(),
            old(self).mapping_ok(pgdir, va),
        ensures
            final(self).wf(),
            final(self).npage() == old(self).npage(),
            old(self).lookup(pgdir, va) is None ==> *final(self) == *old(self),
            old(self).lookup(pgdir, va) matches Some((q, _)) ==> {
                &&& final(self).mem() == old(self).mem().update(old(self).pte_index(pgdir, va), 0u32)
                &&& final(self).tlb_requests() == old(self).tlb_requests().push(tlb_entryhi(asid, va))
                &&& forall|x: int| 0 <= x < final(self).npage() ==> #[trigger] final(self).ref_of(x) == if x == q {
                    (old(self).ref_of(x) - 1) as u16
                } else {
                    old(self).ref_of(x)
                }
                &&& final(self).free_list() == if old(self).ref_of(q as int) == 1 {
                    seq![q] + old(self).free_list()
                } else {
                    old(self).free_list()
                }
            },
    {
        if let Some((pp, pte)) = self.page_lookup(pgdir, va) {
            proof {
                self.lemma_referenced_not_free(pp);
                self.lemma_pte_index(pgdir, va);
            }
            self.page_decref(pp);
            let ghost s1 = *self;
            self.write_word(pte, 0);
            let ghost s2 = *self;
            tlb_invalidate(self, asid, va);
            proof {
                assert forall|x: int| 0 <= x < self.npage() implies #[trigger] self.ref_of(x) == if x == pp {
                    (old(self).ref_of(x) - 1) as u16
                } else {
                    old(self).ref_of(x)
                } by {
                    assert(s2.ref_of(x) == s1.ref_of(x));
                }
            }
        }
    }

    /// Map the page `page` at `va` under the page directory at `pgdir`,
    /// with the permission bits `perm | PTE_C_CACHEABLE | PTE_V`, in the
    /// address space `asid`.
    ///
    /// If `page` is mapped at `va` already, only the permission changes.
    /// If another page is mapped there, it is removed first. Otherwise, a
    /// page table is allocated where the directory has none; if no page is
    /// left for it, `Err(KError::NoMem)` is returned. A new mapping adds a
    /// reference to `page`.
    pub fn page_insert(&mut self, pgdir: usize, va: usize, asid: u32, perm: u32, page: usize) -> (r: Result<(), KError>)
        requires
            old(self).wf(),
            old(self).mapping_ok(pgdir, va),
            !old(self).is_free(Self::kva_page(pgdir as int) as usize),
            page < old(self).npage(),
            !old(self).is_free(page),
            old(self).ref_of(page as int) < 0xffff,
            old(self).lookup(pgdir, va) matches Some((q, _)) && q != page ==> old(self).pte_index(pgdir, va)
                != Self::pde_index(pgdir, va),
        ensures
            final(self).wf(),
            final(self).npage() == old(self).npage(),
            insert_post(*old(self), *final(self), pgdir, va, asid, perm, page, r),
            r is Ok && perm < 4096 && (entry_valid(old(self).pde_of(pgdir, va)) ==> old(self).pte_index(pgdir, va)
                != Self::pde_index(pgdir, va)) ==> (final(self).lookup(pgdir, va) matches Some((p, _)) && p == page),
            perm < 4096 ==> final(self).walk_ok(pgdir, va),
    {
        let pp = page;
        proof {
            lemma_make_entry(pp as u32, perm);
        }
        let entry = ((pp * PAGE_SIZE) as u32) | perm | PTE_C_CACHEABLE | PTE_V;
        let ghost s0 = *self;
        if let Ok(Some(pte)) = self.pgdir_walk(pgdir, va, false) {
            proof {
                self.lemma_pte_index(pgdir, va);
            }
            let e = self.read_word(pte);
            if e & PTE_V != 0 {
                if pp != (e / 4096) as usize {
                    self.page_remove(pgdir, va, asid);
                } else {
                    tlb_invalidate(self, asid, va);
                    let ghost s1 = *self;
                    self.write_word(pte, entry);
                    proof {
                        assert forall|x: int| 0 <= x < self.npage() implies #[trigger] self.ref_of(x) == old(self).ref_of(x) by {
                            assert(s1.ref_of(x) == old(self).ref_of(x));
                        }
                        if self.pte_index(pgdir, va) == Self::pde_index(pgdir, va) {
                            assert(self.pde_of(pgdir, va) == entry);
                        }
                    }
                    return Ok(());
                }
            }
        }
        let ghost s2 = *self;
        tlb_invalidate(self, asid, va);
        let ghost s3 = *self;
        match self.pgdir_walk(pgdir, va, true) {
            Err(e) => {
                proof {
                    assert forall|x: int| 0 <= x < self.npage() implies #[trigger] self.ref_of(x) == old(self).ref_of(x) by {
                        assert(s3.ref_of(x) == old(self).ref_of(x));
                    }
                }
                Err(e)
            },
            Ok(None) => Ok(()),
            Ok(Some(pte)) => {
                let ghost s4 = *self;
                proof {
                    old(self).page_free_list.lemma_view_valid(old(self).pages@);
                    if old(self).lookup(pgdir, va) is Some {
                        assert(s3.ref_of(pp as int) == s2.ref_of(pp as int));
                        assert(s2.ref_of(pp as int) == old(self).ref_of(pp as int));
                    } else if entry_valid(old(self).pde_of(pgdir, va)) {
                        assert(s3.ref_of(pp as int) == s2.ref_of(pp as int));
                    } else {
                        let t = old(self).free_list()[0];
                        assert(old(self).free_list().contains(t));
                        assert(s3.ref_of(pp as int) == s2.ref_of(pp as int));
                        assert(s4.free_list() =~= old(self).free_list().drop_first());
                        assert(!s4.free_list().contains(pp)) by {
                            if s4.free_list().contains(pp) {
                                let k = s4.free_list().index_of(pp);
                                assert(old(self).free_list()[k + 1] == pp);
                            }
                        }
                    }
                    assert(s4.ref_of(pp as int) == old(self).ref_of(pp as int));
                    assert(!s4.is_free(pp));
                }
                self.write_word(pte, entry);
                let ghost s5 = *self;
                let n = self.page_ref(pp);
                self.set_ref(pp, n + 1);
                proof {
                    assert forall|x: int| 0 <= x < self.npage() implies #[trigger] self.ref_of(x) == if x == pp {
                        (s4.ref_of(x) + 1) as u16
                    } else {
                        s4.ref_of(x)
                    } by {
                        assert(s5.ref_of(x) == s4.ref_of(x));
                    }
                    if !entry_valid(old(self).pde_of(pgdir, va)) {
                        let t = old(self).free_list()[0] as int;
                        let k = Self::kva_page(pgdir as int);
                        let ti = t * 1024 + ptx_spec(va as int);
                        assert(ti != Self::pde_index(pgdir, va)) by (nonlinear_arith)
                            requires
                                t != k,
                                ti == t * 1024 + ptx_spec(va as int),
                                Self::pde_index(pgdir, va) == k * 1024 + pdx_spec(va as int),
                                0 <= ptx_spec(va as int) < 1024,
                                0 <= pdx_spec(va as int) < 1024,
                        ;
                        lemma_table_entry(t as u32);
                        assert(self.pde_of(pgdir, va) == table_entry(t));
                        assert(self.pte_index(pgdir, va) == ti);
                    }
                    assert(self.pte_of(pgdir, va) == entry);
                    if old(self).lookup(pgdir, va) is Some || entry_valid(old(self).pde_of(pgdir, va)) {
                        if old(self).pte_index(pgdir, va) == Self::pde_index(pgdir, va) {
                            assert(self.pde_of(pgdir, va) == entry);
                        }
                        assert(self.mem() =~= old(self).mem().update(
                            old(self).pte_index(pgdir, va),
                            make_entry(page as int, perm),
                        ));
                    } else {
                        let t = old(self).free_list()[0] as int;
                        assert(self.mem() =~= zero_page(old(self).mem(), t).update(
                            Self::pde_index(pgdir, va),
                            table_entry(t),
                        ).update(t * 1024 + ptx_spec(va as int), make_entry(page as int, perm)));
                        assert(self.free_list() =~= old(self).free_list().drop_first());
                    }
                }
                Ok(())
            },
        }
    }

    /// Record the `EntryHi` value of a TLB entry to invalidate.
    pub(crate) fn push_tlb_request(&mut self, entryhi: u32)
        requires
            old(self).wf(),
        ensures
            final(self).wf(),
            final(self).npage() == old(self).npage(),
            final(self).free_list() == old(self).free_list(),
            final(self).mem() == old(self).mem(),
            forall|q: int| 0 <= q < final(self).npage() ==> #[trigger] final(self).ref_of(q) == old(self).ref_of(q),
            final(self).tlb_requests() == old(self).tlb_requests().push(entryhi),
    {
        self.tlb_requests.push(entryhi);
    }

    /// Take the TLB invalidations requested so far, oldest first.
    pub fn take_tlb_requests(&mut self) -> (r: Vec<u32>)
        requires
            old(self).wf(),
        ensures
            final(self).wf(),
            r@ == old(self).tlb_requests(),
            final(self).tlb_requests().len() == 0,
            final(self).npage() == old(self).npage(),
            final(self).free_list() == old(self).free_list(),
            final(self).mem() == old(self).mem(),
            forall|q: int| 0 <= q < final(self).npage() ==> #[trigger] final(self).ref_of(q) == old(self).ref_of(q),
    {
        let mut r: Vec<u32> = Vec::new();
        std::mem::swap(&mut r, &mut self.tlb_requests);
        r
    }
}

/// The size in bytes of one entry of the page array in the kernel image.
pub const PAGE_NODE_SIZE: usize = 12;

/// The number of pages the kernel heap of the buddy system takes.
pub const KERN_HEAP_PAGES: usize = 512;

/// The number of physical pages in `memsize` bytes of memory.
pub fn mips_detect_memory(memsize: usize) -> (npage: usize)
    ensures
        npage == memsize / 4096,
{
    memsize / PAGE_SIZE
}

/// Where boot allocation starts: at `freemem`, or at `end`, the end of the
/// kernel image, while `freemem` is still zero.
pub open spec fn boot_start(freemem: usize, end: usize) -> int {
    if freemem == 0 {
        end as int
    } else {
        freemem as int
    }
}

/// Whether `n` bytes aligned to `align` bytes fit at the boot allocation
/// point into `memsize` bytes of memory.
pub open spec fn boot_fits(freemem: usize, end: usize, memsize: usize, n: usize, align: usize) -> bool {
    &&& boot_start(freemem, end) + align - 1 <= usize::MAX
    &&& round_up_spec(boot_start(freemem, end), align as int) + n <= usize::MAX
    &&& round_up_spec(boot_start(freemem, end), align as int) + n >= ULIM
    &&& round_up_spec(boot_start(freemem, end), align as int) + n - ULIM < memsize
}

/// Allocate `n` bytes aligned to `align` bytes of kernel memory, before the
/// page manager is ready. The allocation starts at the kernel address
/// `freemem`, or at `end` while `freemem` is zero; `freemem` is moved past
/// it, and its address is returned. The memory must hold it.
pub fn boot_alloc(freemem: &mut usize, end: usize, memsize: usize, n: usize, align: usize) -> (r: usize)
    requires
        is_pow2(align),
        boot_fits(*old(freemem), end, memsize, n, align),
    ensures
        r == round_up_spec(boot_start(*old(freemem), end), align as int),
        *final(freemem) == r + n,
{
    if *freemem == 0 {
        *freemem = end;
    }
    *freemem = round(*freemem, align);
    let alloced_mem = *freemem;
    *freemem = *freemem + n;
    alloced_mem
}

/// The kernel addresses of the page array and of the kernel heap that
/// [mips_vm_init] places at the boot allocation point.
pub open spec fn vm_layout(freemem: usize, end: usize, npage: usize) -> (int, int) {
    let pages = round_up_spec(boot_start(freemem, end), 4096);
    let heap = round_up_spec(pages + npage * PAGE_NODE_SIZE, 4096);
    (pages, heap)
}

/// Allocate the page array of `npage` pages and the kernel heap of
/// [KERN_HEAP_PAGES] pages at the boot allocation point, and hand the heap
/// to the buddy system. Returns the kernel addresses of the page array and
/// of the heap. The memory must hold both.
pub fn mips_vm_init<const C: usize>(
    freemem: &mut usize,
    end: usize,
    memsize: usize,
    npage: usize,
    buddy: &mut BuddyAllocator<C>,
) -> (r: (usize, usize))
    requires
        old(buddy).0.is_fresh(),
        1 <= C <= 32,
        npage <= MAX_NPAGE,
        boot_start(*old(freemem), end) + 4095 <= usize::MAX,
        vm_layout(*old(freemem), end, npage).0 + npage * PAGE_NODE_SIZE + 4095 <= usize::MAX,
        vm_layout(*old(freemem), end, npage).0 + npage * PAGE_NODE_SIZE >= ULIM,
        vm_layout(*old(freemem), end, npage).1 + KERN_HEAP_PAGES * 4096 - ULIM < memsize,
        memsize <= 0x8000_0000,
    ensures
        r.0 == vm_layout(*old(freemem), end, npage).0,
        r.1 == vm_layout(*old(freemem), end, npage).1,
        *final(freemem) == r.1 + KERN_HEAP_PAGES * 4096,
        final(buddy).0.wf(),
        final(buddy).0.npages() == KERN_HEAP_PAGES,
        final(buddy).0.start() == (r.1 - ULIM) / 4096,
        final(buddy).0.free_pages() == Set::new(|p: usize| p < KERN_HEAP_PAGES),
{
    proof {
        let st = boot_start(*freemem, end);
        let p = round_up_spec(st, 4096);
        let h = round_up_spec(p + npage * PAGE_NODE_SIZE, 4096);
        assert(st <= p) by (nonlinear_arith)
            requires
                p == (if st % 4096 == 0 { st } else { st - st % 4096 + 4096 }),
        ;
        assert(p + npage * PAGE_NODE_SIZE <= h) by (nonlinear_arith)
            requires
                h == (if (p + npage * PAGE_NODE_SIZE) % 4096 == 0 {
                    p + npage * PAGE_NODE_SIZE
                } else {
                    p + npage * PAGE_NODE_SIZE - (p + npage * PAGE_NODE_SIZE) % 4096 + 4096
                }),
        ;
    }
    let pages = boot_alloc(freemem, end, memsize, npage * PAGE_NODE_SIZE, PAGE_SIZE);
    let heap = boot_alloc(freemem, end, memsize, KERN_HEAP_PAGES * PAGE_SIZE, PAGE_SIZE);
    let page_start = (heap - ULIM) / PAGE_SIZE;
    buddy.init(page_start, KERN_HEAP_PAGES * PAGE_SIZE);
    (pages, heap)
}

/// Byte `addr` of the memory `mem`, read little-endian from its word.
pub open spec fn mem_byte(mem: Seq<u32>, addr: int) -> u8 {
    ((mem[addr / 4] >> (((addr % 4) * 8) as u32)) & 0xffu32) as u8
}

/// The word `w` with its byte `lane` replaced by `b`.
pub open spec fn set_byte(w: u32, lane: u32, b: u8) -> u32 {
    (w & !(0xffu32 << (lane * 8))) | ((b as u32) << (lane * 8))
}

/// Replacing a byte of a word replaces that byte and keeps the others.
proof fn lemma_set_byte(w: u32, lane: u32, b: u8)
    requires
        lane < 4,
    ensures
        forall|j: u32|
            j < 4 ==> #[trigger] ((set_byte(w, lane, b) >> (j * 8)) & 0xffu32) == if j == lane {
                b as u32
            } else {
                (w >> (j * 8)) & 0xffu32
            },
{
    assert forall|j: u32| j < 4 implies #[trigger] ((set_byte(w, lane, b) >> (j * 8)) & 0xffu32) == if j == lane {
        b as u32
    } else {
        (w >> (j * 8)) & 0xffu32
    } by {
        let bb = b as u32;
        assert(bb < 256);
        assert((((w & !(0xffu32 << (lane * 8))) | (bb << (lane * 8))) >> (j * 8)) & 0xffu32 == if j == lane {
            bb
        } else {
            (w >> (j * 8)) & 0xffu32
        }) by (bit_vector)
            requires
                lane < 4,
                j < 4,
                bb < 256,
        ;
    }
}

/// Whether `post` comes from `pre` by releasing only: zeros written to
/// memory, references dropped, pages freed at the head of the free list,
/// and TLB invalidations requested after the earlier ones.
pub open spec fn only_released(pre: Pmap, post: Pmap) -> bool {
    &&& post.npage() == pre.npage()
    &&& post.mem().len() == pre.mem().len()
    &&& forall|k: int| 0 <= k < post.mem().len() ==> #[trigger] post.mem()[k] == pre.mem()[k] || post.mem()[k] == 0
    &&& forall|q: int| 0 <= q < post.npage() ==> #[trigger] post.ref_of(q) <= pre.ref_of(q)
    &&& post.free_list().len() >= pre.free_list().len()
    &&& forall|k: int|
        0 <= k < pre.free_list().len() ==> #[trigger] post.free_list()[post.free_list().len() - pre.free_list().len() + k]
            == pre.free_list()[k]
    &&& post.tlb_requests().len() >= pre.tlb_requests().len()
    &&& forall|k: int| 0 <= k < pre.tlb_requests().len() ==> #[trigger] post.tlb_requests()[k] == pre.tlb_requests()[k]
}

/// Releasing nothing is releasing.
pub proof fn lemma_released_refl(a: Pmap)
    ensures
        only_released(a, a),
{
}

/// Releasing twice is releasing.
pub proof fn lemma_released_trans(a: Pmap, b: Pmap, c: Pmap)
    requires
        only_released(a, b),
        only_released(b, c),
    ensures
        only_released(a, c),
{
    assert forall|k: int| 0 <= k < c.mem().len() implies #[trigger] c.mem()[k] == a.mem()[k] || c.mem()[k] == 0 by {
        assert(b.mem()[k] == a.mem()[k] || b.mem()[k] == 0);
    }
    assert forall|q: int| 0 <= q < c.npage() implies #[trigger] c.ref_of(q) <= a.ref_of(q) by {
        assert(b.ref_of(q) <= a.ref_of(q));
    }
    assert forall|k: int| 0 <= k < a.free_list().len() implies #[trigger] c.free_list()[c.free_list().len() - a.free_list().len() + k]
        == a.free_list()[k] by {
        let j = b.free_list().len() - a.free_list().len() + k;
        assert(b.free_list()[j] == a.free_list()[k]);
        assert(c.free_list()[c.free_list().len() - b.free_list().len() + j] == b.free_list()[j]);
    }
    assert forall|k: int| 0 <= k < a.tlb_requests().len() implies #[trigger] c.tlb_requests()[k] == a.tlb_requests()[k] by {
        assert(b.tlb_requests()[k] == a.tlb_requests()[k]);
    }
}

/// The memory `mem` with the words of page `p` zeroed.
pub open spec fn zero_page(mem: Seq<u32>, p: int) -> Seq<u32> {
    Seq::new(mem.len(), |i: int| if p * 1024 <= i < p * 1024 + 1024 { 0u32 } else { mem[i] })
}

/// The `EntryHi` value that invalidates the TLB entry of `va` in the address
/// space `asid`: the virtual page pair of `va` and the ASID.
pub open spec fn tlb_entryhi(asid: u32, va: usize) -> u32 {
    ((va & !0x1fffusize) as u32) | (asid & 0xffu32)
}

/// The number of pages below the (page-aligned) kernel address `freemem`,
/// capped at `npage`.
pub open spec fn used_pages(npage: usize, freemem: usize) -> int {
    let below = if (freemem - ULIM) % 4096 == 0 {
        (freemem - ULIM) / 4096
    } else {
        (freemem - ULIM) / 4096 + 1
    };
    if below < npage {
        below
    } else {
        npage as int
    }
}

/// After a successful insertion of the page `page` at `va`, where the walk
/// of `va` stays in memory, its table entry is not the directory entry,
/// and the page directory is not free, the directory entry for `va` is
/// valid and the table entry for `va` is the one made for the page with the
/// permission `perm`; with the permission below the frame bits, `va` maps
/// the page.
pub proof fn lemma_insert_post_maps(
    pre: Pmap,
    post: Pmap,
    pgdir: usize,
    va: usize,
    asid: u32,
    perm: u32,
    page: usize,
)
    requires
        pre.wf(),
        pre.walk_ok(pgdir, va),
        entry_valid(pre.pde_of(pgdir, va)) ==> pre.pte_index(pgdir, va) != Pmap::pde_index(pgdir, va),
        !pre.is_free(Pmap::kva_page(pgdir as int) as usize),
        page < pre.npage(),
        insert_post(pre, post, pgdir, va, asid, perm, page, Ok(())),
    ensures
        entry_valid(post.pde_of(pgdir, va)),
        post.pte_of(pgdir, va) == make_entry(page as int, perm),
        entry_valid(post.pte_of(pgdir, va)),
        perm < 4096 ==> (post.lookup(pgdir, va) matches Some((x, _)) && x == page),
{
    pre.lemma_wf_facts();
    let k = Pmap::kva_page(pgdir as int);
    let di = Pmap::pde_index(pgdir, va);
    let x = ptx_spec(va as int);
    lemma_make_entry(page as u32, perm);
    assert(make_entry(page as int, perm) == ((page as u32 * 4096) as u32) | perm | 0x600u32 | 0x80u32);
    assert(0 <= di < pre.mem().len()) by (nonlinear_arith)
        requires
            di == k * 1024 + pdx_spec(va as int),
            0 <= k < pre.npage(),
            0 <= pdx_spec(va as int) < 1024,
            pre.mem().len() == pre.npage() * 1024,
    ;
    if entry_valid(pre.pde_of(pgdir, va)) {
        let t = entry_page(pre.pde_of(pgdir, va));
        let pi = pre.pte_index(pgdir, va);
        assert(0 <= pi < pre.mem().len()) by (nonlinear_arith)
            requires
                pi == t * 1024 + x,
                0 <= t < pre.npage(),
                0 <= x < 1024,
                pre.mem().len() == pre.npage() * 1024,
        ;
        assert(post.mem() == pre.mem().update(pi, make_entry(page as int, perm)));
        assert(post.pde_of(pgdir, va) == pre.pde_of(pgdir, va));
        assert(post.pte_index(pgdir, va) == pi);
    } else {
        assert(pre.free_list().len() > 0);
        let t = pre.free_list()[0] as int;
        assert(pre.is_free(t as usize));
        assert(t != k);
        let ti = t * 1024 + x;
        assert(ti != di) by (nonlinear_arith)
            requires
                t != k,
                ti == t * 1024 + x,
                di == k * 1024 + pdx_spec(va as int),
                0 <= x < 1024,
                0 <= pdx_spec(va as int) < 1024,
        ;
        assert(0 <= ti < pre.mem().len()) by (nonlinear_arith)
            requires
                ti == t * 1024 + x,
                0 <= t < pre.npage(),
                0 <= x < 1024,
                pre.mem().len() == pre.npage() * 1024,
        ;
        lemma_table_entry(t as u32);
        assert(post.pde_of(pgdir, va) == table_entry(t));
        assert(post.pte_index(pgdir, va) == ti);
    }
}

/// The entry made for a page has the writable (`PTE_D`) bit exactly where
/// its permission has it.
pub proof fn lemma_make_entry_dirty(page: u32, perm: u32)
    requires
        page < 0x8_0000,
    ensures
        (make_entry(page as int, perm) & 0x100u32 != 0) == (perm & 0x100u32 != 0),
{
    assert(((page * 4096) as u32) == page << 12u32 && (((page << 12u32) | perm | 0x600u32 | 0x80u32) & 0x100u32 != 0)
        == (perm & 0x100u32 != 0)) by (bit_vector)
        requires
            page < 0x8_0000,
    ;
}

/// Law: on an address space consistent at `va`, see
/// [space_consistent_at](Pmap::space_consistent_at), a page whose
/// reference count is below the counter's limit may be mapped at `va`:
/// [insert_safe](Pmap::insert_safe) holds.
pub proof fn law_consistent_insert_safe(pmap: Pmap, pgdir: usize, va: usize, page: usize)
    requires
        pmap.wf(),
        pmap.space_consistent_at(pgdir, va),
        pmap.ref_of(page as int) < 0xffff,
    ensures
        pmap.insert_safe(pgdir, va, page),
{
    if entry_valid(pmap.pde_of(pgdir, va)) {
        let t = entry_page(pmap.pde_of(pgdir, va));
        let g = Pmap::kva_page(pgdir as int);
        let x = ptx_spec(va as int);
        let d = pdx_spec(va as int);
        assert(t * 1024 + x != g * 1024 + d) by (nonlinear_arith)
            requires
                t != g,
                0 <= x < 1024,
                0 <= d < 1024,
        ;
    }
}

/// Allocating a page keeps an address space consistent at `va`: the page
/// taken was free, so it is none of the pages the space holds there.
pub proof fn lemma_alloc_keeps_consistent(pre: Pmap, post: Pmap, pgdir: usize, va: usize)
    requires
        pre.wf(),
        pre.free_list().len() > 0,
        alloc_post(pre, post, Ok(pre.free_list()[0])),
        post.npage() == pre.npage(),
        pre.space_consistent_at(pgdir, va),
    ensures
        post.space_consistent_at(pgdir, va),
        post.ref_of(pre.free_list()[0] as int) == 0,
        post.pde_of(pgdir, va) == pre.pde_of(pgdir, va),
        post.lookup(pgdir, va) == pre.lookup(pgdir, va),
{
    pre.lemma_wf_facts();
    let p = pre.free_list()[0] as int;
    assert(pre.is_free(p as usize));
    let g = Pmap::kva_page(pgdir as int);
    let di = Pmap::pde_index(pgdir, va);
    assert(g != p);
    assert(!(p * 1024 <= di < p * 1024 + 1024)) by (nonlinear_arith)
        requires
            g != p,
            di == g * 1024 + pdx_spec(va as int),
            0 <= pdx_spec(va as int) < 1024,
    ;
    assert(post.pde_of(pgdir, va) == pre.pde_of(pgdir, va));
    if entry_valid(pre.pde_of(pgdir, va)) {
        let t = entry_page(pre.pde_of(pgdir, va));
        assert(t != p);
        let pi = pre.pte_index(pgdir, va);
        assert(!(p * 1024 <= pi < p * 1024 + 1024)) by (nonlinear_arith)
            requires
                t != p,
                pi == t * 1024 + ptx_spec(va as int),
                0 <= ptx_spec(va as int) < 1024,
        ;
        assert(post.pte_of(pgdir, va) == pre.pte_of(pgdir, va));
    }
}

/// Law: freeing the page just allocated gives back the free list as it
/// was, see [page_alloc](Pmap::page_alloc) and [page_free](Pmap::page_free).
pub proof fn law_alloc_then_free(before: Pmap, allocated: Pmap, freed: Pmap, page: usize)
    requires
        alloc_post(before, allocated, Ok(page)),
        before.free_list().len() > 0,
        freed.free_list() == seq![page] + allocated.free_list(),
    ensures
        freed.free_list() == before.free_list(),
{
    assert(freed.free_list() =~= before.free_list());
}

/// Law: once the page at `va` is removed, see
/// [page_remove](Pmap::page_remove), nothing is mapped at `va`.
pub proof fn law_remove_then_lookup(pre: Pmap, post: Pmap, pgdir: usize, va: usize)
    requires
        pre.wf(),
        pre.walk_ok(pgdir, va),
        pre.lookup(pgdir, va) is Some,
        post.mem() == pre.mem().update(pre.pte_index(pgdir, va), 0u32),
    ensures
        post.lookup(pgdir, va) is None,
{
    pre.lemma_wf_facts();
    pre.lemma_pte_index(pgdir, va);
    assert(!entry_valid(0u32)) by (bit_vector);
    if Pmap::pde_index(pgdir, va) != pre.pte_index(pgdir, va) {
        assert(post.pde_of(pgdir, va) == pre.pde_of(pgdir, va));
        assert(post.pte_index(pgdir, va) == pre.pte_index(pgdir, va));
        assert(post.pte_of(pgdir, va) == 0u32);
    } else {
        assert(post.pde_of(pgdir, va) == 0u32);
    }
}

} // verus!
