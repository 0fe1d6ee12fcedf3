//! The TLB handlers' decisions: the `EntryHi` of an invalidation, the
//! passive allocation on a TLB miss and the TLB modification exception.

use vstd::prelude::*;
use crate::consts::error::KError;
use crate::memory::pmap::{
    alloc_post, entry_valid, insert_post, tlb_entryhi as tlb_entryhi_spec, Pmap,
};
use crate::memory::regions::{
    gen_mask, pdx_spec, ptx_spec, NASID, PAGE_SIZE, PGSHIFT, PTE_D, UENVS, ULIM, UPAGES, USTACKTOP,
    UTEMP, UVPT,
};

verus! {

/// The `EntryHi` value that invalidates the TLB entry of `va` in the address
/// space `asid`: `va` with the low `PGSHIFT + 1` bits cleared (an entry maps
/// a pair of pages), and the ASID.
pub fn tlb_entryhi(asid: u32, va: usize) -> (r: u32)
    ensures
        r == tlb_entryhi_spec(asid, va),
{
    let m = gen_mask(PGSHIFT as u32, 0);
    proof {
        assert((0xffff_ffffu32 << 0u32) & (0xffff_ffffu32 >> ((31 - 12) as u32)) == 0x1fffu32 && (va & !(
        0x1fffu32 as usize)) as u32 == (va & !0x1fffusize) as u32 && asid & ((256 - 1) as u32) == asid & 0xffu32)
            by (bit_vector);
    }
    (va & !(m as usize)) as u32 | (asid & (NASID - 1))
}

/// Invalidate the TLB entry of `va` in the address space `asid`: the
/// request is recorded in the page manager, to be carried out on the TLB.
pub fn tlb_invalidate(pmap: &mut Pmap, asid: u32, va: usize)
    requires
        old(pmap).wf(),
    ensures
        final(pmap).wf(),
        final(pmap).npage() == old(pmap).npage(),
        final(pmap).free_list() == old(pmap).free_list(),
        final(pmap).mem() == old(pmap).mem(),
        forall|q: int| 0 <= q < final(pmap).npage() ==> #[trigger] final(pmap).ref_of(q) == old(pmap).ref_of(q),
        final(pmap).tlb_requests() == old(pmap).tlb_requests().push(tlb_entryhi_spec(asid, va)),
{
    let entryhi = tlb_entryhi(asid, va);
    pmap.push_tlb_request(entryhi);
}

/// Whether a TLB miss at `va` may be served by allocating a page: the
/// address is a user address, above the lowest pages, and not the guard
/// page above the user stack nor the read-only windows onto the envs and
/// the pages.
pub open spec fn passive_va_ok(va: usize) -> bool {
    &&& va >= UTEMP
    &&& !(USTACKTOP <= va < USTACKTOP + PAGE_SIZE)
    &&& !(UENVS <= va < UPAGES)
    &&& !(UPAGES <= va < UVPT)
    &&& va < ULIM
}

/// The permission of a passively allocated page at `va`: read-only in the
/// window onto the page tables, writable elsewhere.
pub open spec fn passive_perm(va: usize) -> u32 {
    if UVPT <= va < ULIM {
        0
    } else {
        PTE_D
    }
}

/// Whether a page can be allocated and mapped at `va` under the page
/// directory at `pgdir` without running out of pages: one page for the
/// mapping, and one more if a page table is needed.
pub open spec fn passive_alloc_ok(pmap: Pmap, va: usize, pgdir: usize) -> bool {
    &&& passive_va_ok(va)
    &&& pmap.mapping_ok(pgdir, va)
    &&& !pmap.is_free(Pmap::kva_page(pgdir as int) as usize)
    &&& pmap.lookup(pgdir, va) is Some ==> pmap.pte_index(pgdir, va) != Pmap::pde_index(pgdir, va)
    &&& pmap.free_list().len() >= if entry_valid(pmap.pde_of(pgdir, va)) {
        1nat
    } else {
        2nat
    }
}

/// What [passive_alloc] does: the first free page is allocated and mapped
/// at the page of `va`, with the permission of [passive_perm].
pub open spec fn passive_post(pre: Pmap, post: Pmap, va: usize, pgdir: usize, asid: u32) -> bool {
    exists|mid: Pmap|
        {
            &&& alloc_post(pre, mid, Ok(pre.free_list()[0]))
            &&& #[trigger] mid.wf()
            &&& mid.npage() == pre.npage()
            &&& insert_post(
                mid,
                post,
                pgdir,
                (va - va % 4096) as usize,
                asid,
                passive_perm(va),
                pre.free_list()[0],
                Ok(()),
            )
        }
}

/// The page of `va` walks the page tables as `va` does.
proof fn lemma_page_of_va(pmap: Pmap, pgdir: usize, va: usize)
    ensures
        pdx_spec((va - va % 4096) as int) == pdx_spec(va as int),
        ptx_spec((va - va % 4096) as int) == ptx_spec(va as int),
        Pmap::pde_index(pgdir, (va - va % 4096) as usize) == Pmap::pde_index(pgdir, va),
        pmap.pde_of(pgdir, (va - va % 4096) as usize) == pmap.pde_of(pgdir, va),
        pmap.pte_index(pgdir, (va - va % 4096) as usize) == pmap.pte_index(pgdir, va),
        pmap.lookup(pgdir, (va - va % 4096) as usize) == pmap.lookup(pgdir, va),
{
    let v = va as int;
    let w = v - v % 4096;
    assert(w / 4096 == v / 4096) by (nonlinear_arith)
        requires
            w == v - v % 4096,
            v >= 0,
    ;
    assert(w / 0x40_0000 == v / 0x40_0000) by (nonlinear_arith)
        requires
            w == v - v % 4096,
            v >= 0,
    ;
}

/// Serve a TLB miss at the unmapped `va` by allocating a page and mapping
/// it at the page of `va` under the page directory at `pgdir`, in the
/// address space `asid`. The page is read-only in the window onto the page
/// tables and writable elsewhere.
pub fn passive_alloc(pmap: &mut Pmap, va: usize, pgdir: usize, asid: u32)
    requires
        old(pmap).wf(),
        passive_alloc_ok(*old(pmap), va, pgdir),
    ensures
        final(pmap).wf(),
        final(pmap).npage() == old(pmap).npage(),
        passive_post(*old(pmap), *final(pmap), va, pgdir, asid),
        final(pmap).lookup(pgdir, va) matches Some((p, _)) && p == old(pmap).free_list()[0],
        final(pmap).walk_ok(pgdir, va),
{
    proof {
        old(pmap).lemma_wf_facts();
    }
    let pp = match pmap.page_alloc() {
        Ok(pp) => pp,
        Err(_) => {
            return;
        },
    };
    let ghost mid = *pmap;
    let page_va = va & !0xfffusize;
    let perm = if UVPT <= va && va < ULIM {
        0
    } else {
        PTE_D
    };
    proof {
        crate::utils::bits::lemma_usize_bits(va);
        lemma_page_of_va(*old(pmap), pgdir, va);
        lemma_page_of_va(mid, pgdir, va);
        let k = Pmap::kva_page(pgdir as int);
        let di = Pmap::pde_index(pgdir, va);
        assert(0 <= pdx_spec(va as int) < 1024);
        assert(k * 1024 <= di < k * 1024 + 1024);
        assert(old(pmap).is_free(pp));
        assert(pp as int != k);
        assert(mid.ref_of(pp as int) == old(pmap).ref_of(pp as int));
        assert(!(pp * 1024 <= di < pp * 1024 + 1024)) by (nonlinear_arith)
            requires
                pp as int != k,
                k * 1024 <= di < k * 1024 + 1024,
        ;
        assert(mid.pde_of(pgdir, va) == old(pmap).pde_of(pgdir, va));
        assert(!mid.is_free(pp)) by {
            if mid.free_list().contains(pp) {
                let j = mid.free_list().index_of(pp);
                assert(old(pmap).free_list()[j + 1] == pp);
            }
        }
        assert(!mid.is_free(k as usize)) by {
            if mid.free_list().contains(k as usize) {
                let j = mid.free_list().index_of(k as usize);
                assert(old(pmap).free_list()[j + 1] == k as usize);
            }
        }
        if entry_valid(mid.pde_of(pgdir, va)) {
            let pi = mid.pte_index(pgdir, va);
            if pi == di {
                assert(mid.pte_of(pgdir, va) == mid.pde_of(pgdir, va));
            }
            if mid.lookup(pgdir, va) is Some {
                if pp * 1024 <= pi < pp * 1024 + 1024 {
                    assert(mid.pte_of(pgdir, va) == 0);
                    crate::utils::bits::lemma_const_bits();
                }
                assert(mid.pte_of(pgdir, va) == old(pmap).pte_of(pgdir, va));
            }
        }
        assert(mid.mapping_ok(pgdir, page_va));
    }
    let r = pmap.page_insert(pgdir, page_va, asid, perm, pp);
    proof {
        assert(passive_post(*old(pmap), *pmap, va, pgdir, asid)) by {
            assert(alloc_post(*old(pmap), mid, Ok(old(pmap).free_list()[0])));
        }
        lemma_page_of_va(*pmap, pgdir, va);
    }
}

/// The two `EntryLo` values of the TLB entry that holds the table entry
/// with word index `i`: the even and the odd entry of its pair, shifted
/// into the `EntryLo` layout.
pub open spec fn refill_entries(mem: Seq<u32>, i: int) -> Seq<u32> {
    seq![mem[i - i % 2] >> 6u32, mem[i - i % 2 + 1] >> 6u32]
}

/// Whether `post` is `pre` with one more TLB invalidation requested, of
/// `va` in the address space `asid`, and nothing else changed.
pub open spec fn invalidated(pre: Pmap, post: Pmap, asid: u32, va: usize) -> bool {
    &&& post.wf()
    &&& post.npage() == pre.npage()
    &&& post.mem() == pre.mem()
    &&& post.free_list() == pre.free_list()
    &&& forall|q: int| 0 <= q < post.npage() ==> #[trigger] post.ref_of(q) == pre.ref_of(q)
    &&& post.tlb_requests() == pre.tlb_requests().push(tlb_entryhi_spec(asid, va))
}

/// Two page managers that agree on the memory, the free list and the
/// reference counts agree on every walk, lookup and passive allocation.
proof fn lemma_same_pages(a: Pmap, b: Pmap, pgdir: usize, va: usize)
    requires
        a.npage() == b.npage(),
        a.mem() == b.mem(),
        a.free_list() == b.free_list(),
        forall|q: int| 0 <= q < a.npage() ==> #[trigger] a.ref_of(q) == b.ref_of(q),
    ensures
        a.walk_ok(pgdir, va) == b.walk_ok(pgdir, va),
        a.lookup(pgdir, va) == b.lookup(pgdir, va),
        passive_alloc_ok(a, va, pgdir) == passive_alloc_ok(b, va, pgdir),
{
    if let Some((p, _)) = a.lookup(pgdir, va) {
        if p < a.npage() {
            assert(a.ref_of(p as int) == b.ref_of(p as int));
        }
    }
}

/// The `EntryLo` pair of the table entry at the kernel address `ppte`.
fn entry_pair(pmap: &Pmap, ppte: usize) -> (r: [u32; 2])
    requires
        pmap.wf(),
        ppte >= ULIM,
        (ppte - ULIM) % 4 == 0,
        (ppte - ULIM) / 4 < pmap.mem().len(),
    ensures
        r@ == refill_entries(pmap.mem(), (ppte - ULIM) / 4),
{
    let ghost i = (ppte - ULIM) / 4;
    proof {
        pmap.lemma_wf_facts();
        crate::utils::bits::lemma_usize_bits(ppte);
        assert(ppte - ppte % 8 == ULIM + (i - i % 2) * 4) by (nonlinear_arith)
            requires
                ppte == ULIM + i * 4,
                ULIM % 8 == 0,
                i >= 0,
        ;
        assert(i - i % 2 + 1 < pmap.mem().len()) by (nonlinear_arith)
            requires
                0 <= i < pmap.mem().len(),
                pmap.mem().len() == pmap.npage() * 1024,
        ;
    }
    let even = ppte & !0x7usize;
    let lo0 = pmap.read_word(even) >> 6;
    let lo1 = pmap.read_word(even + 4) >> 6;
    let r = [lo0, lo1];
    proof {
        assert(r@ =~= refill_entries(pmap.mem(), i));
    }
    r
}

/// Refill the TLB for a miss at `va` in the address space `asid`, under the
/// page directory at `pgdir`: the TLB entry of `va` is invalidated, a page
/// is allocated and mapped at `va` if none is, and the `EntryLo` pair of the
/// table entry of `va` is written to `pentrylo`.
pub fn _do_tlb_refill(pmap: &mut Pmap, pentrylo: &mut [u32; 2], va: usize, asid: u32, pgdir: usize)
    requires
        old(pmap).wf(),
        old(pmap).walk_ok(pgdir, va),
        old(pmap).lookup(pgdir, va) is None ==> passive_alloc_ok(*old(pmap), va, pgdir),
    ensures
        final(pmap).wf(),
        final(pmap).npage() == old(pmap).npage(),
        old(pmap).lookup(pgdir, va) is Some ==> invalidated(*old(pmap), *final(pmap), asid, va),
        old(pmap).lookup(pgdir, va) is None ==> exists|t: Pmap|
            invalidated(*old(pmap), t, asid, va) && #[trigger] passive_post(t, *final(pmap), va, pgdir, asid),
        final(pmap).lookup(pgdir, va) matches Some((_, pte)) && final(pentrylo)@ == refill_entries(
            final(pmap).mem(),
            (pte - ULIM) / 4,
        ),
{
    tlb_invalidate(pmap, asid, va);
    let ghost t = *pmap;
    proof {
        lemma_same_pages(t, *old(pmap), pgdir, va);
    }
    let mut found = pmap.page_lookup(pgdir, va);
    if found.is_none() {
        passive_alloc(pmap, va, pgdir, asid);
        found = pmap.page_lookup(pgdir, va);
    }
    if let Some((_, ppte)) = found {
        proof {
            pmap.lemma_wf_facts();
            pmap.lemma_pte_index(pgdir, va);
        }
        *pentrylo = entry_pair(pmap, ppte);
    }
}

/// Whether a kernel access to the user address `va` under the page
/// directory at `pgdir` can be served: `va` is mapped, or the TLB refill can
/// map a fresh page at it, see [passive_alloc]: no page is mapped there, a
/// page may be allocated passively at `va`, the page directory is referenced,
/// and a page is free, two if a page table is needed too. Otherwise the
/// refill panics.
pub open spec fn fault_allowed(pmap: Pmap, va: usize, pgdir: usize) -> bool {
    ||| pmap.translate_spec(pgdir, va) is Some
    ||| {
        &&& pmap.walk_ok(pgdir, va)
        &&& pmap.lookup(pgdir, va) is None
        &&& passive_va_ok(va)
        &&& pmap.ref_of(Pmap::kva_page(pgdir as int)) > 0
        &&& pmap.free_list().len() >= if entry_valid(pmap.pde_of(pgdir, va)) {
            1nat
        } else {
            2nat
        }
    }
}

/// What a kernel access to the user address `va` under the page directory
/// at `pgdir`, in the address space `asid`, does to the page manager `pre`,
/// leaving `post`: nothing where `va` is mapped; otherwise the TLB refill
/// maps a fresh page at it, see [passive_post].
pub open spec fn fault_step(pre: Pmap, post: Pmap, va: usize, pgdir: usize, asid: u32) -> bool {
    if pre.translate_spec(pgdir, va) is Some {
        post == pre
    } else {
        passive_post(pre, post, va, pgdir, asid)
    }
}

/// Serve a kernel access to the user address `va` under the page directory
/// at `pgdir`, in the address space `asid`, as the TLB refill does: where
/// no page is mapped at `va`, a fresh one is, see [passive_alloc]. Returns
/// whether `va` is mapped now; `false`, with nothing changed, where the
/// refill cannot serve it, see [fault_allowed].
pub fn fault_in(pmap: &mut Pmap, va: usize, pgdir: usize, asid: u32) -> (r: bool)
    requires
        old(pmap).wf(),
        old(pmap).is_page_kva(pgdir),
    ensures
        final(pmap).wf(),
        final(pmap).npage() == old(pmap).npage(),
        r == fault_allowed(*old(pmap), va, pgdir),
        r ==> fault_step(*old(pmap), *final(pmap), va, pgdir, asid),
        r ==> final(pmap).translate_spec(pgdir, va) is Some,
        !r ==> *final(pmap) == *old(pmap),
{
    if pmap.translate(pgdir, va).is_some() {
        return true;
    }
    if !pmap.walk_checked(pgdir, va) {
        return false;
    }
    if pmap.page_lookup(pgdir, va).is_some() || !passive_va_check(va) {
        return false;
    }
    let pg = (pgdir - ULIM) / PAGE_SIZE;
    if pmap.page_ref(pg) == 0 {
        return false;
    }
    let need: usize = if pmap.pde_valid(pgdir, va) {
        1
    } else {
        2
    };
    if !pmap.free_at_least(need) {
        return false;
    }
    proof {
        pmap.lemma_referenced_not_free(pg);
        assert(passive_alloc_ok(*pmap, va, pgdir));
    }
    passive_alloc(pmap, va, pgdir, asid);
    proof {
        let p = old(pmap).free_list()[0];
        old(pmap).lemma_wf_facts();
        assert(old(pmap).free_list().contains(p));
    }
    true
}

/// Law: a page allocated passively at a user address below the window onto
/// the page tables is mapped writable, and one in that window read-only:
/// after [passive_alloc], `va` maps the first free page, with the `PTE_D`
/// bit set in its table entry exactly where `va` lies below `UVPT`.
pub proof fn law_passive_page_writable(pre: Pmap, post: Pmap, va: usize, pgdir: usize, asid: u32)
    requires
        pre.wf(),
        passive_alloc_ok(pre, va, pgdir),
        passive_post(pre, post, va, pgdir, asid),
    ensures
        post.lookup(pgdir, va) matches Some((x, _)) && x == pre.free_list()[0],
        va < UVPT ==> post.pte_of(pgdir, va) & PTE_D != 0,
        UVPT <= va < ULIM ==> post.pte_of(pgdir, va) & PTE_D == 0,
{
    pre.lemma_wf_facts();
    let p = pre.free_list()[0];
    let vp = (va - va % 4096) as usize;
    let mid = choose|mid: Pmap|
        {
            &&& alloc_post(pre, mid, Ok(pre.free_list()[0]))
            &&& #[trigger] mid.wf()
            &&& mid.npage() == pre.npage()
            &&& insert_post(mid, post, pgdir, vp, asid, passive_perm(va), pre.free_list()[0], Ok(()))
        };
    lemma_page_of_va(pre, pgdir, va);
    lemma_page_of_va(mid, pgdir, va);
    lemma_page_of_va(post, pgdir, va);
    let k = Pmap::kva_page(pgdir as int);
    let di = Pmap::pde_index(pgdir, va);
    assert(pre.is_free(p));
    assert(p as int != k);
    assert(0 <= pdx_spec(va as int) < 1024);
    assert(!(p * 1024 <= di < p * 1024 + 1024)) by (nonlinear_arith)
        requires
            p as int != k,
            di == k * 1024 + pdx_spec(va as int),
            0 <= pdx_spec(va as int) < 1024,
    ;
    assert(mid.pde_of(pgdir, va) == pre.pde_of(pgdir, va));
    assert(!mid.is_free(k as usize)) by {
        if mid.free_list().contains(k as usize) {
            let j = mid.free_list().index_of(k as usize);
            assert(pre.free_list()[j + 1] == k as usize);
        }
    }
    if entry_valid(pre.pde_of(pgdir, va)) && pre.lookup(pgdir, va) is None {
        if pre.pte_index(pgdir, va) == di {
            assert(pre.pte_of(pgdir, va) == pre.pde_of(pgdir, va));
        }
    }
    crate::memory::pmap::lemma_insert_post_maps(mid, post, pgdir, vp, asid, passive_perm(va), p);
    crate::memory::pmap::lemma_make_entry_dirty(p as u32, passive_perm(va));
    assert(PTE_D & 0x100u32 != 0 && 0u32 & 0x100u32 == 0) by (bit_vector);
}

/// Whether a page may be allocated passively at `va`, see [passive_va_ok].
fn passive_va_check(va: usize) -> (r: bool)
    ensures
        r == passive_va_ok(va),
{
    va >= UTEMP && !(USTACKTOP <= va && va < USTACKTOP + PAGE_SIZE) && !(UENVS <= va && va < UPAGES) && !(UPAGES
        <= va && va < UVPT) && va < ULIM
}

/// Whether [tlb_refill_checked] refills the TLB for a miss at `va` under
/// the page directory at `pgdir`: the walk of `va` stays in memory, and, if
/// no page is mapped there, a page may be allocated passively at `va`, the
/// page directory is referenced, a page could be mapped there, and two pages
/// are free.
pub open spec fn refill_allowed(pmap: Pmap, va: usize, pgdir: usize) -> bool {
    &&& pmap.walk_ok(pgdir, va)
    &&& pmap.lookup(pgdir, va) is None ==> {
        &&& pmap.npage() > 0
        &&& passive_va_ok(va)
        &&& pmap.insert_safe(pgdir, va, 0)
        &&& pmap.free_list().len() >= 2
    }
}

/// Refill the TLB for a miss at `va`, see [_do_tlb_refill], once what it
/// needs is checked: the walk of `va` stays in memory, and, if no page is
/// mapped there, a page may be allocated passively, the page directory is
/// referenced and two pages are free. `false` is returned, and nothing
/// changes, if a check fails, which is a kernel panic.
pub fn tlb_refill_checked(pmap: &mut Pmap, pentrylo: &mut [u32; 2], va: usize, asid: u32, pgdir: usize) -> (r: bool)
    requires
        old(pmap).wf(),
        old(pmap).is_page_kva(pgdir),
    ensures
        final(pmap).wf(),
        final(pmap).npage() == old(pmap).npage(),
        r == refill_allowed(*old(pmap), va, pgdir),
        !r ==> *final(pmap) == *old(pmap) && *final(pentrylo) == *old(pentrylo),
        r ==> old(pmap).walk_ok(pgdir, va),
        r && old(pmap).lookup(pgdir, va) is Some ==> invalidated(*old(pmap), *final(pmap), asid, va),
        r && old(pmap).lookup(pgdir, va) is None ==> passive_alloc_ok(*old(pmap), va, pgdir) && exists|t: Pmap|
            invalidated(*old(pmap), t, asid, va) && #[trigger] passive_post(t, *final(pmap), va, pgdir, asid),
        r ==> (final(pmap).lookup(pgdir, va) matches Some((_, pte)) && final(pentrylo)@ == refill_entries(
            final(pmap).mem(),
            (pte - ULIM) / 4,
        )),
{
    if !pmap.walk_checked(pgdir, va) {
        return false;
    }
    if pmap.page_lookup(pgdir, va).is_none() {
        proof {
            pmap.lemma_wf_facts();
        }
        if pmap.page_count() == 0 || !passive_va_check(va) || !pmap.can_insert(pgdir, va, 0) || !pmap.free_at_least(2) {
            return false;
        }
    }
    _do_tlb_refill(pmap, pentrylo, va, asid, pgdir);
    true
}

} // verus!
