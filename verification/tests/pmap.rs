use rusty_mos::memory::pmap::{boot_alloc, mips_detect_memory, Pmap};
use rusty_mos::memory::regions::{PAGE_SIZE, PDMAP, PTE_C_CACHEABLE, PTE_V, ULIM};
use rusty_mos::memory::tlbex::_do_tlb_refill;

const NPAGE: usize = 64;

fn kva(p: usize) -> usize {
    ULIM + p * PAGE_SIZE
}

fn fresh() -> Pmap {
    let mut freemem = ULIM;
    Pmap::page_init(NPAGE, &mut freemem)
}

/// The page-aligned physical address `va` maps to, or all ones.
fn va2pa(pm: &Pmap, pgdir: usize, va: usize) -> usize {
    match pm.translate(pgdir, va) {
        Some(a) => a & !0xfff,
        None => !0,
    }
}

fn take_all(pm: &mut Pmap) -> Vec<usize> {
    let mut all = Vec::new();
    while let Ok(p) = pm.page_alloc() {
        all.push(p);
    }
    all
}

#[test]
fn test_page() {
    let mut pm = fresh();
    let pp = pm.page_alloc().unwrap();
    let boot_pgdir = kva(pp);

    let pp0 = pm.page_alloc().unwrap();
    let pp1 = pm.page_alloc().unwrap();
    let pp2 = pm.page_alloc().unwrap();
    assert!(pp1 != pp0);
    assert!(pp2 != pp0);

    let zfl = take_all(&mut pm);
    assert!(pm.page_alloc().is_err());
    assert!(pm.page_insert(boot_pgdir, 0, 0, 0, pp1).is_err());
    pm.page_free(pp0);
    assert!(pm.page_insert(boot_pgdir, 0, 0, 0, pp1).is_ok());

    assert_eq!(PTE_C_CACHEABLE | PTE_V, pm.read_word(boot_pgdir) & 0xfff);
    assert_eq!((pp0 * PAGE_SIZE) as u32, pm.read_word(boot_pgdir) & !0xfff);
    assert_eq!(PTE_C_CACHEABLE | PTE_V, pm.read_word(kva(pp0)) & 0xfff);

    pm.store_word(kva(pp2), 1000);
    for p in zfl.into_iter().rev() {
        pm.page_free(p);
    }
    pm.page_free(pp2);
    assert_eq!(1000, pm.read_word(kva(pp2)));

    let again = pm.page_alloc().unwrap();
    assert_eq!(again, pp2);
    assert_eq!(0, pm.read_word(kva(pp2)));
}

#[test]
fn test_page_strong() {
    let mut pm = fresh();
    let pp = pm.page_alloc().unwrap();
    let boot_pgdir = kva(pp);

    let pp0 = pm.page_alloc().unwrap();
    let pp1 = pm.page_alloc().unwrap();
    let pp2 = pm.page_alloc().unwrap();
    let pp3 = pm.page_alloc().unwrap();
    let pp4 = pm.page_alloc().unwrap();
    assert!(pp1 != pp0);
    assert!(pp2 != pp0 && pp2 != pp1);
    assert!(pp3 != pp0 && pp3 != pp2 && pp3 != pp1);
    assert!(pp4 != pp0 && pp4 != pp3 && pp4 != pp2 && pp4 != pp1);

    let zfl = take_all(&mut pm);

    assert!(pm.page_insert(boot_pgdir, 0, 0, 0, pp1).is_err());
    assert!(matches!(pm.page_alloc(), Err(rusty_mos::consts::error::KError::NoMem)));

    pm.page_free(pp0);
    assert!(pm.page_insert(boot_pgdir, 0, 0, 0, pp1).is_ok());
    assert!(pm.page_insert(boot_pgdir, PAGE_SIZE, 0, 0, pp2).is_ok());
    assert!(pm.page_insert(boot_pgdir, PAGE_SIZE * 2, 0, 0, pp3).is_ok());
    assert_eq!(pp0 * PAGE_SIZE, (pm.read_word(boot_pgdir) & !0xfff) as usize);

    assert_eq!(va2pa(&pm, boot_pgdir, 0), pp1 * PAGE_SIZE);
    assert_eq!(pm.page_ref(pp1), 1);
    assert_eq!(va2pa(&pm, boot_pgdir, PAGE_SIZE), pp2 * PAGE_SIZE);
    assert_eq!(pm.page_ref(pp2), 1);
    assert_eq!(va2pa(&pm, boot_pgdir, PAGE_SIZE * 2), pp3 * PAGE_SIZE);
    assert_eq!(pm.page_ref(pp3), 1);

    assert!(pm.page_insert(boot_pgdir, PAGE_SIZE, 0, 0, pp2).is_ok());
    assert_eq!(va2pa(&pm, boot_pgdir, PAGE_SIZE), pp2 * PAGE_SIZE);
    assert_eq!(pm.page_ref(pp2), 1);

    assert!(pm.page_insert(boot_pgdir, PDMAP, 0, 0, pp0).is_err());
    pm.page_remove(boot_pgdir, 0, 0);
    assert_eq!(!0, va2pa(&pm, boot_pgdir, 0));
    assert!(pm.page_insert(boot_pgdir, PDMAP, 0, 0, pp0).is_ok());

    assert!(pm.page_insert(boot_pgdir, PAGE_SIZE * 2, 0, 0, pp2).is_ok());
    assert_eq!(va2pa(&pm, boot_pgdir, PAGE_SIZE), pp2 * PAGE_SIZE);
    assert_eq!(va2pa(&pm, boot_pgdir, PAGE_SIZE * 2), pp2 * PAGE_SIZE);
    assert_eq!(pm.page_ref(pp2), 2);
    assert_eq!(pm.page_ref(pp3), 0);

    assert!(pm.page_insert(boot_pgdir, PAGE_SIZE + PDMAP, 0, 0, pp2).is_ok());
    assert_eq!(pm.page_ref(pp2), 3);

    let p = pm.page_alloc().unwrap();
    assert_eq!(p, pp3);
    pm.page_remove(boot_pgdir, PAGE_SIZE, 0);
    assert_eq!(va2pa(&pm, boot_pgdir, PAGE_SIZE * 2), pp2 * PAGE_SIZE);
    assert_eq!(pm.page_ref(pp2), 2);
    assert_eq!(pm.page_ref(pp3), 0);

    pm.page_remove(boot_pgdir, PAGE_SIZE * 2, 0);
    assert_eq!(va2pa(&pm, boot_pgdir, 0), !0);
    assert_eq!(va2pa(&pm, boot_pgdir, PAGE_SIZE), !0);
    assert_eq!(va2pa(&pm, boot_pgdir, PAGE_SIZE * 2), !0);
    assert_eq!(pm.page_ref(pp2), 1);
    assert_eq!(pm.page_ref(pp3), 0);

    pm.page_remove(boot_pgdir, PAGE_SIZE + PDMAP, 0);
    assert_eq!(va2pa(&pm, boot_pgdir, 0), !0);
    assert_eq!(va2pa(&pm, boot_pgdir, PAGE_SIZE), !0);
    assert_eq!(va2pa(&pm, boot_pgdir, PAGE_SIZE * 2), !0);
    assert_eq!(va2pa(&pm, boot_pgdir, PAGE_SIZE + PDMAP), !0);
    assert_eq!(pm.page_ref(pp2), 0);

    let p = pm.page_alloc().unwrap();
    assert_eq!(p, pp2);
    assert!(pm.page_alloc().is_err());
    assert_eq!(pp0 * PAGE_SIZE, (pm.read_word(boot_pgdir) & !0xfff) as usize);
    assert_eq!(pp1 * PAGE_SIZE, (pm.read_word(boot_pgdir + 4) & !0xfff) as usize);

    pm.store_word(boot_pgdir, 0);
    pm.store_word(boot_pgdir + 4, 0);
    assert_eq!(pm.page_ref(pp0), 2);
    assert_eq!(pm.page_ref(pp1), 1);
    drop(zfl);
    let _ = pp4;
}

#[test]
fn test_tlb_refill() {
    let mut pm = fresh();
    let p = pm.page_alloc().unwrap();
    let boot_pgdir = kva(p);

    let pp0 = pm.page_alloc().unwrap();
    let pp1 = pm.page_alloc().unwrap();
    let pp2 = pm.page_alloc().unwrap();
    let pp3 = pm.page_alloc().unwrap();
    let pp4 = pm.page_alloc().unwrap();
    let _zfl = take_all(&mut pm);

    pm.page_free(pp0);
    pm.page_insert(boot_pgdir, 0, 0, 0, pp1).unwrap();
    pm.page_insert(boot_pgdir, PAGE_SIZE, 0, 0, pp2).unwrap();

    let mut entrys = [0u32; 2];
    _do_tlb_refill(&mut pm, &mut entrys, PAGE_SIZE, 0, boot_pgdir);
    let (_, walk_pte) = pm.page_lookup(boot_pgdir, PAGE_SIZE).unwrap();
    let pte = pm.read_word(walk_pte);
    assert!((entrys[0] == (pte >> 6)) ^ (entrys[1] == (pte >> 6)));
    assert_eq!(pp2 * PAGE_SIZE, va2pa(&pm, boot_pgdir, PAGE_SIZE));

    pm.page_free(pp4);
    pm.page_free(pp3);

    assert!(pm.page_lookup(boot_pgdir, 0x0040_0000).is_none());
    _do_tlb_refill(&mut pm, &mut entrys, 0x0040_0000, 0, boot_pgdir);
    let (pp, _) = pm.page_lookup(boot_pgdir, 0x0040_0000).unwrap();
    assert_eq!(pp, pp3);
    assert_eq!(pp3 * PAGE_SIZE, va2pa(&pm, boot_pgdir, 0x0040_0000));
}

#[test]
fn page_init_marks_used_pages() {
    let mut freemem = ULIM + 3 * PAGE_SIZE + 5;
    let pm = Pmap::page_init(8, &mut freemem);
    assert_eq!(freemem, ULIM + 4 * PAGE_SIZE);
    assert_eq!(pm.page_count(), 8);
    for p in 0..4 {
        assert_eq!(pm.page_ref(p), 1);
    }
    for p in 4..8 {
        assert_eq!(pm.page_ref(p), 0);
    }
}

#[test]
fn page_alloc_takes_from_the_top() {
    let mut pm = fresh();
    assert_eq!(pm.page_alloc().unwrap(), NPAGE - 1);
    assert_eq!(pm.page_alloc().unwrap(), NPAGE - 2);
}

#[test]
fn alloc_then_free_gives_the_page_back() {
    let mut pm = fresh();
    let p = pm.page_alloc().unwrap();
    pm.page_free(p);
    assert_eq!(pm.page_alloc().unwrap(), p);
}

#[test]
fn insert_then_lookup_reads_back_the_page() {
    let mut pm = fresh();
    let dir = pm.page_alloc().unwrap();
    let page = pm.page_alloc().unwrap();
    pm.page_insert(kva(dir), 0x1234_5000, 3, PTE_V, page).unwrap();
    let (p, _) = pm.page_lookup(kva(dir), 0x1234_5000).unwrap();
    assert_eq!(p, page);
    assert_eq!(pm.page_ref(page), 1);
    assert_eq!(pm.translate(kva(dir), 0x1234_5678), Some(page * PAGE_SIZE + 0x678));
    assert!(pm.page_lookup(kva(dir), 0x1234_6000).is_none());
    let reqs = pm.take_tlb_requests();
    assert!(!reqs.is_empty());
}

#[test]
fn page_decref_frees_at_zero() {
    let mut pm = fresh();
    let p = pm.page_alloc().unwrap();
    pm.page_incref(p);
    assert_eq!(pm.page_ref(p), 1);
    pm.page_decref(p);
    assert_eq!(pm.page_ref(p), 0);
    assert_eq!(pm.page_alloc().unwrap(), p);
}

#[test]
fn detect_memory_counts_pages() {
    assert_eq!(mips_detect_memory(64 * 1024 * 1024), 16384);
    assert_eq!(mips_detect_memory(4097), 1);
}

#[test]
fn boot_alloc_rounds_up() {
    let mut freemem = 0usize;
    let r = boot_alloc(&mut freemem, ULIM + 10, 0x100_0000, 100, 4096);
    assert_eq!(r, ULIM + 4096);
    assert_eq!(freemem, ULIM + 4096 + 100);
    let r2 = boot_alloc(&mut freemem, ULIM + 10, 0x100_0000, 8, 8);
    assert_eq!(r2, ULIM + 4096 + 104);
}
