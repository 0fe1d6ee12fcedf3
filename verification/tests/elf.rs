use rusty_mos::memory::pmap::Pmap;
use rusty_mos::memory::regions::{PAGE_SIZE, ULIM};
use rusty_mos::memory::shared_pool::MemoryPool;
use rusty_mos::process::elf_loader::{icode_valid, seg_pages, Elf32Ehdr, Elf32Phdr, PF_R, PF_X, PT_LOAD};
use rusty_mos::process::envs::{EnvStatus, Envs};

fn put16(b: &mut [u8], off: usize, v: u16) {
    b[off..off + 2].copy_from_slice(&v.to_le_bytes());
}

fn put32(b: &mut [u8], off: usize, v: u32) {
    b[off..off + 4].copy_from_slice(&v.to_le_bytes());
}

/// An executable with one loadable segment of `code` at `vaddr`, taking
/// `memsz` bytes in memory.
fn binary(vaddr: u32, code: &[u8], memsz: u32) -> Vec<u8> {
    let mut b = vec![0u8; 0x80];
    b[0..4].copy_from_slice(&[0x7f, 0x45, 0x4c, 0x46]);
    put16(&mut b, 16, 2);
    put16(&mut b, 18, 8);
    put32(&mut b, 24, vaddr + 4);
    put32(&mut b, 28, 52);
    put16(&mut b, 42, 32);
    put16(&mut b, 44, 1);
    put32(&mut b, 52, PT_LOAD);
    put32(&mut b, 56, 0x80);
    put32(&mut b, 60, vaddr);
    put32(&mut b, 68, code.len() as u32);
    put32(&mut b, 72, memsz);
    put32(&mut b, 76, PF_R | PF_X);
    b.extend_from_slice(code);
    b
}

#[test]
fn header_is_read() {
    let b = binary(0x40_0000, &[1, 2, 3, 4], 8);
    let h = Elf32Ehdr::from(&b).unwrap();
    assert_eq!(h.entry, 0x40_0004);
    assert_eq!(h.phnum, 1);
    assert_eq!(h.foreach(), vec![52]);
    let ph = Elf32Phdr::at(&b, 52);
    assert_eq!(ph.stype, PT_LOAD);
    assert_eq!(ph.vaddr, 0x40_0000);
    assert_eq!(ph.filesz, 4);
    assert_eq!(ph.memsz, 8);
    assert!(icode_valid(&b));
}

#[test]
fn not_an_executable() {
    let mut b = binary(0x40_0000, &[1, 2, 3, 4], 8);
    b[1] = 0;
    assert!(Elf32Ehdr::from(&b).is_none());
    assert!(Elf32Ehdr::from(&b[0..20]).is_none());
}

#[test]
fn segment_pages_cover_file_and_zeros() {
    let b = binary(0x40_0ff0, &[9u8; 0x20], 0x2000);
    let ph = Elf32Phdr::at(&b, 52);
    let reqs = seg_pages(&ph);
    assert!(reqs.len() >= 2);
    assert_eq!(reqs[0].va, 0x40_0ff0);
    assert_eq!(reqs[0].offset, 0xff0);
    assert_eq!(reqs[0].len, 0x10);
}

#[test]
fn env_create_loads_the_segment() {
    let mut freemem = ULIM + 64 * PAGE_SIZE;
    let mut pmap = Pmap::page_init(160, &mut freemem);
    let mut envs = Envs::new();
    envs.env_init(&mut pmap, 0, 4096).unwrap();
    let code = [0x11u8, 0x22, 0x33, 0x44, 0x55];
    let b = binary(0x40_0000, &code, 0x1800);
    let e = envs.env_create(&mut pmap, &b, 3).unwrap();
    let d = envs.env_data(e);
    assert_eq!(d.status, EnvStatus::Runnable);
    assert_eq!(d.priority, 3);
    assert_eq!(d.trap_frame.cp0_epc, 0x40_0004);
    for (i, c) in code.iter().enumerate() {
        assert_eq!(pmap.read_user_byte(d.pgdir, 0x40_0000 + i), Some(*c));
    }
    assert_eq!(pmap.read_user_byte(d.pgdir, 0x40_0005), Some(0));
    assert_eq!(pmap.read_user_byte(d.pgdir, 0x40_17ff), Some(0));
    let mut pool = MemoryPool::new();
    envs.env_free(&mut pmap, &mut pool, e);
}
