use rusty_mos::arch_mipsel::syscall::{SyscallNo, MAX_SYS_NO};
use rusty_mos::arch_mipsel::syscall_impl::{dev_access_check, Kernel, SyscallAction};
use rusty_mos::arch_mipsel::trap::TrapFrame;
use rusty_mos::consts::error::{Error, KError, UError};
use rusty_mos::memory::pmap::Pmap;
use rusty_mos::memory::regions::{PAGE_SIZE, PDSHIFT, PTE_D, PTE_V, UENVS, ULIM, UPAGES, USTACKTOP, UTEMP, UTOP};
use rusty_mos::memory::shared_pool::MemoryPool;
use rusty_mos::process::envs::{envx, EnvStatus, Envs, NENV};
use rusty_mos::process::elf_loader::icode_valid;

const NPAGE: usize = 160;
const USED: usize = 64;
const PAGES_PA: usize = 0;
const ENVS_PA: usize = 4096;

fn kernel() -> Kernel {
    let mut freemem = ULIM + USED * PAGE_SIZE;
    let mut pmap = Pmap::page_init(NPAGE, &mut freemem);
    let mut envs = Envs::new();
    envs.env_init(&mut pmap, PAGES_PA, ENVS_PA).unwrap();
    Kernel { pmap, envs, pool: MemoryPool::new() }
}

fn va2pa(pm: &Pmap, pgdir: usize, va: usize) -> usize {
    match pm.translate(pgdir, va) {
        Some(a) => a,
        None => !0,
    }
}

/// A kernel with two envs, the first running.
fn running() -> (Kernel, usize, usize) {
    let mut k = kernel();
    let e0 = k.envs.env_alloc(&mut k.pmap, 0).unwrap();
    let id0 = k.envs.env_data(e0).id;
    let e1 = k.envs.env_alloc(&mut k.pmap, id0).unwrap();
    k.envs.set_status(e1, EnvStatus::NotRunnable);
    k.envs.set_status(e0, EnvStatus::Runnable);
    let _ = k.envs.env_run(e0, &TrapFrame::const_construct());
    (k, e0, e1)
}

fn make_current(k: &mut Kernel, e: usize) {
    k.envs.set_status(e, EnvStatus::Runnable);
    let _ = k.envs.env_run(e, &TrapFrame::const_construct());
}

fn call(k: &mut Kernel, n: u32, a1: u32, a2: u32, a3: u32) -> (u32, SyscallAction) {
    let mut tf = TrapFrame::const_construct();
    tf.regs[4] = n;
    tf.regs[5] = a1;
    tf.regs[6] = a2;
    tf.regs[7] = a3;
    tf.cp0_epc = 0x400100;
    let act = k.do_syscall(&mut tf);
    (tf.regs[2], act)
}

#[test]
fn test_envs() {
    let mut k = kernel();
    let pe0 = k.envs.env_alloc(&mut k.pmap, 0).unwrap();
    let pe1 = k.envs.env_alloc(&mut k.pmap, 0).unwrap();
    let pe2 = k.envs.env_alloc(&mut k.pmap, 0).unwrap();
    assert!(pe0 != pe1 && pe0 != pe2 && pe1 != pe2);

    assert_eq!(2048, k.envs.env_data(pe0).id);
    assert_eq!(4097, k.envs.env_data(pe1).id);
    assert_eq!(6146, k.envs.env_data(pe2).id);

    let base = k.envs.base_pgdir_of();
    for page_addr in (0..NPAGE * 12).step_by(PAGE_SIZE) {
        assert_eq!(PAGES_PA + page_addr, va2pa(&k.pmap, base, UPAGES + page_addr));
    }
    for page_addr in (0..NENV * 220).step_by(PAGE_SIZE) {
        assert_eq!(ENVS_PA + page_addr, va2pa(&k.pmap, base, UENVS + page_addr));
    }

    let pgdir2 = k.envs.env_data(pe2).pgdir;
    let pdx = UTOP >> PDSHIFT;
    assert_eq!(k.pmap.read_word(base + 4 * pdx), k.pmap.read_word(pgdir2 + 4 * pdx));
    assert_eq!(0, k.pmap.read_word(pgdir2 + 4 * (pdx - 1)));

    k.envs.env_free(&mut k.pmap, &mut k.pool, pe0);
    k.envs.env_free(&mut k.pmap, &mut k.pool, pe1);
    k.envs.env_free(&mut k.pmap, &mut k.pool, pe2);
    assert_eq!(k.envs.env_data(pe0).status, EnvStatus::Free);
}

#[test]
fn test_envid2env() {
    let mut k = kernel();
    let pe0 = k.envs.env_alloc(&mut k.pmap, 0).unwrap();
    let pe2 = k.envs.env_alloc(&mut k.pmap, 0).unwrap();
    let id2 = k.envs.env_data(pe2).id;
    k.envs.set_status(pe2, EnvStatus::Runnable);
    assert_eq!(k.envs.envid2env(id2, false), Ok(pe2));
    k.envs.set_status(pe0, EnvStatus::Runnable);
    let _ = k.envs.env_run(pe0, &TrapFrame::const_construct());
    assert!(k.envs.envid2env(id2, true).is_err());
    assert_eq!(k.envs.envid2env(0, true), Ok(pe0));
}

#[test]
fn envx_takes_the_low_bits() {
    assert_eq!(envx(2048), 0);
    assert_eq!(envx(6146), 2);
}

#[test]
fn getenvid_and_bad_syscall_numbers() {
    let (mut k, e0, _) = running();
    let (v, act) = call(&mut k, 2, 0, 0, 0);
    assert_eq!(v, k.envs.env_data(e0).id);
    assert!(matches!(act, SyscallAction::Resume));
    let (v, _) = call(&mut k, MAX_SYS_NO as u32, 0, 0, 0);
    assert_eq!(v, KError::NoSys.to_syscall_ret());
    let (v, _) = call(&mut k, 20, 0, 0, 0);
    assert_eq!(v, KError::NoSys.to_syscall_ret());
    let (_, act) = call(&mut k, 0, 0x41, 0, 0);
    assert!(matches!(act, SyscallAction::Putchar(0x41)));
    let (_, act) = call(&mut k, 3, 0, 0, 0);
    assert!(matches!(act, SyscallAction::Schedule));
    let (_, act) = call(&mut k, 15, 0, 0, 0);
    assert!(matches!(act, SyscallAction::Getc));
}

#[test]
fn syscall_advances_epc() {
    let (mut k, _, _) = running();
    let mut tf = TrapFrame::const_construct();
    tf.regs[4] = 2;
    tf.cp0_epc = 0x400100;
    k.do_syscall(&mut tf);
    assert_eq!(tf.cp0_epc, 0x400104);
    tf.regs[4] = 99;
    k.do_syscall(&mut tf);
    assert_eq!(tf.cp0_epc, 0x400104);
}

#[test]
fn mem_alloc_then_print_and_unmap() {
    let (mut k, e0, _) = running();
    let va = UTEMP as u32;
    assert_eq!(k.sys_mem_alloc(0, va, PTE_D), 0);
    let pgdir = k.envs.env_data(e0).pgdir;
    let a = k.pmap.translate(pgdir, va as usize).unwrap();
    k.pmap.write_byte(a, b'h');
    k.pmap.write_byte(a + 1, b'i');
    let (v, act) = call(&mut k, 1, va, 2, 0);
    assert_eq!(v, 0);
    match act {
        SyscallAction::Print(b) => assert_eq!(b, b"hi".to_vec()),
        _ => panic!("no print"),
    }
    assert_eq!(k.sys_mem_unmap(0, va), 0);
    // the unmapped bytes are faulted in as a fresh zero page
    let (v, act) = call(&mut k, 1, va, 2, 0);
    assert_eq!(v, 0);
    match act {
        SyscallAction::Print(b) => assert_eq!(b, vec![0, 0]),
        _ => panic!("no print"),
    }
    assert_eq!(k.sys_mem_alloc(0, 0x10, PTE_D), KError::Invalid.to_syscall_ret());
}

#[test]
fn mem_map_shares_a_page_with_a_child() {
    let (mut k, e0, e1) = running();
    let id1 = k.envs.env_data(e1).id;
    let va = UTEMP as u32;
    assert_eq!(k.sys_mem_alloc(0, va, PTE_D), 0);
    assert_eq!(k.sys_mem_map(0, va, id1, 0x50_0000, PTE_D), 0);
    let p0 = k.pmap.page_lookup(k.envs.env_data(e0).pgdir, va as usize).unwrap().0;
    let p1 = k.pmap.page_lookup(k.envs.env_data(e1).pgdir, 0x50_0000).unwrap().0;
    assert_eq!(p0, p1);
    assert_eq!(k.pmap.page_ref(p0), 2);
}

#[test]
fn ipc_send_to_a_waiting_env() {
    let (mut k, e0, e1) = running();
    let id1 = k.envs.env_data(e1).id;
    assert_eq!(k.sys_ipc_try_send(id1, 7, 0, 0), KError::IpcNotRecv.to_syscall_ret());
    let mut d = k.envs.env_data(e1);
    d.ipc_data.receiving = true;
    k.envs.set_env(e1, d);
    assert_eq!(k.sys_ipc_try_send(id1, 7, 0, 0), 0);
    let d = k.envs.env_data(e1);
    assert_eq!(d.ipc_data.value, 7);
    assert_eq!(d.ipc_data.from_id, k.envs.env_data(e0).id);
    assert!(!d.ipc_data.receiving);
    assert_eq!(d.status, EnvStatus::Runnable);
}

#[test]
fn ipc_recv_blocks_the_caller() {
    let (mut k, e0, _) = running();
    let mut tf = TrapFrame::const_construct();
    tf.regs[2] = 9;
    assert_eq!(k.sys_ipc_recv(0x10, &mut tf), Some(KError::Invalid.to_syscall_ret()));
    assert_eq!(k.sys_ipc_recv(0, &mut tf), None);
    assert_eq!(tf.regs[2], 0);
    let d = k.envs.env_data(e0);
    assert!(d.ipc_data.receiving);
    assert_eq!(d.status, EnvStatus::NotRunnable);
}

#[test]
fn exofork_makes_a_child() {
    let (mut k, e0, _) = running();
    let mut tf = TrapFrame::const_construct();
    tf.regs[4] = 9;
    tf.regs[29] = 0x7f3f_dff0;
    tf.cp0_epc = 0x400200;
    k.do_syscall(&mut tf);
    let child = tf.regs[2];
    let ce = k.envs.envid2env(child, false).unwrap();
    let cd = k.envs.env_data(ce);
    assert_eq!(cd.parent_id, k.envs.env_data(e0).id);
    assert_eq!(cd.trap_frame.regs[2], 0);
    assert_eq!(cd.trap_frame.regs[29], 0x7f3f_dff0);
    assert_eq!(cd.trap_frame.cp0_epc, 0x400204);
    assert_eq!(cd.status, EnvStatus::NotRunnable);
}

#[test]
fn set_env_status_and_tlb_mod_entry() {
    let (mut k, _, e1) = running();
    let id1 = k.envs.env_data(e1).id;
    assert_eq!(k.sys_set_env_status(id1, 3), KError::Invalid.to_syscall_ret());
    assert_eq!(k.sys_set_env_status(id1, 1), 0);
    assert_eq!(k.envs.env_data(e1).status, EnvStatus::Runnable);
    assert_eq!(k.sys_set_tlb_mod_entry(id1, 0x401000), 0);
    assert_eq!(k.envs.env_data(e1).user_tlb_mod_entry, 0x401000);
    assert_eq!(k.sys_set_tlb_mod_entry(12345, 1), KError::BadEnv.to_syscall_ret());
}

#[test]
fn set_trapframe_of_a_child() {
    let (mut k, _, e1) = running();
    let id1 = k.envs.env_data(e1).id;
    let va = UTEMP as u32;
    assert_eq!(k.sys_mem_alloc(0, va, PTE_D), 0);
    let e0 = k.envs.cur_env();
    let pgdir = k.envs.env_data(e0).pgdir;
    let a = k.pmap.translate(pgdir, va as usize).unwrap();
    for i in 0..38usize {
        k.pmap.store_word(ULIM + a + 4 * i, i as u32 + 100);
    }
    let mut ktf = TrapFrame::const_construct();
    assert_eq!(k.sys_set_trapframe(id1, va, &mut ktf), 0);
    let t = k.envs.env_data(e1).trap_frame;
    assert_eq!(t.regs[0], 100);
    assert_eq!(t.regs[31], 131);
    assert_eq!(t.cp0_status, 132);
    assert_eq!(t.cp0_epc, 137);
    assert_eq!(k.sys_set_trapframe(0, va, &mut ktf), 102);
    assert_eq!(ktf.regs[2], 102);
    assert_eq!(k.sys_set_trapframe(0, va + 1, &mut ktf), KError::Invalid.to_syscall_ret());
}

#[test]
fn destroy_self_asks_to_schedule() {
    let (mut k, e0, e1) = running();
    let id1 = k.envs.env_data(e1).id;
    assert_eq!(k.sys_env_destroy(id1), (0, false));
    assert_eq!(k.envs.env_data(e1).status, EnvStatus::Free);
    let (v, act) = call(&mut k, 4, 0, 0, 0);
    assert_eq!(v, 0);
    assert!(matches!(act, SyscallAction::Schedule));
    assert_eq!(k.envs.env_data(e0).status, EnvStatus::Free);
}

#[test]
fn shared_pool_create_and_bind() {
    let (mut k, e0, e1) = running();
    let va = 0x60_0000u32;
    let id = k.sys_create_shared_pool(va, 2 * PAGE_SIZE as u32, PTE_D);
    assert_eq!(id as usize & 1023, k.envs.env_data(e0).id as usize & 1023);
    let pgdir = k.envs.env_data(e0).pgdir;
    let p = k.pmap.page_lookup(pgdir, va as usize).unwrap().0;
    let q = k.pmap.page_lookup(pgdir, va as usize + PAGE_SIZE).unwrap().0;
    assert!(p != q);
    // the creator is bound already
    assert_eq!(k.sys_bind_shared_pool(0x70_0000, id, PTE_D), KError::PoolDoubleBind.to_syscall_ret());
    assert_eq!(k.sys_bind_shared_pool(0x70_0000, 3, PTE_D), KError::PoolNotFound.to_syscall_ret());
    // a second env binds and sees the same pages
    make_current(&mut k, e1);
    let pgdir1 = k.envs.env_data(e1).pgdir;
    assert_eq!(k.sys_bind_shared_pool(0x70_0000, id, PTE_D), 0);
    assert_eq!(k.pmap.page_lookup(pgdir1, 0x70_0000).unwrap().0, p);
    assert_eq!(k.pmap.page_lookup(pgdir1, 0x70_0000 + PAGE_SIZE).unwrap().0, q);
    assert_eq!(k.sys_bind_shared_pool(0x70_0000, id, PTE_D), KError::PoolDoubleBind.to_syscall_ret());
    assert_eq!(k.sys_create_shared_pool(0x60_0010, 16, PTE_D), KError::Invalid.to_syscall_ret());
}

#[test]
fn dev_access_ranges() {
    let va = UTEMP as u32;
    assert!(dev_access_check(va, 0x1800_03f8, 1));
    assert!(dev_access_check(va, 0x1800_01f0, 4));
    assert!(!dev_access_check(va, 0x1800_01f0, 3));
    assert!(!dev_access_check(va, 0x1800_01f6, 4));
    assert!(!dev_access_check(0, 0x1800_03f8, 1));
}

#[test]
fn write_and_read_dev_move_user_bytes() {
    let (mut k, e0, _) = running();
    let va = UTEMP as u32;
    assert_eq!(k.sys_mem_alloc(0, va, PTE_D), 0);
    let pgdir = k.envs.env_data(e0).pgdir;
    let a = k.pmap.translate(pgdir, va as usize).unwrap();
    k.pmap.store_word(ULIM + a, 0x1234_5678);
    assert_eq!(k.sys_write_dev(va, 0x1800_03f8, 4), Ok(0x1234_5678));
    assert_eq!(k.sys_write_dev(va, 0x1800_03f8, 2), Ok(0x5678));
    assert_eq!(k.sys_read_dev(va, 0x1800_03f8, 4), 0);
    assert_eq!(k.store_user_value(va, 4, 0xaabb_ccdd), 0);
    assert_eq!(k.pmap.read_word(ULIM + a), 0xaabb_ccdd);
    assert_eq!(k.sys_read_dev(va, 0x1000_0000, 4), KError::Invalid.to_syscall_ret());
}

#[test]
fn panic_message_stops_at_zero() {
    let (mut k, e0, _) = running();
    let va = UTEMP as u32;
    assert_eq!(k.sys_mem_alloc(0, va, PTE_D), 0);
    let pgdir = k.envs.env_data(e0).pgdir;
    let a = k.pmap.translate(pgdir, va as usize).unwrap();
    for (i, b) in b"oops\0x".iter().enumerate() {
        k.pmap.write_byte(a + i, *b);
    }
    assert_eq!(k.sys_panic_message(va), b"oops".to_vec());
    let (_, act) = call(&mut k, 12, va, 0, 0);
    match act {
        SyscallAction::Panic(m) => assert_eq!(m, b"oops".to_vec()),
        _ => panic!("no panic"),
    }
}

#[test]
fn tlb_mod_without_handler_fails() {
    let (mut k, _, _) = running();
    let mut tf = TrapFrame::const_construct();
    assert!(!k.do_tlb_mod(&mut tf));
}

#[test]
fn tlb_mod_stores_the_frame_on_the_exception_stack() {
    let (mut k, e0, _) = running();
    let top = 0x7f3f_f000u32;
    assert_eq!(k.sys_mem_alloc(0, top, PTE_D), 0);
    assert_eq!(k.sys_set_tlb_mod_entry(0, 0x40_1000), 0);
    let mut tf = TrapFrame::const_construct();
    tf.regs[29] = 0x1000;
    tf.regs[7] = 77;
    assert!(k.do_tlb_mod(&mut tf));
    let frame = 0x7f40_0000u32 - 152;
    assert_eq!(tf.regs[4], frame);
    assert_eq!(tf.regs[29], frame - 4);
    assert_eq!(tf.cp0_epc, 0x40_1000);
    let pgdir = k.envs.env_data(e0).pgdir;
    let a = k.pmap.translate(pgdir, frame as usize + 28).unwrap();
    assert_eq!(k.pmap.read_word(ULIM + a), 77);
}

#[test]
fn error_numbers() {
    assert_eq!(KError::Unspecified.errno(), 1);
    assert_eq!(KError::LockByOthers.errno(), 12);
    assert_eq!(KError::Invalid.to_syscall_ret(), (-3i32) as u32);
    assert_eq!(UError::NoDisk.errno(), 8);
    assert_eq!(UError::NotExec.errno(), 13);
    assert_eq!(Error::IpcNotRecv.code(), 7);
    assert_eq!(Error::NotExec.code(), 13);
}

#[test]
fn syscall_numbers_roundtrip() {
    assert!(matches!(SyscallNo::from_number(0), Some(SyscallNo::SysPutchar)));
    assert!(matches!(SyscallNo::from_number(21), Some(SyscallNo::SysUnlock)));
    assert!(SyscallNo::from_number(22).is_none());
}

#[test]
fn asid_alloc_then_free_reuses() {
    let mut envs = Envs::new();
    let a = envs.asid_alloc().unwrap();
    assert_eq!(a, 0);
    let b = envs.asid_alloc().unwrap();
    assert_eq!(b, 1);
    envs.asid_free(a);
    assert_eq!(envs.asid_alloc().unwrap(), 0);
}

#[test]
fn schedule_round_robin() {
    let mut k = kernel();
    let e0 = k.envs.env_alloc(&mut k.pmap, 0).unwrap();
    let e1 = k.envs.env_alloc(&mut k.pmap, 0).unwrap();
    for e in [e0, e1] {
        let mut d = k.envs.env_data(e);
        d.priority = 1;
        k.envs.set_env(e, d);
        k.envs.set_status(e, EnvStatus::Runnable);
    }
    let ktf = TrapFrame::const_construct();
    let _ = k.envs.schedule(false, &ktf);
    assert_eq!(k.envs.cur_env(), e0);
    let _ = k.envs.schedule(false, &ktf);
    assert_eq!(k.envs.cur_env(), e1);
    let _ = k.envs.schedule(true, &ktf);
    assert_eq!(k.envs.cur_env(), e0);
    assert_eq!(k.envs.env_data(e0).env_runs, 2);
}

#[test]
fn env_alloc_runs_out_of_asids() {
    let mut freemem = ULIM + USED * PAGE_SIZE;
    let mut pmap = Pmap::page_init(400, &mut freemem);
    let mut envs = Envs::new();
    envs.env_init(&mut pmap, PAGES_PA, ENVS_PA).unwrap();
    for _ in 0..256 {
        assert!(envs.env_alloc(&mut pmap, 0).is_ok());
    }
    assert_eq!(envs.env_alloc(&mut pmap, 0), Err(KError::NoFreeEnv));
}

#[test]
fn env_create_refuses_a_bad_binary() {
    // a binary that is no ELF executable is not loadable; creating an env
    // from it is a kernel panic, so the caller checks first
    assert!(!icode_valid(&[0u8; 64]));
}

#[test]
fn destroy_gives_back_every_reference() {
    let (mut k, e0, _) = running();
    let va = UTEMP as u32;
    assert_eq!(k.sys_mem_alloc(0, va, PTE_D), 0);
    assert_eq!(k.sys_mem_map(0, va, 0, va + PAGE_SIZE as u32, PTE_D), 0);
    let pgdir = k.envs.env_data(e0).pgdir;
    let p = k.pmap.page_lookup(pgdir, va as usize).unwrap().0;
    assert_eq!(k.pmap.page_ref(p), 2);
    let pde = k.pmap.read_word(pgdir + (va as usize >> PDSHIFT) * 4);
    let t = (pde >> 12) as usize;
    assert_eq!(k.pmap.page_ref(t), 1);
    let pg = (pgdir - ULIM) / PAGE_SIZE;
    assert_eq!(k.pmap.page_ref(pg), 1);
    assert_eq!(k.sys_env_destroy(0), (0, true));
    assert_eq!(k.pmap.page_ref(p), 0);
    assert_eq!(k.pmap.page_ref(t), 0);
    assert_eq!(k.pmap.page_ref(pg), 0);
    // the directory page was freed last, so it is handed out first
    assert_eq!(k.pmap.page_alloc(), Ok(pg));
    assert_eq!(k.pmap.page_alloc(), Ok(t));
    assert_eq!(k.pmap.page_alloc(), Ok(p));
}

#[test]
fn kernel_reads_of_unmapped_user_memory_fault_in_a_zero_page() {
    let (mut k, e0, _) = running();
    let va = UTEMP as u32 + 0x3000;
    let pgdir = k.envs.env_data(e0).pgdir;
    assert!(k.pmap.page_lookup(pgdir, va as usize).is_none());
    assert_eq!(k.sys_write_dev(va, 0x1800_03f8, 4), Ok(0));
    let p = k.pmap.page_lookup(pgdir, va as usize).unwrap().0;
    assert_eq!(k.pmap.page_ref(p), 1);
    // a second read finds the page mapped
    assert_eq!(k.sys_write_dev(va, 0x1800_03f8, 2), Ok(0));
    assert_eq!(k.pmap.page_lookup(pgdir, va as usize).unwrap().0, p);
}

#[test]
fn kernel_stores_to_unmapped_user_memory_fault_in_a_page() {
    let (mut k, e0, _) = running();
    let va = UTEMP as u32 + 0x5000;
    let pgdir = k.envs.env_data(e0).pgdir;
    assert_eq!(k.sys_read_dev(va, 0x1800_03f8, 4), 0);
    assert_eq!(k.store_user_value(va, 4, 0x1122_3344), 0);
    let a = k.pmap.translate(pgdir, va as usize).unwrap();
    assert_eq!(k.pmap.read_word(ULIM + a), 0x1122_3344);
    assert_eq!(k.sys_write_dev(va, 0x1800_03f8, 4), Ok(0x1122_3344));
}

#[test]
fn printing_unmapped_bytes_prints_zeros() {
    let (mut k, _, _) = running();
    let va = UTEMP as u32 + 0x7000;
    assert_eq!(k.sys_print_cons(va, 3), Ok(vec![0, 0, 0]));
    assert_eq!(k.sys_panic_message(va), Vec::<u8>::new());
}

#[test]
fn unservable_user_read_is_refused() {
    let (mut k, _, _) = running();
    // the guard page above the user stack cannot be served by the refill
    let va = USTACKTOP as u32;
    assert_eq!(k.sys_write_dev(va, 0x1800_03f8, 4), Err(KError::Invalid.to_syscall_ret()));
}

#[test]
fn tlb_mod_faults_in_the_exception_stack() {
    let (mut k, e0, _) = running();
    assert_eq!(k.sys_set_tlb_mod_entry(0, 0x40_1000), 0);
    let mut tf = TrapFrame::const_construct();
    tf.regs[29] = 0x1000;
    tf.regs[7] = 77;
    assert!(k.do_tlb_mod(&mut tf));
    let frame = 0x7f40_0000u32 - 152;
    let pgdir = k.envs.env_data(e0).pgdir;
    let a = k.pmap.translate(pgdir, frame as usize + 4 * 7).unwrap();
    assert_eq!(k.pmap.read_word(ULIM + a), 77);
}

#[test]
fn set_trapframe_from_unmapped_memory_reads_a_zero_frame() {
    let (mut k, _, _) = running();
    let mut ktf = TrapFrame::const_construct();
    ktf.regs[2] = 5;
    let va = UTEMP as u32 + 0x9000;
    assert_eq!(k.sys_set_trapframe(0, va, &mut ktf), 0);
    assert_eq!(ktf.regs[2], 0);
    assert_eq!(ktf.cp0_epc, 0);
}

#[test]
fn schedule_target_names_the_env_schedule_runs() {
    let (mut k, e0, e1) = running();
    k.envs.set_status(e1, EnvStatus::Runnable);
    let t = k.envs.schedule_target(true);
    assert!(t != e0);
    let _ = k.envs.schedule(true, &TrapFrame::const_construct());
    assert_eq!(k.envs.cur_env(), t);
    let t2 = k.envs.schedule_target(false);
    assert_eq!(t2, t);
}
