//! The system calls: each takes the kernel state and the call's arguments,
//! and gives the value returned to the caller in `$v0` (zero, a result, or
//! a negated [KError]) together with what the kernel must do next.

use vstd::prelude::*;
use crate::arch_mipsel::syscall::MAX_SYS_NO;
use crate::arch_mipsel::trap::TrapFrame;
use crate::consts::error::{kerror_ret, KError};
use crate::memory::pmap::{insert_post, lemma_alloc_keeps_consistent, law_consistent_insert_safe, Pmap};
use crate::memory::regions::{USTACKTOP, UTEMP, UTOP, UVPT, UXSTACKTOP};
use crate::memory::shared_pool::MemoryPool;
use crate::memory::tlbex::{fault_allowed, fault_in, fault_step};
use crate::process::envs::{only_env_changed, EnvData, EnvStatus, Envs, NENV};
use crate::memory::pmap::{alloc_post, entry_valid, mem_byte, only_released, tlb_entryhi};
use crate::memory::shared_pool::{bound_view, destory_env_post, empty_pool_view, max_pool_counter, pool_id_spec, PoolView};
use crate::process::envs::{freed_space, map_step, released_own, seg_va, tidy_space, windows_flushed};

verus! {

/// The kernel state the system calls work on: the page manager, the env
/// table and the shared memory pools.
pub struct Kernel {
    /// The page manager.
    pub pmap: Pmap,
    /// The env table.
    pub envs: Envs,
    /// The shared memory pools.
    pub pool: MemoryPool,
}

/// Whether the env data `d` of a live env fits the page manager `pmap`:
/// its page directory is a page and its ASID is one of the bitmap.
pub open spec fn env_fits(d: EnvData, pmap: Pmap) -> bool {
    &&& pmap.is_page_kva(d.pgdir)
    &&& d.asid < 256
}

/// The value a system call returns for a result: zero for success, the
/// negated error number for an error.
pub open spec fn ret_of(r: Result<(), KError>) -> u32 {
    match r {
        Ok(()) => 0,
        Err(e) => kerror_ret(e),
    }
}

/// Whether `va` is a user address a system call may name: from `UTEMP` up
/// to `UTOP`.
pub open spec fn user_va(va: u32) -> bool {
    UTEMP <= va < UTOP
}

/// Whether every live env of the env table `post` either fits the page
/// manager `pmap`, or was live in `pre` with the same page directory and
/// ASID.
pub open spec fn same_homes(pre: Envs, post: Envs, pmap: Pmap) -> bool {
    forall|i: int|
        0 <= i < NENV && (#[trigger] post.env(i)).status != EnvStatus::Free ==> env_fits(post.env(i), pmap) || (
        pre.env(i).status != EnvStatus::Free && post.env(i).pgdir == pre.env(i).pgdir && post.env(i).asid
            == pre.env(i).asid)
}

/// A kernel whose parts stay well-formed, whose page count stays, whose
/// live envs keep their homes or fit, and whose current env stays live,
/// stays well-formed.
proof fn lemma_kernel_wf(pre: Kernel, post: Kernel)
    requires
        pre.wf(),
        post.pmap.wf(),
        post.envs.wf(),
        post.pool.wf(),
        post.pmap.npage() == pre.pmap.npage(),
        same_homes(pre.envs, post.envs, post.pmap),
        post.envs.cur() < NENV ==> post.envs.env(post.envs.cur() as int).status != EnvStatus::Free,
    ensures
        post.wf(),
{
    assert forall|i: int|
        0 <= i < NENV && (#[trigger] post.envs.env(i)).status != EnvStatus::Free implies env_fits(
        post.envs.env(i),
        post.pmap,
    ) by {
        if !env_fits(post.envs.env(i), post.pmap) {
            assert(env_fits(pre.envs.env(i), pre.pmap));
        }
    }
}

/// A kernel that only changed its page manager, keeping it well-formed
/// and its page count, stays well-formed.
proof fn lemma_same_npage_wf(pre: Kernel, post: Kernel)
    requires
        pre.wf(),
        post.pmap.wf(),
        post.pmap.npage() == pre.pmap.npage(),
        post.envs == pre.envs,
        post.pool == pre.pool,
    ensures
        post.wf(),
{
    lemma_kernel_wf(pre, post);
}

/// What [sys_mem_map](Kernel::sys_mem_map) does to the kernel `pre`,
/// leaving `post` and returning `r`.
pub open spec fn mem_map_post(
    pre: Kernel,
    post: Kernel,
    src_id: u32,
    src_va: u32,
    dst_id: u32,
    dst_va: u32,
    perm: u32,
    r: u32,
) -> bool {
    if !user_va(src_va) || !user_va(dst_va) {
        r == kerror_ret(KError::Invalid) && post == pre
    } else {
        match pre.envs.envid2env_spec(src_id, true) {
            Err(e) => r == kerror_ret(e) && post == pre,
            Ok(se) => match pre.envs.envid2env_spec(dst_id, true) {
                Err(e) => r == kerror_ret(e) && post == pre,
                Ok(de) => {
                    let s = pre.envs.env(se as int);
                    let d = pre.envs.env(de as int);
                    if !pre.pmap.walk_ok(s.pgdir, src_va as usize) {
                        r == kerror_ret(KError::Invalid) && post == pre
                    } else {
                        match pre.pmap.lookup(s.pgdir, src_va as usize) {
                            None => r == kerror_ret(KError::Invalid) && post == pre,
                            Some((p, _)) => if !(p < pre.pmap.npage() && pre.pmap.ref_of(p as int) > 0
                                && pre.pmap.insert_safe(d.pgdir, dst_va as usize, p)) {
                                r == kerror_ret(KError::Invalid) && post == pre
                            } else {
                                &&& post.envs == pre.envs
                                &&& post.pool == pre.pool
                                &&& exists|ir: Result<(), KError>|
                                    r == ret_of(ir) && #[trigger] insert_post(
                                        pre.pmap,
                                        post.pmap,
                                        d.pgdir,
                                        dst_va as usize,
                                        d.asid,
                                        perm,
                                        p,
                                        ir,
                                    )
                            },
                        }
                    }
                },
            },
        }
    }
}

/// The word at the user address `va` under the page directory at `pgdir`,
/// or `None` if it is not mapped.
#[verifier::opaque]
pub open spec fn user_word(pmap: Pmap, pgdir: usize, va: int) -> Option<u32> {
    match pmap.translate_spec(pgdir, va as usize) {
        Some(a) => Some(pmap.mem()[a / 4]),
        None => None,
    }
}

/// Whether the page managers `states` are the steps of mapping the pages
/// `pages` in order at `va`, `va + 4096`, ... under the page directory at
/// `pgdir` in the address space `asid` with the permission `perm`, from
/// `pre` to `post`, the last step giving `r`: all of them when `r` is `Ok`,
/// up to the failing one otherwise, see [map_step].
pub open spec fn pages_mapped(
    states: Seq<Pmap>,
    pre: Pmap,
    post: Pmap,
    pgdir: usize,
    asid: u32,
    va: usize,
    pages: Seq<usize>,
    perm: u32,
    r: Result<(), KError>,
) -> bool {
    &&& 1 <= states.len() <= pages.len() + 1
    &&& states[0] == pre
    &&& states[states.len() - 1] == post
    &&& r is Ok ==> states.len() == pages.len() + 1 && r == Ok::<(), KError>(())
    &&& r is Err ==> states.len() >= 2
    &&& forall|k: int|
        0 <= k < states.len() - 1 ==> map_step(
            #[trigger] states[k],
            states[k + 1],
            pgdir,
            asid,
            seg_va(va, k),
            perm,
            pages[k],
            if k == states.len() - 2 {
                r
            } else {
                Ok(())
            },
        )
}

/// Whether the kernel `post` looks the same as `pre`: the same page
/// manager and env table, and the same pools, bindings and creation
/// counter.
pub open spec fn same_view(pre: Kernel, post: Kernel) -> bool {
    &&& post.pmap == pre.pmap
    &&& post.envs == pre.envs
    &&& post.pool.pools_view() == pre.pool.pools_view()
    &&& post.pool.env_pools() == pre.pool.env_pools()
    &&& post.pool.counter() == pre.pool.counter()
}

/// Whether `n` pages from `va` on go past the end of the 32-bit address
/// space.
pub open spec fn pages_overflow(va: u32, n: int) -> bool {
    n > 0 && va + (n - 1) * 4096 > u32::MAX
}

/// What adding one page to the pool `id` being created does to the kernel
/// `pre`, leaving `post` and giving `r`: a page is allocated, see
/// [page_alloc](Pmap::page_alloc); if it cannot be mapped safely at `va`
/// in the *current* env it goes back to the free list and `Invalid` is
/// given; otherwise it is added to the pool and mapped there with the
/// permission `perm`, see [page_insert](Pmap::page_insert).
#[verifier::opaque]
pub open spec fn pool_page_step(pre: Kernel, post: Kernel, id: usize, va: usize, perm: u32, r: Result<(), KError>) -> bool {
    let c = pre.envs.env(pre.envs.cur() as int);
    let pv = pre.pool.pools_view();
    &&& post.envs == pre.envs
    &&& post.pool.env_pools() == pre.pool.env_pools()
    &&& post.pool.counter() == pre.pool.counter()
    &&& pre.pmap.free_list().len() == 0 ==> r == Err::<(), KError>(KError::NoMem) && post.pmap == pre.pmap
        && post.pool.pools_view() == pv
    &&& pre.pmap.free_list().len() > 0 ==> {
        let p = pre.pmap.free_list()[0];
        exists|m1: Pmap|
            {
                &&& #[trigger] alloc_post(pre.pmap, m1, Ok(p))
                &&& m1.wf()
                &&& m1.npage() == pre.pmap.npage()
                &&& !m1.insert_safe(c.pgdir, va, p) ==> {
                    &&& r == Err::<(), KError>(KError::Invalid)
                    &&& post.pool.pools_view() == pv
                    &&& post.pmap.free_list() == pre.pmap.free_list()
                    &&& post.pmap.mem() == m1.mem()
                    &&& post.pmap.tlb_requests() == pre.pmap.tlb_requests()
                    &&& forall|q: int| 0 <= q < post.pmap.npage() ==> #[trigger] post.pmap.ref_of(q) == pre.pmap.ref_of(q)
                }
                &&& m1.insert_safe(c.pgdir, va, p) ==> {
                    &&& post.pool.pools_view() == pv.insert(id, PoolView { pages: pv[id].pages.push(p), ..pv[id] })
                    &&& insert_post(m1, post.pmap, c.pgdir, va, c.asid, perm, p, r)
                }
            }
    }
}

/// Whether the kernels `states` are the steps of adding `n` pages to the
/// pool `id` being created, mapped at `va`, `va + 4096`, ... with the
/// permission `perm`, the last step giving `r`: all of them when `r` is
/// `Ok`, up to the failing one otherwise, see [pool_page_step].
pub open spec fn pool_filled(states: Seq<Kernel>, id: usize, va: usize, n: int, perm: u32, r: Result<(), KError>) -> bool {
    &&& 1 <= states.len() <= n + 1
    &&& r is Ok ==> states.len() == n + 1 && r == Ok::<(), KError>(())
    &&& r is Err ==> states.len() >= 2
    &&& forall|k: int|
        0 <= k < states.len() - 1 ==> pool_page_step(
            #[trigger] states[k],
            states[k + 1],
            id,
            seg_va(va, k),
            perm,
            if k == states.len() - 2 {
                r
            } else {
                Ok(())
            },
        )
}

/// Whether the user range of `len` bytes at `va` may hold a new pool: it
/// lies in \[`UTEMP`, `UTOP`) and starts at a page boundary.
pub open spec fn pool_range_ok(va: u32, len: u32) -> bool {
    UTEMP <= va && va + len <= UTOP && va % 4096 == 0
}

/// The byte at the user address `va` under the page directory at `pgdir`,
/// or `None` if it is not mapped.
#[verifier::opaque]
pub open spec fn user_byte(pmap: Pmap, pgdir: usize, va: int) -> Option<u8> {
    match pmap.translate_spec(pgdir, va as usize) {
        Some(a) => Some(mem_byte(pmap.mem(), a)),
        None => None,
    }
}

/// The page directory of the current env of the kernel `k`.
pub open spec fn cur_pgdir(k: Kernel) -> usize {
    k.envs.env(k.envs.cur() as int).pgdir
}

/// What a kernel access to the user address `va` of the current env does to
/// the kernel `pre`, leaving `post`: the access can be served, and is, as
/// the TLB refill does, see [fault_step]; nothing else changes.
pub open spec fn user_fault(pre: Kernel, post: Kernel, va: int) -> bool {
    let c = pre.envs.env(pre.envs.cur() as int);
    &&& post.envs == pre.envs
    &&& post.pool == pre.pool
    &&& fault_allowed(pre.pmap, va as usize, c.pgdir)
    &&& fault_step(pre.pmap, post.pmap, va as usize, c.pgdir, c.asid)
}

/// Whether a kernel access to the user address `va` of the current env of
/// the kernel `k` cannot be served, see [fault_allowed]: a kernel panic.
pub open spec fn fault_refused(k: Kernel, va: int) -> bool {
    !fault_allowed(k.pmap, va as usize, cur_pgdir(k))
}

/// Whether the kernels `states` are the steps of reading the bytes `b` at
/// the user address `va` of the current env, one after the other, each
/// access served first, see [user_fault].
pub open spec fn bytes_read(states: Seq<Kernel>, va: int, b: Seq<u8>) -> bool {
    &&& states.len() == b.len() + 1
    &&& forall|k: int|
        0 <= k < b.len() ==> user_fault(#[trigger] states[k], states[k + 1], va + k) && Some(b[k]) == user_byte(
            states[k + 1].pmap,
            cur_pgdir(states[k + 1]),
            va + k,
        )
}

/// What reading `n` bytes at the user address `va` of the current env does
/// to the kernel `pre`, leaving `post`, and gives: the bytes are read one
/// after the other, see [bytes_read], all `n` of them, or, as `None`, up to
/// the first access that cannot be served.
pub open spec fn read_bytes_post(pre: Kernel, post: Kernel, va: int, n: int, r: Option<Seq<u8>>) -> bool {
    exists|states: Seq<Kernel>, b: Seq<u8>|
        {
            &&& #[trigger] bytes_read(states, va, b)
            &&& states[0] == pre
            &&& states[states.len() - 1] == post
            &&& b.len() <= n
            &&& r matches Some(v) ==> v == b && b.len() == n
            &&& r is None ==> b.len() < n && fault_refused(post, va + b.len())
        }
}

/// What storing the byte `x` at the mapped user address `va` of the current
/// env does to the kernel `pre`, leaving `post`: that byte of memory is `x`
/// now, and nothing else changes.
pub open spec fn byte_stored(pre: Kernel, post: Kernel, va: int, x: u8) -> bool {
    let a = phys_of(pre.pmap, cur_pgdir(pre), va);
    &&& post.envs == pre.envs
    &&& post.pool == pre.pool
    &&& post.pmap.npage() == pre.pmap.npage()
    &&& post.pmap.mem().len() == pre.pmap.mem().len()
    &&& post.pmap.free_list() == pre.pmap.free_list()
    &&& post.pmap.tlb_requests() == pre.pmap.tlb_requests()
    &&& forall|q: int| 0 <= q < post.pmap.npage() ==> #[trigger] post.pmap.ref_of(q) == pre.pmap.ref_of(q)
    &&& mem_byte(post.pmap.mem(), a) == x
    &&& forall|b: int|
        0 <= b < pre.pmap.mem().len() * 4 && b != a ==> #[trigger] mem_byte(post.pmap.mem(), b) == mem_byte(
            pre.pmap.mem(),
            b,
        )
}

/// Whether the kernels `states` are the steps of storing the `m` lowest
/// bytes of `value`, lowest first, at the user address `va` of the current
/// env: for each byte, the access is served, see [user_fault], and the
/// byte stored, see [byte_stored].
pub open spec fn bytes_stored(states: Seq<Kernel>, va: int, value: u32, m: int) -> bool {
    &&& m >= 0
    &&& states.len() == 2 * m + 1
    &&& forall|k: int|
        0 <= k < m ==> user_fault(#[trigger] states[2 * k], states[2 * k + 1], va + k) && byte_stored(
            states[2 * k + 1],
            states[2 * k + 2],
            va + k,
            word_byte(value, k),
        )
}

/// In a system call, the page directory of the current env is a page.
proof fn lemma_cur_fits(k: Kernel)
    requires
        k.in_syscall(),
    ensures
        k.pmap.is_page_kva(cur_pgdir(k)),
{
    assert(env_fits(k.envs.env(k.envs.cur() as int), k.pmap));
}

/// What reading the zero-terminated string at the user address `va` of the
/// current env does to the kernel `pre`, leaving `post`, and gives as `r`:
/// the bytes are read one after the other, see [bytes_read], up to and
/// with the first zero, which `r` leaves out, or up to the end of the
/// address space or the first access that cannot be served.
pub open spec fn cstr_read_post(pre: Kernel, post: Kernel, va: int, r: Seq<u8>) -> bool {
    exists|states: Seq<Kernel>, b: Seq<u8>|
        {
            &&& #[trigger] bytes_read(states, va, b)
            &&& states[0] == pre
            &&& states[states.len() - 1] == post
            &&& r.len() <= b.len() <= r.len() + 1
            &&& forall|i: int| 0 <= i < r.len() ==> #[trigger] r[i] == b[i] && r[i] != 0
            &&& b.len() == r.len() + 1 ==> b[r.len() as int] == 0
            &&& b.len() == r.len() ==> va + r.len() > u32::MAX || fault_refused(post, va + r.len())
        }
}

/// What storing the `len` lowest bytes of `value` at the user address `va`
/// of the current env does to the kernel `pre`, leaving `post`, and gives
/// as `r`: the bytes are stored one after the other, see [bytes_stored],
/// all of them for zero, or up to the first access that cannot be served
/// for `Invalid`, negated.
pub open spec fn store_user_post(pre: Kernel, post: Kernel, va: int, len: int, value: u32, r: u32) -> bool {
    exists|states: Seq<Kernel>, m: int|
        {
            &&& #[trigger] bytes_stored(states, va, value, m)
            &&& states[0] == pre
            &&& states[states.len() - 1] == post
            &&& 0 <= m <= len
            &&& m == len ==> r == 0
            &&& m < len ==> r == kerror_ret(KError::Invalid) && fault_refused(post, va + m)
        }
}

/// The words of the trap frame `tf` as laid out in memory: its registers
/// in order, then Status, HI, LO, BadVAddr, Cause and EPC.
pub open spec fn frame_words(tf: TrapFrame) -> Seq<u32> {
    tf.regs@ + seq![tf.cp0_status, tf.hi, tf.lo, tf.cp0_badvaddr, tf.cp0_cause, tf.cp0_epc]
}

/// Whether the kernels `states` are the steps of reading the words `w` at
/// the user address `va` of the current env, one after the other, each
/// access served first, see [user_fault].
pub open spec fn words_read(states: Seq<Kernel>, va: int, w: Seq<u32>) -> bool {
    &&& states.len() == w.len() + 1
    &&& forall|k: int|
        0 <= k < w.len() ==> user_fault(#[trigger] states[k], states[k + 1], va + 4 * k) && Some(w[k]) == user_word(
            states[k + 1].pmap,
            cur_pgdir(states[k + 1]),
            va + 4 * k,
        )
}

/// What reading the trap frame at the user address `va` of the current env
/// does to the kernel `pre`, leaving `post`, and gives as `r`: its words are
/// read one after the other, see [words_read], all of them, or, as `None`,
/// up to the first access that cannot be served.
pub open spec fn frame_read_post(pre: Kernel, post: Kernel, va: int, r: Option<TrapFrame>) -> bool {
    exists|states: Seq<Kernel>, w: Seq<u32>|
        {
            &&& #[trigger] words_read(states, va, w)
            &&& states[0] == pre
            &&& states[states.len() - 1] == post
            &&& w.len() <= 38
            &&& r matches Some(tf) ==> w.len() == 38 && w == frame_words(tf)
            &&& r is None ==> w.len() < 38 && fault_refused(post, va + 4 * w.len())
        }
}

/// Reading one more word extends the steps of [words_read].
proof fn lemma_words_read_push(states: Seq<Kernel>, va: int, w: Seq<u32>, next: Kernel, x: u32)
    requires
        words_read(states, va, w),
        user_fault(states[states.len() - 1], next, va + 4 * w.len()),
        Some(x) == user_word(next.pmap, cur_pgdir(next), va + 4 * w.len()),
    ensures
        words_read(states.push(next), va, w.push(x)),
{
    let s2 = states.push(next);
    let w2 = w.push(x);
    assert forall|k: int| 0 <= k < w2.len() implies user_fault(#[trigger] s2[k], s2[k + 1], va + 4 * k) && Some(w2[k])
        == user_word(s2[k + 1].pmap, cur_pgdir(s2[k + 1]), va + 4 * k) by {
        if k < w.len() {
            assert(s2[k] == states[k] && s2[k + 1] == states[k + 1] && w2[k] == w[k]);
        }
    }
}

/// The trap frame whose words, as laid out in memory, are `w`, see
/// [frame_words].
fn frame_of_words(w: &Vec<u32>) -> (tf: TrapFrame)
    requires
        w@.len() == 38,
    ensures
        frame_words(tf) == w@,
{
    let mut tf = TrapFrame::const_construct();
    let mut j: usize = 0;
    while j < 32
        invariant
            j <= 32,
            w@.len() == 38,
            forall|k: int| 0 <= k < j ==> #[trigger] tf.regs@[k] == w@[k],
        decreases 32 - j,
    {
        tf.regs[j] = w[j];
        j = j + 1;
    }
    tf.cp0_status = w[32];
    tf.hi = w[33];
    tf.lo = w[34];
    tf.cp0_badvaddr = w[35];
    tf.cp0_cause = w[36];
    tf.cp0_epc = w[37];
    proof {
        assert(frame_words(tf) =~= w@);
    }
    tf
}

/// What storing the word `x` at the mapped, word-aligned user address `va`
/// of the current env does to the kernel `pre`, leaving `post`: that word
/// of memory is `x` now, and nothing else changes.
pub open spec fn word_stored(pre: Kernel, post: Kernel, va: int, x: u32) -> bool {
    &&& post.envs == pre.envs
    &&& post.pool == pre.pool
    &&& post.pmap.npage() == pre.pmap.npage()
    &&& post.pmap.free_list() == pre.pmap.free_list()
    &&& post.pmap.tlb_requests() == pre.pmap.tlb_requests()
    &&& forall|q: int| 0 <= q < post.pmap.npage() ==> #[trigger] post.pmap.ref_of(q) == pre.pmap.ref_of(q)
    &&& post.pmap.mem() == pre.pmap.mem().update(phys_of(pre.pmap, cur_pgdir(pre), va) / 4, x)
}

/// Whether the kernels `states` are the steps of storing the first `m` of
/// the words `w` at the user address `va` of the current env: for each
/// word, the access is served, see [user_fault], and the word stored, see
/// [word_stored].
pub open spec fn words_stored(states: Seq<Kernel>, va: int, w: Seq<u32>, m: int) -> bool {
    &&& 0 <= m <= w.len()
    &&& states.len() == 2 * m + 1
    &&& forall|k: int|
        0 <= k < m ==> user_fault(#[trigger] states[2 * k], states[2 * k + 1], va + 4 * k) && word_stored(
            states[2 * k + 1],
            states[2 * k + 2],
            va + 4 * k,
            w[k],
        )
}

/// Storing one more word extends the steps of [words_stored].
proof fn lemma_words_stored_push(states: Seq<Kernel>, va: int, w: Seq<u32>, m: int, a: Kernel, b: Kernel)
    requires
        words_stored(states, va, w, m),
        m < w.len(),
        user_fault(states[states.len() - 1], a, va + 4 * m),
        word_stored(a, b, va + 4 * m, w[m]),
    ensures
        words_stored(states.push(a).push(b), va, w, m + 1),
{
    let s2 = states.push(a).push(b);
    assert forall|k: int| 0 <= k < m + 1 implies user_fault(#[trigger] s2[2 * k], s2[2 * k + 1], va + 4 * k)
        && word_stored(s2[2 * k + 1], s2[2 * k + 2], va + 4 * k, w[k]) by {
        if k < m {
            assert(s2[2 * k] == states[2 * k] && s2[2 * k + 1] == states[2 * k + 1] && s2[2 * k + 2] == states[2 * k
                + 2]);
        } else {
            assert(s2[2 * k] == states[2 * m] && s2[2 * k + 1] == a && s2[2 * k + 2] == b);
        }
    }
}

/// What reading the word at the user address `va` of the current env does
/// to the kernel `pre`, leaving `post`, and gives as `r`: the access is
/// served and the word read, see [user_fault]; or, as `None`, it cannot be,
/// and nothing changes.
pub open spec fn word_read_post(pre: Kernel, post: Kernel, va: int, r: Option<u32>) -> bool {
    &&& r is None <==> fault_refused(pre, va)
    &&& r is None ==> post == pre
    &&& r matches Some(w) ==> user_fault(pre, post, va) && Some(w) == user_word(post.pmap, cur_pgdir(post), va)
}

/// The value of the bytes `b` read as a little-endian number, for at most
/// four bytes.
pub open spec fn le_value(b: Seq<u8>) -> int {
    (if b.len() > 0 { b[0] as int } else { 0 }) + (if b.len() > 1 { b[1] * 0x100 } else { 0 }) + (if b.len() > 2 {
        b[2] * 0x1_0000
    } else {
        0
    }) + (if b.len() > 3 { b[3] * 0x100_0000 } else { 0 })
}

/// The `i`-th byte, counted from the lowest, of the word `v`.
pub open spec fn word_byte(v: u32, i: int) -> u8 {
    ((v as int / pow256(i)) % 256) as u8
}

/// `256` to the power `i`, for `i` up to three.
pub open spec fn pow256(i: int) -> int {
    if i <= 0 {
        1
    } else if i == 1 {
        0x100
    } else if i == 2 {
        0x1_0000
    } else {
        0x100_0000
    }
}

/// Whether a device access of `len` bytes at the physical address `pa`,
/// with user memory at `va`, may be made: `va` lies wholly in \[`UTEMP`,
/// `UTOP`), `pa` wholly in the console (`0x180003f8`, `0x20` bytes) or the
/// IDE disk (`0x180001f0`, `8` bytes), and `len` is `1`, `2` or `4`.
pub open spec fn dev_access_ok(va: u32, pa: u32, len: u32) -> bool {
    &&& UTEMP <= va && va + len <= UTOP
    &&& (0x180003f8 <= pa && pa + len <= 0x180003f8 + 0x20) || (0x180001f0 <= pa && pa + len <= 0x180001f0 + 0x8)
    &&& len == 1 || len == 2 || len == 4
}

/// Whether a device access is allowed, see [dev_access_ok].
pub fn dev_access_check(va: u32, pa: u32, len: u32) -> (r: bool)
    ensures
        r == dev_access_ok(va, pa, len),
{
    let va = va as u64;
    let pa = pa as u64;
    let len = len as u64;
    (UTEMP as u64) <= va && va + len <= (UTOP as u64) && ((0x180003f8 <= pa && pa + len <= 0x180003f8 + 0x20) || (
    0x180001f0 <= pa && pa + len <= 0x180001f0 + 0x8)) && (len == 1 || len == 2 || len == 4)
}

/// The physical address the user address `va` translates to under the page
/// directory at `pgdir`, where it is mapped.
pub open spec fn phys_of(pmap: Pmap, pgdir: usize, va: int) -> int {
    pmap.translate_spec(pgdir, va as usize)->0
}

/// What the kernel must do after a system call, beyond the changes it made
/// to its state and to the trap frame.
#[derive(Debug)]
pub enum SyscallAction {
    /// Return to the current env.
    Resume,
    /// Show the byte on the console, then return.
    Putchar(u8),
    /// Show the bytes on the console, then return.
    Print(Vec<u8>),
    /// Give the CPU up and schedule another env.
    Schedule,
    /// Panic the kernel with the message.
    Panic(Vec<u8>),
    /// Wait for a character from the console and return it in `$v0`.
    Getc,
    /// Write the `len` lowest bytes of `value` to the device at the
    /// physical address `pa`, then return.
    WriteDev { pa: u32, len: u32, value: u32 },
    /// Read `len` bytes from the device at the physical address `pa`, store
    /// them at the user address `va` with
    /// [store_user_value](Kernel::store_user_value), then return.
    ReadDev { va: u32, pa: u32, len: u32 },
}

/// Whether the trap frame `post` is `pre` with `$v0` set to `v0` and the
/// exception return address moved past the `syscall` instruction.
pub open spec fn returned(post: TrapFrame, pre: TrapFrame, v0: u32) -> bool {
    &&& post.regs@ == pre.regs@.update(2, v0)
    &&& post.cp0_epc == ((pre.cp0_epc + 4) % 0x1_0000_0000) as u32
    &&& post.cp0_status == pre.cp0_status
    &&& post.hi == pre.hi
    &&& post.lo == pre.lo
    &&& post.cp0_badvaddr == pre.cp0_badvaddr
    &&& post.cp0_cause == pre.cp0_cause
}

/// The `i`-th word of the trap frame `tf` as laid out in memory.
pub open spec fn frame_word(tf: TrapFrame, i: int) -> u32 {
    if i < 32 {
        tf.regs@[i]
    } else if i == 32 {
        tf.cp0_status
    } else if i == 33 {
        tf.hi
    } else if i == 34 {
        tf.lo
    } else if i == 35 {
        tf.cp0_badvaddr
    } else if i == 36 {
        tf.cp0_cause
    } else {
        tf.cp0_epc
    }
}

/// The `i`-th word of the trap frame `tf`, see [frame_word].
fn frame_word_of(tf: &TrapFrame, i: usize) -> (r: u32)
    requires
        i < 38,
    ensures
        r == frame_word(*tf, i as int),
{
    if i < 32 {
        tf.regs[i]
    } else if i == 32 {
        tf.cp0_status
    } else if i == 33 {
        tf.hi
    } else if i == 34 {
        tf.lo
    } else if i == 35 {
        tf.cp0_badvaddr
    } else if i == 36 {
        tf.cp0_cause
    } else {
        tf.cp0_epc
    }
}

/// Where the TLB modification handler stores the trap frame `tf` on the
/// user exception stack: below the stack pointer if it lies on that stack,
/// below its top otherwise.
pub open spec fn tlb_mod_frame_va(tf: TrapFrame) -> int {
    let sp = tf.regs@[29];
    (if USTACKTOP <= sp < UXSTACKTOP {
        sp as int
    } else {
        UXSTACKTOP as int
    }) - 152
}

/// A mapped word-aligned user address has a word-aligned physical address.
proof fn lemma_word_phys_aligned(pmap: Pmap, pgdir: usize, va: int)
    requires
        0 <= va <= usize::MAX,
        va % 4 == 0,
        user_word(pmap, pgdir, va) is Some,
    ensures
        phys_of(pmap, pgdir, va) % 4 == 0,
{
    reveal(user_word);
    let (p, _) = pmap.lookup(pgdir, va as usize)->0;
    let x = va % 4096;
    assert(x % 4 == 0) by (nonlinear_arith)
        requires
            va % 4 == 0,
            x == va % 4096,
    ;
    assert((p * 4096 + x) % 4 == 0) by (nonlinear_arith)
        requires
            x % 4 == 0,
            p >= 0,
    ;
}

/// What [sys_env_destroy](Kernel::sys_env_destroy) does to the kernel `pre`, leaving
/// `post`, and what it returns.
pub open spec fn env_destroy_post(pre: Kernel, post: Kernel, envid: u32, r: (u32, bool)) -> bool {
    &&& match pre.envs.envid2env_spec(envid, true) {
        Ok(e) => {
            &&& r.0 == 0
            &&& r.1 == (pre.envs.cur() == e)
            &&& post.envs.cur() == if r.1 { NENV } else { pre.envs.cur() }
            &&& post.envs.env(e as int) == (EnvData { status: EnvStatus::Free, ..pre.envs.env(e as int) })
            &&& forall|i: int| 0 <= i < NENV && i != e ==> #[trigger] post.envs.env(i) == pre.envs.env(i)
            &&& post.envs.free_envs() == seq![e] + pre.envs.free_envs()
            &&& only_released(pre.pmap, post.pmap)
            &&& released_own(pre.pmap, post.pmap, pre.envs.env(e as int).pgdir)
            &&& freed_space(pre.pmap, post.pmap, pre.envs.env(e as int).pgdir)
            &&& !post.envs.sched().contains(e)
            &&& tidy_space(pre.pmap, pre.envs.env(e as int).pgdir) ==> windows_flushed(
                pre.pmap,
                post.pmap,
                pre.envs.env(e as int).pgdir,
                pre.envs.env(e as int).asid,
                0x1fd,
            )
            &&& post.pmap.tlb_requests().contains(tlb_entryhi(pre.envs.env(e as int).asid, (UVPT + 0x1ff * 4096) as usize))
            &&& destory_env_post(pre.pool, post.pool, pre.envs.env(e as int).id as usize)
        },
        Err(err) => r == (kerror_ret(err), false) && post == pre,
    }
}

/// What [sys_mem_alloc](Kernel::sys_mem_alloc) does to the kernel `pre`, leaving
/// `post`, and what it returns.
pub open spec fn mem_alloc_post(pre: Kernel, post: Kernel, envid: u32, va: u32, perm: u32, r: u32) -> bool {
    &&& post.envs == pre.envs
    &&& post.pool == pre.pool
    &&& !user_va(va) ==> r == kerror_ret(KError::Invalid) && post == pre
    &&& user_va(va) ==> match pre.envs.envid2env_spec(envid, true) {
        Err(err) => r == kerror_ret(err) && post == pre,
        Ok(e) => {
            let d = pre.envs.env(e as int);
            &&& pre.pmap.free_list().len() == 0 ==> r == kerror_ret(KError::NoMem) && post
                == pre
            &&& pre.pmap.free_list().len() > 0 ==> exists|m1: Pmap|
                {
                    &&& alloc_post(pre.pmap, m1, Ok(pre.pmap.free_list()[0]))
                    &&& #[trigger] m1.wf()
                    &&& m1.npage() == pre.pmap.npage()
                    &&& !m1.insert_safe(d.pgdir, va as usize, pre.pmap.free_list()[0]) ==> r == kerror_ret(
                        KError::Invalid,
                    ) && post.pmap.free_list() == pre.pmap.free_list() && post.pmap.mem() == m1.mem()
                        && post.pmap.tlb_requests() == pre.pmap.tlb_requests() && (forall|q: int|
                        0 <= q < post.pmap.npage() ==> #[trigger] post.pmap.ref_of(q) == pre.pmap.ref_of(q))
                    &&& (m1.insert_safe(d.pgdir, va as usize, pre.pmap.free_list()[0]) ==> exists|ir: Result<(), KError>|
                            r == ret_of(ir) && #[trigger] insert_post(
                                m1,
                                post.pmap,
                                d.pgdir,
                                va as usize,
                                d.asid,
                                perm,
                                pre.pmap.free_list()[0],
                                ir,
                            ))
                }
        },
    }
}

/// What [sys_mem_unmap](Kernel::sys_mem_unmap) does to the kernel `pre`, leaving
/// `post`, and what it returns.
pub open spec fn mem_unmap_post(pre: Kernel, post: Kernel, envid: u32, va: u32, r: u32) -> bool {
    &&& post.envs == pre.envs
    &&& post.pool == pre.pool
    &&& !user_va(va) ==> r == kerror_ret(KError::Invalid) && post == pre
    &&& user_va(va) ==> match pre.envs.envid2env_spec(envid, true) {
        Err(err) => r == kerror_ret(err) && post == pre,
        Ok(e) => {
            let d = pre.envs.env(e as int);
            &&& !pre.pmap.mapping_ok(d.pgdir, va as usize) ==> r == kerror_ret(KError::Invalid)
                && post == pre
            &&& pre.pmap.mapping_ok(d.pgdir, va as usize) ==> {
                &&& r == 0
                &&& pre.pmap.lookup(d.pgdir, va as usize) is None ==> post.pmap == pre.pmap
                &&& pre.pmap.lookup(d.pgdir, va as usize) matches Some((q, _)) ==> {
                    &&& post.pmap.mem() == pre.pmap.mem().update(
                        pre.pmap.pte_index(d.pgdir, va as usize),
                        0u32,
                    )
                    &&& post.pmap.tlb_requests() == pre.pmap.tlb_requests().push(
                        crate::memory::pmap::tlb_entryhi(d.asid, va as usize),
                    )
                    &&& forall|x: int|
                        0 <= x < post.pmap.npage() ==> #[trigger] post.pmap.ref_of(x) == if x
                            == q {
                            (pre.pmap.ref_of(x) - 1) as u16
                        } else {
                            pre.pmap.ref_of(x)
                        }
                    &&& post.pmap.free_list() == if pre.pmap.ref_of(q as int) == 1 {
                        seq![q] + pre.pmap.free_list()
                    } else {
                        pre.pmap.free_list()
                    }
                }
            }
        },
    }
}

/// What [sys_exofork](Kernel::sys_exofork) does to the kernel `pre`, leaving
/// `post`, and what it returns.
pub open spec fn exofork_post(pre: Kernel, post: Kernel, ktf: TrapFrame, r: u32) -> bool {
    &&& post.pool == pre.pool
    &&& post.envs.cur() == pre.envs.cur()
    &&& post.envs.base_pgdir() == pre.envs.base_pgdir()
    &&& pre.envs.free_envs().len() == 0 ==> r == kerror_ret(KError::NoFreeEnv) && post == pre
    &&& pre.envs.free_envs().len() > 0 && pre.pmap.ref_of(Pmap::kva_page(pre.envs.base_pgdir() as int)) == 0
        ==> r == kerror_ret(KError::Invalid) && post == pre
    &&& pre.envs.free_envs().len() > 0 && pre.pmap.ref_of(Pmap::kva_page(pre.envs.base_pgdir() as int))
        > 0 && pre.pmap.free_list().len() == 0 ==> {
        &&& r == kerror_ret(KError::NoMem)
        &&& post.pmap == pre.pmap
        &&& post.envs.free_envs() == pre.envs.free_envs().drop_first()
        &&& post.envs.sched() == pre.envs.sched()
        &&& forall|i: int| 0 <= i < NENV ==> #[trigger] post.envs.env(i) == pre.envs.env(i)
    }
    &&& pre.envs.free_envs().len() > 0 && pre.pmap.ref_of(Pmap::kva_page(pre.envs.base_pgdir() as int))
        > 0 && pre.pmap.free_list().len() > 0 && (forall|a: int| 0 <= a < 256 ==> #[trigger] pre.envs.asid_used(a))
        ==> {
        let e = pre.envs.free_envs()[0] as int;
        let p = pre.pmap.free_list()[0] as int;
        &&& r == kerror_ret(KError::NoFreeEnv)
        &&& post.envs.free_envs() == pre.envs.free_envs().drop_first()
        &&& post.envs.sched() == pre.envs.sched()
        &&& forall|i: int| 0 <= i < NENV && i != e ==> #[trigger] post.envs.env(i) == pre.envs.env(i)
        &&& post.envs.env(e) == (EnvData {
            pgdir: (crate::memory::regions::ULIM + p * 4096) as usize,
            user_tlb_mod_entry: 0,
            env_runs: 0,
            id: crate::process::envs::envid_of(pre.envs.counter(), e as usize),
            ..pre.envs.env(e)
        })
        &&& post.pmap.free_list() == pre.pmap.free_list().drop_first()
        &&& post.pmap.mem() == crate::process::envs::env_vm_mem(
            pre.pmap.mem(),
            Pmap::kva_page(pre.envs.base_pgdir() as int),
            p,
        )
        &&& forall|q: int| 0 <= q < post.pmap.npage() ==> #[trigger] post.pmap.ref_of(q) == if q == p {
            1u16
        } else {
            pre.pmap.ref_of(q)
        }
    }
    &&& pre.envs.free_envs().len() > 0 && pre.pmap.ref_of(Pmap::kva_page(pre.envs.base_pgdir() as int))
        > 0 && pre.pmap.free_list().len() > 0 && (exists|a: int| 0 <= a < 256 && !#[trigger] pre.envs.asid_used(a))
        ==> {
        let e = pre.envs.free_envs()[0] as int;
        let cur = pre.envs.cur() as int;
        &&& post.envs.env(e).status == EnvStatus::NotRunnable
        &&& post.envs.env(e).parent_id == pre.envs.env(cur).id
        &&& post.envs.env(e).priority == pre.envs.env(cur).priority
        &&& post.envs.env(e).trap_frame.regs@ == ktf.regs@.update(2, 0u32)
        &&& post.envs.env(e).trap_frame.cp0_epc == ktf.cp0_epc
        &&& post.envs.env(e).trap_frame.cp0_status == ktf.cp0_status
        &&& post.envs.env(e).pgdir == (crate::memory::regions::ULIM + pre.pmap.free_list()[0] * 4096) as usize
        &&& post.pmap.free_list() == pre.pmap.free_list().drop_first()
        &&& post.pmap.mem() == crate::process::envs::env_vm_mem(
            pre.pmap.mem(),
            Pmap::kva_page(pre.envs.base_pgdir() as int),
            pre.pmap.free_list()[0] as int,
        )
        &&& post.envs.env(e).id == crate::process::envs::envid_of(pre.envs.counter(), e as usize)
        &&& r == post.envs.env(e).id
        &&& post.envs.free_envs() == pre.envs.free_envs().drop_first()
        &&& post.envs.sched() == pre.envs.sched()
        &&& forall|i: int| 0 <= i < NENV && i != e ==> #[trigger] post.envs.env(i) == pre.envs.env(i)
    }
}

/// What [sys_set_env_status](Kernel::sys_set_env_status) does to the kernel `pre`, leaving
/// `post`, and what it returns.
pub open spec fn set_env_status_post(pre: Kernel, post: Kernel, envid: u32, status: u32, r: u32) -> bool {
    &&& post.pmap == pre.pmap
    &&& post.pool == pre.pool
    &&& status != 1 && status != 2 ==> r == kerror_ret(KError::Invalid) && post == pre
    &&& status == 1 || status == 2 ==> match pre.envs.envid2env_spec(envid, true) {
        Err(err) => r == kerror_ret(err) && post == pre,
        Ok(e) => {
            let st = if status == 1 {
                EnvStatus::Runnable
            } else {
                EnvStatus::NotRunnable
            };
            &&& r == 0
            &&& post.envs.env(e as int) == (EnvData { status: st, ..pre.envs.env(e as int) })
            &&& forall|i: int| 0 <= i < NENV && i != e ==> #[trigger] post.envs.env(i) == pre.envs.env(i)
            &&& post.envs.sched() == if pre.envs.env(e as int).status == st {
                pre.envs.sched()
            } else if st == EnvStatus::Runnable {
                pre.envs.sched().push(e)
            } else {
                pre.envs.sched().remove(pre.envs.sched().index_of(e))
            }
            &&& post.envs.free_envs() == pre.envs.free_envs()
            &&& post.envs.cur() == pre.envs.cur()
        },
    }
}

/// How [sys_ipc_try_send](Kernel::sys_ipc_try_send) passes the page that
/// the sender maps at `src_va` under its page directory `src_pgdir`: the page
/// is looked up, and mapped at `dst_va` under the receiver's page directory
/// `dst_pgdir` in its address space `asid` with the permission `perm`, see
/// [page_insert](Pmap::page_insert). `Invalid` is returned, and the page
/// manager stays, if nothing is mapped at `src_va` (or its walk leaves
/// memory), or the page cannot be mapped at `dst_va` safely.
pub open spec fn ipc_page_post(
    pre: Pmap,
    post: Pmap,
    src_pgdir: usize,
    src_va: usize,
    dst_pgdir: usize,
    dst_va: usize,
    asid: u32,
    perm: u32,
    r: u32,
) -> bool {
    if !pre.walk_ok(src_pgdir, src_va) {
        r == kerror_ret(KError::Invalid) && post == pre
    } else {
        match pre.lookup(src_pgdir, src_va) {
            None => r == kerror_ret(KError::Invalid) && post == pre,
            Some((p, _)) => if !(p < pre.npage() && pre.ref_of(p as int) > 0 && pre.insert_safe(dst_pgdir, dst_va, p)) {
                r == kerror_ret(KError::Invalid) && post == pre
            } else {
                exists|ir: Result<(), KError>|
                    r == ret_of(ir) && #[trigger] insert_post(pre, post, dst_pgdir, dst_va, asid, perm, p, ir)
            },
        }
    }
}

/// What [sys_ipc_try_send](Kernel::sys_ipc_try_send) does to the kernel `pre`, leaving
/// `post`, and what it returns.
pub open spec fn ipc_try_send_post(pre: Kernel, post: Kernel, envid: u32, value: u32, src_va: u32, perm: u32, r: u32) -> bool {
    &&& post.pool == pre.pool
    &&& src_va != 0 && !user_va(src_va) ==> r == kerror_ret(KError::Invalid) && post == pre
    &&& src_va == 0 || user_va(src_va) ==> match pre.envs.envid2env_spec(envid, false) {
        Err(err) => r == kerror_ret(err) && post == pre,
        Ok(e) => {
            let d = pre.envs.env(e as int);
            let cur = pre.envs.cur() as int;
            &&& !d.ipc_data.receiving ==> r == kerror_ret(KError::IpcNotRecv) && post == pre
            &&& d.ipc_data.receiving ==> {
                &&& post.envs.env(e as int) == (EnvData {
                    status: EnvStatus::Runnable,
                    ipc_data: crate::process::envs::IpcData {
                        value,
                        from_id: pre.envs.env(cur).id,
                        perm: perm | 0x80u32,
                        receiving: false,
                        ..d.ipc_data
                    },
                    ..d
                })
                &&& forall|i: int| 0 <= i < NENV && i != e ==> #[trigger] post.envs.env(i) == pre.envs.env(i)
                &&& post.envs.sched() == if d.status == EnvStatus::Runnable {
                    pre.envs.sched()
                } else {
                    pre.envs.sched().push(e)
                }
                &&& src_va == 0 ==> r == 0 && post.pmap == pre.pmap
                &&& src_va != 0 ==> ipc_page_post(
                    pre.pmap,
                    post.pmap,
                    pre.envs.env(cur).pgdir,
                    src_va as usize,
                    d.pgdir,
                    d.ipc_data.dstva as usize,
                    d.asid,
                    perm,
                    r,
                )
            }
        },
    }
}

/// What [sys_ipc_recv](Kernel::sys_ipc_recv) does to the kernel `pre`, leaving
/// `post`, and what it returns.
pub open spec fn ipc_recv_post(pre: Kernel, post: Kernel, dst_va: u32, pre_tf: TrapFrame, post_tf: TrapFrame, r: Option<u32>) -> bool {
    &&& post.pmap == pre.pmap
    &&& post.pool == pre.pool
    &&& dst_va != 0 && !user_va(dst_va) ==> r == Some(kerror_ret(KError::Invalid)) && post == pre
        && post_tf == pre_tf
    &&& dst_va == 0 || user_va(dst_va) ==> {
        let cur = pre.envs.cur() as int;
        let d = pre.envs.env(cur);
        &&& r is None
        &&& post.envs.env(cur) == (EnvData {
            status: EnvStatus::NotRunnable,
            ipc_data: crate::process::envs::IpcData { receiving: true, dstva: dst_va, ..d.ipc_data },
            ..d
        })
        &&& forall|i: int| 0 <= i < NENV && i != cur ==> #[trigger] post.envs.env(i) == pre.envs.env(i)
        &&& post.envs.sched() == if d.status == EnvStatus::Runnable {
            pre.envs.sched().remove(pre.envs.sched().index_of(cur as usize))
        } else {
            pre.envs.sched()
        }
        &&& post_tf.regs@ == pre_tf.regs@.update(2, 0u32)
    }
}

/// What [sys_set_tlb_mod_entry](Kernel::sys_set_tlb_mod_entry) does to the kernel `pre`, leaving
/// `post`, and what it returns.
pub open spec fn set_tlb_mod_entry_post(pre: Kernel, post: Kernel, envid: u32, func: u32, r: u32) -> bool {
    &&& post.pmap == pre.pmap
    &&& post.pool == pre.pool
    &&& match pre.envs.envid2env_spec(envid, true) {
        Ok(e) => {
            &&& r == 0
            &&& post.envs.env(e as int) == (EnvData {
                user_tlb_mod_entry: func,
                ..pre.envs.env(e as int)
            })
            &&& crate::process::envs::only_env_changed(pre.envs, post.envs, e as int)
        },
        Err(err) => r == kerror_ret(err) && post.envs == pre.envs,
    }
}

/// What [sys_set_trapframe](Kernel::sys_set_trapframe) does to the kernel `pre`, leaving
/// `post`, and what it returns.
pub open spec fn set_trapframe_post(pre: Kernel, post: Kernel, envid: u32, va: u32, pre_tf: TrapFrame, post_tf: TrapFrame, r: u32) -> bool {
    &&& post.pool == pre.pool
    &&& !(UTEMP <= va && va + 152 <= UTOP && va % 4 == 0) ==> r == kerror_ret(KError::Invalid)
        && post == pre && post_tf == pre_tf
    &&& UTEMP <= va && va + 152 <= UTOP && va % 4 == 0 ==> match pre.envs.envid2env_spec(envid, true) {
        Err(err) => r == kerror_ret(err) && post == pre && post_tf == pre_tf,
        Ok(e) => {
            let cur = pre.envs.cur() as int;
            exists|mid: Kernel, o: Option<TrapFrame>|
                {
                    &&& #[trigger] frame_read_post(pre, mid, va as int, o)
                    &&& o is None ==> r == kerror_ret(KError::Invalid) && post == mid && post_tf == pre_tf
                    &&& o matches Some(tf) ==> (e == cur ==> post_tf == tf && r == tf.regs@[2] && post == mid)
                    &&& o matches Some(tf) ==> e != cur ==> {
                        &&& post.envs.env(e as int) == (EnvData { trap_frame: tf, ..mid.envs.env(e as int) })
                        &&& only_env_changed(mid.envs, post.envs, e as int)
                        &&& post.pmap == mid.pmap
                        &&& post.pool == mid.pool
                        &&& r == 0
                        &&& post_tf == pre_tf
                    }
                }
        },
    }
}

/// What [sys_create_shared_pool](Kernel::sys_create_shared_pool) does to the kernel `pre`, leaving
/// `post`, and what it returns.
pub open spec fn create_shared_pool_post(pre: Kernel, post: Kernel, va: u32, len: u32, perm: u32, r: u32) -> bool {
    &&& post.envs == pre.envs
    &&& !pool_range_ok(va, len) ==> r == kerror_ret(KError::Invalid) && post == pre
    &&& pool_range_ok(va, len) && pre.pool.counter() >= max_pool_counter() ==> r == kerror_ret(
        KError::Invalid,
    ) && post == pre
    &&& pool_range_ok(va, len) && pre.pool.counter() < max_pool_counter() ==> {
        let cur = pre.envs.cur();
        let eid = pre.envs.env(cur as int).id as usize;
        let id = pool_id_spec(pre.pool.counter(), eid);
        exists|states: Seq<Kernel>, pr: Result<(), KError>|
            {
                &&& #[trigger] pool_filled(states, id, va as usize, (len + 4095) / 4096, perm, pr)
                &&& states[0].pmap == pre.pmap
                &&& states[0].envs == pre.envs
                &&& states[0].pool.pools_view() == pre.pool.pools_view().insert(id, empty_pool_view())
                &&& states[0].pool.env_pools() == pre.pool.env_pools()
                &&& states[0].pool.counter() == pre.pool.counter() + 1
                &&& pr is Err ==> r == ret_of(pr) && same_view(states[states.len() - 1], post)
                &&& pr is Ok ==> {
                    let last = states[states.len() - 1];
                    &&& r == id as u32
                    &&& post.pmap == last.pmap
                    &&& post.pool.pools_view() == last.pool.pools_view().insert(
                        id,
                        bound_view(last.pool.pools_view()[id], eid),
                    )
                    &&& post.pool.env_pools() == last.pool.env_pools().insert(
                        eid,
                        if last.pool.env_pools().contains_key(eid) {
                            last.pool.env_pools()[eid].push(id)
                        } else {
                            seq![id]
                        },
                    )
                    &&& post.pool.counter() == last.pool.counter()
                }
            }
    }
}

/// What [sys_bind_shared_pool](Kernel::sys_bind_shared_pool) does to the kernel `pre`, leaving
/// `post`, and what it returns.
pub open spec fn bind_shared_pool_post(pre: Kernel, post: Kernel, va: u32, id: u32, perm: u32, r: u32) -> bool {
    &&& post.envs == pre.envs
    &&& post.pool.counter() == pre.pool.counter()
    &&& ({
        let c = pre.envs.env(pre.envs.cur() as int);
        let eid = c.id as usize;
        let pid = id as usize;
        let pv = pre.pool.pools_view();
        &&& !pv.contains_key(pid) ==> r == kerror_ret(KError::PoolNotFound) && same_view(pre, post)
        &&& pv.contains_key(pid) && pv[pid].reference >= usize::MAX ==> r == kerror_ret(KError::Invalid)
            && post == pre
        &&& pv.contains_key(pid) && pv[pid].reference < usize::MAX && pv[pid].envs.contains(eid) ==> r
            == kerror_ret(KError::PoolDoubleBind) && same_view(pre, post)
        &&& pv.contains_key(pid) && pv[pid].reference < usize::MAX && !pv[pid].envs.contains(eid) ==> {
            &&& post.pool.pools_view() == pv.insert(pid, bound_view(pv[pid], eid))
            &&& post.pool.env_pools() == pre.pool.env_pools().insert(
                eid,
                if pre.pool.env_pools().contains_key(eid) {
                    pre.pool.env_pools()[eid].push(pid)
                } else {
                    seq![pid]
                },
            )
            &&& pages_overflow(va, pv[pid].pages.len() as int) ==> r == kerror_ret(KError::Invalid)
                && post.pmap == pre.pmap
            &&& !pages_overflow(va, pv[pid].pages.len() as int) ==> exists|states: Seq<Pmap>, mr: Result<(), KError>|
                r == ret_of(mr) && #[trigger] pages_mapped(
                    states,
                    pre.pmap,
                    post.pmap,
                    c.pgdir,
                    c.asid,
                    va as usize,
                    pv[pid].pages,
                    perm,
                    mr,
                )
        }
    })
}

/// The trap frame `tf` with its return address moved past the `syscall`
/// instruction.
pub open spec fn advanced(tf: TrapFrame) -> TrapFrame {
    TrapFrame { cp0_epc: ((tf.cp0_epc + 4) % 0x1_0000_0000) as u32, ..tf }
}

/// Whether the trap frame `post` is `t` with `$v0` set to `v0`.
pub open spec fn with_v0(post: TrapFrame, t: TrapFrame, v0: u32) -> bool {
    &&& post.regs@ == t.regs@.update(2, v0)
    &&& post.cp0_epc == t.cp0_epc
    &&& post.cp0_status == t.cp0_status
    &&& post.hi == t.hi
    &&& post.lo == t.lo
    &&& post.cp0_badvaddr == t.cp0_badvaddr
    &&& post.cp0_cause == t.cp0_cause
}

/// What reading the `i`-th system call argument on the user stack at `sp`
/// of the current env does to the kernel `pre`, leaving `post`, and gives
/// as `r`, see [stack_arg](Kernel::stack_arg): the word at `sp + 4 * i` is
/// read, see [word_read_post], if it is aligned and below the end of the
/// address space; otherwise `None`, and nothing changes.
pub open spec fn stack_arg_post(pre: Kernel, post: Kernel, sp: u32, i: u32, r: Option<u32>) -> bool {
    if sp % 4 == 0 && sp + 4 * i + 4 <= 0x1_0000_0000 {
        word_read_post(pre, post, sp + 4 * i, r)
    } else {
        r is None && post == pre
    }
}

/// What [sys_print_cons](Kernel::sys_print_cons) does to the kernel `pre`,
/// leaving `post`, and gives: `Invalid`, negated, with nothing changed, if
/// the string does not lie wholly below `UTOP`; otherwise its bytes as the
/// kernel reads them, see [read_bytes_post], or `Invalid`, negated, where
/// an access cannot be served.
pub open spec fn print_cons_post(pre: Kernel, post: Kernel, va: u32, num: u32, r: Result<Seq<u8>, u32>) -> bool {
    &&& va + num > UTOP ==> r == Err::<Seq<u8>, u32>(kerror_ret(KError::Invalid)) && post == pre
    &&& va + num <= UTOP ==> read_bytes_post(
        pre,
        post,
        va as int,
        num as int,
        match r {
            Ok(b) => Some(b),
            Err(_) => None,
        },
    ) && (r is Err ==> r == Err::<Seq<u8>, u32>(kerror_ret(KError::Invalid)))
}

/// What [sys_write_dev](Kernel::sys_write_dev) does to the kernel `pre`,
/// leaving `post`, and gives: `Invalid`, negated, with nothing changed, if
/// the access is not allowed, see [dev_access_ok]; otherwise the `len`
/// bytes at `va` as the kernel reads them, see [read_bytes_post], as a
/// little-endian number, or `Invalid`, negated, where an access cannot be
/// served.
pub open spec fn write_dev_post(pre: Kernel, post: Kernel, va: u32, pa: u32, len: u32, r: Result<u32, u32>) -> bool {
    &&& !dev_access_ok(va, pa, len) ==> r == Err::<u32, u32>(kerror_ret(KError::Invalid)) && post == pre
    &&& dev_access_ok(va, pa, len) ==> exists|o: Option<Seq<u8>>|
        #[trigger] read_bytes_post(pre, post, va as int, len as int, o) && r == match o {
            Some(b) => Ok::<u32, u32>(le_value(b) as u32),
            None => Err::<u32, u32>(kerror_ret(KError::Invalid)),
        }
}

/// What [do_syscall](Kernel::do_syscall) does for the system calls that
/// change the kernel: each leaves the kernel `post`, the trap frame
/// `post_tf` and the action `r` as its own call would, see the `*_post`
/// functions, with the value it returns put in `$v0`.
pub open spec fn do_syscall_rest(pre: Kernel, post: Kernel, pre_tf: TrapFrame, post_tf: TrapFrame, r: SyscallAction) -> bool {
    let n = pre_tf.regs@[4];
    let a1 = pre_tf.regs@[5];
    let a2 = pre_tf.regs@[6];
    let a3 = pre_tf.regs@[7];
    let sp = pre_tf.regs@[29];
    let v0 = post_tf.regs@[2];
    let ret = returned(post_tf, pre_tf, v0);
    &&& n == 4 ==> env_destroy_post(pre, post, a1, (v0, r is Schedule)) && ret && (r is Resume || r is Schedule)
    &&& n == 5 ==> set_tlb_mod_entry_post(pre, post, a1, a2, v0) && ret && r is Resume
    &&& n == 6 ==> mem_alloc_post(pre, post, a1, a2, a3, v0) && ret && r is Resume
    &&& n == 7 ==> ret && r is Resume && exists|m1: Kernel, o4: Option<u32>|
        {
            &&& #[trigger] stack_arg_post(pre, m1, sp, 4, o4)
            &&& o4 is None ==> v0 == kerror_ret(KError::Invalid) && post == m1
            &&& o4 matches Some(a4) ==> exists|m2: Kernel, o5: Option<u32>|
                {
                    &&& #[trigger] stack_arg_post(m1, m2, sp, 5, o5)
                    &&& o5 is None ==> v0 == kerror_ret(KError::Invalid) && post == m2
                    &&& o5 matches Some(a5) ==> mem_map_post(m2, post, a1, a2, a3, a4, a5, v0)
                }
        }
    &&& n == 8 ==> mem_unmap_post(pre, post, a1, a2, v0) && ret && r is Resume
    &&& n == 9 ==> ret && r is Resume && (pre.pmap.is_page_kva(pre.envs.base_pgdir()) ==> exofork_post(
        pre,
        post,
        advanced(pre_tf),
        v0,
    )) && (!pre.pmap.is_page_kva(pre.envs.base_pgdir()) ==> v0 == kerror_ret(KError::Invalid) && post == pre)
    &&& n == 10 ==> set_env_status_post(pre, post, a1, a2, v0) && ret && r is Resume
    &&& n == 11 ==> r is Resume && exists|t: TrapFrame|
        #[trigger] set_trapframe_post(pre, post, a1, a2, advanced(pre_tf), t, v0) && with_v0(post_tf, t, v0)
    &&& n == 13 ==> ret && r is Resume && exists|m1: Kernel, o4: Option<u32>|
        {
            &&& #[trigger] stack_arg_post(pre, m1, sp, 4, o4)
            &&& o4 is None ==> v0 == kerror_ret(KError::Invalid) && post == m1
            &&& o4 matches Some(a4) ==> ipc_try_send_post(m1, post, a1, a2, a3, a4, v0)
        }
    &&& n == 14 ==> exists|t: TrapFrame, o: Option<u32>|
        {
            &&& #[trigger] ipc_recv_post(pre, post, a1, advanced(pre_tf), t, o)
            &&& o matches Some(e) ==> r is Resume && with_v0(post_tf, t, e)
            &&& o is None ==> r is Schedule && post_tf == t
        }
    &&& n == 18 ==> create_shared_pool_post(pre, post, a1, a2, a3, v0) && ret && r is Resume
    &&& n == 19 ==> bind_shared_pool_post(pre, post, a1, a2, a3, v0) && ret && r is Resume
}

impl Kernel {
    /// Well-formedness: the parts are well-formed, every live env fits the
    /// page manager, and the current env, if any, is live.
    pub open spec fn wf(&self) -> bool {
        &&& self.pmap.wf()
        &&& self.envs.wf()
        &&& self.pool.wf()
        &&& forall|i: int|
            0 <= i < NENV && (#[trigger] self.envs.env(i)).status != EnvStatus::Free ==> env_fits(
                self.envs.env(i),
                self.pmap,
            )
        &&& self.envs.cur() < NENV ==> self.envs.env(self.envs.cur() as int).status != EnvStatus::Free
    }

    /// Whether a system call can run: the kernel is well-formed and there is
    /// a current env.
    pub open spec fn in_syscall(&self) -> bool {
        &&& self.wf()
        &&& self.envs.cur() < NENV
    }

    /// The result of a system call as the value returned in `$v0`.
    fn ret(r: Result<(), KError>) -> (v: u32)
        ensures
            v == ret_of(r),
    {
        match r {
            Ok(()) => 0,
            Err(e) => e.to_syscall_ret(),
        }
    }

    /// SYSNO: 2, get the id of the *current* env.
    pub fn sys_getenvid(&self) -> (r: u32)
        requires
            self.in_syscall(),
        ensures
            r == self.envs.env(self.envs.cur() as int).id,
    {
        let cur = self.envs.cur_env();
        self.envs.env_data(cur).id
    }

    /// SYSNO: 4, destory the env `envid`, which must be the *current* env
    /// or a *child* of it; see [env_destory](Envs::env_destory). Returns the
    /// value for `$v0` and whether a re-schedule must follow: the current
    /// env was destroyed.
    ///
    /// The error of [envid2env](Envs::envid2env) is returned, negated.
    pub fn sys_env_destroy(&mut self, envid: u32) -> (r: (u32, bool))
        requires
            old(self).in_syscall(),
        ensures
            final(self).wf(),
            env_destroy_post(*old(self), *final(self), envid, r),
    {
        let e = match self.envs.envid2env(envid, true) {
            Ok(e) => e,
            Err(err) => {
                return (err.to_syscall_ret(), false);
            },
        };
        let ghost k0 = *self;
        proof {
            assert(self.envs.env(e as int).status != EnvStatus::Free);
            assert(env_fits(self.envs.env(e as int), self.pmap));
        }
        let must = self.envs.env_destory(&mut self.pmap, &mut self.pool, e);
        proof {
            lemma_kernel_wf(k0, *self);
        }
        (0, must)
    }

    /// SYSNO: 6, alloc a page and map it at `va` in the env `envid`, which
    /// must be the *current* env or a *child* of it, with the permission
    /// `perm`; see [page_insert](Pmap::page_insert). A page already mapped
    /// at `va` is silently unmapped.
    ///
    /// `Invalid` is returned, negated, if `va` is not a user address, and
    /// also if the page cannot be mapped there safely (the page then goes
    /// back to the free list); the errors of [envid2env](Envs::envid2env),
    /// [page_alloc](Pmap::page_alloc) and [page_insert](Pmap::page_insert)
    /// are returned, negated.
    pub fn sys_mem_alloc(&mut self, envid: u32, va: u32, perm: u32) -> (r: u32)
        requires
            old(self).in_syscall(),
        ensures
            final(self).in_syscall(),
            mem_alloc_post(*old(self), *final(self), envid, va, perm, r),
    {
        let va = va as usize;
        if !(UTEMP <= va && va < UTOP) {
            return KError::Invalid.to_syscall_ret();
        }
        let e = match self.envs.envid2env(envid, true) {
            Ok(e) => e,
            Err(err) => {
                return err.to_syscall_ret();
            },
        };
        let d = self.envs.env_data(e);
        proof {
            assert(d.status != EnvStatus::Free);
            assert(env_fits(d, self.pmap));
            self.pmap.lemma_wf_facts();
        }
        let pp = match self.pmap.page_alloc() {
            Ok(pp) => pp,
            Err(err) => {
                return err.to_syscall_ret();
            },
        };
        let ghost m1 = self.pmap;
        proof {
            assert(old(self).pmap.is_free(pp));
            assert(!m1.is_free(pp)) by {
                if m1.free_list().contains(pp) {
                    let j = m1.free_list().index_of(pp);
                    assert(old(self).pmap.free_list()[j + 1] == pp);
                }
            }
            assert(m1.ref_of(pp as int) == 0);
        }
        if !self.pmap.can_insert(d.pgdir, va, pp) {
            self.pmap.page_free(pp);
            proof {
                assert(self.pmap.free_list() =~= old(self).pmap.free_list());
                lemma_same_npage_wf(*old(self), *self);
            }
            return KError::Invalid.to_syscall_ret();
        }
        let ir = self.pmap.page_insert(d.pgdir, va, d.asid, perm, pp);
        proof {
            lemma_same_npage_wf(*old(self), *self);
        }
        Self::ret(ir)
    }

    /// SYSNO: 8, unmap the page at `va` in the env `envid`, which must be
    /// the *current* env or a *child* of it; see
    /// [page_remove](Pmap::page_remove).
    ///
    /// `Invalid` is returned, negated, if `va` is not a user address, and
    /// also if the mapping cannot be dropped safely (its page holds no
    /// reference, or the walk leaves memory); the error of
    /// [envid2env](Envs::envid2env) is returned, negated.
    pub fn sys_mem_unmap(&mut self, envid: u32, va: u32) -> (r: u32)
        requires
            old(self).in_syscall(),
        ensures
            final(self).in_syscall(),
            mem_unmap_post(*old(self), *final(self), envid, va, r),
    {
        let va = va as usize;
        if !(UTEMP <= va && va < UTOP) {
            return KError::Invalid.to_syscall_ret();
        }
        let e = match self.envs.envid2env(envid, true) {
            Ok(e) => e,
            Err(err) => {
                return err.to_syscall_ret();
            },
        };
        let d = self.envs.env_data(e);
        proof {
            assert(d.status != EnvStatus::Free);
            assert(env_fits(d, self.pmap));
        }
        if !self.pmap.mapping_checked(d.pgdir, va) {
            return KError::Invalid.to_syscall_ret();
        }
        self.pmap.page_remove(d.pgdir, va, d.asid);
        proof {
            lemma_same_npage_wf(*old(self), *self);
        }
        0
    }

    /// SYSNO: 7, map the page mapped at `src_va` in the env `src_id` at
    /// `dst_va` in the env `dst_id`, with the permission `perm`; both envs
    /// must be the *current* env or a *child* of it. See
    /// [page_insert](Pmap::page_insert).
    ///
    /// `Invalid` is returned, negated, if an address is not a user address
    /// or nothing is mapped at `src_va`, and also if the page cannot be
    /// mapped at `dst_va` safely; the errors of [envid2env](Envs::envid2env)
    /// and of [page_insert](Pmap::page_insert) are returned, negated.
    pub fn sys_mem_map(&mut self, src_id: u32, src_va: u32, dst_id: u32, dst_va: u32, perm: u32) -> (r: u32)
        requires
            old(self).in_syscall(),
        ensures
            final(self).in_syscall(),
            mem_map_post(*old(self), *final(self), src_id, src_va, dst_id, dst_va, perm, r),
    {
        let src_va = src_va as usize;
        let dst_va = dst_va as usize;
        if !(UTEMP <= src_va && src_va < UTOP) || !(UTEMP <= dst_va && dst_va < UTOP) {
            return KError::Invalid.to_syscall_ret();
        }
        let src_env = match self.envs.envid2env(src_id, true) {
            Ok(e) => e,
            Err(err) => {
                return err.to_syscall_ret();
            },
        };
        let dst_env = match self.envs.envid2env(dst_id, true) {
            Ok(e) => e,
            Err(err) => {
                return err.to_syscall_ret();
            },
        };
        let s = self.envs.env_data(src_env);
        let d = self.envs.env_data(dst_env);
        proof {
            assert(env_fits(s, self.pmap));
            assert(env_fits(d, self.pmap));
        }
        if !self.pmap.walk_checked(s.pgdir, src_va) {
            return KError::Invalid.to_syscall_ret();
        }
        let pp = match self.pmap.page_lookup(s.pgdir, src_va) {
            Some((pp, _)) => pp,
            None => {
                return KError::Invalid.to_syscall_ret();
            },
        };
        if !(pp < self.pmap.page_count() && self.pmap.page_ref(pp) > 0 && self.pmap.can_insert(d.pgdir, dst_va, pp)) {
            return KError::Invalid.to_syscall_ret();
        }
        proof {
            self.pmap.lemma_referenced_not_free(pp);
        }
        let ir = self.pmap.page_insert(d.pgdir, dst_va, d.asid, perm, pp);
        proof {
            lemma_same_npage_wf(*old(self), *self);
        }
        Self::ret(ir)
    }

    /// SYSNO: 9, fork a new env as a *child* of the *current* env, see
    /// [env_alloc](Envs::env_alloc). The child gets the trap frame `ktf` the
    /// current env entered the kernel with, but returns zero; it is not
    /// runnable, and has its parent's priority. Returns the child's id.
    ///
    /// The error of [env_alloc](Envs::env_alloc) is returned, negated;
    /// `Invalid` if the base page directory holds no reference.
    pub fn sys_exofork(&mut self, ktf: &TrapFrame) -> (r: u32)
        requires
            old(self).in_syscall(),
            old(self).pmap.is_page_kva(old(self).envs.base_pgdir()),
        ensures
            final(self).in_syscall(),
            exofork_post(*old(self), *final(self), *ktf, r),
    {
        let cur = self.envs.cur_env();
        let parent = self.envs.env_data(cur);
        let base = self.envs.base_pgdir_of();
        let pg = (base - crate::memory::regions::ULIM) / crate::memory::regions::PAGE_SIZE;
        if self.envs.free_is_empty() {
            return KError::NoFreeEnv.to_syscall_ret();
        }
        if self.pmap.page_ref(pg) == 0 {
            return KError::Invalid.to_syscall_ret();
        }
        proof {
            self.pmap.lemma_referenced_not_free(pg);
            self.envs.lemma_free_envs_valid();
            assert(self.envs.free_envs()[0] != cur);
        }
        let ghost k0 = *self;
        let e = match self.envs.env_alloc(&mut self.pmap, parent.id) {
            Ok(e) => e,
            Err(err) => {
                proof {
                    assert(self.envs.env(cur as int) == old(self).envs.env(cur as int));
                    lemma_kernel_wf(k0, *self);
                }
                return err.to_syscall_ret();
            },
        };
        let ghost k1 = *self;
        proof {
            let p = old(self).pmap.free_list()[0] as int;
            self.pmap.lemma_wf_facts();
            old(self).pmap.lemma_wf_facts();
            assert(old(self).pmap.is_free(p as usize));
            assert(self.envs.env(e as int).pgdir == (crate::memory::regions::ULIM + p * 4096) as usize);
            assert(env_fits(self.envs.env(e as int), self.pmap));
            old(self).envs.lemma_free_envs_valid();
        }
        let mut d = self.envs.env_data(e);
        d.trap_frame = *ktf;
        d.trap_frame.regs[2] = 0;
        d.priority = parent.priority;
        self.envs.set_env(e, d);
        proof {
            assert(!self.envs.free_envs().contains(e)) by {
                if self.envs.free_envs().contains(e) {
                    let j = self.envs.free_envs().index_of(e);
                    assert(old(self).envs.free_envs()[j + 1] == e);
                }
            }
        }
        self.envs.set_status(e, EnvStatus::NotRunnable);
        proof {
            lemma_kernel_wf(k1, *self);
            lemma_kernel_wf(*old(self), *self);
        }
        self.envs.env_data(e).id
    }

    /// SYSNO: 10, set the run status of the env `envid`, which must be the
    /// *current* env or a *child* of it, to `status`: `1` for
    /// [EnvStatus::Runnable], `2` for [EnvStatus::NotRunnable]; see
    /// [set_status](Envs::set_status).
    ///
    /// `Invalid` is returned, negated, for any other status; the error of
    /// [envid2env](Envs::envid2env) is returned, negated.
    pub fn sys_set_env_status(&mut self, envid: u32, status: u32) -> (r: u32)
        requires
            old(self).in_syscall(),
        ensures
            final(self).in_syscall(),
            set_env_status_post(*old(self), *final(self), envid, status, r),
    {
        let st = if status == 1 {
            EnvStatus::Runnable
        } else if status == 2 {
            EnvStatus::NotRunnable
        } else {
            return KError::Invalid.to_syscall_ret();
        };
        let e = match self.envs.envid2env(envid, true) {
            Ok(e) => e,
            Err(err) => {
                return err.to_syscall_ret();
            },
        };
        let ghost k0 = *self;
        proof {
            assert(self.envs.env(e as int).status != EnvStatus::Free);
        }
        self.envs.set_status(e, st);
        proof {
            lemma_kernel_wf(k0, *self);
        }
        0
    }

    /// SYSNO: 13, try to send the value `value` to the env `envid`, with the
    /// page mapped at `src_va` in the *current* env if `src_va` is not zero.
    /// The receiver must be waiting: it gets the value, the sender's id and
    /// the permission `perm | PTE_V`, stops waiting, and becomes runnable;
    /// the page is mapped at the address it waits on with the permission
    /// `perm`, see [page_insert](Pmap::page_insert).
    ///
    /// `Invalid` is returned, negated, if `src_va` is neither zero nor a user
    /// address; `IpcNotRecv` if the env is not waiting. Once the receiver got
    /// the value, `Invalid` is returned, negated, if nothing is mapped at
    /// `src_va` or the page cannot be mapped safely, and the error of
    /// [page_insert](Pmap::page_insert) is passed on, negated. The error of
    /// [envid2env](Envs::envid2env) is returned, negated.
    pub fn sys_ipc_try_send(&mut self, envid: u32, value: u32, src_va: u32, perm: u32) -> (r: u32)
        requires
            old(self).in_syscall(),
        ensures
            final(self).in_syscall(),
            ipc_try_send_post(*old(self), *final(self), envid, value, src_va, perm, r),
    {
        let src_va = src_va as usize;
        if src_va != 0 && !(UTEMP <= src_va && src_va < UTOP) {
            return KError::Invalid.to_syscall_ret();
        }
        let e = match self.envs.envid2env(envid, false) {
            Ok(e) => e,
            Err(err) => {
                return err.to_syscall_ret();
            },
        };
        let d = self.envs.env_data(e);
        if !d.ipc_data.receiving {
            return KError::IpcNotRecv.to_syscall_ret();
        }
        let cur = self.envs.cur_env();
        let sender = self.envs.env_data(cur);
        let ghost k0 = *self;
        proof {
            assert(d.status != EnvStatus::Free);
            assert(env_fits(d, self.pmap));
            assert(env_fits(sender, self.pmap));
        }
        let mut nd = d;
        nd.ipc_data.value = value;
        nd.ipc_data.from_id = sender.id;
        nd.ipc_data.perm = perm | crate::memory::regions::PTE_V;
        nd.ipc_data.receiving = false;
        self.envs.set_env(e, nd);
        self.envs.set_status(e, EnvStatus::Runnable);
        proof {
            lemma_kernel_wf(k0, *self);
        }
        if src_va != 0 {
            if !self.pmap.walk_checked(sender.pgdir, src_va) {
                return KError::Invalid.to_syscall_ret();
            }
            let p = match self.pmap.page_lookup(sender.pgdir, src_va) {
                Some((p, _)) => p,
                None => {
                    return KError::Invalid.to_syscall_ret();
                },
            };
            let dstva = d.ipc_data.dstva as usize;
            if !(p < self.pmap.page_count() && self.pmap.page_ref(p) > 0 && self.pmap.can_insert(d.pgdir, dstva, p)) {
                return KError::Invalid.to_syscall_ret();
            }
            proof {
                self.pmap.lemma_referenced_not_free(p);
            }
            let ghost k1 = *self;
            let ir = self.pmap.page_insert(d.pgdir, dstva, d.asid, perm, p);
            proof {
                lemma_same_npage_wf(k1, *self);
            }
            if let Err(err) = ir {
                return err.to_syscall_ret();
            }
        }
        0
    }

    /// SYSNO: 14, wait for an ipc message, to be mapped at `dst_va` if it is
    /// not zero: the *current* env is marked receiving and blocked, and the
    /// value `0` is set as its return value in the trap frame `ktf`. `None`
    /// is returned: a re-schedule must follow.
    ///
    /// `Some` of `Invalid`, negated, is returned, and nothing changes, if
    /// `dst_va` is neither zero nor a user address.
    pub fn sys_ipc_recv(&mut self, dst_va: u32, ktf: &mut TrapFrame) -> (r: Option<u32>)
        requires
            old(self).in_syscall(),
        ensures
            final(self).in_syscall(),
            ipc_recv_post(*old(self), *final(self), dst_va, *old(ktf), *final(ktf), r),
    {
        if dst_va != 0 && !(UTEMP <= dst_va as usize && (dst_va as usize) < UTOP) {
            return Some(KError::Invalid.to_syscall_ret());
        }
        let cur = self.envs.cur_env();
        let d = self.envs.env_data(cur);
        let ghost k0 = *self;
        let mut nd = d;
        nd.ipc_data.receiving = true;
        nd.ipc_data.dstva = dst_va;
        self.envs.set_env(cur, nd);
        self.envs.set_status(cur, EnvStatus::NotRunnable);
        proof {
            lemma_kernel_wf(k0, *self);
        }
        ktf.regs[2] = 0;
        None
    }

    /// SYSNO: 5, set the TLB modification handler of the env `envid`, which
    /// must be the *current* env or a *child* of it, to `func`.
    ///
    /// The error of [envid2env](Envs::envid2env) is returned, negated.
    pub fn sys_set_tlb_mod_entry(&mut self, envid: u32, func: u32) -> (r: u32)
        requires
            old(self).in_syscall(),
        ensures
            final(self).in_syscall(),
            set_tlb_mod_entry_post(*old(self), *final(self), envid, func, r),
    {
        let e = match self.envs.envid2env(envid, true) {
            Ok(e) => e,
            Err(err) => {
                return err.to_syscall_ret();
            },
        };
        let mut d = self.envs.env_data(e);
        d.user_tlb_mod_entry = func;
        self.envs.set_env(e, d);
        0
    }

    /// SYSNO: 11, set the trap frame of the env `envid`, which must be the
    /// *current* env or a *child* of it, to the one stored at the user
    /// address `va` of the *current* env. For the current env itself, the
    /// trap frame it returns with, `ktf`, is replaced, and its `$v0` is
    /// returned so that it stays; for a child, its saved trap frame is
    /// replaced and zero is returned.
    ///
    /// `Invalid` is returned, negated, if the frame does not lie wholly in
    /// \[`UTEMP`, `UTOP`), is not word aligned, or is not wholly mapped; the
    /// error of [envid2env](Envs::envid2env) is returned, negated.
    #[verifier::spinoff_prover]
    #[verifier::rlimit(40)]
    pub fn sys_set_trapframe(&mut self, envid: u32, va: u32, ktf: &mut TrapFrame) -> (r: u32)
        requires
            old(self).in_syscall(),
        ensures
            final(self).in_syscall(),
            set_trapframe_post(*old(self), *final(self), envid, va, *old(ktf), *final(ktf), r),
    {
        if !(UTEMP <= va as usize && va as usize <= UTOP - 152 && va % 4 == 0) {
            return KError::Invalid.to_syscall_ret();
        }
        let e = match self.envs.envid2env(envid, true) {
            Ok(e) => e,
            Err(err) => {
                return err.to_syscall_ret();
            },
        };
        let cur = self.envs.cur_env();
        let ghost k0 = *self;
        let o = self.read_frame(va as usize);
        let ghost mid = *self;
        proof {
            assert(frame_read_post(k0, mid, va as int, o));
        }
        let tf = match o {
            Some(tf) => tf,
            None => {
                return KError::Invalid.to_syscall_ret();
            },
        };
        if e == cur {
            *ktf = tf;
            tf.regs[2]
        } else {
            let mut d = self.envs.env_data(e);
            d.trap_frame = tf;
            self.envs.set_env(e, d);
            proof {
                lemma_kernel_wf(mid, *self);
            }
            0
        }
    }

    /// Map the pages `pages` in order at `va`, `va + 4096`, ... in the
    /// *current* env with the permission `perm`, stopping at the first
    /// error, see [map_one](Envs::map_one).
    fn map_pages(&mut self, va: u32, pages: &Vec<usize>, perm: u32) -> (r: Result<(), KError>)
        requires
            old(self).in_syscall(),
            !pages_overflow(va, pages@.len() as int),
        ensures
            final(self).in_syscall(),
            final(self).envs == old(self).envs,
            final(self).pool == old(self).pool,
            ({
                let c = old(self).envs.env(old(self).envs.cur() as int);
                exists|states: Seq<Pmap>|
                    #[trigger] pages_mapped(states, old(self).pmap, final(self).pmap, c.pgdir, c.asid, va as usize, pages@, perm, r)
            }),
    {
        let cur = self.envs.cur_env();
        let c = self.envs.env_data(cur);
        proof {
            assert(env_fits(c, self.pmap));
        }
        let ghost mut states: Seq<Pmap> = seq![self.pmap];
        let mut i: usize = 0;
        while i < pages.len()
            invariant
                self.in_syscall(),
                self.envs == old(self).envs,
                self.pool == old(self).pool,
                c == self.envs.env(self.envs.cur() as int),
                self.pmap.is_page_kva(c.pgdir),
                !pages_overflow(va, pages@.len() as int),
                i <= pages@.len(),
                states.len() == i + 1,
                states[0] == old(self).pmap,
                states[states.len() - 1] == self.pmap,
                forall|k: int|
                    0 <= k < states.len() - 1 ==> map_step(
                        #[trigger] states[k],
                        states[k + 1],
                        c.pgdir,
                        c.asid,
                        seg_va(va as usize, k),
                        perm,
                        pages@[k],
                        Ok(()),
                    ),
            decreases pages@.len() - i,
        {
            assert(va + i * 4096 <= u32::MAX) by (nonlinear_arith)
                requires
                    !pages_overflow(va, pages@.len() as int),
                    i < pages@.len(),
            ;
            let a = va as usize + i * 4096;
            let ghost k0 = *self;
            let res = Envs::map_one(&mut self.pmap, c.pgdir, c.asid, a, perm, pages[i]);
            proof {
                lemma_same_npage_wf(k0, *self);
                let old_states = states;
                states = states.push(self.pmap);
                assert(seg_va(va as usize, i as int) == a);
                assert forall|j: int| 0 <= j < states.len() - 1 implies map_step(
                    #[trigger] states[j],
                    states[j + 1],
                    c.pgdir,
                    c.asid,
                    seg_va(va as usize, j),
                    perm,
                    pages@[j],
                    if j == states.len() - 2 {
                        res
                    } else {
                        Ok(())
                    },
                ) by {
                    if j < states.len() - 2 {
                        assert(states[j] == old_states[j]);
                        assert(states[j + 1] == old_states[j + 1]);
                    }
                }
            }
            if res.is_err() {
                proof {
                    assert(pages_mapped(states, old(self).pmap, self.pmap, c.pgdir, c.asid, va as usize, pages@, perm, res));
                }
                return res;
            }
            proof {
                assert forall|j: int| 0 <= j < states.len() - 1 implies map_step(
                    #[trigger] states[j],
                    states[j + 1],
                    c.pgdir,
                    c.asid,
                    seg_va(va as usize, j),
                    perm,
                    pages@[j],
                    Ok(()),
                ) by {
                    if j == states.len() - 2 {
                        assert(res == Ok::<(), KError>(()));
                    }
                }
            }
            i = i + 1;
        }
        proof {
            assert(pages_mapped(states, old(self).pmap, self.pmap, c.pgdir, c.asid, va as usize, pages@, perm, Ok(())));
        }
        Ok(())
    }

    /// SYSNO: 19, bind the *current* env to the shared pool `id`, and map
    /// the pool's pages in order at `va`, `va + 4096`, ... with the
    /// permission `perm`; see [bind](MemoryPool::bind) and
    /// [map_one](Envs::map_one).
    ///
    /// The errors of [bind](MemoryPool::bind) and of the mapping are
    /// returned, negated; `Invalid` also if the pool's reference count is
    /// full, and, once bound, if the pages would go past the end of the
    /// address space.
    pub fn sys_bind_shared_pool(&mut self, va: u32, id: u32, perm: u32) -> (r: u32)
        requires
            old(self).in_syscall(),
        ensures
            final(self).in_syscall(),
            bind_shared_pool_post(*old(self), *final(self), va, id, perm, r),
    {
        let cur = self.envs.cur_env();
        let c = self.envs.env_data(cur);
        let eid = c.id as usize;
        let pid = id as usize;
        if let Some(rc) = self.pool.reference_of(pid) {
            if rc == usize::MAX {
                return KError::Invalid.to_syscall_ret();
            }
        }
        let ghost k0 = *self;
        let pages = match self.pool.bind(pid, eid) {
            Ok(pages) => pages.clone(),
            Err(err) => {
                return err.to_syscall_ret();
            },
        };
        proof {
            assert(pages@ =~= old(self).pool.pools_view()[pid].pages);
            lemma_kernel_wf(k0, *self);
        }
        let n = pages.len();
        let room = (0xffff_ffffu32 - va) / 4096;
        if n > 0 && n - 1 > room as usize {
            proof {
                assert(pages_overflow(va, n as int)) by (nonlinear_arith)
                    requires
                        n > 0,
                        n - 1 > room,
                        room == (0xffff_ffffu32 - va) / 4096,
                ;
            }
            return KError::Invalid.to_syscall_ret();
        }
        proof {
            assert(!pages_overflow(va, n as int)) by (nonlinear_arith)
                requires
                    n == 0 || n - 1 <= room,
                    room == (0xffff_ffffu32 - va) / 4096,
            ;
        }
        let k1 = self.map_pages(va, &pages, perm);
        Self::ret(k1)
    }

    /// Add one page to the pool `id` being created and map it at `va` in
    /// the *current* env, see [pool_page_step].
    fn add_pool_page(&mut self, id: usize, va: usize, perm: u32) -> (r: Result<(), KError>)
        requires
            old(self).in_syscall(),
            old(self).pool.pools_view().contains_key(id),
        ensures
            final(self).in_syscall(),
            pool_page_step(*old(self), *final(self), id, va, perm, r),
            final(self).envs == old(self).envs,
            final(self).pool.counter() == old(self).pool.counter(),
            r is Ok ==> r == Ok::<(), KError>(()),
            final(self).pool.pools_view().contains_key(id),
            final(self).pool.pools_view()[id].reference == old(self).pool.pools_view()[id].reference,
            final(self).pool.pools_view()[id].envs == old(self).pool.pools_view()[id].envs,
    {
        proof {
            reveal(pool_page_step);
        }
        let cur = self.envs.cur_env();
        let c = self.envs.env_data(cur);
        proof {
            assert(env_fits(c, self.pmap));
            self.pmap.lemma_wf_facts();
        }
        let pp = match self.pmap.page_alloc() {
            Ok(pp) => pp,
            Err(err) => {
                return Err(err);
            },
        };
        let ghost m1 = self.pmap;
        proof {
            assert(old(self).pmap.is_free(pp));
            assert(!m1.is_free(pp)) by {
                if m1.free_list().contains(pp) {
                    let j = m1.free_list().index_of(pp);
                    assert(old(self).pmap.free_list()[j + 1] == pp);
                }
            }
            assert(m1.ref_of(pp as int) == 0);
        }
        if !self.pmap.can_insert(c.pgdir, va, pp) {
            self.pmap.page_free(pp);
            proof {
                assert(self.pmap.free_list() =~= old(self).pmap.free_list());
                lemma_same_npage_wf(*old(self), *self);
            }
            return Err(KError::Invalid);
        }
        let ghost k0 = *self;
        let _ = self.pool.insert_page(id, pp);
        proof {
            lemma_kernel_wf(k0, *self);
        }
        let ghost k1 = *self;
        let ir = self.pmap.page_insert(c.pgdir, va, c.asid, perm, pp);
        proof {
            lemma_kernel_wf(k1, *self);
            lemma_kernel_wf(*old(self), *self);
        }
        ir
    }

    /// SYSNO: 18, create a shared pool for the *current* env, of the pages
    /// covering `len` bytes at `va`: a new pool is made, see
    /// [crate_pool](MemoryPool::crate_pool); each page is allocated, added
    /// to the pool and mapped in order at `va`, `va + 4096`, ... with the
    /// permission `perm`, see [pool_page_step]; then the env, by its id, is
    /// bound to the pool. Returns the pool's id.
    ///
    /// `Invalid` is returned, negated, if the range does not lie in
    /// \[`UTEMP`, `UTOP`) or does not start at a page boundary, or if no
    /// new pool id is left; the error of a page is returned, negated, and
    /// the pool stays as far as it got.
    pub fn sys_create_shared_pool(&mut self, va: u32, len: u32, perm: u32) -> (r: u32)
        requires
            old(self).in_syscall(),
        ensures
            final(self).in_syscall(),
            create_shared_pool_post(*old(self), *final(self), va, len, perm, r),
    {
        if !(UTEMP <= va as usize && va as usize <= UTOP && len as usize <= UTOP - va as usize && va % 4096 == 0) {
            return KError::Invalid.to_syscall_ret();
        }
        if !self.pool.can_create() {
            return KError::Invalid.to_syscall_ret();
        }
        let n = (len as usize + 4095) / 4096;
        let cur = self.envs.cur_env();
        let c = self.envs.env_data(cur);
        let ghost k0 = *self;
        let id = self.pool.crate_pool(c.id as usize);
        proof {
            lemma_kernel_wf(k0, *self);
        }
        let ghost mut states: Seq<Kernel> = seq![*self];
        let mut i: usize = 0;
        while i < n
            invariant
                self.in_syscall(),
                self.envs == old(self).envs,
                n == (len + 4095) / 4096,
                pool_range_ok(va, len),
                old(self).pool.counter() < max_pool_counter(),
                cur == old(self).envs.cur(),
                c == old(self).envs.env(cur as int),
                id == pool_id_spec(old(self).pool.counter(), c.id as usize),
                i <= n,
                states.len() == i + 1,
                states[0].pmap == old(self).pmap,
                states[0].envs == old(self).envs,
                states[0].pool.pools_view() == old(self).pool.pools_view().insert(id, empty_pool_view()),
                states[0].pool.env_pools() == old(self).pool.env_pools(),
                states[0].pool.counter() == old(self).pool.counter() + 1,
                states[states.len() - 1] == *self,
                self.pool.pools_view().contains_key(id),
                self.pool.pools_view()[id].reference == 0,
                self.pool.pools_view()[id].envs == Seq::<usize>::empty(),
                forall|k: int|
                    0 <= k < states.len() - 1 ==> pool_page_step(
                        #[trigger] states[k],
                        states[k + 1],
                        id,
                        seg_va(va as usize, k),
                        perm,
                        Ok(()),
                    ),
            decreases n - i,
        {
            assert(va + i * 4096 < UTOP) by (nonlinear_arith)
                requires
                    i < n,
                    n == (len + 4095) / 4096,
                    va + len <= UTOP,
                    va % 4096 == 0,
                    UTOP % 4096 == 0,
            ;
            let a = va as usize + i * 4096;
            let res = self.add_pool_page(id, a, perm);
            proof {
                let old_states = states;
                states = states.push(*self);
                assert(seg_va(va as usize, i as int) == a);
                assert forall|j: int| 0 <= j < states.len() - 1 implies pool_page_step(
                    #[trigger] states[j],
                    states[j + 1],
                    id,
                    seg_va(va as usize, j),
                    perm,
                    if j == states.len() - 2 {
                        res
                    } else {
                        Ok(())
                    },
                ) by {
                    if j < states.len() - 2 {
                        assert(states[j] == old_states[j]);
                        assert(states[j + 1] == old_states[j + 1]);
                    }
                }
            }
            if let Err(err) = res {
                proof {
                    assert(pool_filled(states, id, va as usize, n as int, perm, res));
                }
                return err.to_syscall_ret();
            }
            proof {
                assert forall|j: int| 0 <= j < states.len() - 1 implies pool_page_step(
                    #[trigger] states[j],
                    states[j + 1],
                    id,
                    seg_va(va as usize, j),
                    perm,
                    Ok(()),
                ) by {
                    if j == states.len() - 2 {
                        assert(res == Ok::<(), KError>(()));
                    }
                }
            }
            i = i + 1;
        }
        let ghost last = *self;
        let _ = self.pool.bind(id, c.id as usize);
        proof {
            assert(pool_filled(states, id, va as usize, n as int, perm, Ok(())));
            lemma_kernel_wf(last, *self);
        }
        id as u32
    }

    /// SYSNO: 1, the `num` bytes at the user address `va` of the *current*
    /// env, to be shown on the console, read as the kernel reads them, see
    /// [print_cons_post].
    pub fn sys_print_cons(&mut self, va: u32, num: u32) -> (r: Result<Vec<u8>, u32>)
        requires
            old(self).in_syscall(),
        ensures
            final(self).in_syscall(),
            print_cons_post(
                *old(self),
                *final(self),
                va,
                num,
                match r {
                    Ok(b) => Ok(b@),
                    Err(e) => Err(e),
                },
            ),
    {
        if va as usize > UTOP || num as usize > UTOP - va as usize {
            return Err(KError::Invalid.to_syscall_ret());
        }
        match self.read_bytes(va as usize, num as usize) {
            Some(b) => Ok(b),
            None => Err(KError::Invalid.to_syscall_ret()),
        }
    }

    /// SYSNO: 12, the message of a panic of the *current* env: the
    /// zero-terminated string at the user address `va`, read as the kernel
    /// reads it, see [cstr_read_post].
    pub fn sys_panic_message(&mut self, va: u32) -> (r: Vec<u8>)
        requires
            old(self).in_syscall(),
        ensures
            final(self).in_syscall(),
            cstr_read_post(*old(self), *final(self), va as int, r@),
    {
        self.read_cstr(va)
    }

    /// SYSNO: 16, the value to write to the device at the physical address
    /// `pa`: the `len` bytes at the user address `va` of the *current* env,
    /// read as the kernel reads them, as a little-endian number, see
    /// [write_dev_post].
    pub fn sys_write_dev(&mut self, va: u32, pa: u32, len: u32) -> (r: Result<u32, u32>)
        requires
            old(self).in_syscall(),
        ensures
            final(self).in_syscall(),
            write_dev_post(*old(self), *final(self), va, pa, len, r),
    {
        if !dev_access_check(va, pa, len) {
            return Err(KError::Invalid.to_syscall_ret());
        }
        let b = match self.read_bytes(va as usize, len as usize) {
            Some(b) => b,
            None => {
                return Err(KError::Invalid.to_syscall_ret());
            },
        };
        let b0 = b[0] as u32;
        let b1 = if len > 1 {
            b[1] as u32
        } else {
            0
        };
        let b2 = if len > 2 {
            b[2] as u32
        } else {
            0
        };
        let b3 = if len > 3 {
            b[3] as u32
        } else {
            0
        };
        let v = b0 + b1 * 0x100 + b2 * 0x1_0000 + b3 * 0x100_0000;
        proof {
            assert(v == le_value(b@));
        }
        Ok(v)
    }

    /// SYSNO: 17, check a read of `len` bytes from the device at the
    /// physical address `pa` into the user address `va` of the *current*
    /// env: zero if it may be made, see [dev_access_ok]; `Invalid`, negated,
    /// otherwise. The value read is then stored by
    /// [store_user_value](Kernel::store_user_value).
    pub fn sys_read_dev(&self, va: u32, pa: u32, len: u32) -> (r: u32)
        requires
            self.in_syscall(),
        ensures
            r == if dev_access_ok(va, pa, len) {
                0
            } else {
                kerror_ret(KError::Invalid)
            },
    {
        if !dev_access_check(va, pa, len) {
            return KError::Invalid.to_syscall_ret();
        }
        0
    }

    /// Store the `len` lowest bytes of `value`, lowest first, at the user
    /// address `va` of the *current* env, as the kernel stores them: each
    /// access is served first, see [store_user_post]. Returns zero;
    /// `Invalid`, negated, if an access cannot be served.
    pub fn store_user_value(&mut self, va: u32, len: u32, value: u32) -> (r: u32)
        requires
            old(self).in_syscall(),
            len <= 4,
            va + len <= u32::MAX,
        ensures
            final(self).in_syscall(),
            store_user_post(*old(self), *final(self), va as int, len as int, value, r),
    {
        let ghost mut states: Seq<Kernel> = seq![*self];
        let mut j: u32 = 0;
        while j < len
            invariant
                self.in_syscall(),
                len <= 4,
                va + len <= u32::MAX,
                j <= len,
                bytes_stored(states, va as int, value, j as int),
                states[0] == *old(self),
                states[states.len() - 1] == *self,
            decreases len - j,
        {
            let cur = self.envs.cur_env();
            let c = self.envs.env_data(cur);
            proof {
                lemma_cur_fits(*self);
            }
            let ghost k0 = *self;
            let ghost s0 = states;
            let ghost m = j as int;
            if !fault_in(&mut self.pmap, va as usize + j as usize, c.pgdir, c.asid) {
                proof {
                    assert(bytes_stored(states, va as int, value, j as int));
                }
                return KError::Invalid.to_syscall_ret();
            }
            proof {
                lemma_same_npage_wf(k0, *self);
            }
            let ghost k1 = *self;
            let a = match self.pmap.translate(c.pgdir, va as usize + j as usize) {
                Some(a) => a,
                None => {
                    return KError::Invalid.to_syscall_ret();
                },
            };
            let d: u32 = if j == 0 {
                1
            } else if j == 1 {
                0x100
            } else if j == 2 {
                0x1_0000
            } else {
                0x100_0000
            };
            let byte = ((value / d) % 256) as u8;
            assert(byte == word_byte(value, j as int));
            self.pmap.write_byte(a, byte);
            proof {
                lemma_same_npage_wf(k1, *self);
                assert(byte_stored(k1, *self, va + j, word_byte(value, j as int)));
                states = states.push(k1).push(*self);
                assert forall|k: int| 0 <= k < m + 1 implies user_fault(
                    #[trigger] states[2 * k],
                    states[2 * k + 1],
                    va + k,
                ) && byte_stored(states[2 * k + 1], states[2 * k + 2], va + k, word_byte(value, k)) by {
                    if k < m {
                        assert(states[2 * k] == s0[2 * k] && states[2 * k + 1] == s0[2 * k + 1] && states[2 * k + 2]
                            == s0[2 * k + 2]);
                    } else {
                        assert(states[2 * k] == k0 && states[2 * k + 1] == k1 && states[2 * k + 2] == *self);
                    }
                }
            }
            j = j + 1;
        }
        proof {
            assert(bytes_stored(states, va as int, value, len as int));
        }
        0
    }

    /// The `k`-th argument of a system call past the registers, read as the
    /// kernel reads it from the user stack of the *current* env at
    /// `sp + 4 * k`, see [stack_arg_post]; `None` if that word is not
    /// aligned, past the end of the address space, or its access cannot be
    /// served.
    fn stack_arg(&mut self, sp: u32, k: u32) -> (r: Option<u32>)
        requires
            old(self).in_syscall(),
            k <= 5,
        ensures
            final(self).in_syscall(),
            stack_arg_post(*old(self), *final(self), sp, k, r),
    {
        if sp % 4 != 0 || sp > 0xffff_fffc - 4 * k {
            return None;
        }
        self.read_word((sp + 4 * k) as usize)
    }

    /// Read the trap frame at the user address `va`, a multiple of four,
    /// of the *current* env as the kernel does, word by word, see
    /// [frame_read_post].
    #[verifier::spinoff_prover]
    #[verifier::rlimit(40)]
    fn read_frame(&mut self, va: usize) -> (r: Option<TrapFrame>)
        requires
            old(self).in_syscall(),
            va % 4 == 0,
            va + 152 <= usize::MAX,
        ensures
            final(self).in_syscall(),
            final(self).envs == old(self).envs,
            final(self).pool == old(self).pool,
            frame_read_post(*old(self), *final(self), va as int, r),
    {
        let mut w: Vec<u32> = Vec::new();
        let ghost mut states: Seq<Kernel> = seq![*self];
        let mut i: usize = 0;
        while i < 38
            invariant
                self.in_syscall(),
                self.envs == old(self).envs,
                self.pool == old(self).pool,
                va % 4 == 0,
                va + 152 <= usize::MAX,
                i <= 38,
                w@.len() == i,
                words_read(states, va as int, w@),
                states[0] == *old(self),
                states[states.len() - 1] == *self,
            decreases 38 - i,
        {
            match self.read_word(va + 4 * i) {
                Some(x) => {
                    proof {
                        lemma_words_read_push(states, va as int, w@, *self, x);
                        states = states.push(*self);
                    }
                    w.push(x);
                },
                None => {
                    proof {
                        assert(words_read(states, va as int, w@));
                    }
                    return None;
                },
            }
            i = i + 1;
        }
        let tf = frame_of_words(&w);
        proof {
            assert(words_read(states, va as int, w@));
        }
        Some(tf)
    }

    /// Read the byte at the user address `va` of the *current* env as the
    /// kernel does, the access served first, see [fault_in]; `None`, and
    /// nothing changes, if it cannot be served.
    fn read_byte(&mut self, va: usize) -> (r: Option<u8>)
        requires
            old(self).in_syscall(),
        ensures
            final(self).in_syscall(),
            r is None <==> fault_refused(*old(self), va as int),
            r is None ==> *final(self) == *old(self),
            r matches Some(x) ==> user_fault(*old(self), *final(self), va as int) && Some(x) == user_byte(
                final(self).pmap,
                cur_pgdir(*final(self)),
                va as int,
            ),
    {
        let cur = self.envs.cur_env();
        let c = self.envs.env_data(cur);
        proof {
            lemma_cur_fits(*self);
        }
        let ghost k0 = *self;
        if !fault_in(&mut self.pmap, va, c.pgdir, c.asid) {
            return None;
        }
        proof {
            lemma_same_npage_wf(k0, *self);
            reveal(user_byte);
        }
        self.pmap.read_user_byte(c.pgdir, va)
    }

    /// Read the word at the user address `va`, a multiple of four, of the
    /// *current* env as the kernel does, see [word_read_post].
    fn read_word(&mut self, va: usize) -> (r: Option<u32>)
        requires
            old(self).in_syscall(),
            va % 4 == 0,
        ensures
            final(self).in_syscall(),
            word_read_post(*old(self), *final(self), va as int, r),
    {
        let cur = self.envs.cur_env();
        let c = self.envs.env_data(cur);
        proof {
            lemma_cur_fits(*self);
        }
        let ghost k0 = *self;
        if !fault_in(&mut self.pmap, va, c.pgdir, c.asid) {
            return None;
        }
        proof {
            lemma_same_npage_wf(k0, *self);
            reveal(user_word);
        }
        self.pmap.read_user_word(c.pgdir, va)
    }

    /// Read the `n` bytes at the user address `va` of the *current* env as
    /// the kernel does, one after the other, see [read_bytes_post].
    fn read_bytes(&mut self, va: usize, n: usize) -> (r: Option<Vec<u8>>)
        requires
            old(self).in_syscall(),
            va + n <= usize::MAX,
        ensures
            final(self).in_syscall(),
            read_bytes_post(
                *old(self),
                *final(self),
                va as int,
                n as int,
                match r {
                    Some(v) => Some(v@),
                    None => None,
                },
            ),
    {
        let mut b: Vec<u8> = Vec::new();
        let ghost mut states: Seq<Kernel> = seq![*self];
        let mut i: usize = 0;
        while i < n
            invariant
                self.in_syscall(),
                va + n <= usize::MAX,
                i <= n,
                b@.len() == i,
                bytes_read(states, va as int, b@),
                states[0] == *old(self),
                states[states.len() - 1] == *self,
            decreases n - i,
        {
            let ghost k0 = *self;
            let ghost s0 = states;
            let ghost b0 = b@;
            match self.read_byte(va + i) {
                Some(x) => {
                    b.push(x);
                    proof {
                        states = states.push(*self);
                        assert forall|k: int| 0 <= k < b@.len() implies user_fault(
                            #[trigger] states[k],
                            states[k + 1],
                            va + k,
                        ) && Some(b@[k]) == user_byte(states[k + 1].pmap, cur_pgdir(states[k + 1]), va + k) by {
                            if k < i {
                                assert(states[k] == s0[k] && states[k + 1] == s0[k + 1] && b@[k] == b0[k]);
                            } else {
                                assert(states[k] == k0);
                            }
                        }
                    }
                },
                None => {
                    proof {
                        assert(bytes_read(states, va as int, b@));
                    }
                    return None;
                },
            }
            i = i + 1;
        }
        proof {
            assert(bytes_read(states, va as int, b@));
        }
        Some(b)
    }

    /// Read the zero-terminated string at the user address `va` of the
    /// *current* env as the kernel does, see [cstr_read_post].
    fn read_cstr(&mut self, va: u32) -> (r: Vec<u8>)
        requires
            old(self).in_syscall(),
        ensures
            final(self).in_syscall(),
            cstr_read_post(*old(self), *final(self), va as int, r@),
    {
        let mut r: Vec<u8> = Vec::new();
        let ghost mut states: Seq<Kernel> = seq![*self];
        let ghost mut bb: Seq<u8> = Seq::empty();
        let mut a: u32 = va;
        loop
            invariant
                self.in_syscall(),
                a == va + r@.len(),
                bb == r@,
                bytes_read(states, va as int, bb),
                states[0] == *old(self),
                states[states.len() - 1] == *self,
                forall|i: int| 0 <= i < r@.len() ==> #[trigger] r@[i] != 0,
            decreases u32::MAX - a,
        {
            let ghost k0 = *self;
            let ghost s0 = states;
            let ghost b0 = bb;
            match self.read_byte(a as usize) {
                Some(x) => {
                    proof {
                        states = states.push(*self);
                        bb = bb.push(x);
                        assert forall|k: int| 0 <= k < bb.len() implies user_fault(
                            #[trigger] states[k],
                            states[k + 1],
                            va + k,
                        ) && Some(bb[k]) == user_byte(states[k + 1].pmap, cur_pgdir(states[k + 1]), va + k) by {
                            if k < b0.len() {
                                assert(states[k] == s0[k] && states[k + 1] == s0[k + 1] && bb[k] == b0[k]);
                            } else {
                                assert(states[k] == k0);
                            }
                        }
                        assert(bytes_read(states, va as int, bb));
                    }
                    if x == 0 {
                        proof {
                            assert(bb[r@.len() as int] == 0);
                        }
                        return r;
                    }
                    r.push(x);
                    proof {
                        assert(bb =~= r@);
                    }
                },
                None => {
                    proof {
                        assert(bytes_read(states, va as int, bb));
                    }
                    return r;
                },
            }
            if a == u32::MAX {
                proof {
                    assert(bytes_read(states, va as int, bb));
                }
                return r;
            }
            a = a + 1;
        }
    }

    /// Handle the system call the *current* env made with the trap frame
    /// `tf`: the call's number is in `$a0`, its first three arguments in
    /// `$a1`..`$a3` and the other two on the user stack at `$sp + 16` and
    /// `$sp + 20`. The call's value is put in `$v0` and the return address
    /// moved past the `syscall` instruction; the action the kernel must
    /// take next is returned.
    ///
    /// A number of no system call gives `NoSys`, negated, in `$v0`, and the
    /// return address stays; so do the pool lock calls, which have no
    /// handler. `Invalid`, negated, is given if a stack argument cannot be
    /// read.
    #[verifier::rlimit(40)]
    #[verifier::spinoff_prover]
    pub fn do_syscall(&mut self, tf: &mut TrapFrame) -> (r: SyscallAction)
        requires
            old(self).in_syscall(),
        ensures
            final(self).wf(),
            !(r is Schedule) ==> final(self).in_syscall(),
            ({
                let n = old(tf).regs@[4];
                let a1 = old(tf).regs@[5];
                let a2 = old(tf).regs@[6];
                let a3 = old(tf).regs@[7];
                let cur = old(self).envs.cur() as int;
                let pgdir = old(self).envs.env(cur).pgdir;
                &&& n >= MAX_SYS_NO ==> r is Resume && *final(self) == *old(self) && final(tf).regs@ == old(
                    tf,
                ).regs@.update(2, kerror_ret(KError::NoSys)) && final(tf).cp0_epc == old(tf).cp0_epc
                &&& n == 0 ==> r == SyscallAction::Putchar(a1 as u8) && *final(self) == *old(self) && returned(
                    *final(tf),
                    *old(tf),
                    0,
                )
                &&& n == 1 ==> (r is Print || r is Resume) && (r matches SyscallAction::Print(b) ==> print_cons_post(
                    *old(self),
                    *final(self),
                    a1,
                    a2,
                    Ok(b@),
                ) && returned(*final(tf), *old(tf), 0)) && (r is Resume ==> print_cons_post(
                    *old(self),
                    *final(self),
                    a1,
                    a2,
                    Err(kerror_ret(KError::Invalid)),
                ) && returned(*final(tf), *old(tf), kerror_ret(KError::Invalid)))
                &&& n == 2 ==> r is Resume && *final(self) == *old(self) && returned(
                    *final(tf),
                    *old(tf),
                    old(self).envs.env(cur).id,
                )
                &&& n == 3 ==> r is Schedule && *final(self) == *old(self)
                &&& n == 12 ==> (r matches SyscallAction::Panic(b) && cstr_read_post(
                    *old(self),
                    *final(self),
                    a1 as int,
                    b@,
                ))
                &&& n == 15 ==> r is Getc && *final(self) == *old(self)
                &&& n == 16 ==> (r is WriteDev || r is Resume) && (r matches SyscallAction::WriteDev { pa, len, value }
                    ==> pa == a2 && len == a3 && write_dev_post(*old(self), *final(self), a1, a2, a3, Ok(value))
                    && returned(*final(tf), *old(tf), 0)) && (r is Resume ==> write_dev_post(
                    *old(self),
                    *final(self),
                    a1,
                    a2,
                    a3,
                    Err(kerror_ret(KError::Invalid)),
                ) && returned(*final(tf), *old(tf), kerror_ret(KError::Invalid)))
                &&& n == 17 ==> *final(self) == *old(self) && (r is ReadDev <==> dev_access_ok(a1, a2, a3)) && (
                r matches SyscallAction::ReadDev { va, pa, len } ==> va == a1 && pa == a2 && len == a3 && returned(
                    *final(tf),
                    *old(tf),
                    0,
                )) && (r is Resume ==> returned(*final(tf), *old(tf), kerror_ret(KError::Invalid)))
                &&& n == 20 || n == 21 ==> r is Resume && *final(self) == *old(self) && final(tf).regs@ == old(
                    tf,
                ).regs@.update(2, kerror_ret(KError::NoSys)) && final(tf).cp0_epc == old(tf).cp0_epc
                &&& do_syscall_rest(*old(self), *final(self), *old(tf), *final(tf), r)
            }),
    {
        let n = tf.regs[4];
        if n as usize >= MAX_SYS_NO || n == 20 || n == 21 {
            tf.regs[2] = KError::NoSys.to_syscall_ret();
            return SyscallAction::Resume;
        }
        tf.cp0_epc = tf.cp0_epc.wrapping_add(4);
        let ghost t0 = *tf;
        proof {
            assert(t0 == advanced(*old(tf)));
        }
        let a1 = tf.regs[5];
        let a2 = tf.regs[6];
        let a3 = tf.regs[7];
        let sp = tf.regs[29];
        let mut action = SyscallAction::Resume;
        let v0: u32 = if n == 0 {
            action = SyscallAction::Putchar(a1 as u8);
            0
        } else if n == 1 {
            match self.sys_print_cons(a1, a2) {
                Ok(b) => {
                    action = SyscallAction::Print(b);
                    0
                },
                Err(e) => e,
            }
        } else if n == 2 {
            self.sys_getenvid()
        } else if n == 3 {
            return SyscallAction::Schedule;
        } else if n == 4 {
            let (v, must) = self.sys_env_destroy(a1);
            if must {
                action = SyscallAction::Schedule;
            }
            v
        } else if n == 5 {
            self.sys_set_tlb_mod_entry(a1, a2)
        } else if n == 6 {
            self.sys_mem_alloc(a1, a2, a3)
        } else if n == 7 {
            let ghost k0 = *self;
            let o4 = self.stack_arg(sp, 4);
            let ghost m1 = *self;
            match o4 {
                Some(a4) => {
                    let o5 = self.stack_arg(sp, 5);
                    let ghost m2 = *self;
                    let v = match o5 {
                        Some(a5) => self.sys_mem_map(a1, a2, a3, a4, a5),
                        None => KError::Invalid.to_syscall_ret(),
                    };
                    proof {
                        assert(stack_arg_post(m1, m2, sp, 5, o5));
                        assert(stack_arg_post(k0, m1, sp, 4, o4));
                    }
                    v
                },
                None => {
                    proof {
                        assert(stack_arg_post(k0, m1, sp, 4, o4));
                    }
                    KError::Invalid.to_syscall_ret()
                },
            }
        } else if n == 8 {
            self.sys_mem_unmap(a1, a2)
        } else if n == 9 {
            self.sys_exofork_checked(tf)
        } else if n == 10 {
            self.sys_set_env_status(a1, a2)
        } else if n == 11 {
            let v = self.sys_set_trapframe(a1, a2, tf);
            let ghost t1 = *tf;
            tf.regs[2] = v;
            proof {
                assert(set_trapframe_post(*old(self), *self, a1, a2, advanced(*old(tf)), t1, tf.regs@[2]));
            }
            return SyscallAction::Resume;
        } else if n == 12 {
            return SyscallAction::Panic(self.sys_panic_message(a1));
        } else if n == 13 {
            let ghost k0 = *self;
            let o4 = self.stack_arg(sp, 4);
            let ghost m1 = *self;
            proof {
                assert(stack_arg_post(k0, m1, sp, 4, o4));
            }
            match o4 {
                Some(a4) => self.sys_ipc_try_send(a1, a2, a3, a4),
                None => KError::Invalid.to_syscall_ret(),
            }
        } else if n == 14 {
            let o = self.sys_ipc_recv(a1, tf);
            let ghost t1 = *tf;
            proof {
                assert(ipc_recv_post(*old(self), *self, a1, advanced(*old(tf)), t1, o));
            }
            match o {
                Some(e) => e,
                None => {
                    return SyscallAction::Schedule;
                },
            }
        } else if n == 15 {
            return SyscallAction::Getc;
        } else if n == 16 {
            match self.sys_write_dev(a1, a2, a3) {
                Ok(value) => {
                    action = SyscallAction::WriteDev { pa: a2, len: a3, value };
                    0
                },
                Err(e) => e,
            }
        } else if n == 17 {
            let v = self.sys_read_dev(a1, a2, a3);
            if v == 0 {
                action = SyscallAction::ReadDev { va: a1, pa: a2, len: a3 };
            }
            v
        } else if n == 18 {
            self.sys_create_shared_pool(a1, a2, a3)
        } else {
            self.sys_bind_shared_pool(a1, a2, a3)
        };
        tf.regs[2] = v0;
        action
    }

    /// [sys_exofork](Kernel::sys_exofork), once the base page directory is
    /// checked to be a page; `Invalid`, negated, if it is not.
    fn sys_exofork_checked(&mut self, ktf: &TrapFrame) -> (r: u32)
        requires
            old(self).in_syscall(),
        ensures
            final(self).in_syscall(),
            old(self).pmap.is_page_kva(old(self).envs.base_pgdir()) ==> exofork_post(*old(self), *final(self), *ktf, r),
            !old(self).pmap.is_page_kva(old(self).envs.base_pgdir()) ==> r == kerror_ret(KError::Invalid) && *final(self)
                == *old(self),
    {
        let base = self.envs.base_pgdir_of();
        if base < crate::memory::regions::ULIM || (base - crate::memory::regions::ULIM) % 4096 != 0 || (base
            - crate::memory::regions::ULIM) / 4096 >= self.pmap.page_count() {
            return KError::Invalid.to_syscall_ret();
        }
        self.sys_exofork(ktf)
    }

    /// Handle a TLB modification exception of the *current* env, taken
    /// with the trap frame `tf`: the frame is stored on the user exception
    /// stack at [tlb_mod_frame_va], and the env resumes at its handler with
    /// the stored frame's address in `$a0` and the stack pointer a word
    /// below it. `true` is returned.
    ///
    /// The words are stored one after the other as the kernel stores them,
    /// each access served first, see [words_stored]. `false` is returned if
    /// the env has no handler or the stack words are not aligned, and
    /// nothing changes, or if an access cannot be served; each is a kernel
    /// panic.
    #[verifier::spinoff_prover]
    #[verifier::rlimit(40)]
    pub fn do_tlb_mod(&mut self, tf: &mut TrapFrame) -> (r: bool)
        requires
            old(self).in_syscall(),
        ensures
            final(self).in_syscall(),
            final(self).envs == old(self).envs,
            final(self).pool == old(self).pool,
            ({
                let c = old(self).envs.env(old(self).envs.cur() as int);
                let va = tlb_mod_frame_va(*old(tf));
                let ok = c.user_tlb_mod_entry != 0 && va % 4 == 0;
                &&& !ok ==> !r && *final(self) == *old(self) && *final(tf) == *old(tf)
                &&& ok ==> exists|states: Seq<Kernel>, m: int|
                    {
                        &&& #[trigger] words_stored(states, va, frame_words(*old(tf)), m)
                        &&& states[0] == *old(self)
                        &&& states[states.len() - 1] == *final(self)
                        &&& m < 38 ==> !r && fault_refused(*final(self), va + 4 * m) && *final(tf) == *old(tf)
                        &&& m == 38 ==> {
                            &&& r
                            &&& final(tf).regs@ == old(tf).regs@.update(29, (va - 4) as u32).update(4, va as u32)
                            &&& final(tf).cp0_epc == c.user_tlb_mod_entry
                            &&& final(tf).cp0_status == old(tf).cp0_status
                            &&& final(tf).hi == old(tf).hi
                            &&& final(tf).lo == old(tf).lo
                            &&& final(tf).cp0_badvaddr == old(tf).cp0_badvaddr
                            &&& final(tf).cp0_cause == old(tf).cp0_cause
                        }
                    }
            }),
    {
        let cur = self.envs.cur_env();
        let c = self.envs.env_data(cur);
        if c.user_tlb_mod_entry == 0 {
            return false;
        }
        let sp0 = tf.regs[29];
        let top: u32 = if USTACKTOP as u32 <= sp0 && sp0 < UXSTACKTOP as u32 {
            sp0
        } else {
            UXSTACKTOP as u32
        };
        let va = top - 152;
        if va % 4 != 0 {
            return false;
        }
        let stored = *tf;
        let ghost w = frame_words(stored);
        let ghost mut states: Seq<Kernel> = seq![*self];
        let mut j: usize = 0;
        while j < 38
            invariant
                self.in_syscall(),
                self.envs == old(self).envs,
                self.pool == old(self).pool,
                c == old(self).envs.env(old(self).envs.cur() as int),
                c.user_tlb_mod_entry != 0,
                stored == *old(tf),
                *tf == *old(tf),
                w == frame_words(stored),
                w.len() == 38,
                va == tlb_mod_frame_va(*old(tf)),
                va % 4 == 0,
                va + 152 <= UTOP,
                j <= 38,
                words_stored(states, va as int, w, j as int),
                states[0] == *old(self),
                states[states.len() - 1] == *self,
            decreases 38 - j,
        {
            proof {
                lemma_cur_fits(*self);
                self.pmap.lemma_wf_facts();
            }
            let ghost k0 = *self;
            if !fault_in(&mut self.pmap, va as usize + 4 * j, c.pgdir, c.asid) {
                proof {
                    assert(words_stored(states, va as int, w, j as int));
                }
                return false;
            }
            proof {
                lemma_same_npage_wf(k0, *self);
                self.pmap.lemma_wf_facts();
            }
            let ghost k1 = *self;
            let a = match self.pmap.translate(c.pgdir, va as usize + 4 * j) {
                Some(a) => a,
                None => {
                    return false;
                },
            };
            proof {
                reveal(user_word);
                lemma_word_phys_aligned(self.pmap, c.pgdir, va + 4 * j);
            }
            let word = frame_word_of(&stored, j);
            self.pmap.store_word(crate::memory::regions::ULIM + a, word);
            proof {
                lemma_same_npage_wf(k1, *self);
                assert(w[j as int] == word);
                assert(word_stored(k1, *self, va + 4 * j, w[j as int]));
                lemma_words_stored_push(states, va as int, w, j as int, k1, *self);
                states = states.push(k1).push(*self);
            }
            j = j + 1;
        }
        tf.regs[29] = va - 4;
        tf.regs[4] = va;
        tf.cp0_epc = c.user_tlb_mod_entry;
        true
    }
}

/// Law: [sys_mem_alloc](Kernel::sys_mem_alloc) succeeds on a user address
/// of an env the caller may name, where the env's address space is
/// consistent at `va`, see [space_consistent_at](Pmap::space_consistent_at),
/// and a page is free, two if a page table is needed too: zero is returned
/// and the fresh page is mapped at `va`.
pub proof fn law_mem_alloc_succeeds(pre: Kernel, post: Kernel, envid: u32, va: u32, perm: u32, r: u32, e: usize)
    requires
        pre.wf(),
        mem_alloc_post(pre, post, envid, va, perm, r),
        user_va(va),
        pre.envs.envid2env_spec(envid, true) == Ok::<usize, KError>(e),
        pre.pmap.space_consistent_at(pre.envs.env(e as int).pgdir, va as usize),
        pre.pmap.free_list().len() >= if entry_valid(pre.pmap.pde_of(pre.envs.env(e as int).pgdir, va as usize)) {
            1nat
        } else {
            2nat
        },
    ensures
        r == 0,
        exists|m1: Pmap|
            #[trigger] alloc_post(pre.pmap, m1, Ok(pre.pmap.free_list()[0])) && insert_post(
                m1,
                post.pmap,
                pre.envs.env(e as int).pgdir,
                va as usize,
                pre.envs.env(e as int).asid,
                perm,
                pre.pmap.free_list()[0],
                Ok(()),
            ),
{
    let d = pre.envs.env(e as int);
    let p = pre.pmap.free_list()[0];
    let m1 = choose|m1: Pmap|
        {
            &&& alloc_post(pre.pmap, m1, Ok(pre.pmap.free_list()[0]))
            &&& #[trigger] m1.wf()
            &&& m1.npage() == pre.pmap.npage()
            &&& !m1.insert_safe(d.pgdir, va as usize, pre.pmap.free_list()[0]) ==> r == kerror_ret(KError::Invalid)
                && post.pmap.free_list() == pre.pmap.free_list() && post.pmap.mem() == m1.mem()
                && post.pmap.tlb_requests() == pre.pmap.tlb_requests() && (forall|q: int|
                0 <= q < post.pmap.npage() ==> #[trigger] post.pmap.ref_of(q) == pre.pmap.ref_of(q))
            &&& (m1.insert_safe(d.pgdir, va as usize, pre.pmap.free_list()[0]) ==> exists|ir: Result<(), KError>|
                r == ret_of(ir) && #[trigger] insert_post(m1, post.pmap, d.pgdir, va as usize, d.asid, perm, p, ir))
        };
    lemma_alloc_keeps_consistent(pre.pmap, m1, d.pgdir, va as usize);
    law_consistent_insert_safe(m1, d.pgdir, va as usize, p);
    let ir = choose|ir: Result<(), KError>|
        r == ret_of(ir) && #[trigger] insert_post(m1, post.pmap, d.pgdir, va as usize, d.asid, perm, p, ir);
    assert(m1.free_list() == pre.pmap.free_list().drop_first());
    assert(m1.pde_of(d.pgdir, va as usize) == pre.pmap.pde_of(d.pgdir, va as usize));
    assert(ir == Ok::<(), KError>(()));
}

/// Law: [sys_mem_map](Kernel::sys_mem_map) succeeds between user addresses
/// of envs the caller may name, where a page is mapped at `src_va` whose
/// reference count is below the counter's limit, the destination's address
/// space is consistent at `dst_va`, see
/// [space_consistent_at](Pmap::space_consistent_at), and a page is free if
/// a page table is needed: zero is returned and the page is mapped at
/// `dst_va`.
pub proof fn law_mem_map_succeeds(
    pre: Kernel,
    post: Kernel,
    src_id: u32,
    src_va: u32,
    dst_id: u32,
    dst_va: u32,
    perm: u32,
    r: u32,
    se: usize,
    de: usize,
    p: usize,
)
    requires
        pre.wf(),
        mem_map_post(pre, post, src_id, src_va, dst_id, dst_va, perm, r),
        user_va(src_va),
        user_va(dst_va),
        pre.envs.envid2env_spec(src_id, true) == Ok::<usize, KError>(se),
        pre.envs.envid2env_spec(dst_id, true) == Ok::<usize, KError>(de),
        pre.pmap.space_consistent_at(pre.envs.env(se as int).pgdir, src_va as usize),
        pre.pmap.lookup(pre.envs.env(se as int).pgdir, src_va as usize) matches Some((q, _)) && q == p,
        pre.pmap.ref_of(p as int) < 0xffff,
        pre.pmap.space_consistent_at(pre.envs.env(de as int).pgdir, dst_va as usize),
        !entry_valid(pre.pmap.pde_of(pre.envs.env(de as int).pgdir, dst_va as usize)) ==> pre.pmap.free_list().len()
            > 0,
    ensures
        r == 0,
        insert_post(
            pre.pmap,
            post.pmap,
            pre.envs.env(de as int).pgdir,
            dst_va as usize,
            pre.envs.env(de as int).asid,
            perm,
            p,
            Ok(()),
        ),
{
    let d = pre.envs.env(de as int);
    law_consistent_insert_safe(pre.pmap, d.pgdir, dst_va as usize, p);
    let ir = choose|ir: Result<(), KError>|
        r == ret_of(ir) && #[trigger] insert_post(pre.pmap, post.pmap, d.pgdir, dst_va as usize, d.asid, perm, p, ir);
    assert(ir == Ok::<(), KError>(()));
}

/// Law: a message page lands where the receiver asked for it. After a
/// successful [sys_ipc_try_send](Kernel::sys_ipc_try_send) that carries the
/// page `p` the sender maps at `src_va`, to an env that was receiving, the
/// receiver maps `p` at the address `dstva` it passed to
/// [sys_ipc_recv](Kernel::sys_ipc_recv), which its data still records,
/// where the permission stays below the frame bits and the receiver's
/// table entry for `dstva` is not its directory entry.
pub proof fn law_ipc_page_lands_at_dstva(
    pre: Kernel,
    post: Kernel,
    envid: u32,
    value: u32,
    src_va: u32,
    perm: u32,
    r: u32,
    e: usize,
    p: usize,
)
    requires
        pre.wf(),
        ipc_try_send_post(pre, post, envid, value, src_va, perm, r),
        src_va != 0,
        user_va(src_va),
        pre.envs.envid2env_spec(envid, false) == Ok::<usize, KError>(e),
        pre.envs.env(e as int).ipc_data.receiving,
        r == 0,
        pre.pmap.lookup(pre.envs.env(pre.envs.cur() as int).pgdir, src_va as usize) matches Some((q, _)) && q == p,
        perm < 4096,
        entry_valid(pre.pmap.pde_of(pre.envs.env(e as int).pgdir, pre.envs.env(e as int).ipc_data.dstva as usize))
            ==> pre.pmap.pte_index(pre.envs.env(e as int).pgdir, pre.envs.env(e as int).ipc_data.dstva as usize)
            != Pmap::pde_index(pre.envs.env(e as int).pgdir, pre.envs.env(e as int).ipc_data.dstva as usize),
    ensures
        post.envs.env(e as int).ipc_data.dstva == pre.envs.env(e as int).ipc_data.dstva,
        post.pmap.lookup(pre.envs.env(e as int).pgdir, pre.envs.env(e as int).ipc_data.dstva as usize) matches Some(
            (x, _),
        ) && x == p,
        post.pmap.pte_of(pre.envs.env(e as int).pgdir, pre.envs.env(e as int).ipc_data.dstva as usize)
            == crate::memory::pmap::make_entry(p as int, perm),
{
    let d = pre.envs.env(e as int);
    let dva = d.ipc_data.dstva as usize;
    let ir = choose|ir: Result<(), KError>|
        r == ret_of(ir) && #[trigger] insert_post(pre.pmap, post.pmap, d.pgdir, dva, d.asid, perm, p, ir);
    assert(ir == Ok::<(), KError>(()));
    pre.pmap.lemma_referenced_not_free(Pmap::kva_page(d.pgdir as int) as usize);
    crate::memory::pmap::lemma_insert_post_maps(pre.pmap, post.pmap, d.pgdir, dva, d.asid, perm, p);
}

/// Law: a message reaches its receiver. After
/// [sys_ipc_try_send](Kernel::sys_ipc_try_send) to an env the sender may
/// name that was receiving, where the source address is zero or a user
/// address, the receiver holds the value, the sender's id and the
/// permission marked valid, no longer receives, and is runnable, on the
/// schedule list.
pub proof fn law_ipc_delivers(
    pre: Kernel,
    post: Kernel,
    envid: u32,
    value: u32,
    src_va: u32,
    perm: u32,
    r: u32,
    e: usize,
)
    requires
        pre.in_syscall(),
        post.envs.wf(),
        ipc_try_send_post(pre, post, envid, value, src_va, perm, r),
        src_va == 0 || user_va(src_va),
        pre.envs.envid2env_spec(envid, false) == Ok::<usize, KError>(e),
        pre.envs.env(e as int).ipc_data.receiving,
    ensures
        post.envs.env(e as int).ipc_data.value == value,
        post.envs.env(e as int).ipc_data.from_id == pre.envs.env(pre.envs.cur() as int).id,
        post.envs.env(e as int).ipc_data.perm == perm | crate::memory::regions::PTE_V,
        !post.envs.env(e as int).ipc_data.receiving,
        post.envs.env(e as int).status == EnvStatus::Runnable,
        post.envs.sched().contains(e),
{
    assert(e < NENV);
    post.envs.lemma_sched_valid();
}

} // verus!
