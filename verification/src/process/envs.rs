//! The env (process) table: the env data, the free and the schedule lists,
//! the ASID bitmap, and the env life cycle.

use vstd::prelude::*;
use crate::arch_mipsel::trap::{is_zero_frame, TrapFrame};
use crate::consts::cp0reg::{STATUS_EXL, STATUS_IE, STATUS_IM7, STATUS_UM};
use crate::consts::error::KError;
use crate::memory::pmap::{
    alloc_post, entry_page, entry_valid, insert_post, lemma_released_refl, lemma_released_trans, only_released, tlb_entryhi,
    zero_page, Pmap, PAGE_NODE_SIZE,
};
use crate::consts::types::{round, round_up_spec};
use crate::memory::regions::{
    pdx, pdx_spec, ptx_spec, PAGE_SIZE, PDSHIFT, PGSHIFT, PTE_G, PTE_V, UENVS, ULIM, UPAGES, USTACKTOP, UTOP,
    UVPT,
};
use crate::memory::shared_pool::{destory_env_post, MemoryPool};
use crate::memory::tlbex::tlb_invalidate;
use crate::process::elf_loader::{icode_loaded, icode_ok, icode_valid, le32, ph_off, Elf32Ehdr};
use crate::utils::array_based_list::ArrayLinkedList;

verus! {

/// The env status enum.
#[derive(Debug, Clone, Copy, PartialEq, Eq, Structural)]
pub enum EnvStatus {
    /// The env is not used (free).
    Free,
    /// The env is running or to be run.
    Runnable,
    /// The env is blocked.
    NotRunnable,
}

impl Default for EnvStatus {
    /// A fresh env is free.
    fn default() -> (r: Self)
        ensures
            r == EnvStatus::Free,
    {
        EnvStatus::Free
    }
}

/// The IPC data collected together.
#[derive(Clone, Copy, Debug)]
pub struct IpcData {
    /// The value passed directly.
    pub value: u32,
    /// The sender's env id.
    pub from_id: u32,
    /// Mark this env's receiving status.
    pub receiving: bool,
    /// The target virtual address.
    pub dstva: u32,
    /// The page permission.
    pub perm: u32,
}

/// The IPC data with every member zero.
pub open spec fn zero_ipc() -> IpcData {
    IpcData { value: 0, from_id: 0, receiving: false, dstva: 0, perm: 0 }
}

impl IpcData {
    /// All members are filled with zero.
    pub fn const_construct() -> (r: Self)
        ensures
            r == zero_ipc(),
    {
        IpcData { value: 0, from_id: 0, receiving: false, dstva: 0, perm: 0 }
    }
}

/// The PCB struct.
#[derive(Clone, Copy, Debug)]
pub struct EnvData {
    /// Trap Frame stored in the PCB.
    pub trap_frame: TrapFrame,
    /// The env id.
    pub id: u32,
    /// The asid for TLB.
    pub asid: u32,
    /// The env's parent env's id;
    pub parent_id: u32,
    /// The running status of this env.
    pub status: EnvStatus,
    /// The kernel address of the page directory of this env; zero for none.
    pub pgdir: usize,
    /// The priority of this env.
    pub priority: u32,
    /// The IPC data collected.
    pub ipc_data: IpcData,
    /// The entry of the tlb mod handler in user space.
    pub user_tlb_mod_entry: u32,
    /// How many times the env has been run.
    pub env_runs: u32,
}

/// Whether every member of the env data is zero, and the env free.
pub open spec fn is_fresh_env(e: EnvData) -> bool {
    &&& is_zero_frame(e.trap_frame)
    &&& e.id == 0
    &&& e.asid == 0
    &&& e.parent_id == 0
    &&& e.status == EnvStatus::Free
    &&& e.pgdir == 0
    &&& e.priority == 0
    &&& e.ipc_data == zero_ipc()
    &&& e.user_tlb_mod_entry == 0
    &&& e.env_runs == 0
}

impl EnvData {
    /// All members are filled with zero.
    pub fn new() -> (r: Self)
        ensures
            is_fresh_env(r),
    {
        EnvData {
            trap_frame: TrapFrame::const_construct(),
            id: 0,
            asid: 0,
            pgdir: 0,
            parent_id: 0,
            status: EnvStatus::Free,
            priority: 0,
            ipc_data: IpcData::const_construct(),
            user_tlb_mod_entry: 0,
            env_runs: 0,
        }
    }
}

impl Default for EnvData {
    /// All members are filled with zero.
    fn default() -> (r: Self)
        ensures
            is_fresh_env(r),
    {
        Self::new()
    }
}

/// The log of [NENV].
pub const LOG2NENV: u8 = 10;

/// The count of the envs: two to the [LOG2NENV].
pub const NENV: usize = 1024;

/// The index of the env with the id `envid`: its low [LOG2NENV] bits.
pub fn envx(envid: usize) -> (r: usize)
    ensures
        r == envid % NENV,
        r < NENV,
{
    proof {
        crate::utils::bits::lemma_usize_bits(envid);
    }
    envid & (NENV - 1)
}

/// The env id made of the counter value `counter` and the env index
/// `index`: the counter above the index and a spare bit.
pub open spec fn envid_of(counter: u32, index: usize) -> u32 {
    (counter << 11u32) | (index as u32)
}

/// Whether bit `j` of the word `w` is set.
pub open spec fn word_bit(w: u32, j: u32) -> bool {
    (w >> j) & 1u32 == 1u32
}

/// Whether the ASID `a` is marked as used in the bitmap `bmap`.
pub open spec fn asid_bit(bmap: Seq<u32>, a: int) -> bool {
    word_bit(bmap[a / 32], (a % 32) as u32)
}

/// Setting bit `k` of a word sets that bit and keeps the others; clearing
/// it clears that bit and keeps the others.
proof fn lemma_word_bits(w: u32, k: u32)
    requires
        k < 32,
    ensures
        forall|j: u32| j < 32 ==> #[trigger] word_bit(w | (1u32 << k), j) == (j == k || word_bit(w, j)),
        forall|j: u32| j < 32 ==> #[trigger] word_bit(w & !(1u32 << k), j) == (j != k && word_bit(w, j)),
        (w & (1u32 << k) == 0) == !word_bit(w, k),
{
    assert forall|j: u32|
        #![trigger word_bit(w | (1u32 << k), j)]
        #![trigger word_bit(w & !(1u32 << k), j)]
        j < 32 implies word_bit(w | (1u32 << k), j) == (j == k || word_bit(w, j)) && word_bit(
            w & !(1u32 << k),
            j,
        ) == (j != k && word_bit(w, j)) && (w & (1u32 << k) == 0) == !word_bit(w, k) by {
        assert({
            &&& (((w | (1u32 << k)) >> j) & 1u32 == 1u32) == (j == k || (w >> j) & 1u32 == 1u32)
            &&& (((w & !(1u32 << k)) >> j) & 1u32 == 1u32) == (j != k && (w >> j) & 1u32 == 1u32)
            &&& (w & (1u32 << k) == 0) == !((w >> k) & 1u32 == 1u32)
        }) by (bit_vector)
            requires
                k < 32,
                j < 32,
        ;
    }
    assert(word_bit(w | (1u32 << k), k) == (k == k || word_bit(w, k)));
}

/// Whether `post` differs from `pre` at most in the data of env `e`.
pub open spec fn only_env_changed(pre: Envs, post: Envs, e: int) -> bool {
    &&& forall|i: int| 0 <= i < NENV && i != e ==> #[trigger] post.env(i) == pre.env(i)
    &&& post.free_envs() == pre.free_envs()
    &&& post.sched() == pre.sched()
    &&& forall|a: int| 0 <= a < 256 ==> #[trigger] post.asid_used(a) == pre.asid_used(a)
    &&& post.counter() == pre.counter()
    &&& post.cur() == pre.cur()
    &&& post.base_pgdir() == pre.base_pgdir()
    &&& post.rest_count() == pre.rest_count()
}

/// The memory after the page `p` is made the page directory of a new env:
/// the page is zero but for the directory entries of the kernel windows
/// between `UTOP` and `UVPT`, copied from the base page directory in page
/// `base`, and the entry at `UVPT`, which maps the page directory itself.
pub open spec fn env_vm_mem(mem: Seq<u32>, base: int, p: int) -> Seq<u32> {
    Seq::new(
        mem.len(),
        |k: int|
            if p * 1024 <= k < p * 1024 + 1024 {
                if 0x1fd <= k - p * 1024 < 0x1ff {
                    mem[base * 1024 + (k - p * 1024)]
                } else if k - p * 1024 == 0x1ff {
                    ((p * 4096) as u32) | 0x80u32
                } else {
                    0u32
                }
            } else {
                mem[k]
            },
    )
}

/// The self-map entry of a page directory in the page `p` is valid and
/// names that page.
proof fn lemma_self_entry(p: u32)
    requires
        p < 0x8_0000,
    ensures
        entry_valid(((p * 4096) as u32) | 0x80u32),
        entry_page(((p * 4096) as u32) | 0x80u32) == p,
{
    let e = ((p * 4096) as u32) | 0x80u32;
    assert(((p * 4096) as u32) == p << 12u32 && ((p << 12u32) | 0x80u32) & 0x80u32 != 0 && ((p << 12u32) | 0x80u32)
        >> 12u32 == p && e >> 12u32 == e / 4096) by (bit_vector)
        requires
            p < 0x8_0000,
            e == ((p * 4096) as u32) | 0x80u32,
    ;
}

/// Law: the page directory of a new env, in the page `p`, maps the kernel
/// windows between `UTOP` and `UVPT` (the envs at `UENVS`, the pages at
/// `UPAGES`) as the base page directory does, maps nothing below `UTOP`,
/// maps its own page at `UVPT`, and the base page directory is left as it
/// was; see [env_setup_vm](Envs::env_setup_vm).
pub proof fn law_new_directory_shares_kernel_windows(pre: Pmap, post: Pmap, base_pgdir: usize, pgdir: usize, va: usize)
    requires
        pre.wf(),
        pre.is_page_kva(base_pgdir),
        pre.is_page_kva(pgdir),
        Pmap::kva_page(pgdir as int) != Pmap::kva_page(base_pgdir as int),
        post.mem() == env_vm_mem(pre.mem(), Pmap::kva_page(base_pgdir as int), Pmap::kva_page(pgdir as int)),
        va < ULIM,
    ensures
        UTOP <= va < UVPT ==> post.pde_of(pgdir, va) == pre.pde_of(base_pgdir, va),
        va < UTOP ==> post.pde_of(pgdir, va) == 0,
        UVPT <= va ==> entry_valid(post.pde_of(pgdir, va)) && entry_page(post.pde_of(pgdir, va)) == Pmap::kva_page(
            pgdir as int,
        ),
        post.pde_of(base_pgdir, va) == pre.pde_of(base_pgdir, va),
{
    pre.lemma_wf_facts();
    let p = Pmap::kva_page(pgdir as int);
    let b = Pmap::kva_page(base_pgdir as int);
    let d = pdx_spec(va as int);
    assert(d == va / 0x40_0000);
    assert(0 <= p * 1024 + d < pre.mem().len() && 0 <= b * 1024 + d < pre.mem().len()) by (nonlinear_arith)
        requires
            0 <= p < pre.npage(),
            0 <= b < pre.npage(),
            0 <= d < 1024,
            pre.mem().len() == pre.npage() * 1024,
    ;
    assert(!(p * 1024 <= b * 1024 + d < p * 1024 + 1024)) by (nonlinear_arith)
        requires
            p != b,
            0 <= d < 1024,
    ;
    if UVPT <= va {
        assert(d == 0x1ff);
        lemma_self_entry(p as u32);
    }
}

/// The memory while the page `p` is being made a page directory: the
/// page is zero but for the directory entries from `0x1fd` up to `upto`,
/// copied from the page `base`.
pub open spec fn env_vm_copy(mem: Seq<u32>, base: int, p: int, upto: int) -> Seq<u32> {
    Seq::new(
        mem.len(),
        |k: int|
            if p * 1024 <= k < p * 1024 + 1024 {
                if 0x1fd <= k - p * 1024 < upto {
                    mem[base * 1024 + (k - p * 1024)]
                } else {
                    0u32
                }
            } else {
                mem[k]
            },
    )
}

/// The status register of a new env: user mode, with the timer interrupt
/// enabled, at exception level.
pub open spec fn env_status_bits() -> u32 {
    0x8013u32
}

/// Whether `new` is the env data `old` set up for a new env with the page
/// directory `pgdir`, the id `id`, the ASID `asid` and the parent
/// `parent_id`: no TLB modification handler, never run, user mode, and the
/// stack pointer below the top of the user stack.
pub open spec fn is_alloced_env(old: EnvData, new: EnvData, pgdir: usize, id: u32, asid: u32, parent_id: u32) -> bool {
    &&& new.pgdir == pgdir
    &&& new.user_tlb_mod_entry == 0
    &&& new.env_runs == 0
    &&& new.id == id
    &&& new.asid == asid
    &&& new.parent_id == parent_id
    &&& new.status == old.status
    &&& new.priority == old.priority
    &&& new.ipc_data == old.ipc_data
    &&& new.trap_frame.cp0_status == env_status_bits()
    &&& new.trap_frame.regs@ == old.trap_frame.regs@.update(29, (USTACKTOP - 8) as u32)
    &&& new.trap_frame.hi == old.trap_frame.hi
    &&& new.trap_frame.lo == old.trap_frame.lo
    &&& new.trap_frame.cp0_badvaddr == old.trap_frame.cp0_badvaddr
    &&& new.trap_frame.cp0_cause == old.trap_frame.cp0_cause
    &&& new.trap_frame.cp0_epc == old.trap_frame.cp0_epc
}

/// Removing an element from a sequence without duplicates and pushing it
/// again keeps the same members.
proof fn lemma_remove_push_same_members(s: Seq<usize>, x: usize)
    requires
        s.contains(x),
        s.no_duplicates(),
    ensures
        forall|y: usize| #[trigger] s.remove(s.index_of(x)).push(x).contains(y) == s.contains(y),
{
    let idx = s.index_of(x);
    s.index_of_first(x);
    let t = s.remove(idx).push(x);
    assert forall|y: usize| #[trigger] t.contains(y) == s.contains(y) by {
        if s.contains(y) {
            let j = s.index_of(y);
            if j < idx {
                assert(t[j] == y);
            } else if j > idx {
                assert(t[j - 1] == y);
            } else {
                assert(t[t.len() - 1] == y);
            }
        }
        if t.contains(y) {
            let j = t.index_of(y);
            if j < idx {
                assert(s[j] == y);
            } else if j < t.len() - 1 {
                assert(s[j + 1] == y);
            }
        }
    }
}

/// Whether `post` is `pre` after [env_run](Envs::env_run) of the env `e`
/// with the saved trap frame `ktf`, returning `r`.
pub open spec fn run_post(pre: Envs, post: Envs, e: usize, ktf: TrapFrame, r: (TrapFrame, u32)) -> bool {
    &&& post.cur() == e
    &&& pre.cur() != NENV && pre.cur() != e ==> post.env(pre.cur() as int) == (EnvData {
        trap_frame: ktf,
        ..pre.env(pre.cur() as int)
    })
    &&& post.env(e as int) == (EnvData {
        trap_frame: if pre.cur() == e { ktf } else { pre.env(e as int).trap_frame },
        env_runs: (pre.env(e as int).env_runs + 1) as u32,
        ..pre.env(e as int)
    })
    &&& forall|i: int| 0 <= i < NENV && i != e && i != pre.cur() ==> #[trigger] post.env(i) == pre.env(i)
    &&& post.free_envs() == pre.free_envs()
    &&& post.sched() == pre.sched()
    &&& forall|a: int| 0 <= a < 256 ==> #[trigger] post.asid_used(a) == pre.asid_used(a)
    &&& post.counter() == pre.counter()
    &&& post.base_pgdir() == pre.base_pgdir()
    &&& post.rest_count() == pre.rest_count()
    &&& r == (post.env(e as int).trap_frame, post.env(e as int).asid)
}

/// Whether [schedule](Envs::schedule) picks a new env.
pub open spec fn schedule_switches(pre: Envs, yield_now: bool) -> bool {
    yield_now || pre.rest_count() == 0 || pre.cur() == NENV || pre.env(pre.cur() as int).status
        != EnvStatus::Runnable
}

/// The schedule list after [schedule](Envs::schedule) moved the current
/// env, if it is runnable and a new env is picked, to its tail.
pub open spec fn schedule_list(pre: Envs, yield_now: bool) -> Seq<usize> {
    if schedule_switches(pre, yield_now) && pre.cur() != NENV && pre.env(pre.cur() as int).status
        == EnvStatus::Runnable {
        pre.sched().remove(pre.sched().index_of(pre.cur())).push(pre.cur())
    } else {
        pre.sched()
    }
}

/// Law: yielding hands the CPU on. When [schedule](Envs::schedule) is
/// called with `yield_now` set while the current env is runnable and
/// another env is on the schedule list, the env it runs is not the current
/// one, whatever time slices remain: it is the first env of the list other
/// than the current one, and the current one goes to the tail.
pub proof fn law_yield_switches(pre: Envs)
    requires
        pre.wf(),
        pre.cur() < NENV,
        pre.env(pre.cur() as int).status == EnvStatus::Runnable,
        pre.sched().len() > 1,
    ensures
        schedule_choice(pre, true) != pre.cur(),
        schedule_choice(pre, true) == pre.sched().remove(pre.sched().index_of(pre.cur()))[0],
        schedule_list(pre, true) == pre.sched().remove(pre.sched().index_of(pre.cur())).push(pre.cur()),
{
    pre.lemma_sched_valid();
    let s = pre.sched();
    let c = pre.cur();
    assert(s.contains(c));
    let i = s.index_of(c);
    s.index_of_first(c);
    let t = s.remove(i);
    assert(t.len() >= 1);
    assert(t.push(c)[0] == t[0]);
    if i == 0 {
        assert(t[0] == s[1]);
        assert(s[1] != s[0]);
    } else {
        assert(t[0] == s[0]);
        assert(s[0] != s[i]);
    }
}

/// Law: without a yield, [schedule](Envs::schedule) keeps the current env
/// while it is runnable and has time slices left, with one slice fewer;
/// once its slices run out, or it is not runnable, it takes the head of the
/// list, with the current env, if runnable, moved to the tail, and gives it
/// its priority less one slice.
pub proof fn law_schedule_time_slices(pre: Envs, post: Envs, yield_now: bool)
    requires
        pre.wf(),
        pre.cur() < NENV,
        schedule_post(pre, post, yield_now),
    ensures
        !yield_now && pre.rest_count() > 0 && pre.env(pre.cur() as int).status == EnvStatus::Runnable ==> {
            &&& schedule_choice(pre, yield_now) == pre.cur()
            &&& post.sched() == pre.sched()
            &&& post.rest_count() == pre.rest_count() - 1
        },
        pre.rest_count() == 0 || pre.env(pre.cur() as int).status != EnvStatus::Runnable ==> {
            &&& post.sched().len() > 0 ==> schedule_choice(pre, yield_now) == post.sched()[0]
            &&& post.rest_count() == (post.env(post.sched()[0] as int).priority).wrapping_sub(1)
            &&& pre.env(pre.cur() as int).status == EnvStatus::Runnable ==> post.sched() == pre.sched().remove(
                pre.sched().index_of(pre.cur()),
            ).push(pre.cur())
            &&& pre.env(pre.cur() as int).status != EnvStatus::Runnable ==> post.sched() == pre.sched()
        },
{
}

/// The env [schedule](Envs::schedule) runs.
pub open spec fn schedule_choice(pre: Envs, yield_now: bool) -> usize {
    if schedule_switches(pre, yield_now) {
        schedule_list(pre, yield_now)[0]
    } else {
        pre.cur()
    }
}

/// Whether `post` is `pre` after the choice of [schedule](Envs::schedule),
/// before the chosen env is run.
pub open spec fn schedule_post(pre: Envs, post: Envs, yield_now: bool) -> bool {
    &&& post.sched() == schedule_list(pre, yield_now)
    &&& post.rest_count() == (if schedule_switches(pre, yield_now) {
        post.env(schedule_choice(pre, yield_now) as int).priority
    } else {
        pre.rest_count()
    }).wrapping_sub(1)
    &&& forall|i: int| 0 <= i < NENV ==> #[trigger] post.env(i) == pre.env(i)
    &&& post.free_envs() == pre.free_envs()
    &&& forall|a: int| 0 <= a < 256 ==> #[trigger] post.asid_used(a) == pre.asid_used(a)
    &&& post.counter() == pre.counter()
    &&& post.cur() == pre.cur()
    &&& post.base_pgdir() == pre.base_pgdir()
}

/// The size in bytes of an env's data in the env array that user space
/// reads.
pub const ENV_DATA_SIZE: usize = 220;

/// Whether `post` is `pre` after [map_segment](Envs::map_segment) mapped
/// the page `page` at `va`, giving `r`: nothing changes and
/// `Err(KError::Invalid)` comes back if the page is out of memory or holds
/// no reference, or the mapping it would replace cannot be dropped safely;
/// otherwise the page is inserted, see [page_insert](Pmap::page_insert).
#[verifier::opaque]
pub open spec fn map_step(pre: Pmap, post: Pmap, pgdir: usize, asid: u32, va: usize, perm: u32, page: usize, r: Result<(), KError>) -> bool {
    if page < pre.npage() && pre.ref_of(page as int) > 0 && pre.insert_safe(pgdir, va, page) {
        insert_post(pre, post, pgdir, va, asid, perm, page, r)
    } else {
        r == Err::<(), KError>(KError::Invalid) && post == pre
    }
}

/// Law: a mapping step succeeds where the address space is consistent at
/// `va`, see [space_consistent_at](Pmap::space_consistent_at), the page is
/// in memory with a reference count above zero and below the counter's
/// limit, and a page is free if a page table is needed: the page is
/// inserted, see [map_step].
pub proof fn law_map_step_succeeds(
    pre: Pmap,
    post: Pmap,
    pgdir: usize,
    asid: u32,
    va: usize,
    perm: u32,
    page: usize,
    r: Result<(), KError>,
)
    requires
        pre.wf(),
        map_step(pre, post, pgdir, asid, va, perm, page, r),
        pre.space_consistent_at(pgdir, va),
        page < pre.npage(),
        0 < pre.ref_of(page as int) < 0xffff,
        !entry_valid(pre.pde_of(pgdir, va)) ==> pre.free_list().len() > 0,
    ensures
        r == Ok::<(), KError>(()),
        insert_post(pre, post, pgdir, va, asid, perm, page, r),
{
    reveal(map_step);
    crate::memory::pmap::law_consistent_insert_safe(pre, pgdir, va, page);
}

/// The address of the `k`-th page of a segment mapped at `va`.
pub open spec fn seg_va(va: usize, k: int) -> usize {
    (va + k * 4096) as usize
}

/// The `k`-th page of a segment of physical memory at `pa`.
pub open spec fn seg_page(pa: usize, k: int) -> usize {
    ((pa + k * 4096) / 4096) as usize
}

/// The `d`-th directory entry of the page directory at `pgdir`.
pub open spec fn pde_at(pmap: Pmap, pgdir: usize, d: int) -> u32 {
    pmap.mem()[Pmap::kva_page(pgdir as int) * 1024 + d]
}

/// The `x`-th entry of the page table the `d`-th directory entry of the
/// page directory at `pgdir` names.
pub open spec fn pte_at(pmap: Pmap, pgdir: usize, d: int, x: int) -> u32 {
    pmap.mem()[entry_page(pde_at(pmap, pgdir, d)) * 1024 + x]
}

/// Whether the address space with the page directory at `pgdir` holds the
/// page `q` below `UTOP` in the page manager `pmap`: `q` is the directory's
/// own page, a page table a valid directory entry names, or a page a valid
/// entry of such a table names.
pub open spec fn env_holds_page(pmap: Pmap, pgdir: usize, q: int) -> bool {
    ||| q == Pmap::kva_page(pgdir as int)
    ||| exists|d: int|
        0 <= d < 0x1fd && entry_valid(#[trigger] pde_at(pmap, pgdir, d)) && entry_page(pde_at(pmap, pgdir, d)) == q
    ||| exists|d: int, x: int|
        0 <= d < 0x1fd && 0 <= x < 1024 && entry_valid(pde_at(pmap, pgdir, d)) && entry_valid(
            #[trigger] pte_at(pmap, pgdir, d, x),
        ) && entry_page(pte_at(pmap, pgdir, d, x)) == q
}

/// Whether, from `pre` to `post`, only pages that the address space with
/// the page directory at `pgdir` holds in `pre` lost references or joined
/// the free list.
pub open spec fn released_own(pre: Pmap, post: Pmap, pgdir: usize) -> bool {
    &&& forall|q: int| 0 <= q < pre.npage() && !env_holds_page(pre, pgdir, q) ==> #[trigger] post.ref_of(q) == pre.ref_of(q)
    &&& forall|k: int|
        0 <= k < post.free_list().len() - pre.free_list().len() ==> env_holds_page(
            pre,
            pgdir,
            #[trigger] post.free_list()[k] as int,
        )
}

/// A step that takes a reference from a page the address space held, and
/// may free it, keeps [released_own].
proof fn lemma_release_step(o: Pmap, s0: Pmap, s1: Pmap, pgdir: usize, q: usize)
    requires
        released_own(o, s0, pgdir),
        env_holds_page(o, pgdir, q as int),
        s0.npage() == o.npage(),
        s1.npage() == s0.npage(),
        s0.free_list().len() >= o.free_list().len(),
        forall|x: int| 0 <= x < s1.npage() && x != q ==> #[trigger] s1.ref_of(x) == s0.ref_of(x),
        s1.free_list() == s0.free_list() || s1.free_list() == seq![q] + s0.free_list(),
    ensures
        released_own(o, s1, pgdir),
{
    assert forall|k: int| 0 <= k < s1.free_list().len() - o.free_list().len() implies env_holds_page(
        o,
        pgdir,
        #[trigger] s1.free_list()[k] as int,
    ) by {
        if s1.free_list() != s0.free_list() && k > 0 {
            assert(s1.free_list()[k] == s0.free_list()[k - 1]);
        }
    }
}

/// A step that changes no reference and no free list keeps
/// [released_own].
proof fn lemma_release_none(o: Pmap, s0: Pmap, s1: Pmap, pgdir: usize)
    requires
        released_own(o, s0, pgdir),
        s0.npage() == o.npage(),
        s1.npage() == s0.npage(),
        forall|x: int| 0 <= x < s1.npage() ==> #[trigger] s1.ref_of(x) == s0.ref_of(x),
        s1.free_list() == s0.free_list(),
    ensures
        released_own(o, s1, pgdir),
{
}

/// A valid entry of a page manager that only released from `o` is the
/// entry `o` had.
proof fn lemma_valid_kept(o: Pmap, s: Pmap, k: int)
    requires
        only_released(o, s),
        0 <= k < s.mem().len(),
        entry_valid(s.mem()[k]),
    ensures
        s.mem()[k] == o.mem()[k],
{
    assert(!entry_valid(0u32)) by (bit_vector);
}

/// Whether the `k`-th table entry of the address space with the page
/// directory at `pgdir` (entry `k % 1024` of the table that directory entry
/// `k / 1024` names) is a valid mapping of the page `q`.
pub open spec fn maps_at(pmap: Pmap, pgdir: usize, k: int, q: int) -> bool {
    &&& entry_valid(pde_at(pmap, pgdir, k / 1024))
    &&& entry_valid(pte_at(pmap, pgdir, k / 1024, k % 1024))
    &&& entry_page(pte_at(pmap, pgdir, k / 1024, k % 1024)) == q
}

/// How many of the first `n` table entries of the address space with the
/// page directory at `pgdir` map the page `q`.
pub open spec fn mappings_of(pmap: Pmap, pgdir: usize, q: int, n: nat) -> nat
    decreases n,
{
    if n == 0 {
        0
    } else {
        mappings_of(pmap, pgdir, q, (n - 1) as nat) + if maps_at(pmap, pgdir, n - 1, q) {
            1nat
        } else {
            0nat
        }
    }
}

/// How many of the first `n` directory entries of the page directory at
/// `pgdir` are valid and name the page `q` as a page table.
pub open spec fn tables_of(pmap: Pmap, pgdir: usize, q: int, n: nat) -> nat
    decreases n,
{
    if n == 0 {
        0
    } else {
        tables_of(pmap, pgdir, q, (n - 1) as nat) + if entry_valid(pde_at(pmap, pgdir, n - 1)) && entry_page(
            pde_at(pmap, pgdir, n - 1),
        ) == q {
            1nat
        } else {
            0nat
        }
    }
}

/// The references the address space with the page directory at `pgdir`
/// holds on the page `q` below `UTOP`: one for each mapping, one for each
/// page table, and one for the directory's own page.
pub open spec fn held_refs(pmap: Pmap, pgdir: usize, q: int) -> nat {
    mappings_of(pmap, pgdir, q, 0x1fd * 1024) + tables_of(pmap, pgdir, q, 0x1fd) + if q == Pmap::kva_page(
        pgdir as int,
    ) {
        1nat
    } else {
        0nat
    }
}

/// Whether the address space with the page directory at `pgdir` is laid
/// out as a page directory should be below `UTOP`: its page tables are
/// distinct pages in memory, none of them the directory's own page; the
/// pages they map are in memory; and every page has at least the
/// references the address space holds on it.
pub open spec fn tidy_space(pmap: Pmap, pgdir: usize) -> bool {
    &&& forall|d: int|
        0 <= d < 0x1fd && entry_valid(#[trigger] pde_at(pmap, pgdir, d)) ==> entry_page(pde_at(pmap, pgdir, d))
            < pmap.npage() && entry_page(pde_at(pmap, pgdir, d)) != Pmap::kva_page(pgdir as int)
    &&& forall|d1: int, d2: int|
        0 <= d1 < 0x1fd && 0 <= d2 < 0x1fd && d1 != d2 && entry_valid(#[trigger] pde_at(pmap, pgdir, d1))
            && entry_valid(#[trigger] pde_at(pmap, pgdir, d2)) ==> entry_page(pde_at(pmap, pgdir, d1)) != entry_page(
            pde_at(pmap, pgdir, d2),
        )
    &&& forall|d: int, x: int|
        0 <= d < 0x1fd && 0 <= x < 1024 && entry_valid(pde_at(pmap, pgdir, d)) && entry_valid(
            #[trigger] pte_at(pmap, pgdir, d, x),
        ) ==> entry_page(pte_at(pmap, pgdir, d, x)) < pmap.npage()
    &&& forall|q: int| 0 <= q < pmap.npage() ==> held_refs(pmap, pgdir, q) <= #[trigger] pmap.ref_of(q)
}

/// Whether, from `pre` to `post`, the address space with the page
/// directory at `pgdir` gave back its memory below `UTOP`: where it was
/// tidy, each page lost exactly the references the address space held on
/// it; and every page that lost its last reference is free.
pub open spec fn freed_space(pre: Pmap, post: Pmap, pgdir: usize) -> bool {
    &&& tidy_space(pre, pgdir) ==> forall|q: int|
        0 <= q < pre.npage() ==> #[trigger] post.ref_of(q) == pre.ref_of(q) - held_refs(pre, pgdir, q)
    &&& forall|q: int|
        0 <= q < pre.npage() && pre.ref_of(q) > 0 && #[trigger] post.ref_of(q) == 0 ==> post.free_list().contains(
            q as usize,
        )
}

/// Whether the TLB invalidations requested in `post` cover the page-table
/// window `UVPT + d * 4096` in the address space `asid` of each of the
/// first `n` directory entries `d` that are valid in `pre` in the page
/// directory at `pgdir`.
pub open spec fn windows_flushed(pre: Pmap, post: Pmap, pgdir: usize, asid: u32, n: int) -> bool {
    forall|d: int|
        0 <= d < n && entry_valid(#[trigger] pde_at(pre, pgdir, d)) ==> post.tlb_requests().contains(
            tlb_entryhi(asid, (UVPT + d * 4096) as usize),
        )
}

/// Requests made stay requested.
proof fn lemma_windows_kept(pre: Pmap, a: Pmap, b: Pmap, pgdir: usize, asid: u32, n: int)
    requires
        windows_flushed(pre, a, pgdir, asid, n),
        only_released(a, b),
    ensures
        windows_flushed(pre, b, pgdir, asid, n),
{
    assert forall|d: int| 0 <= d < n && entry_valid(#[trigger] pde_at(pre, pgdir, d)) implies b.tlb_requests().contains(
        tlb_entryhi(asid, (UVPT + d * 4096) as usize),
    ) by {
        let x = tlb_entryhi(asid, (UVPT + d * 4096) as usize);
        let w = a.tlb_requests().index_of(x);
        assert(b.tlb_requests()[w] == x);
    }
}

/// Counting mappings over a longer prefix counts no fewer.
proof fn lemma_mappings_mono(pmap: Pmap, pgdir: usize, q: int, a: nat, b: nat)
    requires
        a <= b,
    ensures
        mappings_of(pmap, pgdir, q, a) <= mappings_of(pmap, pgdir, q, b),
    decreases b,
{
    if a < b {
        lemma_mappings_mono(pmap, pgdir, q, a, (b - 1) as nat);
    }
}

/// Counting tables over a longer prefix counts no fewer.
proof fn lemma_tables_mono(pmap: Pmap, pgdir: usize, q: int, a: nat, b: nat)
    requires
        a <= b,
    ensures
        tables_of(pmap, pgdir, q, a) <= tables_of(pmap, pgdir, q, b),
    decreases b,
{
    if a < b {
        lemma_tables_mono(pmap, pgdir, q, a, (b - 1) as nat);
    }
}

/// The table entries behind an invalid directory entry map nothing.
proof fn lemma_no_mappings_behind(pmap: Pmap, pgdir: usize, q: int, d: nat, j: nat)
    requires
        !entry_valid(pde_at(pmap, pgdir, d as int)),
        j <= 1024,
    ensures
        mappings_of(pmap, pgdir, q, d * 1024 + j) == mappings_of(pmap, pgdir, q, d * 1024),
    decreases j,
{
    if j > 0 {
        lemma_no_mappings_behind(pmap, pgdir, q, d, (j - 1) as nat);
        let k = d * 1024 + j - 1;
        assert(k / 1024 == d) by (nonlinear_arith)
            requires
                k == d * 1024 + j - 1,
                1 <= j <= 1024,
        ;
        assert(!maps_at(pmap, pgdir, k, q));
        assert((d * 1024 + j) as nat - 1 == k);
    }
}

/// Whether the page managers `states` are the steps of mapping, page by
/// page, the `size` bytes of physical memory at `pa` to `va` under the page
/// directory at `pgdir` in the address space `asid` with the permission
/// `perm`, from `pre` to `post`, the last step giving `r`: all of them when
/// `r` is `Ok`, up to the failing one otherwise, see [map_step].
pub open spec fn segment_mapped(
    states: Seq<Pmap>,
    pre: Pmap,
    post: Pmap,
    pgdir: usize,
    asid: u32,
    pa: usize,
    va: usize,
    size: usize,
    perm: u32,
    r: Result<(), KError>,
) -> bool {
    &&& 1 <= states.len() <= size / 4096 + 1
    &&& states[0] == pre
    &&& states[states.len() - 1] == post
    &&& forall|k: int|
        0 <= k < states.len() - 1 ==> map_step(
            #[trigger] states[k],
            states[k + 1],
            pgdir,
            asid,
            seg_va(va, k),
            perm,
            seg_page(pa, k),
            if k == states.len() - 2 {
                r
            } else {
                Ok(())
            },
        )
    &&& r is Ok ==> states.len() == size / 4096 + 1
    &&& r is Err ==> states.len() >= 2
}

/// What [base_vm] does to the page manager `pre`, leaving `post` and
/// returning `r`: the first free page is allocated, with one reference, as
/// the base page directory, and the page array at `pages_pa` and the env
/// array at `envs_pa` are mapped into it at `UPAGES` and `UENVS`, global
/// and read-only, see [map_segment](Envs::map_segment); the first failure
/// stops it.
#[verifier::opaque]
pub open spec fn base_vm_post(pre: Pmap, post: Pmap, pages_pa: usize, envs_pa: usize, r: Result<usize, KError>) -> bool {
    &&& pre.free_list().len() == 0 ==> r == Err::<usize, KError>(KError::NoMem) && post == pre
    &&& pre.free_list().len() > 0 ==> exists|m1: Pmap, m2: Pmap, m3: Pmap, st1: Seq<Pmap>, st2: Seq<Pmap>|
        #![trigger m1.wf(), m2.wf(), m3.wf(), st1.len(), st2.len()]
        {
            let p = pre.free_list()[0] as int;
            let base = (ULIM + p * 4096) as usize;
            let r1 = if st2.len() == 0 {
                match r {
                    Ok(_) => Ok(()),
                    Err(e) => Err(e),
                }
            } else {
                Ok(())
            };
            let r2 = match r {
                Ok(_) => Ok(()),
                Err(e) => Err(e),
            };
            &&& alloc_post(pre, m1, Ok(p as usize))
            &&& m1.wf()
            &&& m2.wf()
            &&& m3.wf()
            &&& m2.mem() == m1.mem()
            &&& m2.free_list() == m1.free_list()
            &&& m2.tlb_requests() == m1.tlb_requests()
            &&& m2.npage() == m1.npage()
            &&& forall|q: int| 0 <= q < m2.npage() ==> #[trigger] m2.ref_of(q) == if q == p {
                (m1.ref_of(q) + 1) as u16
            } else {
                m1.ref_of(q)
            }
            &&& segment_mapped(
                st1,
                m2,
                if st2.len() == 0 { post } else { m3 },
                base,
                0,
                pages_pa,
                UPAGES,
                round_up_spec(pre.npage() * PAGE_NODE_SIZE, 4096) as usize,
                PTE_G,
                r1,
            )
            &&& st2.len() > 0 ==> segment_mapped(
                st2,
                m3,
                post,
                base,
                0,
                envs_pa,
                UENVS,
                round_up_spec(NENV * ENV_DATA_SIZE, 4096) as usize,
                PTE_G,
                r2,
            )
            &&& r is Ok ==> st2.len() > 0 && r == Ok::<usize, KError>(base)
        }
}

/// Make the base page directory, see [base_vm_post]. Returns its kernel
/// address.
#[verifier::spinoff_prover]
#[verifier::rlimit(30)]
pub fn base_vm(pmap: &mut Pmap, pages_pa: usize, envs_pa: usize) -> (r: Result<usize, KError>)
    requires
        old(pmap).wf(),
        pages_pa % 4096 == 0,
        envs_pa % 4096 == 0,
        pages_pa + round_up_spec(old(pmap).npage() * PAGE_NODE_SIZE, 4096) <= usize::MAX,
        envs_pa + round_up_spec(NENV * ENV_DATA_SIZE, 4096) <= usize::MAX,
    ensures
        final(pmap).wf(),
        final(pmap).npage() == old(pmap).npage(),
        base_vm_post(*old(pmap), *final(pmap), pages_pa, envs_pa, r),
{
    proof {
        pmap.lemma_wf_facts();
        reveal(base_vm_post);
    }
    let p = match pmap.page_alloc() {
        Ok(p) => p,
        Err(err) => {
            return Err(err);
        },
    };
    let ghost m1 = *pmap;
    proof {
        assert(old(pmap).is_free(p));
        assert(m1.ref_of(p as int) == old(pmap).ref_of(p as int));
        assert(!m1.is_free(p)) by {
            if m1.free_list().contains(p) {
                let j = m1.free_list().index_of(p);
                assert(old(pmap).free_list()[j + 1] == p);
            }
        }
    }
    pmap.page_incref(p);
    let ghost m2 = *pmap;
    let base_pgdir = ULIM + p * PAGE_SIZE;
    let npage = pmap.page_count();
    proof {
        assert(npage * PAGE_NODE_SIZE <= 0x8_0000 * 12);
    }
    let pages_size = round(npage * PAGE_NODE_SIZE, PAGE_SIZE);
    let envs_size = round(NENV * ENV_DATA_SIZE, PAGE_SIZE);
    let r1 = Envs::map_segment(pmap, base_pgdir, 0, pages_pa, UPAGES, pages_size, PTE_G);
    let ghost m3 = *pmap;
    if r1.is_err() {
        let e = match r1 {
            Err(e) => e,
            Ok(_) => KError::Invalid,
        };
        proof {
            let st1 = choose|st1: Seq<Pmap>| segment_mapped(st1, m2, m3, base_pgdir, 0, pages_pa, UPAGES, pages_size, PTE_G, r1);
            let st2 = Seq::<Pmap>::empty();
            assert(r1 == Err::<(), KError>(e));
            assert(m1.wf() && m2.wf() && m3.wf() && st1.len() >= 0 && st2.len() == 0);
        }
        return Err(e);
    }
    let r2 = Envs::map_segment(pmap, base_pgdir, 0, envs_pa, UENVS, envs_size, PTE_G);
    let r = match r2 {
        Ok(()) => Ok(base_pgdir),
        Err(e) => Err(e),
    };
    proof {
        let st1 = choose|st1: Seq<Pmap>| segment_mapped(st1, m2, m3, base_pgdir, 0, pages_pa, UPAGES, pages_size, PTE_G, r1);
        let st2 = choose|st2: Seq<Pmap>| segment_mapped(st2, m3, *pmap, base_pgdir, 0, envs_pa, UENVS, envs_size, PTE_G, r2);
        assert(r1 == Ok::<(), KError>(()));
        assert(st2.len() > 0);
        assert(m1.wf() && m2.wf() && m3.wf() && st1.len() >= 0 && st2.len() >= 0);
    }
    r
}

/// The env table: the env data, the free and the schedule lists, the ASID
/// bitmap, the id counter, the current env and the base page directory.
pub struct Envs {
    /// The envs' data, indexed by env index.
    data: Vec<EnvData>,
    /// Free env list.
    free_list: ArrayLinkedList<NENV>,
    /// Runnable env list.
    sched_list: ArrayLinkedList<NENV>,
    /// Bitmap for the ASID allocation: bit `a % 32` of word `a / 32`.
    asid_bmap: Vec<u32>,
    /// The counter that the next env id is made of.
    env_i: u32,
    /// The index of the current env; [NENV] for none.
    cur: usize,
    /// The kernel address of the page directory every env's is made from.
    base_pgdir: usize,
    /// The time slices left to the current env.
    rest_count: u32,
}

impl Envs {
    /// The data of env `i`.
    pub closed spec fn env(&self, i: int) -> EnvData {
        self.data@[i]
    }

    /// The free envs, in list order.
    pub closed spec fn free_envs(&self) -> Seq<usize> {
        self.free_list@
    }

    /// The runnable envs, in schedule order.
    pub closed spec fn sched(&self) -> Seq<usize> {
        self.sched_list@
    }

    /// Whether the ASID `a` is in use.
    pub closed spec fn asid_used(&self, a: int) -> bool {
        asid_bit(self.asid_bmap@, a)
    }

    /// The counter that the next env id is made of.
    pub closed spec fn counter(&self) -> u32 {
        self.env_i
    }

    /// The index of the current env; [NENV] for none.
    pub closed spec fn cur(&self) -> usize {
        self.cur
    }

    /// The kernel address of the base page directory.
    pub closed spec fn base_pgdir(&self) -> usize {
        self.base_pgdir
    }

    /// The time slices left to the current env.
    pub closed spec fn rest_count(&self) -> u32 {
        self.rest_count
    }

    /// This table with the id counter at `c`.
    pub closed spec fn with_counter(self, c: u32) -> Envs {
        Envs { env_i: c, ..self }
    }

    /// Well-formedness: the table has [NENV] envs, the lists are
    /// well-formed, the free envs are free, and an env is in the schedule
    /// list exactly when it is runnable.
    pub closed spec fn wf(&self) -> bool {
        &&& self.data@.len() == NENV
        &&& self.free_list.wf()
        &&& self.sched_list.wf()
        &&& self.asid_bmap@.len() == 8
        &&& self.cur <= NENV
        &&& forall|k: int|
            0 <= k < self.free_list@.len() ==> (#[trigger] self.data@[self.free_list@[k] as int]).status
                == EnvStatus::Free
        &&& forall|i: int|
            0 <= i < NENV ==> (self.sched_list@.contains(i as usize) <==> (#[trigger] self.data@[i]).status
                == EnvStatus::Runnable)
    }

    /// An empty env table: every env fresh and in no list, no ASID used,
    /// the id counter at one, and no current env.
    pub fn new() -> (r: Self)
        ensures
            r.wf(),
            forall|i: int| 0 <= i < NENV ==> is_fresh_env(#[trigger] r.env(i)),
            r.free_envs().len() == 0,
            r.sched().len() == 0,
            forall|a: int| 0 <= a < 256 ==> !#[trigger] r.asid_used(a),
            r.counter() == 1,
            r.cur() == NENV,
            r.base_pgdir() == 0,
            r.rest_count() == 0,
    {
        let mut data: Vec<EnvData> = Vec::new();
        let mut i: usize = 0;
        while i < NENV
            invariant
                i <= NENV,
                data@.len() == i,
                forall|k: int| 0 <= k < i ==> is_fresh_env(#[trigger] data@[k]),
            decreases NENV - i,
        {
            data.push(EnvData::new());
            i = i + 1;
        }
        let asid_bmap: Vec<u32> = vec![0u32, 0u32, 0u32, 0u32, 0u32, 0u32, 0u32, 0u32];
        let r = Envs {
            data,
            free_list: ArrayLinkedList::new(),
            sched_list: ArrayLinkedList::new(),
            asid_bmap,
            env_i: 1,
            cur: NENV,
            base_pgdir: 0,
            rest_count: 0,
        };
        proof {
            assert forall|a: int| 0 <= a < 256 implies !#[trigger] r.asid_used(a) by {
                let k = (a % 32) as u32;
                crate::utils::bits::lemma_const_bits();
                assert((0u32 >> k) & 1u32 == 0u32);
            }
        }
        r
    }

    /// Alloc a new asid: the lowest one not in use. Return
    /// `Err(KError::NoFreeEnv)` if there is no asid remained.
    pub fn asid_alloc(&mut self) -> (r: Result<u32, KError>)
        requires
            old(self).wf(),
        ensures
            final(self).wf(),
            forall|i: int| 0 <= i < NENV ==> #[trigger] final(self).env(i) == old(self).env(i),
            final(self).free_envs() == old(self).free_envs(),
            final(self).sched() == old(self).sched(),
            final(self).counter() == old(self).counter(),
            final(self).cur() == old(self).cur(),
            final(self).base_pgdir() == old(self).base_pgdir(),
            final(self).rest_count() == old(self).rest_count(),
            match r {
                Ok(a) => {
                    &&& a < 256
                    &&& !old(self).asid_used(a as int)
                    &&& forall|j: int| 0 <= j < a ==> #[trigger] old(self).asid_used(j)
                    &&& forall|j: int| 0 <= j < 256 ==> #[trigger] final(self).asid_used(j) == (j == a || old(self).asid_used(j))
                },
                Err(e) => {
                    &&& e == KError::NoFreeEnv
                    &&& forall|j: int| 0 <= j < 256 ==> #[trigger] old(self).asid_used(j)
                    &&& forall|j: int| 0 <= j < 256 ==> #[trigger] final(self).asid_used(j) == old(self).asid_used(j)
                },
            },
    {
        let mut i: usize = 0;
        while i < 256
            invariant
                i <= 256,
                *self == *old(self),
                old(self).wf(),
                forall|j: int| 0 <= j < i ==> #[trigger] old(self).asid_used(j),
            decreases 256 - i,
        {
            let index = i >> 5;
            let inner = (i & 31) as u32;
            proof {
                crate::utils::bits::lemma_usize_bits(i);
            }
            let w = self.asid_bmap[index];
            proof {
                lemma_word_bits(w, inner);
            }
            if w & (1u32 << inner) == 0 {
                self.asid_bmap.set(index, w | (1u32 << inner));
                proof {
                    assert forall|j: int| 0 <= j < 256 implies #[trigger] self.asid_used(j) == (j == i || old(self).asid_used(j)) by {
                        if j / 32 == i / 32 {
                            assert(((j % 32) as u32 == inner) == (j == i));
                        }
                    }
                }
                return Ok(i as u32);
            }
            i = i + 1;
        }
        Err(KError::NoFreeEnv)
    }

    /// Free an asid.
    pub fn asid_free(&mut self, a: u32)
        requires
            old(self).wf(),
            a < 256,
        ensures
            final(self).wf(),
            forall|i: int| 0 <= i < NENV ==> #[trigger] final(self).env(i) == old(self).env(i),
            final(self).free_envs() == old(self).free_envs(),
            final(self).sched() == old(self).sched(),
            final(self).counter() == old(self).counter(),
            final(self).cur() == old(self).cur(),
            final(self).base_pgdir() == old(self).base_pgdir(),
            final(self).rest_count() == old(self).rest_count(),
            forall|j: int| 0 <= j < 256 ==> #[trigger] final(self).asid_used(j) == (j != a && old(self).asid_used(j)),
    {
        let index = (a >> 5) as usize;
        let inner = a & 31;
        proof {
            crate::utils::bits::lemma_u32_bits(a);
        }
        let w = self.asid_bmap[index];
        proof {
            lemma_word_bits(w, inner);
        }
        self.asid_bmap.set(index, w & !(1u32 << inner));
        proof {
            assert forall|j: int| 0 <= j < 256 implies #[trigger] self.asid_used(j) == (j != a && old(self).asid_used(j)) by {
                if j / 32 == a / 32 {
                    assert(((j % 32) as u32 == inner) == (j == a));
                }
            }
        }
    }

    /// Replace the data of env `e`, keeping its status.
    fn update_env(&mut self, e: usize, d: EnvData)
        requires
            old(self).wf(),
            e < NENV,
            d.status == old(self).env(e as int).status,
        ensures
            final(self).wf(),
            final(self).env(e as int) == d,
            only_env_changed(*old(self), *final(self), e as int),
    {
        self.data.set(e, d);
        proof {
            old(self).free_list.lemma_view_valid();
            assert forall|k: int|
                0 <= k < self.free_list@.len() implies (#[trigger] self.data@[self.free_list@[k] as int]).status
                == EnvStatus::Free by {
                assert(old(self).data@[self.free_list@[k] as int].status == EnvStatus::Free);
            }
            assert forall|i: int|
                0 <= i < NENV implies (self.sched_list@.contains(i as usize) <==> (#[trigger] self.data@[i]).status
                == EnvStatus::Runnable) by {
                assert(old(self).sched_list@.contains(i as usize) <==> old(self).data@[i].status
                    == EnvStatus::Runnable);
            }
        }
    }

    /// Replace the data of env `e`, keeping its status.
    pub fn set_env(&mut self, e: usize, d: EnvData)
        requires
            old(self).wf(),
            e < NENV,
            d.status == old(self).env(e as int).status,
        ensures
            final(self).wf(),
            final(self).env(e as int) == d,
            only_env_changed(*old(self), *final(self), e as int),
    {
        self.update_env(e, d);
    }

    /// The kernel address of the base page directory.
    pub fn base_pgdir_of(&self) -> (r: usize)
        ensures
            r == self.base_pgdir(),
    {
        self.base_pgdir
    }

    /// Whether no env is waiting to be scheduled.
    pub fn sched_is_empty(&self) -> (r: bool)
        requires
            self.wf(),
        ensures
            r == (self.sched().len() == 0),
    {
        self.sched_list.empty()
    }

    /// Whether no env is free.
    pub fn free_is_empty(&self) -> (r: bool)
        requires
            self.wf(),
        ensures
            r == (self.free_envs().len() == 0),
    {
        self.free_list.empty()
    }

    /// The free list holds distinct envs.
    pub proof fn lemma_free_envs_valid(&self)
        requires
            self.wf(),
        ensures
            self.free_envs().no_duplicates(),
            forall|k: int| 0 <= k < self.free_envs().len() ==> #[trigger] self.free_envs()[k] < NENV,
            forall|k: int|
                0 <= k < self.free_envs().len() ==> self.env(#[trigger] self.free_envs()[k] as int).status
                    == EnvStatus::Free,
    {
        self.free_list.lemma_view_valid();
    }

    /// The schedule list holds distinct envs, and an env is on it exactly
    /// when it is runnable.
    pub proof fn lemma_sched_valid(&self)
        requires
            self.wf(),
        ensures
            self.sched().no_duplicates(),
            forall|k: int| 0 <= k < self.sched().len() ==> #[trigger] self.sched()[k] < NENV,
            forall|i: int|
                0 <= i < NENV ==> (self.sched().contains(i as usize) <==> (#[trigger] self.env(i)).status
                    == EnvStatus::Runnable),
    {
        self.sched_list.lemma_view_valid();
        assert forall|i: int|
            0 <= i < NENV implies (self.sched().contains(i as usize) <==> (#[trigger] self.env(i)).status
            == EnvStatus::Runnable) by {
            assert(self.data@[i] == self.env(i));
        }
    }

    /// The data of env `e`.
    pub fn env_data(&self, e: usize) -> (r: EnvData)
        requires
            self.wf(),
            e < NENV,
        ensures
            r == self.env(e as int),
    {
        self.data[e]
    }

    /// The index of the current env; [NENV] for none.
    pub fn cur_env(&self) -> (r: usize)
        ensures
            r == self.cur(),
    {
        self.cur
    }

    /// What [envid2env](Envs::envid2env) gives for `envid`.
    pub open spec fn envid2env_spec(&self, envid: u32, checkperm: bool) -> Result<usize, KError> {
        if envid == 0 {
            Ok(self.cur())
        } else {
            let e = (envid as usize) % NENV;
            if self.env(e as int).status == EnvStatus::Free || self.env(e as int).id != envid {
                Err(KError::BadEnv)
            } else if checkperm && ((self.env(e as int).id != self.env(self.cur() as int).id
                && self.env(e as int).parent_id != self.env(self.cur() as int).id) || self.cur() == NENV) {
                Err(KError::BadEnv)
            } else {
                Ok(e)
            }
        }
    }

    /// Get the env's index by its id; the id zero names the current env.
    /// If `checkperm` is set, the env must be the current env or a child of
    /// it. `Err(KError::BadEnv)` is returned if the env is free, its id is
    /// not `envid`, or the permission check fails.
    pub fn envid2env(&self, envid: u32, checkperm: bool) -> (r: Result<usize, KError>)
        requires
            self.wf(),
        ensures
            r == self.envid2env_spec(envid, checkperm),
            r matches Ok(e) ==> e <= NENV,
    {
        let cur_index = self.cur;
        if 0 == envid {
            return Ok(cur_index);
        }
        let e = envx(envid as usize);
        let t_id = self.data[e].id;
        let p_id = self.data[e].parent_id;
        if self.data[e].status == EnvStatus::Free || t_id != envid {
            return Err(KError::BadEnv);
        }
        if !checkperm {
            return Ok(e);
        }
        if cur_index >= NENV {
            return Err(KError::BadEnv);
        }
        if t_id != self.data[cur_index].id && p_id != self.data[cur_index].id {
            Err(KError::BadEnv)
        } else {
            Ok(e)
        }
    }

    /// Set up the virtual memory of the env `e`: a page is allocated as its
    /// page directory, with one reference, and filled as [env_vm_mem] says.
    /// `Err(KError::NoMem)` is returned, and nothing changes, if no page is
    /// free.
    #[verifier::rlimit(40)]
    pub fn env_setup_vm(&mut self, pmap: &mut Pmap, e: usize) -> (r: Result<(), KError>)
        requires
            old(self).wf(),
            old(pmap).wf(),
            e < NENV,
            old(pmap).is_page_kva(old(self).base_pgdir()),
            !old(pmap).is_free(Pmap::kva_page(old(self).base_pgdir() as int) as usize),
        ensures
            final(self).wf(),
            final(pmap).wf(),
            final(pmap).npage() == old(pmap).npage(),
            final(pmap).tlb_requests() == old(pmap).tlb_requests(),
            old(pmap).free_list().len() == 0 ==> {
                &&& r == Err::<(), KError>(KError::NoMem)
                &&& *final(self) == *old(self)
                &&& *final(pmap) == *old(pmap)
            },
            old(pmap).free_list().len() > 0 ==> {
                let p = old(pmap).free_list()[0] as int;
                &&& r == Ok::<(), KError>(())
                &&& final(pmap).free_list() == old(pmap).free_list().drop_first()
                &&& forall|q: int| 0 <= q < final(pmap).npage() ==> #[trigger] final(pmap).ref_of(q) == if q == p {
                    1u16
                } else {
                    old(pmap).ref_of(q)
                }
                &&& final(pmap).mem() == env_vm_mem(
                    old(pmap).mem(),
                    Pmap::kva_page(old(self).base_pgdir() as int),
                    p,
                )
                &&& final(self).env(e as int) == (EnvData { pgdir: (ULIM + p * 4096) as usize, ..old(self).env(e as int) })
                &&& only_env_changed(*old(self), *final(self), e as int)
            },
    {
        proof {
            old(pmap).lemma_wf_facts();
        }
        let p = match pmap.page_alloc() {
            Ok(p) => p,
            Err(err) => {
                return Err(err);
            },
        };
        let ghost m0 = old(pmap).mem();
        let ghost base = Pmap::kva_page(self.base_pgdir as int);
        proof {
            assert(self.base_pgdir == ULIM + base * 4096);
        }
        proof {
            assert(old(pmap).is_free(p));
            assert(pmap.ref_of(p as int) == old(pmap).ref_of(p as int));
            assert(!pmap.is_free(p)) by {
                if pmap.free_list().contains(p) {
                    let j = pmap.free_list().index_of(p);
                    assert(old(pmap).free_list()[j + 1] == p);
                }
            }
            assert(p as int != base);
        }
        let ghost s1 = *pmap;
        pmap.page_incref(p);
        let pgdir = ULIM + p * PAGE_SIZE;
        let mut d = self.data[e];
        d.pgdir = pgdir;
        self.update_env(e, d);
        let base_pgdir = self.base_pgdir;
        let first = pdx(UTOP);
        let end = pdx(UVPT);
        proof {
            let n = old(pmap).npage();
            assert(base * 1024 + 1024 <= m0.len()) by (nonlinear_arith)
                requires
                    base < n,
                    m0.len() == n * 1024,
            ;
            assert(p * 1024 + 1024 <= m0.len()) by (nonlinear_arith)
                requires
                    p < n,
                    m0.len() == n * 1024,
            ;
            assert(!(p * 1024 <= base * 1024 + 0x1fd < p * 1024 + 1024)) by (nonlinear_arith)
                requires
                    p != base,
            ;
            assert(!(p * 1024 <= base * 1024 + 0x1fe < p * 1024 + 1024)) by (nonlinear_arith)
                requires
                    p != base,
            ;
            assert(pmap.mem() =~= env_vm_copy(m0, base, p as int, 0x1fd));
            assert((base_pgdir + first * 4 - ULIM) / 4 == base * 1024 + 0x1fd);
            assert((pgdir + first * 4 - ULIM) / 4 == p * 1024 + 0x1fd);
        }
        let v0 = pmap.read_word(base_pgdir + first * 4);
        pmap.store_word(pgdir + first * 4, v0);
        proof {
            assert(pmap.mem() =~= env_vm_copy(m0, base, p as int, 0x1fe));
            assert((base_pgdir + (first + 1) * 4 - ULIM) / 4 == base * 1024 + 0x1fe);
            assert((pgdir + (first + 1) * 4 - ULIM) / 4 == p * 1024 + 0x1fe);
        }
        let v1 = pmap.read_word(base_pgdir + (first + 1) * 4);
        pmap.store_word(pgdir + (first + 1) * 4, v1);
        proof {
            assert(pmap.mem() =~= env_vm_copy(m0, base, p as int, 0x1ff));
            assert((pgdir + end * 4 - ULIM) / 4 == p * 1024 + 0x1ff);
        }
        pmap.store_word(pgdir + end * 4, (pgdir - ULIM) as u32 | PTE_V);
        proof {
            assert(pmap.mem() =~= env_vm_mem(m0, base, p as int));
        }
        Ok(())
    }

    /// Alloc an env from the free list and set up its virtual memory and
    /// its data, as a child of `parent_id`.
    ///
    /// `Err(KError::NoFreeEnv)` is returned if no env is free; the errors
    /// of [env_setup_vm](Envs::env_setup_vm) and of
    /// [asid_alloc](Envs::asid_alloc) are passed on. The env taken from the
    /// free list stays taken when a later step fails.
    pub fn env_alloc(&mut self, pmap: &mut Pmap, parent_id: u32) -> (r: Result<usize, KError>)
        requires
            old(self).wf(),
            old(pmap).wf(),
            old(pmap).is_page_kva(old(self).base_pgdir()),
            !old(pmap).is_free(Pmap::kva_page(old(self).base_pgdir() as int) as usize),
        ensures
            final(self).wf(),
            final(pmap).wf(),
            final(pmap).npage() == old(pmap).npage(),
            final(pmap).tlb_requests() == old(pmap).tlb_requests(),
            final(self).cur() == old(self).cur(),
            final(self).sched() == old(self).sched(),
            final(self).base_pgdir() == old(self).base_pgdir(),
            final(self).rest_count() == old(self).rest_count(),
            old(self).free_envs().len() == 0 ==> {
                &&& r == Err::<usize, KError>(KError::NoFreeEnv)
                &&& *final(self) == *old(self)
                &&& *final(pmap) == *old(pmap)
            },
            old(self).free_envs().len() > 0 && old(pmap).free_list().len() == 0 ==> {
                &&& r == Err::<usize, KError>(KError::NoMem)
                &&& final(self).free_envs() == old(self).free_envs().drop_first()
                &&& forall|i: int| 0 <= i < NENV ==> #[trigger] final(self).env(i) == old(self).env(i)
                &&& *final(pmap) == *old(pmap)
            },
            old(self).free_envs().len() > 0 && old(pmap).free_list().len() > 0 ==> {
                let e = old(self).free_envs()[0] as int;
                let p = old(pmap).free_list()[0] as int;
                let pgdir = (ULIM + p * 4096) as usize;
                let id = envid_of(old(self).counter(), e as usize);
                &&& final(self).free_envs() == old(self).free_envs().drop_first()
                &&& final(self).sched() == old(self).sched()
                &&& final(self).counter() == old(self).counter().wrapping_add(1)
                &&& final(self).cur() == old(self).cur()
                &&& final(self).base_pgdir() == old(self).base_pgdir()
                &&& final(self).rest_count() == old(self).rest_count()
                &&& forall|i: int| 0 <= i < NENV && i != e ==> #[trigger] final(self).env(i) == old(self).env(i)
                &&& final(pmap).free_list() == old(pmap).free_list().drop_first()
                &&& forall|q: int| 0 <= q < final(pmap).npage() ==> #[trigger] final(pmap).ref_of(q) == if q == p {
                    1u16
                } else {
                    old(pmap).ref_of(q)
                }
                &&& final(pmap).mem() == env_vm_mem(
                    old(pmap).mem(),
                    Pmap::kva_page(old(self).base_pgdir() as int),
                    p,
                )
                &&& match r {
                    Ok(idx) => {
                        &&& idx == e
                        &&& idx < NENV
                        &&& exists|a: u32| {
                            &&& a < 256
                            &&& !old(self).asid_used(a as int)
                            &&& forall|j: int| 0 <= j < a ==> #[trigger] old(self).asid_used(j)
                            &&& forall|j: int| 0 <= j < 256 ==> #[trigger] final(self).asid_used(j) == (j == a || old(self).asid_used(j))
                            &&& is_alloced_env(old(self).env(e), final(self).env(e), pgdir, id, a, parent_id)
                        }
                    },
                    Err(err) => {
                        &&& err == KError::NoFreeEnv
                        &&& forall|j: int| 0 <= j < 256 ==> #[trigger] old(self).asid_used(j)
                        &&& forall|j: int| 0 <= j < 256 ==> #[trigger] final(self).asid_used(j) == old(self).asid_used(j)
                        &&& final(self).env(e) == (EnvData {
                            pgdir,
                            user_tlb_mod_entry: 0,
                            env_runs: 0,
                            id,
                            ..old(self).env(e)
                        })
                    },
                }
            },
    {
        proof {
            self.free_list.lemma_view_valid();
        }
        if self.free_list.empty() {
            return Err(KError::NoFreeEnv);
        }
        let e = match self.free_list.pop_head() {
            Some(e) => e,
            None => {
                return Err(KError::NoFreeEnv);
            },
        };
        let ghost s0 = *self;
        proof {
            assert forall|k: int|
                0 <= k < self.free_list@.len() implies (#[trigger] self.data@[self.free_list@[k] as int]).status
                == EnvStatus::Free by {
                assert(self.free_list@[k] == old(self).free_list@[k + 1]);
            }
        }
        if let Err(err) = self.env_setup_vm(pmap, e) {
            return Err(err);
        }
        let ghost s1 = *self;
        let mut d = self.data[e];
        d.user_tlb_mod_entry = 0;
        d.env_runs = 0;
        self.update_env(e, d);
        let ghost s2 = *self;
        let id = self.mkenvid(e);
        let ghost s3 = *self;
        let mut d = self.data[e];
        d.id = id;
        self.update_env(e, d);
        let ghost s4 = *self;
        proof {
            assert forall|j: int| 0 <= j < 256 implies #[trigger] s4.asid_used(j) == old(self).asid_used(j) by {
                assert(s1.asid_used(j) == s0.asid_used(j));
                assert(s2.asid_used(j) == s1.asid_used(j));
                assert(s4.asid_used(j) == s3.asid_used(j));
            }
            assert forall|i: int| 0 <= i < NENV && i != e implies #[trigger] s4.env(i) == old(self).env(i) by {
                assert(s1.env(i) == s0.env(i));
                assert(s2.env(i) == s1.env(i));
                assert(s4.env(i) == s3.env(i));
            }
        }
        let asid = match self.asid_alloc() {
            Ok(a) => a,
            Err(err) => {
                proof {
                    assert forall|i: int| 0 <= i < NENV && i != e implies #[trigger] self.env(i) == old(self).env(i) by {
                        assert(self.env(i) == s4.env(i));
                    }
                    assert forall|j: int| 0 <= j < 256 implies #[trigger] self.asid_used(j) == old(self).asid_used(j) by {
                        assert(s4.asid_used(j) == old(self).asid_used(j));
                    }
                    assert forall|j: int| 0 <= j < 256 implies #[trigger] old(self).asid_used(j) by {
                        assert(s4.asid_used(j) == old(self).asid_used(j));
                    }
                    assert(self.env(e as int) == s4.env(e as int));
                    assert(s3.env(e as int) == s2.env(e as int));
                    assert(self.env(e as int) == (EnvData {
                        pgdir: (ULIM + old(pmap).free_list()[0] * 4096) as usize,
                        user_tlb_mod_entry: 0,
                        env_runs: 0,
                        id,
                        ..old(self).env(e as int)
                    }));
                }
                return Err(err);
            },
        };
        let ghost s5 = *self;
        let mut d = self.data[e];
        d.asid = asid;
        d.parent_id = parent_id;
        d.trap_frame.cp0_status = STATUS_IM7 | STATUS_IE | STATUS_EXL | STATUS_UM;
        d.trap_frame.regs[29] = (USTACKTOP - 4 - 4) as u32;
        self.update_env(e, d);
        proof {
            crate::utils::bits::lemma_const_bits();
            assert(d.trap_frame.regs@ =~= s5.env(e as int).trap_frame.regs@.update(29, (USTACKTOP - 8) as u32));
            assert forall|i: int| 0 <= i < NENV && i != e implies #[trigger] self.env(i) == old(self).env(i) by {
                assert(self.env(i) == s5.env(i));
                assert(s5.env(i) == s4.env(i));
            }
            assert forall|j: int| 0 <= j < 256 implies #[trigger] self.asid_used(j) == (j == asid || old(self).asid_used(j)) by {
                assert(self.asid_used(j) == s5.asid_used(j));
                assert(s4.asid_used(j) == old(self).asid_used(j));
            }
            assert forall|j: int| 0 <= j < asid implies #[trigger] old(self).asid_used(j) by {
                assert(s4.asid_used(j) == old(self).asid_used(j));
            }
            assert(!old(self).asid_used(asid as int)) by {
                assert(s4.asid_used(asid as int) == old(self).asid_used(asid as int));
            }
        }
        Ok(e)
    }

    /// Free the env `env_index`: unmap every page it maps below `UTOP`,
    /// release its page tables and its page directory, free its ASID, mark
    /// it free, take it off the schedule list, put it at the head of the free
    /// list, and unbind it from its shared memory pools. The TLB entries of
    /// the page tables' windows are invalidated.
    ///
    /// Each mapping below `UTOP` takes one reference from the page it maps,
    /// each page table and the directory one from their own pages, and a
    /// page that loses its last reference goes to the head of the free list
    /// ([freed_space]). A mapping or a page table whose page is out of memory
    /// or holds no reference is left alone.
    #[verifier::spinoff_prover]
    #[verifier::rlimit(60)]
    pub fn env_free(&mut self, pmap: &mut Pmap, pool: &mut MemoryPool, env_index: usize)
        requires
            old(self).wf(),
            old(pmap).wf(),
            old(pool).wf(),
            env_index < NENV,
            old(self).env(env_index as int).status != EnvStatus::Free,
            old(self).env(env_index as int).asid < 256,
            old(pmap).is_page_kva(old(self).env(env_index as int).pgdir),
        ensures
            final(self).wf(),
            final(pmap).wf(),
            final(pool).wf(),
            final(self).env(env_index as int) == (EnvData { status: EnvStatus::Free, ..old(self).env(env_index as int) }),
            forall|i: int| 0 <= i < NENV && i != env_index ==> #[trigger] final(self).env(i) == old(self).env(i),
            final(self).free_envs() == seq![env_index] + old(self).free_envs(),
            final(self).sched() == if old(self).sched().contains(env_index) {
                old(self).sched().remove(old(self).sched().index_of(env_index))
            } else {
                old(self).sched()
            },
            forall|a: int| 0 <= a < 256 ==> #[trigger] final(self).asid_used(a) == (a != old(self).env(env_index as int).asid
                && old(self).asid_used(a)),
            final(self).counter() == old(self).counter(),
            final(self).cur() == old(self).cur(),
            final(self).base_pgdir() == old(self).base_pgdir(),
            final(self).rest_count() == old(self).rest_count(),
            only_released(*old(pmap), *final(pmap)),
            released_own(*old(pmap), *final(pmap), old(self).env(env_index as int).pgdir),
            forall|d: int| 0 <= d < 0x1fd ==> !entry_valid(
                #[trigger] final(pmap).mem()[Pmap::kva_page(old(self).env(env_index as int).pgdir as int) * 1024 + d],
            ),
            freed_space(*old(pmap), *final(pmap), old(self).env(env_index as int).pgdir),
            !final(self).sched().contains(env_index),
            tidy_space(*old(pmap), old(self).env(env_index as int).pgdir) ==> windows_flushed(
                *old(pmap),
                *final(pmap),
                old(self).env(env_index as int).pgdir,
                old(self).env(env_index as int).asid,
                0x1fd,
            ),
            final(pmap).tlb_requests().contains(tlb_entryhi(old(self).env(env_index as int).asid, (UVPT + 0x1ff * 4096) as usize)),
            destory_env_post(*old(pool), *final(pool), old(self).env(env_index as int).id as usize),
    {
        let d = self.data[env_index];
        let pgdir = d.pgdir;
        let asid = d.asid;
        let ghost pg = Pmap::kva_page(pgdir as int);
        let ghost o = *pmap;
        let ghost tidy = tidy_space(*pmap, pgdir);
        proof {
            lemma_released_refl(*pmap);
            pmap.lemma_wf_facts();
            assert(released_own(*pmap, *pmap, pgdir));
        }
        let top = pdx(UTOP);
        let mut pdeno: usize = 0;
        while pdeno < top
            invariant
                pmap.wf(),
                o == *old(pmap),
                tidy == tidy_space(o, pgdir),
                only_released(o, *pmap),
                released_own(o, *pmap, pgdir),
                pmap.npage() == o.npage(),
                pmap.is_page_kva(pgdir),
                pg == Pmap::kva_page(pgdir as int),
                pgdir == ULIM + pg * 4096,
                0 <= pg,
                pg * 1024 + 1024 <= pmap.mem().len(),
                top == 0x1fd,
                pdeno <= top,
                forall|j: int| 0 <= j < pdeno ==> !entry_valid(#[trigger] pmap.mem()[pg * 1024 + j]),
                forall|q: int|
                    0 <= q < o.npage() && o.ref_of(q) > 0 && #[trigger] pmap.ref_of(q) == 0 ==> pmap.free_list().contains(
                        q as usize,
                    ),
                tidy ==> forall|q: int|
                    0 <= q < o.npage() ==> #[trigger] pmap.ref_of(q) == o.ref_of(q) - mappings_of(o, pgdir, q, (pdeno * 1024) as nat)
                        - tables_of(o, pgdir, q, pdeno as nat),
                tidy ==> forall|j: int| pdeno <= j < 0x1fd ==> #[trigger] pmap.mem()[pg * 1024 + j] == o.mem()[pg * 1024 + j],
                tidy ==> windows_flushed(o, *pmap, pgdir, asid, pdeno as int),
                tidy ==> forall|j: int, x: int|
                    pdeno <= j < 0x1fd && 0 <= x < 1024 && entry_valid(pde_at(o, pgdir, j)) ==> #[trigger] pmap.mem()[entry_page(
                        pde_at(o, pgdir, j),
                    ) * 1024 + x] == pte_at(o, pgdir, j, x),
            decreases top - pdeno,
        {
            let pde = pmap.read_word(pgdir + pdeno * 4);
            if pde & PTE_V != 0 {
                let pa = (pde & !0xfffu32) as usize;
                let t = pa >> PGSHIFT;
                proof {
                    crate::utils::bits::lemma_u32_bits(pde);
                    crate::utils::bits::lemma_usize_bits((pde - pde % 4096) as usize);
                    assert(pa / 4096 == pde / 4096);
                    assert(pde == pmap.mem()[pg * 1024 + pdeno]);
                    lemma_valid_kept(o, *pmap, pg * 1024 + pdeno);
                    assert(pde == pde_at(o, pgdir, pdeno as int));
                    assert(t == entry_page(pde));
                }
                if t < pmap.page_count() {
                    let mut pteno: usize = 0;
                    while pteno < 1024
                        invariant
                            pmap.wf(),
                            o == *old(pmap),
                            tidy == tidy_space(o, pgdir),
                            only_released(o, *pmap),
                            released_own(o, *pmap, pgdir),
                            pmap.npage() == o.npage(),
                            entry_valid(pde),
                            pde == pde_at(o, pgdir, pdeno as int),
                            t == entry_page(pde),
                            pmap.is_page_kva(pgdir),
                            pgdir == ULIM + pg * 4096,
                            0 <= pg,
                            pg * 1024 + 1024 <= pmap.mem().len(),
                            top == 0x1fd,
                            pdeno < top,
                            t < pmap.npage(),
                            pa == t * 4096,
                            pteno <= 1024,
                            forall|j: int| 0 <= j < pdeno ==> !entry_valid(#[trigger] pmap.mem()[pg * 1024 + j]),
                            forall|q: int|
                                0 <= q < o.npage() && o.ref_of(q) > 0 && #[trigger] pmap.ref_of(q) == 0
                                    ==> pmap.free_list().contains(q as usize),
                            tidy ==> forall|q: int|
                                0 <= q < o.npage() ==> #[trigger] pmap.ref_of(q) == o.ref_of(q) - mappings_of(
                                    o,
                                    pgdir,
                                    q,
                                    (pdeno * 1024 + pteno) as nat,
                                ) - tables_of(o, pgdir, q, pdeno as nat),
                            tidy ==> forall|j: int| pdeno <= j < 0x1fd ==> #[trigger] pmap.mem()[pg * 1024 + j] == o.mem()[pg
                                * 1024 + j],
                            tidy ==> forall|x: int| pteno <= x < 1024 ==> #[trigger] pmap.mem()[t * 1024 + x] == pte_at(o, pgdir, pdeno as int, x),
                            tidy ==> windows_flushed(o, *pmap, pgdir, asid, pdeno as int),
                            tidy ==> forall|j: int, x: int|
                                pdeno < j < 0x1fd && 0 <= x < 1024 && entry_valid(pde_at(o, pgdir, j))
                                    ==> #[trigger] pmap.mem()[entry_page(pde_at(o, pgdir, j)) * 1024 + x] == pte_at(
                                    o,
                                    pgdir,
                                    j,
                                    x,
                                ),
                        decreases 1024 - pteno,
                    {
                        proof {
                            pmap.lemma_wf_facts();
                            assert(t * 1024 + 1024 <= pmap.mem().len()) by (nonlinear_arith)
                                requires
                                    t < pmap.npage(),
                                    pmap.mem().len() == pmap.npage() * 1024,
                            ;
                        }
                        let ghost kk: int = pdeno * 1024 + pteno;
                        proof {
                            assert(kk / 1024 == pdeno as int && kk % 1024 == pteno as int) by (nonlinear_arith)
                                requires
                                    kk == pdeno * 1024 + pteno,
                                    pteno < 1024,
                            ;
                        }
                        let ghost s_in = *pmap;
                        let pte = pmap.read_word(ULIM + pa + pteno * 4);
                        let mut removed = false;
                        if pte & PTE_V != 0 {
                            let va = (pdeno << PDSHIFT) | (pteno << PGSHIFT);
                            proof {
                                assert((pdeno << 22usize) | (pteno << 12usize) == pdeno * 0x40_0000 + pteno * 4096) by (bit_vector)
                                    requires
                                        pdeno < 0x1fd,
                                        pteno < 1024,
                                ;
                                assert(pdx_spec(va as int) == pdeno as int) by (nonlinear_arith)
                                    requires
                                        va == pdeno * 0x40_0000 + pteno * 4096,
                                        pdeno < 0x1fd,
                                        pteno < 1024,
                                ;
                                assert(ptx_spec(va as int) == pteno as int) by (nonlinear_arith)
                                    requires
                                        va == pdeno * 0x40_0000 + pteno * 4096,
                                        pteno < 1024,
                                ;
                            }
                            if pmap.walk_checked(pgdir, va) {
                                if let Some((p, _)) = pmap.page_lookup(pgdir, va) {
                                    proof {
                                        if tidy {
                                            assert(pmap.pde_of(pgdir, va) == pde);
                                            assert(pte == pte_at(o, pgdir, pdeno as int, pteno as int));
                                            assert(maps_at(o, pgdir, kk, p as int));
                                            assert(p < o.npage());
                                            lemma_mappings_mono(o, pgdir, p as int, (kk + 1) as nat, 0x1fd * 1024);
                                            lemma_tables_mono(o, pgdir, p as int, pdeno as nat, 0x1fd);
                                            assert(held_refs(o, pgdir, p as int) <= o.ref_of(p as int));
                                            assert(pmap.ref_of(p as int) > 0);
                                        }
                                    }
                                    if p < pmap.page_count() && pmap.page_ref(p) > 0 {
                                        let ghost s0 = *pmap;
                                        pmap.page_remove(pgdir, va, asid);
                                        removed = true;
                                        proof {
                                            s0.lemma_pte_index(pgdir, va);
                                            assert(only_released(s0, *pmap));
                                            lemma_released_trans(o, s0, *pmap);
                                            if tidy {
                                                lemma_windows_kept(o, s0, *pmap, pgdir, asid, pdeno as int);
                                            }
                                            lemma_valid_kept(o, s0, pg * 1024 + pdeno);
                                            assert(s0.pde_of(pgdir, va) == pde);
                                            let k = t * 1024 + pteno;
                                            assert(s0.pte_index(pgdir, va) == k);
                                            lemma_valid_kept(o, s0, k);
                                            assert(pte_at(o, pgdir, pdeno as int, pteno as int) == s0.mem()[k]);
                                            assert(env_holds_page(o, pgdir, p as int));
                                            lemma_release_step(o, s0, *pmap, pgdir, p);
                                            assert forall|q: int|
                                                0 <= q < o.npage() && o.ref_of(q) > 0 && #[trigger] pmap.ref_of(q) == 0
                                                    implies pmap.free_list().contains(q as usize) by {
                                                if q == p {
                                                    if s0.ref_of(q) == 1 {
                                                        assert(pmap.free_list()[0] == p);
                                                    } else {
                                                        assert(s0.ref_of(q) == 0);
                                                        assert(s0.free_list().contains(q as usize));
                                                        let w = s0.free_list().index_of(q as usize);
                                                        assert(pmap.free_list()[w] == q);
                                                    }
                                                } else {
                                                    assert(s0.free_list().contains(q as usize));
                                                    let w = s0.free_list().index_of(q as usize);
                                                    if s0.ref_of(p as int) == 1 {
                                                        assert(pmap.free_list()[w + 1] == q);
                                                    } else {
                                                        assert(pmap.free_list()[w] == q);
                                                    }
                                                }
                                            }
                                            if tidy {
                                                assert forall|q: int| 0 <= q < o.npage() implies #[trigger] pmap.ref_of(q)
                                                    == o.ref_of(q) - mappings_of(o, pgdir, q, (kk + 1) as nat) - tables_of(
                                                    o,
                                                    pgdir,
                                                    q,
                                                    pdeno as nat,
                                                ) by {
                                                    assert(mappings_of(o, pgdir, q, (kk + 1) as nat) == mappings_of(o, pgdir, q, kk as nat)
                                                        + if maps_at(o, pgdir, kk, q) { 1nat } else { 0nat });
                                                    assert(maps_at(o, pgdir, kk, q) <==> q == p);
                                                }
                                                assert forall|j: int| pdeno <= j < 0x1fd implies #[trigger] pmap.mem()[pg
                                                    * 1024 + j] == o.mem()[pg * 1024 + j] by {
                                                    assert(pg * 1024 + j != k);
                                                }
                                                assert forall|x: int| pteno + 1 <= x < 1024 implies #[trigger] pmap.mem()[t
                                                    * 1024 + x] == pte_at(o, pgdir, pdeno as int, x) by {
                                                    assert(s0.mem()[t * 1024 + x] == pte_at(o, pgdir, pdeno as int, x));
                                                }
                                                assert forall|j: int, x: int|
                                                    pdeno < j < 0x1fd && 0 <= x < 1024 && entry_valid(pde_at(o, pgdir, j))
                                                        implies #[trigger] pmap.mem()[entry_page(pde_at(o, pgdir, j)) * 1024
                                                    + x] == pte_at(o, pgdir, j, x) by {
                                                    assert(entry_page(pde_at(o, pgdir, j)) != t);
                                                    assert(s0.mem()[entry_page(pde_at(o, pgdir, j)) * 1024 + x] == pte_at(
                                                        o,
                                                        pgdir,
                                                        j,
                                                        x,
                                                    ));
                                                }
                                            }
                                        }
                                    }
                                }
                            }
                        }
                        proof {
                            if !removed && tidy {
                                assert(*pmap == s_in);
                                assert(pte == pte_at(o, pgdir, pdeno as int, pteno as int));
                                assert(!entry_valid(pte));
                                assert forall|q: int| 0 <= q < o.npage() implies #[trigger] pmap.ref_of(q) == o.ref_of(q)
                                    - mappings_of(o, pgdir, q, (kk + 1) as nat) - tables_of(o, pgdir, q, pdeno as nat) by {
                                    assert(!maps_at(o, pgdir, kk, q));
                                    assert(mappings_of(o, pgdir, q, (kk + 1) as nat) == mappings_of(o, pgdir, q, kk as nat));
                                }
                            }
                        }
                        pteno = pteno + 1;
                    }
                }
                let ghost s1 = *pmap;
                pmap.store_word(pgdir + pdeno * 4, 0);
                proof {
                    assert((pgdir + pdeno * 4 - ULIM) / 4 == pg * 1024 + pdeno) by (nonlinear_arith)
                        requires
                            pgdir == ULIM + pg * 4096,
                    ;
                    assert(only_released(s1, *pmap));
                    lemma_released_trans(o, s1, *pmap);
                                            if tidy {
                                                lemma_windows_kept(o, s1, *pmap, pgdir, asid, pdeno as int);
                                            }
                    crate::utils::bits::lemma_const_bits();
                    lemma_release_none(o, s1, *pmap, pgdir);
                    assert forall|q: int|
                        0 <= q < o.npage() && o.ref_of(q) > 0 && #[trigger] pmap.ref_of(q) == 0
                            implies pmap.free_list().contains(q as usize) by {
                        assert(s1.ref_of(q) == 0);
                    }
                    if tidy {
                        assert((pdeno * 1024 + 1024) as nat == ((pdeno + 1) * 1024) as nat);
                        assert forall|j: int| pdeno + 1 <= j < 0x1fd implies #[trigger] pmap.mem()[pg * 1024 + j]
                            == o.mem()[pg * 1024 + j] by {
                            assert(s1.mem()[pg * 1024 + j] == o.mem()[pg * 1024 + j]);
                        }
                        assert forall|j: int, x: int|
                            pdeno + 1 <= j < 0x1fd && 0 <= x < 1024 && entry_valid(pde_at(o, pgdir, j))
                                implies #[trigger] pmap.mem()[entry_page(pde_at(o, pgdir, j)) * 1024 + x] == pte_at(
                                o,
                                pgdir,
                                j,
                                x,
                            ) by {
                            let e = entry_page(pde_at(o, pgdir, j));
                            assert(e != pg);
                            assert(s1.mem()[e * 1024 + x] == pte_at(o, pgdir, j, x));
                            assert(e * 1024 + x != pg * 1024 + pdeno) by (nonlinear_arith)
                                requires
                                    e != pg,
                                    0 <= x < 1024,
                                    0 <= pdeno < 1024,
                            ;
                            assert(pmap.mem() == s1.mem().update(pg * 1024 + pdeno, 0u32));
                            pmap.lemma_wf_facts();
                            assert(e * 1024 + x < pmap.mem().len()) by (nonlinear_arith)
                                requires
                                    e < pmap.npage(),
                                    0 <= x < 1024,
                                    pmap.mem().len() == pmap.npage() * 1024,
                            ;
                            assert(pmap.mem()[e * 1024 + x] == s1.mem()[e * 1024 + x]);
                        }
                        assert(t < o.npage());
                        lemma_tables_mono(o, pgdir, t as int, (pdeno + 1) as nat, 0x1fd);
                        lemma_mappings_mono(o, pgdir, t as int, ((pdeno + 1) * 1024) as nat, 0x1fd * 1024);
                        assert(tables_of(o, pgdir, t as int, (pdeno + 1) as nat) == tables_of(o, pgdir, t as int, pdeno as nat) + 1);
                        assert(pmap.ref_of(t as int) > 0);
                    }
                }
                if t < pmap.page_count() && pmap.page_ref(t) > 0 {
                    let ghost s2 = *pmap;
                    proof {
                        pmap.lemma_referenced_not_free(t);
                    }
                    pmap.page_decref(t);
                    proof {
                        assert(only_released(s2, *pmap));
                        lemma_released_trans(o, s2, *pmap);
                                            if tidy {
                                                lemma_windows_kept(o, s2, *pmap, pgdir, asid, pdeno as int);
                                            }
                        assert(env_holds_page(o, pgdir, t as int));
                        lemma_release_step(o, s2, *pmap, pgdir, t);
                        assert forall|q: int|
                            0 <= q < o.npage() && o.ref_of(q) > 0 && #[trigger] pmap.ref_of(q) == 0
                                implies pmap.free_list().contains(q as usize) by {
                            if q == t {
                                if s2.ref_of(q) == 1 {
                                    assert(pmap.free_list()[0] == t);
                                } else {
                                    assert(s2.ref_of(q) == 0);
                                }
                            } else {
                                assert(s2.free_list().contains(q as usize));
                                let w = s2.free_list().index_of(q as usize);
                                if s2.ref_of(t as int) == 1 {
                                    assert(pmap.free_list()[w + 1] == q);
                                } else {
                                    assert(pmap.free_list()[w] == q);
                                }
                            }
                        }
                        if tidy {
                            assert forall|q: int| 0 <= q < o.npage() implies #[trigger] pmap.ref_of(q) == o.ref_of(q)
                                - mappings_of(o, pgdir, q, ((pdeno + 1) * 1024) as nat) - tables_of(o, pgdir, q, (pdeno + 1) as nat) by {
                                assert(tables_of(o, pgdir, q, (pdeno + 1) as nat) == tables_of(o, pgdir, q, pdeno as nat) + if (
                                entry_valid(pde_at(o, pgdir, pdeno as int)) && entry_page(pde_at(o, pgdir, pdeno as int)) == q) {
                                    1nat
                                } else {
                                    0nat
                                });
                            }
                        }
                    }
                }
                let ghost s3 = *pmap;
                proof {
                    crate::utils::bits::lemma_usize_bits(pdeno);
                }
                tlb_invalidate(pmap, asid, UVPT + (pdeno << PGSHIFT));
                proof {
                    assert(only_released(s3, *pmap));
                    lemma_released_trans(o, s3, *pmap);
                    lemma_release_none(o, s3, *pmap, pgdir);
                    if tidy {
                        lemma_windows_kept(o, s3, *pmap, pgdir, asid, pdeno as int);
                        assert(pmap.tlb_requests().last() == tlb_entryhi(asid, (UVPT + pdeno * 4096) as usize));
                        assert(pmap.tlb_requests().contains(tlb_entryhi(asid, (UVPT + pdeno * 4096) as usize)));
                        assert(pde_at(o, pgdir, pdeno as int) == pde);
                    }
                    assert forall|q: int|
                        0 <= q < o.npage() && o.ref_of(q) > 0 && #[trigger] pmap.ref_of(q) == 0
                            implies pmap.free_list().contains(q as usize) by {
                        assert(s3.ref_of(q) == 0);
                    }
                }
            } else {
                proof {
                    if tidy {
                        assert(pde == pmap.mem()[pg * 1024 + pdeno]);
                        assert(!entry_valid(pde_at(o, pgdir, pdeno as int)));
                        assert forall|q: int| 0 <= q < o.npage() implies #[trigger] pmap.ref_of(q) == o.ref_of(q)
                            - mappings_of(o, pgdir, q, ((pdeno + 1) * 1024) as nat) - tables_of(o, pgdir, q, (pdeno + 1) as nat) by {
                            lemma_no_mappings_behind(o, pgdir, q, pdeno as nat, 1024);
                            assert((pdeno * 1024 + 1024) as nat == ((pdeno + 1) * 1024) as nat);
                        }
                    }
                }
            }
            pdeno = pdeno + 1;
        }
        let off = pgdir - ULIM;
        let pg_exec = off >> PGSHIFT;
        proof {
            crate::utils::bits::lemma_usize_bits(off);
            if tidy {
                assert(pg_exec == pg);
                assert(held_refs(o, pgdir, pg) <= o.ref_of(pg));
                assert(pmap.ref_of(pg) > 0);
            }
        }
        if pmap.page_ref(pg_exec) > 0 {
            let ghost s4 = *pmap;
            proof {
                pmap.lemma_referenced_not_free(pg_exec);
            }
            pmap.page_decref(pg_exec);
            proof {
                assert(only_released(s4, *pmap));
                lemma_released_trans(o, s4, *pmap);
                                            if tidy {
                                                lemma_windows_kept(o, s4, *pmap, pgdir, asid, pdeno as int);
                                            }
                assert(pg_exec == pg);
                lemma_release_step(o, s4, *pmap, pgdir, pg_exec);
                assert forall|q: int|
                    0 <= q < o.npage() && o.ref_of(q) > 0 && #[trigger] pmap.ref_of(q) == 0
                        implies pmap.free_list().contains(q as usize) by {
                    if q == pg_exec {
                        if s4.ref_of(q) == 1 {
                            assert(pmap.free_list()[0] == pg_exec);
                        } else {
                            assert(s4.ref_of(q) == 0);
                        }
                    } else {
                        assert(s4.free_list().contains(q as usize));
                        let w = s4.free_list().index_of(q as usize);
                        if s4.ref_of(pg_exec as int) == 1 {
                            assert(pmap.free_list()[w + 1] == q);
                        } else {
                            assert(pmap.free_list()[w] == q);
                        }
                    }
                }
            }
        }
        proof {
            if tidy {
                assert forall|q: int| 0 <= q < o.npage() implies #[trigger] pmap.ref_of(q) == o.ref_of(q) - held_refs(o, pgdir, q) by {
                }
            }
        }
        self.asid_free(asid);
        let ghost s5 = *pmap;
        let vpd = pdx(UVPT);
        proof {
            crate::utils::bits::lemma_usize_bits(vpd);
        }
        tlb_invalidate(pmap, asid, UVPT + (vpd << PGSHIFT));
        proof {
            assert(only_released(s5, *pmap));
            lemma_released_trans(*old(pmap), s5, *pmap);
            lemma_release_none(*old(pmap), s5, *pmap, pgdir);
            if tidy {
                lemma_windows_kept(o, s5, *pmap, pgdir, asid, 0x1fd);
            }
            assert(vpd == 0x1ff);
            assert(pmap.tlb_requests().last() == tlb_entryhi(asid, (UVPT + 0x1ff * 4096) as usize));
            assert(pmap.tlb_requests().contains(tlb_entryhi(asid, (UVPT + 0x1ff * 4096) as usize)));
            assert forall|q: int|
                0 <= q < o.npage() && o.ref_of(q) > 0 && #[trigger] pmap.ref_of(q) == 0 implies pmap.free_list().contains(
                q as usize,
            ) by {
                assert(s5.ref_of(q) == 0);
            }
            assert(freed_space(o, *pmap, pgdir));
        }
        let ghost e0 = *self;
        proof {
            self.free_list.lemma_view_valid();
            self.sched_list.lemma_view_valid();
            assert(!self.free_list@.contains(env_index)) by {
                if self.free_list@.contains(env_index) {
                    let k = self.free_list@.index_of(env_index);
                    assert(self.data@[self.free_list@[k] as int].status == EnvStatus::Free);
                }
            }
        }
        proof {
            assert(self.env(env_index as int) == old(self).env(env_index as int));
        }
        let mut d = self.data[env_index];
        d.status = EnvStatus::Free;
        self.data.set(env_index, d);
        if self.sched_list.contains(env_index) {
            self.sched_list.remove(env_index);
        }
        self.free_list.insert_head(env_index);
        proof {
            self.free_list.lemma_view_valid();
            self.sched_list.lemma_view_valid();
            assert forall|k: int|
                0 <= k < self.free_list@.len() implies (#[trigger] self.data@[self.free_list@[k] as int]).status
                == EnvStatus::Free by {
                if k > 0 {
                    assert(self.free_list@[k] == e0.free_list@[k - 1]);
                    assert(e0.data@[e0.free_list@[k - 1] as int].status == EnvStatus::Free);
                }
            }
            assert forall|i: int|
                0 <= i < NENV implies (self.sched_list@.contains(i as usize) <==> (#[trigger] self.data@[i]).status
                == EnvStatus::Runnable) by {
                assert(e0.sched_list@.contains(i as usize) <==> e0.data@[i].status == EnvStatus::Runnable);
                if e0.sched_list@.contains(env_index) {
                    let s = e0.sched_list@;
                    let idx = s.index_of(env_index);
                    s.index_of_first(env_index);
                    if i != env_index {
                        if s.contains(i as usize) {
                            let j = s.index_of(i as usize);
                            assert(s.remove(idx).contains(i as usize)) by {
                                if j < idx {
                                    assert(s.remove(idx)[j] == i as usize);
                                } else {
                                    assert(s.remove(idx)[j - 1] == i as usize);
                                }
                            }
                        }
                    } else {
                        assert(!s.remove(idx).contains(env_index)) by {
                            if s.remove(idx).contains(env_index) {
                                let j = s.remove(idx).index_of(env_index);
                                if j < idx {
                                    assert(s[j] == env_index);
                                } else {
                                    assert(s[j + 1] == env_index);
                                }
                            }
                        }
                    }
                }
            }
        }
        proof {
            assert forall|i: int| 0 <= i < NENV && i != env_index implies #[trigger] self.env(i) == old(self).env(i) by {
                assert(e0.env(i) == old(self).env(i));
            }
            assert forall|a: int| 0 <= a < 256 implies #[trigger] self.asid_used(a) == (a != asid && old(self).asid_used(a)) by {
                assert(self.asid_used(a) == e0.asid_used(a));
            }
        }
        pool.destory_env(d.id as usize);
    }

    /// Destory the env `env_index` and free it. If it is the current env,
    /// there is no current env afterwards and `true` is returned: a
    /// re-schedule must follow.
    pub fn env_destory(&mut self, pmap: &mut Pmap, pool: &mut MemoryPool, env_index: usize) -> (r: bool)
        requires
            old(self).wf(),
            old(pmap).wf(),
            old(pool).wf(),
            env_index < NENV,
            old(self).env(env_index as int).status != EnvStatus::Free,
            old(self).env(env_index as int).asid < 256,
            old(pmap).is_page_kva(old(self).env(env_index as int).pgdir),
        ensures
            final(self).wf(),
            final(pmap).wf(),
            final(pool).wf(),
            r == (old(self).cur() == env_index),
            final(self).cur() == if r { NENV } else { old(self).cur() },
            final(self).env(env_index as int) == (EnvData { status: EnvStatus::Free, ..old(self).env(env_index as int) }),
            forall|i: int| 0 <= i < NENV && i != env_index ==> #[trigger] final(self).env(i) == old(self).env(i),
            final(self).free_envs() == seq![env_index] + old(self).free_envs(),
            final(self).sched() == if old(self).sched().contains(env_index) {
                old(self).sched().remove(old(self).sched().index_of(env_index))
            } else {
                old(self).sched()
            },
            forall|a: int| 0 <= a < 256 ==> #[trigger] final(self).asid_used(a) == (a != old(self).env(env_index as int).asid
                && old(self).asid_used(a)),
            final(self).counter() == old(self).counter(),
            final(self).base_pgdir() == old(self).base_pgdir(),
            final(self).rest_count() == old(self).rest_count(),
            only_released(*old(pmap), *final(pmap)),
            released_own(*old(pmap), *final(pmap), old(self).env(env_index as int).pgdir),
            forall|d: int| 0 <= d < 0x1fd ==> !entry_valid(
                #[trigger] final(pmap).mem()[Pmap::kva_page(old(self).env(env_index as int).pgdir as int) * 1024 + d],
            ),
            freed_space(*old(pmap), *final(pmap), old(self).env(env_index as int).pgdir),
            !final(self).sched().contains(env_index),
            tidy_space(*old(pmap), old(self).env(env_index as int).pgdir) ==> windows_flushed(
                *old(pmap),
                *final(pmap),
                old(self).env(env_index as int).pgdir,
                old(self).env(env_index as int).asid,
                0x1fd,
            ),
            final(pmap).tlb_requests().contains(tlb_entryhi(old(self).env(env_index as int).asid, (UVPT + 0x1ff * 4096) as usize)),
            destory_env_post(*old(pool), *final(pool), old(self).env(env_index as int).id as usize),
    {
        self.env_free(pmap, pool, env_index);
        let ghost s1 = *self;
        if self.cur == env_index {
            self.cur = NENV;
            proof {
                assert forall|i: int| 0 <= i < NENV implies #[trigger] self.env(i) == s1.env(i) by {}
                assert forall|a: int| 0 <= a < 256 implies #[trigger] self.asid_used(a) == s1.asid_used(a) by {}
            }
            true
        } else {
            false
        }
    }

    /// Run the env `env_index`. The trap frame `ktf` that the current env,
    /// if any, was interrupted with is saved into it; the chosen env becomes
    /// the current one and is counted as run once more. Returns the trap
    /// frame to restore and the ASID to run it with.
    pub fn env_run(&mut self, env_index: usize, ktf: &TrapFrame) -> (r: (TrapFrame, u32))
        requires
            old(self).wf(),
            env_index < NENV,
            old(self).env(env_index as int).status == EnvStatus::Runnable,
            old(self).env(env_index as int).env_runs < u32::MAX,
        ensures
            final(self).wf(),
            run_post(*old(self), *final(self), env_index, *ktf, r),
    {
        let cur_env_idx = self.cur;
        let ghost s0 = *self;
        if cur_env_idx != NENV {
            let mut d = self.data[cur_env_idx];
            d.trap_frame = *ktf;
            self.update_env(cur_env_idx, d);
        }
        let ghost s1 = *self;
        proof {
            assert(s1.env(env_index as int).env_runs == old(self).env(env_index as int).env_runs);
            assert(s1.env(env_index as int).status == EnvStatus::Runnable);
        }
        self.cur = env_index;
        proof {
            assert(self.wf());
        }
        let mut d = self.data[env_index];
        d.env_runs = d.env_runs + 1;
        self.update_env(env_index, d);
        proof {
            if old(self).cur() != NENV && old(self).cur() != env_index {
                assert(s1.env(old(self).cur() as int) == self.env(old(self).cur() as int));
            }
            assert forall|i: int| 0 <= i < NENV && i != env_index implies #[trigger] self.env(i) == s1.env(i) by {}
            assert forall|i: int| 0 <= i < NENV && i != env_index && i != old(self).cur() implies #[trigger] self.env(i)
                == old(self).env(i) by {
                assert(s1.env(i) == old(self).env(i));
            }
            assert forall|a: int| 0 <= a < 256 implies #[trigger] self.asid_used(a) == old(self).asid_used(a) by {
                assert(s1.asid_used(a) == old(self).asid_used(a));
            }
        }
        (self.data[env_index].trap_frame, self.data[env_index].asid)
    }

    /// The env [schedule](Envs::schedule) would run now.
    pub fn schedule_target(&self, yield_now: bool) -> (r: usize)
        requires
            self.wf(),
            self.sched().len() > 0,
        ensures
            r == schedule_choice(*self, yield_now),
            r < NENV,
    {
        let cur = self.cur;
        proof {
            self.sched_list.lemma_view_valid();
        }
        let head = match self.sched_list.peek_head() {
            Some(h) => h,
            None => {
                return cur;
            },
        };
        if !(yield_now || self.rest_count == 0 || cur == NENV || self.data[cur].status != EnvStatus::Runnable) {
            return cur;
        }
        let ghost s = self.sched_list@;
        if cur != NENV && self.data[cur].status == EnvStatus::Runnable {
            proof {
                assert(s.contains(cur));
                s.index_of_first(cur);
            }
            if head == cur {
                proof {
                    assert(s[0] == cur);
                    assert(s.index_of(cur) == 0);
                }
                match self.sched_list.next_of(cur) {
                    Some(n) => {
                        proof {
                            assert(s.remove(0).push(cur)[0] == s[1]);
                        }
                        n
                    },
                    None => {
                        proof {
                            assert(s.remove(0).push(cur)[0] == cur);
                        }
                        cur
                    },
                }
            } else {
                proof {
                    let k = s.index_of(cur);
                    assert(k != 0);
                    assert(s.remove(k).push(cur)[0] == s[0]);
                }
                head
            }
        } else {
            head
        }
    }

    /// Schedule the envs and run the chosen one, see
    /// [env_run](Envs::env_run). A new env is chosen if `yield_now` is set,
    /// the current env's time slices ran out, there is no current env, or
    /// it is not runnable; the current env, if runnable, is moved to the
    /// tail of the schedule list first, and the head of the list is chosen,
    /// with its priority as its time slices. One time slice is then used
    /// (wrapping around).
    ///
    /// The schedule list must not be empty.
    pub fn schedule(&mut self, yield_now: bool, ktf: &TrapFrame) -> (r: (TrapFrame, u32))
        requires
            old(self).wf(),
            old(self).sched().len() > 0,
            old(self).env(schedule_choice(*old(self), yield_now) as int).env_runs < u32::MAX,
        ensures
            final(self).wf(),
            exists|mid: Envs|
                {
                    &&& #[trigger] mid.wf()
                    &&& schedule_post(*old(self), mid, yield_now)
                    &&& run_post(mid, *final(self), schedule_choice(*old(self), yield_now), *ktf, r)
                },
    {
        let mut env = self.cur;
        proof {
            self.sched_list.lemma_view_valid();
        }
        if yield_now || self.rest_count == 0 || env == NENV || self.data[env].status != EnvStatus::Runnable {
            if env != NENV && self.data[env].status == EnvStatus::Runnable {
                let ghost s = self.sched_list@;
                proof {
                    assert(s.contains(env));
                }
                self.sched_list.remove(env);
                proof {
                    let idx = s.index_of(env);
                    s.index_of_first(env);
                    assert(!self.sched_list@.contains(env)) by {
                        if self.sched_list@.contains(env) {
                            let j = self.sched_list@.index_of(env);
                            if j < idx {
                                assert(s[j] == env);
                            } else {
                                assert(s[j + 1] == env);
                            }
                        }
                    }
                }
                self.sched_list.insert_tail(env);
                proof {
                    lemma_remove_push_same_members(s, env);
                }
            }
            env = match self.sched_list.peek_head() {
                Some(h) => h,
                None => {
                    return (*ktf, 0);
                },
            };
            proof {
                self.sched_list.lemma_view_valid();
                assert(self.sched_list@.contains(env));
            }
            self.rest_count = self.data[env].priority;
        }
        self.rest_count = self.rest_count.wrapping_sub(1);
        let ghost mid = *self;
        proof {
            assert(self.sched_list@.contains(env));
            assert(self.data@[env as int].status == EnvStatus::Runnable);
            assert(self.env(env as int) == old(self).env(env as int));
            assert(mid.wf());
            assert(mid.sched() =~= schedule_list(*old(self), yield_now));
            assert(env == schedule_choice(*old(self), yield_now));
            assert(schedule_post(*old(self), mid, yield_now));
        }
        let r = self.env_run(env, ktf);
        proof {
            assert(run_post(mid, *self, schedule_choice(*old(self), yield_now), *ktf, r));
        }
        r
    }

    /// Load the executable `binary` into the env `e`: each loadable segment
    /// is loaded into its address space, see [elf_load_seg], and its entry
    /// point becomes the env's program counter.
    ///
    /// `Err(KError::Invalid)` is returned, and nothing changes, if the binary
    /// is no ELF executable whose headers and segments lie within it, see
    /// [icode_ok]; an error of the loading is passed on.
    pub fn load_icode(&mut self, pmap: &mut Pmap, e: usize, binary: &[u8]) -> (r: Result<(), KError>)
        requires
            old(self).wf(),
            old(pmap).wf(),
            e < NENV,
            old(pmap).is_page_kva(old(self).env(e as int).pgdir),
        ensures
            final(self).wf(),
            final(pmap).wf(),
            final(pmap).npage() == old(pmap).npage(),
            !icode_ok(binary@) ==> {
                &&& r == Err::<(), KError>(KError::Invalid)
                &&& *final(self) == *old(self)
                &&& *final(pmap) == *old(pmap)
            },
            icode_ok(binary@) ==> exists|states: Seq<Pmap>|
                icode_loaded(
                    states,
                    *old(pmap),
                    *final(pmap),
                    old(self).env(e as int).pgdir,
                    old(self).env(e as int).asid,
                    binary@,
                    r,
                ),
            r is Ok ==> final(self).env(e as int) == (EnvData {
                trap_frame: TrapFrame { cp0_epc: le32(binary@, 24), ..old(self).env(e as int).trap_frame },
                ..old(self).env(e as int)
            }),
            r is Ok ==> only_env_changed(*old(self), *final(self), e as int),
            r is Ok ==> r == Ok::<(), KError>(()),
            r is Err ==> *final(self) == *old(self),
    {
        if !icode_valid(binary) {
            return Err(KError::Invalid);
        }
        let ehdr = match Elf32Ehdr::from(binary) {
            Some(h) => h,
            None => {
                return Err(KError::Invalid);
            },
        };
        let offs = ehdr.foreach();
        let pgdir = self.data[e].pgdir;
        let asid = self.data[e].asid;
        let ghost mut states: Seq<Pmap> = seq![*pmap];
        let mut idx: usize = 0;
        while idx < offs.len()
            invariant
                *self == *old(self),
                self.wf(),
                e < NENV,
                pgdir == old(self).env(e as int).pgdir,
                asid == old(self).env(e as int).asid,
                pmap.wf(),
                pmap.npage() == old(pmap).npage(),
                pmap.is_page_kva(pgdir),
                icode_ok(binary@),
                ehdr.phnum == crate::process::elf_loader::le16(binary@, 44),
                ehdr.phoff == le32(binary@, 28),
                ehdr.phentsize == crate::process::elf_loader::le16(binary@, 42),
                offs@ == Seq::new(ehdr.phnum as nat, |k: int| (ehdr.phoff + k * ehdr.phentsize) as u32),
                idx <= offs@.len(),
                states.len() == idx + 1,
                states[0] == *old(pmap),
                states[states.len() - 1] == *pmap,
                forall|k: int|
                    0 <= k < states.len() - 1 ==> crate::process::elf_loader::ph_loaded(
                        #[trigger] states[k],
                        states[k + 1],
                        pgdir,
                        asid,
                        binary@,
                        k,
                        Ok(()),
                    ),
            decreases offs@.len() - idx,
        {
            let off = offs[idx];
            proof {
                assert(off as int == ph_off(binary@, idx as int)) by {
                    assert(ehdr.phoff + idx * ehdr.phentsize <= ehdr.phoff + ehdr.phnum * ehdr.phentsize)
                        by (nonlinear_arith)
                        requires
                            idx < ehdr.phnum,
                    ;
                }
            }
            let ghost before = *pmap;
            let res = crate::process::elf_loader::load_ph(pmap, pgdir, asid, binary, idx, off);
            proof {
                let old_states = states;
                states = states.push(*pmap);
                assert(crate::process::elf_loader::ph_loaded(before, *pmap, pgdir, asid, binary@, idx as int, res));
                assert forall|k: int| 0 <= k < states.len() - 1 implies crate::process::elf_loader::ph_loaded(
                    #[trigger] states[k],
                    states[k + 1],
                    pgdir,
                    asid,
                    binary@,
                    k,
                    if k == states.len() - 2 {
                        res
                    } else {
                        Ok(())
                    },
                ) by {
                    if k < states.len() - 2 {
                        assert(states[k] == old_states[k]);
                        assert(states[k + 1] == old_states[k + 1]);
                    }
                }
            }
            if res.is_err() {
                proof {
                    assert(icode_loaded(states, *old(pmap), *pmap, pgdir, asid, binary@, res));
                }
                return res;
            }
            proof {
                assert(res == Ok::<(), KError>(()));
                assert forall|k: int| 0 <= k < states.len() - 1 implies crate::process::elf_loader::ph_loaded(
                    #[trigger] states[k],
                    states[k + 1],
                    pgdir,
                    asid,
                    binary@,
                    k,
                    Ok(()),
                ) by {
                    assert((if k == states.len() - 2 {
                        res
                    } else {
                        Ok(())
                    }) == Ok::<(), KError>(()));
                }
            }
            idx = idx + 1;
        }
        proof {
            assert(icode_loaded(states, *old(pmap), *pmap, pgdir, asid, binary@, Ok(())));
        }
        let mut d = self.data[e];
        d.trap_frame.cp0_epc = ehdr.entry;
        self.update_env(e, d);
        Ok(())
    }

    /// Set the status of the live env `e` to `status`, which is not
    /// [EnvStatus::Free]: a newly runnable env is put at the tail of the
    /// schedule list, one no longer runnable is taken off it.
    pub fn set_status(&mut self, e: usize, status: EnvStatus)
        requires
            old(self).wf(),
            e < NENV,
            status != EnvStatus::Free,
            old(self).env(e as int).status != EnvStatus::Free || !old(self).free_envs().contains(e),
        ensures
            final(self).wf(),
            final(self).env(e as int) == (EnvData { status, ..old(self).env(e as int) }),
            forall|i: int| 0 <= i < NENV && i != e ==> #[trigger] final(self).env(i) == old(self).env(i),
            final(self).sched() == if old(self).env(e as int).status == status {
                old(self).sched()
            } else if status == EnvStatus::Runnable {
                old(self).sched().push(e)
            } else if old(self).env(e as int).status == EnvStatus::Runnable {
                old(self).sched().remove(old(self).sched().index_of(e))
            } else {
                old(self).sched()
            },
            final(self).free_envs() == old(self).free_envs(),
            forall|a: int| 0 <= a < 256 ==> #[trigger] final(self).asid_used(a) == old(self).asid_used(a),
            final(self).counter() == old(self).counter(),
            final(self).cur() == old(self).cur(),
            final(self).base_pgdir() == old(self).base_pgdir(),
            final(self).rest_count() == old(self).rest_count(),
    {
        proof {
            self.sched_list.lemma_view_valid();
            self.free_list.lemma_view_valid();
        }
        let old_status = self.data[e].status;
        if old_status == status {
            proof {
                assert(self.data@[e as int] == (EnvData { status, ..old(self).env(e as int) }));
            }
            return;
        }
        if status == EnvStatus::Runnable {
            self.sched_list.insert_tail(e);
        } else if old_status == EnvStatus::Runnable {
            self.sched_list.remove(e);
        }
        let ghost s1 = *self;
        let mut d = self.data[e];
        d.status = status;
        self.data.set(e, d);
        proof {
            let s0 = old(self).sched_list@;
            assert forall|k: int|
                0 <= k < self.free_list@.len() implies (#[trigger] self.data@[self.free_list@[k] as int]).status
                == EnvStatus::Free by {
                assert(old(self).data@[self.free_list@[k] as int].status == EnvStatus::Free);
                if self.free_list@[k] == e {
                    assert(old(self).free_list@.contains(e));
                }
            }
            assert forall|i: int|
                0 <= i < NENV implies (self.sched_list@.contains(i as usize) <==> (#[trigger] self.data@[i]).status
                == EnvStatus::Runnable) by {
                assert(s0.contains(i as usize) <==> old(self).data@[i].status == EnvStatus::Runnable);
                if status == EnvStatus::Runnable {
                    if s0.contains(i as usize) {
                        let j = s0.index_of(i as usize);
                        assert(self.sched_list@[j] == i as usize);
                    }
                    if i != e && self.sched_list@.contains(i as usize) {
                        let j = self.sched_list@.index_of(i as usize);
                        assert(s0[j] == i as usize);
                    }
                    assert(self.sched_list@[self.sched_list@.len() - 1] == e);
                } else if old_status == EnvStatus::Runnable {
                    let idx = s0.index_of(e);
                    s0.index_of_first(e);
                    if i != e {
                        if s0.contains(i as usize) {
                            let j = s0.index_of(i as usize);
                            if j < idx {
                                assert(self.sched_list@[j] == i as usize);
                            } else {
                                assert(self.sched_list@[j - 1] == i as usize);
                            }
                        }
                        if self.sched_list@.contains(i as usize) {
                            let j = self.sched_list@.index_of(i as usize);
                            if j < idx {
                                assert(s0[j] == i as usize);
                            } else {
                                assert(s0[j + 1] == i as usize);
                            }
                        }
                    } else {
                        assert(!self.sched_list@.contains(e)) by {
                            if self.sched_list@.contains(e) {
                                let j = self.sched_list@.index_of(e);
                                if j < idx {
                                    assert(s0[j] == e);
                                } else {
                                    assert(s0[j + 1] == e);
                                }
                            }
                        }
                    }
                }
            }
        }
    }

    /// Make the env `e` runnable: it is put at the head of the schedule
    /// list.
    fn make_runnable(&mut self, e: usize)
        requires
            old(self).wf(),
            e < NENV,
            old(self).env(e as int).status != EnvStatus::Runnable,
            old(self).env(e as int).status == EnvStatus::Free ==> !old(self).free_envs().contains(e),
        ensures
            final(self).wf(),
            final(self).env(e as int) == (EnvData { status: EnvStatus::Runnable, ..old(self).env(e as int) }),
            forall|i: int| 0 <= i < NENV && i != e ==> #[trigger] final(self).env(i) == old(self).env(i),
            final(self).sched() == seq![e] + old(self).sched(),
            final(self).free_envs() == old(self).free_envs(),
            forall|a: int| 0 <= a < 256 ==> #[trigger] final(self).asid_used(a) == old(self).asid_used(a),
            final(self).counter() == old(self).counter(),
            final(self).cur() == old(self).cur(),
            final(self).base_pgdir() == old(self).base_pgdir(),
            final(self).rest_count() == old(self).rest_count(),
    {
        proof {
            self.sched_list.lemma_view_valid();
            self.free_list.lemma_view_valid();
            assert(!self.sched_list@.contains(e));
        }
        let mut d = self.data[e];
        d.status = EnvStatus::Runnable;
        self.data.set(e, d);
        self.sched_list.insert_head(e);
        proof {
            assert forall|k: int|
                0 <= k < self.free_list@.len() implies (#[trigger] self.data@[self.free_list@[k] as int]).status
                == EnvStatus::Free by {
                assert(old(self).data@[self.free_list@[k] as int].status == EnvStatus::Free);
                if self.free_list@[k] == e {
                    assert(old(self).free_list@.contains(e));
                }
            }
            assert forall|i: int|
                0 <= i < NENV implies (self.sched_list@.contains(i as usize) <==> (#[trigger] self.data@[i]).status
                == EnvStatus::Runnable) by {
                assert(old(self).sched_list@.contains(i as usize) <==> old(self).data@[i].status
                    == EnvStatus::Runnable);
                if i != e {
                    if self.sched_list@.contains(i as usize) {
                        let j = self.sched_list@.index_of(i as usize);
                        assert(old(self).sched_list@[j - 1] == i as usize);
                    }
                    if old(self).sched_list@.contains(i as usize) {
                        let j = old(self).sched_list@.index_of(i as usize);
                        assert(self.sched_list@[j + 1] == i as usize);
                    }
                } else {
                    assert(self.sched_list@[0] == e);
                }
            }
        }
    }

    /// Create an env with the priority `priority` and load the executable
    /// `binary`, which must be a loadable ELF executable ([icode_ok]), into
    /// it, see [load_icode](Envs::load_icode); it is put at the head of the
    /// schedule list. Returns its index, or `None` if no env could be
    /// allocated, or a segment could not be mapped, which is a kernel panic.
    pub fn env_create(&mut self, pmap: &mut Pmap, binary: &[u8], priority: u32) -> (r: Option<usize>)
        requires
            icode_ok(binary@),
            old(self).wf(),
            old(pmap).wf(),
            old(pmap).is_page_kva(old(self).base_pgdir()),
            !old(pmap).is_free(Pmap::kva_page(old(self).base_pgdir() as int) as usize),
        ensures
            final(self).wf(),
            final(pmap).wf(),
            final(pmap).npage() == old(pmap).npage(),
            old(self).free_envs().len() == 0 ==> r is None,
            r is None ==> {
                ||| old(self).free_envs().len() == 0
                ||| old(pmap).free_list().len() == 0
                ||| (forall|a: int| 0 <= a < 256 ==> #[trigger] old(self).asid_used(a))
                ||| exists|m: Pmap, states: Seq<Pmap>, err: KError|
                    {
                        &&& #[trigger] icode_loaded(
                            states,
                            m,
                            *final(pmap),
                            final(self).env(old(self).free_envs()[0] as int).pgdir,
                            final(self).env(old(self).free_envs()[0] as int).asid,
                            binary@,
                            Err(err),
                        )
                        &&& m.npage() == old(pmap).npage()
                        &&& m.free_list() == old(pmap).free_list().drop_first()
                        &&& m.tlb_requests() == old(pmap).tlb_requests()
                        &&& m.mem() == env_vm_mem(
                            old(pmap).mem(),
                            Pmap::kva_page(old(self).base_pgdir() as int),
                            old(pmap).free_list()[0] as int,
                        )
                        &&& forall|q: int| 0 <= q < m.npage() ==> #[trigger] m.ref_of(q) == if q == old(pmap).free_list()[0] {
                            1u16
                        } else {
                            old(pmap).ref_of(q)
                        }
                    }
            },
            r matches Some(e) ==> {
                &&& e == old(self).free_envs()[0]
                &&& icode_ok(binary@)
                &&& final(self).free_envs() == old(self).free_envs().drop_first()
                &&& final(self).sched() == seq![e] + old(self).sched()
                &&& final(self).env(e as int).status == EnvStatus::Runnable
                &&& final(self).env(e as int).priority == priority
                &&& final(self).env(e as int).parent_id == 0
                &&& final(self).env(e as int).trap_frame.cp0_epc == le32(binary@, 24)
                &&& forall|i: int| 0 <= i < NENV && i != e ==> #[trigger] final(self).env(i) == old(self).env(i)
                &&& exists|m: Pmap, states: Seq<Pmap>|
                    #[trigger] icode_loaded(
                        states,
                        m,
                        *final(pmap),
                        final(self).env(e as int).pgdir,
                        final(self).env(e as int).asid,
                        binary@,
                        Ok(()),
                    )
            },
    {
        proof {
            pmap.lemma_wf_facts();
            if old(pmap).free_list().len() > 0 {
                assert(old(pmap).is_free(old(pmap).free_list()[0]));
            }
        }
        let e = match self.env_alloc(pmap, 0) {
            Ok(e) => e,
            Err(_) => {
                return None;
            },
        };
        let ghost s1 = *self;
        proof {
            assert(pmap.is_page_kva(self.env(e as int).pgdir));
        }
        let mut d = self.data[e];
        d.priority = priority;
        self.update_env(e, d);
        let ghost s2 = *self;
        let ghost m = *pmap;
        let lr = self.load_icode(pmap, e, binary);
        if lr.is_err() {
            proof {
                if icode_ok(binary@) {
                    let st = choose|st: Seq<Pmap>|
                        icode_loaded(st, m, *pmap, s2.env(e as int).pgdir, s2.env(e as int).asid, binary@, lr);
                    assert(self.env(e as int) == s2.env(e as int));
                    assert(icode_loaded(
                        st,
                        m,
                        *pmap,
                        self.env(old(self).free_envs()[0] as int).pgdir,
                        self.env(old(self).free_envs()[0] as int).asid,
                        binary@,
                        Err(lr->Err_0),
                    ));
                }
            }
            return None;
        }
        let ghost s3 = *self;
        let ghost st = choose|st: Seq<Pmap>| icode_loaded(st, m, *pmap, s2.env(e as int).pgdir, s2.env(e as int).asid, binary@, lr);
        proof {
            assert(icode_loaded(st, m, *pmap, s2.env(e as int).pgdir, s2.env(e as int).asid, binary@, Ok(())));
        }
        proof {
            old(self).free_list.lemma_view_valid();
            assert(self.free_list@ == old(self).free_list@.drop_first());
            assert(!self.free_list@.contains(e)) by {
                if self.free_list@.contains(e) {
                    let j = self.free_list@.index_of(e);
                    assert(old(self).free_list@[j + 1] == e);
                }
            }
        }
        self.make_runnable(e);
        proof {
            assert forall|i: int| 0 <= i < NENV && i != e implies #[trigger] self.env(i) == old(self).env(i) by {
                assert(s3.env(i) == s2.env(i));
                assert(s2.env(i) == s1.env(i));
            }
            assert(self.env(e as int).pgdir == s2.env(e as int).pgdir);
            assert(self.env(e as int).asid == s2.env(e as int).asid);
            assert(icode_loaded(st, m, *pmap, self.env(e as int).pgdir, self.env(e as int).asid, binary@, Ok(())));
        }
        Some(e)
    }

    /// Map the `size` bytes of physical memory at `pa` to `va` under the
    /// page directory at `pgdir`, page by page, in the address space `asid`
    /// with the permission `perm`, see [page_insert](Pmap::page_insert).
    ///
    /// The first failure stops the mapping: `Err(KError::Invalid)` if a page
    /// is out of memory or holds no reference, or the mapping it would
    /// replace cannot be dropped safely; `Err(KError::NoMem)` if a page table
    /// cannot be had.
    #[verifier::rlimit(60)]
    #[verifier::spinoff_prover]
    pub fn map_segment(pmap: &mut Pmap, pgdir: usize, asid: u32, pa: usize, va: usize, size: usize, perm: u32) -> (r: Result<(), KError>)
        requires
            old(pmap).wf(),
            old(pmap).is_page_kva(pgdir),
            pa % 4096 == 0,
            va % 4096 == 0,
            size % 4096 == 0,
            pa + size <= usize::MAX,
            va + size <= usize::MAX,
        ensures
            final(pmap).wf(),
            final(pmap).npage() == old(pmap).npage(),
            exists|states: Seq<Pmap>| segment_mapped(states, *old(pmap), *final(pmap), pgdir, asid, pa, va, size, perm, r),
            r is Ok ==> r == Ok::<(), KError>(()),
    {
        let ghost mut states: Seq<Pmap> = seq![*pmap];
        let mut i: usize = 0;
        let ghost mut n: int = 0;
        while i < size
            invariant
                pmap.wf(),
                pmap.npage() == old(pmap).npage(),
                pmap.is_page_kva(pgdir),
                pa + size <= usize::MAX,
                va + size <= usize::MAX,
                size % 4096 == 0,
                i == n * 4096,
                i <= size,
                states.len() == n + 1,
                states[0] == *old(pmap),
                states[states.len() - 1] == *pmap,
                forall|k: int|
                    0 <= k < states.len() - 1 ==> map_step(
                        #[trigger] states[k],
                        states[k + 1],
                        pgdir,
                        asid,
                        seg_va(va, k),
                        perm,
                        seg_page(pa, k),
                        Ok(()),
                    ),
            decreases size - i,
        {
            let res = Self::map_one(pmap, pgdir, asid, va + i, perm, (pa + i) / PAGE_SIZE);
            proof {
                assert(seg_va(va, n) == va + i);
                assert(seg_page(pa, n) == (pa + i) / 4096);
                let old_states = states;
                states = states.push(*pmap);
                assert forall|j: int| 0 <= j < states.len() - 1 implies map_step(
                    #[trigger] states[j],
                    states[j + 1],
                    pgdir,
                    asid,
                    seg_va(va, j),
                    perm,
                    seg_page(pa, j),
                    if j == states.len() - 2 {
                        res
                    } else {
                        Ok(())
                    },
                ) by {
                    if j < states.len() - 2 {
                        assert(states[j] == old_states[j]);
                        assert(states[j + 1] == old_states[j + 1]);
                    }
                }
            }
            if res.is_err() {
                proof {
                    assert(n < size / 4096);
                    assert(segment_mapped(states, *old(pmap), *pmap, pgdir, asid, pa, va, size, perm, res));
                }
                return res;
            }
            proof {
                assert forall|j: int| 0 <= j < states.len() - 1 implies map_step(
                    #[trigger] states[j],
                    states[j + 1],
                    pgdir,
                    asid,
                    seg_va(va, j),
                    perm,
                    seg_page(pa, j),
                    Ok(()),
                ) by {
                    assert((if j == states.len() - 2 {
                        res
                    } else {
                        Ok(())
                    }) == Ok::<(), KError>(()));
                }
            }
            i = i + PAGE_SIZE;
            proof {
                n = n + 1;
            }
        }
        proof {
            assert(n == size / 4096);
            assert(segment_mapped(states, *old(pmap), *pmap, pgdir, asid, pa, va, size, perm, Ok(())));
        }
        Ok(())
    }

    /// Map the page `pp` at `va`, see [map_step].
    pub(crate) fn map_one(pmap: &mut Pmap, pgdir: usize, asid: u32, va: usize, perm: u32, pp: usize) -> (r: Result<(), KError>)
        requires
            old(pmap).wf(),
            old(pmap).is_page_kva(pgdir),
        ensures
            final(pmap).wf(),
            final(pmap).npage() == old(pmap).npage(),
            map_step(*old(pmap), *final(pmap), pgdir, asid, va, perm, pp, r),
            r is Ok ==> r == Ok::<(), KError>(()),
    {
        proof {
            reveal(map_step);
        }
        if pp < pmap.page_count() && pmap.page_ref(pp) > 0 && pmap.can_insert(pgdir, va, pp) {
            proof {
                pmap.lemma_referenced_not_free(pp);
            }
            pmap.page_insert(pgdir, va, asid, perm, pp)
        } else {
            Err(KError::Invalid)
        }
    }

    /// Init the env table: every env is free and in the free list, in
    /// index order; then the base page directory is made, see [base_vm]:
    /// it is set only when that succeeded, and an error of it is passed on.
    pub fn env_init(&mut self, pmap: &mut Pmap, pages_pa: usize, envs_pa: usize) -> (r: Result<(), KError>)
        requires
            old(self).wf(),
            old(self).free_envs().len() == 0,
            old(self).sched().len() == 0,
            old(pmap).wf(),
            pages_pa % 4096 == 0,
            envs_pa % 4096 == 0,
            pages_pa + round_up_spec(old(pmap).npage() * PAGE_NODE_SIZE, 4096) <= usize::MAX,
            envs_pa + round_up_spec(NENV * ENV_DATA_SIZE, 4096) <= usize::MAX,
        ensures
            final(self).wf(),
            final(pmap).wf(),
            final(pmap).npage() == old(pmap).npage(),
            final(self).free_envs() == Seq::new(NENV as nat, |k: int| k as usize),
            final(self).sched().len() == 0,
            forall|i: int| 0 <= i < NENV ==> #[trigger] final(self).env(i) == (EnvData {
                status: EnvStatus::Free,
                ..old(self).env(i)
            }),
            forall|a: int| 0 <= a < 256 ==> #[trigger] final(self).asid_used(a) == old(self).asid_used(a),
            final(self).counter() == old(self).counter(),
            final(self).cur() == old(self).cur(),
            final(self).rest_count() == old(self).rest_count(),
            exists|b: Result<usize, KError>|
                {
                    &&& #[trigger] base_vm_post(*old(pmap), *final(pmap), pages_pa, envs_pa, b)
                    &&& (b matches Ok(base) ==> r is Ok && final(self).base_pgdir() == base)
                    &&& (b matches Err(e) ==> r == Err::<(), KError>(e) && final(self).base_pgdir()
                        == old(self).base_pgdir())
                },
    {
        self.free_all();
        let ghost e1 = *self;
        let res = base_vm(pmap, pages_pa, envs_pa);
        proof {
            assert(base_vm_post(*old(pmap), *pmap, pages_pa, envs_pa, res));
        }
        match res {
            Ok(base) => {
                self.base_pgdir = base;
                proof {
                    assert forall|j: int| 0 <= j < NENV implies #[trigger] self.env(j) == e1.env(j) by {}
                    assert forall|a: int| 0 <= a < 256 implies #[trigger] self.asid_used(a) == e1.asid_used(a) by {}
                }
                Ok(())
            },
            Err(e) => Err(e),
        }
    }

    /// Mark every env free and put them all into the free list, in index
    /// order.
    fn free_all(&mut self)
        requires
            old(self).wf(),
            old(self).free_envs().len() == 0,
            old(self).sched().len() == 0,
        ensures
            final(self).wf(),
            final(self).free_envs() == Seq::new(NENV as nat, |k: int| k as usize),
            final(self).sched().len() == 0,
            forall|i: int| 0 <= i < NENV ==> #[trigger] final(self).env(i) == (EnvData {
                status: EnvStatus::Free,
                ..old(self).env(i)
            }),
            forall|a: int| 0 <= a < 256 ==> #[trigger] final(self).asid_used(a) == old(self).asid_used(a),
            final(self).counter() == old(self).counter(),
            final(self).cur() == old(self).cur(),
            final(self).rest_count() == old(self).rest_count(),
            final(self).base_pgdir() == old(self).base_pgdir(),
    {
        let mut i: usize = NENV;
        while i > 0
            invariant
                self.wf(),
                i <= NENV,
                self.sched().len() == 0,
                self.free_envs() == Seq::new((NENV - i) as nat, |k: int| (k + i) as usize),
                forall|j: int| 0 <= j < i ==> #[trigger] self.env(j) == old(self).env(j),
                forall|j: int| i <= j < NENV ==> #[trigger] self.env(j) == (EnvData {
                    status: EnvStatus::Free,
                    ..old(self).env(j)
                }),
                forall|a: int| 0 <= a < 256 ==> #[trigger] self.asid_used(a) == old(self).asid_used(a),
                self.counter() == old(self).counter(),
                self.cur() == old(self).cur(),
                self.rest_count() == old(self).rest_count(),
                self.base_pgdir() == old(self).base_pgdir(),
            decreases i,
        {
            i = i - 1;
            let ghost s0 = *self;
            let mut d = self.data[i];
            d.status = EnvStatus::Free;
            proof {
                assert(!self.sched_list@.contains(i));
                assert(!self.free_list@.contains(i)) by {
                    if self.free_list@.contains(i) {
                        let k = self.free_list@.index_of(i);
                        assert(self.free_list@[k] == (k + i + 1) as usize);
                    }
                }
            }
            self.data.set(i, d);
            self.free_list.insert_head(i);
            proof {
                assert forall|k: int|
                    0 <= k < self.free_list@.len() implies (#[trigger] self.data@[self.free_list@[k] as int]).status
                    == EnvStatus::Free by {
                    if k > 0 {
                        assert(self.free_list@[k] == s0.free_list@[k - 1]);
                        assert(s0.data@[s0.free_list@[k - 1] as int].status == EnvStatus::Free);
                    }
                }
                assert forall|j: int|
                    0 <= j < NENV implies (self.sched_list@.contains(j as usize) <==> (#[trigger] self.data@[j]).status
                    == EnvStatus::Runnable) by {
                    assert(s0.sched_list@.contains(j as usize) <==> s0.data@[j].status == EnvStatus::Runnable);
                }
                assert(self.free_list@ =~= Seq::new((NENV - i) as nat, |k: int| (k + i) as usize));
                assert forall|a: int| 0 <= a < 256 implies #[trigger] self.asid_used(a) == old(self).asid_used(a) by {
                    assert(s0.asid_used(a) == old(self).asid_used(a));
                }
                assert forall|j: int| 0 <= j < i implies #[trigger] self.env(j) == old(self).env(j) by {
                    assert(s0.env(j) == old(self).env(j));
                }
                assert forall|j: int| i <= j < NENV implies #[trigger] self.env(j) == (EnvData {
                    status: EnvStatus::Free,
                    ..old(self).env(j)
                }) by {
                    if j > i {
                        assert(s0.env(j) == self.env(j));
                    }
                }
            }
        }
        proof {
            assert(self.free_list@ =~= Seq::new(NENV as nat, |k: int| k as usize));
        }
    }

    /// Make a new env id for the env with the index `index`, from the id
    /// counter, which moves on (wrapping around).
    pub fn mkenvid(&mut self, index: usize) -> (r: u32)
        requires
            old(self).wf(),
            index < NENV,
        ensures
            final(self).wf(),
            r == envid_of(old(self).counter(), index),
            final(self).counter() == old(self).counter().wrapping_add(1),
            *final(self) == old(self).with_counter(final(self).counter()),
    {
        let env_i = self.env_i;
        self.env_i = env_i.wrapping_add(1);
        (env_i << (1 + LOG2NENV)) | index as u32
    }
}

/// Law: an env id names the env it was made for: its low bits are the
/// env's index, see [mkenvid](Envs::mkenvid) and [envx].
pub proof fn law_envid_names_index(counter: u32, index: usize)
    requires
        index < NENV,
    ensures
        (envid_of(counter, index) as usize) % NENV == index,
{
    let i = index as u32;
    assert(((counter << 11u32) | i) % 1024 == i) by (bit_vector)
        requires
            i < 1024,
    ;
}

/// Law: a live env is found by its own nonzero id when no permission is
/// checked, see [envid2env](Envs::envid2env); the id zero names the
/// current env.
pub proof fn law_envid2env_finds_env(envs: Envs, counter: u32, index: usize)
    requires
        index < NENV,
        envs.env(index as int).status != EnvStatus::Free,
        envs.env(index as int).id == envid_of(counter, index),
        envid_of(counter, index) != 0,
    ensures
        envs.envid2env_spec(envid_of(counter, index), false) == Ok::<usize, KError>(index),
        envs.envid2env_spec(0, false) == Ok::<usize, KError>(envs.cur()),
{
    law_envid_names_index(counter, index);
}

/// Law: freeing the ASID just allocated gives back the ASID bitmap as it
/// was, see [asid_alloc](Envs::asid_alloc) and [asid_free](Envs::asid_free).
pub proof fn law_asid_alloc_then_free(before: Envs, allocated: Envs, freed: Envs, a: u32)
    requires
        a < 256,
        !before.asid_used(a as int),
        forall|j: int| 0 <= j < 256 ==> #[trigger] allocated.asid_used(j) == (j == a || before.asid_used(j)),
        forall|j: int| 0 <= j < 256 ==> #[trigger] freed.asid_used(j) == (j != a && allocated.asid_used(j)),
    ensures
        forall|j: int| 0 <= j < 256 ==> #[trigger] freed.asid_used(j) == before.asid_used(j),
{
    assert forall|j: int| 0 <= j < 256 implies #[trigger] freed.asid_used(j) == before.asid_used(j) by {
        assert(allocated.asid_used(j) == (j == a || before.asid_used(j)));
    }
}

} // verus!
