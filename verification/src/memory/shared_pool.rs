//! The shared memory pools: more than one page can be shared between envs.
//!
//! A pool holds a list of page indexes and remembers the envs bound to it.
//! Each binding of an env counts one reference; the pool is destroyed when
//! its last reference goes away. A pool also carries a write lock, held by at
//! most one env at a time.

use vstd::prelude::*;
use std::collections::BTreeMap;
use crate::consts::error::KError;

verus! {

/// The log of the count of envs; pool ids keep an env index in their low
/// `LOG2NENV + 1` bits.
pub const POOL_ID_SHIFT: usize = 11;

/// The mathematical view of a pool entry.
pub struct PoolView {
    /// The page indexes shared by the pool.
    pub pages: Seq<usize>,
    /// Every env that has been bound to the pool, in order of binding.
    pub envs: Seq<usize>,
    /// The count of live bindings.
    pub reference: nat,
    /// The env holding the write lock, or zero when the pool is unlocked.
    pub locker: usize,
}

/// Memory pool entry. Contains the pages it shares and the envs attached to
/// it, a reference count and a write lock.
pub struct MemoryPoolEntry {
    /// List of page *indexes* shared by this pool.
    pages: Vec<usize>,
    /// List of envs bound to this pool.
    envs: Vec<usize>,
    /// The reference count of this pool. The pool is destroyed when the
    /// reference goes *zero*.
    reference: usize,
    /// Write lock: the env id which locked it, or *zero* when unlocked.
    write_lock: usize,
}

impl View for MemoryPoolEntry {
    type V = PoolView;

    closed spec fn view(&self) -> PoolView {
        PoolView {
            pages: self.pages@,
            envs: self.envs@,
            reference: self.reference as nat,
            locker: self.write_lock,
        }
    }
}

/// The sequence `s` without the occurrences of `x`.
pub open spec fn without(s: Seq<usize>, x: usize) -> Seq<usize> {
    s.filter(|y: usize| y != x)
}

/// Without `x`, a sequence keeps every other element and loses `x`.
proof fn lemma_without(s: Seq<usize>, x: usize)
    ensures
        !without(s, x).contains(x),
        forall|y: usize| y != x && s.contains(y) ==> #[trigger] without(s, x).contains(y),
        forall|y: usize| #[trigger] without(s, x).contains(y) ==> s.contains(y),
        s.no_duplicates() ==> without(s, x).no_duplicates(),
    decreases s.len(),
{
    reveal(Seq::filter);
    if s.len() > 0 {
        lemma_without(s.drop_last(), x);
        let t = without(s.drop_last(), x);
        assert(without(s, x) == if s.last() != x { t.push(s.last()) } else { t });
        assert forall|y: usize| y != x && s.contains(y) implies #[trigger] without(s, x).contains(y) by {
            let i = s.index_of(y);
            if i < s.len() - 1 {
                assert(s.drop_last()[i] == y);
                assert(s.drop_last().contains(y));
                assert(t.contains(y));
                let j = t.index_of(y);
                assert(t[j] == y);
                if s.last() != x {
                    assert(t.push(s.last())[j] == t[j]);
                }
                assert(without(s, x)[j] == y);
            } else {
                assert(without(s, x)[without(s, x).len() - 1] == y);
            }
        }
        assert forall|y: usize| #[trigger] without(s, x).contains(y) implies s.contains(y) by {
            let j = without(s, x).index_of(y);
            if j < t.len() {
                assert(t[j] == y);
                assert(t.contains(y));
                let i = s.drop_last().index_of(y);
                assert(s[i] == y);
            } else {
                assert(s[s.len() - 1] == y);
            }
        }
        if s.no_duplicates() && s.last() != x {
            assert(s.drop_last().no_duplicates());
            assert(!t.contains(s.last())) by {
                if t.contains(s.last()) {
                    let i = s.drop_last().index_of(s.last());
                    assert(s[i] == s[s.len() - 1]);
                }
            }
        }
    } else {
        assert(without(s, x) =~= s);
    }
}

/// The vector `v` without the occurrences of `x`.
fn vec_without(v: &Vec<usize>, x: usize) -> (r: Vec<usize>)
    ensures
        r@ == without(v@, x),
{
    let mut r: Vec<usize> = Vec::new();
    let mut i: usize = 0;
    while i < v.len()
        invariant
            i <= v@.len(),
            r@ == without(v@.subrange(0, i as int), x),
        decreases v@.len() - i,
    {
        proof {
            reveal(Seq::filter);
            assert(v@.subrange(0, i + 1).drop_last() =~= v@.subrange(0, i as int));
            assert(v@.subrange(0, i + 1).last() == v@[i as int]);
        }
        if v[i] != x {
            r.push(v[i]);
        }
        i = i + 1;
    }
    proof {
        assert(v@.subrange(0, v@.len() as int) =~= v@);
    }
    r
}

/// Whether `x` occurs in the vector `v`.
fn vec_contains(v: &Vec<usize>, x: usize) -> (r: bool)
    ensures
        r == v@.contains(x),
{
    let mut i: usize = 0;
    while i < v.len()
        invariant
            i <= v@.len(),
            forall|j: int| 0 <= j < i ==> v@[j] != x,
        decreases v@.len() - i,
    {
        if v[i] == x {
            assert(v@[i as int] == x);
            return true;
        }
        i = i + 1;
    }
    false
}

/// The view of a freshly created pool: nothing shared, nobody bound,
/// unlocked.
pub open spec fn empty_pool_view() -> PoolView {
    PoolView { pages: Seq::empty(), envs: Seq::empty(), reference: 0, locker: 0 }
}

impl MemoryPoolEntry {
    /// Create a new pool.
    pub fn new() -> (r: Self)
        ensures
            r@ == empty_pool_view(),
    {
        MemoryPoolEntry { reference: 0, pages: Vec::new(), envs: Vec::new(), write_lock: 0 }
    }

    /// Decrease the reference of the pool for the env `envid`, releasing the
    /// lock if that env holds it. `Ok(true)` is returned when the reference
    /// drops to *zero*; an env never bound to the pool gets
    /// `Err(KError::PoolNotBind)`.
    fn deref(&mut self, envid: usize) -> (r: Result<bool, KError>)
        requires
            old(self)@.envs.contains(envid) ==> old(self)@.reference > 0,
        ensures
            !old(self)@.envs.contains(envid) ==> r == Err::<bool, KError>(KError::PoolNotBind)
                && *final(self) == *old(self),
            old(self)@.envs.contains(envid) ==> r == Ok::<bool, KError>(
                old(self)@.reference == 1,
            ) && final(self)@ == unbound_view(old(self)@, envid),
    {
        if !vec_contains(&self.envs, envid) {
            Err(KError::PoolNotBind)
        } else {
            self.envs = vec_without(&self.envs, envid);
            self.reference = self.reference - 1;
            if self.write_lock == envid {
                self.write_lock = 0;
            }
            Ok(self.reference == 0)
        }
    }

    /// Try to lock the pool for `envid`. The lock is taken, and `true`
    /// returned, if and only if the pool was unlocked.
    pub fn lock(&mut self, envid: usize) -> (r: bool)
        ensures
            r == (old(self)@.locker == 0),
            final(self)@ == (PoolView {
                locker: if r {
                    envid
                } else {
                    old(self)@.locker
                },
                ..old(self)@
            }),
    {
        if self.write_lock == 0 {
            self.write_lock = envid;
            true
        } else {
            false
        }
    }

    /// Unlock the pool. Only the env who locked it can unlock it.
    ///
    /// `Err(KError::NoLock)` is returned when the pool was not locked and
    /// `Err(KError::LockByOthers)` when another env holds the lock.
    pub fn unlock(&mut self, envid: usize) -> (r: Result<(), KError>)
        ensures
            r == (if old(self)@.locker == envid {
                Ok::<(), KError>(())
            } else if old(self)@.locker == 0 {
                Err(KError::NoLock)
            } else {
                Err(KError::LockByOthers)
            }),
            final(self)@ == (PoolView {
                locker: if r is Ok {
                    0
                } else {
                    old(self)@.locker
                },
                ..old(self)@
            }),
    {
        if self.write_lock == envid {
            self.write_lock = 0;
            return Ok(());
        }
        if self.write_lock == 0 {
            Err(KError::NoLock)
        } else {
            Err(KError::LockByOthers)
        }
    }
}

/// The view of a pool after one more env, `e`, is bound to it.
pub open spec fn bound_view(pv: PoolView, e: usize) -> PoolView {
    PoolView { envs: pv.envs.push(e), reference: pv.reference + 1, ..pv }
}

/// The view of a pool after the env `e` has given up its binding: `e` is
/// no longer listed, the reference drops by one, and the lock is released if
/// `e` holds it.
pub open spec fn unbound_view(pv: PoolView, e: usize) -> PoolView {
    PoolView {
        envs: without(pv.envs, e),
        reference: (pv.reference - 1) as nat,
        locker: if pv.locker == e {
            0
        } else {
            pv.locker
        },
        ..pv
    }
}

/// The envs whose pool lists (in `m`) contain the pool `p`.
pub open spec fn holders(m: Map<usize, Seq<usize>>, p: usize) -> Set<usize> {
    m.dom().filter(|e: usize| m[e].contains(p))
}

/// Replacing an env's list adds at most that env to the holders of a pool,
/// and only if the new list holds the pool.
proof fn lemma_holders_insert(m: Map<usize, Seq<usize>>, e: usize, s: Seq<usize>, p: usize)
    requires
        m.dom().finite(),
    ensures
        holders(m.insert(e, s), p).finite(),
        holders(m, p).finite(),
        s.contains(p) ==> holders(m.insert(e, s), p).len() <= holders(m, p).len() + 1,
        !s.contains(p) ==> holders(m.insert(e, s), p).len() <= holders(m, p).len(),
{
    let h = holders(m, p);
    let h2 = holders(m.insert(e, s), p);
    m.dom().lemma_len_filter(|x: usize| m[x].contains(p));
    assert(m.insert(e, s).dom() =~= m.dom().insert(e));
    m.insert(e, s).dom().lemma_len_filter(|x: usize| m.insert(e, s)[x].contains(p));
    if s.contains(p) {
        assert(h2.subset_of(h.insert(e)));
        vstd::set_lib::lemma_len_subset(h2, h.insert(e));
    } else {
        assert(h2.subset_of(h));
        vstd::set_lib::lemma_len_subset(h2, h);
    }
}

/// Removing an env's list removes that env from the holders of every pool.
proof fn lemma_holders_remove(m: Map<usize, Seq<usize>>, e: usize, p: usize)
    requires
        m.dom().finite(),
    ensures
        holders(m.remove(e), p) == holders(m, p).remove(e),
        holders(m, p).finite(),
{
    m.dom().lemma_len_filter(|x: usize| m[x].contains(p));
    assert(holders(m.remove(e), p) =~= holders(m, p).remove(e));
}

/// The id of the pool created by the `i`-th creation for the env `envid`.
pub open spec fn pool_id_spec(i: usize, envid: usize) -> usize {
    (i << 11usize) | (envid & 1023usize)
}

/// The largest creation counter for which pool ids stay distinct.
pub open spec fn max_pool_counter() -> usize {
    0x1f_ffff
}

/// The creation counter encoded in a pool id.
pub open spec fn pool_counter_of(id: usize) -> usize {
    id >> 11usize
}

/// The creation counter can be read back from a pool id.
proof fn lemma_pool_id_counter(i: usize, envid: usize)
    requires
        i <= 0x1f_ffffusize,
    ensures
        pool_counter_of(pool_id_spec(i, envid)) == i,
{
    assert(((i << 11usize) | (envid & 1023usize)) >> 11usize == i) by (bit_vector)
        requires
            i <= 0x1f_ffffusize,
    ;
}

/// Spawn the unique id of a new pool from the creation counter `pool_i` and
/// the creating env.
fn mkpoolid(pool_i: usize, envid: usize) -> (r: usize)
    ensures
        r == pool_id_spec(pool_i, envid),
{
    (pool_i << POOL_ID_SHIFT) | (envid & 1023)
}

/// What [destory_env](MemoryPool::destory_env) does to the pool manager
/// `pre`, leaving `post`, for the env `envid`.
pub open spec fn destory_env_post(pre: MemoryPool, post: MemoryPool, envid: usize) -> bool {
    &&& (post.counter() == pre.counter())
    &&& (post.env_pools() == pre.env_pools().remove(envid))
    &&& (!pre.env_pools().contains_key(envid) ==> post.pools_view() == pre.pools_view())
    &&& (pre.env_pools().contains_key(envid) ==> forall|p: usize|
        #![trigger post.pools_view().contains_key(p)]
        #![trigger pre.pools_view().contains_key(p)]
        {
            &&& post.pools_view().contains_key(p) <==> pre.pools_view().contains_key(p)
                && !(pre.env_pools()[envid].contains(p) && pre.pools_view()[p].reference == 1)
            &&& post.pools_view().contains_key(p) ==> post.pools_view()[p]
                == if pre.env_pools()[envid].contains(p) {
                unbound_view(pre.pools_view()[p], envid)
            } else {
                pre.pools_view()[p]
            }
        })
}

/// Memory pool manager. Supports every operation needed on the pools.
pub struct MemoryPool {
    /// The memory pools: from pool id to [MemoryPoolEntry].
    pools: BTreeMap<usize, MemoryPoolEntry>,
    /// The pools each env is bound to, from env id to pool ids.
    envs: BTreeMap<usize, Vec<usize>>,
    /// The creation counter for [mkpoolid], starting at one.
    pool_i: usize,
}

impl MemoryPool {
    /// The pools, from pool id to the pool's view.
    pub closed spec fn pools_view(&self) -> Map<usize, PoolView> {
        self.pools@.map_values(|e: MemoryPoolEntry| e@)
    }

    /// The pools each env is bound to.
    pub closed spec fn env_pools(&self) -> Map<usize, Seq<usize>> {
        self.envs@.map_values(|v: Vec<usize>| v@)
    }

    /// The creation counter the next created pool will use.
    pub closed spec fn counter(&self) -> usize {
        self.pool_i
    }

    /// Well-formedness: no env is bound twice to a pool, every pool an env
    /// is bound to exists and lists that env, each pool's reference covers
    /// its live bindings, and every pool id was made from an earlier value of
    /// the creation counter.
    pub closed spec fn wf(&self) -> bool {
        &&& self.envs@.dom().finite()
        &&& self.pools@.dom().finite()
        &&& 1 <= self.pool_i
        &&& forall|e: usize|
            #[trigger] self.envs@.contains_key(e) ==> self.envs@[e]@.no_duplicates()
        &&& forall|e: usize, p: usize|
            #[trigger] self.envs@.contains_key(e) && #[trigger] self.envs@[e]@.contains(p)
                ==> self.pools@.contains_key(p) && self.pools@[p]@.envs.contains(e)
        &&& forall|p: usize|
            #[trigger] self.pools@.contains_key(p) ==> self.pools@[p]@.reference >= holders(
                self.env_pools(),
                p,
            ).len()
        &&& forall|p: usize|
            #[trigger] self.pools@.contains_key(p) ==> pool_counter_of(p) < self.pool_i
    }

    /// Create a new pool manager.
    pub fn new() -> (r: Self)
        ensures
            r.wf(),
            r.pools_view() == Map::<usize, PoolView>::empty(),
            r.env_pools() == Map::<usize, Seq<usize>>::empty(),
            r.counter() == 1,
    {
        let r = MemoryPool { pools: BTreeMap::new(), envs: BTreeMap::new(), pool_i: 1 };
        proof {
            assert(r.env_pools() =~= Map::<usize, Seq<usize>>::empty());
            assert(r.pools_view() =~= Map::<usize, PoolView>::empty());
        }
        r
    }

    /// The reference count of the pool `poolid`, or `None` if it does not
    /// exist.
    pub fn reference_of(&self, poolid: usize) -> (r: Option<usize>)
        ensures
            self.pools_view().contains_key(poolid) ==> r == Some(self.pools_view()[poolid].reference as usize)
                && self.pools_view()[poolid].reference <= usize::MAX,
            !self.pools_view().contains_key(poolid) ==> r is None,
    {
        match self.pools.get(&poolid) {
            Some(entry) => Some(entry.reference),
            None => None,
        }
    }

    /// Whether a new pool can still get an id that no other pool had.
    pub fn can_create(&self) -> (r: bool)
        ensures
            r == (self.counter() < max_pool_counter()),
    {
        self.pool_i < 0x1f_ffff
    }

    /// Get a new pool id and create a new, empty pool with it. The id is
    /// made of the creation counter and the low bits of the creating env's
    /// id, and names no pool that exists.
    pub fn crate_pool(&mut self, envid: usize) -> (r: usize)
        requires
            old(self).wf(),
            old(self).counter() < max_pool_counter(),
        ensures
            final(self).wf(),
            r == pool_id_spec(old(self).counter(), envid),
            !old(self).pools_view().contains_key(r),
            final(self).pools_view() == old(self).pools_view().insert(r, empty_pool_view()),
            final(self).env_pools() == old(self).env_pools(),
            final(self).counter() == old(self).counter() + 1,
    {
        let id = mkpoolid(self.pool_i, envid);
        proof {
            lemma_pool_id_counter(self.pool_i, envid);
            if self.pools@.contains_key(id) {
                assert(pool_counter_of(id) < self.pool_i);
            }
        }
        let ghost old_env_pools = self.env_pools();
        self.pools.insert(id, MemoryPoolEntry::new());
        self.pool_i = self.pool_i + 1;
        proof {
            assert(self.env_pools() == old_env_pools);
            assert(self.pools_view() =~= old(self).pools_view().insert(id, empty_pool_view()));
            assert forall|p: usize| #[trigger] self.pools@.contains_key(p) implies self.pools@[p]@.reference
                >= holders(self.env_pools(), p).len() by {
                if p == id {
                    assert(holders(self.env_pools(), p) =~= Set::empty()) by {
                        assert forall|e: usize| !#[trigger] holders(self.env_pools(), p).contains(e) by {
                            if self.envs@.contains_key(e) && self.envs@[e]@.contains(p) {
                                assert(old(self).pools@.contains_key(p));
                            }
                        }
                    }
                }
            }
        }
        id
    }

    /// Insert a page into a pool. If the pool is not found,
    /// `Err(KError::PoolNotFound)` is returned.
    pub fn insert_page(&mut self, poolid: usize, pageid: usize) -> (r: Result<(), KError>)
        requires
            old(self).wf(),
        ensures
            final(self).wf(),
            final(self).env_pools() == old(self).env_pools(),
            final(self).counter() == old(self).counter(),
            !old(self).pools_view().contains_key(poolid) ==> r == Err::<(), KError>(
                KError::PoolNotFound,
            ) && final(self).pools_view() == old(self).pools_view(),
            old(self).pools_view().contains_key(poolid) ==> r == Ok::<(), KError>(())
                && final(self).pools_view() == old(self).pools_view().insert(
                poolid,
                PoolView {
                    pages: old(self).pools_view()[poolid].pages.push(pageid),
                    ..old(self).pools_view()[poolid]
                },
            ),
    {
        match self.pools.remove(&poolid) {
            None => {
                proof {
                    assert(self.pools@ =~= old(self).pools@);
                }
                Err(KError::PoolNotFound)
            },
            Some(mut pool) => {
                pool.pages.push(pageid);
                self.pools.insert(poolid, pool);
                proof {
                    assert(self.pools@.dom() =~= old(self).pools@.dom());
                    assert(self.pools_view() =~= old(self).pools_view().insert(
                        poolid,
                        PoolView {
                            pages: old(self).pools_view()[poolid].pages.push(pageid),
                            ..old(self).pools_view()[poolid]
                        },
                    ));
                    assert forall|e: usize, p: usize|
                        #[trigger] self.envs@.contains_key(e) && #[trigger] self.envs@[e]@.contains(p)
                        implies self.pools@.contains_key(p) && self.pools@[p]@.envs.contains(e) by {
                        assert(old(self).pools@.contains_key(p));
                    }
                    assert forall|p: usize| #[trigger] self.pools@.contains_key(p) implies self.pools@[p]@.reference
                        >= holders(self.env_pools(), p).len() by {
                        assert(old(self).pools@.contains_key(p));
                    }
                }
                Ok(())
            },
        }
    }

    /// Bind the forked child env `child_id` to the pools of its parent
    /// `envid`.
    ///
    /// Since the parent's pages are duplicated into the child when forked,
    /// the child is bound to each of the parent's pools, and the reference
    /// of each of them is increased. The child's own list of pools becomes a
    /// copy of its parent's.
    pub fn fork_bind(&mut self, child_id: usize, envid: usize)
        requires
            old(self).wf(),
            old(self).env_pools().contains_key(envid) ==> forall|p: usize|
                #[trigger] old(self).env_pools()[envid].contains(p)
                    ==> old(self).pools_view()[p].reference < usize::MAX,
        ensures
            final(self).wf(),
            final(self).counter() == old(self).counter(),
            !old(self).env_pools().contains_key(envid) ==> final(self).env_pools() == old(
                self,
            ).env_pools() && final(self).pools_view() == old(self).pools_view(),
            old(self).env_pools().contains_key(envid) ==> {
                &&& final(self).env_pools() == old(self).env_pools().insert(
                    child_id,
                    old(self).env_pools()[envid],
                )
                &&& final(self).pools_view().dom() == old(self).pools_view().dom()
                &&& forall|p: usize|
                    #[trigger] old(self).pools_view().contains_key(p) ==> final(self).pools_view()[p]
                        == if old(self).env_pools()[envid].contains(p) {
                        bound_view(old(self).pools_view()[p], child_id)
                    } else {
                        old(self).pools_view()[p]
                    }
            },
    {
        let parent = self.envs.get(&envid);
        match parent {
            None => {
                proof {
                    assert(!old(self).env_pools().contains_key(envid));
                }
            },
            Some(list) => {
                let v = list.clone();
                let ghost vs = v@;
                proof {
                    assert(vs =~= old(self).envs@[envid]@);
                    assert(old(self).env_pools().contains_key(envid));
                    assert(old(self).env_pools()[envid] == vs);
                }
                let mut k: usize = 0;
                while k < v.len()
                    invariant
                        old(self).wf(),
                        vs == v@,
                        vs == old(self).envs@[envid]@,
                        old(self).envs@.contains_key(envid),
                        vs.no_duplicates(),
                        k <= vs.len(),
                        self.envs@ == old(self).envs@,
                        self.pool_i == old(self).pool_i,
                        self.pools@.dom() == old(self).pools@.dom(),
                        forall|p: usize|
                            #[trigger] vs.contains(p) ==> old(self).pools@[p]@.reference < usize::MAX,
                        forall|p: usize|
                            #[trigger] old(self).pools@.contains_key(p) ==> self.pools@[p]@ == if vs.take(
                                k as int,
                            ).contains(p) {
                                bound_view(old(self).pools@[p]@, child_id)
                            } else {
                                old(self).pools@[p]@
                            },
                    decreases vs.len() - k,
                {
                    let p = v[k];
                    proof {
                        assert(vs.contains(p));
                        assert(old(self).pools@.contains_key(p));
                        assert(!vs.take(k as int).contains(p)) by {
                            if vs.take(k as int).contains(p) {
                                let j = vs.take(k as int).index_of(p);
                                vs.take(k as int).index_of_first(p);
                                assert(vs[j] == vs[k as int]);
                            }
                        }
                        assert(vs.take(k as int + 1) =~= vs.take(k as int).push(p));
                    }
                    let ghost pre = self.pools@;
                    let ghost tk = vs.take(k as int);
                    let mut e = self.pools.remove(&p).unwrap();
                    e.reference = e.reference + 1;
                    e.envs.push(child_id);
                    self.pools.insert(p, e);
                    k = k + 1;
                    proof {
                        assert(self.pools@.dom() =~= old(self).pools@.dom());
                        assert forall|q: usize| #[trigger] old(self).pools@.contains_key(q) implies self.pools@[q]@
                            == if vs.take(k as int).contains(q) {
                            bound_view(old(self).pools@[q]@, child_id)
                        } else {
                            old(self).pools@[q]@
                        } by {
                            assert(vs.take(k as int) == tk.push(p));
                            if q != p {
                                assert(pre[q]@ == if tk.contains(q) {
                                    bound_view(old(self).pools@[q]@, child_id)
                                } else {
                                    old(self).pools@[q]@
                                });
                                assert(tk.push(p).contains(q) ==> tk.contains(q)) by {
                                    if tk.push(p).contains(q) {
                                        let j = tk.push(p).index_of(q);
                                        tk.push(p).index_of_first(q);
                                        assert(j < tk.len());
                                        assert(tk[j] == q);
                                    }
                                }
                                assert(tk.contains(q) ==> tk.push(p).contains(q)) by {
                                    if tk.contains(q) {
                                        let j = tk.index_of(q);
                                        tk.index_of_first(q);
                                        assert(tk.push(p)[j] == q);
                                    }
                                }
                            } else {
                                assert(tk.push(p)[tk.len() as int] == p);
                            }
                        }
                    }
                }
                proof {
                    assert(vs.take(vs.len() as int) =~= vs);
                }
                let ghost mid_env_pools = self.env_pools();
                self.envs.insert(child_id, v);
                proof {
                    let m0 = old(self).env_pools();
                    assert(m0.dom() =~= old(self).envs@.dom());
                    assert(mid_env_pools =~= m0);
                    assert(self.env_pools() =~= m0.insert(child_id, vs));
                    assert(self.pools_view().dom() =~= old(self).pools_view().dom());
                    assert forall|e: usize| #[trigger] self.envs@.contains_key(e) implies self.envs@[e]@.no_duplicates() by {
                        if e != child_id {
                            assert(old(self).envs@.contains_key(e));
                        }
                    }
                    assert forall|e: usize, p: usize|
                        #[trigger] self.envs@.contains_key(e) && #[trigger] self.envs@[e]@.contains(p)
                        implies self.pools@.contains_key(p) && self.pools@[p]@.envs.contains(e) by {
                        if e == child_id {
                            assert(vs.contains(p));
                            assert(old(self).pools@.contains_key(p));
                            assert(self.pools@[p]@.envs == old(self).pools@[p]@.envs.push(child_id));
                            assert(self.pools@[p]@.envs[self.pools@[p]@.envs.len() - 1] == child_id);
                        } else {
                            assert(old(self).envs@.contains_key(e));
                            assert(old(self).envs@[e]@.contains(p));
                            assert(old(self).pools@.contains_key(p));
                            assert(old(self).pools@[p]@.envs.contains(e));
                            if vs.contains(p) {
                                let j = old(self).pools@[p]@.envs.index_of(e);
                                old(self).pools@[p]@.envs.index_of_first(e);
                                assert(self.pools@[p]@.envs[j] == e);
                            }
                        }
                    }
                    assert forall|p: usize| #[trigger] self.pools@.contains_key(p) implies self.pools@[p]@.reference
                        >= holders(self.env_pools(), p).len() by {
                        assert(old(self).pools@.contains_key(p));
                        lemma_holders_insert(m0, child_id, vs, p);
                    }
                    assert forall|p: usize| #[trigger] old(self).pools_view().contains_key(p) implies self.pools_view()[p]
                        == if old(self).env_pools()[envid].contains(p) {
                        bound_view(old(self).pools_view()[p], child_id)
                    } else {
                        old(self).pools_view()[p]
                    } by {
                        assert(old(self).pools@.contains_key(p));
                    }
                }
            },
        }
    }

    /// Bind the env `envid` to the pool `poolid`, and hand back the pages the
    /// pool shares.
    ///
    /// `Err(KError::PoolNotFound)` is returned if the pool does not exist and
    /// `Err(KError::PoolDoubleBind)` if the env has ever been bound to it.
    pub fn bind(&mut self, poolid: usize, envid: usize) -> (r: Result<&Vec<usize>, KError>)
        requires
            old(self).wf(),
            old(self).pools_view().contains_key(poolid) ==> old(self).pools_view()[poolid].reference
                < usize::MAX,
        ensures
            final(self).wf(),
            final(self).counter() == old(self).counter(),
            !old(self).pools_view().contains_key(poolid) ==> r == Err::<&Vec<usize>, KError>(
                KError::PoolNotFound,
            ),
            old(self).pools_view().contains_key(poolid) && old(self).pools_view()[poolid].envs.contains(
                envid,
            ) ==> r == Err::<&Vec<usize>, KError>(KError::PoolDoubleBind),
            r is Err ==> final(self).pools_view() == old(self).pools_view() && final(self).env_pools()
                == old(self).env_pools(),
            old(self).pools_view().contains_key(poolid) && !old(self).pools_view()[poolid].envs.contains(
                envid,
            ) ==> {
                &&& r matches Ok(pages) && pages@ == old(self).pools_view()[poolid].pages
                &&& final(self).pools_view() == old(self).pools_view().insert(
                    poolid,
                    bound_view(old(self).pools_view()[poolid], envid),
                )
                &&& final(self).env_pools() == old(self).env_pools().insert(
                    envid,
                    if old(self).env_pools().contains_key(envid) {
                        old(self).env_pools()[envid].push(poolid)
                    } else {
                        seq![poolid]
                    },
                )
            },
    {
        match self.pools.remove(&poolid) {
            None => {
                proof {
                    assert(self.pools@ =~= old(self).pools@);
                }
                Err(KError::PoolNotFound)
            },
            Some(mut pool) => {
                if vec_contains(&pool.envs, envid) {
                    self.pools.insert(poolid, pool);
                    proof {
                        assert(self.pools@ =~= old(self).pools@);
                    }
                    return Err(KError::PoolDoubleBind);
                }
                pool.envs.push(envid);
                pool.reference = pool.reference + 1;
                self.pools.insert(poolid, pool);
                let ghost m0 = old(self).env_pools();
                let ghost new_list = if m0.contains_key(envid) {
                    m0[envid].push(poolid)
                } else {
                    seq![poolid]
                };
                proof {
                    assert(self.env_pools() =~= m0);
                    assert(m0.dom() =~= old(self).envs@.dom());
                    if m0.contains_key(envid) {
                        assert(old(self).envs@.contains_key(envid));
                        assert(!m0[envid].contains(poolid));
                    }
                }
                match self.envs.remove(&envid) {
                    None => {
                        let mut nv: Vec<usize> = Vec::new();
                        nv.push(poolid);
                        self.envs.insert(envid, nv);
                    },
                    Some(mut v) => {
                        v.push(poolid);
                        self.envs.insert(envid, v);
                    },
                }
                proof {
                    assert(self.env_pools() =~= m0.insert(envid, new_list));
                    assert(self.pools@.dom() =~= old(self).pools@.dom());
                    assert(self.pools_view() =~= old(self).pools_view().insert(
                        poolid,
                        bound_view(old(self).pools_view()[poolid], envid),
                    ));
                    assert forall|e: usize| #[trigger] self.envs@.contains_key(e) implies self.envs@[e]@.no_duplicates() by {
                        if e != envid {
                            assert(old(self).envs@.contains_key(e));
                        } else if m0.contains_key(envid) {
                            assert(old(self).envs@[e]@.no_duplicates());
                            assert(self.envs@[e]@ == new_list);
                            assert forall|a: int, b: int| 0 <= a < b < new_list.len() implies new_list[a] != new_list[b] by {
                                if b == new_list.len() - 1 {
                                    assert(m0[envid].contains(new_list[a]));
                                }
                            }
                        } else {
                            assert(self.envs@[e]@ == new_list);
                        }
                    }
                    assert forall|e: usize, p: usize|
                        #[trigger] self.envs@.contains_key(e) && #[trigger] self.envs@[e]@.contains(p)
                        implies self.pools@.contains_key(p) && self.pools@[p]@.envs.contains(e) by {
                        if e == envid && p == poolid {
                            let pe = self.pools@[p]@.envs;
                            assert(pe[pe.len() - 1] == envid);
                        } else if e == envid {
                            assert(m0.contains_key(envid));
                            assert(self.envs@[e]@ == new_list);
                            let j = new_list.index_of(p);
                            new_list.index_of_first(p);
                            assert(j < new_list.len() - 1);
                            assert(m0[envid][j] == p);
                            assert(old(self).envs@[e]@.contains(p));
                            assert(old(self).pools@.contains_key(p));
                        } else {
                            assert(old(self).envs@.contains_key(e));
                            assert(old(self).envs@[e]@.contains(p));
                            assert(old(self).pools@.contains_key(p));
                            if p == poolid {
                                let j = old(self).pools@[p]@.envs.index_of(e);
                                old(self).pools@[p]@.envs.index_of_first(e);
                                assert(self.pools@[p]@.envs[j] == e);
                            }
                        }
                    }
                    assert forall|p: usize| #[trigger] self.pools@.contains_key(p) implies self.pools@[p]@.reference
                        >= holders(self.env_pools(), p).len() by {
                        assert(old(self).pools@.contains_key(p));
                        lemma_holders_insert(m0, envid, new_list, p);
                        if p != poolid && m0.contains_key(envid) {
                            assert(new_list.contains(p) ==> m0[envid].contains(p)) by {
                                if new_list.contains(p) {
                                    let j = new_list.index_of(p);
                                    new_list.index_of_first(p);
                                    assert(m0[envid][j] == p);
                                }
                            }
                            if new_list.contains(p) {
                                assert(holders(m0.insert(envid, new_list), p) =~= holders(m0, p));
                            }
                        }
                    }
                }
                let pool_ref = self.pools.get(&poolid);
                match pool_ref {
                    Some(entry) => Ok(&entry.pages),
                    None => {
                        proof {
                            assert(false);
                        }
                        Err(KError::PoolNotFound)
                    },
                }
            },
        }
    }

    /// Unbind an env from a pool. If unbound successfully, the pool gets a
    /// decreased reference, and is destroyed when the reference reaches zero.
    fn unbind(&mut self, poolid: usize, envid: usize) -> (r: Result<(), KError>)
        requires
            old(self).pools_view().contains_key(poolid) && old(self).pools_view()[poolid].envs.contains(
                envid,
            ) ==> old(self).pools_view()[poolid].reference > 0,
        ensures
            final(self).envs@ == old(self).envs@,
            final(self).pool_i == old(self).pool_i,
            !old(self).pools_view().contains_key(poolid) ==> r == Err::<(), KError>(
                KError::PoolNotFound,
            ) && final(self).pools@ == old(self).pools@,
            old(self).pools_view().contains_key(poolid) && !old(self).pools_view()[poolid].envs.contains(
                envid,
            ) ==> r == Err::<(), KError>(KError::PoolNotBind) && final(self).pools@ == old(
                self,
            ).pools@,
            old(self).pools_view().contains_key(poolid) && old(self).pools_view()[poolid].envs.contains(
                envid,
            ) ==> r == Ok::<(), KError>(()) && if old(self).pools_view()[poolid].reference == 1 {
                final(self).pools@ == old(self).pools@.remove(poolid)
            } else {
                &&& final(self).pools@.dom() == old(self).pools@.dom()
                &&& final(self).pools@[poolid]@ == unbound_view(
                    old(self).pools_view()[poolid],
                    envid,
                )
                &&& forall|q: usize|
                    q != poolid && #[trigger] old(self).pools@.contains_key(q) ==> final(self).pools@[q]
                        == old(self).pools@[q]
            },
    {
        match self.pools.remove(&poolid) {
            None => {
                proof {
                    assert(self.pools@ =~= old(self).pools@);
                }
                Err(KError::PoolNotFound)
            },
            Some(mut pool) => {
                proof {
                    assert(old(self).pools@.contains_key(poolid));
                    assert(old(self).pools_view()[poolid] == pool@);
                }
                match pool.deref(envid) {
                    Err(e) => {
                        self.pools.insert(poolid, pool);
                        proof {
                            assert(self.pools@ =~= old(self).pools@);
                        }
                        Err(e)
                    },
                    Ok(gone) => {
                        if !gone {
                            self.pools.insert(poolid, pool);
                            proof {
                                assert(self.pools@.dom() =~= old(self).pools@.dom());
                            }
                        }
                        Ok(())
                    },
                }
            },
        }
    }

    /// Unbind all the pools bound to the env `envid` and forget its list of
    /// pools. Each of those pools loses one reference, and is destroyed if
    /// that was its last one; the env's lock on it, if any, is released.
    pub fn destory_env(&mut self, envid: usize)
        requires
            old(self).wf(),
        ensures
            final(self).wf(),
            destory_env_post(*old(self), *final(self), envid),
    {
        let ghost m0 = old(self).env_pools();
        proof {
            assert(m0.dom() =~= old(self).envs@.dom());
        }
        match self.envs.remove(&envid) {
            None => {
                proof {
                    assert(self.envs@ =~= old(self).envs@);
                    assert(self.env_pools() =~= m0.remove(envid));
                }
            },
            Some(v) => {
                let ghost vs = v@;
                proof {
                    assert(m0.contains_key(envid));
                    assert(m0[envid] == vs);
                    assert(self.env_pools() =~= m0.remove(envid));
                }
                let mut k: usize = 0;
                while k < v.len()
                    invariant
                        old(self).wf(),
                        m0 == old(self).env_pools(),
                        m0.dom().finite(),
                        m0.contains_key(envid),
                        vs == v@,
                        vs == m0[envid],
                        vs.no_duplicates(),
                        k <= vs.len(),
                        self.envs@ == old(self).envs@.remove(envid),
                        self.pool_i == old(self).pool_i,
                        forall|p: usize| #[trigger] self.pools@.contains_key(p) ==> old(self).pools@.contains_key(p),
                        forall|p: usize|
                            #[trigger] old(self).pools@.contains_key(p) ==> {
                                &&& (self.pools@.contains_key(p) <==> !(vs.take(k as int).contains(p)
                                    && old(self).pools@[p]@.reference == 1))
                                &&& self.pools@.contains_key(p) ==> self.pools@[p]@ == if vs.take(
                                    k as int,
                                ).contains(p) {
                                    unbound_view(old(self).pools@[p]@, envid)
                                } else {
                                    old(self).pools@[p]@
                                }
                            },
                    decreases vs.len() - k,
                {
                    let p = v[k];
                    let ghost pre = self.pools@;
                    let ghost tk = vs.take(k as int);
                    proof {
                        assert(vs.contains(p));
                        assert(old(self).envs@[envid]@.contains(p));
                        assert(old(self).pools@.contains_key(p));
                        assert(old(self).pools@[p]@.envs.contains(envid));
                        assert(!tk.contains(p)) by {
                            if tk.contains(p) {
                                let j = tk.index_of(p);
                                tk.index_of_first(p);
                                assert(vs[j] == vs[k as int]);
                            }
                        }
                        assert(holders(m0, p).contains(envid));
                        lemma_holders_remove(m0, envid, p);
                        assert(holders(m0, p).len() >= 1);
                        assert(self.pools_view()[p] == old(self).pools@[p]@);
                    }
                    let _ = self.unbind(p, envid);
                    k = k + 1;
                    proof {
                        assert(vs.take(k as int) == tk.push(p));
                        assert forall|q: usize| #[trigger] self.pools@.contains_key(q) implies old(self).pools@.contains_key(q) by {
                            assert(pre.contains_key(q));
                        }
                        assert forall|q: usize| #[trigger] old(self).pools@.contains_key(q) implies {
                            &&& (self.pools@.contains_key(q) <==> !(vs.take(k as int).contains(q)
                                && old(self).pools@[q]@.reference == 1))
                            &&& self.pools@.contains_key(q) ==> self.pools@[q]@ == if vs.take(
                                k as int,
                            ).contains(q) {
                                unbound_view(old(self).pools@[q]@, envid)
                            } else {
                                old(self).pools@[q]@
                            }
                        } by {
                            if q != p {
                                assert(tk.push(p).contains(q) ==> tk.contains(q)) by {
                                    if tk.push(p).contains(q) {
                                        let j = tk.push(p).index_of(q);
                                        tk.push(p).index_of_first(q);
                                        assert(j < tk.len());
                                        assert(tk[j] == q);
                                    }
                                }
                                assert(tk.contains(q) ==> tk.push(p).contains(q)) by {
                                    if tk.contains(q) {
                                        let j = tk.index_of(q);
                                        tk.index_of_first(q);
                                        assert(tk.push(p)[j] == q);
                                    }
                                }
                                assert(pre.contains_key(q) == self.pools@.contains_key(q));
                            } else {
                                assert(tk.push(p)[tk.len() as int] == p);
                            }
                        }
                    }
                }
                proof {
                    assert(vs.take(vs.len() as int) =~= vs);
                    let m1 = m0.remove(envid);
                    assert(self.env_pools() =~= m1);
                    assert forall|e: usize| #[trigger] self.envs@.contains_key(e) implies self.envs@[e]@.no_duplicates() by {
                        assert(old(self).envs@.contains_key(e));
                    }
                    assert forall|e: usize, p: usize|
                        #[trigger] self.envs@.contains_key(e) && #[trigger] self.envs@[e]@.contains(p)
                        implies self.pools@.contains_key(p) && self.pools@[p]@.envs.contains(e) by {
                        assert(old(self).envs@.contains_key(e));
                        assert(old(self).envs@[e]@.contains(p));
                        assert(old(self).pools@.contains_key(p));
                        if vs.contains(p) {
                            assert(holders(m0, p).contains(envid));
                            assert(holders(m0, p).contains(e));
                            lemma_holders_remove(m0, envid, p);
                            assert(holders(m0, p).remove(envid).contains(e));
                            assert(holders(m0, p).len() >= 2) by {
                                assert(holders(m0, p).remove(envid).len() >= 1);
                            }
                        }
                    }
                    assert forall|p: usize| #[trigger] self.pools@.contains_key(p) implies self.pools@[p]@.reference
                        >= holders(self.env_pools(), p).len() by {
                        assert(old(self).pools@.contains_key(p));
                        lemma_holders_remove(m0, envid, p);
                        if vs.contains(p) {
                            assert(holders(m0, p).contains(envid));
                        } else {
                            assert(!holders(m0, p).contains(envid));
                            assert(holders(m0, p).remove(envid) =~= holders(m0, p));
                        }
                    }
                    assert forall|p: usize| #[trigger] self.pools@.contains_key(p) implies pool_counter_of(p) < self.pool_i by {
                        assert(old(self).pools@.contains_key(p));
                    }
                    assert forall|p: usize|
                        #![trigger self.pools_view().contains_key(p)]
                        #![trigger old(self).pools_view().contains_key(p)]
                        {
                            &&& self.pools_view().contains_key(p) <==> old(self).pools_view().contains_key(p)
                                && !(m0[envid].contains(p) && old(self).pools_view()[p].reference == 1)
                            &&& self.pools_view().contains_key(p) ==> self.pools_view()[p]
                                == if m0[envid].contains(p) {
                                unbound_view(old(self).pools_view()[p], envid)
                            } else {
                                old(self).pools_view()[p]
                            }
                        } by {
                        if self.pools@.contains_key(p) {
                            assert(old(self).pools@.contains_key(p));
                        }
                        if old(self).pools@.contains_key(p) {
                        }
                    }
                }
            },
        }
    }

    /// Lock the pool `poolid` for the env `envid`. `Ok(true)` is returned if
    /// the lock was taken, `Ok(false)` if the pool was locked already.
    ///
    /// `Err(KError::PoolNotFound)` is returned if the pool does not exist and
    /// `Err(KError::PoolNotBind)` if the env has never been bound to it.
    pub fn lock(&mut self, poolid: usize, envid: usize) -> (r: Result<bool, KError>)
        requires
            old(self).wf(),
        ensures
            final(self).wf(),
            final(self).counter() == old(self).counter(),
            final(self).env_pools() == old(self).env_pools(),
            !old(self).pools_view().contains_key(poolid) ==> r == Err::<bool, KError>(
                KError::PoolNotFound,
            ) && final(self).pools_view() == old(self).pools_view(),
            old(self).pools_view().contains_key(poolid) && !old(self).pools_view()[poolid].envs.contains(
                envid,
            ) ==> r == Err::<bool, KError>(KError::PoolNotBind) && final(self).pools_view() == old(
                self,
            ).pools_view(),
            old(self).pools_view().contains_key(poolid) && old(self).pools_view()[poolid].envs.contains(
                envid,
            ) ==> r == Ok::<bool, KError>(old(self).pools_view()[poolid].locker == 0)
                && final(self).pools_view() == old(self).pools_view().insert(
                poolid,
                PoolView {
                    locker: if old(self).pools_view()[poolid].locker == 0 {
                        envid
                    } else {
                        old(self).pools_view()[poolid].locker
                    },
                    ..old(self).pools_view()[poolid]
                },
            ),
    {
        match self.pools.remove(&poolid) {
            None => {
                proof {
                    assert(self.pools@ =~= old(self).pools@);
                }
                Err(KError::PoolNotFound)
            },
            Some(mut pool) => {
                if !vec_contains(&pool.envs, envid) {
                    self.pools.insert(poolid, pool);
                    proof {
                        assert(self.pools@ =~= old(self).pools@);
                    }
                    return Err(KError::PoolNotBind);
                }
                let r = pool.lock(envid);
                self.pools.insert(poolid, pool);
                proof {
                    assert(self.pools@ =~= old(self).pools@.insert(poolid, self.pools@[poolid]));
                    self.lemma_same_shape(*old(self), poolid);
                }
                Ok(r)
            },
        }
    }

    /// Unlock the pool `poolid` for the env `envid`; only the env holding
    /// the lock can unlock it.
    ///
    /// `Err(KError::PoolNotFound)` is returned if the pool does not exist,
    /// `Err(KError::NoLock)` if it is not locked and
    /// `Err(KError::LockByOthers)` if another env holds the lock.
    pub fn unlock(&mut self, poolid: usize, envid: usize) -> (r: Result<(), KError>)
        requires
            old(self).wf(),
        ensures
            final(self).wf(),
            final(self).counter() == old(self).counter(),
            final(self).env_pools() == old(self).env_pools(),
            !old(self).pools_view().contains_key(poolid) ==> r == Err::<(), KError>(
                KError::PoolNotFound,
            ) && final(self).pools_view() == old(self).pools_view(),
            old(self).pools_view().contains_key(poolid) ==> {
                let pv = old(self).pools_view()[poolid];
                &&& r == (if pv.locker == envid {
                    Ok::<(), KError>(())
                } else if pv.locker == 0 {
                    Err(KError::NoLock)
                } else {
                    Err(KError::LockByOthers)
                })
                &&& final(self).pools_view() == old(self).pools_view().insert(
                    poolid,
                    PoolView {
                        locker: if pv.locker == envid {
                            0
                        } else {
                            pv.locker
                        },
                        ..pv
                    },
                )
            },
    {
        match self.pools.remove(&poolid) {
            None => {
                proof {
                    assert(self.pools@ =~= old(self).pools@);
                }
                Err(KError::PoolNotFound)
            },
            Some(mut pool) => {
                let r = pool.unlock(envid);
                self.pools.insert(poolid, pool);
                proof {
                    assert(self.pools@ =~= old(self).pools@.insert(poolid, self.pools@[poolid]));
                    self.lemma_same_shape(*old(self), poolid);
                }
                r
            },
        }
    }

    /// Replacing one pool by a pool with the same bound envs and reference
    /// keeps the manager well-formed.
    proof fn lemma_same_shape(&self, before: Self, poolid: usize)
        requires
            before.wf(),
            before.pools@.contains_key(poolid),
            self.envs@ == before.envs@,
            self.pool_i == before.pool_i,
            self.pools@ == before.pools@.insert(poolid, self.pools@[poolid]),
            self.pools@[poolid]@.envs == before.pools@[poolid]@.envs,
            self.pools@[poolid]@.reference == before.pools@[poolid]@.reference,
        ensures
            self.wf(),
            self.env_pools() == before.env_pools(),
            self.pools_view() == before.pools_view().insert(poolid, self.pools@[poolid]@),
    {
        assert(self.env_pools() =~= before.env_pools());
        assert(self.pools@.dom() =~= before.pools@.dom());
        assert(self.pools_view() =~= before.pools_view().insert(poolid, self.pools@[poolid]@));
        assert forall|e: usize, p: usize|
            #[trigger] self.envs@.contains_key(e) && #[trigger] self.envs@[e]@.contains(p)
            implies self.pools@.contains_key(p) && self.pools@[p]@.envs.contains(e) by {
            assert(before.pools@.contains_key(p));
        }
        assert forall|p: usize| #[trigger] self.pools@.contains_key(p) implies self.pools@[p]@.reference
            >= holders(self.env_pools(), p).len() by {
            assert(before.pools@.contains_key(p));
        }
        assert forall|p: usize| #[trigger] self.pools@.contains_key(p) implies pool_counter_of(p) < self.pool_i by {
            assert(before.pools@.contains_key(p));
        }
    }
}

/// Law: once an env is bound to a pool, the pool lists it, so binding it
/// again is refused with `PoolDoubleBind`, see [bind](MemoryPool::bind).
pub proof fn law_bound_env_listed(pre: MemoryPool, post: MemoryPool, poolid: usize, envid: usize)
    requires
        pre.pools_view().contains_key(poolid),
        post.pools_view() == pre.pools_view().insert(poolid, bound_view(pre.pools_view()[poolid], envid)),
    ensures
        post.pools_view().contains_key(poolid),
        post.pools_view()[poolid].envs.contains(envid),
{
    assert(post.pools_view()[poolid].envs.last() == envid);
}

/// Law: a lock taken by `envid` keeps others out (the pool's locker is not
/// zero, so their lock gives `false`), and unlocking it by `envid` gives
/// the pool back as it was before the lock.
pub proof fn law_lock_then_unlock(before: PoolView, locked: PoolView, unlocked: PoolView, envid: usize)
    requires
        before.locker == 0,
        envid != 0,
        locked == (PoolView { locker: envid, ..before }),
        unlocked == (PoolView { locker: 0, ..locked }),
    ensures
        locked.locker != 0,
        unlocked == before,
{
}

/// Law: an env that holds a pool's lock releases it when it gives up its
/// binding, as when it is destroyed.
pub proof fn law_unbind_releases_lock(pv: PoolView, envid: usize)
    requires
        pv.locker == envid,
    ensures
        unbound_view(pv, envid).locker == 0,
{
}

/// Law: when the last env bound to a pool is destroyed, the pool is
/// deleted, see [destory_env](MemoryPool::destory_env).
pub proof fn law_last_holder_deletes_pool(pre: MemoryPool, post: MemoryPool, envid: usize, poolid: usize)
    requires
        destory_env_post(pre, post, envid),
        pre.env_pools().contains_key(envid),
        pre.env_pools()[envid].contains(poolid),
        pre.pools_view().contains_key(poolid),
        pre.pools_view()[poolid].reference == 1,
    ensures
        !post.pools_view().contains_key(poolid),
{
}

/// Law: an env destroyed while bound to a pool that lives on is no longer
/// listed by it, so its lock is refused with `PoolNotBind` and it may bind
/// again, see [destory_env](MemoryPool::destory_env).
pub proof fn law_destroyed_env_unlisted(pre: MemoryPool, post: MemoryPool, envid: usize, poolid: usize)
    requires
        destory_env_post(pre, post, envid),
        pre.env_pools().contains_key(envid),
        pre.env_pools()[envid].contains(poolid),
        post.pools_view().contains_key(poolid),
    ensures
        !post.pools_view()[poolid].envs.contains(envid),
{
    lemma_without(pre.pools_view()[poolid].envs, envid);
}

} // verus!
