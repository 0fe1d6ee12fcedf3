//! The buddy system allocator of kernel heap pages.
//!
//! The *category* count is a const generic. The smallest unit handed out is
//! one page, the largest `2 ^ (CCOUNT - 1)` pages. The `i`-th category keeps
//! a list of free blocks of `2 ^ i` pages each, named by their first page.

use vstd::prelude::*;
use vstd::arithmetic::power2::{pow2, lemma_pow2_unfold, lemma_pow2_pos, lemma_pow2_strictly_increases, lemma2_to64};
use crate::utils::linked_list::{LinkList, LinkNode, links_kept_except};
use crate::memory::pmap::{PageData, PageList, PageNode};
use crate::memory::regions::{PAGE_SIZE, ULIM};

verus! {

/// The number of pages needed to hold `need` bytes.
pub open spec fn pages_needed(need: int) -> int {
    if need % 4096 == 0 {
        need / 4096
    } else {
        need / 4096 + 1
    }
}

/// The category of a request of `need` bytes: the least `c` such that
/// `2 ^ c` pages hold `need` bytes.
pub open spec fn is_category_of(c: nat, need: int) -> bool {
    &&& pow2(c) >= pages_needed(need)
    &&& (c == 0 || pow2((c - 1) as nat) < pages_needed(need))
}

/// The category of a request of `need` bytes.
pub open spec fn category_spec(need: int) -> nat {
    choose|c: nat| is_category_of(c, need)
}

/// A category that [is_category_of] a request is its category.
pub proof fn lemma_category_unique(c: nat, need: int)
    requires
        is_category_of(c, need),
    ensures
        category_spec(need) == c,
{
    let d = category_spec(need);
    assert(is_category_of(d, need));
    if d < c {
        if d < (c - 1) as nat {
            lemma_pow2_strictly_increases(d, (c - 1) as nat);
        }
    } else if c < d {
        if c < (d - 1) as nat {
            lemma_pow2_strictly_increases(c, (d - 1) as nat);
        }
    }
}

/// Flipping bit `i` adds `2 ^ i` when the bit is clear and subtracts it when
/// the bit is set.
proof fn lemma_xor_bit(x: usize, i: usize)
    requires
        i < 32,
    ensures
        x & (1usize << i) == 0 ==> x ^ (1usize << i) == x + (1usize << i),
        x & (1usize << i) != 0 ==> x ^ (1usize << i) == x - (1usize << i),
{
    assert(x & (1usize << i) == 0 ==> x ^ (1usize << i) == x + (1usize << i)) by (bit_vector)
        requires
            i < 32,
    ;
    assert(x & (1usize << i) != 0 ==> x ^ (1usize << i) == x - (1usize << i)) by (bit_vector)
        requires
            i < 32,
    ;
}

/// The category of a request of `size` bytes aligned to `align` bytes.
pub open spec fn request_category(size: usize, align: usize) -> int {
    category_spec(
        if size > align {
            size as int
        } else {
            align as int
        },
    ) as int
}

/// `1 << i` is `2 ^ i` for small `i`.
proof fn lemma_shl_pow2(i: usize)
    requires
        i < 32,
    ensures
        (1usize << i) == pow2(i as nat),
        pow2(i as nat) <= 0x8000_0000,
{
    lemma2_to64();
    vstd::bits::lemma_usize_pow2_no_overflow(i as nat);
    if i < 32 {
        assert(pow2(i as nat) <= pow2(31)) by {
            if i < 31 {
                lemma_pow2_strictly_increases(i as nat, 31);
            }
        }
    }
    vstd::bits::lemma_usize_shl_is_mul(1, i);
}

/// The category of a request of `size` bytes aligned to `align` bytes.
fn category_of(size: usize, align: usize) -> (r: usize)
    ensures
        is_category_of(r as nat, if size > align {
            size as int
        } else {
            align as int
        }),
        r < 64,
{
    let need = if size > align {
        size
    } else {
        align
    };
    let pages = if need % PAGE_SIZE == 0 {
        need / PAGE_SIZE
    } else {
        need / PAGE_SIZE + 1
    };
    proof {
        lemma2_to64();
        assert(need / 4096 <= usize::MAX / 4096);
        assert(pages <= usize::MAX / 4096 + 1);
        assert(pages <= 0x10_0000_0000_0000);
    }
    let mut c: usize = 0;
    let mut p: usize = 1;
    while p < pages
        invariant
            p == pow2(c as nat),
            c == 0 || pow2((c - 1) as nat) < pages,
            pages <= 0x10_0000_0000_0000,
            p <= 2 * pages || p == 1,
            p >= 1,
            pages <= usize::MAX / 4096 + 1,
            c <= 53,
        decreases 2 * pages - p,
    {
        proof {
            lemma_pow2_unfold((c + 1) as nat);
            if c >= 53 {
                lemma2_to64();
                assert(pow2(53) > 0x10_0000_0000_0000) by {
                    vstd::arithmetic::power2::lemma2_to64_rest();
                }
                if c > 53 {
                    lemma_pow2_strictly_increases(53, c as nat);
                }
            }
        }
        p = p * 2;
        c = c + 1;
    }
    c
}

/// The pages `s .. s + 2 ^ i` of a block.
pub open spec fn in_block(p: int, s: int, i: nat) -> bool {
    s <= p < s + pow2(i)
}

/// Where the blocks of category `j` and up end when `n` pages are laid out
/// from the top category down: `n` rounded down to a multiple of `2 ^ j`.
pub open spec fn init_edge(n: int, j: nat) -> int {
    n - n % (pow2(j) as int)
}

/// The free list of the category `l` below the top after laying out `n`
/// pages: the one block from `init_edge(n, l + 1)` on, where `n` has bit `l`
/// set, none otherwise.
pub open spec fn init_low_level(n: int, l: nat) -> Seq<usize> {
    if init_edge(n, l) > init_edge(n, l + 1) {
        seq![init_edge(n, l + 1) as usize]
    } else {
        Seq::empty()
    }
}

/// The category and first page of the block of a category below `j` that
/// holds the page `p`, at or past `init_edge(n, j)`, in the layout of `n`
/// pages.
pub open spec fn low_owner(n: int, j: nat, p: int) -> Option<(nat, usize)>
    decreases j,
{
    if j == 0 {
        None
    } else if p < init_edge(n, (j - 1) as nat) {
        Some(((j - 1) as nat, init_edge(n, j) as usize))
    } else {
        low_owner(n, (j - 1) as nat, p)
    }
}

/// One category down, the edge moves by nothing or by one block of that
/// category, and stays within `0..=n`.
proof fn lemma_edge_step(n: int, j: nat)
    requires
        n >= 0,
    ensures
        0 <= init_edge(n, j + 1) <= init_edge(n, j) <= n,
        init_edge(n, j) - init_edge(n, j + 1) == 0 || init_edge(n, j) - init_edge(n, j + 1) == pow2(j),
        init_edge(n, j) - init_edge(n, j + 1) == 0 ==> n - init_edge(n, j) < pow2(j),
{
    lemma_pow2_pos(j);
    lemma_pow2_unfold(j + 1);
    let a = pow2(j) as int;
    assert(pow2(j + 1) as int == a * 2);
    vstd::arithmetic::div_mod::lemma_mod_breakdown(n, a, 2);
    let b = (n / a) % 2;
    assert(0 <= b < 2);
    assert(0 <= n % a < a);
    assert(n % (a * 2) == a * b + n % a);
    assert(0 <= n % (a * 2) <= n) by {
        vstd::arithmetic::div_mod::lemma_mod_is_mod_recursive(n, a * 2);
        vstd::arithmetic::div_mod::lemma_mod_decreases(n as nat, (a * 2) as nat);
    }
    if b == 0 {
        assert(a * b == 0) by (nonlinear_arith)
            requires
                b == 0,
        ;
    } else {
        assert(a * b == a) by (nonlinear_arith)
            requires
                b == 1,
        ;
    }
}

/// Edges of higher categories lie no further on.
proof fn lemma_edge_mono(n: int, lo: nat, hi: nat)
    requires
        n >= 0,
        lo <= hi,
    ensures
        0 <= init_edge(n, hi) <= init_edge(n, lo) <= n,
    decreases hi,
{
    lemma_edge_step(n, lo);
    if lo < hi {
        lemma_edge_mono(n, lo, (hi - 1) as nat);
        lemma_edge_step(n, (hi - 1) as nat);
    }
}

/// The page `p` between the edges of categories `l + 1` and `l` lies in
/// the block of category `l`.
proof fn lemma_low_owner_at(n: int, j: nat, l: nat, p: int)
    requires
        n >= 0,
        l < j,
        init_edge(n, l + 1) <= p < init_edge(n, l),
    ensures
        low_owner(n, j, p) == Some((l, init_edge(n, l + 1) as usize)),
    decreases j,
{
    if (j - 1) as nat > l {
        lemma_edge_mono(n, l + 1, (j - 1) as nat);
        lemma_low_owner_at(n, (j - 1) as nat, l, p);
    }
}

/// A page from the edge of category `j` up to `n` lies in a block of a
/// category below `j`, which is a whole block between two edges.
proof fn lemma_low_owner_some(n: int, j: nat, p: int)
    requires
        0 <= n <= usize::MAX,
        init_edge(n, j) <= p < n,
    ensures
        low_owner(n, j, p) matches Some((l, s)) && l < j && s as int == init_edge(n, l + 1) && init_edge(n, l + 1) <= p
            < init_edge(n, l) && init_edge(n, l) - init_edge(n, l + 1) == pow2(l),
    decreases j,
{
    if j == 0 {
        assert(pow2(0) == 1) by {
            vstd::arithmetic::power2::lemma2_to64();
        }
        assert(init_edge(n, 0) == n);
    } else {
        let i = (j - 1) as nat;
        lemma_edge_step(n, i);
        lemma_edge_mono(n, 0, j);
        if p >= init_edge(n, i) {
            lemma_low_owner_some(n, i, p);
        }
    }
}

/// The buddy of the block starting at page `b` in category `i`: the block
/// it merges with, whose first page differs from `b` in bit `i`.
pub open spec fn buddy_of(b: usize, i: int) -> usize {
    b ^ (1usize << (i as usize))
}

/// The free lists `lv`, one per category up to `top`, after the block
/// starting at page `b` is freed into category `i`: while its buddy is free
/// in the same category below the topmost, the buddy is taken out of its
/// list and the two merge into one block of the next category; the block
/// that is left goes to the head of its category's list.
pub open spec fn dealloc_levels(lv: Seq<Seq<usize>>, b: usize, i: int, top: int) -> Seq<Seq<usize>>
    decreases top - i,
{
    if 0 <= i < top && lv[i].contains(buddy_of(b, i)) {
        let bud = buddy_of(b, i);
        dealloc_levels(
            lv.update(i, lv[i].remove(lv[i].index_of(bud))),
            if b < bud {
                b
            } else {
                bud
            },
            i + 1,
            top,
        )
    } else {
        lv.update(i, seq![b] + lv[i])
    }
}

/// The buddy system core data structure.
///
/// The page nodes of the heap form the arena of the free lists; `page_start`
/// is the page number of the first heap page. Each free page is owned by
/// exactly one free block.
pub struct BuddyInner<const CCOUNT: usize> {
    /// Free block lists. Only the first page of a block is in a list.
    free_list: Vec<PageList>,
    /// The page nodes of the heap, page `k` of the heap at index `k`.
    nodes: Vec<PageNode>,
    /// The page number of the first page used by the system.
    page_start: usize,
    /// For each heap page, the free block (category, first page) that owns
    /// it, or `None` if the page is in use.
    owner: Ghost<Seq<Option<(nat, usize)>>>,
}

impl<const CCOUNT: usize> BuddyInner<CCOUNT> {
    /// The free blocks of category `i`, first pages in list order.
    pub closed spec fn level(&self, i: int) -> Seq<usize> {
        self.free_list@[i]@
    }

    /// The free lists of all the categories, lowest first.
    pub open spec fn levels(&self) -> Seq<Seq<usize>> {
        Seq::new(CCOUNT as nat, |i: int| self.level(i))
    }

    /// The number of heap pages.
    pub closed spec fn npages(&self) -> nat {
        self.nodes@.len()
    }

    /// The page number of the first heap page.
    pub closed spec fn start(&self) -> usize {
        self.page_start
    }

    /// The free heap pages, counted from the first heap page.
    pub closed spec fn free_pages(&self) -> Set<usize> {
        Set::new(|p: usize| p < self.owner@.len() && self.owner@[p as int] is Some)
    }

    /// The lists are well-formed over the page nodes.
    spec fn lists_wf(&self) -> bool {
        &&& self.free_list@.len() == CCOUNT
        &&& forall|i: int| 0 <= i < CCOUNT ==> (#[trigger] self.free_list@[i]).wf(self.nodes@)
    }

    /// Every listed block lies in the heap and owns its pages; every owned
    /// page belongs to a listed block.
    spec fn owners_ok(&self) -> bool {
        &&& self.owner@.len() == self.nodes@.len()
        &&& forall|i: int, k: int|
            0 <= i < CCOUNT && 0 <= k < self.level(i).len() ==> {
                let s = #[trigger] self.level(i)[k];
                &&& s + pow2(i as nat) <= self.nodes@.len()
                &&& forall|p: int|
                    in_block(p, s as int, i as nat) ==> #[trigger] self.owner@[p] == Some(
                        (i as nat, s),
                    )
            }
        &&& forall|p: int|
            0 <= p < self.owner@.len() && #[trigger] self.owner@[p] is Some ==> {
                let (i, s) = self.owner@[p]->0;
                &&& i < CCOUNT
                &&& self.level(i as int).contains(s)
                &&& in_block(p, s as int, i)
            }
    }

    /// Well-formedness of the buddy system.
    pub closed spec fn wf(&self) -> bool {
        &&& 1 <= CCOUNT <= 32
        &&& ULIM + (self.page_start + self.nodes@.len()) * 4096 <= usize::MAX
        &&& self.lists_wf()
        &&& self.owners_ok()
    }

    /// Whether the system is in its created, not yet initialized state.
    pub closed spec fn is_fresh(&self) -> bool {
        &&& self.nodes@.len() == 0
        &&& self.page_start == 0
        &&& self.owner@.len() == 0
        &&& self.free_list@.len() == CCOUNT
        &&& forall|i: int|
            0 <= i < CCOUNT ==> (#[trigger] self.free_list@[i])@.len() == 0 && self.free_list@[i].wf(
                self.nodes@,
            )
    }

    /// An element of one list is in no other list, and owns its first page.
    proof fn lemma_owner_of_listed(&self, i: int, k: int)
        requires
            self.wf(),
            0 <= i < CCOUNT,
            0 <= k < self.level(i).len(),
        ensures
            self.owner@[self.level(i)[k] as int] == Some((i as nat, self.level(i)[k])),
            self.level(i)[k] < self.nodes@.len(),
            forall|j: int| 0 <= j < CCOUNT && j != i ==> !(#[trigger] self.level(j)).contains(self.level(i)[k]),
    {
        let s = self.level(i)[k];
        lemma_pow2_pos(i as nat);
        assert(in_block(s as int, s as int, i as nat));
        assert(self.owner@[s as int] == Some((i as nat, s)));
        assert forall|j: int| 0 <= j < CCOUNT && j != i implies !(#[trigger] self.level(j)).contains(s) by {
            if self.level(j).contains(s) {
                let kk = self.level(j).index_of(s);
                self.level(j).index_of_first(s);
                lemma_pow2_pos(j as nat);
                assert(self.level(j)[kk] == s);
                assert(in_block(s as int, self.level(j)[kk] as int, j as nat));
                assert(self.owner@[s as int] == Some((j as nat, s)));
            }
        }
    }

    /// After the nodes change only at the elements of list `j` and at nodes
    /// owned by no block, every other list stays well-formed.
    proof fn lemma_others_wf(&self, new_nodes: Seq<PageNode>, j: int, changed: Set<usize>)
        requires
            self.wf(),
            0 <= j < CCOUNT,
            forall|x: usize|
                #[trigger] changed.contains(x) ==> self.level(j).contains(x) || x
                    >= self.owner@.len() || self.owner@[x as int] is None,
            links_kept_except(self.nodes@, new_nodes, changed),
        ensures
            forall|i: int| 0 <= i < CCOUNT && i != j ==> (#[trigger] self.free_list@[i]).wf(new_nodes),
    {
        assert forall|i: int| 0 <= i < CCOUNT && i != j implies (#[trigger] self.free_list@[i]).wf(new_nodes) by {
            let l = self.free_list@[i];
            assert(l.wf(self.nodes@));
            assert forall|k: int| 0 <= k < l@.len() implies (#[trigger] new_nodes[l@[k] as int]).next
                == self.nodes@[l@[k] as int].next && new_nodes[l@[k] as int].prev == self.nodes@[l@[k] as int].prev by {
                self.lemma_owner_of_listed(i, k);
                assert(!self.level(j).contains(l@[k]));
                assert(!changed.contains(l@[k]));
            }
            l.lemma_wf_frame(self.nodes@, new_nodes);
        }
    }

    /// Create a brand-new, empty buddy system.
    pub fn new() -> (r: Self)
        ensures
            r.is_fresh(),
    {
        let mut free_list: Vec<PageList> = Vec::new();
        let mut i: usize = 0;
        while i < CCOUNT
            invariant
                i <= CCOUNT,
                free_list@.len() == i,
                forall|k: int|
                    0 <= k < i ==> (#[trigger] free_list@[k])@.len() == 0 && free_list@[k].wf(
                        Seq::<PageNode>::empty(),
                    ),
            decreases CCOUNT - i,
        {
            free_list.push(LinkList::new());
            i = i + 1;
        }
        BuddyInner { free_list, nodes: Vec::new(), page_start: 0, owner: Ghost(Seq::empty()) }
    }

    /// Initialize the free lists with the `size` bytes of heap pages that
    /// start at page `page_start`. The pages are inserted into the topmost
    /// category, each block at the head of its list, and the remainder one
    /// level lower, down to category *zero*: a block of category `l` below
    /// the top where the page count has bit `l` set.
    ///
    /// Only after this function is invoked can the system be used.
    pub fn init(&mut self, page_start: usize, size: usize)
        requires
            old(self).is_fresh(),
            1 <= CCOUNT <= 32,
            ULIM + (page_start + size / 4096) * 4096 <= usize::MAX,
        ensures
            final(self).wf(),
            final(self).npages() == size / 4096,
            final(self).start() == page_start,
            final(self).free_pages() == Set::new(|p: usize| p < size / 4096),
            forall|l: int| 0 <= l < CCOUNT - 1 ==> #[trigger] final(self).level(l) == init_low_level(
                (size / 4096) as int,
                l as nat,
            ),
            final(self).level(CCOUNT - 1) == Seq::new(
                ((size / 4096) as int / (pow2((CCOUNT - 1) as nat) as int)) as nat,
                |k: int|
                    (((size / 4096) as int / (pow2((CCOUNT - 1) as nat) as int) - 1 - k) * (pow2((CCOUNT - 1) as nat) as int)) as usize,
            ),
    {
        self.page_start = page_start;
        let page_count = size / PAGE_SIZE;
        let mut nodes: Vec<PageNode> = Vec::new();
        let mut k: usize = 0;
        while k < page_count
            invariant
                k <= page_count,
                nodes@.len() == k,
            decreases page_count - k,
        {
            nodes.push(LinkNode::new(PageData { pp_ref: 0 }));
            k = k + 1;
        }
        self.nodes = nodes;
        let ghost top: nat = (CCOUNT - 1) as nat;
        let ghost step: int = pow2(top) as int;
        let ghost n: int = page_count as int;
        proof {
            lemma_pow2_pos(top);
            self.owner@ = Seq::new(page_count as nat, |p: int| None);
            assert(self.free_list@.len() == CCOUNT);
            assert forall|i: int| 0 <= i < CCOUNT implies (#[trigger] self.free_list@[i]).wf(self.nodes@) by {
                assert(old(self).free_list@[i].wf(old(self).nodes@));
                self.free_list@[i].lemma_empty_wf(old(self).nodes@, self.nodes@);
            }
            assert(self.owner@ =~= Seq::new(
                page_count as nat,
                |p: int|
                    if p < 0 {
                        Some((top, ((p / step) * step) as usize))
                    } else {
                        None::<(nat, usize)>
                    },
            ));
        }
        let mut index: usize = 0;
        let i_top: usize = CCOUNT - 1;
        proof {
            lemma_shl_pow2(i_top);
        }
        let step_x: usize = 1usize << i_top;
        while index + step_x <= page_count
            invariant
                1 <= CCOUNT <= 32,
                i_top == CCOUNT - 1,
                step == pow2(top) as int,
                top == CCOUNT - 1,
                step > 0,
                step_x == step,
                step_x <= 0x8000_0000,
                page_count == size / 4096,
                n == page_count,
                self.page_start == page_start,
                ULIM + (page_start + page_count) * 4096 <= usize::MAX,
                self.nodes@.len() == page_count,
                index <= page_count,
                index as int % step == 0,
                self.lists_wf(),
                self.owner@ == Seq::new(
                    page_count as nat,
                    |p: int|
                        if p < index {
                            Some((top, ((p / step) * step) as usize))
                        } else {
                            None::<(nat, usize)>
                        },
                ),
                forall|l: int| 0 <= l < CCOUNT - 1 ==> (#[trigger] self.free_list@[l])@.len() == 0,
                self.level(top as int) == Seq::new(
                    (index as int / step) as nat,
                    |k: int| ((index as int / step - 1 - k) * step) as usize,
                ),
            decreases page_count - index,
        {
            let ghost old_level = self.level(top as int);
            let ghost m = index as int / step;
            proof {
                assert(index as int == m * step) by (nonlinear_arith)
                    requires
                        index as int % step == 0,
                        m == index as int / step,
                        step > 0,
                ;
                assert((index + step) % step == 0) by (nonlinear_arith)
                    requires
                        index as int % step == 0,
                        step > 0,
                ;
                assert(!old_level.contains(index)) by {
                    if old_level.contains(index) {
                        let kk = old_level.index_of(index);
                        old_level.index_of_first(index);
                        assert((m - 1 - kk) * step < m * step) by (nonlinear_arith)
                            requires
                                0 <= kk,
                                step > 0,
                        ;
                    }
                }
            }
            let ghost pre_nodes = self.nodes@;
            let mut l = self.free_list[i_top];
            l.insert_head(&mut self.nodes, index);
            self.free_list.set(i_top, l);
            proof {
                assert forall|j: int| 0 <= j < CCOUNT && j != i_top implies (#[trigger] self.free_list@[j]).wf(
                    self.nodes@,
                ) by {
                    let lj = self.free_list@[j];
                    assert(lj@.len() == 0);
                    assert(lj.wf(pre_nodes));
                    lj.lemma_empty_wf(pre_nodes, self.nodes@);
                }
                let new_index = (index + step) as int;
                let new_owner = Seq::new(
                    page_count as nat,
                    |p: int|
                        if p < new_index {
                            Some((top, ((p / step) * step) as usize))
                        } else {
                            None::<(nat, usize)>
                        },
                );
                self.owner@ = new_owner;
                assert((new_index / step) == m + 1) by (nonlinear_arith)
                    requires
                        new_index == m * step + step,
                        step > 0,
                ;
                assert(self.level(top as int) =~= Seq::new(
                    (new_index / step) as nat,
                    |k: int| ((new_index / step - 1 - k) * step) as usize,
                )) by {
                    assert(self.level(top as int) == seq![index] + old_level);
                }
            }
            index = index + step_x;
        }
        let ghost t_edge: int = index as int;
        let ghost m_top: int = n / step;
        proof {
            assert(t_edge == m_top * step && n % step == n - t_edge) by (nonlinear_arith)
                requires
                    t_edge % step == 0,
                    0 <= t_edge <= n,
                    t_edge + step > n,
                    m_top == n / step,
                    step > 0,
            ;
            assert(t_edge == init_edge(n, top));
            assert(t_edge / step == m_top) by (nonlinear_arith)
                requires
                    t_edge == m_top * step,
                    step > 0,
            ;
            assert(self.level(top as int) =~= Seq::new(m_top as nat, |k: int| ((m_top - 1 - k) * step) as usize));
            assert(self.owner@ =~= Seq::new(
                page_count as nat,
                |p: int|
                    if p < t_edge {
                        Some((top, ((p / step) * step) as usize))
                    } else if p < index {
                        low_owner(n, top, p)
                    } else {
                        None::<(nat, usize)>
                    },
            ));
        }
        let mut i: usize = i_top;
        while i > 0
            invariant
                1 <= CCOUNT <= 32,
                i <= i_top,
                i_top == CCOUNT - 1,
                step == pow2(top) as int,
                top == CCOUNT - 1,
                step > 0,
                page_count == size / 4096,
                n == page_count,
                t_edge == init_edge(n, top),
                t_edge == m_top * step,
                m_top == n / step,
                self.page_start == page_start,
                ULIM + (page_start + page_count) * 4096 <= usize::MAX,
                self.nodes@.len() == page_count,
                index as int == init_edge(n, i as nat),
                self.lists_wf(),
                self.owner@ == Seq::new(
                    page_count as nat,
                    |p: int|
                        if p < t_edge {
                            Some((top, ((p / step) * step) as usize))
                        } else if p < index {
                            low_owner(n, top, p)
                        } else {
                            None::<(nat, usize)>
                        },
                ),
                forall|l: int| 0 <= l < i ==> (#[trigger] self.free_list@[l])@.len() == 0,
                forall|l: int| i <= l < top ==> #[trigger] self.level(l) == init_low_level(n, l as nat),
                self.level(top as int) == Seq::new(m_top as nat, |k: int| ((m_top - 1 - k) * step) as usize),
            decreases i,
        {
            i = i - 1;
            proof {
                lemma_shl_pow2(i);
                lemma_edge_step(n, i as nat);
                lemma_edge_mono(n, (i + 1) as nat, top);
            }
            let sx: usize = 1usize << i;
            if index + sx <= page_count {
                proof {
                    assert(init_edge(n, i as nat) == index + sx);
                    assert(!self.level(i as int).contains(index));
                }
                let ghost pre = *self;
                let ghost pre_nodes = self.nodes@;
                let mut l = self.free_list[i];
                l.insert_head(&mut self.nodes, index);
                self.free_list.set(i, l);
                proof {
                    assert forall|j: int| 0 <= j < CCOUNT && j != i implies (#[trigger] self.free_list@[j]).wf(
                        self.nodes@,
                    ) by {
                        let lj = pre.free_list@[j];
                        assert(lj.wf(pre_nodes));
                        assert forall|k: int| 0 <= k < lj@.len() implies (#[trigger] self.nodes@[lj@[k] as int]).next
                            == pre_nodes[lj@[k] as int].next && self.nodes@[lj@[k] as int].prev == pre_nodes[lj@[
                            k
                        ] as int].prev by {
                            if j == top {
                                assert(0 <= (m_top - 1 - k) * step < m_top * step) by (nonlinear_arith)
                                    requires
                                        0 <= k < m_top,
                                        step > 0,
                                ;
                                assert(lj@[k] as int == (m_top - 1 - k) * step);
                            } else if j < i {
                                assert(lj@.len() == 0);
                            } else {
                                assert(pre.level(j) == init_low_level(n, j as nat));
                                assert(lj@ == init_low_level(n, j as nat));
                                lemma_edge_mono(n, (i + 1) as nat, j as nat);
                                lemma_edge_step(n, j as nat);
                                assert(lj@[k] as int == init_edge(n, (j + 1) as nat));
                            }
                            assert(lj@[k] != index);
                            assert(!pre.level(i as int).to_set().insert(index).contains(lj@[k]));
                        }
                        lj.lemma_wf_frame(pre_nodes, self.nodes@);
                    }
                    self.owner@ = Seq::new(
                        page_count as nat,
                        |p: int|
                            if p < t_edge {
                                Some((top, ((p / step) * step) as usize))
                            } else if p < index + sx {
                                low_owner(n, top, p)
                            } else {
                                None::<(nat, usize)>
                            },
                    );
                    assert(self.level(i as int) =~= init_low_level(n, i as nat));
                    assert forall|l: int| i < l <= top implies #[trigger] self.level(l) == pre.level(l) by {}
                }
                index = index + sx;
            } else {
                proof {
                    assert(init_edge(n, i as nat) == index);
                    assert(self.level(i as int) =~= init_low_level(n, i as nat));
                }
            }
        }
        proof {
            assert(index == page_count) by {
                assert(pow2(0) == 1) by {
                    vstd::arithmetic::power2::lemma2_to64();
                }
            }
            let lv = self.level(top as int);
            assert forall|ii: int, kk: int| 0 <= ii < CCOUNT && 0 <= kk < self.level(ii).len() implies {
                let s = #[trigger] self.level(ii)[kk];
                &&& s + pow2(ii as nat) <= self.nodes@.len()
                &&& forall|p: int|
                    in_block(p, s as int, ii as nat) ==> #[trigger] self.owner@[p] == Some(
                        (ii as nat, s),
                    )
            } by {
                if ii == top {
                    let m = m_top;
                    let s = lv[kk];
                    assert(0 <= (m - 1 - kk) * step && (m - 1 - kk) * step + step <= m * step) by (nonlinear_arith)
                        requires
                            0 <= kk < m,
                            step > 0,
                    ;
                    assert(s as int == (m - 1 - kk) * step);
                    assert forall|p: int| in_block(p, s as int, ii as nat) implies #[trigger] self.owner@[p]
                        == Some((ii as nat, s)) by {
                        assert((p / step) * step == (m - 1 - kk) * step) by (nonlinear_arith)
                            requires
                                (m - 1 - kk) * step <= p < (m - 1 - kk) * step + step,
                                step > 0,
                        ;
                    }
                } else {
                    let l = ii as nat;
                    lemma_edge_step(n, l);
                    lemma_edge_mono(n, l + 1, top);
                    assert(self.level(ii) == init_low_level(n, l));
                    let s = self.level(ii)[kk];
                    assert(s as int == init_edge(n, l + 1));
                    assert forall|p: int| in_block(p, s as int, ii as nat) implies #[trigger] self.owner@[p]
                        == Some((ii as nat, s)) by {
                        lemma_low_owner_at(n, top, l, p);
                    }
                }
            }
            assert forall|p: int| 0 <= p < self.owner@.len() && #[trigger] self.owner@[p] is Some implies {
                let (ii, s) = self.owner@[p]->0;
                &&& ii < CCOUNT
                &&& self.level(ii as int).contains(s)
                &&& in_block(p, s as int, ii)
            } by {
                if p < t_edge {
                    let m = m_top;
                    let q = p / step;
                    assert(0 <= q < m && 0 <= q * step <= p < q * step + step) by (nonlinear_arith)
                        requires
                            0 <= p < m * step,
                            q == p / step,
                            step > 0,
                    ;
                    let s = ((p / step) * step) as usize;
                    assert(lv[m - 1 - q] == s);
                } else {
                    lemma_low_owner_some(n, top, p);
                    let (l, s) = low_owner(n, top, p)->0;
                    assert(self.level(l as int) == init_low_level(n, l));
                    assert(self.level(l as int)[0] == s);
                }
            }
            assert forall|p: usize| p < size / 4096 implies #[trigger] self.owner@[p as int] is Some by {
                if p >= t_edge {
                    lemma_low_owner_some(n, top, p as int);
                }
            }
            assert(self.free_pages() =~= Set::new(|p: usize| p < size / 4096));
        }
    }

    /// The first non-empty category from `c` on, or `CCOUNT` if there is
    /// none.
    pub closed spec fn first_nonempty(&self, c: int) -> int
        decreases CCOUNT - c,
    {
        if c >= CCOUNT {
            CCOUNT as int
        } else if self.level(c).len() > 0 {
            c
        } else {
            self.first_nonempty(c + 1)
        }
    }

    /// The first non-empty category is in range and every category before
    /// it is empty.
    pub proof fn lemma_first_nonempty(&self, c: int)
        requires
            0 <= c,
        ensures
            c <= CCOUNT ==> c <= self.first_nonempty(c) <= CCOUNT,
            c > CCOUNT ==> self.first_nonempty(c) == CCOUNT,
            self.first_nonempty(c) < CCOUNT ==> self.level(self.first_nonempty(c)).len() > 0,
            forall|l: int| c <= l < self.first_nonempty(c) ==> #[trigger] self.level(l).len() == 0,
        decreases CCOUNT - c,
    {
        if c < CCOUNT && self.level(c).len() == 0 {
            self.lemma_first_nonempty(c + 1);
        }
    }

    /// Take the first block of category `i` and split it down to category
    /// `category`: the upper halves go, one by one, to the heads of the lists
    /// of categories `category .. i`; the lowest `2 ^ category` pages are
    /// handed out. Returns the first page of the block.
    fn take_block(&mut self, i: usize, category: usize) -> (b: usize)
        requires
            old(self).wf(),
            category <= i < CCOUNT,
            old(self).level(i as int).len() > 0,
        ensures
            final(self).wf(),
            b == old(self).level(i as int)[0],
            b + pow2(i as nat) <= old(self).npages(),
            final(self).npages() == old(self).npages(),
            final(self).start() == old(self).start(),
            final(self).level(i as int) == old(self).level(i as int).drop_first(),
            forall|j: int|
                0 <= j < CCOUNT && j != i ==> #[trigger] final(self).level(j) == if category <= j < i {
                    seq![(b + pow2(j as nat)) as usize] + old(self).level(j)
                } else {
                    old(self).level(j)
                },
            forall|p: usize| in_block(p as int, b as int, category as nat) ==> #[trigger] old(self).free_pages().contains(p),
            final(self).free_pages() == old(self).free_pages().filter(
                |p: usize| !in_block(p as int, b as int, category as nat),
            ),
    {
        let ghost pre = *self;
        let ghost len = self.owner@.len();
        proof {
            pre.lemma_owner_of_listed(i as int, 0);
            lemma_pow2_pos(i as nat);
        }
        let mut li = self.free_list[i];
        let b = li.pop_head(&mut self.nodes).unwrap();
        self.free_list.set(i, li);
        proof {
            let bi = pre.level(i as int)[0];
            assert(b == bi);
            assert(b + pow2(i as nat) <= len);
            pre.lemma_others_wf(self.nodes@, i as int, pre.level(i as int).to_set());
            self.owner@ = Seq::new(
                len,
                |p: int|
                    if in_block(p, b as int, i as nat) {
                        None
                    } else {
                        pre.owner@[p]
                    },
            );
            assert(self.lists_wf());
            assert(self.level(i as int) == pre.level(i as int).drop_first());
            assert forall|ii: int, kk: int| 0 <= ii < CCOUNT && 0 <= kk < self.level(ii).len() implies {
                let s = #[trigger] self.level(ii)[kk];
                &&& s + pow2(ii as nat) <= self.nodes@.len()
                &&& forall|p: int|
                    in_block(p, s as int, ii as nat) ==> #[trigger] self.owner@[p] == Some(
                        (ii as nat, s),
                    )
            } by {
                let k0 = if ii == i {
                    kk + 1
                } else {
                    kk
                };
                assert(self.level(ii)[kk] == pre.level(ii)[k0]);
                let s = pre.level(ii)[k0];
                if ii == i {
                    assert(s != b) by {
                        pre.free_list@[i as int].lemma_view_valid(pre.nodes@);
                        assert(pre.level(i as int)[0] == b);
                    }
                }
                assert forall|p: int| in_block(p, s as int, ii as nat) implies #[trigger] self.owner@[p]
                    == Some((ii as nat, s)) by {
                    assert(pre.owner@[p] == Some((ii as nat, s)));
                    if in_block(p, b as int, i as nat) {
                        assert(pre.owner@[p] == Some((i as nat, b)));
                    }
                }
            }
            assert forall|p: int| 0 <= p < self.owner@.len() && #[trigger] self.owner@[p] is Some implies {
                let (ii, s) = self.owner@[p]->0;
                &&& ii < CCOUNT
                &&& self.level(ii as int).contains(s)
                &&& in_block(p, s as int, ii)
            } by {
                let (ii, s) = pre.owner@[p]->0;
                assert(pre.level(ii as int).contains(s));
                if ii == i {
                    if s == b {
                        assert(in_block(p, b as int, i as nat));
                    }
                    let k = pre.level(i as int).index_of(s);
                    pre.level(i as int).index_of_first(s);
                    assert(k != 0);
                    assert(self.level(i as int)[k - 1] == s);
                }
            }
        }
        let mut j = category;
        while j < i
            invariant
                self.wf(),
                pre.wf(),
                category <= j <= i < CCOUNT,
                b == pre.level(i as int)[0],
                b + pow2(i as nat) <= self.npages(),
                self.npages() == pre.npages(),
                self.page_start == pre.page_start,
                len == self.owner@.len(),
                len == pre.owner@.len(),
                self.level(i as int) == pre.level(i as int).drop_first(),
                forall|l: int|
                    0 <= l < CCOUNT && l != i ==> #[trigger] self.level(l) == if category <= l < j {
                        seq![(b + pow2(l as nat)) as usize] + pre.level(l)
                    } else {
                        pre.level(l)
                    },
                forall|p: int|
                    0 <= p < len && !in_block(p, b as int, i as nat) ==> #[trigger] self.owner@[p]
                        == pre.owner@[p],
                forall|p: int|
                    0 <= p < len && in_block(p, b as int, i as nat) ==> (#[trigger] self.owner@[p] is Some
                        <==> b + pow2(category as nat) <= p < b + pow2(j as nat)),
            decreases i - j,
        {
            proof {
                lemma_shl_pow2(j);
                lemma_pow2_unfold((j + 1) as nat);
                lemma_pow2_pos(j as nat);
                lemma_pow2_strictly_increases(j as nat, i as nat);
                if j + 1 < i {
                    lemma_pow2_strictly_increases((j + 1) as nat, i as nat);
                }
                if category < j {
                    lemma_pow2_strictly_increases(category as nat, j as nat);
                }
            }
            let q = b + (1usize << j);
            let ghost cur = *self;
            proof {
                assert(q as int == b + pow2(j as nat));
                assert(q + pow2(j as nat) <= b + pow2(i as nat));
                assert(self.owner@[q as int] is None) by {
                    assert(in_block(q as int, b as int, i as nat));
                }
                assert(!self.level(j as int).contains(q)) by {
                    if self.level(j as int).contains(q) {
                        let k = self.level(j as int).index_of(q);
                        self.level(j as int).index_of_first(q);
                        self.lemma_owner_of_listed(j as int, k);
                    }
                }
            }
            let mut lj = self.free_list[j];
            lj.insert_head(&mut self.nodes, q);
            self.free_list.set(j, lj);
            proof {
                cur.lemma_others_wf(self.nodes@, j as int, cur.level(j as int).to_set().insert(q));
                self.owner@ = Seq::new(
                    len,
                    |p: int|
                        if in_block(p, q as int, j as nat) {
                            Some((j as nat, q))
                        } else {
                            cur.owner@[p]
                        },
                );
                assert(self.lists_wf());
                assert forall|ii: int, kk: int| 0 <= ii < CCOUNT && 0 <= kk < self.level(ii).len() implies {
                    let s = #[trigger] self.level(ii)[kk];
                    &&& s + pow2(ii as nat) <= self.nodes@.len()
                    &&& forall|p: int|
                        in_block(p, s as int, ii as nat) ==> #[trigger] self.owner@[p] == Some(
                            (ii as nat, s),
                        )
                } by {
                    if ii == j && kk == 0 {
                        assert(self.level(ii)[kk] == q);
                    } else {
                        let k0 = if ii == j {
                            kk - 1
                        } else {
                            kk
                        };
                        assert(self.level(ii)[kk] == cur.level(ii)[k0]);
                        let s = cur.level(ii)[k0];
                        assert forall|p: int| in_block(p, s as int, ii as nat) implies #[trigger] self.owner@[p]
                            == Some((ii as nat, s)) by {
                            assert(cur.owner@[p] == Some((ii as nat, s)));
                            if in_block(p, q as int, j as nat) {
                                assert(in_block(p, b as int, i as nat));
                                assert(cur.owner@[p] is None);
                            }
                        }
                    }
                }
                assert forall|p: int| 0 <= p < self.owner@.len() && #[trigger] self.owner@[p] is Some implies {
                    let (ii, s) = self.owner@[p]->0;
                    &&& ii < CCOUNT
                    &&& self.level(ii as int).contains(s)
                    &&& in_block(p, s as int, ii)
                } by {
                    if in_block(p, q as int, j as nat) {
                        assert(self.level(j as int)[0] == q);
                    } else {
                        let (ii, s) = cur.owner@[p]->0;
                        assert(cur.level(ii as int).contains(s));
                        if ii == j {
                            let k = cur.level(j as int).index_of(s);
                            cur.level(j as int).index_of_first(s);
                            assert(self.level(j as int)[k + 1] == s);
                        }
                    }
                }
                assert forall|l: int|
                    0 <= l < CCOUNT && l != i implies #[trigger] self.level(l) == if category <= l < j + 1 {
                    seq![(b + pow2(l as nat)) as usize] + pre.level(l)
                } else {
                    pre.level(l)
                } by {
                    if l == j {
                        assert(cur.level(l) == pre.level(l));
                    } else {
                        assert(self.level(l) == cur.level(l));
                    }
                }
            }
            j = j + 1;
        }
        proof {
            assert forall|p: usize| in_block(p as int, b as int, category as nat) implies #[trigger] pre.free_pages().contains(p) by {
                if category < i {
                    lemma_pow2_strictly_increases(category as nat, i as nat);
                }
                assert(in_block(p as int, b as int, i as nat));
                assert(pre.owner@[p as int] == Some((i as nat, b)));
            }
            assert(self.free_pages() =~= pre.free_pages().filter(
                |p: usize| !in_block(p as int, b as int, category as nat),
            )) by {
                assert forall|p: usize| #[trigger] self.free_pages().contains(p) == pre.free_pages().filter(
                    |p: usize| !in_block(p as int, b as int, category as nat),
                ).contains(p) by {
                    if p < len {
                        if in_block(p as int, b as int, i as nat) {
                            if in_block(p as int, b as int, category as nat) {
                                assert(self.owner@[p as int] is None);
                            } else {
                                assert(pre.owner@[p as int] == Some((i as nat, b)));
                                if category < i {
                                    lemma_pow2_strictly_increases(category as nat, i as nat);
                                }
                                assert(self.owner@[p as int] is Some);
                            }
                        } else {
                            assert(self.owner@[p as int] == pre.owner@[p as int]);
                            if in_block(p as int, b as int, category as nat) {
                                if category < i {
                                    lemma_pow2_strictly_increases(category as nat, i as nat);
                                }
                            }
                        }
                    }
                }
            }
        }
        b
    }

    /// Whether the list of category `i` holds the block starting at page `x`,
    /// found by walking the list from its head.
    fn list_contains(&self, i: usize, x: usize) -> (r: bool)
        requires
            self.wf(),
            i < CCOUNT,
        ensures
            r == self.level(i as int).contains(x),
    {
        let ghost s = self.level(i as int);
        let mut cur = self.free_list[i].first(Ghost(self.nodes@));
        let ghost mut k: int = 0;
        proof {
            assert(self.free_list@[i as int].wf(self.nodes@));
        }
        while cur.is_some()
            invariant
                self.wf(),
                i < CCOUNT,
                s == self.level(i as int),
                0 <= k <= s.len(),
                cur == (if k < s.len() {
                    Some(s[k])
                } else {
                    None::<usize>
                }),
                forall|j: int| 0 <= j < k ==> s[j] != x,
            decreases s.len() - k,
        {
            let c = cur.unwrap();
            if c == x {
                proof {
                    assert(s[k] == x);
                }
                return true;
            }
            proof {
                assert(self.free_list@[i as int].wf(self.nodes@));
                self.free_list@[i as int].lemma_links(self.nodes@, k);
            }
            cur = self.nodes[c].next;
            proof {
                k = k + 1;
            }
        }
        false
    }

    /// Buddy allocation of `size` bytes aligned to `align` bytes.
    ///
    /// The list of the request's category is searched first; if it is empty,
    /// the next higher category, and so on. The first block found is split:
    /// the upper halves go to the lower categories' lists, one by one. The
    /// kernel virtual address of the block's first page is returned, or
    /// *zero* (a null pointer) if no block is free.
    pub fn allocate(&mut self, size: usize, align: usize) -> (r: usize)
        requires
            old(self).wf(),
        ensures
            final(self).wf(),
            final(self).npages() == old(self).npages(),
            final(self).start() == old(self).start(),
            old(self).first_nonempty(request_category(size, align)) >= CCOUNT ==> r == 0
                && final(self).free_pages() == old(self).free_pages() && forall|j: int|
                0 <= j < CCOUNT ==> #[trigger] final(self).level(j) == old(self).level(j),
            old(self).first_nonempty(request_category(size, align)) < CCOUNT ==> r == ULIM + (
            old(self).start() + old(self).level(old(self).first_nonempty(request_category(size, align)))[0])
                * 4096,
            old(self).first_nonempty(request_category(size, align)) < CCOUNT ==> final(self).level(
                old(self).first_nonempty(request_category(size, align)),
            ) == old(self).level(old(self).first_nonempty(request_category(size, align))).drop_first(),
            old(self).first_nonempty(request_category(size, align)) < CCOUNT ==> forall|j: int|
                0 <= j < CCOUNT && j != old(self).first_nonempty(request_category(size, align))
                    ==> #[trigger] final(self).level(j) == if request_category(size, align) <= j
                    < old(self).first_nonempty(request_category(size, align)) {
                    seq![
                        (old(self).level(old(self).first_nonempty(request_category(size, align)))[0]
                            + pow2(j as nat)) as usize,
                    ] + old(self).level(j)
                } else {
                    old(self).level(j)
                },
            old(self).first_nonempty(request_category(size, align)) < CCOUNT ==> forall|p: usize|
                in_block(
                    p as int,
                    old(self).level(old(self).first_nonempty(request_category(size, align)))[0] as int,
                    request_category(size, align) as nat,
                ) ==> #[trigger] old(self).free_pages().contains(p),
            old(self).first_nonempty(request_category(size, align)) < CCOUNT ==> final(self).free_pages()
                == old(self).free_pages().filter(
                |p: usize|
                    !in_block(
                        p as int,
                        old(self).level(old(self).first_nonempty(request_category(size, align)))[0] as int,
                        request_category(size, align) as nat,
                    ),
            ),
    {
        let category = category_of(size, align);
        let ghost need = if size > align {
            size as int
        } else {
            align as int
        };
        proof {
            lemma_category_unique(category as nat, need);
            old(self).lemma_first_nonempty(category as int);
        }
        let mut i = category;
        while i < CCOUNT
            invariant
                old(self).wf(),
                self.wf(),
                self.free_list@ == old(self).free_list@,
                self.nodes@ == old(self).nodes@,
                self.owner@ == old(self).owner@,
                self.page_start == old(self).page_start,
                category <= i,
                category == category_spec(need),
                need == (if size > align {
                    size as int
                } else {
                    align as int
                }),
                old(self).first_nonempty(category as int) == old(self).first_nonempty(i as int),
            decreases CCOUNT - i,
        {
            let li = self.free_list[i];
            proof {
                assert(li.wf(self.nodes@));
            }
            if !li.empty(Ghost(self.nodes@)) {
                proof {
                    assert(self.level(i as int) == old(self).level(i as int));
                    assert(old(self).first_nonempty(i as int) == i);
                    old(self).lemma_first_nonempty(category as int);
                }
                let ghost pre = *self;
                let b = self.take_block(i, category);
                proof {
                    assert(pre.level(i as int) == old(self).level(i as int));
                    assert(forall|j: int| 0 <= j < CCOUNT ==> #[trigger] pre.level(j) == old(self).level(j));
                    assert(pre.free_pages() == old(self).free_pages());
                    assert forall|j: int| 0 <= j < CCOUNT && j != i implies #[trigger] self.level(j)
                        == if category <= j < i {
                        seq![(b + pow2(j as nat)) as usize] + old(self).level(j)
                    } else {
                        old(self).level(j)
                    } by {
                        assert(pre.level(j) == old(self).level(j));
                    }
                    let c = category as int;
                    assert(old(self).first_nonempty(c) == i);
                    assert(b == old(self).level(i as int)[0]);
                    assert(self.level(i as int) == old(self).level(i as int).drop_first());
                    assert(forall|p: usize| in_block(p as int, b as int, c as nat) ==> #[trigger] old(self).free_pages().contains(p));
                    assert(self.free_pages() == old(self).free_pages().filter(
                        |p: usize| !in_block(p as int, b as int, c as nat),
                    ));
                }
                let r = ULIM + (self.page_start + b) * PAGE_SIZE;
                proof {
                    assert(request_category(size, align) == category as int);
                    assert(old(self).first_nonempty(request_category(size, align)) == i);
                    assert(r == ULIM + (old(self).start() + b) * 4096);
                    let c = category as int;
                    let i0 = old(self).first_nonempty(c);
                    assert(i0 == i);
                    assert(forall|j: int| 0 <= j < CCOUNT && j != i0 ==> #[trigger] self.level(j) == if c <= j < i0 {
                            seq![(b + pow2(j as nat)) as usize] + old(self).level(j)
                        } else {
                            old(self).level(j)
                        });
                }
                return r;
            }
            proof {
                assert(old(self).level(i as int).len() == 0);
                assert(old(self).first_nonempty(i as int) == old(self).first_nonempty(i as int + 1));
            }
            i = i + 1;
        }
        proof {
            assert(request_category(size, align) == category as int);
            assert(forall|j: int| 0 <= j < CCOUNT ==> #[trigger] self.level(j) == old(self).level(j));
        }
        0
    }

    /// The heap page, counted from the first heap page, of the kernel
    /// virtual address `ptr`.
    pub open spec fn heap_index(&self, ptr: usize) -> int {
        (ptr - ULIM) / 4096 - self.start()
    }

    /// Buddy deallocation of the `size` bytes aligned to `align` bytes at the
    /// kernel virtual address `ptr`, which the allocator handed out.
    ///
    /// The block is inserted into its category's free list unless its buddy
    /// is free; then the buddy is taken out of the list, the two are merged
    /// into one block of the next higher category, and the same is done
    /// there, up to the topmost category.
    pub fn deallocate(&mut self, ptr: usize, size: usize, align: usize)
        requires
            old(self).wf(),
            ptr >= ULIM,
            (ptr - ULIM) / 4096 >= old(self).start(),
            request_category(size, align) < CCOUNT ==> old(self).heap_index(ptr) + pow2(
                request_category(size, align) as nat,
            ) <= old(self).npages(),
            request_category(size, align) < CCOUNT ==> forall|p: usize|
                in_block(p as int, old(self).heap_index(ptr), request_category(size, align) as nat)
                    ==> !(#[trigger] old(self).free_pages().contains(p)),
        ensures
            final(self).wf(),
            final(self).npages() == old(self).npages(),
            final(self).start() == old(self).start(),
            request_category(size, align) >= CCOUNT ==> final(self).free_pages() == old(self).free_pages(),
            request_category(size, align) < CCOUNT ==> final(self).free_pages() == old(self).free_pages().union(
                Set::new(
                    |p: usize|
                        in_block(p as int, old(self).heap_index(ptr), request_category(size, align) as nat),
                ),
            ),
            request_category(size, align) >= CCOUNT ==> final(self).levels() == old(self).levels(),
            request_category(size, align) < CCOUNT ==> final(self).levels() == dealloc_levels(
                old(self).levels(),
                old(self).heap_index(ptr) as usize,
                request_category(size, align),
                CCOUNT - 1,
            ),
    {
        let pa = crate::memory::regions::paddr(ptr);
        let pn = crate::memory::regions::ppn(pa);
        let mut page_index = pn - self.page_start;
        let category = category_of(size, align);
        let ghost need = if size > align {
            size as int
        } else {
            align as int
        };
        proof {
            lemma_category_unique(category as nat, need);
        }
        if category >= CCOUNT {
            return ;
        }
        let ghost idx0 = page_index as int;
        let ghost freed = Set::new(|p: usize| in_block(p as int, idx0, category as nat));
        let ghost len = self.owner@.len();
        proof {
            assert(request_category(size, align) == category as int);
            assert(idx0 == old(self).heap_index(ptr));
            assert forall|p: int| in_block(p, page_index as int, category as nat) implies #[trigger] self.owner@[p] is None by {
                let q = p as usize;
                assert(in_block(q as int, old(self).heap_index(ptr), request_category(size, align) as nat));
                assert(!old(self).free_pages().contains(q));
            }
        }
        let mut i = category;
        let mut done = false;
        while !done
            invariant
                self.wf(),
                old(self).wf(),
                category <= i < CCOUNT,
                self.nodes@.len() == old(self).nodes@.len(),
                self.page_start == old(self).page_start,
                len == self.owner@.len(),
                !done ==> page_index + pow2(i as nat) <= len,
                !done ==> forall|p: int| in_block(p, page_index as int, i as nat) ==> #[trigger] self.owner@[p] is None,
                !done ==> self.free_pages().union(Set::new(|p: usize| in_block(p as int, page_index as int, i as nat)))
                    == old(self).free_pages().union(freed),
                done ==> self.free_pages() == old(self).free_pages().union(freed),
                !done ==> dealloc_levels(self.levels(), page_index, i as int, CCOUNT - 1) == dealloc_levels(
                    old(self).levels(),
                    idx0 as usize,
                    category as int,
                    CCOUNT - 1,
                ),
                done ==> self.levels() == dealloc_levels(old(self).levels(), idx0 as usize, category as int, CCOUNT - 1),
            decreases CCOUNT - i + if done {
                0int
            } else {
                1int
            },
        {
            proof {
                lemma_shl_pow2(i);
                lemma_pow2_pos(i as nat);
            }
            let bud = page_index ^ (1usize << i);
            let ghost cur = *self;
            if i != CCOUNT - 1 && self.list_contains(i, bud) {
                let ghost k = self.level(i as int).index_of(bud);
                proof {
                    self.level(i as int).index_of_first(bud);
                    self.lemma_owner_of_listed(i as int, k);
                    lemma_xor_bit(page_index, i);
                    lemma_pow2_unfold((i + 1) as nat);
                    assert(bud + pow2(i as nat) <= len);
                    if page_index & (1usize << i) == 0 {
                        assert(bud == page_index + pow2(i as nat));
                    } else {
                        assert(bud == page_index - pow2(i as nat));
                    }
                }
                let mut li = self.free_list[i];
                li.remove(&mut self.nodes, bud);
                self.free_list.set(i, li);
                proof {
                    cur.lemma_others_wf(self.nodes@, i as int, cur.level(i as int).to_set());
                    self.owner@ = Seq::new(
                        len,
                        |p: int|
                            if in_block(p, bud as int, i as nat) {
                                None
                            } else {
                                cur.owner@[p]
                            },
                    );
                    let s2 = self.level(i as int);
                    assert(s2 == cur.level(i as int).remove(k));
                    assert(self.lists_wf());
                    assert forall|ii: int, kk: int| 0 <= ii < CCOUNT && 0 <= kk < self.level(ii).len() implies {
                        let s = #[trigger] self.level(ii)[kk];
                        &&& s + pow2(ii as nat) <= self.nodes@.len()
                        &&& forall|p: int|
                            in_block(p, s as int, ii as nat) ==> #[trigger] self.owner@[p] == Some(
                                (ii as nat, s),
                            )
                    } by {
                        let k0 = if ii == i && kk >= k {
                            kk + 1
                        } else {
                            kk
                        };
                        assert(self.level(ii)[kk] == cur.level(ii)[k0]);
                        let s = cur.level(ii)[k0];
                        if ii == i {
                            cur.free_list@[i as int].lemma_view_valid(cur.nodes@);
                            assert(s != bud);
                        }
                        assert forall|p: int| in_block(p, s as int, ii as nat) implies #[trigger] self.owner@[p]
                            == Some((ii as nat, s)) by {
                            assert(cur.owner@[p] == Some((ii as nat, s)));
                            if in_block(p, bud as int, i as nat) {
                                assert(cur.owner@[p] == Some((i as nat, bud)));
                            }
                        }
                    }
                    assert forall|p: int| 0 <= p < self.owner@.len() && #[trigger] self.owner@[p] is Some implies {
                        let (ii, s) = self.owner@[p]->0;
                        &&& ii < CCOUNT
                        &&& self.level(ii as int).contains(s)
                        &&& in_block(p, s as int, ii)
                    } by {
                        let (ii, s) = cur.owner@[p]->0;
                        assert(cur.level(ii as int).contains(s));
                        if ii == i {
                            if s == bud {
                                assert(in_block(p, bud as int, i as nat));
                            }
                            let kk = cur.level(i as int).index_of(s);
                            cur.level(i as int).index_of_first(s);
                            assert(kk != k);
                            if kk < k {
                                assert(s2[kk] == s);
                            } else {
                                assert(s2[kk - 1] == s);
                            }
                        }
                    }
                }
                let ghost old_index = page_index;
                proof {
                    assert(bud == buddy_of(page_index, i as int));
                    assert(self.levels() =~= cur.levels().update(
                        i as int,
                        cur.level(i as int).remove(cur.level(i as int).index_of(bud)),
                    ));
                    assert(cur.levels()[i as int].contains(buddy_of(page_index, i as int)));
                }
                page_index = if page_index < bud {
                    page_index
                } else {
                    bud
                };
                i = i + 1;
                proof {
                    assert forall|p: int| in_block(p, page_index as int, i as nat) implies #[trigger] self.owner@[p] is None by {
                        if !in_block(p, bud as int, (i - 1) as nat) {
                            assert(in_block(p, old_index as int, (i - 1) as nat));
                        }
                    }
                    let newblock = Set::new(|p: usize| in_block(p as int, page_index as int, i as nat));
                    let oldblock = Set::new(|p: usize| in_block(p as int, old_index as int, (i - 1) as nat));
                    assert(self.free_pages().union(newblock) =~= cur.free_pages().union(oldblock)) by {
                        assert forall|p: usize| #[trigger] self.free_pages().union(newblock).contains(p)
                            == cur.free_pages().union(oldblock).contains(p) by {
                            if in_block(p as int, bud as int, (i - 1) as nat) {
                                assert(cur.owner@[p as int] == Some(((i - 1) as nat, bud)));
                            }
                        }
                    }
                }
            } else {
                proof {
                    assert(!self.level(i as int).contains(page_index)) by {
                        if self.level(i as int).contains(page_index) {
                            let kk = self.level(i as int).index_of(page_index);
                            self.level(i as int).index_of_first(page_index);
                            self.lemma_owner_of_listed(i as int, kk);
                            assert(in_block(page_index as int, page_index as int, i as nat));
                        }
                    }
                }
                let mut li = self.free_list[i];
                li.insert_head(&mut self.nodes, page_index);
                self.free_list.set(i, li);
                proof {
                    cur.lemma_others_wf(self.nodes@, i as int, cur.level(i as int).to_set().insert(page_index));
                    self.owner@ = Seq::new(
                        len,
                        |p: int|
                            if in_block(p, page_index as int, i as nat) {
                                Some((i as nat, page_index))
                            } else {
                                cur.owner@[p]
                            },
                    );
                    assert(self.lists_wf());
                    assert forall|ii: int, kk: int| 0 <= ii < CCOUNT && 0 <= kk < self.level(ii).len() implies {
                        let s = #[trigger] self.level(ii)[kk];
                        &&& s + pow2(ii as nat) <= self.nodes@.len()
                        &&& forall|p: int|
                            in_block(p, s as int, ii as nat) ==> #[trigger] self.owner@[p] == Some(
                                (ii as nat, s),
                            )
                    } by {
                        if ii == i && kk == 0 {
                            assert(self.level(ii)[kk] == page_index);
                        } else {
                            let k0 = if ii == i {
                                kk - 1
                            } else {
                                kk
                            };
                            assert(self.level(ii)[kk] == cur.level(ii)[k0]);
                            let s = cur.level(ii)[k0];
                            assert forall|p: int| in_block(p, s as int, ii as nat) implies #[trigger] self.owner@[p]
                                == Some((ii as nat, s)) by {
                                assert(cur.owner@[p] == Some((ii as nat, s)));
                                if in_block(p, page_index as int, i as nat) {
                                    assert(cur.owner@[p] is None);
                                }
                            }
                        }
                    }
                    assert forall|p: int| 0 <= p < self.owner@.len() && #[trigger] self.owner@[p] is Some implies {
                        let (ii, s) = self.owner@[p]->0;
                        &&& ii < CCOUNT
                        &&& self.level(ii as int).contains(s)
                        &&& in_block(p, s as int, ii)
                    } by {
                        if in_block(p, page_index as int, i as nat) {
                            assert(self.level(i as int)[0] == page_index);
                        } else {
                            let (ii, s) = cur.owner@[p]->0;
                            assert(cur.level(ii as int).contains(s));
                            if ii == i {
                                let kk = cur.level(i as int).index_of(s);
                                cur.level(i as int).index_of_first(s);
                                assert(self.level(i as int)[kk + 1] == s);
                            }
                        }
                    }
                    let block = Set::new(|p: usize| in_block(p as int, page_index as int, i as nat));
                    assert(self.free_pages() =~= cur.free_pages().union(block));
                    assert(bud == buddy_of(page_index, i as int));
                    assert(!(0 <= i < CCOUNT - 1 && cur.levels()[i as int].contains(buddy_of(page_index, i as int))));
                    assert(self.levels() =~= cur.levels().update(i as int, seq![page_index] + cur.level(i as int)));
                }
                done = true;
            }
        }
        proof {
            assert(request_category(size, align) == category as int);
            assert(idx0 == old(self).heap_index(ptr));
        }
    }
}

impl<const CCOUNT: usize> Default for BuddyInner<CCOUNT> {
    /// Default construction: a fresh, uninitialized system.
    fn default() -> (r: Self)
        ensures
            r.is_fresh(),
    {
        Self::new()
    }
}

/// The allocator handed to the rest of the kernel: a wrapper around the
/// buddy system.
pub struct BuddyAllocator<const CCOUNT: usize>(pub BuddyInner<CCOUNT>);

impl<const CCOUNT: usize> BuddyAllocator<CCOUNT> {
    /// Just build an inner struct.
    pub fn new() -> (r: Self)
        ensures
            r.0.is_fresh(),
    {
        BuddyAllocator(BuddyInner::new())
    }

    /// Just initialize the inner struct, see [BuddyInner::init].
    pub fn init(&mut self, page_start: usize, size: usize)
        requires
            old(self).0.is_fresh(),
            1 <= CCOUNT <= 32,
            ULIM + (page_start + size / 4096) * 4096 <= usize::MAX,
        ensures
            final(self).0.wf(),
            final(self).0.npages() == size / 4096,
            final(self).0.start() == page_start,
            final(self).0.free_pages() == Set::new(|p: usize| p < size / 4096),
            forall|l: int| 0 <= l < CCOUNT - 1 ==> #[trigger] final(self).0.level(l) == init_low_level(
                (size / 4096) as int,
                l as nat,
            ),
            final(self).0.level(CCOUNT - 1) == Seq::new(
                ((size / 4096) as int / (pow2((CCOUNT - 1) as nat) as int)) as nat,
                |k: int|
                    (((size / 4096) as int / (pow2((CCOUNT - 1) as nat) as int) - 1 - k) * (pow2((CCOUNT - 1) as nat) as int)) as usize,
            ),
    {
        self.0.init(page_start, size)
    }

    /// Allocate `size` bytes aligned to `align` bytes; see
    /// [BuddyInner::allocate]. Returns the kernel virtual address of the
    /// block, or *zero* if none is free.
    pub fn allocate(&mut self, size: usize, align: usize) -> (r: usize)
        requires
            old(self).0.wf(),
        ensures
            final(self).0.wf(),
            final(self).0.npages() == old(self).0.npages(),
            final(self).0.start() == old(self).0.start(),
            old(self).0.first_nonempty(request_category(size, align)) >= CCOUNT ==> r == 0
                && final(self).0.free_pages() == old(self).0.free_pages() && forall|j: int|
                0 <= j < CCOUNT ==> #[trigger] final(self).0.level(j) == old(self).0.level(j),
            old(self).0.first_nonempty(request_category(size, align)) < CCOUNT ==> r == ULIM + (
            old(self).0.start() + old(self).0.level(old(self).0.first_nonempty(request_category(size, align)))[0])
                * 4096,
            old(self).0.first_nonempty(request_category(size, align)) < CCOUNT ==> final(self).0.level(
                old(self).0.first_nonempty(request_category(size, align)),
            ) == old(self).0.level(old(self).0.first_nonempty(request_category(size, align))).drop_first(),
            old(self).0.first_nonempty(request_category(size, align)) < CCOUNT ==> forall|j: int|
                0 <= j < CCOUNT && j != old(self).0.first_nonempty(request_category(size, align))
                    ==> #[trigger] final(self).0.level(j) == if request_category(size, align) <= j
                    < old(self).0.first_nonempty(request_category(size, align)) {
                    seq![
                        (old(self).0.level(old(self).0.first_nonempty(request_category(size, align)))[0]
                            + pow2(j as nat)) as usize,
                    ] + old(self).0.level(j)
                } else {
                    old(self).0.level(j)
                },
            old(self).0.first_nonempty(request_category(size, align)) < CCOUNT ==> forall|p: usize|
                in_block(
                    p as int,
                    old(self).0.level(old(self).0.first_nonempty(request_category(size, align)))[0] as int,
                    request_category(size, align) as nat,
                ) ==> #[trigger] old(self).0.free_pages().contains(p),
            old(self).0.first_nonempty(request_category(size, align)) < CCOUNT ==> final(self).0.free_pages()
                == old(self).0.free_pages().filter(
                |p: usize|
                    !in_block(
                        p as int,
                        old(self).0.level(old(self).0.first_nonempty(request_category(size, align)))[0] as int,
                        request_category(size, align) as nat,
                    ),
            ),
    {
        self.0.allocate(size, align)
    }

    /// Give back the `size` bytes aligned to `align` bytes at `ptr`; see
    /// [BuddyInner::deallocate].
    pub fn deallocate(&mut self, ptr: usize, size: usize, align: usize)
        requires
            old(self).0.wf(),
            ptr >= ULIM,
            (ptr - ULIM) / 4096 >= old(self).0.start(),
            request_category(size, align) < CCOUNT ==> old(self).0.heap_index(ptr) + pow2(
                request_category(size, align) as nat,
            ) <= old(self).0.npages(),
            request_category(size, align) < CCOUNT ==> forall|p: usize|
                in_block(p as int, old(self).0.heap_index(ptr), request_category(size, align) as nat)
                    ==> !(#[trigger] old(self).0.free_pages().contains(p)),
        ensures
            final(self).0.wf(),
            final(self).0.npages() == old(self).0.npages(),
            final(self).0.start() == old(self).0.start(),
            request_category(size, align) >= CCOUNT ==> final(self).0.free_pages() == old(self).0.free_pages(),
            request_category(size, align) < CCOUNT ==> final(self).0.free_pages() == old(self).0.free_pages().union(
                Set::new(
                    |p: usize|
                        in_block(p as int, old(self).0.heap_index(ptr), request_category(size, align) as nat),
                ),
            ),
            request_category(size, align) >= CCOUNT ==> final(self).0.levels() == old(self).0.levels(),
            request_category(size, align) < CCOUNT ==> final(self).0.levels() == dealloc_levels(
                old(self).0.levels(),
                old(self).0.heap_index(ptr) as usize,
                request_category(size, align),
                CCOUNT - 1,
            ),
    {
        self.0.deallocate(ptr, size, align)
    }
}

impl<const CCOUNT: usize> Default for BuddyAllocator<CCOUNT> {
    /// Default construction: a fresh, uninitialized allocator.
    fn default() -> (r: Self)
        ensures
            r.0.is_fresh(),
    {
        Self::new()
    }
}

/// Law: deallocating the block just allocated, at the address the
/// allocator handed out, gives back the set of free pages as it was, see
/// [allocate](BuddyInner::allocate) and [deallocate](BuddyInner::deallocate).
pub proof fn law_allocate_then_deallocate<const CCOUNT: usize>(
    before: BuddyInner<CCOUNT>,
    allocated: BuddyInner<CCOUNT>,
    freed: BuddyInner<CCOUNT>,
    ptr: usize,
    block: int,
    c: nat,
)
    requires
        ptr == ULIM + (before.start() + block) * 4096,
        block >= 0,
        allocated.start() == before.start(),
        forall|p: usize| in_block(p as int, block, c) ==> #[trigger] before.free_pages().contains(p),
        allocated.free_pages() == before.free_pages().filter(|p: usize| !in_block(p as int, block, c)),
        freed.free_pages() == allocated.free_pages().union(
            Set::new(|p: usize| in_block(p as int, allocated.heap_index(ptr), c)),
        ),
    ensures
        allocated.heap_index(ptr) == block,
        freed.free_pages() == before.free_pages(),
{
    assert(allocated.heap_index(ptr) == block) by (nonlinear_arith)
        requires
            ptr == ULIM + (before.start() + block) * 4096,
            allocated.start() == before.start(),
            allocated.heap_index(ptr) == (ptr - ULIM) / 4096 - allocated.start(),
            block >= 0,
    ;
    assert(freed.free_pages() =~= before.free_pages());
}

/// Freeing the block `b` into category `j`, after a split of the block `b`
/// of category `f` put the upper halves of the categories `j .. f` into
/// their otherwise empty lists, merges them all back and puts `b` at the
/// head of the list of category `f` again.
proof fn lemma_dealloc_undoes_split(lv: Seq<Seq<usize>>, orig: Seq<Seq<usize>>, b: usize, j: int, f: int, top: int)
    requires
        0 <= j <= f <= top,
        lv.len() == top + 1,
        orig.len() == top + 1,
        forall|k: int| j <= k < f ==> #[trigger] orig[k].len() == 0,
        forall|k: int| j <= k < f ==> #[trigger] lv[k] == seq![buddy_of(b, k)],
        forall|k: int| j <= k < f ==> b < #[trigger] buddy_of(b, k),
        orig[f].len() > 0,
        orig[f][0] == b,
        lv[f] == orig[f].drop_first(),
        forall|k: int| 0 <= k <= top && (k < j || k > f) ==> #[trigger] lv[k] == orig[k],
        f < top ==> !lv[f].contains(buddy_of(b, f)),
    ensures
        dealloc_levels(lv, b, j, top) == orig,
    decreases f - j,
{
    if j < f {
        let bud = buddy_of(b, j);
        assert(lv[j][0] == bud);
        assert(lv[j].contains(bud));
        let idx = lv[j].index_of(bud);
        assert(idx == 0);
        let lv2 = lv.update(j, lv[j].remove(idx));
        assert(lv2[j] =~= orig[j]);
        lemma_dealloc_undoes_split(lv2, orig, b, j + 1, f, top);
    } else {
        assert(seq![b] + lv[f] =~= orig[f]);
        assert(lv.update(f, seq![b] + lv[f]) =~= orig);
    }
}

/// An address aligned to `2 ^ f` pages has the bits below `f` clear.
proof fn lemma_aligned_bit(b: usize, k: usize, f: usize)
    requires
        k < f < 32,
        b % (1usize << f) == 0,
    ensures
        b & (1usize << k) == 0,
{
    assert(b & (1usize << k) == 0) by (bit_vector)
        requires
            k < f < 32,
            b % (1usize << f) == 0,
    ;
}

/// Law: freeing the block just allocated, at the address the allocator
/// handed out, merges the split halves back and gives back every free list
/// as it was, where the block taken was aligned to its size and its buddy
/// was not free; see [allocate](BuddyInner::allocate) and
/// [deallocate](BuddyInner::deallocate).
pub proof fn law_allocate_then_deallocate_lists<const CCOUNT: usize>(
    before: BuddyInner<CCOUNT>,
    allocated: BuddyInner<CCOUNT>,
    freed: BuddyInner<CCOUNT>,
    ptr: usize,
    c: int,
    f: int,
    b: usize,
)
    requires
        before.wf(),
        0 <= c < CCOUNT,
        f == before.first_nonempty(c),
        f < CCOUNT,
        b == before.level(f)[0],
        ptr == ULIM + (before.start() + b) * 4096,
        allocated.start() == before.start(),
        allocated.level(f) == before.level(f).drop_first(),
        forall|j: int|
            0 <= j < CCOUNT && j != f ==> #[trigger] allocated.level(j) == if c <= j < f {
                seq![(b + pow2(j as nat)) as usize] + before.level(j)
            } else {
                before.level(j)
            },
        freed.levels() == dealloc_levels(allocated.levels(), allocated.heap_index(ptr) as usize, c, CCOUNT - 1),
        b as int % pow2(f as nat) as int == 0,
        f < CCOUNT - 1 ==> !before.level(f).contains(buddy_of(b, f)),
    ensures
        freed.levels() == before.levels(),
{
    before.lemma_first_nonempty(c);
    assert(allocated.heap_index(ptr) == b) by (nonlinear_arith)
        requires
            ptr == ULIM + (before.start() + b) * 4096,
            allocated.start() == before.start(),
            allocated.heap_index(ptr) == (ptr - ULIM) / 4096 - allocated.start(),
    ;
    let top = CCOUNT - 1;
    let lv = allocated.levels();
    let orig = before.levels();
    lemma_shl_pow2(f as usize);
    assert forall|k: int| c <= k < f implies #[trigger] buddy_of(b, k) == (b + pow2(k as nat)) as usize && b
        < buddy_of(b, k) by {
        lemma_shl_pow2(k as usize);
        lemma_aligned_bit(b, k as usize, f as usize);
        lemma_xor_bit(b, k as usize);
        lemma_pow2_pos(k as nat);
    }
    assert forall|k: int| c <= k < f implies #[trigger] lv[k] == seq![buddy_of(b, k)] by {
        assert(before.level(k).len() == 0);
        assert(allocated.level(k) =~= seq![(b + pow2(k as nat)) as usize]);
    }
    assert forall|k: int| c <= k < f implies #[trigger] orig[k].len() == 0 by {
        assert(before.level(k).len() == 0);
    }
    assert forall|k: int| 0 <= k <= top && (k < c || k > f) implies #[trigger] lv[k] == orig[k] by {}
    if f < top {
        assert(!lv[f].contains(buddy_of(b, f))) by {
            if lv[f].contains(buddy_of(b, f)) {
                let w = lv[f].index_of(buddy_of(b, f));
                assert(before.level(f)[w + 1] == buddy_of(b, f));
            }
        }
    }
    lemma_dealloc_undoes_split(lv, orig, b, c, f, top);
}

} // verus!
