//! An intrusive doubly linked list whose nodes live in a caller-owned arena.
//!
//! A node is named by its index in the arena. Several lists may thread
//! through one arena (the page array, for instance, carries the free-page
//! list and the buddy system's lists), as long as no node is in two lists at
//! once. Each node carries its own data, which the lists never touch.

use vstd::prelude::*;

verus! {

/// The node of a [LinkList].
///
/// `next` names the next node, `prev` the previous one; both are `None` at
/// the ends of a list and for a node that is in no list.
#[derive(Clone, Copy)]
pub struct LinkNode<T: Copy> {
    /// The next node. `None` if this is the last node.
    pub next: Option<usize>,
    /// The previous node. `None` if this is the first node.
    pub prev: Option<usize>,
    /// The data stored in the node.
    pub data: T,
}

impl<T: Copy> LinkNode<T> {
    /// Create a node with its linking fields empty.
    pub fn new(data: T) -> (r: LinkNode<T>)
        ensures
            r.next.is_none(),
            r.prev.is_none(),
            r.data == data,
    {
        LinkNode { prev: None, next: None, data }
    }
}

/// The `next` link that the `i`-th element of the list `s` must carry.
pub open spec fn next_of(s: Seq<usize>, i: int) -> Option<usize> {
    if i + 1 < s.len() {
        Some(s[i + 1])
    } else {
        None
    }
}

/// The `prev` link that the `i`-th element of the list `s` must carry.
pub open spec fn prev_of(s: Seq<usize>, i: int) -> Option<usize> {
    if i > 0 {
        Some(s[i - 1])
    } else {
        None
    }
}

/// Whether the arena `new` keeps the links of every node that is not in
/// `changed`, and the data of every node.
pub open spec fn links_kept_except<T: Copy>(
    old_nodes: Seq<LinkNode<T>>,
    new_nodes: Seq<LinkNode<T>>,
    changed: Set<usize>,
) -> bool {
    &&& new_nodes.len() == old_nodes.len()
    &&& forall|k: int|
        0 <= k < new_nodes.len() ==> (#[trigger] new_nodes[k]).data == old_nodes[k].data
    &&& forall|k: int|
        0 <= k < new_nodes.len() && !changed.contains(k as usize) ==> (#[trigger] new_nodes[k]).next
            == old_nodes[k].next && new_nodes[k].prev == old_nodes[k].prev
}

/// The head of a [LinkList]. The view is the sequence of node indices from
/// the head on; the list is empty if and only if `head` is `None`.
#[derive(Clone, Copy)]
pub struct LinkList<T: Copy> {
    /// The first node of this list.
    pub head: Option<usize>,
    /// The indices in the list, from the head on.
    list: Ghost<Seq<usize>>,
    /// The type of the data carried by the nodes.
    _marker: Ghost<Option<T>>,
}

impl<T: Copy> View for LinkList<T> {
    type V = Seq<usize>;

    closed spec fn view(&self) -> Seq<usize> {
        self.list@
    }
}

impl<T: Copy> LinkList<T> {
    /// Well-formedness over the arena `nodes`: the list holds distinct
    /// indices of the arena, `head` names its first element and each listed
    /// node links to its neighbours in the list.
    pub closed spec fn wf(&self, nodes: Seq<LinkNode<T>>) -> bool {
        &&& self.list@.no_duplicates()
        &&& forall|i: int| 0 <= i < self.list@.len() ==> #[trigger] self.list@[i] < nodes.len()
        &&& self.head == (if self.list@.len() == 0 {
            None
        } else {
            Some(self.list@[0])
        })
        &&& forall|i: int|
            0 <= i < self.list@.len() ==> (#[trigger] nodes[self.list@[i] as int]).next == next_of(
                self.list@,
                i,
            ) && nodes[self.list@[i] as int].prev == prev_of(self.list@, i)
    }

    /// The view of a well-formed list holds distinct arena indices.
    pub proof fn lemma_view_valid(&self, nodes: Seq<LinkNode<T>>)
        requires
            self.wf(nodes),
        ensures
            self@.no_duplicates(),
            forall|i: int| 0 <= i < self@.len() ==> #[trigger] self@[i] < nodes.len(),
    {
    }

    /// The links that the nodes of a well-formed list carry.
    pub proof fn lemma_links(&self, nodes: Seq<LinkNode<T>>, k: int)
        requires
            self.wf(nodes),
            0 <= k < self@.len(),
        ensures
            self@[k] < nodes.len(),
            nodes[self@[k] as int].next == next_of(self@, k),
            nodes[self@[k] as int].prev == prev_of(self@, k),
    {
    }

    /// A list stays well-formed over an arena that keeps the links of all
    /// its nodes.
    pub proof fn lemma_wf_frame(&self, old_nodes: Seq<LinkNode<T>>, new_nodes: Seq<LinkNode<T>>)
        requires
            self.wf(old_nodes),
            new_nodes.len() == old_nodes.len(),
            forall|i: int|
                0 <= i < self@.len() ==> (#[trigger] new_nodes[self@[i] as int]).next
                    == old_nodes[self@[i] as int].next && new_nodes[self@[i] as int].prev
                    == old_nodes[self@[i] as int].prev,
        ensures
            self.wf(new_nodes),
    {
        assert forall|i: int| 0 <= i < self.list@.len() implies (#[trigger] new_nodes[self.list@[
            i] as int]).next == next_of(self.list@, i) && new_nodes[self.list@[i] as int].prev
            == prev_of(self.list@, i) by {
            assert(old_nodes[self.list@[i] as int].next == next_of(self.list@, i));
            assert(new_nodes[self@[i] as int].next == old_nodes[self@[i] as int].next);
        }
    }

    /// An empty list is well-formed over every arena it is well-formed over
    /// one of.
    pub proof fn lemma_empty_wf(&self, a: Seq<LinkNode<T>>, b: Seq<LinkNode<T>>)
        requires
            self.wf(a),
            self@.len() == 0,
        ensures
            self.wf(b),
    {
    }

    /// A list stays well-formed when the arena grows.
    pub proof fn lemma_grow_wf(&self, a: Seq<LinkNode<T>>, b: Seq<LinkNode<T>>)
        requires
            self.wf(a),
            a.len() <= b.len(),
            forall|k: int| 0 <= k < a.len() ==> #[trigger] b[k] == a[k],
        ensures
            self.wf(b),
    {
        assert forall|i: int| 0 <= i < self.list@.len() implies (#[trigger] b[self.list@[i] as int]).next
            == next_of(self.list@, i) && b[self.list@[i] as int].prev == prev_of(self.list@, i) by {
            assert(b[self.list@[i] as int] == a[self.list@[i] as int]);
        }
    }

    /// Create an empty list.
    pub fn new() -> (r: Self)
        ensures
            r@ == Seq::<usize>::empty(),
            forall|nodes: Seq<LinkNode<T>>| r.wf(nodes),
    {
        LinkList { head: None, list: Ghost(Seq::empty()), _marker: Ghost(None) }
    }

    /// Judge whether this list is empty.
    pub fn empty(&self, Ghost(nodes): Ghost<Seq<LinkNode<T>>>) -> (r: bool)
        requires
            self.wf(nodes),
        ensures
            r == (self@.len() == 0),
    {
        self.head.is_none()
    }

    /// The first node of the list, if any.
    pub fn first(&self, Ghost(nodes): Ghost<Seq<LinkNode<T>>>) -> (r: Option<usize>)
        requires
            self.wf(nodes),
        ensures
            r == (if self@.len() == 0 {
                None
            } else {
                Some(self@[0])
            }),
    {
        self.head
    }

    /// Whether the list holds at least `n` nodes, counted by following the
    /// links from the head.
    pub fn len_at_least(&self, nodes: &Vec<LinkNode<T>>, n: usize) -> (r: bool)
        requires
            self.wf(nodes@),
        ensures
            r == (self@.len() >= n),
    {
        let mut cur = self.head;
        let mut k: usize = 0;
        while k < n
            invariant
                self.wf(nodes@),
                k <= n,
                k <= self@.len(),
                cur == (if k < self@.len() {
                    Some(self@[k as int])
                } else {
                    None
                }),
            decreases n - k,
        {
            match cur {
                None => {
                    return false;
                },
                Some(i) => {
                    proof {
                        self.lemma_links(nodes@, k as int);
                    }
                    cur = nodes[i].next;
                    k = k + 1;
                },
            }
        }
        true
    }

    /// Insert the node `item` at the head of the list.
    pub fn insert_head(&mut self, nodes: &mut Vec<LinkNode<T>>, item: usize)
        requires
            old(self).wf(old(nodes)@),
            item < old(nodes)@.len(),
            !old(self)@.contains(item),
        ensures
            final(self).wf(final(nodes)@),
            final(self)@ == seq![item] + old(self)@,
            links_kept_except(old(nodes)@, final(nodes)@, old(self)@.to_set().insert(item)),
    {
        let ghost s = self.list@;
        let ghost s2 = seq![item] + s;
        let ghost pre = nodes@;
        let old_item = nodes[item];
        match self.head {
            None => {
                nodes.set(item, LinkNode { next: None, prev: None, data: old_item.data });
            },
            Some(i) => {
                proof {
                    assert(s[0] == i);
                    assert(nodes@[s[0] as int].next == next_of(s, 0));
                    assert(s.contains(i));
                }
                let old_head = nodes[i];
                nodes.set(i, LinkNode { next: old_head.next, prev: Some(item), data: old_head.data });
                nodes.set(item, LinkNode { next: Some(i), prev: None, data: old_item.data });
            },
        }
        self.head = Some(item);
        proof {
            self.list@ = s2;
            assert forall|j: int| 0 <= j < s2.len() implies #[trigger] s2[j] < nodes@.len() by {
                if j > 0 {
                    assert(s2[j] == s[j - 1]);
                }
            }
            assert forall|j: int| 0 <= j < s2.len() implies (#[trigger] nodes@[s2[j] as int]).next
                == next_of(s2, j) && nodes@[s2[j] as int].prev == prev_of(s2, j) by {
                if j > 0 {
                    assert(s2[j] == s[j - 1]);
                    assert(pre[s[j - 1] as int].next == next_of(s, j - 1));
                    if j > 1 {
                        assert(s[j - 1] != s[0]);
                    }
                    assert(s.contains(s[j - 1]));
                }
            }
            assert(s2.no_duplicates()) by {
                assert forall|a: int, b: int| 0 <= a < b < s2.len() implies s2[a] != s2[b] by {
                    if a == 0 {
                        assert(s.contains(s2[b]));
                    }
                }
            }
            assert forall|k: int|
                0 <= k < nodes@.len() && !s.to_set().insert(item).contains(
                    k as usize,
                ) implies (#[trigger] nodes@[k]).next == pre[k].next && nodes@[k].prev
                == pre[k].prev by {
                if s.len() > 0 {
                    assert(s.to_set().contains(s[0]));
                }
            }
        }
    }

    /// Get the first node of this list and remove it. `None` is returned if
    /// the list is empty.
    pub fn pop_head(&mut self, nodes: &mut Vec<LinkNode<T>>) -> (r: Option<usize>)
        requires
            old(self).wf(old(nodes)@),
        ensures
            final(self).wf(final(nodes)@),
            r == (if old(self)@.len() == 0 {
                None
            } else {
                Some(old(self)@[0])
            }),
            final(self)@ == if old(self)@.len() == 0 {
                old(self)@
            } else {
                old(self)@.drop_first()
            },
            r matches Some(i) ==> final(nodes)@[i as int].next.is_none() && final(nodes)@[i as int].prev.is_none(),
            old(self)@.len() == 0 ==> final(nodes)@ == old(nodes)@,
            links_kept_except(old(nodes)@, final(nodes)@, old(self)@.to_set()),
    {
        match self.head {
            None => None,
            Some(i) => {
                proof {
                    let s = self.list@;
                    assert(s[0] == i);
                    assert(s.contains(i));
                    s.index_of_first(i);
                    assert(s.index_of(i) == 0);
                    assert(s.remove(0) =~= s.drop_first());
                }
                self.remove(nodes, i);
                Some(i)
            },
        }
    }

    /// Remove the node `item`, which must be in this list.
    pub fn remove(&mut self, nodes: &mut Vec<LinkNode<T>>, item: usize)
        requires
            old(self).wf(old(nodes)@),
            old(self)@.contains(item),
        ensures
            final(self).wf(final(nodes)@),
            final(self)@ == old(self)@.remove(old(self)@.index_of(item)),
            final(nodes)@[item as int].next.is_none(),
            final(nodes)@[item as int].prev.is_none(),
            links_kept_except(old(nodes)@, final(nodes)@, old(self)@.to_set()),
    {
        let ghost s = self.list@;
        let ghost idx = s.index_of(item);
        let ghost s2 = s.remove(idx);
        let ghost pre = nodes@;
        proof {
            s.index_of_first(item);
            assert(0 <= idx < s.len() && s[idx] == item);
            assert(nodes@[s[idx] as int].next == next_of(s, idx));
            if idx > 0 {
                assert(nodes@[s[idx - 1] as int].next == next_of(s, idx - 1));
                assert(s[idx - 1] < nodes@.len());
            }
            if idx + 1 < s.len() {
                assert(nodes@[s[idx + 1] as int].next == next_of(s, idx + 1));
                assert(s[idx + 1] < nodes@.len());
            }
        }
        let node = nodes[item];
        match node.prev {
            None => self.head = node.next,
            Some(i) => {
                let pn = nodes[i];
                nodes.set(i, LinkNode { next: node.next, prev: pn.prev, data: pn.data });
            },
        }
        match node.next {
            None => {},
            Some(i) => {
                let nn = nodes[i];
                nodes.set(i, LinkNode { next: nn.next, prev: node.prev, data: nn.data });
            },
        }
        let cur = nodes[item];
        nodes.set(item, LinkNode { next: None, prev: None, data: cur.data });
        proof {
            self.list@ = s2;
            assert(s2.len() == s.len() - 1);
            assert forall|j: int| 0 <= j < s2.len() implies #[trigger] s2[j] == if j < idx {
                s[j]
            } else {
                s[j + 1]
            } by {}
            assert forall|j: int| 0 <= j < s2.len() implies #[trigger] s2[j] < nodes@.len() by {
                if j < idx {
                    assert(s2[j] == s[j]);
                } else {
                    assert(s2[j] == s[j + 1]);
                }
            }
            assert forall|j: int| 0 <= j < s2.len() implies (#[trigger] nodes@[s2[j] as int]).next
                == next_of(s2, j) && nodes@[s2[j] as int].prev == prev_of(s2, j) by {
                if j < idx {
                    assert(s2[j] == s[j]);
                    assert(pre[s[j] as int].next == next_of(s, j));
                    assert(s[j] != item);
                    if j + 1 < idx {
                        assert(s[j] != s[idx - 1]);
                        assert(s2[j + 1] == s[j + 1]);
                    }
                    if idx + 1 < s.len() {
                        assert(s[j] != s[idx + 1]);
                    }
                    if j > 0 {
                        assert(s2[j - 1] == s[j - 1]);
                    }
                    if j + 1 == idx && j + 1 < s2.len() {
                        assert(s2[j + 1] == s[j + 2]);
                    }
                } else {
                    assert(s2[j] == s[j + 1]);
                    assert(pre[s[j + 1] as int].next == next_of(s, j + 1));
                    assert(s[j + 1] != item);
                    if idx > 0 {
                        assert(s[j + 1] != s[idx - 1]);
                    }
                    if j > idx {
                        assert(s[j + 1] != s[idx + 1]);
                        assert(s2[j - 1] == s[j]);
                    }
                    if j == idx && j > 0 {
                        assert(s2[j - 1] == s[j - 1]);
                    }
                    if j + 1 < s2.len() {
                        assert(s2[j + 1] == s[j + 2]);
                    }
                }
            }
            assert(s2.no_duplicates()) by {
                assert forall|a: int, b: int| 0 <= a < b < s2.len() implies s2[a] != s2[b] by {
                    let a2 = if a < idx {
                        a
                    } else {
                        a + 1
                    };
                    let b2 = if b < idx {
                        b
                    } else {
                        b + 1
                    };
                    assert(s2[a] == s[a2]);
                    assert(s2[b] == s[b2]);
                }
            }
            assert forall|k: int|
                0 <= k < nodes@.len() && !s.to_set().contains(
                    k as usize,
                ) implies (#[trigger] nodes@[k]).next == pre[k].next && nodes@[k].prev
                == pre[k].prev by {
                assert(s.to_set().contains(item));
                if idx > 0 {
                    assert(s.to_set().contains(s[idx - 1]));
                }
                if idx + 1 < s.len() {
                    assert(s.to_set().contains(s[idx + 1]));
                }
            }
        }
    }
}

/// Law: the item inserted at the head of a list is the next one popped,
/// and popping it gives back the list as it was.
pub proof fn law_insert_head_then_pop<T: Copy>(
    before: LinkList<T>,
    inserted: LinkList<T>,
    popped: LinkList<T>,
    item: usize,
    r: Option<usize>,
)
    requires
        inserted@ == seq![item] + before@,
        r == (if inserted@.len() == 0 {
            None
        } else {
            Some(inserted@[0])
        }),
        popped@ == if inserted@.len() == 0 {
            inserted@
        } else {
            inserted@.drop_first()
        },
    ensures
        r == Some(item),
        popped@ == before@,
{
    assert(popped@ =~= before@);
}

} // verus!
