//! Safe doubly linked list managed by an array of link nodes.
//!
//! A node is named by its index in the array; the list threads a subset of
//! the indices `0..LEN` in some order.

use vstd::prelude::*;

verus! {

/// A fixed-size array wrapper, used for page-sized tables such as the env
/// array.
pub struct Aligned<T, const LEN: usize>(pub [T; LEN]);

/// Linking field node. Contains a `next` and `prev` field.
#[derive(Clone, Copy, Debug, PartialEq, Eq, Structural)]
pub struct ArrayLinkNode {
    /// Next node. If `None`, this node is the last node.
    pub next: Option<usize>,
    /// Previous node. If `None`, this node is the first node.
    pub prev: Option<usize>,
}

impl ArrayLinkNode {
    /// A node that is linked to nothing.
    pub fn new() -> (r: ArrayLinkNode)
        ensures
            r == unlinked_node(),
    {
        ArrayLinkNode { prev: None, next: None }
    }
}

impl Default for ArrayLinkNode {
    /// Default construction: an unlinked node.
    fn default() -> (r: ArrayLinkNode)
        ensures
            r == unlinked_node(),
    {
        ArrayLinkNode::new()
    }
}

/// The node that is in no list.
pub open spec fn unlinked_node() -> ArrayLinkNode {
    ArrayLinkNode { next: None, prev: None }
}

/// The first element of a sequence, if any.
pub open spec fn seq_first(s: Seq<usize>) -> Option<usize> {
    if s.len() == 0 {
        None
    } else {
        Some(s[0])
    }
}

/// The last element of a sequence, if any.
pub open spec fn seq_last(s: Seq<usize>) -> Option<usize> {
    if s.len() == 0 {
        None
    } else {
        Some(s[s.len() - 1])
    }
}

/// The link node that the `i`-th element of the list `s` must carry.
pub open spec fn node_at(s: Seq<usize>, i: int) -> ArrayLinkNode {
    ArrayLinkNode {
        next: if i + 1 < s.len() {
            Some(s[i + 1])
        } else {
            None
        },
        prev: if i > 0 {
            Some(s[i - 1])
        } else {
            None
        },
    }
}

/// The list itself. Maintains a head and tail and the node array.
///
/// The view of the list is the sequence of node indices from head to tail.
/// Both `head` and `tail` are `None` together or not `None` together.
pub struct ArrayLinkedList<const LEN: usize> {
    /// The array storing the linking field of each node.
    array: Vec<ArrayLinkNode>,
    /// The index of the first node. `None` means an empty list.
    head: Option<usize>,
    /// The index of the last node. `None` means an empty list.
    tail: Option<usize>,
    /// The indices in the list, from head to tail.
    list: Ghost<Seq<usize>>,
}

impl<const LEN: usize> View for ArrayLinkedList<LEN> {
    type V = Seq<usize>;

    closed spec fn view(&self) -> Seq<usize> {
        self.list@
    }
}

impl<const LEN: usize> ArrayLinkedList<LEN> {
    /// Well-formedness: the array has `LEN` nodes, the list holds distinct
    /// indices below `LEN`, each listed node links to its neighbours in the
    /// list, every other node is unlinked, and head and tail name the ends.
    pub closed spec fn wf(&self) -> bool {
        &&& self.array@.len() == LEN
        &&& self.list@.no_duplicates()
        &&& forall|i: int| 0 <= i < self.list@.len() ==> #[trigger] self.list@[i] < LEN
        &&& self.head == seq_first(self.list@)
        &&& self.tail == seq_last(self.list@)
        &&& forall|i: int|
            0 <= i < self.list@.len() ==> #[trigger] self.array@[self.list@[i] as int]
                == node_at(self.list@, i)
        &&& forall|k: int|
            0 <= k < LEN && !self.list@.contains(k as usize) ==> #[trigger] self.array@[k]
                == unlinked_node()
    }

    /// The view of a well-formed list holds distinct indices below `LEN`.
    pub proof fn lemma_view_valid(&self)
        requires
            self.wf(),
        ensures
            self@.no_duplicates(),
            forall|i: int| 0 <= i < self@.len() ==> #[trigger] self@[i] < LEN,
            self@.len() <= LEN,
    {
        let s = self.list@;
        let dom = Set::new(|k: usize| k < LEN);
        lemma_usize_range_len(LEN as nat);
        assert(s.to_set().subset_of(dom));
        vstd::set_lib::lemma_len_subset(s.to_set(), dom);
        s.unique_seq_to_set();
    }

    /// Create a new list and initialize the array.
    pub fn new() -> (r: Self)
        ensures
            r.wf(),
            r@ == Seq::<usize>::empty(),
    {
        let mut array: Vec<ArrayLinkNode> = Vec::new();
        let mut i: usize = 0;
        while i < LEN
            invariant
                i <= LEN,
                array@.len() == i,
                forall|k: int| 0 <= k < i ==> #[trigger] array@[k] == unlinked_node(),
            decreases LEN - i,
        {
            array.push(ArrayLinkNode::new());
            i = i + 1;
        }
        ArrayLinkedList { array, head: None, tail: None, list: Ghost(Seq::empty()) }
    }

    /// Judge whether the list is empty.
    pub fn empty(&self) -> (r: bool)
        requires
            self.wf(),
        ensures
            r == (self@.len() == 0),
    {
        self.head.is_none()
    }

    /// Insert the index `item` node at the head.
    pub fn insert_head(&mut self, item: usize)
        requires
            old(self).wf(),
            item < LEN,
            !old(self)@.contains(item),
        ensures
            final(self).wf(),
            final(self)@ == seq![item] + old(self)@,
    {
        let ghost s = self.list@;
        let ghost s2 = seq![item] + s;
        proof {
            assert(self.array@[item as int] == unlinked_node());
        }
        match self.head {
            None => {
                self.head = Some(item);
                self.tail = Some(item);
                self.set_node(item, ArrayLinkNode { next: None, prev: None });
            },
            Some(i) => {
                proof {
                    assert(s[0] == i);
                    assert(self.array@[s[0] as int] == node_at(s, 0));
                }
                let old_node = self.array[i];
                self.set_node(i, ArrayLinkNode { next: old_node.next, prev: Some(item) });
                self.set_node(item, ArrayLinkNode { next: Some(i), prev: None });
                self.head = Some(item);
            },
        }
        proof {
            self.list@ = s2;
            assert forall|j: int| 0 <= j < s2.len() implies #[trigger] s2[j] < LEN by {
                if j > 0 {
                    assert(s2[j] == s[j - 1]);
                }
            }
            assert forall|j: int| 0 <= j < s2.len() implies #[trigger] self.array@[s2[j] as int]
                == node_at(s2, j) by {
                if j > 0 {
                    assert(s2[j] == s[j - 1]);
                    assert(old(self).array@[s[j - 1] as int] == node_at(s, j - 1));
                    if j > 1 {
                        assert(s[j - 1] != s[0]);
                    }
                }
            }
            assert forall|k: int| 0 <= k < LEN && !s2.contains(k as usize) implies #[trigger] self.array@[k]
                == unlinked_node() by {
                assert(!s.contains(k as usize)) by {
                    if s.contains(k as usize) {
                        let j = s.index_of(k as usize);
                        assert(s2[j + 1] == k as usize);
                    }
                }
                assert(s2[0] == item);
                assert(k != item);
                if s.len() > 0 {
                    assert(k != s[0]);
                }
            }
            assert(s2.no_duplicates()) by {
                assert forall|a: int, b: int| 0 <= a < b < s2.len() implies s2[a] != s2[b] by {
                    if a == 0 {
                        assert(s.contains(s2[b]));
                    }
                }
            }
        }
    }

    /// Overwrite the link node of `k`.
    fn set_node(&mut self, k: usize, node: ArrayLinkNode)
        requires
            k < old(self).array@.len(),
        ensures
            final(self).array@ == old(self).array@.update(k as int, node),
            final(self).head == old(self).head,
            final(self).tail == old(self).tail,
            final(self).list == old(self).list,
    {
        self.array.set(k, node);
    }

    /// The node after the listed node `item`, or `None` if it is the last.
    pub fn next_of(&self, item: usize) -> (r: Option<usize>)
        requires
            self.wf(),
            self@.contains(item),
        ensures
            r == (if self@.index_of(item) + 1 < self@.len() {
                Some(self@[self@.index_of(item) + 1])
            } else {
                None
            }),
    {
        proof {
            let k = self.list@.index_of(item);
            assert(self.array@[self.list@[k] as int] == node_at(self.list@, k));
        }
        self.array[item].next
    }

    /// Peek the first node.
    pub fn peek_head(&self) -> (r: Option<usize>)
        requires
            self.wf(),
        ensures
            r == seq_first(self@),
    {
        self.head
    }

    /// Get the first node, and remove it from the list if the list is not
    /// empty.
    pub fn pop_head(&mut self) -> (r: Option<usize>)
        requires
            old(self).wf(),
        ensures
            final(self).wf(),
            r == seq_first(old(self)@),
            final(self)@ == if old(self)@.len() == 0 {
                old(self)@
            } else {
                old(self)@.drop_first()
            },
    {
        match self.head {
            None => None,
            Some(i) => {
                proof {
                    assert(self.list@[0] == i);
                    assert(self.list@.contains(i));
                    assert(self.list@.index_of(i) == 0) by {
                        self.list@.index_of_first(i);
                        self.lemma_index_unique(i, 0);
                    }
                    assert(self.list@.remove(0) =~= self.list@.drop_first());
                }
                self.remove(i);
                Some(i)
            },
        }
    }

    /// In a list without duplicates, an element occurs at exactly one index.
    proof fn lemma_index_unique(&self, x: usize, j: int)
        requires
            self.wf(),
            0 <= j < self.list@.len(),
            self.list@[j] == x,
        ensures
            self.list@.index_of(x) == j,
    {
        let s = self.list@;
        s.index_of_first(x);
        let k = s.index_of(x);
        assert(s.contains(x));
        assert(0 <= k < s.len() && s[k] == x);
    }

    /// Insert the index `item` node at the tail.
    pub fn insert_tail(&mut self, item: usize)
        requires
            old(self).wf(),
            item < LEN,
            !old(self)@.contains(item),
        ensures
            final(self).wf(),
            final(self)@ == old(self)@.push(item),
    {
        if self.head.is_none() {
            self.insert_head(item);
            proof {
                assert(seq![item] + old(self)@ =~= old(self)@.push(item));
            }
            return ;
        }
        let ghost s = self.list@;
        let ghost n = s.len();
        let ghost s2 = s.push(item);
        let t = self.tail.unwrap();
        proof {
            assert(t == s[n - 1]);
            assert(self.array@[s[n - 1] as int] == node_at(s, n - 1));
            assert(self.array@[item as int] == unlinked_node());
        }
        let old_node = self.array[t];
        self.set_node(t, ArrayLinkNode { next: Some(item), prev: old_node.prev });
        self.set_node(item, ArrayLinkNode { next: None, prev: Some(t) });
        self.tail = Some(item);
        proof {
            self.list@ = s2;
            assert forall|j: int| 0 <= j < s2.len() implies #[trigger] s2[j] < LEN by {
                if j < n {
                    assert(s2[j] == s[j]);
                }
            }
            assert forall|j: int| 0 <= j < s2.len() implies #[trigger] self.array@[s2[j] as int]
                == node_at(s2, j) by {
                if j < n {
                    assert(s2[j] == s[j]);
                    assert(old(self).array@[s[j] as int] == node_at(s, j));
                    if j < n - 1 {
                        assert(s[j] != s[n - 1]);
                    }
                }
            }
            assert forall|k: int| 0 <= k < LEN && !s2.contains(k as usize) implies #[trigger] self.array@[k]
                == unlinked_node() by {
                assert(!s.contains(k as usize)) by {
                    if s.contains(k as usize) {
                        let j = s.index_of(k as usize);
                        assert(s2[j] == k as usize);
                    }
                }
                assert(s2[n as int] == item);
                assert(k != item);
                assert(k != s[n - 1]);
            }
            assert(s2.no_duplicates()) by {
                assert forall|a: int, b: int| 0 <= a < b < s2.len() implies s2[a] != s2[b] by {
                    if b == n {
                        assert(s.contains(s2[a]));
                    }
                }
            }
        }
    }

    /// Remove the index `item` node from the list. The node must be in the
    /// list.
    pub fn remove(&mut self, item: usize)
        requires
            old(self).wf(),
            old(self)@.contains(item),
        ensures
            final(self).wf(),
            final(self)@ == old(self)@.remove(old(self)@.index_of(item)),
    {
        let ghost s = self.list@;
        let ghost idx = s.index_of(item);
        let ghost s2 = s.remove(idx);
        proof {
            s.index_of_first(item);
            assert(0 <= idx < s.len() && s[idx] == item);
            assert(s[idx] < LEN);
            assert(self.array@[s[idx] as int] == node_at(s, idx));
            if idx > 0 {
                assert(self.array@[s[idx - 1] as int] == node_at(s, idx - 1));
                assert(s[idx - 1] < LEN);
            }
            if idx + 1 < s.len() {
                assert(self.array@[s[idx + 1] as int] == node_at(s, idx + 1));
                assert(s[idx + 1] < LEN);
            }
        }
        let node = self.array[item];
        match node.prev {
            None => self.head = node.next,
            Some(i) => {
                let pn = self.array[i];
                self.set_node(i, ArrayLinkNode { next: node.next, prev: pn.prev });
            },
        }
        match node.next {
            None => self.tail = node.prev,
            Some(i) => {
                let nn = self.array[i];
                self.set_node(i, ArrayLinkNode { next: nn.next, prev: node.prev });
            },
        }
        self.set_node(item, ArrayLinkNode { next: None, prev: None });
        proof {
            self.list@ = s2;
            assert(s2.len() == s.len() - 1);
            assert forall|j: int| 0 <= j < s2.len() implies #[trigger] s2[j] == if j < idx {
                s[j]
            } else {
                s[j + 1]
            } by {}
            assert forall|j: int| 0 <= j < s2.len() implies #[trigger] s2[j] < LEN by {
                if j < idx {
                    assert(s2[j] == s[j]);
                } else {
                    assert(s2[j] == s[j + 1]);
                }
            }
            assert forall|j: int| 0 <= j < s2.len() implies #[trigger] self.array@[s2[j] as int]
                == node_at(s2, j) by {
                if j < idx {
                    assert(s2[j] == s[j]);
                    assert(old(self).array@[s[j] as int] == node_at(s, j));
                    assert(s[j] != item);
                    if j + 1 < idx {
                        assert(s[j] != s[idx - 1]);
                        assert(s2[j + 1] == s[j + 1]);
                    }
                    if idx + 1 < s.len() {
                        assert(s[j] != s[idx + 1]);
                    }
                    if j > 0 {
                        assert(s2[j - 1] == s[j - 1]);
                    }
                    if j + 1 == idx && j + 1 < s2.len() {
                        assert(s2[j + 1] == s[j + 2]);
                    }
                } else {
                    assert(s2[j] == s[j + 1]);
                    assert(old(self).array@[s[j + 1] as int] == node_at(s, j + 1));
                    assert(s[j + 1] != item);
                    if idx > 0 {
                        assert(s[j + 1] != s[idx - 1]);
                    }
                    if j > idx {
                        assert(s[j + 1] != s[idx + 1]);
                        assert(s2[j - 1] == s[j]);
                    }
                    if j == idx && j > 0 {
                        assert(s2[j - 1] == s[j - 1]);
                    }
                    if j + 1 < s2.len() {
                        assert(s2[j + 1] == s[j + 2]);
                    }
                }
            }
            assert forall|k: int| 0 <= k < LEN && !s2.contains(k as usize) implies #[trigger] self.array@[k]
                == unlinked_node() by {
                if k != item {
                    assert(!s.contains(k as usize)) by {
                        if s.contains(k as usize) {
                            let j = s.index_of(k as usize);
                            s.index_of_first(k as usize);
                            if j < idx {
                                assert(s2[j] == k as usize);
                            } else {
                                assert(j != idx);
                                assert(s2[j - 1] == k as usize);
                            }
                        }
                    }
                    if idx > 0 {
                        assert(s.contains(s[idx - 1]));
                    }
                    if idx + 1 < s.len() {
                        assert(s.contains(s[idx + 1]));
                    }
                }
            }
            assert(s2.no_duplicates()) by {
                assert forall|a: int, b: int| 0 <= a < b < s2.len() implies s2[a] != s2[b] by {
                    let a2 = if a < idx { a } else { a + 1 };
                    let b2 = if b < idx { b } else { b + 1 };
                    assert(s2[a] == s[a2]);
                    assert(s2[b] == s[b2]);
                }
            }
        }
    }

    /// Judge whether the node is in the list.
    pub fn contains(&self, item: usize) -> (r: bool)
        requires
            self.wf(),
            item < LEN,
        ensures
            r == self@.contains(item),
    {
        let ghost s = self.list@;
        proof {
            if s.contains(item) {
                let j = s.index_of(item);
                s.index_of_first(item);
                assert(self.array@[s[j] as int] == node_at(s, j));
                if s.len() == 1 {
                    assert(j == 0);
                }
            } else {
                assert(self.array@[item as int] == unlinked_node());
                if s.len() > 0 {
                    assert(s.contains(s[0]));
                    assert(s.contains(s[s.len() - 1]));
                }
            }
        }
        let node = self.array[item];
        if node.prev.is_none() && node.next.is_none() && (self.head != Some(item) || self.tail
            != Some(item)) {
            return false;
        }
        true
    }
}

impl<const LEN: usize> Default for ArrayLinkedList<LEN> {
    /// Default construction: an empty list.
    fn default() -> (r: Self)
        ensures
            r.wf(),
            r@ == Seq::<usize>::empty(),
    {
        Self::new()
    }
}

/// The set of `usize` values below `n` has `n` elements.
pub proof fn lemma_usize_range_len(n: nat)
    requires
        n <= usize::MAX + 1,
    ensures
        Set::new(|k: usize| k < n).finite(),
        Set::new(|k: usize| k < n).len() == n,
    decreases n,
{
    if n == 0 {
        assert(Set::new(|k: usize| k < n) =~= Set::<usize>::empty());
    } else {
        lemma_usize_range_len((n - 1) as nat);
        let m = (n - 1) as usize;
        assert(Set::new(|k: usize| k < n) =~= Set::new(|k: usize| k < (n - 1) as nat).insert(m));
    }
}

/// Law: the item inserted at the head of a list is the next one popped,
/// and popping it gives back the list as it was.
pub proof fn law_insert_head_then_pop<const LEN: usize>(
    before: ArrayLinkedList<LEN>,
    inserted: ArrayLinkedList<LEN>,
    popped: ArrayLinkedList<LEN>,
    item: usize,
    r: Option<usize>,
)
    requires
        inserted@ == seq![item] + before@,
        r == seq_first(inserted@),
        popped@ == if inserted@.len() == 0 {
            inserted@
        } else {
            inserted@.drop_first()
        },
    ensures
        r == Some(item),
        popped@ == before@,
{
    assert(popped@ =~= before@);
}

/// Law: an item inserted at the tail of a list comes out after all the
/// items that were in it: popping the head gives the old head, and the
/// item stays last.
pub proof fn law_insert_tail_then_pop<const LEN: usize>(
    before: ArrayLinkedList<LEN>,
    inserted: ArrayLinkedList<LEN>,
    popped: ArrayLinkedList<LEN>,
    item: usize,
    r: Option<usize>,
)
    requires
        inserted@ == before@.push(item),
        r == seq_first(inserted@),
        popped@ == if inserted@.len() == 0 {
            inserted@
        } else {
            inserted@.drop_first()
        },
    ensures
        before@.len() == 0 ==> r == Some(item) && popped@.len() == 0,
        before@.len() > 0 ==> r == seq_first(before@) && popped@ == before@.drop_first().push(item),
{
    assert(before@.len() > 0 ==> popped@ =~= before@.drop_first().push(item));
    assert(before@.len() == 0 ==> popped@ =~= Seq::<usize>::empty());
}

/// Law: a well-formed list no longer holds the item it popped or removed.
pub proof fn law_popped_not_contained<const LEN: usize>(before: ArrayLinkedList<LEN>, after: ArrayLinkedList<LEN>, item: usize)
    requires
        before.wf(),
        before@.contains(item),
        after@ == before@.remove(before@.index_of(item)),
    ensures
        !after@.contains(item),
{
    before.lemma_view_valid();
    let k = before@.index_of(item);
    if after@.contains(item) {
        let j = after@.index_of(item);
        if j < k {
            assert(before@[j] == item);
        } else {
            assert(before@[j + 1] == item);
        }
    }
}

} // verus!
