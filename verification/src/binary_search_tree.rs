//! The tree node structure, its abstract view, and the core operations.

use vstd::prelude::*;

verus! {

/// A sequence is non-decreasing: every element is at most each later one.
pub open spec fn sorted(s: Seq<u64>) -> bool {
    forall|i: int, j: int| 0 <= i <= j < s.len() ==> s[i] <= s[j]
}

/// Every element of `s` is strictly below the bound `b`.
pub open spec fn all_below(s: Seq<u64>, b: u64) -> bool {
    forall|i: int| 0 <= i < s.len() ==> s[i] < b
}

/// Every element of `s` is at least the bound `b`.
pub open spec fn all_at_least(s: Seq<u64>, b: u64) -> bool {
    forall|i: int| 0 <= i < s.len() ==> s[i] >= b
}

/// A node of an unbalanced binary search tree over `u64`.
///
/// A node with no element and no children is the empty tree; insertion
/// either fills the element slot or recurses into a child. Elements less
/// than a node's element live in its left subtree; elements greater than
/// or equal to it (duplicates included) live in its right subtree.
pub struct BinarySearchTree {
    data: Option<u64>,
    left: Option<Box<BinarySearchTree>>,
    right: Option<Box<BinarySearchTree>>,
}

/// The in-order element sequence of an optional subtree.
pub open spec fn subtree_seq(t: Option<Box<BinarySearchTree>>) -> Seq<u64>
    decreases t,
{
    match t {
        None => Seq::empty(),
        Some(node) => node.inorder(),
    }
}

impl BinarySearchTree {
    /// The in-order element sequence of this tree: left subtree, then the
    /// node's own element, then the right subtree.
    pub closed spec fn inorder(self) -> Seq<u64>
        decreases self,
    {
        match self.data {
            None => Seq::empty(),
            Some(d) => subtree_seq(self.left) + seq![d] + subtree_seq(self.right),
        }
    }

    /// The binary-search-tree invariant: a node with no element has no
    /// children, every left-descendant element is strictly less than the
    /// node's element, and every right-descendant element is greater than
    /// or equal to it. Children, once created, always hold an element.
    pub closed spec fn wf(self) -> bool
        decreases self,
    {
        match self.data {
            None => self.left is None && self.right is None,
            Some(d) => {
                &&& match self.left {
                    None => true,
                    Some(l) => l.wf() && l.data is Some && all_below(l.inorder(), d),
                }
                &&& match self.right {
                    None => true,
                    Some(r) => r.wf() && r.data is Some && all_at_least(r.inorder(), d),
                }
            },
        }
    }

    /// Creates an empty tree: well-formed, with no elements.
    pub fn new() -> (tree: Self)
        ensures
            tree.wf(),
            tree@ == Seq::<u64>::empty(),
    {
        Self { data: None, left: None, right: None }
    }

    /// Reports whether `data` is an element of the tree.
    pub fn search(&self, data: &u64) -> (found: bool)
        requires
            self.wf(),
        ensures
            found == self@.contains(*data),
        decreases self,
    {
        match &self.data {
            Some(stored_data) => {
                let ghost left_seq = subtree_seq(self.left);
                let ghost right_seq = subtree_seq(self.right);
                if *data == *stored_data {
                    proof {
                        assert(self@[left_seq.len() as int] == *data);
                    }
                    true
                } else if *data < *stored_data {
                    proof {
                        lemma_contains_in_left(self@, left_seq, right_seq, *stored_data, *data);
                    }
                    match &self.left {
                        Some(node) => node.search(data),
                        None => false,
                    }
                } else {
                    proof {
                        lemma_contains_in_right(self@, left_seq, right_seq, *stored_data, *data);
                    }
                    match &self.right {
                        Some(node) => node.search(data),
                        None => false,
                    }
                }
            },
            None => false,
        }
    }

    /// Returns the smallest element of the tree: the head of the sorted
    /// in-order sequence, reached by following left children. Absent only
    /// on the empty tree.
    pub fn min(&self) -> (result: Option<u64>)
        requires
            self.wf(),
        ensures
            result is None <==> self@.len() == 0,
            result matches Some(m) ==> m == self@[0] && self@.contains(m) && forall|i: int|
                0 <= i < self@.len() ==> m <= #[trigger] self@[i],
        decreases self,
    {
        proof {
            lemma_wf_sorted(*self);
        }
        match &self.left {
            Some(node) => {
                let result = node.min();
                proof {
                    assert(node.inorder().len() > 0);
                    assert(self@[0] == node.inorder()[0]);
                }
                result
            },
            None => {
                proof {
                    if self.data is Some {
                        assert(self@[0] == self.data.unwrap());
                    }
                }
                self.data
            },
        }
    }

    /// Returns the largest element of the tree: the last of the sorted
    /// in-order sequence, reached by following right children. Absent only
    /// on the empty tree.
    pub fn max(&self) -> (result: Option<u64>)
        requires
            self.wf(),
        ensures
            result is None <==> self@.len() == 0,
            result matches Some(m) ==> m == self@[self@.len() - 1] && self@.contains(m)
                && forall|i: int| 0 <= i < self@.len() ==> m >= #[trigger] self@[i],
        decreases self,
    {
        proof {
            lemma_wf_sorted(*self);
        }
        match &self.right {
            Some(node) => {
                let result = node.max();
                proof {
                    assert(node.inorder().len() > 0);
                    assert(self@[self@.len() - 1] == node.inorder()[node.inorder().len() - 1]);
                }
                result
            },
            None => {
                proof {
                    if self.data is Some {
                        assert(self@[self@.len() - 1] == self.data.unwrap());
                    }
                }
                self.data
            },
        }
    }

    /// Returns a new cursor which yields this tree's elements in ascending
    /// order. Each call returns an independent cursor starting from the
    /// smallest element; the tree itself is not changed.
    pub fn iter<'a>(&'a self) -> (it: BinarySearchTreeIterator<'a>)
        requires
            self.wf(),
        ensures
            it.wf(),
            it@ == self@,
    {
        BinarySearchTreeIterator::new(self)
    }

    /// Inserts `data` into the subtree slot `node`, creating a leaf when the
    /// slot is empty.
    fn insert_into_child(node: &mut Option<Box<BinarySearchTree>>, data: u64)
        requires
            *old(node) matches Some(n) ==> n.wf() && n.data is Some,
        ensures
            *final(node) matches Some(n) ==> n.wf() && n.data is Some,
            subtree_seq(*final(node)).to_multiset() == subtree_seq(*old(node)).to_multiset().insert(
                data,
            ),
        decreases *old(node),
    {
        match node.take() {
            None => {
                let leaf = BinarySearchTree { data: Some(data), left: None, right: None };
                proof {
                    broadcast use vstd::seq_lib::group_to_multiset_ensures;

                    assert(leaf.inorder() =~= Seq::empty().push(data));
                }
                *node = Some(Box::new(leaf));
            },
            Some(mut boxed) => {
                (&mut *boxed).insert(data);
                *node = Some(boxed);
            },
        }
    }

    /// Inserts `data` into the tree, keeping the tree well-formed. The
    /// element multiset grows by exactly `data`; duplicates are retained.
    pub fn insert(&mut self, data: u64)
        requires
            old(self).wf(),
        ensures
            final(self).wf(),
            final(self)@.to_multiset() == old(self)@.to_multiset().insert(data),
            final(self)@.len() == old(self)@.len() + 1,
            final(self)@.contains(data),
        decreases *old(self),
    {
        proof {
            broadcast use vstd::seq_lib::group_to_multiset_ensures;
            broadcast use vstd::seq_lib::lemma_multiset_commutative;
            broadcast use vstd::multiset::lemma_insert_len;

        }
        if self.data.is_none() {
            self.data = Some(data);
            proof {
                assert(self@ =~= Seq::empty().push(data));
            }
        } else {
            let stored = self.data.unwrap();
            let ghost pre_left = subtree_seq(self.left);
            let ghost pre_right = subtree_seq(self.right);
            if data < stored {
                Self::insert_into_child(&mut self.left, data);
                proof {
                    lemma_multiset_insert_bounds(pre_left, subtree_seq(self.left), data, stored);
                    lemma_concat_multiset_insert_left(
                        pre_left,
                        subtree_seq(self.left),
                        seq![stored] + pre_right,
                        data,
                    );
                }
            } else {
                Self::insert_into_child(&mut self.right, data);
                proof {
                    lemma_multiset_insert_bounds(pre_right, subtree_seq(self.right), data, stored);
                    lemma_concat_multiset_insert_right(
                        pre_left + seq![stored],
                        pre_right,
                        subtree_seq(self.right),
                        data,
                    );
                    assert(pre_left + seq![stored] + pre_right =~= pre_left + (seq![stored]
                        + pre_right));
                    assert(pre_left + seq![stored] + subtree_seq(self.right) =~= pre_left + (
                    seq![stored] + subtree_seq(self.right)));
                }
            }
        }
        proof {
            broadcast use vstd::seq_lib::group_to_multiset_ensures;

            assert(self@.to_multiset() == old(self)@.to_multiset().insert(data));
            assert(self@.len() == self@.to_multiset().len());
            assert(old(self)@.len() == old(self)@.to_multiset().len());
            assert(self@.to_multiset().count(data) > 0);
        }
    }
}

/// Elements of a sequence whose multiset grew only by `x` keep a strict
/// upper bound that `x` respects, and likewise a lower bound.
proof fn lemma_multiset_insert_bounds(pre: Seq<u64>, post: Seq<u64>, x: u64, b: u64)
    requires
        post.to_multiset() == pre.to_multiset().insert(x),
    ensures
        all_below(pre, b) && x < b ==> all_below(post, b),
        all_at_least(pre, b) && x >= b ==> all_at_least(post, b),
{
    broadcast use vstd::seq_lib::group_to_multiset_ensures;

    assert forall|i: int| 0 <= i < post.len() implies post[i] == x || pre.contains(post[i]) by {
        assert(post.contains(post[i]));
        assert(post.to_multiset().count(post[i]) > 0);
        if post[i] != x {
            assert(pre.to_multiset().count(post[i]) > 0);
        }
    };
    if all_below(pre, b) && x < b {
        assert forall|i: int| 0 <= i < post.len() implies post[i] < b by {
            if post[i] != x {
                let j = choose|j: int| 0 <= j < pre.len() && pre[j] == post[i];
                assert(pre[j] < b);
            }
        };
    }
    if all_at_least(pre, b) && x >= b {
        assert forall|i: int| 0 <= i < post.len() implies post[i] >= b by {
            if post[i] != x {
                let j = choose|j: int| 0 <= j < pre.len() && pre[j] == post[i];
                assert(pre[j] >= b);
            }
        };
    }
}

/// In a node's in-order sequence, an element strictly below the node's
/// element can only sit in the left part.
proof fn lemma_contains_in_left(whole: Seq<u64>, left: Seq<u64>, right: Seq<u64>, d: u64, x: u64)
    requires
        whole == left + seq![d] + right,
        all_at_least(right, d),
        x < d,
    ensures
        whole.contains(x) <==> left.contains(x),
{
    if left.contains(x) {
        let i = choose|i: int| 0 <= i < left.len() && left[i] == x;
        assert(whole[i] == x);
    }
    if whole.contains(x) {
        let i = choose|i: int| 0 <= i < whole.len() && whole[i] == x;
        if i >= left.len() {
            if i > left.len() {
                assert(whole[i] == right[i - left.len() - 1]);
            }
            assert(false);
        }
        assert(left[i] == x);
    }
}

/// In a node's in-order sequence, an element strictly above the node's
/// element can only sit in the right part.
proof fn lemma_contains_in_right(whole: Seq<u64>, left: Seq<u64>, right: Seq<u64>, d: u64, x: u64)
    requires
        whole == left + seq![d] + right,
        all_below(left, d),
        x > d,
    ensures
        whole.contains(x) <==> right.contains(x),
{
    if right.contains(x) {
        let i = choose|i: int| 0 <= i < right.len() && right[i] == x;
        assert(whole[left.len() + 1 + i] == x);
    }
    if whole.contains(x) {
        let i = choose|i: int| 0 <= i < whole.len() && whole[i] == x;
        if i < left.len() {
            assert(whole[i] == left[i]);
            assert(false);
        }
        if i == left.len() {
            assert(whole[i] == d);
            assert(false);
        }
        assert(right[i - left.len() - 1] == x);
    }
}

/// Inserting into the left part of a concatenation inserts into the whole.
proof fn lemma_concat_multiset_insert_left(pre: Seq<u64>, post: Seq<u64>, rest: Seq<u64>, x: u64)
    requires
        post.to_multiset() == pre.to_multiset().insert(x),
    ensures
        (post + rest).to_multiset() == (pre + rest).to_multiset().insert(x),
{
    broadcast use vstd::seq_lib::lemma_multiset_commutative;

    assert((post + rest).to_multiset() =~= (pre + rest).to_multiset().insert(x));
}

/// Inserting into the right part of a concatenation inserts into the whole.
proof fn lemma_concat_multiset_insert_right(rest: Seq<u64>, pre: Seq<u64>, post: Seq<u64>, x: u64)
    requires
        post.to_multiset() == pre.to_multiset().insert(x),
    ensures
        (rest + post).to_multiset() == (rest + pre).to_multiset().insert(x),
{
    broadcast use vstd::seq_lib::lemma_multiset_commutative;

    assert((rest + post).to_multiset() =~= (rest + pre).to_multiset().insert(x));
}

impl View for BinarySearchTree {
    type V = Seq<u64>;

    open spec fn view(&self) -> Seq<u64> {
        self.inorder()
    }
}

impl Default for BinarySearchTree {
    /// The default tree is the empty tree.
    fn default() -> (tree: Self)
        ensures
            tree.wf(),
            tree@ == Seq::<u64>::empty(),
    {
        Self::new()
    }
}

/// The in-order sequence of a well-formed tree is non-decreasing.
pub proof fn lemma_wf_sorted(tree: BinarySearchTree)
    requires
        tree.wf(),
    ensures
        sorted(tree@),
    decreases tree,
{
    match tree.data {
        None => {},
        Some(d) => {
            match tree.left {
                None => {},
                Some(l) => lemma_wf_sorted(*l),
            }
            match tree.right {
                None => {},
                Some(r) => lemma_wf_sorted(*r),
            }
        },
    }
}

/// After an insertion, the inserted element is present, and the presence of
/// every other element is unchanged. Together with the contracts of `insert`
/// and `search`, this says that `search` finds exactly the elements that some
/// insertion has put in.
pub proof fn lemma_insert_membership(pre: Seq<u64>, post: Seq<u64>, x: u64, y: u64)
    requires
        post.to_multiset() == pre.to_multiset().insert(x),
    ensures
        post.contains(x),
        y != x ==> (post.contains(y) <==> pre.contains(y)),
{
    broadcast use vstd::seq_lib::group_to_multiset_ensures;
    broadcast use vstd::multiset::lemma_insert_increases_count_by_1;
    broadcast use vstd::multiset::lemma_insert_other_elements_unchanged;

    assert(post.to_multiset().count(x) > 0);
    if y != x {
        assert(post.to_multiset().count(y) == pre.to_multiset().count(y));
    }
}

/// An in-order traversal cursor over a tree: a stack of node references
/// holding the path from the root down to the next node to yield.
pub struct BinarySearchTreeIterator<'a> {
    stack: Vec<&'a BinarySearchTree>,
}

/// The elements a node still owes once it is on the cursor's stack: its own
/// element, then its right subtree. Its left subtree is either already
/// yielded or sits above it on the stack.
spec fn node_emit(n: BinarySearchTree) -> Seq<u64> {
    match n.data {
        None => Seq::empty(),
        Some(d) => seq![d] + subtree_seq(n.right),
    }
}

/// The elements a whole stack still owes, from its top (the end of the
/// vector) down to its bottom.
spec fn stack_remaining(s: Seq<&BinarySearchTree>) -> Seq<u64>
    decreases s.len(),
{
    if s.len() == 0 {
        Seq::empty()
    } else {
        node_emit(*s.last()) + stack_remaining(s.drop_last())
    }
}

impl<'a> BinarySearchTreeIterator<'a> {
    /// Every stacked node is well-formed, and a node with no element (the
    /// empty root) can only be the sole entry.
    pub closed spec fn wf(self) -> bool {
        forall|i: int| 0 <= i < self.stack@.len() ==> (#[trigger] self.stack@[i]).wf() && (
        self.stack@[i].data is None ==> self.stack@.len() == 1)
    }

    /// Creates a cursor over `tree`, positioned before its smallest element.
    pub fn new(tree: &'a BinarySearchTree) -> (it: Self)
        requires
            tree.wf(),
        ensures
            it.wf(),
            it@ == tree@,
    {
        let mut stack: Vec<&'a BinarySearchTree> = Vec::new();
        stack.push(tree);
        let mut it = Self { stack };
        proof {
            assert(it.stack@.len() == 1);
            assert(*it.stack@.last() == *tree);
            assert(it.stack@.drop_last() =~= Seq::<&BinarySearchTree>::empty());
        }
        let ghost pre_view = it@;
        it.stack_push_left();
        proof {
            assert(stack_remaining(Seq::<&BinarySearchTree>::empty()) =~= Seq::<u64>::empty());
            assert(pre_view =~= node_emit(*tree) + Seq::<u64>::empty());
            assert(pre_view =~= node_emit(*tree));
            if tree.data is Some {
                assert(it@ =~= subtree_seq(tree.left) + (seq![tree.data.unwrap()] + subtree_seq(
                    tree.right,
                )));
                assert(tree@ =~= subtree_seq(tree.left) + (seq![tree.data.unwrap()] + subtree_seq(
                    tree.right,
                )));
            } else {
                assert(it@ =~= tree@);
            }
        }
        it
    }

    /// Pushes the left child of the top node, then that child's left child,
    /// and so on until the top node has no left child. The elements the
    /// stack owes grow by exactly the top's left subtree, in front.
    fn stack_push_left(&mut self)
        requires
            old(self).wf(),
            old(self).stack@.len() > 0,
        ensures
            final(self).wf(),
            final(self).stack@.len() > 0,
            final(self)@ == subtree_seq(old(self).stack@.last().left) + old(self)@,
    {
        while self.stack[self.stack.len() - 1].left.is_some()
            invariant
                self.wf(),
                self.stack@.len() > 0,
                subtree_seq(self.stack@.last().left) + stack_remaining(self.stack@)
                    == subtree_seq(old(self).stack@.last().left) + stack_remaining(
                    old(self).stack@,
                ),
            decreases subtree_seq(self.stack@.last().left).len(),
        {
            let top = self.stack[self.stack.len() - 1];
            let ghost pre_stack = self.stack@;
            if let Some(child) = &top.left {
                self.stack.push(&**child);
                proof {
                    assert(self.stack@.drop_last() =~= pre_stack);
                    assert(subtree_seq(child.left) + node_emit(**child) =~= subtree_seq(
                        top.left,
                    ));
                    assert(subtree_seq(child.left) + stack_remaining(self.stack@) =~= subtree_seq(
                        top.left,
                    ) + stack_remaining(pre_stack));
                }
            }
        }
        proof {
            assert(final(self)@ =~= subtree_seq(old(self).stack@.last().left) + old(self)@);
        }
    }

    /// Yields the next element in ascending order, or nothing once the
    /// traversal is exhausted. The first call on a fresh cursor yields the
    /// tree's smallest element.
    pub fn next(&mut self) -> (result: Option<u64>)
        requires
            old(self).wf(),
        ensures
            final(self).wf(),
            result == (if old(self)@.len() == 0 {
                None::<u64>
            } else {
                Some(old(self)@[0])
            }),
            final(self)@ == (if old(self)@.len() == 0 {
                old(self)@
            } else {
                old(self)@.drop_first()
            }),
    {
        if self.stack.is_empty() {
            None
        } else {
            let node = self.stack.pop().unwrap();
            let ghost rest = self.stack@;
            proof {
                assert(old(self).stack@.drop_last() =~= rest);
            }
            if node.right.is_some() {
                if let Some(child) = &node.right {
                    self.stack.push(&**child);
                    proof {
                        assert(self.stack@.drop_last() =~= rest);
                    }
                }
                self.stack_push_left();
            }
            proof {
                if node.data is Some {
                    assert(old(self)@ =~= seq![node.data.unwrap()] + (subtree_seq(node.right)
                        + stack_remaining(rest)));
                    assert(old(self)@.drop_first() =~= subtree_seq(node.right) + stack_remaining(
                        rest,
                    ));
                    if node.right is Some {
                        let child = node.right.unwrap();
                        assert(subtree_seq(child.left) + node_emit(*child) =~= subtree_seq(
                            node.right,
                        ));
                        assert(self@ =~= subtree_seq(node.right) + stack_remaining(rest));
                    }
                } else {
                    assert(old(self)@ =~= Seq::<u64>::empty());
                    assert(self@ =~= old(self)@);
                }
            }
            node.data
        }
    }
}

impl<'a> View for BinarySearchTreeIterator<'a> {
    type V = Seq<u64>;

    closed spec fn view(&self) -> Seq<u64> {
        stack_remaining(self.stack@)
    }
}

} // verus!
