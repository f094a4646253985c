//! A leftist min-heap: a binary tree whose right spine is short, so that two
//! heaps merge by walking right spines only.

use vstd::prelude::*;
use vstd::multiset::Multiset;
use crate::ds::heap::Heap;
use crate::order::{
    is_minimum, le, lemma_le_reflexive, lemma_le_transitive, less_eq, lower_bound,
    total_order,
};

verus! {

/// A node of the tree. `rank` is its null-path length: the number of edges
/// on the shortest way down from it to a node that lacks a child.
pub struct Node<T> {
    element: T,
    left: Option<Box<Node<T>>>,
    right: Option<Box<Node<T>>>,
    rank: usize,
}

/// A tree: nothing, or a node with the trees under it.
pub type Tree<T> = Option<Box<Node<T>>>;

/// The element of a node.
pub closed spec fn element<T>(node: Node<T>) -> T {
    node.element
}

/// The tree under a node on its left.
pub closed spec fn left<T>(node: Node<T>) -> Tree<T> {
    node.left
}

/// The tree under a node on its right.
pub closed spec fn right<T>(node: Node<T>) -> Tree<T> {
    node.right
}

/// The rank that a node keeps.
pub closed spec fn rank<T>(node: Node<T>) -> nat {
    node.rank as nat
}

/// The elements of a tree, with their multiplicities.
pub open spec fn elements<T>(tree: Tree<T>) -> Multiset<T>
    decreases tree,
{
    match tree {
        None => Multiset::empty(),
        Some(node) => elements(left(*node)).add(elements(right(*node))).insert(element(*node)),
    }
}

/// What a child adds to the rank of its parent: nothing where the child is
/// missing, one more than its own rank where it is there.
pub open spec fn rank_of<T>(tree: Tree<T>) -> nat {
    match tree {
        None => 0,
        Some(node) => rank(*node) + 1,
    }
}

/// The number of nodes on the shortest way from the root of `tree` to a
/// missing child.
pub open spec fn null_path_length<T>(tree: Tree<T>) -> nat
    decreases tree,
{
    match tree {
        None => 0,
        Some(node) => {
            let l = null_path_length(left(*node));
            let r = null_path_length(right(*node));
            1 + if l <= r {
                l
            } else {
                r
            }
        },
    }
}

/// The element of every node is no larger than any element below it.
pub open spec fn heap_ordered<T: Ord>(tree: Tree<T>) -> bool
    decreases tree,
{
    match tree {
        None => true,
        Some(node) => {
            &&& lower_bound(element(*node), elements(left(*node)))
            &&& lower_bound(element(*node), elements(right(*node)))
            &&& heap_ordered(left(*node))
            &&& heap_ordered(right(*node))
        },
    }
}

/// At every node the left child ranks at least as high as the right one,
/// and the rank of the node is one more than the rank of its right child,
/// or 0 where it has none.
pub open spec fn leftist<T>(tree: Tree<T>) -> bool
    decreases tree,
{
    match tree {
        None => true,
        Some(node) => {
            &&& leftist(left(*node))
            &&& leftist(right(*node))
            &&& rank_of(left(*node)) >= rank_of(right(*node))
            &&& rank(*node) == rank_of(right(*node))
        },
    }
}

/// A node without children that holds `element`.
pub closed spec fn singleton<T>(element: T) -> Node<T> {
    Node { element, left: None, right: None, rank: 0 }
}

/// `node` with `tree` under it on its right.
pub closed spec fn with_right<T>(node: Node<T>, tree: Tree<T>) -> Node<T> {
    Node { element: node.element, left: node.left, right: tree, rank: node.rank }
}

/// `node` with its rank set from the ranks of its children, which are
/// exchanged where the right one ranks higher than the left one.
pub closed spec fn ranked<T>(node: Node<T>) -> Node<T> {
    if rank_of(node.left) < rank_of(node.right) {
        Node {
            element: node.element,
            left: node.right,
            right: node.left,
            rank: rank_of(node.left) as usize,
        }
    } else {
        Node {
            element: node.element,
            left: node.left,
            right: node.right,
            rank: rank_of(node.right) as usize,
        }
    }
}

/// The merge of two trees. Where one is empty it is the other. Otherwise
/// the root that is no larger than the other stays on top, the first where
/// the two are equivalent; what was on its right is merged with the other
/// tree and goes on its right, and its rank and the sides of its children
/// are set anew.
pub open spec fn merged<T: Ord>(a: Tree<T>, b: Tree<T>) -> Tree<T>
    decreases elements(a).len() + elements(b).len(),
{
    match (a, b) {
        (None, _) => b,
        (_, None) => a,
        (Some(x), Some(y)) => if le(element(*x), element(*y)) {
            Some(Box::new(ranked(with_right(*x, merged(right(*x), b)))))
        } else {
            Some(Box::new(ranked(with_right(*y, merged(right(*y), a)))))
        },
    }
}

/// What `singleton`, `with_right` and `ranked` make: the element, the
/// children and the rank of each.
pub proof fn lemma_nodes<T>(node: Node<T>, tree: Tree<T>, e: T)
    ensures
        element(singleton(e)) == e,
        left(singleton(e)) is None,
        right(singleton(e)) is None,
        rank(singleton(e)) == 0,
        element(with_right(node, tree)) == element(node),
        left(with_right(node, tree)) == left(node),
        right(with_right(node, tree)) == tree,
        rank(with_right(node, tree)) == rank(node),
        element(ranked(node)) == element(node),
        rank_of(left(node)) < rank_of(right(node)) ==> left(ranked(node)) == right(node) && right(
            ranked(node),
        ) == left(node),
        rank_of(left(node)) >= rank_of(right(node)) ==> left(ranked(node)) == left(node) && right(
            ranked(node),
        ) == right(node),
        rank_of(left(node)) <= usize::MAX && rank_of(right(node)) <= usize::MAX ==> rank(
            ranked(node),
        ) == if rank_of(left(node)) < rank_of(right(node)) {
            rank_of(left(node))
        } else {
            rank_of(right(node))
        },
{
}

/// At the root of a leftist tree the left child ranks at least as high as
/// the right one, so that a node with a right child has a left child; and
/// the rank of the root is one more than the rank of its right child, or 0
/// where it has none. The same holds of the trees under the root.
pub proof fn lemma_leftist_root<T>(node: Node<T>)
    requires
        leftist(Some(Box::new(node))),
    ensures
        rank_of(left(node)) >= rank_of(right(node)),
        right(node) is Some ==> left(node) is Some,
        right(node) matches Some(child) ==> rank(node) == rank(*child) + 1,
        right(node) is None ==> rank(node) == 0,
        leftist(left(node)),
        leftist(right(node)),
{
}

/// In a leftist tree the rank kept in each node is its null-path length.
pub proof fn lemma_rank_is_null_path_length<T>(tree: Tree<T>)
    requires
        leftist(tree),
    ensures
        rank_of(tree) == null_path_length(tree),
    decreases tree,
{
    match tree {
        None => {},
        Some(node) => {
            lemma_rank_is_null_path_length(node.left);
            lemma_rank_is_null_path_length(node.right);
        },
    }
}

/// A leftist tree has at least as many nodes as its root's rank counts.
pub proof fn lemma_rank_bounded<T>(tree: Tree<T>)
    requires
        leftist(tree),
    ensures
        rank_of(tree) <= elements(tree).len(),
    decreases tree,
{
    match tree {
        None => {},
        Some(node) => {
            lemma_rank_bounded(node.right);
        },
    }
}

/// The root of a heap-ordered tree holds a minimum of its elements.
proof fn lemma_root_is_minimum<T: Ord>(node: Box<Node<T>>)
    requires
        total_order::<T>(),
        heap_ordered(Some(node)),
    ensures
        is_minimum(node.element, elements(Some(node))),
{
    lemma_le_reflexive(node.element);
}

/// A leftist heap.
pub struct LeftistHeap<T> {
    root: Tree<T>,
}

impl<T: Ord> View for LeftistHeap<T> {
    type V = Multiset<T>;

    closed spec fn view(&self) -> Multiset<T> {
        elements(self.root)
    }
}

impl<T: Ord> Node<T> {
    /// A node without children.
    fn new(element: T) -> (node: Node<T>)
        ensures
            node.element == element,
            node.left is None,
            node.right is None,
            node.rank == 0,
            node == singleton(element),
            elements(Some(Box::new(node))) == Multiset::<T>::empty().insert(element),
            heap_ordered(Some(Box::new(node))),
            leftist(Some(Box::new(node))),
    {
        let node = Node { element, left: None, right: None, rank: 0 };
        proof {
            assert(elements(node.left) =~= Multiset::<T>::empty());
            assert(leftist(node.left) && leftist(node.right));
            assert(heap_ordered(node.left) && heap_ordered(node.right));
        }
        node
    }
}

impl<T: Ord> LeftistHeap<T> {
    /// The tree of the heap.
    pub closed spec fn tree(&self) -> Tree<T> {
        self.root
    }

    /// What it means for a leftist heap to be well formed: its tree is in
    /// heap order and leftist, and its elements can be counted.
    pub proof fn lemma_well_formed(&self)
        ensures
            self@ == elements(self.tree()),
            self.well_formed() <==> heap_ordered(self.tree()) && leftist(self.tree()) && self@.len()
                <= usize::MAX,
            self.tree() matches Some(node) ==> self.front() == element(*node),
            self.tree() is None <==> self@.len() == 0,
    {
    }

    /// An empty heap.
    pub fn new() -> (heap: LeftistHeap<T>)
        ensures
            heap.well_formed(),
            heap@ == Multiset::<T>::empty(),
    {
        LeftistHeap { root: None }
    }

    /// Merges two trees into one that holds the elements of both. The
    /// smaller root stays on top, the other tree goes into its right
    /// subtree, and the result is leftist again.
    pub fn merge_nodes(left: Tree<T>, right: Tree<T>) -> (tree: Tree<T>)
        requires
            total_order::<T>(),
            heap_ordered(left),
            heap_ordered(right),
            leftist(left),
            leftist(right),
            elements(left).len() + elements(right).len() <= usize::MAX,
        ensures
            tree == merged(left, right),
            heap_ordered(tree),
            leftist(tree),
            elements(tree) == elements(left).add(elements(right)),
        decreases elements(left).len() + elements(right).len(),
    {
        match (left, right) {
            (None, right) => right,
            (left, None) => left,
            (Some(mut left_node), Some(mut right_node)) => {
                if less_eq(&left_node.element, &right_node.element) {
                    let ghost before = left_node;
                    let ghost other = right_node;
                    proof {
                        lemma_root_is_minimum(right_node);
                        assert forall|y: T| elements(Some(other)).contains(y) implies le(
                            before.element,
                            y,
                        ) by {
                            lemma_le_transitive(before.element, other.element, y);
                        }
                    }
                    let rest = left_node.right.take();
                    let merged = Self::merge_nodes(rest, Some(right_node));
                    left_node.right = merged;
                    proof {
                        lemma_rank_bounded(left_node.left);
                        lemma_rank_bounded(left_node.right);
                    }
                    Self::update_rank(&mut left_node);
                    Some(left_node)
                } else {
                    let ghost before = right_node;
                    let ghost other = left_node;
                    proof {
                        lemma_root_is_minimum(left_node);
                        assert forall|y: T| elements(Some(other)).contains(y) implies le(
                            before.element,
                            y,
                        ) by {
                            lemma_le_transitive(before.element, other.element, y);
                        }
                    }
                    let rest = right_node.right.take();
                    let merged = Self::merge_nodes(rest, Some(left_node));
                    right_node.right = merged;
                    proof {
                        lemma_rank_bounded(right_node.left);
                        lemma_rank_bounded(right_node.right);
                    }
                    Self::update_rank(&mut right_node);
                    Some(right_node)
                }
            },
        }
    }

    /// Sets the rank of `node` from the ranks of its children, and exchanges
    /// the children where the right one ranks higher than the left one.
    fn update_rank(node: &mut Box<Node<T>>)
        requires
            leftist(old(node).left),
            leftist(old(node).right),
            rank_of(old(node).left) <= usize::MAX,
            rank_of(old(node).right) <= usize::MAX,
        ensures
            **final(node) == ranked(**old(node)),
            leftist(Some(*final(node))),
            final(node).element == old(node).element,
            rank_of(old(node).left) >= rank_of(old(node).right) ==> final(node).left == old(
                node,
            ).left && final(node).right == old(node).right,
            rank_of(old(node).left) < rank_of(old(node).right) ==> final(node).left == old(
                node,
            ).right && final(node).right == old(node).left,
    {
        let rank_left = match &node.left {
            None => 0,
            Some(left_node) => left_node.rank + 1,
        };
        let rank_right = match &node.right {
            None => 0,
            Some(right_node) => right_node.rank + 1,
        };
        node.rank = if rank_left <= rank_right { rank_left } else { rank_right };
        if rank_left < rank_right {
            std::mem::swap(&mut node.left, &mut node.right);
        }
    }

    /// The number of nodes of a tree.
    fn size_helper(&self, node: &Tree<T>) -> (n: usize)
        requires
            elements(*node).len() <= usize::MAX,
        ensures
            n == elements(*node).len(),
        decreases *node,
    {
        match node {
            Some(node) => {
                1 + self.size_helper(&node.left) + self.size_helper(&node.right)
            },
            None => 0,
        }
    }
}

impl<T: Ord> Heap<T> for LeftistHeap<T> {
    closed spec fn well_formed(&self) -> bool {
        &&& heap_ordered(self.root)
        &&& leftist(self.root)
        &&& elements(self.root).len() <= usize::MAX
    }

    closed spec fn front(&self) -> T {
        self.root.unwrap().element
    }

    proof fn lemma_front_is_minimum(&self) {
        lemma_root_is_minimum(self.root.unwrap());
    }

    fn peek(&self) -> (r: Option<&T>) {
        match &self.root {
            None => None,
            Some(node) => {
                proof {
                    lemma_root_is_minimum(*node);
                }
                Some(&node.element)
            },
        }
    }

    fn pop(&mut self) -> (r: Option<T>)
        ensures
            old(self).tree() matches Some(node) ==> final(self).tree() == merged(
                left(*node),
                right(*node),
            ),
            heap_ordered(final(self).tree()),
            leftist(final(self).tree()),
    {
        match self.root.take() {
            None => None,
            Some(node) => {
                proof {
                    lemma_root_is_minimum(node);
                }
                assert(old(self).front() == node.element);
                let Node { element, left, right, rank: _ } = *node;
                self.root = Self::merge_nodes(left, right);
                Some(element)
            },
        }
    }

    fn push(&mut self, element: T)
        ensures
            final(self).tree() == merged(old(self).tree(), Some(Box::new(singleton(element)))),
            heap_ordered(final(self).tree()),
            leftist(final(self).tree()),
    {
        let node = Box::new(Node::new(element));
        self.root = Self::merge_nodes(self.root.take(), Some(node));
    }

    fn size(&self) -> (n: usize) {
        self.size_helper(&self.root)
    }
}

} // verus!
