//! A binomial min-heap: a forest of binomial trees of distinct degrees.

use vstd::prelude::*;
use vstd::multiset::Multiset;
use crate::ds::heap::Heap;
use crate::order::{
    is_minimum, le, lemma_le_reflexive, lemma_le_total, lemma_le_transitive, less, lower_bound, lt,
    total_order,
};

verus! {

/// A node of a binomial tree with the subtrees below it.
pub struct Node<T: Ord> {
    element: T,
    children: Vec<Node<T>>,
}

/// A binomial heap.
pub struct BinomialHeap<T: Ord> {
    trees: Vec<Node<T>>,
}

/// The element at the root of a tree.
pub closed spec fn root<T: Ord>(node: Node<T>) -> T {
    node.element
}

/// The trees under the root of a tree, in the order in which it holds them.
pub closed spec fn children<T: Ord>(node: Node<T>) -> Seq<Node<T>> {
    node.children@
}

/// The degree of a tree: the number of children of its root.
pub open spec fn degree<T: Ord>(node: Node<T>) -> nat {
    children(node).len()
}

/// The elements of the tree under `node`, with their multiplicities.
pub open spec fn tree_elements<T: Ord>(node: Node<T>) -> Multiset<T>
    decreases node,
{
    forest_elements(children(node)).insert(root(node))
}

/// The elements of all the trees of `forest`, with their multiplicities.
pub open spec fn forest_elements<T: Ord>(forest: Seq<Node<T>>) -> Multiset<T>
    decreases forest,
{
    if forest.len() == 0 {
        Multiset::empty()
    } else {
        forest_elements(forest.drop_last()).add(tree_elements(forest.last()))
    }
}

/// What a tree is made of: the element at its root and, in their order,
/// what the trees under the root are made of.
pub struct Shape<T> {
    pub element: T,
    pub children: Seq<Shape<T>>,
}

/// What the tree under `node` is made of.
pub open spec fn shape<T: Ord>(node: Node<T>) -> Shape<T>
    decreases node,
{
    Shape { element: root(node), children: shapes(children(node)) }
}

/// What the trees of `forest` are made of, in their order.
pub open spec fn shapes<T: Ord>(forest: Seq<Node<T>>) -> Seq<Shape<T>>
    decreases forest,
{
    if forest.len() == 0 {
        Seq::empty()
    } else {
        shapes(forest.drop_last()).push(shape(forest.last()))
    }
}

/// The shape of a tree of one element.
pub open spec fn single<T>(element: T) -> Shape<T> {
    Shape { element, children: Seq::empty() }
}

/// The shape of the tree that two trees of one degree are joined into: the
/// tree with the smaller root takes the other as its last child; where
/// neither root is smaller, the second takes the first.
pub open spec fn joined<T: Ord>(a: Shape<T>, b: Shape<T>) -> Shape<T> {
    if lt(a.element, b.element) {
        Shape { element: a.element, children: a.children.push(b) }
    } else {
        Shape { element: b.element, children: b.children.push(a) }
    }
}

/// `forest`, which is sorted by degree, with `x` behind the last tree whose
/// degree is not larger than the degree of `x`.
pub open spec fn sorted_in<T>(forest: Seq<Shape<T>>, x: Shape<T>) -> Seq<Shape<T>>
    decreases forest.len(),
{
    if forest.len() > 0 && forest.last().children.len() > x.children.len() {
        sorted_in(forest.drop_last(), x).push(forest.last())
    } else {
        forest.push(x)
    }
}

/// `forest` sorted by degree, with the trees of one degree in the order in
/// which `forest` has them.
pub open spec fn sorted_forest<T>(forest: Seq<Shape<T>>) -> Seq<Shape<T>>
    decreases forest.len(),
{
    if forest.len() == 0 {
        forest
    } else {
        sorted_in(sorted_forest(forest.drop_last()), forest.last())
    }
}

/// From `i` on, the first place in `forest` whose tree has a degree that is
/// not smaller than the degree of `x`, or the end of `forest`.
pub open spec fn place_of<T>(forest: Seq<Shape<T>>, i: int, x: Shape<T>) -> int
    decreases forest.len() - i,
{
    if 0 <= i < forest.len() && forest[i].children.len() < x.children.len() {
        place_of(forest, i + 1, x)
    } else {
        i
    }
}

/// `forest`, which is sorted by degree, consolidated from `i` on: while the
/// trees at `i` and `i + 1` have one degree they are joined, and the tree
/// that they make takes its place by degree; where they differ, the same is
/// done from `i + 1` on.
pub open spec fn consolidated<T: Ord>(forest: Seq<Shape<T>>, i: int) -> Seq<Shape<T>>
    decreases 2 * forest.len() - i,
    via consolidated_terminates::<T>
{
    if 0 <= i && i + 1 < forest.len() {
        if forest[i].children.len() == forest[i + 1].children.len() {
            let x = joined(forest[i], forest[i + 1]);
            let rest = forest.remove(i).remove(i);
            consolidated(rest.insert(place_of(rest, i, x), x), i)
        } else {
            consolidated(forest, i + 1)
        }
    } else {
        forest
    }
}

#[via_fn]
proof fn consolidated_terminates<T: Ord>(forest: Seq<Shape<T>>, i: int) {
    if 0 <= i && i + 1 < forest.len() {
        let x = joined(forest[i], forest[i + 1]);
        lemma_place_of(forest.remove(i).remove(i), i, x);
    }
}

/// The place of a tree lies between where the search for it starts and the
/// end of the forest; the trees that the search passes have smaller degrees
/// than the tree, and the tree at the place, if there is one, has not.
pub proof fn lemma_place_of<T>(forest: Seq<Shape<T>>, i: int, x: Shape<T>)
    requires
        0 <= i <= forest.len(),
    ensures
        i <= place_of(forest, i, x) <= forest.len(),
        forall|k: int|
            i <= k < place_of(forest, i, x) ==> (#[trigger] forest[k]).children.len()
                < x.children.len(),
        place_of(forest, i, x) < forest.len() ==> forest[place_of(forest, i, x)].children.len()
            >= x.children.len(),
    decreases forest.len() - i,
{
    if i < forest.len() && forest[i].children.len() < x.children.len() {
        lemma_place_of(forest, i + 1, x);
    }
}

/// What merging two heaps makes of their forests: the trees of both are put
/// together, sorted by degree and consolidated.
pub open spec fn merged_forest<T: Ord>(a: Seq<Shape<T>>, b: Seq<Shape<T>>) -> Seq<Shape<T>> {
    consolidated(sorted_forest(a + b), 0)
}

/// The shapes of a forest are the shapes of its trees, place by place.
pub proof fn lemma_shapes<T: Ord>(forest: Seq<Node<T>>)
    ensures
        shapes(forest).len() == forest.len(),
        forall|i: int| 0 <= i < forest.len() ==> #[trigger] shapes(forest)[i] == shape(forest[i]),
    decreases forest.len(),
{
    if forest.len() > 0 {
        lemma_shapes(forest.drop_last());
    }
}

/// The degree of a tree is the number of children in its shape.
pub proof fn lemma_shape_degree<T: Ord>(node: Node<T>)
    ensures
        shape(node).children.len() == degree(node),
        shape(node).element == root(node),
{
    lemma_shapes(children(node));
}

/// A tree put into a forest that is sorted by degree, behind every tree
/// whose degree is not larger and before every tree whose degree is larger,
/// is where `sorted_in` puts it.
pub proof fn lemma_sorted_in<T>(forest: Seq<Shape<T>>, x: Shape<T>, j: int)
    requires
        0 <= j <= forest.len(),
        forall|k: int| j <= k < forest.len() ==> (#[trigger] forest[k]).children.len() > x.children.len(),
        j > 0 ==> forest[j - 1].children.len() <= x.children.len(),
    ensures
        sorted_in(forest, x) == forest.insert(j, x),
    decreases forest.len(),
{
    if j < forest.len() {
        lemma_sorted_in(forest.drop_last(), x, j);
        assert(forest.drop_last().insert(j, x).push(forest.last()) =~= forest.insert(j, x));
    } else {
        assert(forest.push(x) =~= forest.insert(j, x));
    }
}

/// What makes a tree binomial: the root of a tree of degree `k` has the
/// children of degrees `0, 1, ..., k - 1`, in this order, and each of them
/// is a binomial tree.
pub open spec fn binomial<T: Ord>(node: Node<T>) -> bool
    decreases node,
{
    forall|i: int|
        0 <= i < children(node).len() ==> degree(#[trigger] children(node)[i]) == i && binomial(
            children(node)[i],
        )
}

/// Every element of a tree is no smaller than the element at its root, and
/// so it is within every subtree.
pub open spec fn tree_ordered<T: Ord>(node: Node<T>) -> bool
    decreases node,
{
    &&& lower_bound(root(node), forest_elements(children(node)))
    &&& forall|i: int|
        0 <= i < children(node).len() ==> tree_ordered(#[trigger] children(node)[i])
}

/// A binomial tree in heap order.
pub open spec fn valid_tree<T: Ord>(node: Node<T>) -> bool {
    binomial(node) && tree_ordered(node)
}

/// Every tree of the forest is a binomial tree in heap order.
pub open spec fn valid_forest<T: Ord>(forest: Seq<Node<T>>) -> bool {
    forall|i: int| 0 <= i < forest.len() ==> valid_tree(#[trigger] forest[i])
}

/// No two trees of the forest have the same degree.
pub open spec fn distinct_degrees<T: Ord>(forest: Seq<Node<T>>) -> bool {
    forall|i: int, j: int|
        0 <= i < j < forest.len() ==> degree(#[trigger] forest[i]) != degree(#[trigger] forest[j])
}

/// The degrees of the trees do not decrease along the forest.
pub open spec fn sorted_by_degree<T: Ord>(forest: Seq<Node<T>>) -> bool {
    forall|i: int, j: int|
        0 <= i < j < forest.len() ==> degree(#[trigger] forest[i]) <= degree(#[trigger] forest[j])
}

/// Among the first `k` trees of `forest`, the index of the first one whose
/// root is a minimum of their roots.
pub open spec fn least_root<T: Ord>(forest: Seq<Node<T>>, k: nat) -> int
    decreases k,
{
    if k <= 1 {
        0
    } else {
        let m = least_root(forest, (k - 1) as nat);
        if lt(root(forest[k - 1]), root(forest[m])) {
            k - 1
        } else {
            m
        }
    }
}

/// A tree added at the end of a forest adds its elements.
pub proof fn lemma_forest_push<T: Ord>(forest: Seq<Node<T>>, node: Node<T>)
    ensures
        forest_elements(forest.push(node)) == forest_elements(forest).add(tree_elements(node)),
{
    assert(forest.push(node).drop_last() =~= forest);
}

/// Two forests put one after the other hold the elements of both.
pub proof fn lemma_forest_concat<T: Ord>(a: Seq<Node<T>>, b: Seq<Node<T>>)
    ensures
        forest_elements(a + b) == forest_elements(a).add(forest_elements(b)),
    decreases b.len(),
{
    if b.len() > 0 {
        lemma_forest_concat(a, b.drop_last());
        assert((a + b).drop_last() =~= a + b.drop_last());
    }
}

/// A forest holds the elements of one of its trees and those of the others.
pub proof fn lemma_forest_remove<T: Ord>(forest: Seq<Node<T>>, i: int)
    requires
        0 <= i < forest.len(),
    ensures
        forest_elements(forest) == forest_elements(forest.remove(i)).add(
            tree_elements(forest[i]),
        ),
{
    let front = forest.subrange(0, i);
    let back = forest.subrange(i + 1, forest.len() as int);
    assert(forest =~= front.push(forest[i]) + back);
    lemma_forest_concat(front.push(forest[i]), back);
    lemma_forest_concat(front, back);
    lemma_forest_push(front, forest[i]);
}

/// A tree put into a forest at any place adds its elements.
pub proof fn lemma_forest_insert<T: Ord>(forest: Seq<Node<T>>, i: int, node: Node<T>)
    requires
        0 <= i <= forest.len(),
    ensures
        forest_elements(forest.insert(i, node)) == forest_elements(forest).add(
            tree_elements(node),
        ),
{
    let after = forest.insert(i, node);
    assert(after.remove(i) =~= forest);
    lemma_forest_remove(after, i);
}

/// Every element of a forest is an element of one of its trees.
pub proof fn lemma_forest_member<T: Ord>(forest: Seq<Node<T>>, y: T) -> (i: int)
    requires
        forest_elements(forest).contains(y),
    ensures
        0 <= i < forest.len(),
        tree_elements(forest[i]).contains(y),
    decreases forest.len(),
{
    if forest.len() == 0 {
        0
    } else if tree_elements(forest.last()).contains(y) {
        forest.len() - 1
    } else {
        lemma_forest_member(forest.drop_last(), y)
    }
}

/// The root of a tree in heap order holds a minimum of its elements.
pub proof fn lemma_root_is_minimum<T: Ord>(node: Node<T>)
    requires
        total_order::<T>(),
        tree_ordered(node),
    ensures
        is_minimum(root(node), tree_elements(node)),
{
    lemma_le_reflexive(node.element);
}

/// The first `k` children of a binomial tree hold `2^k - 1` elements.
pub proof fn lemma_children_size<T: Ord>(children: Seq<Node<T>>, k: nat)
    requires
        k <= children.len(),
        forall|i: int|
            0 <= i < children.len() ==> degree(#[trigger] children[i]) == i && binomial(
                children[i],
            ),
    ensures
        forest_elements(children.take(k as int)).len() + 1 == vstd::arithmetic::power2::pow2(k),
    decreases children, k,
{
    if k == 0 {
        vstd::arithmetic::power2::lemma2_to64();
    } else {
        lemma_children_size(children, (k - 1) as nat);
        lemma_tree_size(children[k - 1]);
        assert(children.take(k as int) =~= children.take(k - 1).push(children[k - 1]));
        lemma_forest_push(children.take(k - 1), children[k - 1]);
        vstd::arithmetic::power2::lemma_pow2_unfold(k);
    }
}

/// A binomial tree of degree `k` holds `2^k` elements.
pub proof fn lemma_tree_size<T: Ord>(node: Node<T>)
    requires
        binomial(node),
    ensures
        tree_elements(node).len() == vstd::arithmetic::power2::pow2(degree(node)),
    decreases node, 0nat,
{
    lemma_children_size(children(node), children(node).len());
    assert(children(node).take(children(node).len() as int) =~= children(node));
}

/// Whether the binary digit of `n` that counts `2^k` is a one.
pub open spec fn digit(n: nat, k: nat) -> bool {
    (n / vstd::arithmetic::power2::pow2(k)) % 2 == 1
}

/// Some tree of the forest has the degree `k`.
pub open spec fn has_degree<T: Ord>(forest: Seq<Node<T>>, k: nat) -> bool {
    exists|i: int| 0 <= i < forest.len() && degree(#[trigger] forest[i]) == k
}

/// Every tree of the forest is binomial.
pub open spec fn binomial_forest<T: Ord>(forest: Seq<Node<T>>) -> bool {
    forall|i: int| 0 <= i < forest.len() ==> binomial(#[trigger] forest[i])
}

/// A number that is larger than the degree of every tree of the forest.
pub open spec fn degree_bound<T: Ord>(forest: Seq<Node<T>>) -> nat
    decreases forest.len(),
{
    if forest.len() == 0 {
        0
    } else {
        let rest = degree_bound(forest.drop_last());
        if rest > degree(forest.last()) {
            rest
        } else {
            degree(forest.last()) + 1
        }
    }
}

/// The degree of every tree of a forest is below the bound of the forest.
pub proof fn lemma_degree_bound<T: Ord>(forest: Seq<Node<T>>)
    ensures
        forall|i: int| 0 <= i < forest.len() ==> degree(#[trigger] forest[i]) < degree_bound(forest),
    decreases forest.len(),
{
    if forest.len() > 0 {
        lemma_degree_bound(forest.drop_last());
        assert forall|i: int| 0 <= i < forest.len() implies degree(#[trigger] forest[i])
            < degree_bound(forest) by {
            if i < forest.len() - 1 {
                assert(forest.drop_last()[i] == forest[i]);
            }
        }
    }
}

/// The digits of a number below `2^d` to which `2^d` is added: the digit
/// for `2^d` becomes a one, those below stay and those above are zeros.
pub proof fn lemma_digit_of_sum(small: nat, d: nat, k: nat)
    requires
        small < vstd::arithmetic::power2::pow2(d),
    ensures
        digit(small + vstd::arithmetic::power2::pow2(d), k) == (if k == d {
            true
        } else if k < d {
            digit(small, k)
        } else {
            false
        }),
{
    let p = vstd::arithmetic::power2::pow2(k);
    let sum = small + vstd::arithmetic::power2::pow2(d);
    vstd::arithmetic::power2::lemma_pow2_pos(k);
    vstd::arithmetic::power2::lemma_pow2_pos(d);
    if k > d {
        vstd::arithmetic::power2::lemma_pow2_unfold(d + 1);
        if d + 1 < k {
            vstd::arithmetic::power2::lemma_pow2_strictly_increases(d + 1, k);
        }
        vstd::arithmetic::div_mod::lemma_basic_div(sum as int, p as int);
    } else if k == d {
        vstd::arithmetic::div_mod::lemma_basic_div(small as int, p as int);
        vstd::arithmetic::div_mod::lemma_hoist_over_denominator(small as int, 1, p);
        assert(sum == small + 1 * p);
    } else {
        let j = vstd::arithmetic::power2::pow2((d - k) as nat);
        vstd::arithmetic::power2::lemma_pow2_adds(k, (d - k) as nat);
        vstd::arithmetic::power2::lemma_pow2_unfold((d - k) as nat);
        vstd::arithmetic::div_mod::lemma_hoist_over_denominator(small as int, j as int, p);
        assert(j * p == p * j) by (nonlinear_arith);
        assert(sum == small + j * p);
        let half = vstd::arithmetic::power2::pow2((d - k - 1) as nat);
        assert(j == 2 * half);
        assert((small / p + 2 * half) % 2 == (small / p) % 2);
    }
}

/// In a forest of binomial trees of distinct degrees, all below `d`, there
/// are fewer than `2^d` elements, and the digits of their number that are
/// ones are those for the degrees of the trees.
pub proof fn lemma_degrees_below<T: Ord>(forest: Seq<Node<T>>, d: nat, k: nat)
    requires
        binomial_forest(forest),
        distinct_degrees(forest),
        forall|i: int| 0 <= i < forest.len() ==> degree(#[trigger] forest[i]) < d,
    ensures
        forest_elements(forest).len() < vstd::arithmetic::power2::pow2(d),
        digit(forest_elements(forest).len(), k) <==> has_degree(forest, k),
    decreases d,
{
    vstd::arithmetic::power2::lemma_pow2_pos(k);
    vstd::arithmetic::power2::lemma_pow2_pos(d);
    if d == 0 {
        if forest.len() > 0 {
            assert(degree(forest[0]) < 0);
        }
        vstd::arithmetic::div_mod::lemma_basic_div(0, vstd::arithmetic::power2::pow2(k) as int);
    } else if has_degree(forest, (d - 1) as nat) {
        let m = choose|i: int| 0 <= i < forest.len() && degree(#[trigger] forest[i]) == d - 1;
        let rest = forest.remove(m);
        assert forall|i: int| 0 <= i < rest.len() implies binomial(#[trigger] rest[i]) && degree(
            rest[i],
        ) < d - 1 by {
            let j = if i < m {
                i
            } else {
                i + 1
            };
            assert(rest[i] == forest[j]);
            assert(degree(forest[j]) != degree(forest[m]));
        }
        assert forall|a: int, b: int| 0 <= a < b < rest.len() implies degree(#[trigger] rest[a])
            != degree(#[trigger] rest[b]) by {
            let x = if a < m {
                a
            } else {
                a + 1
            };
            let y = if b < m {
                b
            } else {
                b + 1
            };
            assert(rest[a] == forest[x] && rest[b] == forest[y]);
        }
        lemma_degrees_below(rest, (d - 1) as nat, k);
        lemma_forest_remove(forest, m);
        lemma_tree_size(forest[m]);
        lemma_digit_of_sum(forest_elements(rest).len(), (d - 1) as nat, k);
        vstd::arithmetic::power2::lemma_pow2_unfold(d);
        if has_degree(rest, k) {
            let i = choose|i: int| 0 <= i < rest.len() && degree(#[trigger] rest[i]) == k;
            let j = if i < m {
                i
            } else {
                i + 1
            };
            assert(forest[j] == rest[i]);
        }
        if has_degree(forest, k) && k != d - 1 {
            let j = choose|j: int| 0 <= j < forest.len() && degree(#[trigger] forest[j]) == k;
            let i = if j < m {
                j
            } else {
                j - 1
            };
            assert(rest[i] == forest[j]);
        }
    } else {
        assert forall|i: int| 0 <= i < forest.len() implies degree(#[trigger] forest[i]) < d
            - 1 by {
            if degree(forest[i]) == d - 1 {
                assert(has_degree(forest, (d - 1) as nat));
            }
        }
        lemma_degrees_below(forest, (d - 1) as nat, k);
        vstd::arithmetic::power2::lemma_pow2_unfold(d);
    }
}

/// In a forest of binomial trees of distinct degrees, the degrees of the
/// trees are the places of the ones among the binary digits of the number
/// of elements.
pub proof fn lemma_degrees_are_digits<T: Ord>(forest: Seq<Node<T>>, k: nat)
    requires
        binomial_forest(forest),
        distinct_degrees(forest),
    ensures
        digit(forest_elements(forest).len(), k) <==> has_degree(forest, k),
{
    lemma_degree_bound(forest);
    lemma_degrees_below(forest, degree_bound(forest), k);
}

/// The first of the least roots is no larger than any root.
pub proof fn lemma_least_root<T: Ord>(forest: Seq<Node<T>>, k: nat, i: int)
    requires
        total_order::<T>(),
        0 <= i < k <= forest.len(),
    ensures
        0 <= least_root(forest, k) < k,
        le(root(forest[least_root(forest, k)]), root(forest[i])),
    decreases k,
{
    if k <= 1 {
        lemma_le_reflexive(forest[0].element);
    } else {
        let m = least_root(forest, (k - 1) as nat);
        lemma_least_root(forest, (k - 1) as nat, 0);
        lemma_le_total(forest[k - 1].element, forest[m].element);
        if i < k - 1 {
            lemma_least_root(forest, (k - 1) as nat, i);
            if least_root(forest, k) == k - 1 {
                lemma_le_transitive(forest[k - 1].element, forest[m].element, forest[i].element);
            }
        } else {
            lemma_le_reflexive(forest[k - 1].element);
        }
    }
}

/// The least root of a forest of trees in heap order is a minimum of the
/// elements of the forest.
pub proof fn lemma_least_root_is_minimum<T: Ord>(forest: Seq<Node<T>>)
    requires
        total_order::<T>(),
        forest.len() > 0,
        valid_forest(forest),
    ensures
        is_minimum(root(forest[least_root(forest, forest.len())]), forest_elements(forest)),
{
    let m = least_root(forest, forest.len());
    lemma_least_root(forest, forest.len(), 0);
    lemma_forest_remove(forest, m);
    assert forall|y: T| forest_elements(forest).contains(y) implies le(root(forest[m]), y) by {
        let i = lemma_forest_member(forest, y);
        lemma_least_root(forest, forest.len(), i);
        lemma_root_is_minimum(forest[i]);
        lemma_le_transitive(root(forest[m]), root(forest[i]), y);
    }
}

/// `2^k`, for a `k` whose power fits.
fn power_of_two(k: usize) -> (p: usize)
    requires
        vstd::arithmetic::power2::pow2(k as nat) <= usize::MAX,
    ensures
        p == vstd::arithmetic::power2::pow2(k as nat),
{
    let mut p: usize = 1;
    let mut i: usize = 0;
    proof {
        vstd::arithmetic::power2::lemma2_to64();
    }
    while i < k
        invariant
            i <= k,
            p == vstd::arithmetic::power2::pow2(i as nat),
            vstd::arithmetic::power2::pow2(k as nat) <= usize::MAX,
        decreases k - i,
    {
        proof {
            vstd::arithmetic::power2::lemma_pow2_unfold((i + 1) as nat);
            if i + 1 < k {
                vstd::arithmetic::power2::lemma_pow2_strictly_increases((i + 1) as nat, k as nat);
            }
        }
        p = 2 * p;
        i += 1;
    }
    p
}

impl<T: Ord> Node<T> {
    /// A tree of one element.
    fn new(element: T) -> (node: Self)
        ensures
            valid_tree(node),
            degree(node) == 0,
            tree_elements(node) == Multiset::<T>::empty().insert(element),
            shape(node) == single(element),
    {
        Node { element, children: Vec::new() }
    }

    /// Makes `child` the last of the children.
    fn add_child(&mut self, child: Node<T>)
        ensures
            final(self).element == old(self).element,
            final(self).children@ == old(self).children@.push(child),
    {
        self.children.push(child);
    }

    /// Joins two binomial trees of one degree into a binomial tree of the
    /// next degree. The tree with the smaller root takes the other as its
    /// last child; where neither root is smaller, the second takes the
    /// first.
    fn merge(node1: Node<T>, node2: Node<T>) -> (node: Node<T>)
        requires
            total_order::<T>(),
            valid_tree(node1),
            valid_tree(node2),
            degree(node1) == degree(node2),
        ensures
            valid_tree(node),
            degree(node) == degree(node1) + 1,
            tree_elements(node) == tree_elements(node1).add(tree_elements(node2)),
            lt(root(node1), root(node2)) ==> root(node) == root(node1) && children(node)
                == children(node1).push(node2),
            !lt(root(node1), root(node2)) ==> root(node) == root(node2) && children(node)
                == children(node2).push(node1),
            shape(node) == joined(shape(node1), shape(node2)),
    {
        proof {
            lemma_root_is_minimum(node1);
            lemma_root_is_minimum(node2);
        }
        if less(&node1.element, &node2.element) {
            let mut node = node1;
            node.add_child(node2);
            proof {
                assert(node.children@.drop_last() =~= node1.children@);
                lemma_forest_push(node1.children@, node2);
                assert forall|y: T| tree_elements(node2).contains(y) implies le(
                    node1.element,
                    y,
                ) by {
                    lemma_le_transitive(node1.element, node2.element, y);
                }
            }
            node
        } else {
            let mut node = node2;
            node.add_child(node1);
            proof {
                assert(node.children@.drop_last() =~= node2.children@);
                lemma_forest_push(node2.children@, node1);
                assert forall|y: T| tree_elements(node1).contains(y) implies le(
                    node2.element,
                    y,
                ) by {
                    lemma_le_transitive(node2.element, node1.element, y);
                }
            }
            node
        }
    }
}

/// A rearrangement of a valid forest is a valid forest.
proof fn lemma_valid_forest_rearranged<T: Ord>(before: Seq<Node<T>>, after: Seq<Node<T>>)
    requires
        valid_forest(before),
        before.to_multiset() == after.to_multiset(),
    ensures
        valid_forest(after),
{
    broadcast use vstd::seq_lib::group_to_multiset_ensures;

    assert forall|i: int| 0 <= i < after.len() implies valid_tree(#[trigger] after[i]) by {
        vstd::seq_lib::to_multiset_contains(after, after[i]);
        let k = choose|k: int| 0 <= k < before.len() && before[k] == after[i];
        assert(valid_tree(before[k]));
    }
}

/// Each of the first `k` trees has a smaller degree than every tree after
/// it.
pub open spec fn strictly_below<T: Ord>(forest: Seq<Node<T>>, k: int) -> bool {
    forall|a: int, b: int|
        0 <= a < b < forest.len() && a < k ==> degree(#[trigger] forest[a]) < degree(
            #[trigger] forest[b],
        )
}

/// The step of consolidation: in a forest sorted by degree, the trees at
/// `i` and `i + 1` leave and `node`, which holds their elements and has the
/// next degree, enters at `j`, behind what is left of its former degree.
/// The forest stays sorted and valid and keeps its elements.
proof fn lemma_joined_in_place<T: Ord>(before: Seq<Node<T>>, i: int, j: int, node: Node<T>)
    requires
        0 <= i,
        i + 1 < before.len(),
        valid_forest(before),
        sorted_by_degree(before),
        strictly_below(before, i),
        degree(before[i]) == degree(before[i + 1]),
        valid_tree(node),
        degree(node) == degree(before[i]) + 1,
        tree_elements(node) == tree_elements(before[i]).add(tree_elements(before[i + 1])),
        i <= j <= before.len() - 2,
        forall|a: int| i <= a < j ==> degree(#[trigger] before.remove(i).remove(i)[a]) < degree(node),
        j < before.len() - 2 ==> degree(before.remove(i).remove(i)[j]) >= degree(node),
    ensures
        valid_forest(before.remove(i).remove(i).insert(j, node)),
        sorted_by_degree(before.remove(i).remove(i).insert(j, node)),
        strictly_below(before.remove(i).remove(i).insert(j, node), i),
        forest_elements(before.remove(i).remove(i).insert(j, node)) == forest_elements(before),
{
    let without = before.remove(i).remove(i);
    let after = without.insert(j, node);
    lemma_forest_remove(before, i);
    lemma_forest_remove(before.remove(i), i);
    lemma_forest_insert(without, j, node);
    assert forall|a: int| 0 <= a < without.len() implies #[trigger] without[a] == (if a < i {
        before[a]
    } else {
        before[a + 2]
    }) by {}
    assert forall|a: int| 0 <= a < without.len() && a < i implies degree(#[trigger] without[a])
        < degree(before[i]) by {}
    assert forall|a: int, b: int| 0 <= a < b < without.len() implies degree(
        #[trigger] without[a],
    ) <= degree(#[trigger] without[b]) by {}
    assert forall|a: int| 0 <= a < after.len() implies #[trigger] after[a] == (if a < j {
        without[a]
    } else if a == j {
        node
    } else {
        without[a - 1]
    }) by {}
    assert forall|a: int| 0 <= a < after.len() implies valid_tree(#[trigger] after[a]) by {}
    assert forall|a: int, b: int| 0 <= a < b < after.len() implies degree(#[trigger] after[a])
        <= degree(#[trigger] after[b]) by {}
    assert forall|a: int, b: int| 0 <= a < b < after.len() && a < i implies degree(
        #[trigger] after[a],
    ) < degree(#[trigger] after[b]) by {}
}

/// A place behind trees of smaller degrees only, at the end of the forest
/// or at a tree whose degree is not smaller, is the place of the tree.
pub proof fn lemma_place_found<T>(forest: Seq<Shape<T>>, i: int, x: Shape<T>, j: int)
    requires
        0 <= i <= j <= forest.len(),
        forall|k: int| i <= k < j ==> (#[trigger] forest[k]).children.len() < x.children.len(),
        j < forest.len() ==> forest[j].children.len() >= x.children.len(),
    ensures
        place_of(forest, i, x) == j,
    decreases j - i,
{
    if i < j {
        lemma_place_found(forest, i + 1, x, j);
    }
}

/// The step of consolidation, as `consolidated` takes it: what is to be
/// made of the forest is the same before and after the step.
proof fn lemma_consolidated_step<T: Ord>(before: Seq<Node<T>>, i: int, j: int, node: Node<T>)
    requires
        0 <= i,
        i + 1 < before.len(),
        degree(before[i]) == degree(before[i + 1]),
        shape(node) == joined(shape(before[i]), shape(before[i + 1])),
        i <= j <= before.len() - 2,
        forall|a: int| i <= a < j ==> degree(#[trigger] before.remove(i).remove(i)[a]) < degree(node),
        j < before.len() - 2 ==> degree(before.remove(i).remove(i)[j]) >= degree(node),
    ensures
        consolidated(shapes(before), i) == consolidated(
            shapes(before.remove(i).remove(i).insert(j, node)),
            i,
        ),
{
    let without = before.remove(i).remove(i);
    let after = without.insert(j, node);
    let x = shape(node);
    lemma_shapes(before);
    lemma_shapes(without);
    lemma_shapes(after);
    lemma_shape_degree(before[i]);
    lemma_shape_degree(before[i + 1]);
    lemma_shape_degree(node);
    assert(shapes(before)[i] == shape(before[i]));
    assert(shapes(before)[i + 1] == shape(before[i + 1]));
    assert(shapes(before).remove(i).remove(i) =~= shapes(without));
    assert forall|k: int| i <= k < j implies (#[trigger] shapes(without)[k]).children.len()
        < x.children.len() by {
        lemma_shape_degree(without[k]);
    }
    if j < without.len() {
        lemma_shape_degree(without[j]);
    }
    lemma_place_found(shapes(without), i, x, j);
    assert(shapes(without).insert(j, x) =~= shapes(after));
}

/// Sorts the trees by degree, keeping trees of one degree in their order.
fn sort_by_degree<T: Ord>(trees: &mut Vec<Node<T>>)
    ensures
        shapes(final(trees)@) == sorted_forest(shapes(old(trees)@)),
        sorted_by_degree(final(trees)@),
        final(trees)@.len() == old(trees)@.len(),
        final(trees)@.to_multiset() == old(trees)@.to_multiset(),
        forest_elements(final(trees)@) == forest_elements(old(trees)@),
{
    if trees.len() == 0 {
        return ;
    }
    proof {
        lemma_shapes(trees@);
        let first = shapes(trees@).take(1);
        assert(sorted_forest(first.drop_last()) =~= Seq::<Shape<T>>::empty());
        assert(sorted_forest(first) =~= first);
        assert(shapes(trees@) =~= sorted_forest(first) + shapes(trees@).skip(1));
    }
    let mut i: usize = 1;
    while i < trees.len()
        invariant
            1 <= i <= trees@.len(),
            trees@.len() == old(trees)@.len(),
            trees@.to_multiset() == old(trees)@.to_multiset(),
            forest_elements(trees@) == forest_elements(old(trees)@),
            shapes(trees@) == sorted_forest(shapes(old(trees)@).take(i as int)) + shapes(
                old(trees)@,
            ).skip(i as int),
            forall|a: int, b: int|
                0 <= a < b < i ==> degree(#[trigger] trees@[a]) <= degree(#[trigger] trees@[b]),
        decreases trees@.len() - i,
    {
        let ghost before = trees@;
        let node = trees.remove(i);
        let ghost without = trees@;
        let mut j: usize = i;
        while j > 0 && trees[j - 1].children.len() > node.children.len()
            invariant
                j <= i,
                i <= trees@.len(),
                trees@ == without,
                forall|a: int| j <= a < i ==> degree(node) < degree(#[trigger] trees@[a]),
            decreases j,
        {
            j -= 1;
        }
        trees.insert(j, node);
        proof {
            lemma_forest_remove(before, i as int);
            lemma_forest_insert(without, j as int, node);
            vstd::seq_lib::to_multiset_remove(before, i as int);
            vstd::seq_lib::to_multiset_insert(without, j as int, node);
            vstd::seq_lib::to_multiset_contains(before, node);
            let after = trees@;
            assert forall|a: int, b: int| 0 <= a < b < i + 1 implies degree(#[trigger] after[a])
                <= degree(#[trigger] after[b]) by {}
            assert forall|a: int| j <= a < i implies degree(before[i as int]) < degree(
                #[trigger] before[a],
            ) by {
                assert(before[a] == without[a]);
            }
            if j > 0 {
                assert(before[j - 1] == without[j - 1]);
            }
            lemma_sorted_step(old(trees)@, before, i as int, j as int);
        }
        i += 1;
    }
    proof {
        assert(shapes(old(trees)@).take(i as int) =~= shapes(old(trees)@));
    }
}

/// The step of sorting: the first `i` trees of `before` are those of
/// `start`, sorted, and the others are as in `start`. The tree at `i` goes
/// to `j`, behind the trees whose degrees are not larger than its own and
/// before those whose degrees are larger; then the first `i + 1` trees are
/// those of `start`, sorted.
proof fn lemma_sorted_step<T: Ord>(start: Seq<Node<T>>, before: Seq<Node<T>>, i: int, j: int)
    requires
        0 <= j <= i < before.len(),
        before.len() == start.len(),
        shapes(before) == sorted_forest(shapes(start).take(i)) + shapes(start).skip(i),
        forall|a: int| j <= a < i ==> degree(before[i]) < degree(#[trigger] before[a]),
        j > 0 ==> degree(before[j - 1]) <= degree(before[i]),
    ensures
        shapes(before.remove(i).insert(j, before[i])) == sorted_forest(shapes(start).take(i + 1))
            + shapes(start).skip(i + 1),
{
    let all = shapes(start);
    let prefix = sorted_forest(all.take(i));
    let x = shape(before[i]);
    let after = before.remove(i).insert(j, before[i]);
    lemma_shapes(start);
    lemma_shapes(before);
    lemma_shapes(after);
    assert(prefix.len() == i);
    assert(x == all[i]) by {
        assert(shapes(before)[i] == x);
        assert(shapes(before)[i] == all.skip(i)[0]);
    }
    assert forall|k: int| j <= k < prefix.len() implies (#[trigger] prefix[k]).children.len()
        > x.children.len() by {
        assert(prefix[k] == shapes(before)[k]);
        lemma_shape_degree(before[k]);
        lemma_shape_degree(before[i]);
    }
    if j > 0 {
        assert(prefix[j - 1] == shapes(before)[j - 1]);
        lemma_shape_degree(before[j - 1]);
        lemma_shape_degree(before[i]);
    }
    lemma_sorted_in(prefix, x, j);
    assert(all.take(i + 1).drop_last() =~= all.take(i));
    assert(sorted_forest(all.take(i + 1)) == prefix.insert(j, x));
    assert forall|k: int| 0 <= k < after.len() implies shapes(after)[k] == (prefix.insert(j, x)
        + all.skip(i + 1))[k] by {
        if k < j {
            assert(after[k] == before[k]);
            assert(shapes(before)[k] == prefix[k]);
        } else if k == j {
        } else if k <= i {
            assert(after[k] == before[k - 1]);
            assert(shapes(before)[k - 1] == prefix[k - 1]);
        } else {
            assert(after[k] == before[k]);
            assert(shapes(before)[k] == all.skip(i)[k - i]);
        }
    }
    assert(shapes(after) =~= prefix.insert(j, x) + all.skip(i + 1));
}

/// The trees in the opposite order.
fn reversed<T: Ord>(trees: Vec<Node<T>>) -> (r: Vec<Node<T>>)
    ensures
        r@ == trees@.reverse(),
        forest_elements(r@) == forest_elements(trees@),
{
    let mut rest = trees;
    let mut r: Vec<Node<T>> = Vec::new();
    while rest.len() > 0
        invariant
            rest@.len() + r@.len() == trees@.len(),
            rest@ == trees@.subrange(0, rest@.len() as int),
            forall|i: int| 0 <= i < r@.len() ==> r@[i] == trees@[trees@.len() - 1 - i],
            forest_elements(r@).add(forest_elements(rest@)) == forest_elements(trees@),
        decreases rest@.len(),
    {
        let ghost r_before = r@;
        let node = rest.pop().unwrap();
        r.push(node);
        proof {
            lemma_forest_push(r_before, node);
        }
    }
    r
}

/// `copy` has the shape of `node`, and each of its elements is a clone of
/// the element of `node` in the same place.
pub open spec fn mirrors<T: Ord + Clone>(copy: Node<T>, node: Node<T>) -> bool
    decreases node,
{
    &&& cloned(root(node), root(copy))
    &&& children(copy).len() == children(node).len()
    &&& forall|i: int|
        0 <= i < children(node).len() ==> mirrors(children(copy)[i], #[trigger] children(node)[i])
}

/// The trees of `copies` mirror those of `forest`, one by one.
pub open spec fn forest_mirrors<T: Ord + Clone>(copies: Seq<Node<T>>, forest: Seq<Node<T>>) -> bool {
    &&& copies.len() == forest.len()
    &&& forall|i: int| 0 <= i < forest.len() ==> mirrors(copies[i], #[trigger] forest[i])
}

/// A clone of an element of `T` is always equal to the element.
pub open spec fn clone_is_equal<T: Clone>() -> bool {
    forall|a: T, b: T| cloned(a, b) ==> a == b
}

/// Where a clone of an element is equal to the element, a tree that mirrors
/// another has its root, its degree and its elements, and is as valid.
pub proof fn lemma_mirror_of_tree<T: Ord + Clone>(copy: Node<T>, node: Node<T>)
    requires
        clone_is_equal::<T>(),
        mirrors(copy, node),
    ensures
        root(copy) == root(node),
        degree(copy) == degree(node),
        tree_elements(copy) == tree_elements(node),
        binomial(node) ==> binomial(copy),
        tree_ordered(node) ==> tree_ordered(copy),
    decreases node, 0nat,
{
    lemma_mirror_of_forest(children(copy), children(node), children(node).len());
    assert(children(copy).take(children(node).len() as int) =~= children(copy));
    assert(children(node).take(children(node).len() as int) =~= children(node));
    assert forall|i: int| 0 <= i < children(copy).len() implies (binomial(node) ==> degree(
        #[trigger] children(copy)[i],
    ) == i && binomial(children(copy)[i])) && (tree_ordered(node) ==> tree_ordered(
        children(copy)[i],
    )) by {
        lemma_mirror_of_tree(children(copy)[i], children(node)[i]);
    }
}

/// Where a clone of an element is equal to the element, the first `k` trees
/// of a forest that mirrors another have the elements of the first `k`
/// trees of that one.
pub proof fn lemma_mirror_of_forest<T: Ord + Clone>(
    copies: Seq<Node<T>>,
    forest: Seq<Node<T>>,
    k: nat,
)
    requires
        clone_is_equal::<T>(),
        forest_mirrors(copies, forest),
        k <= forest.len(),
    ensures
        forest_elements(copies.take(k as int)) == forest_elements(forest.take(k as int)),
    decreases forest, k,
{
    if k == 0 {
        assert(copies.take(0) =~= forest.take(0));
    } else {
        lemma_mirror_of_forest(copies, forest, (k - 1) as nat);
        lemma_mirror_of_tree(copies[k - 1], forest[k - 1]);
        assert(copies.take(k as int) =~= copies.take(k - 1).push(copies[k - 1]));
        assert(forest.take(k as int) =~= forest.take(k - 1).push(forest[k - 1]));
        lemma_forest_push(copies.take(k - 1), copies[k - 1]);
        lemma_forest_push(forest.take(k - 1), forest[k - 1]);
    }
}

/// A clone of each tree, in the same order.
fn clone_trees<T: Ord + Clone>(trees: &Vec<Node<T>>) -> (copies: Vec<Node<T>>)
    ensures
        forest_mirrors(copies@, trees@),
    decreases trees,
{
    let mut copies: Vec<Node<T>> = Vec::new();
    let mut i: usize = 0;
    while i < trees.len()
        invariant
            i <= trees@.len(),
            copies@.len() == i,
            forall|k: int| 0 <= k < i ==> mirrors(copies@[k], #[trigger] trees@[k]),
        decreases trees@.len() - i,
    {
        copies.push(trees[i].clone());
        i += 1;
    }
    copies
}

impl<T: Ord + Clone> Clone for Node<T> {
    /// A tree of the same shape that holds, in each place, a clone of the
    /// element that this tree holds there.
    fn clone(&self) -> (copy: Self)
        ensures
            mirrors(copy, *self),
        decreases self,
    {
        Node { element: self.element.clone(), children: clone_trees(&self.children) }
    }
}

impl<T: Ord + Clone> Clone for BinomialHeap<T> {
    /// A heap whose trees mirror the trees of this heap. Where a clone of
    /// an element is equal to the element, it is well formed if this heap
    /// is, and holds the same elements.
    fn clone(&self) -> (copy: Self)
        ensures
            forest_mirrors(copy.forest(), self.forest()),
            clone_is_equal::<T>() ==> copy@ == self@ && (self.well_formed()
                ==> copy.well_formed()),
    {
        let copy = BinomialHeap { trees: clone_trees(&self.trees) };
        proof {
            if clone_is_equal::<T>() {
                lemma_mirror_of_forest(copy.trees@, self.trees@, self.trees@.len());
                assert(copy.trees@.take(self.trees@.len() as int) =~= copy.trees@);
                assert(self.trees@.take(self.trees@.len() as int) =~= self.trees@);
                assert forall|i: int| 0 <= i < copy.trees@.len() implies degree(
                    #[trigger] copy.trees@[i],
                ) == degree(self.trees@[i]) && (valid_tree(self.trees@[i]) ==> valid_tree(
                    copy.trees@[i],
                )) by {
                    lemma_mirror_of_tree(copy.trees@[i], self.trees@[i]);
                }
            }
        }
        copy
    }
}

impl<T: Ord> View for BinomialHeap<T> {
    type V = Multiset<T>;

    closed spec fn view(&self) -> Multiset<T> {
        forest_elements(self.trees@)
    }
}

impl<T: Ord> BinomialHeap<T> {
    /// The trees of the heap, in the order in which it holds them.
    pub closed spec fn forest(&self) -> Seq<Node<T>> {
        self.trees@
    }

    /// What it means for a binomial heap to be well formed: its trees are
    /// binomial trees in heap order, no two of them have the same degree,
    /// and its elements can be counted.
    pub proof fn lemma_well_formed(&self)
        ensures
            self@ == forest_elements(self.forest()),
            self.well_formed() <==> valid_forest(self.forest()) && distinct_degrees(self.forest())
                && self@.len() <= usize::MAX,
            self.forest().len() > 0 ==> self.front() == root(
                self.forest()[least_root(self.forest(), self.forest().len())],
            ),
    {
    }

    /// The trees of a well-formed heap have the degrees that are the places
    /// of the ones among the binary digits of its size.
    pub proof fn lemma_degrees(&self, k: nat)
        requires
            self.well_formed(),
        ensures
            digit(self@.len(), k) <==> has_degree(self.forest(), k),
    {
        lemma_degrees_are_digits(self.trees@, k);
    }

    /// An empty heap.
    pub fn new() -> (heap: Self)
        ensures
            heap.well_formed(),
            heap@ == Multiset::<T>::empty(),
            heap.forest() == Seq::<Node<T>>::empty(),
    {
        BinomialHeap { trees: Vec::new() }
    }

    /// Moves the elements of `other` into this heap. The trees of both are
    /// put together and sorted by degree; then, from the smallest degree
    /// on, two neighbours of one degree are joined into a tree of the next
    /// degree, which takes its place by degree, until no two trees have the
    /// same degree.
    pub fn merge_heap(&mut self, other: BinomialHeap<T>)
        requires
            total_order::<T>(),
            old(self).well_formed(),
            other.well_formed(),
            old(self)@.len() + other@.len() <= usize::MAX,
        ensures
            final(self).well_formed(),
            final(self)@ == old(self)@.add(other@),
            shapes(final(self).forest()) == merged_forest(
                shapes(old(self).forest()),
                shapes(other.forest()),
            ),
            valid_forest(final(self).forest()),
            distinct_degrees(final(self).forest()),
            sorted_by_degree(final(self).forest()),
    {
        let mut rest = other;
        let ghost together = self.trees@ + rest.trees@;
        proof {
            lemma_forest_concat(self.trees@, rest.trees@);
            lemma_shapes(self.trees@);
            lemma_shapes(rest.trees@);
            lemma_shapes(together);
            assert(shapes(together) =~= shapes(self.trees@) + shapes(rest.trees@));
        }
        self.trees.append(&mut rest.trees);
        sort_by_degree(&mut self.trees);
        proof {
            lemma_valid_forest_rearranged(together, self.trees@);
        }
        let mut i: usize = 0;
        while i + 1 < self.trees.len()
            invariant
                total_order::<T>(),
                i < self.trees.len() || i == 0,
                valid_forest(self.trees@),
                sorted_by_degree(self.trees@),
                strictly_below(self.trees@, i as int),
                forest_elements(self.trees@) == old(self)@.add(other@),
                consolidated(shapes(self.trees@), i as int) == merged_forest(
                    shapes(old(self).trees@),
                    shapes(other.trees@),
                ),
            decreases 2 * self.trees@.len() - i,
        {
            proof {
                lemma_shapes(self.trees@);
                lemma_shape_degree(self.trees@[i as int]);
                lemma_shape_degree(self.trees@[i + 1]);
            }
            if self.trees[i].children.len() == self.trees[i + 1].children.len() {
                let ghost before = self.trees@;
                let first = self.trees.remove(i);
                let second = self.trees.remove(i);
                let ghost without = self.trees@;
                let node = Node::merge(first, second);
                let mut j: usize = i;
                while j < self.trees.len() && self.trees[j].children.len() < node.children.len()
                    invariant
                        i <= j <= self.trees@.len(),
                        self.trees@ == without,
                        forall|a: int|
                            i <= a < j ==> degree(#[trigger] self.trees@[a]) < degree(node),
                    decreases self.trees@.len() - j,
                {
                    j += 1;
                }
                self.trees.insert(j, node);
                proof {
                    lemma_joined_in_place(before, i as int, j as int, node);
                    lemma_consolidated_step(before, i as int, j as int, node);
                }
            } else {
                i += 1;
            }
        }
        proof {
            lemma_shapes(self.trees@);
        }
    }

    /// The index of the first tree whose root is a minimum of the roots.
    fn least_index(&self) -> (m: usize)
        requires
            total_order::<T>(),
            self.trees@.len() > 0,
        ensures
            m < self.trees@.len(),
            m == least_root(self.trees@, self.trees@.len()),
    {
        let mut m: usize = 0;
        let mut k: usize = 1;
        while k < self.trees.len()
            invariant
                total_order::<T>(),
                1 <= k <= self.trees@.len(),
                m < k,
                m == least_root(self.trees@, k as nat),
            decreases self.trees@.len() - k,
        {
            if less(&self.trees[k].element, &self.trees[m].element) {
                m = k;
            }
            k += 1;
        }
        m
    }
}

impl<T: Ord> Heap<T> for BinomialHeap<T> {
    closed spec fn well_formed(&self) -> bool {
        &&& valid_forest(self.trees@)
        &&& distinct_degrees(self.trees@)
        &&& forest_elements(self.trees@).len() <= usize::MAX
    }

    closed spec fn front(&self) -> T {
        self.trees@[least_root(self.trees@, self.trees@.len())].element
    }

    proof fn lemma_front_is_minimum(&self) {
        lemma_least_root_is_minimum(self.trees@);
    }

    fn push(&mut self, element: T)
        ensures
            shapes(final(self).forest()) == merged_forest(
                shapes(old(self).forest()),
                seq![single(element)],
            ),
            valid_forest(final(self).forest()),
            distinct_degrees(final(self).forest()),
            sorted_by_degree(final(self).forest()),
    {
        let node = Node::new(element);
        let mut trees = Vec::new();
        trees.push(node);
        proof {
            lemma_forest_push(Seq::<Node<T>>::empty(), node);
            lemma_shapes(trees@);
            assert(shapes(trees@) =~= seq![single(element)]);
        }
        self.merge_heap(BinomialHeap { trees });
    }

    fn peek(&self) -> (r: Option<&T>) {
        if self.trees.is_empty() {
            return None;
        }
        proof {
            lemma_least_root_is_minimum(self.trees@);
        }
        let m = self.least_index();
        Some(&self.trees[m].element)
    }

    fn pop(&mut self) -> (r: Option<T>)
        ensures
            old(self).forest().len() > 0 ==> shapes(final(self).forest()) == merged_forest(
                shapes(old(self).forest()).remove(
                    least_root(old(self).forest(), old(self).forest().len()),
                ),
                shape(
                    old(self).forest()[least_root(old(self).forest(), old(self).forest().len())],
                ).children.reverse(),
            ),
            valid_forest(final(self).forest()),
            distinct_degrees(final(self).forest()),
            r is Some ==> sorted_by_degree(final(self).forest()),
    {
        if self.trees.is_empty() {
            return None;
        }
        proof {
            lemma_least_root_is_minimum(self.trees@);
        }
        let min_index = self.least_index();
        let ghost tree = self.trees@[min_index as int];
        let Node { element, children } = self.trees.remove(min_index);
        let children = reversed(children);
        let other = BinomialHeap { trees: children };
        proof {
            lemma_forest_remove(old(self).trees@, min_index as int);
            lemma_shapes(old(self).trees@);
            lemma_shapes(self.trees@);
            lemma_shapes(other.trees@);
            lemma_shapes(tree.children@);
            assert(shapes(self.trees@) =~= shapes(old(self).trees@).remove(min_index as int));
            assert(shapes(other.trees@) =~= shape(tree).children.reverse());
            // The children of a binomial tree are valid trees of the
            // degrees 0, 1, ..., each once.
            assert forall|i: int| 0 <= i < other.trees@.len() implies valid_tree(
                #[trigger] other.trees@[i],
            ) by {
                assert(other.trees@[i] == tree.children@[tree.children@.len() - 1 - i]);
            }
            assert forall|i: int, j: int| 0 <= i < j < other.trees@.len() implies degree(
                #[trigger] other.trees@[i],
            ) != degree(#[trigger] other.trees@[j]) by {
                assert(other.trees@[i] == tree.children@[tree.children@.len() - 1 - i]);
                assert(other.trees@[j] == tree.children@[tree.children@.len() - 1 - j]);
            }
            // The trees that stay are trees of the forest as it was.
            assert forall|i: int, j: int| 0 <= i < j < self.trees@.len() implies degree(
                #[trigger] self.trees@[i],
            ) != degree(#[trigger] self.trees@[j]) by {
                let a = if i < min_index { i } else { i + 1 };
                let b = if j < min_index { j } else { j + 1 };
                assert(self.trees@[i] == old(self).trees@[a]);
                assert(self.trees@[j] == old(self).trees@[b]);
            }
            assert forall|i: int| 0 <= i < self.trees@.len() implies valid_tree(
                #[trigger] self.trees@[i],
            ) by {
                let a = if i < min_index { i } else { i + 1 };
                assert(self.trees@[i] == old(self).trees@[a]);
            }
        }
        self.merge_heap(other);
        Some(element)
    }

    fn size(&self) -> (n: usize) {
        let mut n: usize = 0;
        let mut k: usize = 0;
        while k < self.trees.len()
            invariant
                k <= self.trees@.len(),
                self.well_formed(),
                n == forest_elements(self.trees@.take(k as int)).len(),
            decreases self.trees@.len() - k,
        {
            proof {
                let rest = self.trees@.subrange(k as int + 1, self.trees@.len() as int);
                assert(self.trees@.take(k as int + 1) =~= self.trees@.take(k as int).push(
                    self.trees@[k as int],
                ));
                assert(self.trees@ =~= self.trees@.take(k as int + 1) + rest);
                lemma_forest_push(self.trees@.take(k as int), self.trees@[k as int]);
                lemma_forest_concat(self.trees@.take(k as int + 1), rest);
                lemma_tree_size(self.trees@[k as int]);
            }
            n = n + power_of_two(self.trees[k].children.len());
            k += 1;
        }
        assert(self.trees@.take(k as int) =~= self.trees@);
        n
    }

    fn clear(&mut self)
        ensures
            final(self).forest() == Seq::<Node<T>>::empty(),
    {
        self.trees.clear();
    }
}

} // verus!
