//! A binary search tree that keeps each distinct value once.

use vstd::laws_cmp::{obeys_cmp, obeys_cmp_ord, obeys_cmp_partial_ord, obeys_partial_cmp_spec_properties};
use vstd::laws_eq::obeys_concrete_eq;
use vstd::std_specs::cmp::{OrdSpec, PartialEqSpec, PartialOrdSpec};
use vstd::prelude::*;
use core::cmp::Ordering;

verus! {

/// The order in which the tree keeps its values, as `<` computes it.
pub open spec fn lt<T: Ord>(a: T, b: T) -> bool {
    a.partial_cmp_spec(&b) == Some(Ordering::Less)
}

/// What the tree needs of `T`: `<`, `>` and `==` agree with one strict
/// total order.
pub open spec fn is_ordered<T: Ord>() -> bool {
    &&& obeys_cmp::<T>()
    &&& obeys_concrete_eq::<T>()
}

/// The strict total order laws that `is_ordered` gives.
pub proof fn lemma_order<T: Ord>()
    requires
        is_ordered::<T>(),
    ensures
        T::obeys_partial_cmp_spec(),
        forall|a: T, b: T, c: T| #[trigger] lt(a, b) && #[trigger] lt(b, c) ==> lt(a, c),
        forall|a: T, b: T| #[trigger] lt(a, b) ==> !lt(b, a) && a != b,
        forall|a: T, b: T|
            #[trigger] a.partial_cmp_spec(&b) == Some(Ordering::Greater) <==> lt(b, a),
        forall|a: T, b: T|
            !(#[trigger] a.partial_cmp_spec(&b) matches Some(Ordering::Greater)) && !lt(a, b)
                ==> a == b,
{
    reveal(obeys_partial_cmp_spec_properties);
    reveal(obeys_cmp_partial_ord);
    reveal(obeys_cmp_ord);
    reveal(obeys_concrete_eq);
    assert forall|a: T, b: T|
        !(#[trigger] a.partial_cmp_spec(&b) matches Some(Ordering::Greater)) && !lt(a, b)
            implies a == b by {
        assert(a.partial_cmp_spec(&b) == Some(a.cmp_spec(&b)));
    }
    assert forall|a: T, b: T| #[trigger] lt(a, b) implies !lt(b, a) && a != b by {
        assert(a.partial_cmp_spec(&b) == Some(a.cmp_spec(&b)));
        assert(b.partial_cmp_spec(&a) == Some(Ordering::Greater));
        if a == b {
            assert(a.eq_spec(&a));
        }
    }
}

/// Two strictly ascending sequences that hold the same values are the same
/// sequence: there is one ascending arrangement of a set of distinct values.
pub proof fn lemma_ascending_unique<T: Ord>(a: Seq<T>, b: Seq<T>)
    requires
        is_ordered::<T>(),
        strictly_ascending(a),
        strictly_ascending(b),
        a.to_set() == b.to_set(),
    ensures
        a == b,
    decreases a.len(),
{
    lemma_order::<T>();
    if a.len() == 0 {
        if b.len() > 0 {
            assert(b.to_set().contains(b[0]));
        }
    } else if b.len() == 0 {
        assert(a.to_set().contains(a[0]));
    } else {
        assert(a.to_set().contains(a[0]));
        assert(b.to_set().contains(b[0]));
        let i = choose|i: int| 0 <= i < a.len() && a[i] == b[0];
        let j = choose|j: int| 0 <= j < b.len() && b[j] == a[0];
        if j > 0 {
            assert(lt(b[0], b[j]));
            if i > 0 {
                assert(lt(a[0], a[i]));
            }
        }
        assert(a[0] == b[0]);
        let a1 = a.drop_first();
        let b1 = b.drop_first();
        assert forall|x: T| a1.to_set().contains(x) implies b1.to_set().contains(x) by {
            let k = choose|k: int| 0 <= k < a1.len() && a1[k] == x;
            assert(lt(a[0], a[k + 1]));
            assert(a.to_set().contains(x));
            let m = choose|m: int| 0 <= m < b.len() && b[m] == x;
            assert(m != 0);
            assert(b1[m - 1] == x);
        }
        assert forall|x: T| b1.to_set().contains(x) implies a1.to_set().contains(x) by {
            let k = choose|k: int| 0 <= k < b1.len() && b1[k] == x;
            assert(lt(b[0], b[k + 1]));
            assert(b.to_set().contains(x));
            let m = choose|m: int| 0 <= m < a.len() && a[m] == x;
            assert(m != 0);
            assert(a1[m - 1] == x);
        }
        assert(a1.to_set() =~= b1.to_set());
        lemma_ascending_unique(a1, b1);
        assert(a =~= seq![a[0]] + a1);
        assert(b =~= seq![b[0]] + b1);
    }
}

/// One value of the tree, with the subtrees of smaller and of greater values.
#[derive(Debug)]
pub struct Node<T> {
    pub(crate) value: T,
    pub(crate) left: Option<Box<Node<T>>>,
    pub(crate) right: Option<Box<Node<T>>>,
}

/// The values of a subtree, read from left to right.
pub closed spec fn in_order<T>(n: Option<Box<Node<T>>>) -> Seq<T>
    decreases n,
{
    match n {
        None => Seq::empty(),
        Some(b) => in_order(b.left) + seq![b.value] + in_order(b.right),
    }
}

/// The number of nodes of a subtree.
pub closed spec fn node_count<T>(n: Option<Box<Node<T>>>) -> nat
    decreases n,
{
    match n {
        None => 0,
        Some(b) => node_count(b.left) + 1 + node_count(b.right),
    }
}

/// The values of a subtree, as a set.
pub closed spec fn values<T>(n: Option<Box<Node<T>>>) -> Set<T> {
    in_order(n).to_set()
}

/// Every value on the left of a node is below it, every value on its
/// right above it, all the way down.
pub closed spec fn is_search_tree<T: Ord>(n: Option<Box<Node<T>>>) -> bool
    decreases n,
{
    match n {
        None => true,
        Some(b) => {
            &&& is_search_tree(b.left)
            &&& is_search_tree(b.right)
            &&& forall|x: T| #[trigger] values(b.left).contains(x) ==> lt(x, b.value)
            &&& forall|x: T| #[trigger] values(b.right).contains(x) ==> lt(b.value, x)
        }
    }
}

/// The subtree after adding `v`: the search for `v` walks down from the top,
/// right past smaller values and left past greater ones, and a new leaf
/// holding `v` fills the empty place where it ends. A subtree that already
/// holds `v` is left as it is.
pub closed spec fn insert_spec<T: Ord>(n: Option<Box<Node<T>>>, v: T) -> Option<Box<Node<T>>>
    decreases n,
{
    match n {
        None => Some(Box::new(Node { value: v, left: None, right: None })),
        Some(b) => if lt(b.value, v) {
            Some(Box::new(Node { value: b.value, left: b.left, right: insert_spec(b.right, v) }))
        } else if lt(v, b.value) {
            Some(Box::new(Node { value: b.value, left: insert_spec(b.left, v), right: b.right }))
        } else {
            n
        },
    }
}

/// The number of nodes on the longest path down from the top of a subtree.
pub closed spec fn height<T>(n: Option<Box<Node<T>>>) -> nat
    decreases n,
{
    match n {
        None => 0,
        Some(b) => 1 + if height(b.left) >= height(b.right) {
            height(b.left)
        } else {
            height(b.right)
        },
    }
}

/// Adding a value makes a subtree at most one level deeper.
pub proof fn lemma_insert_height<T: Ord>(n: Option<Box<Node<T>>>, v: T)
    ensures
        height(insert_spec(n, v)) <= height(n) + 1,
    decreases n,
{
    if let Some(b) = n {
        lemma_insert_height(b.left, v);
        lemma_insert_height(b.right, v);
    } else {
        assert(height::<T>(None) == 0);
    }
}

/// A sequence in which each value is below every later one.
pub open spec fn strictly_ascending<T: Ord>(s: Seq<T>) -> bool {
    forall|i: int, j: int| 0 <= i < j < s.len() ==> lt(#[trigger] s[i], #[trigger] s[j])
}

/// The values of a node are those of its left subtree, its own, and those
/// of its right subtree.
proof fn lemma_node_values<T>(b: Box<Node<T>>)
    ensures
        values(Some(b)) == values(b.left).union(set![b.value]).union(values(b.right)),
{
    let l = in_order(b.left);
    let r = in_order(b.right);
    let s = in_order(Some(b));
    assert(s == l + seq![b.value] + r);
    assert forall|x: T| s.contains(x) <==> l.contains(x) || x == b.value || r.contains(x) by {
        if s.contains(x) {
            let i = choose|i: int| 0 <= i < s.len() && s[i] == x;
            if i < l.len() {
                assert(l[i] == x);
            } else if i > l.len() {
                assert(r[i - l.len() - 1] == x);
            }
        }
        if l.contains(x) {
            let i = choose|i: int| 0 <= i < l.len() && l[i] == x;
            assert(s[i] == x);
        }
        if x == b.value {
            assert(s[l.len() as int] == x);
        }
        if r.contains(x) {
            let i = choose|i: int| 0 <= i < r.len() && r[i] == x;
            assert(s[l.len() + 1 + i] == x);
        }
    }
    assert(values(Some(b)) =~= values(b.left).union(set![b.value]).union(values(b.right)));
}

/// A search tree read from left to right is strictly ascending.
pub proof fn lemma_in_order_ascending<T: Ord>(n: Option<Box<Node<T>>>)
    requires
        is_ordered::<T>(),
        is_search_tree(n),
    ensures
        strictly_ascending(in_order(n)),
    decreases n,
{
    lemma_order::<T>();
    if let Some(b) = n {
        lemma_in_order_ascending(b.left);
        lemma_in_order_ascending(b.right);
        let l = in_order(b.left);
        let r = in_order(b.right);
        let s = in_order(n);
        assert(s == l + seq![b.value] + r);
        assert forall|i: int, j: int| 0 <= i < j < s.len() implies lt(#[trigger] s[i], #[trigger] s[j]) by {
            let k = l.len() as int;
            if i < k {
                assert(values(b.left).contains(l[i]));
            }
            if j > k {
                assert(values(b.right).contains(r[j - k - 1]));
            }
            if i > k {
                assert(values(b.right).contains(r[i - k - 1]));
            }
            if j < k {
                assert(values(b.left).contains(l[j]));
            }
        }
    }
}

impl<T> Node<T> {
    /// A leaf holding `value`.
    fn new(value: T) -> (r: Node<T>)
        ensures
            r.value == value,
            r.left.is_none(),
            r.right.is_none(),
    {
        Node { value: value, left: None, right: None }
    }
}

/// An ordered tree of distinct values.
#[derive(Debug)]
pub struct Tree<T> {
    root: Option<Box<Node<T>>>,
}

impl<T> Tree<T> {
    /// The values of the tree read from left to right; from least to
    /// greatest in a well-formed tree.
    pub closed spec fn in_order(&self) -> Seq<T> {
        in_order(self.root)
    }

    /// The set of values in the tree.
    pub closed spec fn contents(&self) -> Set<T> {
        values(self.root)
    }

    /// The top node of the tree, if any.
    pub closed spec fn root(&self) -> Option<Box<Node<T>>> {
        self.root
    }

    /// The number of nodes in the tree.
    pub closed spec fn size(&self) -> nat {
        node_count(self.root)
    }

    /// The number of nodes on the longest path down from the root.
    pub closed spec fn height(&self) -> nat {
        height(self.root)
    }

    /// The values are kept in search-tree order.
    pub closed spec fn wf(&self) -> bool where T: Ord {
        is_search_tree(self.root)
    }
}

impl<T: Ord> Tree<T> {
    /// An empty tree.
    pub fn new() -> (r: Tree<T>)
        ensures
            r.wf(),
            r.contents() == Set::<T>::empty(),
            r.in_order() == Seq::<T>::empty(),
    {
        let r = Tree { root: None };
        proof {
            assert(values::<T>(None) =~= Set::<T>::empty());
        }
        r
    }

    /// Adds `value` where the order puts it; a value already in the tree
    /// leaves it unchanged.
    pub fn insert(&mut self, value: T)
        requires
            is_ordered::<T>(),
            old(self).wf(),
        ensures
            final(self).wf(),
            final(self).contents() == old(self).contents().insert(value),
            final(self).root() == insert_spec(old(self).root(), value),
            final(self).height() <= old(self).height() + 1,
            old(self).contents().contains(value) ==> *final(self) == *old(self),
    {
        proof {
            lemma_insert_height(self.root, value);
        }
        match self.root {
            None => {
                self.root = Some(Box::new(Node::new(value)));
                proof {
                    lemma_leaf(value);
                    assert(values::<T>(None) =~= Set::<T>::empty());
                    assert(self.contents() =~= old(self).contents().insert(value));
                }
            },
            Some(ref mut node) => {
                Tree::<T>::insert_recursive(node, value);
            },
        }
    }

    /// Adds `value` below `node`, walking down to the leaf where it belongs.
    fn insert_recursive(node: &mut Node<T>, value: T)
        requires
            is_ordered::<T>(),
            is_search_tree(Some(Box::new(*old(node)))),
        ensures
            is_search_tree(Some(Box::new(*final(node)))),
            values(Some(Box::new(*final(node)))) == values(Some(Box::new(*old(node)))).insert(value),
            values(Some(Box::new(*old(node)))).contains(value) ==> *final(node) == *old(node),
            Some(Box::new(*final(node))) == insert_spec(Some(Box::new(*old(node))), value),
        decreases node_count(Some(Box::new(*old(node)))),
    {
        let ghost before = *node;
        proof {
            lemma_order::<T>();
            lemma_node_values(Box::new(before));
        }
        if value > node.value {
            match node.right {
                None => {
                    node.right = Some(Box::new(Node::new(value)));
                    proof {
                        lemma_leaf(value);
                        assert(insert_spec::<T>(None, value) == node.right);
                    }
                },
                Some(ref mut n) => {
                    Tree::<T>::insert_recursive(n, value);
                },
            }
            proof {
                lemma_node_values(Box::new(*node));
                assert(!values(before.left).contains(value));
                assert(values(before.right).insert(value).contains(value));
                assert(lt(before.value, value));
                assert(node.right == insert_spec(before.right, value));
                assert(insert_spec(Some(Box::new(before)), value) == Some(Box::new(Node {
                    value: before.value,
                    left: before.left,
                    right: insert_spec(before.right, value),
                })));
                assert(values(Some(Box::new(*node))) =~= values(Some(Box::new(before))).insert(value));
            }
        } else if value < node.value {
            match node.left {
                None => {
                    node.left = Some(Box::new(Node::new(value)));
                    proof {
                        lemma_leaf(value);
                        assert(insert_spec::<T>(None, value) == node.left);
                    }
                },
                Some(ref mut n) => {
                    Tree::<T>::insert_recursive(n, value);
                },
            }
            proof {
                lemma_node_values(Box::new(*node));
                assert(!values(before.right).contains(value));
                assert(lt(value, before.value) && !lt(before.value, value));
                assert(node.left == insert_spec(before.left, value));
                assert(insert_spec(Some(Box::new(before)), value) == Some(Box::new(Node {
                    value: before.value,
                    left: insert_spec(before.left, value),
                    right: before.right,
                })));
                assert(values(Some(Box::new(*node))) =~= values(Some(Box::new(before))).insert(value));
            }
        } else {
            proof {
                assert(value == node.value);
                assert(!lt(value, before.value) && !lt(before.value, value));
                assert(insert_spec(Some(Box::new(before)), value) == Some(Box::new(before)));
                assert(values(Some(Box::new(before))).insert(value) =~= values(Some(Box::new(before))));
            }
        }
    }
}

/// A leaf holds its one value and is a search tree.
proof fn lemma_leaf<T: Ord>(v: T)
    ensures
        values(Some(Box::new(Node { value: v, left: None, right: None }))) == set![v],
        is_search_tree(Some(Box::new(Node { value: v, left: None, right: None }))),
{
    let b = Box::new(Node { value: v, left: None, right: None });
    lemma_node_values(b);
    assert(values(b.left) =~= Set::<T>::empty());
    assert(values(b.right) =~= Set::<T>::empty());
    assert(values(Some(b)) =~= set![v]);
    assert(is_search_tree::<T>(None));
}

/// How far the walk has come at one node.
#[derive(Clone, Copy, Debug)]
pub enum NodeStatus {
    /// Not visited yet: its left subtree comes first.
    Enter,
    /// Its left subtree is done: its own value comes next.
    LeftDone,
    /// Its value was produced: its right subtree comes next.
    ValueEmitted,
    /// Its right subtree is done too.
    Done,
}

/// What one frame of the walk has still to produce.
pub closed spec fn frame_rest<T>(f: (NodeStatus, &Node<T>)) -> Seq<T> {
    let n = *f.1;
    match f.0 {
        NodeStatus::Enter => in_order(Some(Box::new(n))),
        NodeStatus::LeftDone => seq![n.value] + in_order(n.right),
        NodeStatus::ValueEmitted => in_order(n.right),
        NodeStatus::Done => Seq::empty(),
    }
}

/// What a stack of frames has still to produce, the top frame first.
pub closed spec fn stack_rest<T>(s: Seq<(NodeStatus, &Node<T>)>) -> Seq<T>
    decreases s.len(),
{
    if s.len() == 0 {
        Seq::empty()
    } else {
        frame_rest(s.last()) + stack_rest(s.drop_last())
    }
}

/// Steps of the walk left in one frame.
closed spec fn frame_work<T>(f: (NodeStatus, &Node<T>)) -> nat {
    let n = *f.1;
    match f.0 {
        NodeStatus::Enter => 4 * node_count(Some(Box::new(n))),
        NodeStatus::LeftDone => 3 + 4 * node_count(n.right),
        NodeStatus::ValueEmitted => 2 + 4 * node_count(n.right),
        NodeStatus::Done => 1,
    }
}

/// Steps of the walk left in a stack of frames.
closed spec fn stack_work<T>(s: Seq<(NodeStatus, &Node<T>)>) -> nat
    decreases s.len(),
{
    if s.len() == 0 {
        0
    } else {
        frame_work(s.last()) + stack_work(s.drop_last())
    }
}

impl<T> Default for Tree<T> {
    /// An empty tree.
    fn default() -> (r: Tree<T>)
        ensures
            r.root() == None::<Box<Node<T>>>,
            r.in_order() == Seq::<T>::empty(),
            r.contents() == Set::<T>::empty(),
    {
        let r = Tree { root: None };
        proof {
            assert(values::<T>(None) =~= Set::<T>::empty());
        }
        r
    }
}

/// The frame `above` stands for a child of the node of frame `below`: its
/// left child while `below` waits on its left subtree, its right child while
/// it waits on its right one.
pub closed spec fn links<T>(below: (NodeStatus, &Node<T>), above: (NodeStatus, &Node<T>)) -> bool {
    ||| below.0 == NodeStatus::LeftDone && below.1.left == Some(Box::new(*above.1))
    ||| below.0 == NodeStatus::Done && below.1.right == Some(Box::new(*above.1))
}

/// The frames, from the bottom up, follow one path down from `top`.
pub closed spec fn is_chain<T>(top: Option<Box<Node<T>>>, s: Seq<(NodeStatus, &Node<T>)>) -> bool {
    &&& s.len() > 0 ==> top == Some(Box::new(*s[0].1))
    &&& forall|i: int| 0 <= i < s.len() - 1 ==> links(#[trigger] s[i], s[i + 1])
}

/// A chain down from `top` is no longer than the subtree is high.
proof fn lemma_chain_height<T>(top: Option<Box<Node<T>>>, s: Seq<(NodeStatus, &Node<T>)>)
    requires
        is_chain(top, s),
    ensures
        s.len() <= height(top),
    decreases s.len(),
{
    if s.len() > 0 {
        let b = top.unwrap();
        if s.len() > 1 {
            let t = s.drop_first();
            assert(links(s[0], s[1]));
            let child = if s[0].0 == NodeStatus::LeftDone {
                b.left
            } else {
                b.right
            };
            assert forall|i: int| 0 <= i < t.len() - 1 implies links(#[trigger] t[i], t[i + 1]) by {
                assert(links(s[i + 1], s[i + 2]));
            }
            lemma_chain_height(child, t);
        }
    }
}

/// Pushing a frame puts what it has to produce, and its steps, before
/// those of the frames below it.
proof fn lemma_stack_push<T>(s: Seq<(NodeStatus, &Node<T>)>, f: (NodeStatus, &Node<T>))
    ensures
        stack_rest(s.push(f)) == frame_rest(f) + stack_rest(s),
        stack_work(s.push(f)) == frame_work(f) + stack_work(s),
{
    assert(s.push(f).drop_last() =~= s);
    assert(stack_rest::<T>(Seq::empty()) == Seq::<T>::empty());
}

/// Walks a tree in order, one value per call, keeping its place on a stack
/// of frames instead of the call stack.
pub struct TreeIter<'a, T> {
    stack: Vec<(NodeStatus, &'a Node<T>)>,
    root: Ghost<Option<Box<Node<T>>>>,
}

impl<'a, T> TreeIter<'a, T> {
    /// The values still to come, in the order they will come.
    pub closed spec fn rest(&self) -> Seq<T> {
        stack_rest(self.stack@)
    }

    /// The top of the tree being walked.
    pub closed spec fn tree_root(&self) -> Option<Box<Node<T>>> {
        self.root@
    }

    /// How many frames the walk has still to pop: each node passes once
    /// through each of the four phases.
    pub closed spec fn work(&self) -> nat {
        stack_work(self.stack@)
    }

    /// The frames, from the bottom up, lie on one path down from the root,
    /// so there are no more of them than the tree is high; between calls
    /// the top frame has its left subtree or its value still to give.
    pub closed spec fn wf(&self) -> bool {
        &&& is_chain(self.root@, self.stack@)
        &&& self.stack@.len() <= height(self.root@)
        &&& self.stack@.len() > 0 ==> (self.stack@.last().0 == NodeStatus::Enter
            || self.stack@.last().0 == NodeStatus::ValueEmitted)
    }

    /// A walk of `tree` from its least value.
    pub fn new(tree: &'a Tree<T>) -> (r: TreeIter<'a, T>)
        ensures
            r.wf(),
            r.tree_root() == tree.root(),
            r.rest() == tree.in_order(),
            r.work() == 4 * tree.size(),
    {
        match tree.root {
            None => {
                let r = TreeIter { stack: Vec::new(), root: Ghost(tree.root) };
                proof {
                    assert(stack_work(r.stack@) == 0);
                    assert(node_count::<T>(None) == 0);
                }
                r
            },
            Some(ref node) => {
                let r = TreeIter { stack: vec![(NodeStatus::Enter, &**node)], root: Ghost(tree.root) };
                proof {
                    lemma_chain_height(tree.root, r.stack@);
                    lemma_stack_push(Seq::empty(), (NodeStatus::Enter, &**node));
                    assert(r.stack@ =~= Seq::empty().push((NodeStatus::Enter, &**node)));
                    assert(r.rest() =~= tree.in_order());
                }
                r
            },
        }
    }

    /// The next value in order, or `None` once the walk is over, and on
    /// every call after that.
    pub fn next_item(&mut self) -> (r: Option<&'a T>)
        requires
            old(self).wf(),
        ensures
            final(self).wf(),
            final(self).tree_root() == old(self).tree_root(),
            old(self).rest().len() == 0 ==> r.is_none() && final(self).rest().len() == 0,
            old(self).rest().len() > 0 ==> r == Some(&old(self).rest()[0])
                && final(self).rest() == old(self).rest().drop_first(),
            r.is_none() ==> final(self).work() == 0,
            r.is_some() ==> final(self).work() < old(self).work(),
    {
        loop
            invariant
                self.rest() == old(self).rest(),
                self.root == old(self).root,
                is_chain(self.root@, self.stack@),
                self.work() <= old(self).work(),
            decreases stack_work(self.stack@),
        {
            let ghost s0 = self.stack@;
            match self.stack.pop() {
                None => {
                    proof {
                        lemma_chain_height(self.root@, self.stack@);
                    }
                    return None;
                },
                Some((status, node)) => {
                    let ghost below = self.stack@;
                    proof {
                        assert(s0 =~= below.push((status, node)));
                        lemma_stack_push(below, (status, node));
                    }
                    match status {
                        NodeStatus::Enter => {
                            match node.left {
                                None => {
                                    self.stack.push((NodeStatus::LeftDone, node));
                                    proof {
                                        lemma_stack_push(below, (NodeStatus::LeftDone, node));
                                        assert(in_order::<T>(None) =~= Seq::empty());
                                        assert(frame_rest((status, node)) =~= frame_rest(
                                            (NodeStatus::LeftDone, node),
                                        ));
                                    }
                                },
                                Some(ref left) => {
                                    self.stack.push((NodeStatus::LeftDone, node));
                                    let ghost mid = self.stack@;
                                    self.stack.push((NodeStatus::Enter, &**left));
                                    proof {
                                        lemma_stack_push(below, (NodeStatus::LeftDone, node));
                                        lemma_stack_push(mid, (NodeStatus::Enter, &**left));
                                        assert(frame_rest((status, node)) =~= frame_rest(
                                            (NodeStatus::Enter, &**left),
                                        ) + frame_rest((NodeStatus::LeftDone, node)));
                                        assert(self.rest() =~= old(self).rest());
                                    }
                                },
                            }
                        },
                        NodeStatus::LeftDone => {
                            self.stack.push((NodeStatus::ValueEmitted, node));
                            proof {
                                lemma_stack_push(below, (NodeStatus::ValueEmitted, node));
                                assert(self.rest() =~= old(self).rest().drop_first());
                                assert(self.stack@.drop_last() == below);
                                lemma_chain_height(self.root@, self.stack@);
                            }
                            return Some(&node.value);
                        },
                        NodeStatus::ValueEmitted => {
                            match node.right {
                                None => {
                                    self.stack.push((NodeStatus::Done, node));
                                    proof {
                                        lemma_stack_push(below, (NodeStatus::Done, node));
                                        assert(in_order::<T>(None) =~= Seq::empty());
                                        assert(self.rest() =~= old(self).rest());
                                    }
                                },
                                Some(ref right) => {
                                    self.stack.push((NodeStatus::Done, node));
                                    let ghost mid = self.stack@;
                                    self.stack.push((NodeStatus::Enter, &**right));
                                    proof {
                                        lemma_stack_push(below, (NodeStatus::Done, node));
                                        lemma_stack_push(mid, (NodeStatus::Enter, &**right));
                                        assert(self.rest() =~= old(self).rest());
                                    }
                                },
                            }
                        },
                        NodeStatus::Done => {},
                    }
                },
            }
        }
    }

    /// The same as `next_item`.
    pub fn next(&mut self) -> (r: Option<&'a T>)
        requires
            old(self).wf(),
        ensures
            final(self).wf(),
            final(self).tree_root() == old(self).tree_root(),
            old(self).rest().len() == 0 ==> r.is_none() && final(self).rest().len() == 0,
            old(self).rest().len() > 0 ==> r == Some(&old(self).rest()[0])
                && final(self).rest() == old(self).rest().drop_first(),
            r.is_none() ==> final(self).work() == 0,
            r.is_some() ==> final(self).work() < old(self).work(),
    {
        self.next_item()
    }
}

impl<T> Tree<T> {
    /// A walk of the tree's values from least to greatest.
    pub fn iter(&self) -> (r: TreeIter<'_, T>)
        ensures
            r.wf(),
            r.tree_root() == self.root(),
            r.rest() == self.in_order(),
            r.work() == 4 * self.size(),
    {
        TreeIter::new(self)
    }
}

/// Walking a tree gives the values inserted into it, each once, in
/// ascending order: the in-order sequence is strictly ascending, holds
/// exactly the inserted values, and is the one sequence that does both.
pub proof fn lemma_walk_is_sorted_distinct<T: Ord>(tree: &Tree<T>, inserted: Seq<T>)
    requires
        is_ordered::<T>(),
        tree.wf(),
        tree.contents() == inserted.to_set(),
    ensures
        strictly_ascending(tree.in_order()),
        tree.in_order().to_set() == inserted.to_set(),
        forall|s: Seq<T>|
            strictly_ascending(s) && #[trigger] s.to_set() == inserted.to_set() ==> s
                == tree.in_order(),
{
    lemma_in_order_ascending(tree.root);
    assert forall|s: Seq<T>|
        strictly_ascending(s) && #[trigger] s.to_set() == inserted.to_set() implies s
            == tree.in_order() by {
        lemma_ascending_unique(s, tree.in_order());
    }
}

/// The number of nodes of a subtree is the length of its in-order sequence.
proof fn lemma_count_is_length<T>(n: Option<Box<Node<T>>>)
    ensures
        node_count(n) == in_order(n).len(),
    decreases n,
{
    if let Some(b) = n {
        lemma_count_is_length(b.left);
        lemma_count_is_length(b.right);
    }
}

/// A tree has as many nodes as its walk gives values, so a full walk pops
/// four frames for each value it gives.
pub proof fn lemma_size_is_walk_length<T>(tree: &Tree<T>)
    ensures
        tree.size() == tree.in_order().len(),
{
    lemma_count_is_length(tree.root);
}

} // verus!
