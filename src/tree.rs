use crate::order::TotalOrder;
use std::cmp::Ordering;
use vstd::arithmetic::power2::{
    lemma2_to64, lemma_pow2_strictly_increases, lemma_pow2_unfold, pow2,
};
use vstd::prelude::*;

verus! {

/// An owned, possibly absent subtree.
pub type Link<T> = Option<Box<Node<T>>>;

/// One node of the tree: a value, its two subtrees, and the height of the
/// subtree rooted here (1 for a leaf).
#[derive(Debug, PartialEq)]
pub struct Node<T> {
    pub value: T,
    pub left: Link<T>,
    pub right: Link<T>,
    pub height: usize,
}

/// An AVL tree: an optional root node that owns the whole tree.
#[derive(Debug, PartialEq)]
pub struct AVLTree<T> {
    pub root: Link<T>,
}

// ---------------------------------------------------------------------------
// The model

/// The height recorded at the top of a subtree; 0 for an absent one.
pub open spec fn height<T>(t: Link<T>) -> nat {
    match t {
        Some(n) => n.height as nat,
        None => 0,
    }
}

pub open spec fn max_nat(a: nat, b: nat) -> nat {
    if a >= b {
        a
    } else {
        b
    }
}

/// The values held in a subtree.
pub open spec fn contents<T>(t: Link<T>) -> Set<T>
    decreases t,
{
    match t {
        Some(n) => contents(n.left).union(contents(n.right)).insert(n.value),
        None => Set::empty(),
    }
}

/// The values of a subtree in in-order: left subtree, the node, right subtree.
pub open spec fn inorder<T>(t: Link<T>) -> Seq<T>
    decreases t,
{
    match t {
        Some(n) => inorder(n.left) + seq![n.value] + inorder(n.right),
        None => Seq::empty(),
    }
}

/// The number of nodes in a subtree.
pub open spec fn size<T>(t: Link<T>) -> nat
    decreases t,
{
    match t {
        Some(n) => size(n.left) + size(n.right) + 1,
        None => 0,
    }
}

/// The number of nodes without children in a subtree.
pub open spec fn leaf_count<T>(t: Link<T>) -> nat
    decreases t,
{
    match t {
        Some(n) => if n.left is None && n.right is None {
            1
        } else {
            leaf_count(n.left) + leaf_count(n.right)
        },
        None => 0,
    }
}

/// Height of the left subtree minus height of the right one.
pub open spec fn balance_factor<T>(n: Node<T>) -> int {
    height(n.left) - height(n.right)
}

/// The node's recorded height is one more than the taller child's.
pub open spec fn height_ok<T>(n: Node<T>) -> bool {
    n.height as nat == 1 + max_nat(height(n.left), height(n.right))
}

/// The node's balance factor lies in [-1, 1].
pub open spec fn balanced<T>(n: Node<T>) -> bool {
    -1 <= balance_factor(n) <= 1
}

/// Every value on the left is below the node's value, every value on the right above.
pub open spec fn ordered<T: TotalOrder>(n: Node<T>) -> bool {
    &&& forall|x: T| #[trigger] contents(n.left).contains(x) ==> x.lt(n.value)
    &&& forall|x: T| #[trigger] contents(n.right).contains(x) ==> n.value.lt(x)
}

/// Every node of the subtree has a correct height, is balanced and is ordered.
pub open spec fn is_avl<T: TotalOrder>(t: Link<T>) -> bool
    decreases t,
{
    match t {
        Some(n) => {
            &&& is_avl(n.left)
            &&& is_avl(n.right)
            &&& height_ok(*n)
            &&& balanced(*n)
            &&& ordered(*n)
        },
        None => true,
    }
}

/// A sequence in strictly ascending order (hence without repeats).
pub open spec fn strictly_ascending<T: TotalOrder>(s: Seq<T>) -> bool {
    forall|i: int, j: int| 0 <= i < j < s.len() ==> #[trigger] s[i].lt(s[j])
}

impl<T> View for AVLTree<T> {
    type V = Set<T>;

    open spec fn view(&self) -> Set<T> {
        contents(self.root)
    }
}

impl<T: TotalOrder> AVLTree<T> {
    /// The tree satisfies the AVL invariants at every node.
    pub open spec fn wf(&self) -> bool {
        is_avl(self.root)
    }
}

// ---------------------------------------------------------------------------
// The shape each operation produces

/// `n` with its height recomputed from its children.
pub open spec fn fix_height<T>(n: Node<T>) -> Node<T> {
    Node {
        value: n.value,
        left: n.left,
        right: n.right,
        height: (1 + max_nat(height(n.left), height(n.right))) as usize,
    }
}

/// Left rotation at `x`: its right child `y` goes on top, `x` becomes `y`'s
/// left child and takes `y`'s left subtree as its right one.
pub open spec fn rotate_left_spec<T>(x: Node<T>) -> Node<T> {
    let y = *x.right->Some_0;
    let x2 = fix_height(Node { value: x.value, left: x.left, right: y.left, height: x.height });
    fix_height(Node { value: y.value, left: Some(Box::new(x2)), right: y.right, height: y.height })
}

/// Right rotation at `x`, the mirror of `rotate_left_spec`.
pub open spec fn rotate_right_spec<T>(x: Node<T>) -> Node<T> {
    let y = *x.left->Some_0;
    let x2 = fix_height(Node { value: x.value, left: y.right, right: x.right, height: x.height });
    fix_height(Node { value: y.value, left: y.left, right: Some(Box::new(x2)), height: y.height })
}

/// A left-heavy node: a single right rotation when the left child's left
/// subtree is at least as tall as its right one, else a left rotation of the
/// left child followed by a right rotation of the node.
pub open spec fn rebalance_left_spec<T>(n: Node<T>) -> Node<T> {
    let l = *n.left->Some_0;
    if height(l.left) >= height(l.right) {
        rotate_right_spec(n)
    } else {
        rotate_right_spec(
            Node {
                value: n.value,
                left: Some(Box::new(rotate_left_spec(l))),
                right: n.right,
                height: n.height,
            },
        )
    }
}

/// A right-heavy node: the mirror of `rebalance_left_spec`.
pub open spec fn rebalance_right_spec<T>(n: Node<T>) -> Node<T> {
    let r = *n.right->Some_0;
    if height(r.right) >= height(r.left) {
        rotate_left_spec(n)
    } else {
        rotate_left_spec(
            Node {
                value: n.value,
                left: n.left,
                right: Some(Box::new(rotate_right_spec(r))),
                height: n.height,
            },
        )
    }
}

/// A node whose balance factor is outside [-1, 1] is rotated on its taller
/// side; any other node stays as it is.
pub open spec fn rebalance_spec<T>(n: Node<T>) -> Node<T> {
    if height(n.left) > height(n.right) + 1 {
        rebalance_left_spec(n)
    } else if height(n.right) > height(n.left) + 1 {
        rebalance_right_spec(n)
    } else {
        n
    }
}

/// `n` with new children, its height recomputed, then rebalanced.
pub open spec fn rebuild<T>(n: Node<T>, value: T, left: Link<T>, right: Link<T>) -> Node<T> {
    rebalance_spec(fix_height(Node { value: value, left: left, right: right, height: n.height }))
}

/// The subtree that inserting `v` into `t` produces: descend by the order,
/// overwrite an equal value, add a leaf at the bottom, and recompute and
/// rebalance every node on the way back up.
pub open spec fn insert_spec<T: TotalOrder>(t: Link<T>, v: T) -> Node<T>
    decreases t,
{
    match t {
        Some(n) => if v.lt(n.value) {
            rebuild(*n, n.value, Some(Box::new(insert_spec(n.left, v))), n.right)
        } else if n.value.lt(v) {
            rebuild(*n, n.value, n.left, Some(Box::new(insert_spec(n.right, v))))
        } else {
            rebuild(*n, v, n.left, n.right)
        },
        None => Node { value: v, left: None, right: None, height: 1 },
    }
}

/// What removing the least value of the subtree `n` leaves, and that value.
pub open spec fn remove_min_spec<T>(n: Node<T>) -> (Link<T>, T)
    decreases n,
{
    match n.left {
        Some(l) => {
            let (rest, least) = remove_min_spec(*l);
            (Some(Box::new(rebuild(n, n.value, rest, n.right))), least)
        },
        None => (n.right, n.value),
    }
}

/// What removing the node `n` itself leaves: with two children, the in-order
/// successor (the least value on the right) takes its place and is removed
/// from the right subtree; otherwise its only child, or nothing.
pub open spec fn delete_node_spec<T>(n: Node<T>) -> Link<T> {
    if n.left is Some && n.right is Some {
        let (rest, successor) = remove_min_spec(*n.right->Some_0);
        Some(Box::new(rebuild(n, successor, n.left, rest)))
    } else if n.left is Some {
        n.left
    } else {
        n.right
    }
}

/// The subtree that deleting `v` from `t` produces: descend by the order,
/// remove the node that holds `v`, and recompute and rebalance every node on
/// the way back up.
pub open spec fn delete_spec<T: TotalOrder>(t: Link<T>, v: T) -> Link<T>
    decreases t,
{
    match t {
        Some(n) => if v.lt(n.value) {
            Some(Box::new(rebuild(*n, n.value, delete_spec(n.left, v), n.right)))
        } else if n.value.lt(v) {
            Some(Box::new(rebuild(*n, n.value, n.left, delete_spec(n.right, v))))
        } else {
            delete_node_spec(*n)
        },
        None => None,
    }
}

// ---------------------------------------------------------------------------
// Construction and small helpers

impl<T: TotalOrder> Node<T> {
    /// A leaf holding `value`.
    pub fn new(value: T) -> (n: Node<T>)
        ensures
            n.value == value,
            n.left is None,
            n.right is None,
            n.height == 1,
    {
        Node { value: value, left: None, right: None, height: 1 }
    }
}

impl<T: TotalOrder> AVLTree<T> {
    /// An empty tree.
    pub fn new() -> (t: AVLTree<T>)
        ensures
            t.root is None,
            t.wf(),
            t@ == Set::<T>::empty(),
    {
        AVLTree { root: None }
    }

    /// The height recorded at the top of `root`, 0 when it is absent.
    pub fn get_height(&self, root: &Link<T>) -> (h: usize)
        ensures
            h as nat == height(*root),
    {
        Self::link_height(root)
    }

    fn link_height(root: &Link<T>) -> (h: usize)
        ensures
            h as nat == height(*root),
    {
        match root {
            Some(n) => n.height,
            None => 0,
        }
    }

    /// Recomputes the height of `root` from its children.
    fn update_height(root: &mut Node<T>)
        requires
            height(old(root).left) < usize::MAX,
            height(old(root).right) < usize::MAX,
        ensures
            *final(root) == fix_height(*old(root)),
            height_ok(*final(root)),
    {
        let hl = Self::link_height(&root.left);
        let hr = Self::link_height(&root.right);
        root.height = if hl >= hr {
            hl + 1
        } else {
            hr + 1
        };
    }

    /// A new leaf holding `value`, as a subtree.
    fn new_node(value: T) -> (r: Box<Node<T>>)
        ensures
            r.value == value,
            r.left is None,
            r.right is None,
            r.height == 1,
    {
        Box::new(Node::new(value))
    }

    /// The height of the whole tree, 0 when it is empty.
    pub fn tree_height(&self) -> (h: usize)
        ensures
            h as nat == height(self.root),
    {
        Self::link_height(&self.root)
    }

    /// Whether the tree holds no node.
    pub fn empty(&self) -> (b: bool)
        ensures
            b == (self.root is None),
            b == (self@ == Set::<T>::empty()),
    {
        proof {
            if self.root is Some {
                assert(self@.contains(self.root->Some_0.value));
            }
        }
        self.root.is_none()
    }
}

// ---------------------------------------------------------------------------
// Copies

impl<T: TotalOrder> Clone for Node<T> {
    /// A deep copy of the subtree rooted at this node.
    fn clone(&self) -> (r: Self)
        ensures
            r == *self,
        decreases self,
    {
        let left = match &self.left {
            Some(n) => Some(Box::new((&**n).clone())),
            None => None,
        };
        let right = match &self.right {
            Some(n) => Some(Box::new((&**n).clone())),
            None => None,
        };
        Node { value: self.value, left: left, right: right, height: self.height }
    }
}

impl<T: TotalOrder> Clone for AVLTree<T> {
    /// A deep copy of the whole tree.
    fn clone(&self) -> (r: Self)
        ensures
            r == *self,
    {
        let root = match &self.root {
            Some(n) => Some(Box::new((&**n).clone())),
            None => None,
        };
        AVLTree { root: root }
    }
}

// ---------------------------------------------------------------------------
// Rotations

impl<T: TotalOrder> AVLTree<T> {
    /// Left rotation at `root`, whose right child `y` becomes the new top:
    /// `root` becomes `y`'s left child and takes `y`'s old left subtree as its
    /// right one. Heights are recomputed bottom-up.
    fn left_rotation(root: Box<Node<T>>) -> (r: Box<Node<T>>)
        requires
            root.right is Some,
            1 + max_nat(height(root.left), height(root.right->Some_0.left)) < usize::MAX,
            height(root.right->Some_0.right) < usize::MAX,
        ensures
            *r == rotate_left_spec(*root),
            contents(Some(r)) == contents(Some(root)),
            ordered(*root) && ordered(*root.right->Some_0) ==> ordered(*r.left->Some_0) && ordered(
                *r,
            ),
    {
        let ghost x0 = *root;
        let ghost y0 = *root.right->Some_0;
        let mut root = root;
        let mut y = root.right.take().unwrap();
        root.right = y.left.take();
        Self::update_height(&mut root);
        y.left = Some(root);
        Self::update_height(&mut y);
        proof {
            let x1 = *y.left->Some_0;
            assert(contents(y.left) == contents(x1.left).union(contents(x1.right)).insert(
                x1.value,
            ));
            assert(contents(x0.right) == contents(y0.left).union(contents(y0.right)).insert(
                y0.value,
            ));
            assert(contents(Some(y)) =~= contents(Some(Box::new(x0))));
            if ordered(x0) && ordered(y0) {
                assert(contents(y0.left).subset_of(contents(x0.right)));
                assert(x0.value.lt(y0.value)) by {
                    assert(contents(x0.right).contains(y0.value));
                }
                assert forall|v: T| #[trigger] contents(x1.left).contains(v) implies v.lt(
                    y0.value,
                ) by {
                    T::lemma_transitive(v, x0.value, y0.value);
                }
                assert(ordered(x1));
                assert(ordered(*y));
            }
        }
        y
    }

    /// Right rotation at `root`, the mirror of `left_rotation`: the left child
    /// `y` becomes the new top, `root` its right child, and `y`'s old right
    /// subtree becomes `root`'s left one.
    fn right_rotation(root: Box<Node<T>>) -> (r: Box<Node<T>>)
        requires
            root.left is Some,
            1 + max_nat(height(root.left->Some_0.right), height(root.right)) < usize::MAX,
            height(root.left->Some_0.left) < usize::MAX,
        ensures
            *r == rotate_right_spec(*root),
            contents(Some(r)) == contents(Some(root)),
            ordered(*root) && ordered(*root.left->Some_0) ==> ordered(*r.right->Some_0) && ordered(
                *r,
            ),
    {
        let ghost x0 = *root;
        let ghost y0 = *root.left->Some_0;
        let mut root = root;
        let mut y = root.left.take().unwrap();
        root.left = y.right.take();
        Self::update_height(&mut root);
        y.right = Some(root);
        Self::update_height(&mut y);
        proof {
            let x1 = *y.right->Some_0;
            assert(contents(y.right) == contents(x1.left).union(contents(x1.right)).insert(
                x1.value,
            ));
            assert(contents(x0.left) == contents(y0.left).union(contents(y0.right)).insert(
                y0.value,
            ));
            assert(contents(Some(y)) =~= contents(Some(Box::new(x0))));
            if ordered(x0) && ordered(y0) {
                assert(contents(y0.right).subset_of(contents(x0.left)));
                assert(y0.value.lt(x0.value)) by {
                    assert(contents(x0.left).contains(y0.value));
                }
                assert forall|v: T| #[trigger] contents(x1.right).contains(v) implies y0.value.lt(
                    v,
                ) by {
                    T::lemma_transitive(y0.value, x0.value, v);
                }
                assert(ordered(x1));
                assert(ordered(*y));
            }
        }
        y
    }
}

// ---------------------------------------------------------------------------
// Rebalancing

impl<T: TotalOrder> AVLTree<T> {
    /// Restores the balance of a node whose subtrees are AVL trees whose
    /// heights differ by at most two. A balanced node is returned as it is;
    /// otherwise the taller side is rotated up.
    fn rebalance(root: Box<Node<T>>) -> (r: Box<Node<T>>)
        requires
            is_avl(root.left),
            is_avl(root.right),
            ordered(*root),
            height_ok(*root),
            -2 <= balance_factor(*root) <= 2,
        ensures
            *r == rebalance_spec(*root),
            is_avl(Some(r)),
            contents(Some(r)) == contents(Some(root)),
            root.height - 1 <= r.height <= root.height,
            balanced(*root) ==> r == root,
    {
        let hl = Self::link_height(&root.left);
        let hr = Self::link_height(&root.right);
        if hl > hr + 1 {
            Self::rebalance_left_side(root)
        } else if hr > hl + 1 {
            Self::rebalance_right_side(root)
        } else {
            root
        }
    }

    /// Rebalances a node whose left subtree is two levels taller than its
    /// right one: a single right rotation when the left child leans left or
    /// is level, else a left rotation of the left child first.
    fn rebalance_left_side(root: Box<Node<T>>) -> (r: Box<Node<T>>)
        requires
            is_avl(root.left),
            is_avl(root.right),
            ordered(*root),
            height_ok(*root),
            balance_factor(*root) == 2,
        ensures
            *r == rebalance_left_spec(*root),
            is_avl(Some(r)),
            contents(Some(r)) == contents(Some(root)),
            root.height - 1 <= r.height <= root.height,
    {
        let ghost l0 = *root.left->Some_0;
        let mut root = root;
        let left_subtree = root.left.take().unwrap();
        if Self::link_height(&left_subtree.left) >= Self::link_height(&left_subtree.right) {
            root.left = Some(left_subtree);
            let r = Self::right_rotation(root);
            proof {
                assert(is_avl(Some(r.right->Some_0)));
            }
            r
        } else {
            let ghost lr0 = *l0.right->Some_0;
            proof {
                assert(is_avl(l0.right));
                assert(height_ok(lr0) && ordered(lr0) && balanced(lr0));
            }
            let l = Self::left_rotation(left_subtree);
            proof {
                assert(ordered(*l.left->Some_0));
                assert(is_avl(Some(l.left->Some_0)));
            }
            root.left = Some(l);
            let r = Self::right_rotation(root);
            proof {
                assert(is_avl(Some(r.right->Some_0)));
            }
            r
        }
    }

    /// Rebalances a node whose right subtree is two levels taller than its
    /// left one: the mirror of `rebalance_left_side`.
    fn rebalance_right_side(root: Box<Node<T>>) -> (r: Box<Node<T>>)
        requires
            is_avl(root.left),
            is_avl(root.right),
            ordered(*root),
            height_ok(*root),
            balance_factor(*root) == -2,
        ensures
            *r == rebalance_right_spec(*root),
            is_avl(Some(r)),
            contents(Some(r)) == contents(Some(root)),
            root.height - 1 <= r.height <= root.height,
    {
        let ghost rc0 = *root.right->Some_0;
        let mut root = root;
        let right_subtree = root.right.take().unwrap();
        if Self::link_height(&right_subtree.right) >= Self::link_height(&right_subtree.left) {
            root.right = Some(right_subtree);
            let r = Self::left_rotation(root);
            proof {
                assert(is_avl(Some(r.left->Some_0)));
            }
            r
        } else {
            let ghost rl0 = *rc0.left->Some_0;
            proof {
                assert(is_avl(rc0.left));
                assert(height_ok(rl0) && ordered(rl0) && balanced(rl0));
            }
            let l = Self::right_rotation(right_subtree);
            proof {
                assert(ordered(*l.right->Some_0));
                assert(is_avl(Some(l.right->Some_0)));
            }
            root.right = Some(l);
            let r = Self::left_rotation(root);
            proof {
                assert(is_avl(Some(r.left->Some_0)));
            }
            r
        }
    }
}

// ---------------------------------------------------------------------------
// Facts about the model

/// In an AVL tree the values of the two subtrees and the node's own value are
/// pairwise distinct, so the tree holds exactly as many values as nodes.
pub proof fn lemma_contents_size<T: TotalOrder>(t: Link<T>)
    requires
        is_avl(t),
    ensures
        contents(t).finite(),
        contents(t).len() == size(t),
    decreases t,
{
    if let Some(n) = t {
        lemma_contents_size(n.left);
        lemma_contents_size(n.right);
        let l = contents(n.left);
        let r = contents(n.right);
        assert(l.disjoint(r)) by {
            assert forall|x: T| l.contains(x) implies !r.contains(x) by {
                if r.contains(x) {
                    T::lemma_transitive(x, n.value, x);
                    T::lemma_irreflexive(x);
                }
            }
        }
        vstd::set_lib::lemma_set_disjoint_lens(l, r);
        T::lemma_irreflexive(n.value);
        assert(!l.union(r).contains(n.value));
    }
}

/// A subtree has no more leaves than nodes.
pub proof fn lemma_leaves_le_size<T>(t: Link<T>)
    ensures
        leaf_count(t) <= size(t),
    decreases t,
{
    if let Some(n) = t {
        lemma_leaves_le_size(n.left);
        lemma_leaves_le_size(n.right);
    }
}

/// The in-order sequence holds exactly the values of the subtree.
pub proof fn lemma_inorder_contents<T>(t: Link<T>)
    ensures
        forall|x: T| #[trigger] inorder(t).contains(x) == contents(t).contains(x),
        inorder(t).len() == size(t),
    decreases t,
{
    if let Some(n) = t {
        lemma_inorder_contents(n.left);
        lemma_inorder_contents(n.right);
        let a = inorder(n.left);
        let b = inorder(n.right);
        let s = inorder(t);
        assert(s == a + seq![n.value] + b);
        assert forall|x: T| #[trigger] s.contains(x) == contents(t).contains(x) by {
            if s.contains(x) {
                let i = choose|i: int| 0 <= i < s.len() && s[i] == x;
                if i < a.len() {
                    assert(a[i] == x);
                } else if i > a.len() {
                    assert(b[i - a.len() - 1] == x);
                }
            }
            if a.contains(x) {
                let i = choose|i: int| 0 <= i < a.len() && a[i] == x;
                assert(s[i] == x);
            }
            if b.contains(x) {
                let i = choose|i: int| 0 <= i < b.len() && b[i] == x;
                assert(s[i + a.len() + 1] == x);
            }
            assert(s[a.len() as int] == n.value);
        }
    }
}

/// The in-order sequence of an AVL subtree is strictly ascending.
pub proof fn lemma_inorder_ascending<T: TotalOrder>(t: Link<T>)
    requires
        is_avl(t),
    ensures
        strictly_ascending(inorder(t)),
    decreases t,
{
    if let Some(n) = t {
        lemma_inorder_ascending(n.left);
        lemma_inorder_ascending(n.right);
        lemma_inorder_contents(n.left);
        lemma_inorder_contents(n.right);
        let a = inorder(n.left);
        let b = inorder(n.right);
        let s = inorder(t);
        let k = a.len() as int;
        assert(s == a + seq![n.value] + b);
        assert forall|i: int, j: int| 0 <= i < j < s.len() implies #[trigger] s[i].lt(s[j]) by {
            if j < k {
                assert(s[i] == a[i] && s[j] == a[j]);
            } else if i > k {
                assert(s[i] == b[i - k - 1] && s[j] == b[j - k - 1]);
            } else if i == k {
                assert(s[j] == b[j - k - 1]);
                assert(b.contains(s[j]));
            } else if j == k {
                assert(s[i] == a[i]);
                assert(a.contains(s[i]));
            } else {
                assert(s[i] == a[i]);
                assert(s[j] == b[j - k - 1]);
                assert(a.contains(s[i]));
                assert(b.contains(s[j]));
                T::lemma_transitive(s[i], n.value, s[j]);
            }
        }
    }
}

/// A subtree with correct heights has between `h` and `2^h - 1` nodes, where
/// `h` is its height.
pub proof fn lemma_size_between_height_and_pow2<T: TotalOrder>(t: Link<T>)
    requires
        is_avl(t),
    ensures
        height(t) <= size(t) <= pow2(height(t)) - 1,
    decreases t,
{
    match t {
        Some(n) => {
            lemma_size_between_height_and_pow2(n.left);
            lemma_size_between_height_and_pow2(n.right);
            let h = height(t);
            let hl = height(n.left);
            let hr = height(n.right);
            let top = (h - 1) as nat;
            if hl < top {
                lemma_pow2_strictly_increases(hl, top);
            }
            if hr < top {
                lemma_pow2_strictly_increases(hr, top);
            }
            lemma_pow2_unfold(h);
        },
        None => {
            lemma2_to64();
        },
    }
}

/// In a well-formed tree the number of leaves never exceeds the number of
/// values (one per node), and a tree of height `h` holds between `h` and
/// `2^h - 1` values.
pub proof fn lemma_tree_size_bounds<T: TotalOrder>(tree: AVLTree<T>)
    requires
        tree.wf(),
    ensures
        leaf_count(tree.root) <= tree@.len(),
        height(tree.root) <= tree@.len() <= pow2(height(tree.root)) - 1,
{
    lemma_contents_size(tree.root);
    lemma_leaves_le_size(tree.root);
    lemma_size_between_height_and_pow2(tree.root);
}

// ---------------------------------------------------------------------------
// Insertion

impl<T: TotalOrder> AVLTree<T> {
    /// Inserts `value` into the tree: a new leaf at its place in the order,
    /// or an overwrite of the equal value already present, which leaves the
    /// tree exactly as it was. Heights are recomputed and nodes rebalanced on
    /// the way back up.
    pub fn insert(&mut self, value: T)
        requires
            old(self).wf(),
            old(self)@.len() < usize::MAX,
        ensures
            final(self).root == Some(Box::new(insert_spec(old(self).root, value))),
            final(self).wf(),
            final(self)@ == old(self)@.insert(value),
            old(self)@.contains(value) ==> *final(self) == *old(self),
    {
        proof {
            lemma_contents_size(self.root);
            lemma_size_between_height_and_pow2(self.root);
        }
        match self.root.take() {
            Some(root) => {
                self.root = Some(Self::insert_node(root, value));
            },
            None => {
                self.root = Some(Self::new_node(value));
            },
        }
    }

    /// Inserts `value` below the node `root` and returns the rebalanced subtree.
    fn insert_node(root: Box<Node<T>>, value: T) -> (r: Box<Node<T>>)
        requires
            is_avl(Some(root)),
            root.height < usize::MAX,
        ensures
            *r == insert_spec(Some(root), value),
            is_avl(Some(r)),
            contents(Some(r)) == contents(Some(root)).insert(value),
            root.height <= r.height <= root.height + 1,
            contents(Some(root)).contains(value) ==> r == root,
        decreases root,
    {
        let ghost r0 = *root;
        let mut root = root;
        match root.value.compare(&value) {
            Ordering::Greater => {
                let left = root.left.take();
                root.left = Some(Self::insert_link(left, value));
                proof {
                    if contents(r0.right).contains(value) {
                        T::lemma_transitive(value, r0.value, value);
                        T::lemma_irreflexive(value);
                    }
                }
            },
            Ordering::Less => {
                let right = root.right.take();
                root.right = Some(Self::insert_link(right, value));
                proof {
                    if contents(r0.left).contains(value) {
                        T::lemma_transitive(value, r0.value, value);
                        T::lemma_irreflexive(value);
                    }
                }
            },
            Ordering::Equal => {
                root.value = value;
            },
        }
        Self::update_height(&mut root);
        proof {
            assert(contents(Some(root)) =~= contents(Some(Box::new(r0))).insert(value));
        }
        Self::rebalance(root)
    }

    /// Inserts `value` into a possibly absent subtree.
    fn insert_link(link: Link<T>, value: T) -> (r: Box<Node<T>>)
        requires
            is_avl(link),
            height(link) < usize::MAX,
        ensures
            *r == insert_spec(link, value),
            is_avl(Some(r)),
            contents(Some(r)) == contents(link).insert(value),
            height(link) <= r.height <= height(link) + 1,
            contents(link).contains(value) ==> link == Some(r),
        decreases link,
    {
        match link {
            Some(node) => Self::insert_node(node, value),
            None => {
                let r = Self::new_node(value);
                proof {
                    assert(contents(Some(r)) =~= contents(link).insert(value));
                }
                r
            },
        }
    }
}

// ---------------------------------------------------------------------------
// Deletion

impl<T: TotalOrder> AVLTree<T> {
    /// Removes `value` from the tree, if it is there; on an empty tree, or
    /// when the value is absent, the tree is left as it was. Heights are
    /// recomputed and nodes rebalanced on the way back up.
    pub fn delete(&mut self, value: T)
        requires
            old(self).wf(),
        ensures
            final(self).root == delete_spec(old(self).root, value),
            final(self).wf(),
            final(self)@ == old(self)@.remove(value),
            !old(self)@.contains(value) ==> *final(self) == *old(self),
    {
        match self.root.take() {
            Some(root) => {
                self.root = Self::delete_link(Some(root), value);
            },
            None => {},
        }
    }

    /// Removes `value` from a possibly absent subtree.
    fn delete_link(link: Link<T>, value: T) -> (r: Link<T>)
        requires
            is_avl(link),
        ensures
            r == delete_spec(link, value),
            is_avl(r),
            contents(r) == contents(link).remove(value),
            height(link) - 1 <= height(r) <= height(link),
            !contents(link).contains(value) ==> r == link,
        decreases link,
    {
        match link {
            Some(root) => {
                let ghost r0 = *root;
                let mut root = root;
                match root.value.compare(&value) {
                    Ordering::Greater => {
                        let left = root.left.take();
                        root.left = Self::delete_link(left, value);
                        Self::update_height(&mut root);
                        proof {
                            if contents(r0.right).contains(value) {
                                T::lemma_transitive(value, r0.value, value);
                                T::lemma_irreflexive(value);
                            }
                            assert(contents(Some(root)) =~= contents(link).remove(value));
                        }
                        Some(Self::rebalance(root))
                    },
                    Ordering::Less => {
                        let right = root.right.take();
                        root.right = Self::delete_link(right, value);
                        Self::update_height(&mut root);
                        proof {
                            if contents(r0.left).contains(value) {
                                T::lemma_transitive(value, r0.value, value);
                                T::lemma_irreflexive(value);
                            }
                            assert(contents(Some(root)) =~= contents(link).remove(value));
                        }
                        Some(Self::rebalance(root))
                    },
                    Ordering::Equal => Self::delete_node(root),
                }
            },
            None => {
                proof {
                    assert(contents(link).remove(value) =~= contents(link));
                }
                None
            },
        }
    }

    /// Removes the node `root` itself. A node with at most one child is
    /// replaced by that child; a node with two takes the value of its in-order
    /// successor, the least value of its right subtree, which is removed from
    /// there.
    fn delete_node(root: Box<Node<T>>) -> (r: Link<T>)
        requires
            is_avl(Some(root)),
        ensures
            r == delete_node_spec(*root),
            is_avl(r),
            contents(r) == contents(Some(root)).remove(root.value),
            height(Some(root)) - 1 <= height(r) <= height(Some(root)),
    {
        let ghost r0 = *root;
        proof {
            T::lemma_irreflexive(r0.value);
            assert(!contents(r0.left).contains(r0.value));
            assert(!contents(r0.right).contains(r0.value));
        }
        let mut root = root;
        let left = root.left.take();
        let right = root.right.take();
        match left {
            Some(left_subtree) => match right {
                Some(right_subtree) => {
                    let (new_right, successor) = Self::remove_min(right_subtree);
                    root.value = successor;
                    root.left = Some(left_subtree);
                    root.right = new_right;
                    Self::update_height(&mut root);
                    proof {
                        assert forall|x: T| #[trigger] contents(r0.left).contains(x) implies x.lt(
                            successor,
                        ) by {
                            T::lemma_transitive(x, r0.value, successor);
                        }
                        assert(ordered(*root));
                        assert(contents(Some(root)) =~= contents(Some(Box::new(r0))).remove(
                            r0.value,
                        ));
                    }
                    Some(Self::rebalance(root))
                },
                None => {
                    proof {
                        assert(contents(Some(left_subtree)) =~= contents(
                            Some(Box::new(r0)),
                        ).remove(r0.value));
                    }
                    Some(left_subtree)
                },
            },
            None => {
                proof {
                    assert(contents(right) =~= contents(Some(Box::new(r0))).remove(r0.value));
                }
                right
            },
        }
    }

    /// Removes the least value from the subtree `root` and returns the
    /// rebalanced remainder together with that value.
    fn remove_min(root: Box<Node<T>>) -> (r: (Link<T>, T))
        requires
            is_avl(Some(root)),
        ensures
            r == remove_min_spec(*root),
            is_avl(r.0),
            contents(Some(root)).contains(r.1),
            contents(Some(root)).remove(r.1) == contents(r.0),
            forall|x: T| #[trigger] contents(r.0).contains(x) ==> r.1.lt(x),
            height(Some(root)) - 1 <= height(r.0) <= height(Some(root)),
        decreases root,
    {
        let ghost r0 = *root;
        proof {
            T::lemma_irreflexive(r0.value);
        }
        let mut root = root;
        if root.left.is_none() {
            let right = root.right.take();
            proof {
                assert(!contents(r0.right).contains(r0.value));
                assert(r0.left is None);
                assert(contents(r0.left) =~= Set::<T>::empty());
                assert(contents(right) =~= contents(Some(Box::new(r0))).remove(r0.value));
            }
            (right, root.value)
        } else {
            let left = root.left.take().unwrap();
            let (new_left, least) = Self::remove_min(left);
            root.left = new_left;
            Self::update_height(&mut root);
            proof {
                assert(least.lt(r0.value));
                assert forall|x: T| #[trigger] contents(r0.right).contains(x) implies least.lt(
                    x,
                ) by {
                    T::lemma_transitive(least, r0.value, x);
                }
                T::lemma_irreflexive(least);
                assert(!contents(r0.right).contains(least));
                assert(contents(Some(root)) =~= contents(Some(Box::new(r0))).remove(least));
            }
            (Some(Self::rebalance(root)), least)
        }
    }
}

// ---------------------------------------------------------------------------
// Read-only queries

impl<T: TotalOrder> AVLTree<T> {
    /// The number of nodes without children, counted by a walk over the tree.
    pub fn leaves(&self) -> (n: usize)
        requires
            self.wf(),
            self@.len() <= usize::MAX,
        ensures
            n as nat == leaf_count(self.root),
    {
        proof {
            lemma_contents_size(self.root);
        }
        Self::leaves_link(&self.root)
    }

    fn leaves_link(link: &Link<T>) -> (n: usize)
        requires
            size(*link) <= usize::MAX,
        ensures
            n as nat == leaf_count(*link),
        decreases link,
    {
        match link {
            Some(node) => {
                if node.left.is_none() && node.right.is_none() {
                    1
                } else {
                    proof {
                        lemma_leaves_le_size(node.left);
                        lemma_leaves_le_size(node.right);
                    }
                    Self::leaves_link(&node.left) + Self::leaves_link(&node.right)
                }
            },
            None => 0,
        }
    }

    /// The values of the tree in in-order (ascending, for a well-formed
    /// tree), read without changing the tree.
    pub fn inorder_traversal(&self) -> (r: Vec<T>)
        ensures
            r@ == inorder(self.root),
            self.wf() ==> strictly_ascending(r@) && r@.to_set() == self@,
    {
        let mut out: Vec<T> = Vec::new();
        Self::inorder_into(&self.root, &mut out);
        proof {
            assert(out@ =~= inorder(self.root));
            if self.wf() {
                lemma_inorder_ascending(self.root);
                lemma_inorder_contents(self.root);
                assert(out@.to_set() =~= self@);
            }
        }
        out
    }

    /// Appends the values of `link` in in-order to `out`.
    fn inorder_into(link: &Link<T>, out: &mut Vec<T>)
        ensures
            final(out)@ == old(out)@ + inorder(*link),
        decreases link,
    {
        match link {
            Some(node) => {
                Self::inorder_into(&node.left, out);
                out.push(node.value);
                Self::inorder_into(&node.right, out);
                proof {
                    assert(final(out)@ =~= old(out)@ + inorder(*link));
                }
            },
            None => {
                proof {
                    assert(out@ =~= old(out)@ + inorder(*link));
                }
            },
        }
    }
}

} // verus!
