//! A self-balancing ordered index: a red-black tree mapping numeric keys
//! to devices, with insertion, exact lookup, in-order traversal, and a
//! structural validator.  Instead of parent back-references, the
//! insertion recursion records the path implicitly and runs the fixup as
//! it unwinds, so each level sees the uncle and the grandparent directly.

use vstd::prelude::*;

use crate::device::IoTDevice;
use vstd::arithmetic::mul::lemma_mul_upper_bound;
use vstd::arithmetic::power2::lemma2_to64;
use vstd::arithmetic::power2::lemma_pow2_adds;
use vstd::arithmetic::power2::lemma_pow2_strictly_increases;
use vstd::arithmetic::power2::pow2;
use vstd::multiset::Multiset;

verus! {

broadcast use vstd::multiset::group_multiset_axioms, vstd::multiset::group_multiset_properties;

/// Color tag of a tree cell.
#[derive(Clone, Copy, Debug, PartialEq, Eq, Structural)]
pub enum Color {
    Red,
    Black,
}

/// Which side of a node the comparison policy routes to.
#[derive(Clone, Copy, PartialEq, Eq, Structural)]
enum RBOperation {
    LeftNode,
    RightNode,
}

/// Direction of a single structural rotation.
#[derive(Clone, Copy, PartialEq, Eq, Structural)]
enum Rotation {
    Left,
    Right,
}

/// A tree cell: a device, a color, and the two owned subtrees.  Upward
/// fixup is driven by the insertion recursion unwinding, so no parent
/// back-reference is stored.
pub struct Node {
    pub color: Color,
    pub dev: IoTDevice,
    pub left: Tree,
    pub right: Tree,
}

pub type Tree = Option<Box<Node>>;

// ---------------------------------------------------------------------
// The mathematical model of a tree.
// ---------------------------------------------------------------------

/// Number of nodes.
spec fn size(t: Tree) -> nat
    decreases t,
{
    match t {
        None => 0,
        Some(n) => 1 + size(n.left) + size(n.right),
    }
}

/// The in-order sequence of device views (left subtree, node, right subtree).
spec fn dev_seq(t: Tree) -> Seq<(u64, Seq<char>)>
    decreases t,
{
    match t {
        None => Seq::empty(),
        Some(n) => dev_seq(n.left) + seq![n.dev@] + dev_seq(n.right),
    }
}

/// The devices held by the tree, as a multiset (duplicates are allowed).
spec fn dev_bag(t: Tree) -> Multiset<(u64, Seq<char>)>
    decreases t,
{
    match t {
        None => Multiset::empty(),
        Some(n) => dev_bag(n.left).insert(n.dev@).add(dev_bag(n.right)),
    }
}

/// Every key in the tree is at least `k`.
spec fn ge_all(t: Tree, k: u64) -> bool
    decreases t,
{
    match t {
        None => true,
        Some(n) => n.dev.numerical_id >= k && ge_all(n.left, k) && ge_all(n.right, k),
    }
}

/// Every key in the tree is at most `k`.
spec fn le_all(t: Tree, k: u64) -> bool
    decreases t,
{
    match t {
        None => true,
        Some(n) => n.dev.numerical_id <= k && le_all(n.left, k) && le_all(n.right, k),
    }
}

/// The search-order invariant of the mirrored comparison policy: keys that
/// are greater than or equal to a node sit in its left subtree, keys that
/// are less than or equal sit in its right subtree.
spec fn ordered(t: Tree) -> bool
    decreases t,
{
    match t {
        None => true,
        Some(n) => ordered(n.left) && ordered(n.right) && ge_all(n.left, n.dev.numerical_id)
            && le_all(n.right, n.dev.numerical_id),
    }
}

/// An absent child counts as black.
spec fn red(t: Tree) -> bool {
    match t {
        None => false,
        Some(n) => n.color == Color::Red,
    }
}

/// No red node has a red child.
spec fn no_red_red(t: Tree) -> bool
    decreases t,
{
    match t {
        None => true,
        Some(n) => no_red_red(n.left) && no_red_red(n.right) && (n.color == Color::Red
            ==> !red(n.left) && !red(n.right)),
    }
}

/// Both subtrees are clean; the root itself may still clash with its parent.
spec fn near_no_red_red(t: Tree) -> bool {
    match t {
        None => true,
        Some(n) => no_red_red(n.left) && no_red_red(n.right),
    }
}

/// Black nodes on the path from the root to the leftmost absent child.
spec fn black_height(t: Tree) -> nat
    decreases t,
{
    match t {
        None => 0,
        Some(n) => black_height(n.left) + if n.color == Color::Black {
            1nat
        } else {
            0nat
        },
    }
}

/// Every path from a node to an absent child passes the same number of
/// black nodes.
spec fn balanced(t: Tree) -> bool
    decreases t,
{
    match t {
        None => true,
        Some(n) => balanced(n.left) && balanced(n.right) && black_height(n.left) == black_height(
            n.right,
        ),
    }
}

/// Some node carries key `k`.
spec fn has_key(t: Tree, k: u64) -> bool
    decreases t,
{
    match t {
        None => false,
        Some(n) => n.dev.numerical_id == k || has_key(n.left, k) || has_key(n.right, k),
    }
}

/// Number of nodes on the longest root-to-leaf path.
spec fn height(t: Tree) -> nat
    decreases t,
{
    match t {
        None => 0,
        Some(n) => 1 + if height(n.left) >= height(n.right) {
            height(n.left)
        } else {
            height(n.right)
        },
    }
}

/// Red-red pairs found below, counting the root against `parent_color`.
spec fn rr_count(t: Tree, parent_color: Color) -> nat
    decreases t,
{
    match t {
        None => 0,
        Some(n) => (if parent_color == Color::Red && n.color == Color::Red {
            1nat
        } else {
            0nat
        }) + rr_count(n.left, n.color) + rr_count(n.right, n.color),
    }
}

/// Fewest black nodes on any root-to-absent-child path.
spec fn min_bh(t: Tree) -> nat
    decreases t,
{
    match t {
        None => 0,
        Some(n) => (if n.color == Color::Black {
            1nat
        } else {
            0nat
        }) + if min_bh(n.left) <= min_bh(n.right) {
            min_bh(n.left)
        } else {
            min_bh(n.right)
        },
    }
}

/// Most black nodes on any root-to-absent-child path.
spec fn max_bh(t: Tree) -> nat
    decreases t,
{
    match t {
        None => 0,
        Some(n) => (if n.color == Color::Black {
            1nat
        } else {
            0nat
        }) + if max_bh(n.left) >= max_bh(n.right) {
            max_bh(n.left)
        } else {
            max_bh(n.right)
        },
    }
}

// ---------------------------------------------------------------------
// Lemmas about the model.
// ---------------------------------------------------------------------

/// A lower key bound can be weakened.
proof fn lemma_ge_all_narrow(t: Tree, a: u64, b: u64)
    requires
        ge_all(t, a),
        b <= a,
    ensures
        ge_all(t, b),
    decreases t,
{
    match t {
        None => {},
        Some(n) => {
            lemma_ge_all_narrow(n.left, a, b);
            lemma_ge_all_narrow(n.right, a, b);
        },
    }
}

/// An upper key bound can be weakened.
proof fn lemma_le_all_widen(t: Tree, a: u64, b: u64)
    requires
        le_all(t, a),
        a <= b,
    ensures
        le_all(t, b),
    decreases t,
{
    match t {
        None => {},
        Some(n) => {
            lemma_le_all_widen(n.left, a, b);
            lemma_le_all_widen(n.right, a, b);
        },
    }
}

/// A tree bounded below by `bound` holds no key smaller than it.
proof fn lemma_ge_all_no_key(t: Tree, bound: u64, k: u64)
    requires
        ge_all(t, bound),
        k < bound,
    ensures
        !has_key(t, k),
    decreases t,
{
    match t {
        None => {},
        Some(n) => {
            lemma_ge_all_no_key(n.left, bound, k);
            lemma_ge_all_no_key(n.right, bound, k);
        },
    }
}

/// A tree bounded above by `bound` holds no key greater than it.
proof fn lemma_le_all_no_key(t: Tree, bound: u64, k: u64)
    requires
        le_all(t, bound),
        k > bound,
    ensures
        !has_key(t, k),
    decreases t,
{
    match t {
        None => {},
        Some(n) => {
            lemma_le_all_no_key(n.left, bound, k);
            lemma_le_all_no_key(n.right, bound, k);
        },
    }
}

/// The in-order sequence and the multiset both count one entry per node.
proof fn lemma_counts(t: Tree)
    ensures
        dev_seq(t).len() == size(t),
        dev_bag(t).len() == size(t),
    decreases t,
{
    match t {
        None => {},
        Some(n) => {
            lemma_counts(n.left);
            lemma_counts(n.right);
        },
    }
}

/// Membership in the device multiset is the same as `has_key`.
proof fn lemma_has_key_bag(t: Tree, k: u64)
    ensures
        has_key(t, k) <==> exists|d: (u64, Seq<char>)| dev_bag(t).contains(d) && d.0 == k,
    decreases t,
{
    match t {
        None => {},
        Some(n) => {
            lemma_has_key_bag(n.left, k);
            lemma_has_key_bag(n.right, k);
            if has_key(t, k) {
                if n.dev.numerical_id == k {
                    assert(dev_bag(t).contains(n.dev@));
                } else if has_key(n.left, k) {
                    let d = choose|d: (u64, Seq<char>)| dev_bag(n.left).contains(d) && d.0 == k;
                    assert(dev_bag(t).contains(d));
                } else {
                    let d = choose|d: (u64, Seq<char>)| dev_bag(n.right).contains(d) && d.0 == k;
                    assert(dev_bag(t).contains(d));
                }
            }
            if exists|d: (u64, Seq<char>)| dev_bag(t).contains(d) && d.0 == k {
                let d = choose|d: (u64, Seq<char>)| dev_bag(t).contains(d) && d.0 == k;
                if d != n.dev@ {
                    assert(dev_bag(n.left).contains(d) || dev_bag(n.right).contains(d));
                }
            }
        },
    }
}

/// A device found in a subtree is in the whole tree's multiset.
proof fn lemma_bag_up(n: Box<Node>, d: (u64, Seq<char>))
    requires
        dev_bag(n.left).contains(d) || dev_bag(n.right).contains(d),
    ensures
        dev_bag(Some(n)).contains(d),
{
}

/// Recolor a node in place; the links and the device stay untouched.
fn paint(n: Box<Node>, color: Color) -> (r: Box<Node>)
    ensures
        r.color == color,
        r.dev == n.dev,
        r.left == n.left,
        r.right == n.right,
{
    let mut n = n;
    n.color = color;
    n
}

// ---------------------------------------------------------------------
// The registry.
// ---------------------------------------------------------------------

/// A device index backed by a red-black tree; duplicates are accepted.
pub struct BetterDeviceRegistry {
    pub root: Tree,
    pub length: u64,
}

impl Node {
    /// A fresh red leaf holding `dev`.
    pub fn new(dev: IoTDevice) -> (t: Tree)
        ensures
            (t matches Some(n) && n.color == Color::Red && n.dev == dev && n.left.is_none()
                && n.right.is_none()),
    {
        Some(Box::new(Node { color: Color::Red, dev, left: None, right: None }))
    }
}

impl BetterDeviceRegistry {
    /// All structural invariants of the index: search order, no red-red
    /// pair, uniform black height, black root, and an accurate length.
    pub closed spec fn inv(&self) -> bool {
        &&& ordered(self.root)
        &&& no_red_red(self.root)
        &&& balanced(self.root)
        &&& !red(self.root)
        &&& self.length == size(self.root)
    }

    /// The devices stored, with multiplicity.
    pub closed spec fn devices(&self) -> Multiset<(u64, Seq<char>)> {
        dev_bag(self.root)
    }

    /// The devices stored, in walk order.
    pub closed spec fn in_order(&self) -> Seq<(u64, Seq<char>)> {
        dev_seq(self.root)
    }

    /// Whether some stored device carries the key.
    pub closed spec fn has_device(&self, numerical_id: u64) -> bool {
        has_key(self.root, numerical_id)
    }

    /// The coloring and balance conditions checked by the validator.
    pub closed spec fn rb_shape_ok(&self) -> bool {
        rr_count(self.root, Color::Red) == 0 && min_bh(self.root) == max_bh(self.root)
    }

    /// Longest chain of nodes from the root down.
    pub closed spec fn tree_height(&self) -> nat {
        height(self.root)
    }

    pub fn new_empty() -> (r: Self)
        ensures
            r.inv(),
            r.length == 0,
            r.devices() == Multiset::<(u64, Seq<char>)>::empty(),
            r.in_order() == Seq::<(u64, Seq<char>)>::empty(),
            forall|id: u64| !r.has_device(id),
    {
        BetterDeviceRegistry { root: None, length: 0 }
    }

    /// The comparison policy: keys not greater than the probe route left.
    fn check(a: &IoTDevice, b: &IoTDevice) -> (r: RBOperation)
        ensures
            r == RBOperation::LeftNode <==> a.numerical_id <= b.numerical_id,
    {
        if a.numerical_id <= b.numerical_id {
            RBOperation::LeftNode
        } else {
            RBOperation::RightNode
        }
    }

    fn is_red(t: &Tree) -> (r: bool)
        ensures
            r == red(*t),
    {
        match t {
            Some(n) => n.color == Color::Red,
            None => false,
        }
    }

    /// Classic single rotation, generalized over the direction: the child
    /// on the rotation side becomes the subtree root and the old root is
    /// pushed down to the opposite side.  Colors travel with their nodes.
    fn rotate(node: Box<Node>, direction: Rotation) -> (r: Box<Node>)
        requires
            direction == Rotation::Right ==> node.left.is_some(),
            direction == Rotation::Left ==> node.right.is_some(),
        ensures
            direction == Rotation::Right ==> ({
                let y = node.left.unwrap();
                &&& r.color == y.color
                &&& r.dev == y.dev
                &&& r.left == y.left
                &&& (r.right matches Some(z) && z.color == node.color && z.dev == node.dev
                    && z.left == y.right && z.right == node.right)
            }),
            direction == Rotation::Left ==> ({
                let y = node.right.unwrap();
                &&& r.color == y.color
                &&& r.dev == y.dev
                &&& r.right == y.right
                &&& (r.left matches Some(z) && z.color == node.color && z.dev == node.dev
                    && z.right == y.left && z.left == node.left)
            }),
            dev_seq(Some(r)) == dev_seq(Some(node)),
            dev_bag(Some(r)) == dev_bag(Some(node)),
            size(Some(r)) == size(Some(node)),
            forall|k: u64| #[trigger] ge_all(Some(r), k) <==> ge_all(Some(node), k),
            forall|k: u64| #[trigger] le_all(Some(r), k) <==> le_all(Some(node), k),
            ordered(Some(node)) ==> ordered(Some(r)),
    {
        let ghost orig = node;
        match direction {
            Rotation::Right => {
                let Node { color, dev, left, right } = *node;
                let y = left.unwrap();
                let Node { color: ycolor, dev: ydev, left: yleft, right: yright } = *y;
                let z = Box::new(Node { color, dev, left: yright, right });
                let r = Box::new(Node { color: ycolor, dev: ydev, left: yleft, right: Some(z) });
                proof {
                    let y0 = orig.left.unwrap();
                    assert(dev_seq(r.right) == dev_seq(y0.right) + seq![orig.dev@] + dev_seq(
                        orig.right,
                    ));
                    assert(dev_seq(orig.left) == dev_seq(y0.left) + seq![y0.dev@] + dev_seq(
                        y0.right,
                    ));
                    assert(dev_seq(Some(r)) =~= dev_seq(Some(orig)));
                    assert(dev_bag(r.right) == dev_bag(y0.right).insert(orig.dev@).add(dev_bag(
                        orig.right,
                    )));
                    assert(dev_bag(orig.left) == dev_bag(y0.left).insert(y0.dev@).add(dev_bag(
                        y0.right,
                    )));
                    assert(dev_bag(Some(r)) =~= dev_bag(Some(orig)));
                    assert(size(r.right) == 1 + size(y0.right) + size(orig.right));
                    assert(size(orig.left) == 1 + size(y0.left) + size(y0.right));
                    assert forall|k: u64| #[trigger]
                        ge_all(Some(r), k) <==> ge_all(Some(orig), k) by {
                        assert(ge_all(r.right, k) == (orig.dev.numerical_id >= k && ge_all(
                            y0.right,
                            k,
                        ) && ge_all(orig.right, k)));
                        assert(ge_all(orig.left, k) == (y0.dev.numerical_id >= k && ge_all(
                            y0.left,
                            k,
                        ) && ge_all(y0.right, k)));
                    }
                    assert forall|k: u64| #[trigger]
                        le_all(Some(r), k) <==> le_all(Some(orig), k) by {
                        assert(le_all(r.right, k) == (orig.dev.numerical_id <= k && le_all(
                            y0.right,
                            k,
                        ) && le_all(orig.right, k)));
                        assert(le_all(orig.left, k) == (y0.dev.numerical_id <= k && le_all(
                            y0.left,
                            k,
                        ) && le_all(y0.right, k)));
                    }
                    if ordered(Some(orig)) {
                        assert(ordered(Some(y0)));
                        assert(ge_all(Some(y0), orig.dev.numerical_id));
                        lemma_le_all_widen(
                            orig.right,
                            orig.dev.numerical_id,
                            y0.dev.numerical_id,
                        );
                        assert(le_all(r.right, y0.dev.numerical_id));
                        assert(ordered(r.right));
                        assert(ordered(Some(r)));
                    }
                }
                r
            },
            Rotation::Left => {
                let Node { color, dev, left, right } = *node;
                let y = right.unwrap();
                let Node { color: ycolor, dev: ydev, left: yleft, right: yright } = *y;
                let z = Box::new(Node { color, dev, left, right: yleft });
                let r = Box::new(Node { color: ycolor, dev: ydev, left: Some(z), right: yright });
                proof {
                    let y0 = orig.right.unwrap();
                    assert(dev_seq(r.left) == dev_seq(orig.left) + seq![orig.dev@] + dev_seq(
                        y0.left,
                    ));
                    assert(dev_seq(orig.right) == dev_seq(y0.left) + seq![y0.dev@] + dev_seq(
                        y0.right,
                    ));
                    assert(dev_seq(Some(r)) =~= dev_seq(Some(orig)));
                    assert(dev_bag(r.left) == dev_bag(orig.left).insert(orig.dev@).add(dev_bag(
                        y0.left,
                    )));
                    assert(dev_bag(orig.right) == dev_bag(y0.left).insert(y0.dev@).add(dev_bag(
                        y0.right,
                    )));
                    assert(dev_bag(Some(r)) =~= dev_bag(Some(orig)));
                    assert(size(r.left) == 1 + size(orig.left) + size(y0.left));
                    assert(size(orig.right) == 1 + size(y0.left) + size(y0.right));
                    assert forall|k: u64| #[trigger]
                        ge_all(Some(r), k) <==> ge_all(Some(orig), k) by {
                        assert(ge_all(r.left, k) == (orig.dev.numerical_id >= k && ge_all(
                            orig.left,
                            k,
                        ) && ge_all(y0.left, k)));
                        assert(ge_all(orig.right, k) == (y0.dev.numerical_id >= k && ge_all(
                            y0.left,
                            k,
                        ) && ge_all(y0.right, k)));
                    }
                    assert forall|k: u64| #[trigger]
                        le_all(Some(r), k) <==> le_all(Some(orig), k) by {
                        assert(le_all(r.left, k) == (orig.dev.numerical_id <= k && le_all(
                            orig.left,
                            k,
                        ) && le_all(y0.left, k)));
                        assert(le_all(orig.right, k) == (y0.dev.numerical_id <= k && le_all(
                            y0.left,
                            k,
                        ) && le_all(y0.right, k)));
                    }
                    if ordered(Some(orig)) {
                        assert(ordered(Some(y0)));
                        assert(le_all(Some(y0), orig.dev.numerical_id));
                        lemma_ge_all_narrow(
                            orig.left,
                            orig.dev.numerical_id,
                            y0.dev.numerical_id,
                        );
                        assert(ge_all(r.left, y0.dev.numerical_id));
                        assert(ordered(r.left));
                        assert(ordered(Some(r)));
                    }
                }
                r
            },
        }
    }

    /// One fixup step at the node that has just been rebuilt during the
    /// insertion unwind: `child` is the freshly re-inserted subtree on side
    /// `which` of a node colored `color` holding `dev`; `other` is the
    /// untouched sibling subtree (the new node's uncle sits at its root).
    /// A red uncle means recolor and hand the violation upward; a black or
    /// absent uncle means rotate (twice for a zig-zag chain) and recolor,
    /// which resolves the violation on the spot.
    fn fix_tree(color: Color, dev: IoTDevice, child: Tree, other: Tree, which: RBOperation) -> (r:
        Tree)
        requires
            child.is_some(),
            ordered(child),
            ordered(other),
            near_no_red_red(child),
            no_red_red(other),
            balanced(child),
            balanced(other),
            black_height(child) == black_height(other),
            color == Color::Red ==> !red(other) && no_red_red(child),
            red(child) ==> !(red(child.unwrap().left) && red(child.unwrap().right)),
            which == RBOperation::LeftNode ==> ge_all(child, dev.numerical_id) && le_all(
                other,
                dev.numerical_id,
            ),
            which == RBOperation::RightNode ==> le_all(child, dev.numerical_id) && ge_all(
                other,
                dev.numerical_id,
            ),
        ensures
            r.is_some(),
            ordered(r),
            near_no_red_red(r),
            balanced(r),
            black_height(r) == black_height(child) + (if color == Color::Black {
                1nat
            } else {
                0nat
            }),
            color == Color::Black ==> no_red_red(r),
            color == Color::Red ==> red(r) && !(red(r.unwrap().left) && red(r.unwrap().right)),
            which == RBOperation::LeftNode ==> dev_bag(r) == dev_bag(child).insert(dev@).add(
                dev_bag(other),
            ),
            which == RBOperation::RightNode ==> dev_bag(r) == dev_bag(other).insert(dev@).add(
                dev_bag(child),
            ),
            size(r) == 1 + size(child) + size(other),
            forall|k: u64|
                ge_all(child, k) && ge_all(other, k) && dev.numerical_id >= k ==> #[trigger]
                    ge_all(r, k),
            forall|k: u64|
                le_all(child, k) && le_all(other, k) && dev.numerical_id <= k ==> #[trigger]
                    le_all(r, k),
    {
        let ghost child0 = child;
        let ghost other0 = other;
        let ghost c = child.unwrap();
        match which {
            RBOperation::LeftNode => {
                if color == Color::Red {
                    let r = Some(Box::new(Node { color, dev, left: child, right: other }));
                    proof {
                        assert(ordered(r));
                        assert(dev_bag(r) =~= dev_bag(child0).insert(dev@).add(dev_bag(other0)));
                    }
                    r
                } else {
                    let child_red = Self::is_red(&child);
                    let grandchild_red = match &child {
                        Some(b) => Self::is_red(&b.left) || Self::is_red(&b.right),
                        None => false,
                    };
                    if child_red && grandchild_red {
                        let lbox = child.unwrap();
                        if Self::is_red(&other) {
                            // Red uncle: recolor parent and uncle black, this
                            // node red, and let the caller continue upward.
                            let new_left = paint(lbox, Color::Black);
                            let ubox = other.unwrap();
                            let new_right = paint(ubox, Color::Black);
                            let r = Some(
                                Box::new(
                                    Node {
                                        color: Color::Red,
                                        dev,
                                        left: Some(new_left),
                                        right: Some(new_right),
                                    },
                                ),
                            );
                            proof {
                                assert(dev_bag(Some(new_left)) =~= dev_bag(child0));
                                assert(dev_bag(Some(new_right)) =~= dev_bag(other0));
                                assert(dev_bag(r) =~= dev_bag(child0).insert(dev@).add(
                                    dev_bag(other0),
                                ));
                                assert(size(Some(new_left)) == size(child0));
                                assert(size(Some(new_right)) == size(other0));
                                assert forall|k: u64|
                                    ge_all(child0, k) && ge_all(other0, k) && dev.numerical_id >= k
                                        ==> #[trigger] ge_all(r, k) by {
                                    if ge_all(child0, k) && ge_all(other0, k)
                                        && dev.numerical_id >= k {
                                        assert(ge_all(Some(new_left), k));
                                        assert(ge_all(Some(new_right), k));
                                    }
                                }
                                assert forall|k: u64|
                                    le_all(child0, k) && le_all(other0, k) && dev.numerical_id <= k
                                        ==> #[trigger] le_all(r, k) by {
                                    if le_all(child0, k) && le_all(other0, k)
                                        && dev.numerical_id <= k {
                                        assert(le_all(Some(new_left), k));
                                        assert(le_all(Some(new_right), k));
                                    }
                                }
                                assert(ordered(Some(new_left)) && ge_all(
                                    Some(new_left),
                                    dev.numerical_id,
                                ));
                                assert(ordered(Some(new_right)) && le_all(
                                    Some(new_right),
                                    dev.numerical_id,
                                ));
                                assert(ordered(r));
                                assert(no_red_red(Some(new_left)));
                                assert(no_red_red(Some(new_right)));
                                assert(no_red_red(r));
                                assert(black_height(Some(new_left)) == black_height(child0)
                                    + 1nat);
                                assert(black_height(Some(new_right)) == black_height(other0)
                                    + 1nat);
                                assert(balanced(Some(new_left)));
                                assert(balanced(Some(new_right)));
                                assert(balanced(r));
                            }
                            r
                        } else {
                            // Black or absent uncle: straighten a zig-zag
                            // chain, recolor, and rotate at this node.
                            let straight = if Self::is_red(&lbox.right) {
                                let s = Self::rotate(lbox, Rotation::Left);
                                proof {
                                    let y0 = c.right.unwrap();
                                    let z = s.left.unwrap();
                                    assert(!red(c.left));
                                    assert(no_red_red(c.right));
                                    assert(!red(y0.left) && !red(y0.right));
                                    assert(no_red_red(Some(z)));
                                    assert(no_red_red(s.right));
                                    assert(red(c.right));
                                    assert(balanced(Some(y0)) && balanced(y0.left) && balanced(
                                        y0.right,
                                    ));
                                    assert(black_height(c.right) == black_height(y0.left));
                                    assert(black_height(y0.left) == black_height(y0.right));
                                    assert(black_height(c.left) == black_height(y0.left));
                                    assert(black_height(Some(z)) == black_height(c.left));
                                    assert(balanced(c.left));
                                    assert(balanced(Some(z)));
                                    assert(balanced(Some(s)));
                                    assert(black_height(Some(s)) == black_height(child0));
                                    assert(size(Some(s)) == size(child0));
                                    assert(ge_all(Some(s), dev.numerical_id));
                                }
                                s
                            } else {
                                proof {
                                    assert(red(c.left));
                                }
                                lbox
                            };
                            let ghost st = straight;
                            proof {
                                assert(red(Some(st)));
                                assert(red(st.left));
                                assert(!red(st.right));
                                assert(no_red_red(st.left));
                                assert(no_red_red(st.right));
                                assert(ordered(Some(st)));
                                assert(balanced(Some(st)));
                                assert(black_height(Some(st)) == black_height(child0));
                                assert(black_height(st.left) == black_height(child0));
                                assert(black_height(st.right) == black_height(child0));
                                assert(dev_bag(Some(st)) == dev_bag(child0));
                                assert(size(Some(st)) == size(child0));
                                assert(ge_all(Some(st), dev.numerical_id));
                            }
                            let new_left = paint(straight, Color::Black);
                            let ghost nl = new_left;
                            proof {
                                assert(no_red_red(Some(nl)));
                                assert(ordered(Some(nl)));
                                assert(balanced(Some(nl)));
                                assert(black_height(Some(nl)) == black_height(child0) + 1nat);
                                assert(ge_all(Some(nl), dev.numerical_id));
                                assert(dev_bag(Some(nl)) =~= dev_bag(child0));
                                assert(size(Some(nl)) == size(child0));
                            }
                            let g = Box::new(
                                Node { color: Color::Red, dev, left: Some(new_left), right: other },
                            );
                            let ghost g0 = g;
                            proof {
                                assert(ordered(Some(g0)));
                                assert(g0.left.is_some());
                            }
                            let rbox = Self::rotate(g, Rotation::Right);
                            let r = Some(rbox);
                            proof {
                                let z2 = rbox.right.unwrap();
                                assert(rbox.color == Color::Black);
                                assert(rbox.left == st.left);
                                assert(z2.left == st.right && z2.right == other0);
                                assert(no_red_red(rbox.left));
                                assert(no_red_red(Some(z2)));
                                assert(no_red_red(r));
                                assert(black_height(Some(z2)) == black_height(child0));
                                assert(balanced(Some(z2)));
                                assert(balanced(r));
                                assert(black_height(r) == black_height(child0) + 1nat);
                                assert(ordered(r));
                                assert(dev_bag(Some(g0)) == dev_bag(Some(nl)).insert(dev@).add(
                                    dev_bag(other0),
                                ));
                                assert(dev_bag(r) =~= dev_bag(child0).insert(dev@).add(
                                    dev_bag(other0),
                                ));
                                assert(size(Some(g0)) == 1 + size(child0) + size(other0));
                                assert(size(r) == 1 + size(child0) + size(other0));
                                assert forall|k: u64|
                                    ge_all(child0, k) && ge_all(other0, k) && dev.numerical_id >= k
                                        ==> #[trigger] ge_all(r, k) by {
                                    if ge_all(child0, k) && ge_all(other0, k)
                                        && dev.numerical_id >= k {
                                        assert(ge_all(Some(st), k));
                                        assert(ge_all(Some(nl), k));
                                        assert(ge_all(Some(g0), k));
                                        assert(ge_all(r, k));
                                    }
                                }
                                assert forall|k: u64|
                                    le_all(child0, k) && le_all(other0, k) && dev.numerical_id <= k
                                        ==> #[trigger] le_all(r, k) by {
                                    if le_all(child0, k) && le_all(other0, k)
                                        && dev.numerical_id <= k {
                                        assert(le_all(Some(st), k));
                                        assert(le_all(Some(nl), k));
                                        assert(le_all(Some(g0), k));
                                        assert(le_all(r, k));
                                    }
                                }
                            }
                            r
                        }
                    } else {
                        let r = Some(
                            Box::new(Node { color: Color::Black, dev, left: child, right: other }),
                        );
                        proof {
                            assert(no_red_red(child0));
                            assert(ordered(r));
                            assert(dev_bag(r) =~= dev_bag(child0).insert(dev@).add(
                                dev_bag(other0),
                            ));
                        }
                        r
                    }
                }
            },
            RBOperation::RightNode => {
                if color == Color::Red {
                    let r = Some(Box::new(Node { color, dev, left: other, right: child }));
                    proof {
                        assert(ordered(r));
                        assert(dev_bag(r) =~= dev_bag(other0).insert(dev@).add(dev_bag(child0)));
                    }
                    r
                } else {
                    let child_red = Self::is_red(&child);
                    let grandchild_red = match &child {
                        Some(b) => Self::is_red(&b.left) || Self::is_red(&b.right),
                        None => false,
                    };
                    if child_red && grandchild_red {
                        let rbox0 = child.unwrap();
                        if Self::is_red(&other) {
                            let new_right = paint(rbox0, Color::Black);
                            let ubox = other.unwrap();
                            let new_left = paint(ubox, Color::Black);
                            let r = Some(
                                Box::new(
                                    Node {
                                        color: Color::Red,
                                        dev,
                                        left: Some(new_left),
                                        right: Some(new_right),
                                    },
                                ),
                            );
                            proof {
                                assert(dev_bag(Some(new_right)) =~= dev_bag(child0));
                                assert(dev_bag(Some(new_left)) =~= dev_bag(other0));
                                assert(dev_bag(r) =~= dev_bag(other0).insert(dev@).add(
                                    dev_bag(child0),
                                ));
                                assert(size(Some(new_right)) == size(child0));
                                assert(size(Some(new_left)) == size(other0));
                                assert forall|k: u64|
                                    ge_all(child0, k) && ge_all(other0, k) && dev.numerical_id >= k
                                        ==> #[trigger] ge_all(r, k) by {
                                    if ge_all(child0, k) && ge_all(other0, k)
                                        && dev.numerical_id >= k {
                                        assert(ge_all(Some(new_left), k));
                                        assert(ge_all(Some(new_right), k));
                                    }
                                }
                                assert forall|k: u64|
                                    le_all(child0, k) && le_all(other0, k) && dev.numerical_id <= k
                                        ==> #[trigger] le_all(r, k) by {
                                    if le_all(child0, k) && le_all(other0, k)
                                        && dev.numerical_id <= k {
                                        assert(le_all(Some(new_left), k));
                                        assert(le_all(Some(new_right), k));
                                    }
                                }
                                assert(ordered(Some(new_right)) && le_all(
                                    Some(new_right),
                                    dev.numerical_id,
                                ));
                                assert(ordered(Some(new_left)) && ge_all(
                                    Some(new_left),
                                    dev.numerical_id,
                                ));
                                assert(ordered(r));
                                assert(no_red_red(Some(new_left)));
                                assert(no_red_red(Some(new_right)));
                                assert(no_red_red(r));
                                assert(black_height(Some(new_right)) == black_height(child0)
                                    + 1nat);
                                assert(black_height(Some(new_left)) == black_height(other0)
                                    + 1nat);
                                assert(balanced(Some(new_left)));
                                assert(balanced(Some(new_right)));
                                assert(balanced(r));
                            }
                            r
                        } else {
                            let straight = if Self::is_red(&rbox0.left) {
                                let s = Self::rotate(rbox0, Rotation::Right);
                                proof {
                                    let y0 = c.left.unwrap();
                                    let z = s.right.unwrap();
                                    assert(!red(c.right));
                                    assert(no_red_red(c.left));
                                    assert(!red(y0.left) && !red(y0.right));
                                    assert(no_red_red(Some(z)));
                                    assert(no_red_red(s.left));
                                    assert(red(c.left));
                                    assert(balanced(Some(y0)) && balanced(y0.left) && balanced(
                                        y0.right,
                                    ));
                                    assert(black_height(c.left) == black_height(y0.left));
                                    assert(black_height(y0.left) == black_height(y0.right));
                                    assert(black_height(c.right) == black_height(y0.right));
                                    assert(black_height(Some(z)) == black_height(y0.right));
                                    assert(balanced(c.right));
                                    assert(balanced(Some(z)));
                                    assert(balanced(Some(s)));
                                    assert(black_height(Some(s)) == black_height(child0));
                                    assert(size(Some(s)) == size(child0));
                                    assert(le_all(Some(s), dev.numerical_id));
                                }
                                s
                            } else {
                                proof {
                                    assert(red(c.right));
                                }
                                rbox0
                            };
                            let ghost st = straight;
                            proof {
                                assert(red(Some(st)));
                                assert(red(st.right));
                                assert(!red(st.left));
                                assert(no_red_red(st.left));
                                assert(no_red_red(st.right));
                                assert(ordered(Some(st)));
                                assert(balanced(Some(st)));
                                assert(black_height(Some(st)) == black_height(child0));
                                assert(black_height(st.left) == black_height(child0));
                                assert(black_height(st.right) == black_height(child0));
                                assert(dev_bag(Some(st)) == dev_bag(child0));
                                assert(size(Some(st)) == size(child0));
                                assert(le_all(Some(st), dev.numerical_id));
                            }
                            let new_right = paint(straight, Color::Black);
                            let ghost nr = new_right;
                            proof {
                                assert(no_red_red(Some(nr)));
                                assert(ordered(Some(nr)));
                                assert(balanced(Some(nr)));
                                assert(black_height(Some(nr)) == black_height(child0) + 1nat);
                                assert(le_all(Some(nr), dev.numerical_id));
                                assert(dev_bag(Some(nr)) =~= dev_bag(child0));
                                assert(size(Some(nr)) == size(child0));
                            }
                            let g = Box::new(
                                Node { color: Color::Red, dev, left: other, right: Some(new_right) },
                            );
                            let ghost g0 = g;
                            proof {
                                assert(ordered(Some(g0)));
                                assert(g0.right.is_some());
                            }
                            let rbox = Self::rotate(g, Rotation::Left);
                            let r = Some(rbox);
                            proof {
                                let z2 = rbox.left.unwrap();
                                assert(rbox.color == Color::Black);
                                assert(rbox.right == st.right);
                                assert(z2.right == st.left && z2.left == other0);
                                assert(no_red_red(rbox.right));
                                assert(no_red_red(Some(z2)));
                                assert(no_red_red(r));
                                assert(black_height(Some(z2)) == black_height(child0));
                                assert(balanced(Some(z2)));
                                assert(balanced(r));
                                assert(black_height(r) == black_height(child0) + 1nat);
                                assert(ordered(r));
                                assert(dev_bag(Some(g0)) == dev_bag(other0).insert(dev@).add(
                                    dev_bag(Some(nr)),
                                ));
                                assert(dev_bag(r) =~= dev_bag(other0).insert(dev@).add(
                                    dev_bag(child0),
                                ));
                                assert(size(Some(g0)) == 1 + size(child0) + size(other0));
                                assert(size(r) == 1 + size(child0) + size(other0));
                                assert forall|k: u64|
                                    ge_all(child0, k) && ge_all(other0, k) && dev.numerical_id >= k
                                        ==> #[trigger] ge_all(r, k) by {
                                    if ge_all(child0, k) && ge_all(other0, k)
                                        && dev.numerical_id >= k {
                                        assert(ge_all(Some(st), k));
                                        assert(ge_all(Some(nr), k));
                                        assert(ge_all(Some(g0), k));
                                        assert(ge_all(r, k));
                                    }
                                }
                                assert forall|k: u64|
                                    le_all(child0, k) && le_all(other0, k) && dev.numerical_id <= k
                                        ==> #[trigger] le_all(r, k) by {
                                    if le_all(child0, k) && le_all(other0, k)
                                        && dev.numerical_id <= k {
                                        assert(le_all(Some(st), k));
                                        assert(le_all(Some(nr), k));
                                        assert(le_all(Some(g0), k));
                                        assert(le_all(r, k));
                                    }
                                }
                            }
                            r
                        }
                    } else {
                        let r = Some(
                            Box::new(Node { color: Color::Black, dev, left: other, right: child }),
                        );
                        proof {
                            assert(no_red_red(child0));
                            assert(ordered(r));
                            assert(dev_bag(r) =~= dev_bag(other0).insert(dev@).add(
                                dev_bag(child0),
                            ));
                        }
                        r
                    }
                }
            },
        }
    }


    /// Recursive descent to the insertion point; the new red leaf is placed
    /// at an absent child, and every level of the unwind runs one fixup
    /// step, so the walk from the new node back to the root is the
    /// recursion unwinding itself.
    fn add_r(node: Tree, device: IoTDevice) -> (r: Tree)
        requires
            ordered(node),
            no_red_red(node),
            balanced(node),
        ensures
            r.is_some(),
            ordered(r),
            near_no_red_red(r),
            balanced(r),
            black_height(r) == black_height(node),
            !red(node) ==> no_red_red(r),
            red(node) ==> red(r) && !(red(r.unwrap().left) && red(r.unwrap().right)),
            dev_bag(r) == dev_bag(node).insert(device@),
            size(r) == size(node) + 1,
            forall|k: u64|
                ge_all(node, k) && device.numerical_id >= k ==> #[trigger] ge_all(r, k),
            forall|k: u64|
                le_all(node, k) && device.numerical_id <= k ==> #[trigger] le_all(r, k),
        decreases node,
    {
        match node {
            None => {
                let r = Node::new(device);
                proof {
                    assert(dev_bag(r) =~= dev_bag(node).insert(device@));
                }
                r
            },
            Some(n) => {
                let ghost orig = n;
                let Node { color, dev, left, right } = *n;
                match Self::check(&dev, &device) {
                    RBOperation::LeftNode => {
                        let l2 = Self::add_r(left, device);
                        proof {
                            assert(ge_all(l2, dev.numerical_id));
                            if color == Color::Red {
                                assert(!red(orig.left));
                                assert(no_red_red(l2));
                            }
                        }
                        let r = Self::fix_tree(color, dev, l2, right, RBOperation::LeftNode);
                        proof {
                            assert(dev_bag(r) =~= dev_bag(node).insert(device@));
                            assert(black_height(r) == black_height(node));
                            if color == Color::Red {
                                assert(red(r));
                            }
                            assert forall|k: u64|
                                ge_all(node, k) && device.numerical_id >= k ==> #[trigger]
                                    ge_all(r, k) by {
                                if ge_all(node, k) && device.numerical_id >= k {
                                    assert(ge_all(l2, k));
                                }
                            }
                            assert forall|k: u64|
                                le_all(node, k) && device.numerical_id <= k ==> #[trigger]
                                    le_all(r, k) by {
                                if le_all(node, k) && device.numerical_id <= k {
                                    assert(le_all(l2, k));
                                }
                            }
                        }
                        r
                    },
                    RBOperation::RightNode => {
                        let r2 = Self::add_r(right, device);
                        proof {
                            assert(le_all(r2, dev.numerical_id));
                            if color == Color::Red {
                                assert(!red(orig.right));
                                assert(no_red_red(r2));
                            }
                        }
                        let r = Self::fix_tree(color, dev, r2, left, RBOperation::RightNode);
                        proof {
                            assert(dev_bag(r) =~= dev_bag(node).insert(device@));
                            assert(black_height(r) == black_height(node));
                            assert forall|k: u64|
                                ge_all(node, k) && device.numerical_id >= k ==> #[trigger]
                                    ge_all(r, k) by {
                                if ge_all(node, k) && device.numerical_id >= k {
                                    assert(ge_all(r2, k));
                                }
                            }
                            assert forall|k: u64|
                                le_all(node, k) && device.numerical_id <= k ==> #[trigger]
                                    le_all(r, k) by {
                                if le_all(node, k) && device.numerical_id <= k {
                                    assert(le_all(r2, k));
                                }
                            }
                        }
                        r
                    },
                }
            },
        }
    }

    /// Insert a device: descend by the comparison policy, place a red
    /// leaf, rebalance on the way back up, and force the root black.
    pub fn add(&mut self, device: IoTDevice)
        requires
            old(self).inv(),
            old(self).length < u64::MAX,
        ensures
            final(self).inv(),
            final(self).length == old(self).length + 1,
            final(self).devices() == old(self).devices().insert(device@),
    {
        self.length = self.length + 1;
        let root = self.root.take();
        let new_root = Self::add_r(root, device);
        let ghost nr = new_root;
        let rbox = new_root.unwrap();
        let rbox = paint(rbox, Color::Black);
        proof {
            assert(no_red_red(Some(rbox)));
            assert(ordered(Some(rbox)));
            assert(balanced(Some(rbox)));
            assert(dev_bag(Some(rbox)) =~= dev_bag(nr));
            assert(size(Some(rbox)) == size(nr));
        }
        self.root = Some(rbox);
    }

    pub fn find(&self, numerical_id: u64) -> (r: Option<IoTDevice>)
        requires
            self.inv(),
        ensures
            r.is_some() == self.has_device(numerical_id),
            (r matches Some(d) ==> d.numerical_id == numerical_id && self.devices().contains(d@)),
    {
        let probe = IoTDevice::new(numerical_id, String::new());
        Self::find_r(&self.root, &probe)
    }

    fn find_r(node: &Tree, dev: &IoTDevice) -> (r: Option<IoTDevice>)
        requires
            ordered(*node),
        ensures
            r.is_some() == has_key(*node, dev.numerical_id),
            (r matches Some(d) ==> d.numerical_id == dev.numerical_id && dev_bag(*node).contains(
                d@,
            )),
        decreases *node,
    {
        match node {
            Some(n) => {
                if n.dev.numerical_id == dev.numerical_id {
                    let d = n.dev.clone();
                    assert(dev_bag(*node).contains(d@));
                    Some(d)
                } else {
                    match Self::check(&n.dev, dev) {
                        RBOperation::LeftNode => {
                            proof {
                                lemma_le_all_no_key(n.right, n.dev.numerical_id, dev.numerical_id);
                            }
                            let r = Self::find_r(&n.left, dev);
                            proof {
                                match r {
                                    Some(ref d) => lemma_bag_up(*n, d@),
                                    None => (),
                                }
                            }
                            r
                        },
                        RBOperation::RightNode => {
                            proof {
                                lemma_ge_all_no_key(n.left, n.dev.numerical_id, dev.numerical_id);
                            }
                            let r = Self::find_r(&n.right, dev);
                            proof {
                                match r {
                                    Some(ref d) => lemma_bag_up(*n, d@),
                                    None => (),
                                }
                            }
                            r
                        },
                    }
                }
            },
            None => None,
        }
    }

    /// In-order traversal: the devices in walk order, leftmost first.
    pub fn walk(&self) -> (r: Vec<IoTDevice>)
        ensures
            r@.map_values(|d: IoTDevice| d@) == self.in_order(),
    {
        let mut out: Vec<IoTDevice> = Vec::new();
        proof {
            assert(out@.map_values(|d: IoTDevice| d@) =~= Seq::<(u64, Seq<char>)>::empty());
        }
        Self::walk_in_order(&self.root, &mut out);
        out
    }

    fn walk_in_order(node: &Tree, out: &mut Vec<IoTDevice>)
        ensures
            final(out)@.map_values(|d: IoTDevice| d@) == old(out)@.map_values(|d: IoTDevice| d@)
                + dev_seq(*node),
        decreases *node,
    {
        match node {
            Some(n) => {
                Self::walk_in_order(&n.left, out);
                let ghost mid = out@;
                out.push(n.dev.clone());
                proof {
                    assert(out@.map_values(|d: IoTDevice| d@) =~= mid.map_values(
                        |d: IoTDevice| d@,
                    ) + seq![n.dev@]);
                }
                Self::walk_in_order(&n.right, out);
                proof {
                    assert(final(out)@.map_values(|d: IoTDevice| d@) =~= old(out)@.map_values(
                        |d: IoTDevice| d@,
                    ) + dev_seq(*node));
                }
            },
            None => {
                proof {
                    assert(final(out)@.map_values(|d: IoTDevice| d@) =~= old(out)@.map_values(
                        |d: IoTDevice| d@,
                    ) + dev_seq(*node));
                }
            },
        }
    }

    pub fn is_a_valid_red_black_tree(&self) -> (r: bool)
        requires
            self.inv(),
        ensures
            r == self.rb_shape_ok(),
    {
        proof {
            lemma_height_le_size(self.root);
            lemma_counts(self.root);
        }
        let result = Self::validate(&self.root, Color::Red, 0);
        let red_red = result.0;
        let black_height_min = result.1;
        let black_height_max = result.2;
        red_red == 0 && black_height_min == black_height_max
    }

    /// Red-red violations, minimum black height, maximum black height.
    fn validate(node: &Tree, parent_color: Color, black_height: u64) -> (r: (u64, u64, u64))
        requires
            black_height + height(*node) <= u64::MAX,
            size(*node) <= u64::MAX,
        ensures
            r.0 == rr_count(*node, parent_color),
            r.0 <= size(*node),
            r.1 == black_height + min_bh(*node),
            r.2 == black_height + max_bh(*node),
        decreases *node,
    {
        match node {
            Some(n) => {
                let red_red: u64 = if parent_color == Color::Red && n.color == Color::Red {
                    1
                } else {
                    0
                };
                let next_height: u64 = black_height + match n.color {
                    Color::Black => 1,
                    _ => 0,
                };
                proof {
                    lemma_counts(*node);
                    lemma_counts(n.left);
                    lemma_counts(n.right);
                    lemma_bh_le_height(n.left);
                    lemma_bh_le_height(n.right);
                }
                let l = Self::validate(&n.left, n.color, next_height);
                let r = Self::validate(&n.right, n.color, next_height);
                let min_h = if l.1 <= r.1 {
                    l.1
                } else {
                    r.1
                };
                let max_h = if l.2 >= r.2 {
                    l.2
                } else {
                    r.2
                };
                (red_red + l.0 + r.0, min_h, max_h)
            },
            None => (0, black_height, black_height),
        }
    }
}

/// The maximum black height never exceeds the node height.
proof fn lemma_bh_le_height(t: Tree)
    ensures
        max_bh(t) <= height(t),
        min_bh(t) <= max_bh(t),
    decreases t,
{
    match t {
        None => {},
        Some(n) => {
            lemma_bh_le_height(n.left);
            lemma_bh_le_height(n.right);
        },
    }
}

/// A chain of nodes is never longer than the node count.
proof fn lemma_height_le_size(t: Tree)
    ensures
        height(t) <= size(t),
    decreases t,
{
    match t {
        None => {},
        Some(n) => {
            lemma_height_le_size(n.left);
            lemma_height_le_size(n.right);
        },
    }
}

// ---------------------------------------------------------------------
// Laws: the properties the index is meant to keep.
// ---------------------------------------------------------------------

/// A clean tree whose root does not clash with `pc` has no counted
/// violation.
proof fn lemma_rr_zero(t: Tree, pc: Color)
    requires
        no_red_red(t),
        pc == Color::Red ==> !red(t),
    ensures
        rr_count(t, pc) == 0,
    decreases t,
{
    match t {
        None => {},
        Some(n) => {
            lemma_rr_zero(n.left, n.color);
            lemma_rr_zero(n.right, n.color);
        },
    }
}

/// With a uniform black height, the shortest and the longest black
/// counts agree with it.
proof fn lemma_balanced_bh(t: Tree)
    requires
        balanced(t),
    ensures
        min_bh(t) == black_height(t),
        max_bh(t) == black_height(t),
    decreases t,
{
    match t {
        None => {},
        Some(n) => {
            lemma_balanced_bh(n.left);
            lemma_balanced_bh(n.right);
        },
    }
}

/// Every key of a tree bounded below by `k` shows up in the walk bounded
/// below by `k`.
proof fn lemma_ge_all_seq(t: Tree, k: u64)
    requires
        ge_all(t, k),
    ensures
        forall|i: int| 0 <= i < dev_seq(t).len() ==> #[trigger] dev_seq(t)[i].0 >= k,
    decreases t,
{
    match t {
        None => {},
        Some(n) => {
            lemma_ge_all_seq(n.left, k);
            lemma_ge_all_seq(n.right, k);
            let l = dev_seq(n.left);
            assert forall|i: int| 0 <= i < dev_seq(t).len() implies #[trigger] dev_seq(t)[i].0
                >= k by {
                if i < l.len() {
                    assert(dev_seq(t)[i] == l[i]);
                } else if i == l.len() {
                    assert(dev_seq(t)[i] == n.dev@);
                } else {
                    assert(dev_seq(t)[i] == dev_seq(n.right)[i - l.len() - 1]);
                }
            }
        },
    }
}

/// Every key of a tree bounded above by `k` shows up in the walk bounded
/// above by `k`.
proof fn lemma_le_all_seq(t: Tree, k: u64)
    requires
        le_all(t, k),
    ensures
        forall|i: int| 0 <= i < dev_seq(t).len() ==> #[trigger] dev_seq(t)[i].0 <= k,
    decreases t,
{
    match t {
        None => {},
        Some(n) => {
            lemma_le_all_seq(n.left, k);
            lemma_le_all_seq(n.right, k);
            let l = dev_seq(n.left);
            assert forall|i: int| 0 <= i < dev_seq(t).len() implies #[trigger] dev_seq(t)[i].0
                <= k by {
                if i < l.len() {
                    assert(dev_seq(t)[i] == l[i]);
                } else if i == l.len() {
                    assert(dev_seq(t)[i] == n.dev@);
                } else {
                    assert(dev_seq(t)[i] == dev_seq(n.right)[i - l.len() - 1]);
                }
            }
        },
    }
}

/// An ordered tree walks its keys in non-increasing order.
proof fn lemma_ordered_sorted(t: Tree)
    requires
        ordered(t),
    ensures
        forall|i: int, j: int|
            #![trigger dev_seq(t)[i], dev_seq(t)[j]]
            0 <= i <= j < dev_seq(t).len() ==> dev_seq(t)[i].0 >= dev_seq(t)[j].0,
    decreases t,
{
    match t {
        None => {},
        Some(n) => {
            lemma_ordered_sorted(n.left);
            lemma_ordered_sorted(n.right);
            lemma_ge_all_seq(n.left, n.dev.numerical_id);
            lemma_le_all_seq(n.right, n.dev.numerical_id);
            let l = dev_seq(n.left);
            let rr = dev_seq(n.right);
            assert forall|i: int, j: int|
                0 <= i <= j < dev_seq(t).len() implies dev_seq(t)[i].0 >= dev_seq(t)[j].0 by {
                if i < l.len() {
                    assert(dev_seq(t)[i] == l[i]);
                } else if i == l.len() {
                    assert(dev_seq(t)[i] == n.dev@);
                } else {
                    assert(dev_seq(t)[i] == rr[i - l.len() - 1]);
                }
                if j < l.len() {
                    assert(dev_seq(t)[j] == l[j]);
                } else if j == l.len() {
                    assert(dev_seq(t)[j] == n.dev@);
                } else {
                    assert(dev_seq(t)[j] == rr[j - l.len() - 1]);
                }
            }
        },
    }
}

/// The height of a clean, balanced tree is at most twice its black
/// height, plus one for a red root.
proof fn lemma_height_bh(t: Tree)
    requires
        no_red_red(t),
        balanced(t),
    ensures
        height(t) <= 2 * black_height(t) + if red(t) {
            1nat
        } else {
            0nat
        },
    decreases t,
{
    match t {
        None => {},
        Some(n) => {
            lemma_height_bh(n.left);
            lemma_height_bh(n.right);
        },
    }
}

/// A tree of uniform black height `b` holds at least `2^b - 1` nodes.
proof fn lemma_size_pow2(t: Tree)
    requires
        balanced(t),
    ensures
        size(t) + 1 >= pow2(black_height(t)),
    decreases t,
{
    match t {
        None => {
            lemma2_to64();
        },
        Some(n) => {
            lemma_size_pow2(n.left);
            lemma_size_pow2(n.right);
            if n.color == Color::Black {
                lemma_pow2_adds(black_height(n.left), 1);
                lemma2_to64();
            }
        },
    }
}

impl BetterDeviceRegistry {
    /// Order law: an in-order walk of the index yields keys in
    /// non-increasing order (ties are allowed, duplicates included).
    pub proof fn lemma_walk_sorted(&self)
        requires
            self.inv(),
        ensures
            forall|i: int, j: int|
                #![trigger self.in_order()[i], self.in_order()[j]]
                0 <= i <= j < self.in_order().len() ==> self.in_order()[i].0
                    >= self.in_order()[j].0,
    {
        lemma_ordered_sorted(self.root);
    }

    /// Count law: the walk visits exactly `length` devices, and the
    /// multiset of stored devices has exactly `length` members.
    pub proof fn lemma_length_counts(&self)
        requires
            self.inv(),
        ensures
            self.in_order().len() == self.length,
            self.devices().len() == self.length,
    {
        lemma_counts(self.root);
    }

    /// Shape law: the structural invariant kept by every insertion makes
    /// the validator pass — no red-red pair is counted and the extreme
    /// black heights agree.
    pub proof fn lemma_inv_shape(&self)
        requires
            self.inv(),
        ensures
            self.rb_shape_ok(),
    {
        lemma_rr_zero(self.root, Color::Red);
        lemma_balanced_bh(self.root);
    }

    /// Lookup law: a key is found exactly when some stored device
    /// carries it.
    pub proof fn lemma_device_present(&self, numerical_id: u64)
        ensures
            self.has_device(numerical_id) <==> exists|d: (u64, Seq<char>)|
                self.devices().contains(d) && d.0 == numerical_id,
    {
        lemma_has_key_bag(self.root, numerical_id);
        if self.has_device(numerical_id) {
            let d = choose|d: (u64, Seq<char>)|
                dev_bag(self.root).contains(d) && d.0 == numerical_id;
            assert(self.devices().contains(d) && d.0 == numerical_id);
        }
        if exists|d: (u64, Seq<char>)| self.devices().contains(d) && d.0 == numerical_id {
            let d = choose|d: (u64, Seq<char>)|
                self.devices().contains(d) && d.0 == numerical_id;
            assert(dev_bag(self.root).contains(d));
        }
    }

    /// Balance law: the height is at most `2 * log2(length + 1)`, stated
    /// without logarithms as `2^height <= (length + 1)^2`.
    pub proof fn lemma_balance_bound(&self)
        requires
            self.inv(),
        ensures
            pow2(self.tree_height()) <= (self.length + 1) * (self.length + 1),
    {
        let t = self.root;
        lemma_height_bh(t);
        lemma_size_pow2(t);
        let b = black_height(t);
        let h = height(t);
        assert(h <= 2 * b);
        if h < 2 * b {
            lemma_pow2_strictly_increases(h, 2 * b);
        }
        lemma_pow2_adds(b, b);
        lemma_mul_upper_bound(
            pow2(b) as int,
            (self.length + 1) as int,
            pow2(b) as int,
            (self.length + 1) as int,
        );
    }
}

} // verus!
