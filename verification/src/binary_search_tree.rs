//! A plain, unbalanced binary search tree over devices with the same
//! query contract as the balanced index: a simple reference oracle.

use vstd::prelude::*;

use crate::device::IoTDevice;
use vstd::multiset::Multiset;

verus! {

broadcast use vstd::multiset::group_multiset_axioms, vstd::multiset::group_multiset_properties;

/// A tree cell of the unbalanced index: a device and two owned subtrees.
pub struct Node {
    pub dev: IoTDevice,
    pub left: Tree,
    pub right: Tree,
}

pub type Tree = Option<Box<Node>>;

/// Number of nodes.
spec fn size(t: Tree) -> nat
    decreases t,
{
    match t {
        None => 0,
        Some(n) => 1 + size(n.left) + size(n.right),
    }
}

/// The in-order sequence of device views.
spec fn dev_seq(t: Tree) -> Seq<(u64, Seq<char>)>
    decreases t,
{
    match t {
        None => Seq::empty(),
        Some(n) => dev_seq(n.left) + seq![n.dev@] + dev_seq(n.right),
    }
}

/// The devices held by the tree, as a multiset.
spec fn dev_bag(t: Tree) -> Multiset<(u64, Seq<char>)>
    decreases t,
{
    match t {
        None => Multiset::empty(),
        Some(n) => dev_bag(n.left).insert(n.dev@).add(dev_bag(n.right)),
    }
}

/// Every key in the tree is at least `k`.
spec fn ge_all(t: Tree, k: u64) -> bool
    decreases t,
{
    match t {
        None => true,
        Some(n) => n.dev.numerical_id >= k && ge_all(n.left, k) && ge_all(n.right, k),
    }
}

/// Every key in the tree is at most `k`.
spec fn le_all(t: Tree, k: u64) -> bool
    decreases t,
{
    match t {
        None => true,
        Some(n) => n.dev.numerical_id <= k && le_all(n.left, k) && le_all(n.right, k),
    }
}

/// The mirrored search order: greater-or-equal keys go left, smaller
/// keys go right.
spec fn ordered(t: Tree) -> bool
    decreases t,
{
    match t {
        None => true,
        Some(n) => ordered(n.left) && ordered(n.right) && ge_all(n.left, n.dev.numerical_id)
            && le_all(n.right, n.dev.numerical_id),
    }
}

/// Some node carries key `k`.
spec fn has_key(t: Tree, k: u64) -> bool
    decreases t,
{
    match t {
        None => false,
        Some(n) => n.dev.numerical_id == k || has_key(n.left, k) || has_key(n.right, k),
    }
}

/// A tree bounded below holds no smaller key.
proof fn lemma_ge_all_no_key(t: Tree, bound: u64, k: u64)
    requires
        ge_all(t, bound),
        k < bound,
    ensures
        !has_key(t, k),
    decreases t,
{
    match t {
        None => {},
        Some(n) => {
            lemma_ge_all_no_key(n.left, bound, k);
            lemma_ge_all_no_key(n.right, bound, k);
        },
    }
}

/// A tree bounded above holds no greater key.
proof fn lemma_le_all_no_key(t: Tree, bound: u64, k: u64)
    requires
        le_all(t, bound),
        k > bound,
    ensures
        !has_key(t, k),
    decreases t,
{
    match t {
        None => {},
        Some(n) => {
            lemma_le_all_no_key(n.left, bound, k);
            lemma_le_all_no_key(n.right, bound, k);
        },
    }
}

/// The walk and the multiset both count one entry per node.
proof fn lemma_counts(t: Tree)
    ensures
        dev_seq(t).len() == size(t),
        dev_bag(t).len() == size(t),
    decreases t,
{
    match t {
        None => {},
        Some(n) => {
            lemma_counts(n.left);
            lemma_counts(n.right);
        },
    }
}

/// Membership in the device multiset is the same as `has_key`.
proof fn lemma_has_key_bag(t: Tree, k: u64)
    ensures
        has_key(t, k) <==> exists|d: (u64, Seq<char>)| dev_bag(t).contains(d) && d.0 == k,
    decreases t,
{
    match t {
        None => {},
        Some(n) => {
            lemma_has_key_bag(n.left, k);
            lemma_has_key_bag(n.right, k);
            if has_key(t, k) {
                if n.dev.numerical_id == k {
                    assert(dev_bag(t).contains(n.dev@));
                } else if has_key(n.left, k) {
                    let d = choose|d: (u64, Seq<char>)| dev_bag(n.left).contains(d) && d.0 == k;
                    assert(dev_bag(t).contains(d));
                } else {
                    let d = choose|d: (u64, Seq<char>)| dev_bag(n.right).contains(d) && d.0 == k;
                    assert(dev_bag(t).contains(d));
                }
            }
            if exists|d: (u64, Seq<char>)| dev_bag(t).contains(d) && d.0 == k {
                let d = choose|d: (u64, Seq<char>)| dev_bag(t).contains(d) && d.0 == k;
                if d != n.dev@ {
                    assert(dev_bag(n.left).contains(d) || dev_bag(n.right).contains(d));
                }
            }
        },
    }
}

/// A device found in a subtree is in the whole tree's multiset.
proof fn lemma_bag_up(n: Box<Node>, d: (u64, Seq<char>))
    requires
        dev_bag(n.left).contains(d) || dev_bag(n.right).contains(d),
    ensures
        dev_bag(Some(n)).contains(d),
{
}

/// Keys of a tree bounded below stay bounded in the walk.
proof fn lemma_ge_all_seq(t: Tree, k: u64)
    requires
        ge_all(t, k),
    ensures
        forall|i: int| 0 <= i < dev_seq(t).len() ==> #[trigger] dev_seq(t)[i].0 >= k,
    decreases t,
{
    match t {
        None => {},
        Some(n) => {
            lemma_ge_all_seq(n.left, k);
            lemma_ge_all_seq(n.right, k);
            let l = dev_seq(n.left);
            assert forall|i: int| 0 <= i < dev_seq(t).len() implies #[trigger] dev_seq(t)[i].0
                >= k by {
                if i < l.len() {
                    assert(dev_seq(t)[i] == l[i]);
                } else if i == l.len() {
                    assert(dev_seq(t)[i] == n.dev@);
                } else {
                    assert(dev_seq(t)[i] == dev_seq(n.right)[i - l.len() - 1]);
                }
            }
        },
    }
}

/// Keys of a tree bounded above stay bounded in the walk.
proof fn lemma_le_all_seq(t: Tree, k: u64)
    requires
        le_all(t, k),
    ensures
        forall|i: int| 0 <= i < dev_seq(t).len() ==> #[trigger] dev_seq(t)[i].0 <= k,
    decreases t,
{
    match t {
        None => {},
        Some(n) => {
            lemma_le_all_seq(n.left, k);
            lemma_le_all_seq(n.right, k);
            let l = dev_seq(n.left);
            assert forall|i: int| 0 <= i < dev_seq(t).len() implies #[trigger] dev_seq(t)[i].0
                <= k by {
                if i < l.len() {
                    assert(dev_seq(t)[i] == l[i]);
                } else if i == l.len() {
                    assert(dev_seq(t)[i] == n.dev@);
                } else {
                    assert(dev_seq(t)[i] == dev_seq(n.right)[i - l.len() - 1]);
                }
            }
        },
    }
}

/// An ordered tree walks its keys in non-increasing order.
proof fn lemma_ordered_sorted(t: Tree)
    requires
        ordered(t),
    ensures
        forall|i: int, j: int|
            #![trigger dev_seq(t)[i], dev_seq(t)[j]]
            0 <= i <= j < dev_seq(t).len() ==> dev_seq(t)[i].0 >= dev_seq(t)[j].0,
    decreases t,
{
    match t {
        None => {},
        Some(n) => {
            lemma_ordered_sorted(n.left);
            lemma_ordered_sorted(n.right);
            lemma_ge_all_seq(n.left, n.dev.numerical_id);
            lemma_le_all_seq(n.right, n.dev.numerical_id);
            let l = dev_seq(n.left);
            let rr = dev_seq(n.right);
            assert forall|i: int, j: int|
                0 <= i <= j < dev_seq(t).len() implies dev_seq(t)[i].0 >= dev_seq(t)[j].0 by {
                if i < l.len() {
                    assert(dev_seq(t)[i] == l[i]);
                } else if i == l.len() {
                    assert(dev_seq(t)[i] == n.dev@);
                } else {
                    assert(dev_seq(t)[i] == rr[i - l.len() - 1]);
                }
                if j < l.len() {
                    assert(dev_seq(t)[j] == l[j]);
                } else if j == l.len() {
                    assert(dev_seq(t)[j] == n.dev@);
                } else {
                    assert(dev_seq(t)[j] == rr[j - l.len() - 1]);
                }
            }
        },
    }
}

impl Node {
    /// A fresh leaf holding `dev`.
    pub fn new(dev: IoTDevice) -> (t: Tree)
        ensures
            (t matches Some(n) && n.dev == dev && n.left.is_none() && n.right.is_none()),
    {
        Some(Box::new(Node { dev, left: None, right: None }))
    }
}

/// A device index backed by an unbalanced binary search tree; it keeps
/// the same query contract as the balanced index and serves as its
/// simple reference.
pub struct DeviceRegistry {
    pub root: Tree,
    pub length: u64,
}

impl DeviceRegistry {
    /// Search order holds everywhere and `length` counts the nodes.
    pub closed spec fn inv(&self) -> bool {
        &&& ordered(self.root)
        &&& self.length == size(self.root)
    }

    /// The devices stored, with multiplicity.
    pub closed spec fn devices(&self) -> Multiset<(u64, Seq<char>)> {
        dev_bag(self.root)
    }

    /// The devices stored, in walk order.
    pub closed spec fn in_order(&self) -> Seq<(u64, Seq<char>)> {
        dev_seq(self.root)
    }

    /// Whether some stored device carries the key.
    pub closed spec fn has_device(&self, numerical_id: u64) -> bool {
        has_key(self.root, numerical_id)
    }

    pub fn new_empty() -> (r: Self)
        ensures
            r.inv(),
            r.length == 0,
            r.devices() == Multiset::<(u64, Seq<char>)>::empty(),
            r.in_order() == Seq::<(u64, Seq<char>)>::empty(),
            forall|id: u64| !r.has_device(id),
    {
        DeviceRegistry { root: None, length: 0 }
    }

    /// Insert a device; duplicates are accepted and placed to the left.
    pub fn add(&mut self, device: IoTDevice)
        requires
            old(self).inv(),
            old(self).length < u64::MAX,
        ensures
            final(self).inv(),
            final(self).length == old(self).length + 1,
            final(self).devices() == old(self).devices().insert(device@),
    {
        self.length = self.length + 1;
        let root = self.root.take();
        self.root = Self::add_rec(root, device);
    }

    fn add_rec(node: Tree, device: IoTDevice) -> (r: Tree)
        requires
            ordered(node),
        ensures
            r.is_some(),
            ordered(r),
            dev_bag(r) == dev_bag(node).insert(device@),
            size(r) == size(node) + 1,
            forall|k: u64|
                ge_all(node, k) && device.numerical_id >= k ==> #[trigger] ge_all(r, k),
            forall|k: u64|
                le_all(node, k) && device.numerical_id <= k ==> #[trigger] le_all(r, k),
        decreases node,
    {
        match node {
            Some(n) => {
                let ghost orig = n;
                let Node { dev, left, right } = *n;
                if dev.numerical_id <= device.numerical_id {
                    let l2 = Self::add_rec(left, device);
                    let r = Some(Box::new(Node { dev, left: l2, right }));
                    proof {
                        assert(ge_all(l2, dev.numerical_id));
                        assert(ordered(r));
                        assert(dev_bag(r) =~= dev_bag(node).insert(device@));
                        assert forall|k: u64|
                            ge_all(node, k) && device.numerical_id >= k implies #[trigger]
                            ge_all(r, k) by {
                            assert(ge_all(l2, k));
                        }
                        assert forall|k: u64|
                            le_all(node, k) && device.numerical_id <= k implies #[trigger]
                            le_all(r, k) by {
                            assert(le_all(l2, k));
                        }
                    }
                    r
                } else {
                    let r2 = Self::add_rec(right, device);
                    let r = Some(Box::new(Node { dev, left, right: r2 }));
                    proof {
                        assert(le_all(r2, dev.numerical_id));
                        assert(ordered(r));
                        assert(dev_bag(r) =~= dev_bag(node).insert(device@));
                        assert forall|k: u64|
                            ge_all(node, k) && device.numerical_id >= k implies #[trigger]
                            ge_all(r, k) by {
                            assert(ge_all(r2, k));
                        }
                        assert forall|k: u64|
                            le_all(node, k) && device.numerical_id <= k implies #[trigger]
                            le_all(r, k) by {
                            assert(le_all(r2, k));
                        }
                    }
                    r
                }
            },
            None => {
                let r = Node::new(device);
                proof {
                    assert(dev_bag(r) =~= dev_bag(node).insert(device@));
                }
                r
            },
        }
    }

    pub fn find(&self, numerical_id: u64) -> (r: Option<IoTDevice>)
        requires
            self.inv(),
        ensures
            r.is_some() == self.has_device(numerical_id),
            (r matches Some(d) ==> d.numerical_id == numerical_id && self.devices().contains(d@)),
    {
        Self::find_r(&self.root, numerical_id)
    }

    fn find_r(node: &Tree, numerical_id: u64) -> (r: Option<IoTDevice>)
        requires
            ordered(*node),
        ensures
            r.is_some() == has_key(*node, numerical_id),
            (r matches Some(d) ==> d.numerical_id == numerical_id && dev_bag(*node).contains(
                d@,
            )),
        decreases *node,
    {
        match node {
            Some(n) => {
                if n.dev.numerical_id == numerical_id {
                    let d = n.dev.clone();
                    assert(dev_bag(*node).contains(d@));
                    Some(d)
                } else if n.dev.numerical_id < numerical_id {
                    proof {
                        lemma_le_all_no_key(n.right, n.dev.numerical_id, numerical_id);
                    }
                    let r = Self::find_r(&n.left, numerical_id);
                    proof {
                        match r {
                            Some(ref d) => lemma_bag_up(*n, d@),
                            None => (),
                        }
                    }
                    r
                } else {
                    proof {
                        lemma_ge_all_no_key(n.left, n.dev.numerical_id, numerical_id);
                    }
                    let r = Self::find_r(&n.right, numerical_id);
                    proof {
                        match r {
                            Some(ref d) => lemma_bag_up(*n, d@),
                            None => (),
                        }
                    }
                    r
                }
            },
            None => None,
        }
    }

    /// In-order traversal: the devices in walk order, leftmost first.
    pub fn walk(&self) -> (r: Vec<IoTDevice>)
        ensures
            r@.map_values(|d: IoTDevice| d@) == self.in_order(),
    {
        let mut out: Vec<IoTDevice> = Vec::new();
        proof {
            assert(out@.map_values(|d: IoTDevice| d@) =~= Seq::<(u64, Seq<char>)>::empty());
        }
        Self::walk_in_order(&self.root, &mut out);
        out
    }

    fn walk_in_order(node: &Tree, out: &mut Vec<IoTDevice>)
        ensures
            final(out)@.map_values(|d: IoTDevice| d@) == old(out)@.map_values(|d: IoTDevice| d@)
                + dev_seq(*node),
        decreases *node,
    {
        match node {
            Some(n) => {
                Self::walk_in_order(&n.left, out);
                let ghost mid = out@;
                out.push(n.dev.clone());
                proof {
                    assert(out@.map_values(|d: IoTDevice| d@) =~= mid.map_values(
                        |d: IoTDevice| d@,
                    ) + seq![n.dev@]);
                }
                Self::walk_in_order(&n.right, out);
                proof {
                    assert(final(out)@.map_values(|d: IoTDevice| d@) =~= old(out)@.map_values(
                        |d: IoTDevice| d@,
                    ) + dev_seq(*node));
                }
            },
            None => {
                proof {
                    assert(final(out)@.map_values(|d: IoTDevice| d@) =~= old(out)@.map_values(
                        |d: IoTDevice| d@,
                    ) + dev_seq(*node));
                }
            },
        }
    }

    /// Order law: an in-order walk of the index yields keys in
    /// non-increasing order (ties are allowed, duplicates included).
    pub proof fn lemma_walk_sorted(&self)
        requires
            self.inv(),
        ensures
            forall|i: int, j: int|
                #![trigger self.in_order()[i], self.in_order()[j]]
                0 <= i <= j < self.in_order().len() ==> self.in_order()[i].0
                    >= self.in_order()[j].0,
    {
        lemma_ordered_sorted(self.root);
    }

    /// Count law: the walk visits exactly `length` devices, and the
    /// multiset of stored devices has exactly `length` members.
    pub proof fn lemma_length_counts(&self)
        requires
            self.inv(),
        ensures
            self.in_order().len() == self.length,
            self.devices().len() == self.length,
    {
        lemma_counts(self.root);
    }

    /// Lookup law: a key is found exactly when some stored device
    /// carries it.
    pub proof fn lemma_device_present(&self, numerical_id: u64)
        ensures
            self.has_device(numerical_id) <==> exists|d: (u64, Seq<char>)|
                self.devices().contains(d) && d.0 == numerical_id,
    {
        lemma_has_key_bag(self.root, numerical_id);
        if self.has_device(numerical_id) {
            let d = choose|d: (u64, Seq<char>)|
                dev_bag(self.root).contains(d) && d.0 == numerical_id;
            assert(self.devices().contains(d) && d.0 == numerical_id);
        }
        if exists|d: (u64, Seq<char>)| self.devices().contains(d) && d.0 == numerical_id {
            let d = choose|d: (u64, Seq<char>)|
                self.devices().contains(d) && d.0 == numerical_id;
            assert(dev_bag(self.root).contains(d));
        }
    }
}

} // verus!
