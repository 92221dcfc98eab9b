//! The intrusive binary-search-tree engine.
//!
//! Nodes live in slots of a fixed-capacity pool and are arranged into a
//! binary search tree through parent/left/right links stored inside the
//! nodes themselves. Keys are unique under the ordering projection; no
//! rebalancing is performed. The spec-level model is a recursive
//! [`TreeShape`] that mirrors which slot sits at which tree position,
//! together with the map from ordering keys to payloads.

use vstd::prelude::*;

use crate::Error;
use crate::storage::{POOL_LIMIT, Slot, Storage};

verus! {

/// The ordering-key capability: every storable payload exposes one ordering
/// projection, a `u64` used for all tree comparisons. Two payloads are equal
/// for tree purposes exactly when their projections are equal.
pub trait BstKey: Sized {
    /// The ordering projection of this payload.
    spec fn key_spec(&self) -> u64;

    /// Return the ordering projection.
    fn ordering_key(&self) -> (k: u64)
        ensures
            k == self.key_spec(),
    ;
}

impl BstKey for u64 {
    open spec fn key_spec(&self) -> u64 {
        *self
    }

    fn ordering_key(&self) -> (k: u64) {
        *self
    }
}

impl BstKey for u32 {
    open spec fn key_spec(&self) -> u64 {
        *self as u64
    }

    fn ordering_key(&self) -> (k: u64) {
        *self as u64
    }
}

/// One tree node as it sits inside a slot: the payload plus the intrusive
/// parent/left/right links. A link holds the slot index of the neighbour,
/// or `None` as the null sentinel.
#[derive(Clone, Copy)]
pub struct Node<D> {
    pub data: D,
    pub parent: Option<usize>,
    pub left: Option<usize>,
    pub right: Option<usize>,
}

/// The size in bytes of one slot record for payload type `D`: the occupied
/// flag plus the node record with all link fields.
pub fn node_size<D>() -> (r: usize)
    ensures
        r == vstd::layout::size_of::<Slot<Node<D>>>(),
{
    core::mem::size_of::<Slot<Node<D>>>()
}

/// The spec-level shape of a subtree: which slot index sits at each tree
/// position and the payload it carries there.
pub enum TreeShape<D> {
    Empty,
    Node { idx: usize, item: D, left: Box<TreeShape<D>>, right: Box<TreeShape<D>> },
}

impl<D> TreeShape<D> {
    /// The slot index of the subtree root, or `None` for an empty subtree.
    pub open spec fn root_idx(self) -> Option<usize> {
        match self {
            TreeShape::Empty => None,
            TreeShape::Node { idx, .. } => Some(idx),
        }
    }

    /// The payload at the subtree root.
    pub open spec fn root_item(self) -> Option<D> {
        match self {
            TreeShape::Empty => None,
            TreeShape::Node { item, .. } => Some(item),
        }
    }

    /// The left subtree (empty for an empty tree).
    pub open spec fn left_sub(self) -> TreeShape<D> {
        match self {
            TreeShape::Empty => TreeShape::Empty,
            TreeShape::Node { left, .. } => *left,
        }
    }

    /// The right subtree (empty for an empty tree).
    pub open spec fn right_sub(self) -> TreeShape<D> {
        match self {
            TreeShape::Empty => TreeShape::Empty,
            TreeShape::Node { right, .. } => *right,
        }
    }

    /// The set of slot indices used by this subtree.
    pub open spec fn idxs(self) -> Set<usize>
        decreases self,
    {
        match self {
            TreeShape::Empty => Set::empty(),
            TreeShape::Node { idx, left, right, .. } => left.idxs().union(right.idxs()).insert(
                idx,
            ),
        }
    }

    /// The number of nodes in this subtree.
    pub open spec fn size(self) -> nat
        decreases self,
    {
        match self {
            TreeShape::Empty => 0,
            TreeShape::Node { left, right, .. } => 1 + left.size() + right.size(),
        }
    }

    /// The shape is realized in `slots`: every shape node sits in an occupied
    /// slot whose payload, parent back-link and child links agree with the
    /// shape, and no slot index is used twice.
    pub open spec fn linked(self, slots: Seq<Slot<Node<D>>>, parent: Option<usize>) -> bool
        decreases self,
    {
        match self {
            TreeShape::Empty => true,
            TreeShape::Node { idx, item, left, right } => {
                &&& (idx as int) < slots.len()
                &&& slots[idx as int].occupied
                &&& slots[idx as int].node is Some
                &&& slots[idx as int].node.unwrap().data == item
                &&& slots[idx as int].node.unwrap().parent == parent
                &&& slots[idx as int].node.unwrap().left == left.root_idx()
                &&& slots[idx as int].node.unwrap().right == right.root_idx()
                &&& !left.idxs().contains(idx)
                &&& !right.idxs().contains(idx)
                &&& left.idxs().disjoint(right.idxs())
                &&& left.linked(slots, Some(idx))
                &&& right.linked(slots, Some(idx))
            },
        }
    }

    /// A shape stays realized when none of its slots changed.
    pub proof fn lemma_linked_frame(
        self,
        s1: Seq<Slot<Node<D>>>,
        s2: Seq<Slot<Node<D>>>,
        parent: Option<usize>,
    )
        requires
            self.linked(s1, parent),
            s2.len() == s1.len(),
            forall|j: usize| self.idxs().contains(j) ==> s2[j as int] == s1[j as int],
        ensures
            self.linked(s2, parent),
        decreases self,
    {
        match self {
            TreeShape::Empty => {},
            TreeShape::Node { idx, item, left, right } => {
                left.lemma_linked_frame(s1, s2, Some(idx));
                right.lemma_linked_frame(s1, s2, Some(idx));
            },
        }
    }

    /// Every slot index used by a realized shape is in bounds.
    pub proof fn lemma_linked_bounds(
        self,
        slots: Seq<Slot<Node<D>>>,
        parent: Option<usize>,
    )
        requires
            self.linked(slots, parent),
        ensures
            forall|j: usize| self.idxs().contains(j) ==> (j as int) < slots.len(),
        decreases self,
    {
        match self {
            TreeShape::Empty => {},
            TreeShape::Node { idx, item, left, right } => {
                left.lemma_linked_bounds(slots, Some(idx));
                right.lemma_linked_bounds(slots, Some(idx));
            },
        }
    }

    /// A realized shape occupies exactly `size` distinct slots.
    pub proof fn lemma_idxs_size(self, slots: Seq<Slot<Node<D>>>, parent: Option<usize>)
        requires
            self.linked(slots, parent),
        ensures
            self.idxs().finite(),
            self.idxs().len() == self.size(),
        decreases self,
    {
        match self {
            TreeShape::Empty => {
                assert(Set::<usize>::empty().len() == 0);
            },
            TreeShape::Node { idx, item, left, right } => {
                left.lemma_idxs_size(slots, Some(idx));
                right.lemma_idxs_size(slots, Some(idx));
                vstd::set_lib::lemma_set_disjoint_lens(left.idxs(), right.idxs());
                assert(left.idxs() + right.idxs() =~= left.idxs().union(right.idxs()));
                assert(left.idxs().union(right.idxs()).len() == left.idxs().len()
                    + right.idxs().len());
            },
        }
    }
}

impl<D: BstKey> TreeShape<D> {
    /// The map from each stored ordering key to its payload.
    pub open spec fn as_map(self) -> Map<u64, D>
        decreases self,
    {
        match self {
            TreeShape::Empty => Map::empty(),
            TreeShape::Node { item, left, right, .. } => left.as_map().union_prefer_right(
                right.as_map(),
            ).insert(item.key_spec(), item),
        }
    }

    /// The BST order invariant: at every node, every key in the left subtree
    /// is strictly smaller and every key in the right subtree strictly
    /// larger than the node's key.
    pub open spec fn ordered(self) -> bool
        decreases self,
    {
        match self {
            TreeShape::Empty => true,
            TreeShape::Node { item, left, right, .. } => {
                &&& (forall|k: u64|
                    #[trigger] left.as_map().dom().contains(k) ==> k < item.key_spec())
                &&& (forall|k: u64|
                    #[trigger] right.as_map().dom().contains(k) ==> k > item.key_spec())
                &&& left.ordered()
                &&& right.ordered()
            },
        }
    }

    /// The ascending in-order sequence of payloads.
    pub open spec fn inorder(self) -> Seq<D>
        decreases self,
    {
        match self {
            TreeShape::Empty => Seq::empty(),
            TreeShape::Node { item, left, right, .. } => left.inorder() + seq![item]
                + right.inorder(),
        }
    }

    /// The payload of the left child of the node holding `key`.
    pub open spec fn spec_left_of(self, key: u64) -> Option<D>
        decreases self,
    {
        match self {
            TreeShape::Empty => None,
            TreeShape::Node { item, left, right, .. } => if key == item.key_spec() {
                left.root_item()
            } else if key < item.key_spec() {
                left.spec_left_of(key)
            } else {
                right.spec_left_of(key)
            },
        }
    }

    /// The payload of the right child of the node holding `key`.
    pub open spec fn spec_right_of(self, key: u64) -> Option<D>
        decreases self,
    {
        match self {
            TreeShape::Empty => None,
            TreeShape::Node { item, left, right, .. } => if key == item.key_spec() {
                right.root_item()
            } else if key < item.key_spec() {
                left.spec_right_of(key)
            } else {
                right.spec_right_of(key)
            },
        }
    }

    /// The payload of the parent of the node holding `key`, where `above` is
    /// the payload of this subtree's own parent.
    pub open spec fn spec_parent_of(self, key: u64, above: Option<D>) -> Option<D>
        decreases self,
    {
        match self {
            TreeShape::Empty => None,
            TreeShape::Node { item, left, right, .. } => if key == item.key_spec() {
                above
            } else if key < item.key_spec() {
                left.spec_parent_of(key, Some(item))
            } else {
                right.spec_parent_of(key, Some(item))
            },
        }
    }

    /// In-order traversal of an ordered shape yields exactly the stored
    /// payloads, in strictly ascending key order.
    pub proof fn lemma_inorder_sorted(self)
        requires
            self.ordered(),
        ensures
            self.inorder().len() == self.size(),
            forall|a: int|
                0 <= a < self.inorder().len() ==> self.as_map().dom().contains(
                    (#[trigger] self.inorder()[a]).key_spec(),
                ) && self.as_map()[self.inorder()[a].key_spec()] == self.inorder()[a],
            forall|a: int, b: int|
                0 <= a < b < self.inorder().len() ==> (#[trigger] self.inorder()[a]).key_spec() < (
                #[trigger] self.inorder()[b]).key_spec(),
            forall|q: u64|
                #[trigger] self.as_map().dom().contains(q) ==> exists|a: int|
                    0 <= a < self.inorder().len() && (#[trigger] self.inorder()[a]).key_spec()
                        == q,
        decreases self,
    {
        match self {
            TreeShape::Empty => {},
            TreeShape::Node { idx, item, left, right } => {
                left.lemma_inorder_sorted();
                right.lemma_inorder_sorted();
                let li = left.inorder();
                let ri = right.inorder();
                let s = self.inorder();
                assert(s == li + seq![item] + ri);
                assert(s.len() == li.len() + 1 + ri.len());
                assert forall|a: int|
                    0 <= a < s.len() implies self.as_map().dom().contains(
                    (#[trigger] s[a]).key_spec(),
                ) && self.as_map()[s[a].key_spec()] == s[a] by {
                    if a < li.len() {
                        assert(s[a] == li[a]);
                        assert(left.as_map().dom().contains(li[a].key_spec()));
                        assert(!right.as_map().dom().contains(li[a].key_spec()));
                    } else if a == li.len() {
                        assert(s[a] == item);
                    } else {
                        assert(s[a] == ri[a - li.len() - 1]);
                        assert(right.as_map().dom().contains(s[a].key_spec()));
                    }
                }
                assert forall|a: int, b: int|
                    0 <= a < b < s.len() implies (#[trigger] s[a]).key_spec() < (
                #[trigger] s[b]).key_spec() by {
                    if a < li.len() {
                        assert(s[a] == li[a]);
                        assert(left.as_map().dom().contains(li[a].key_spec()));
                    } else if a == li.len() {
                        assert(s[a] == item);
                    } else {
                        assert(s[a] == ri[a - li.len() - 1]);
                        assert(right.as_map().dom().contains(s[a].key_spec()));
                    }
                    if b < li.len() {
                        assert(s[b] == li[b]);
                        assert(left.as_map().dom().contains(li[b].key_spec()));
                    } else if b == li.len() {
                        assert(s[b] == item);
                    } else {
                        assert(s[b] == ri[b - li.len() - 1]);
                        assert(right.as_map().dom().contains(s[b].key_spec()));
                    }
                }
                assert forall|q: u64| self.as_map().dom().contains(q) implies exists|a: int|
                    0 <= a < s.len() && (#[trigger] s[a]).key_spec() == q by {
                    if left.as_map().dom().contains(q) {
                        let a = choose|a: int| 0 <= a < li.len() && (#[trigger] li[a]).key_spec()
                            == q;
                        assert(s[a] == li[a]);
                        assert(s[a].key_spec() == q);
                    } else if q == item.key_spec() {
                        assert(s[li.len() as int] == item);
                        assert(s[li.len() as int].key_spec() == q);
                    } else {
                        assert(right.as_map().dom().contains(q));
                        let a = choose|a: int| 0 <= a < ri.len() && (#[trigger] ri[a]).key_spec()
                            == q;
                        assert(s[li.len() + 1 + a] == ri[a]);
                        assert(s[li.len() + 1 + a].key_spec() == q);
                    }
                }
            },
        }
    }
}

/// The shape of a single node in slot `ni` holding `nd`, with empty subtrees.
pub open spec fn leaf_shape<D>(ni: usize, nd: D) -> TreeShape<D> {
    TreeShape::Node {
        idx: ni,
        item: nd,
        left: Box::new(TreeShape::Empty),
        right: Box::new(TreeShape::Empty),
    }
}

/// Facts about a freshly linked leaf: it is realized in its slot and models
/// the singleton map.
proof fn lemma_leaf_facts<D: BstKey>(
    ni: usize,
    nd: D,
    slots: Seq<Slot<Node<D>>>,
    parent: Option<usize>,
)
    requires
        (ni as int) < slots.len(),
        slots[ni as int].occupied,
        slots[ni as int].node == Some(
            Node { data: nd, parent: parent, left: None::<usize>, right: None::<usize> },
        ),
    ensures
        leaf_shape(ni, nd).linked(slots, parent),
        leaf_shape(ni, nd).as_map() == Map::<u64, D>::empty().insert(nd.key_spec(), nd),
        leaf_shape(ni, nd).idxs() == Set::<usize>::empty().insert(ni),
        leaf_shape(ni, nd).ordered(),
        leaf_shape(ni, nd).size() == 1,
{
    assert(TreeShape::<D>::Empty.linked(slots, Some(ni)));
    assert(TreeShape::<D>::Empty.as_map() == Map::<u64, D>::empty());
    assert(TreeShape::<D>::Empty.idxs() == Set::<usize>::empty());
    assert(TreeShape::<D>::Empty.ordered());
    assert(TreeShape::<D>::Empty.size() == 0);
    assert(leaf_shape(ni, nd).as_map() =~= Map::<u64, D>::empty().insert(nd.key_spec(), nd));
    assert(leaf_shape(ni, nd).idxs() =~= Set::<usize>::empty().insert(ni));
}

/// Insert the freshly allocated leaf `ni` (holding payload `nd`) below the
/// subtree rooted in slot `i`, descending by the ordering projection.
fn ins_at<D: BstKey + Copy>(
    st: &mut Storage<Node<D>>,
    Ghost(sh): Ghost<TreeShape<D>>,
    Ghost(parent): Ghost<Option<usize>>,
    i: usize,
    ni: usize,
    nd: D,
) -> (res: Ghost<TreeShape<D>>)
    requires
        old(st).inv(),
        sh.linked(old(st).data@, parent),
        sh.ordered(),
        sh.root_idx() == Some(i),
        !sh.as_map().dom().contains(nd.key_spec()),
        ni < old(st).data@.len(),
        !sh.idxs().contains(ni),
        old(st).data@[ni as int].occupied,
    ensures
        final(st).inv(),
        final(st).length == old(st).length,
        final(st).data@.len() == old(st).data@.len(),
        res@.linked(final(st).data@, parent),
        res@.ordered(),
        res@.root_idx() == Some(i),
        res@.as_map() == sh.as_map().insert(nd.key_spec(), nd),
        res@.idxs() == sh.idxs().insert(ni),
        res@.size() == sh.size() + 1,
        forall|j: int|
            0 <= j < final(st).data@.len() && j != ni && !sh.idxs().contains(j as usize)
                ==> final(st).data@[j] == old(st).data@[j],
        forall|j: int|
            0 <= j < final(st).data@.len() ==> #[trigger] final(st).data@[j].occupied == old(
                st,
            ).data@[j].occupied,
    decreases sh,
{
    let ghost item = sh.root_item().unwrap();
    let ghost lsub = sh.left_sub();
    let ghost rsub = sh.right_sub();
    proof {
        assert(sh is Node);
        assert((i as int) < st.data@.len() && st.data@[i as int].occupied && st.data@[i as int].node
            is Some);
    }
    let slot = st.data[i];
    let node = slot.node.unwrap();
    let key = node.data.ordering_key();
    let nk = nd.ordering_key();
    proof {
        assert(node.data == item);
        assert(sh.as_map().dom().contains(item.key_spec()));
        assert(nk != key);
    }
    proof {
        assert(sh.idxs().contains(i));
        assert(i != ni);
    }
    if nk < key {
        match node.left {
            Some(li) => {
                proof {
                    assert(lsub.root_idx() == Some(li));
                }
                let res_l = ins_at(st, Ghost(lsub), Ghost(Some(i)), li, ni, nd);
                let ghost sh2 = TreeShape::Node {
                    idx: i,
                    item: item,
                    left: Box::new(res_l@),
                    right: Box::new(rsub),
                };
                proof {
                    rsub.lemma_linked_bounds(old(st).data@, Some(i));
                    assert forall|j: usize| rsub.idxs().contains(j) implies st.data@[j as int]
                        == old(st).data@[j as int] by {
                        assert(sh.idxs().contains(j));
                        assert(!lsub.idxs().contains(j));
                        assert(j != ni);
                    }
                    rsub.lemma_linked_frame(old(st).data@, st.data@, Some(i));
                    assert(!lsub.idxs().contains(i));
                    assert(st.data@[i as int] == old(st).data@[i as int]);
                    assert(sh2.linked(st.data@, parent));
                    assert(!rsub.as_map().dom().contains(nd.key_spec()));
                    assert(sh2.as_map() =~= sh.as_map().insert(nd.key_spec(), nd));
                    assert(sh2.idxs() =~= sh.idxs().insert(ni));
                }
                Ghost(sh2)
            },
            None => {
                proof {
                    assert(lsub is Empty);
                }
                st.set_slot(
                    ni,
                    Slot {
                        occupied: true,
                        node: Some(Node { data: nd, parent: Some(i), left: None, right: None }),
                    },
                );
                let mut n2 = node;
                n2.left = Some(ni);
                st.set_slot(i, Slot { occupied: true, node: Some(n2) });
                let ghost leaf = leaf_shape(ni, nd);
                let ghost sh2 = TreeShape::Node {
                    idx: i,
                    item: item,
                    left: Box::new(leaf),
                    right: Box::new(rsub),
                };
                proof {
                    lemma_leaf_facts(ni, nd, st.data@, Some(i));
                    rsub.lemma_linked_bounds(old(st).data@, Some(i));
                    assert forall|j: usize| rsub.idxs().contains(j) implies st.data@[j as int]
                        == old(st).data@[j as int] by {
                        assert(sh.idxs().contains(j));
                        assert(j != ni && j != i);
                    }
                    rsub.lemma_linked_frame(old(st).data@, st.data@, Some(i));
                    assert(sh2.linked(st.data@, parent));
                    assert(sh2.as_map() =~= sh.as_map().insert(nd.key_spec(), nd));
                    assert(sh2.idxs() =~= sh.idxs().insert(ni));
                }
                Ghost(sh2)
            },
        }
    } else {
        proof {
            assert(nk > key);
        }
        match node.right {
            Some(ri) => {
                proof {
                    assert(rsub.root_idx() == Some(ri));
                }
                let res_r = ins_at(st, Ghost(rsub), Ghost(Some(i)), ri, ni, nd);
                let ghost sh2 = TreeShape::Node {
                    idx: i,
                    item: item,
                    left: Box::new(lsub),
                    right: Box::new(res_r@),
                };
                proof {
                    lsub.lemma_linked_bounds(old(st).data@, Some(i));
                    assert forall|j: usize| lsub.idxs().contains(j) implies st.data@[j as int]
                        == old(st).data@[j as int] by {
                        assert(sh.idxs().contains(j));
                        assert(!rsub.idxs().contains(j));
                        assert(j != ni);
                    }
                    lsub.lemma_linked_frame(old(st).data@, st.data@, Some(i));
                    assert(!rsub.idxs().contains(i));
                    assert(st.data@[i as int] == old(st).data@[i as int]);
                    assert(sh2.linked(st.data@, parent));
                    assert(!lsub.as_map().dom().contains(nd.key_spec()));
                    assert(sh2.as_map() =~= sh.as_map().insert(nd.key_spec(), nd));
                    assert(sh2.idxs() =~= sh.idxs().insert(ni));
                }
                Ghost(sh2)
            },
            None => {
                proof {
                    assert(rsub is Empty);
                }
                st.set_slot(
                    ni,
                    Slot {
                        occupied: true,
                        node: Some(Node { data: nd, parent: Some(i), left: None, right: None }),
                    },
                );
                let mut n2 = node;
                n2.right = Some(ni);
                st.set_slot(i, Slot { occupied: true, node: Some(n2) });
                let ghost leaf = leaf_shape(ni, nd);
                let ghost sh2 = TreeShape::Node {
                    idx: i,
                    item: item,
                    left: Box::new(lsub),
                    right: Box::new(leaf),
                };
                proof {
                    lemma_leaf_facts(ni, nd, st.data@, Some(i));
                    lsub.lemma_linked_bounds(old(st).data@, Some(i));
                    assert forall|j: usize| lsub.idxs().contains(j) implies st.data@[j as int]
                        == old(st).data@[j as int] by {
                        assert(sh.idxs().contains(j));
                        assert(j != ni && j != i);
                    }
                    lsub.lemma_linked_frame(old(st).data@, st.data@, Some(i));
                    assert(sh2.linked(st.data@, parent));
                    assert(sh2.as_map() =~= sh.as_map().insert(nd.key_spec(), nd));
                    assert(sh2.idxs() =~= sh.idxs().insert(ni));
                }
                Ghost(sh2)
            },
        }
    }
}

/// Remove the left-most (smallest-key) node of the subtree rooted in slot
/// `i`. Returns its payload, the new subtree root, the new shape, and the
/// index of the slot that was unlinked (not yet released).
fn del_min<D: BstKey + Copy>(
    st: &mut Storage<Node<D>>,
    Ghost(sh): Ghost<TreeShape<D>>,
    parent: Option<usize>,
    i: usize,
) -> (res: (D, Option<usize>, Ghost<TreeShape<D>>, usize))
    requires
        old(st).inv(),
        sh.linked(old(st).data@, parent),
        sh.ordered(),
        sh.root_idx() == Some(i),
    ensures
        final(st).inv(),
        final(st).length == old(st).length,
        final(st).data@.len() == old(st).data@.len(),
        res.2@.linked(final(st).data@, parent),
        res.2@.ordered(),
        res.2@.root_idx() == res.1,
        sh.as_map().dom().contains(res.0.key_spec()),
        sh.as_map()[res.0.key_spec()] == res.0,
        forall|q: u64| #[trigger] sh.as_map().dom().contains(q) ==> res.0.key_spec() <= q,
        res.2@.as_map() == sh.as_map().remove(res.0.key_spec()),
        sh.idxs().contains(res.3),
        res.2@.idxs() == sh.idxs().remove(res.3),
        res.2@.size() == sh.size() - 1,
        forall|j: int|
            0 <= j < final(st).data@.len() && !sh.idxs().contains(j as usize)
                ==> final(st).data@[j] == old(st).data@[j],
        forall|j: int|
            0 <= j < final(st).data@.len() ==> #[trigger] final(st).data@[j].occupied == old(
                st,
            ).data@[j].occupied,
    decreases sh,
{
    let ghost item = sh.root_item().unwrap();
    let ghost lsub = sh.left_sub();
    let ghost rsub = sh.right_sub();
    proof {
        reveal_with_fuel(TreeShape::linked, 2);
        assert(sh is Node);
        assert(sh.idxs().contains(i));
        assert((i as int) < st.data@.len() && st.data@[i as int].occupied && st.data@[i as int].node
            is Some);
        assert(sh.as_map().dom().contains(item.key_spec()));
        assert(sh.as_map()[item.key_spec()] == item);
    }
    let slot = st.data[i];
    let node = slot.node.unwrap();
    match node.left {
        None => {
            proof {
                assert(lsub is Empty);
                assert(lsub.as_map() == Map::<u64, D>::empty());
            }
            match node.right {
                Some(ri) => {
                    proof {
                        assert(rsub.root_idx() == Some(ri));
                        assert(rsub is Node);
                        assert((ri as int) < st.data@.len() && st.data@[ri as int].occupied
                            && st.data@[ri as int].node is Some);
                    }
                    let rslot = st.data[ri];
                    let mut rnode = rslot.node.unwrap();
                    rnode.parent = parent;
                    st.set_slot(ri, Slot { occupied: true, node: Some(rnode) });
                    proof {
                        let rl = rsub.left_sub();
                        let rr = rsub.right_sub();
                        rl.lemma_linked_bounds(old(st).data@, Some(ri));
                        rr.lemma_linked_bounds(old(st).data@, Some(ri));
                        assert forall|j: usize| rl.idxs().contains(j) implies st.data@[j as int]
                            == old(st).data@[j as int] by {
                            assert(j != ri);
                        }
                        rl.lemma_linked_frame(old(st).data@, st.data@, Some(ri));
                        assert forall|j: usize| rr.idxs().contains(j) implies st.data@[j as int]
                            == old(st).data@[j as int] by {
                            assert(j != ri);
                        }
                        rr.lemma_linked_frame(old(st).data@, st.data@, Some(ri));
                        assert(rsub.linked(st.data@, parent));
                        assert(!rsub.as_map().dom().contains(item.key_spec()));
                        assert(rsub.as_map() =~= sh.as_map().remove(item.key_spec()));
                        assert(rsub.idxs() =~= sh.idxs().remove(i));
                        assert forall|q: u64| sh.as_map().dom().contains(q) implies
                            item.key_spec() <= q by {
                            if rsub.as_map().dom().contains(q) {
                            }
                        }
                    }
                    (node.data, Some(ri), Ghost(rsub), i)
                },
                None => {
                    proof {
                        assert(rsub is Empty);
                        assert(rsub.as_map() == Map::<u64, D>::empty());
                        assert(TreeShape::<D>::Empty.linked(st.data@, parent));
                        assert(TreeShape::<D>::Empty.as_map() =~= sh.as_map().remove(
                            item.key_spec(),
                        ));
                        assert(TreeShape::<D>::Empty.idxs() =~= sh.idxs().remove(i));
                        assert forall|q: u64| sh.as_map().dom().contains(q) implies
                            item.key_spec() <= q by {}
                    }
                    (node.data, None, Ghost(TreeShape::Empty), i)
                },
            }
        },
        Some(li) => {
            proof {
                assert(lsub.root_idx() == Some(li));
            }
            let (d, nl, gl, rm) = del_min(st, Ghost(lsub), Some(i), li);
            let ghost lsh2 = gl@;
            let ghost s1 = st.data@;
            proof {
                assert(!lsub.idxs().contains(i));
                assert(st.data@[i as int] == old(st).data@[i as int]);
            }
            let slot2 = st.data[i];
            let mut n2 = slot2.node.unwrap();
            n2.left = nl;
            st.set_slot(i, Slot { occupied: true, node: Some(n2) });
            let ghost sh2 = TreeShape::Node {
                idx: i,
                item: item,
                left: Box::new(lsh2),
                right: Box::new(rsub),
            };
            proof {
                rsub.lemma_linked_bounds(old(st).data@, Some(i));
                assert forall|j: usize| rsub.idxs().contains(j) implies st.data@[j as int] == old(
                    st,
                ).data@[j as int] by {
                    assert(sh.idxs().contains(j));
                    assert(!lsub.idxs().contains(j));
                    assert(j != i);
                }
                rsub.lemma_linked_frame(old(st).data@, st.data@, Some(i));
                lsh2.lemma_linked_bounds(s1, Some(i));
                assert forall|j: usize| lsh2.idxs().contains(j) implies st.data@[j as int]
                    == s1[j as int] by {
                    assert(lsub.idxs().contains(j));
                    assert(j != i);
                }
                lsh2.lemma_linked_frame(s1, st.data@, Some(i));
                assert(sh2.linked(st.data@, parent));
                assert(lsub.as_map().dom().contains(d.key_spec()));
                assert(d.key_spec() < item.key_spec());
                assert(!rsub.as_map().dom().contains(d.key_spec()));
                assert(sh2.as_map() =~= sh.as_map().remove(d.key_spec()));
                assert(sh2.idxs() =~= sh.idxs().remove(rm));
                assert forall|q: u64| sh.as_map().dom().contains(q) implies d.key_spec() <= q by {
                    if lsub.as_map().dom().contains(q) {
                    } else if q == item.key_spec() {
                    } else {
                        assert(rsub.as_map().dom().contains(q));
                    }
                }
            }
            (d, Some(i), Ghost(sh2), rm)
        },
    }
}

/// Delete the node holding `key` from the subtree rooted in slot `i`.
/// Returns the new subtree root, the new shape, and the index of the slot
/// that was unlinked (not yet released).
fn del_at<D: BstKey + Copy>(
    st: &mut Storage<Node<D>>,
    Ghost(sh): Ghost<TreeShape<D>>,
    parent: Option<usize>,
    i: usize,
    key: u64,
) -> (res: (Option<usize>, Ghost<TreeShape<D>>, usize))
    requires
        old(st).inv(),
        sh.linked(old(st).data@, parent),
        sh.ordered(),
        sh.root_idx() == Some(i),
        sh.as_map().dom().contains(key),
    ensures
        final(st).inv(),
        final(st).length == old(st).length,
        final(st).data@.len() == old(st).data@.len(),
        res.1@.linked(final(st).data@, parent),
        res.1@.ordered(),
        res.1@.root_idx() == res.0,
        res.1@.as_map() == sh.as_map().remove(key),
        sh.idxs().contains(res.2),
        res.1@.idxs() == sh.idxs().remove(res.2),
        res.1@.size() == sh.size() - 1,
        forall|j: int|
            0 <= j < final(st).data@.len() && !sh.idxs().contains(j as usize)
                ==> final(st).data@[j] == old(st).data@[j],
        forall|j: int|
            0 <= j < final(st).data@.len() ==> #[trigger] final(st).data@[j].occupied == old(
                st,
            ).data@[j].occupied,
    decreases sh,
{
    let ghost item = sh.root_item().unwrap();
    let ghost lsub = sh.left_sub();
    let ghost rsub = sh.right_sub();
    proof {
        reveal_with_fuel(TreeShape::linked, 2);
        reveal_with_fuel(TreeShape::size, 2);
        assert(sh is Node);
        assert(sh.idxs().contains(i));
        assert((i as int) < st.data@.len() && st.data@[i as int].occupied && st.data@[i as int].node
            is Some);
        assert(sh.as_map().dom().contains(item.key_spec()));
    }
    let slot = st.data[i];
    let node = slot.node.unwrap();
    let k0 = node.data.ordering_key();
    if key == k0 {
        match node.left {
            None => {
                proof {
                    assert(lsub is Empty);
                    assert(lsub.as_map() == Map::<u64, D>::empty());
                }
                match node.right {
                    Some(ri) => {
                        proof {
                            assert(rsub is Node);
                            assert((ri as int) < st.data@.len() && st.data@[ri as int].occupied
                                && st.data@[ri as int].node is Some);
                        }
                        let rslot = st.data[ri];
                        let mut rnode = rslot.node.unwrap();
                        rnode.parent = parent;
                        st.set_slot(ri, Slot { occupied: true, node: Some(rnode) });
                        proof {
                            let rl = rsub.left_sub();
                            let rr = rsub.right_sub();
                            rl.lemma_linked_bounds(old(st).data@, Some(ri));
                            rr.lemma_linked_bounds(old(st).data@, Some(ri));
                            assert forall|j: usize| rl.idxs().contains(j) implies st.data@[j as int]
                                == old(st).data@[j as int] by {
                                assert(j != ri);
                            }
                            rl.lemma_linked_frame(old(st).data@, st.data@, Some(ri));
                            assert forall|j: usize| rr.idxs().contains(j) implies st.data@[j as int]
                                == old(st).data@[j as int] by {
                                assert(j != ri);
                            }
                            rr.lemma_linked_frame(old(st).data@, st.data@, Some(ri));
                            assert(rsub.linked(st.data@, parent));
                            assert(!rsub.as_map().dom().contains(key));
                            assert(rsub.as_map() =~= sh.as_map().remove(key));
                            assert(rsub.idxs() =~= sh.idxs().remove(i));
                        }
                        (Some(ri), Ghost(rsub), i)
                    },
                    None => {
                        proof {
                            assert(rsub is Empty);
                            assert(rsub.as_map() == Map::<u64, D>::empty());
                            assert(TreeShape::<D>::Empty.linked(st.data@, parent));
                            assert(TreeShape::<D>::Empty.as_map() =~= sh.as_map().remove(key));
                            assert(TreeShape::<D>::Empty.idxs() =~= sh.idxs().remove(i));
                        }
                        (None, Ghost(TreeShape::Empty), i)
                    },
                }
            },
            Some(li) => {
                match node.right {
                    None => {
                        proof {
                            assert(rsub is Empty);
                            assert(rsub.as_map() == Map::<u64, D>::empty());
                            assert(lsub is Node);
                            assert((li as int) < st.data@.len() && st.data@[li as int].occupied
                                && st.data@[li as int].node is Some);
                        }
                        let lslot = st.data[li];
                        let mut lnode = lslot.node.unwrap();
                        lnode.parent = parent;
                        st.set_slot(li, Slot { occupied: true, node: Some(lnode) });
                        proof {
                            let ll = lsub.left_sub();
                            let lr = lsub.right_sub();
                            ll.lemma_linked_bounds(old(st).data@, Some(li));
                            lr.lemma_linked_bounds(old(st).data@, Some(li));
                            assert forall|j: usize| ll.idxs().contains(j) implies st.data@[j as int]
                                == old(st).data@[j as int] by {
                                assert(j != li);
                            }
                            ll.lemma_linked_frame(old(st).data@, st.data@, Some(li));
                            assert forall|j: usize| lr.idxs().contains(j) implies st.data@[j as int]
                                == old(st).data@[j as int] by {
                                assert(j != li);
                            }
                            lr.lemma_linked_frame(old(st).data@, st.data@, Some(li));
                            assert(lsub.linked(st.data@, parent));
                            assert(!lsub.as_map().dom().contains(key));
                            assert(lsub.as_map() =~= sh.as_map().remove(key));
                            assert(lsub.idxs() =~= sh.idxs().remove(i));
                        }
                        (Some(li), Ghost(lsub), i)
                    },
                    Some(ri) => {
                        proof {
                            assert(rsub.root_idx() == Some(ri));
                        }
                        let (d, nr, gr, rm) = del_min(st, Ghost(rsub), Some(i), ri);
                        let ghost rsh2 = gr@;
                        let ghost s1 = st.data@;
                        proof {
                            assert(!rsub.idxs().contains(i));
                            assert(st.data@[i as int] == old(st).data@[i as int]);
                        }
                        let slot2 = st.data[i];
                        let mut n2 = slot2.node.unwrap();
                        n2.data = d;
                        n2.right = nr;
                        st.set_slot(i, Slot { occupied: true, node: Some(n2) });
                        let ghost sh2 = TreeShape::Node {
                            idx: i,
                            item: d,
                            left: Box::new(lsub),
                            right: Box::new(rsh2),
                        };
                        proof {
                            lsub.lemma_linked_bounds(old(st).data@, Some(i));
                            assert forall|j: usize| lsub.idxs().contains(j) implies st
                                .data@[j as int] == old(st).data@[j as int] by {
                                assert(sh.idxs().contains(j));
                                assert(!rsub.idxs().contains(j));
                                assert(j != i);
                            }
                            lsub.lemma_linked_frame(old(st).data@, st.data@, Some(i));
                            rsh2.lemma_linked_bounds(s1, Some(i));
                            assert forall|j: usize| rsh2.idxs().contains(j) implies st
                                .data@[j as int] == s1[j as int] by {
                                assert(rsub.idxs().contains(j));
                                assert(j != i);
                            }
                            rsh2.lemma_linked_frame(s1, st.data@, Some(i));
                            assert(sh2.linked(st.data@, parent));
                            assert(rsub.as_map().dom().contains(d.key_spec()));
                            assert(d.key_spec() > item.key_spec());
                            assert(!lsub.as_map().dom().contains(d.key_spec()));
                            assert forall|q: u64| #[trigger] rsh2.as_map().dom().contains(q)
                                implies q > d.key_spec() by {
                                assert(rsub.as_map().dom().contains(q));
                            }
                            assert(sh2.ordered());
                            assert(sh.as_map()[d.key_spec()] == d);
                            assert(sh2.as_map() =~= sh.as_map().remove(key));
                            assert(sh2.idxs() =~= sh.idxs().remove(rm));
                        }
                        (Some(i), Ghost(sh2), rm)
                    },
                }
            },
        }
    } else if key < k0 {
        proof {
            assert(!rsub.as_map().dom().contains(key));
            assert(lsub.as_map().dom().contains(key));
            if lsub is Empty {
                assert(lsub.as_map() == Map::<u64, D>::empty());
                assert(false);
            }
        }
        let li = node.left.unwrap();
        let (nl, gl, rm) = del_at(st, Ghost(lsub), Some(i), li, key);
        let ghost lsh2 = gl@;
        let ghost s1 = st.data@;
        proof {
            assert(!lsub.idxs().contains(i));
            assert(st.data@[i as int] == old(st).data@[i as int]);
        }
        let slot2 = st.data[i];
        let mut n2 = slot2.node.unwrap();
        n2.left = nl;
        st.set_slot(i, Slot { occupied: true, node: Some(n2) });
        let ghost sh2 = TreeShape::Node {
            idx: i,
            item: item,
            left: Box::new(lsh2),
            right: Box::new(rsub),
        };
        proof {
            rsub.lemma_linked_bounds(old(st).data@, Some(i));
            assert forall|j: usize| rsub.idxs().contains(j) implies st.data@[j as int] == old(
                st,
            ).data@[j as int] by {
                assert(sh.idxs().contains(j));
                assert(!lsub.idxs().contains(j));
                assert(j != i);
            }
            rsub.lemma_linked_frame(old(st).data@, st.data@, Some(i));
            lsh2.lemma_linked_bounds(s1, Some(i));
            assert forall|j: usize| lsh2.idxs().contains(j) implies st.data@[j as int]
                == s1[j as int] by {
                assert(lsub.idxs().contains(j));
                assert(j != i);
            }
            lsh2.lemma_linked_frame(s1, st.data@, Some(i));
            assert(sh2.linked(st.data@, parent));
            assert(sh2.as_map() =~= sh.as_map().remove(key));
            assert(sh2.idxs() =~= sh.idxs().remove(rm));
        }
        (Some(i), Ghost(sh2), rm)
    } else {
        proof {
            assert(!lsub.as_map().dom().contains(key));
            assert(rsub.as_map().dom().contains(key));
            if rsub is Empty {
                assert(rsub.as_map() == Map::<u64, D>::empty());
                assert(false);
            }
        }
        let ri = node.right.unwrap();
        let (nr, gr, rm) = del_at(st, Ghost(rsub), Some(i), ri, key);
        let ghost rsh2 = gr@;
        let ghost s1 = st.data@;
        proof {
            assert(!rsub.idxs().contains(i));
            assert(st.data@[i as int] == old(st).data@[i as int]);
        }
        let slot2 = st.data[i];
        let mut n2 = slot2.node.unwrap();
        n2.right = nr;
        st.set_slot(i, Slot { occupied: true, node: Some(n2) });
        let ghost sh2 = TreeShape::Node {
            idx: i,
            item: item,
            left: Box::new(lsub),
            right: Box::new(rsh2),
        };
        proof {
            lsub.lemma_linked_bounds(old(st).data@, Some(i));
            assert forall|j: usize| lsub.idxs().contains(j) implies st.data@[j as int] == old(
                st,
            ).data@[j as int] by {
                assert(sh.idxs().contains(j));
                assert(!rsub.idxs().contains(j));
                assert(j != i);
            }
            lsub.lemma_linked_frame(old(st).data@, st.data@, Some(i));
            rsh2.lemma_linked_bounds(s1, Some(i));
            assert forall|j: usize| rsh2.idxs().contains(j) implies st.data@[j as int]
                == s1[j as int] by {
                assert(rsub.idxs().contains(j));
                assert(j != i);
            }
            rsh2.lemma_linked_frame(s1, st.data@, Some(i));
            assert(sh2.linked(st.data@, parent));
            assert(sh2.as_map() =~= sh.as_map().remove(key));
            assert(sh2.idxs() =~= sh.idxs().remove(rm));
        }
        (Some(i), Ghost(sh2), rm)
    }
}

/// Descend from `cur` comparing the ordering projection, returning the
/// payload stored under `key` if it is present.
fn get_at<D: BstKey + Copy>(
    st: &Storage<Node<D>>,
    Ghost(sh): Ghost<TreeShape<D>>,
    Ghost(parent): Ghost<Option<usize>>,
    cur: Option<usize>,
    key: u64,
) -> (r: Option<D>)
    requires
        sh.linked(st.data@, parent),
        sh.ordered(),
        sh.root_idx() == cur,
    ensures
        r == if sh.as_map().dom().contains(key) {
            Some(sh.as_map()[key])
        } else {
            None::<D>
        },
    decreases sh,
{
    match cur {
        None => None,
        Some(i) => {
            proof {
                assert(sh is Node);
            }
            let slot = st.data[i];
            let node = slot.node.unwrap();
            let k0 = node.data.ordering_key();
            let ghost lsub = sh.left_sub();
            let ghost rsub = sh.right_sub();
            if key == k0 {
                proof {
                    assert(sh.as_map()[key] == node.data);
                }
                Some(node.data)
            } else if key < k0 {
                proof {
                    assert(!rsub.as_map().dom().contains(key));
                }
                get_at(st, Ghost(lsub), Ghost(Some(i)), node.left, key)
            } else {
                proof {
                    assert(!lsub.as_map().dom().contains(key));
                }
                get_at(st, Ghost(rsub), Ghost(Some(i)), node.right, key)
            }
        },
    }
}

/// Append the in-order payload sequence of the subtree rooted at `cur` to
/// `out`.
fn trav_at<D: BstKey + Copy>(
    st: &Storage<Node<D>>,
    Ghost(sh): Ghost<TreeShape<D>>,
    Ghost(parent): Ghost<Option<usize>>,
    cur: Option<usize>,
    out: &mut Vec<D>,
)
    requires
        sh.linked(st.data@, parent),
        sh.root_idx() == cur,
    ensures
        final(out)@ == old(out)@ + sh.inorder(),
    decreases sh,
{
    match cur {
        None => {
            proof {
                assert(sh.inorder() == Seq::<D>::empty());
                assert(out@ =~= old(out)@ + sh.inorder());
            }
        },
        Some(i) => {
            proof {
                assert(sh is Node);
            }
            let slot = st.data[i];
            let node = slot.node.unwrap();
            trav_at(st, Ghost(sh.left_sub()), Ghost(Some(i)), node.left, out);
            out.push(node.data);
            trav_at(st, Ghost(sh.right_sub()), Ghost(Some(i)), node.right, out);
            proof {
                assert(out@ =~= old(out)@ + sh.inorder());
            }
        },
    }
}

/// Descend for `key` and return the payload of the left child of its node.
fn left_of_at<D: BstKey + Copy>(
    st: &Storage<Node<D>>,
    Ghost(sh): Ghost<TreeShape<D>>,
    Ghost(parent): Ghost<Option<usize>>,
    cur: Option<usize>,
    key: u64,
) -> (r: Option<D>)
    requires
        sh.linked(st.data@, parent),
        sh.root_idx() == cur,
    ensures
        r == sh.spec_left_of(key),
    decreases sh,
{
    match cur {
        None => None,
        Some(i) => {
            proof {
                reveal_with_fuel(TreeShape::linked, 2);
                assert(sh is Node);
            }
            let slot = st.data[i];
            let node = slot.node.unwrap();
            let k0 = node.data.ordering_key();
            if key == k0 {
                match node.left {
                    None => None,
                    Some(li) => {
                        proof {
                            assert(sh.left_sub() is Node);
                        }
                        let ls = st.data[li];
                        Some(ls.node.unwrap().data)
                    },
                }
            } else if key < k0 {
                left_of_at(st, Ghost(sh.left_sub()), Ghost(Some(i)), node.left, key)
            } else {
                left_of_at(st, Ghost(sh.right_sub()), Ghost(Some(i)), node.right, key)
            }
        },
    }
}

/// Descend for `key` and return the payload of the right child of its node.
fn right_of_at<D: BstKey + Copy>(
    st: &Storage<Node<D>>,
    Ghost(sh): Ghost<TreeShape<D>>,
    Ghost(parent): Ghost<Option<usize>>,
    cur: Option<usize>,
    key: u64,
) -> (r: Option<D>)
    requires
        sh.linked(st.data@, parent),
        sh.root_idx() == cur,
    ensures
        r == sh.spec_right_of(key),
    decreases sh,
{
    match cur {
        None => None,
        Some(i) => {
            proof {
                reveal_with_fuel(TreeShape::linked, 2);
                assert(sh is Node);
            }
            let slot = st.data[i];
            let node = slot.node.unwrap();
            let k0 = node.data.ordering_key();
            if key == k0 {
                match node.right {
                    None => None,
                    Some(ri) => {
                        proof {
                            assert(sh.right_sub() is Node);
                        }
                        let rs = st.data[ri];
                        Some(rs.node.unwrap().data)
                    },
                }
            } else if key < k0 {
                right_of_at(st, Ghost(sh.left_sub()), Ghost(Some(i)), node.left, key)
            } else {
                right_of_at(st, Ghost(sh.right_sub()), Ghost(Some(i)), node.right, key)
            }
        },
    }
}

/// Descend for `key` and return the payload of the parent of its node, where
/// `above` is the payload of the parent of this subtree.
fn parent_of_at<D: BstKey + Copy>(
    st: &Storage<Node<D>>,
    Ghost(sh): Ghost<TreeShape<D>>,
    Ghost(parent): Ghost<Option<usize>>,
    cur: Option<usize>,
    key: u64,
    above: Option<D>,
) -> (r: Option<D>)
    requires
        sh.linked(st.data@, parent),
        sh.root_idx() == cur,
    ensures
        r == sh.spec_parent_of(key, above),
    decreases sh,
{
    match cur {
        None => None,
        Some(i) => {
            proof {
                assert(sh is Node);
            }
            let slot = st.data[i];
            let node = slot.node.unwrap();
            let k0 = node.data.ordering_key();
            if key == k0 {
                above
            } else if key < k0 {
                parent_of_at(st, Ghost(sh.left_sub()), Ghost(Some(i)), node.left, key, Some(node.data))
            } else {
                parent_of_at(st, Ghost(sh.right_sub()), Ghost(Some(i)), node.right, key, Some(node.data))
            }
        },
    }
}

/// An arena-backed binary search tree holding up to `SIZE` payloads of type
/// `D`, ordered by the `BstKey` projection.
pub struct Bst<D: BstKey + Copy, const SIZE: usize> {
    storage: Storage<Node<D>>,
    head: Option<usize>,
    shape: Ghost<TreeShape<D>>,
}

impl<D: BstKey + Copy, const SIZE: usize> View for Bst<D, SIZE> {
    type V = Map<u64, D>;

    closed spec fn view(&self) -> Map<u64, D> {
        self.shape@.as_map()
    }
}

impl<D: BstKey + Copy, const SIZE: usize> Bst<D, SIZE> {
    /// The spec-level tree shape.
    pub closed spec fn spec_tree(self) -> TreeShape<D> {
        self.shape@
    }

    /// The number of stored payloads.
    pub closed spec fn spec_len(self) -> nat {
        self.shape@.size()
    }

    /// Well-formedness: the shape is realized in the slot pool, the BST
    /// order invariant holds, and storage is consistent (the occupied slots
    /// are exactly the tree's slots, and the occupied count is the element
    /// count).
    pub closed spec fn well_formed(self) -> bool {
        &&& self.storage.inv()
        &&& self.storage.data@.len() == SIZE as int
        &&& self.storage.length == self.shape@.size()
        &&& self.shape@.linked(self.storage.data@, None)
        &&& self.shape@.root_idx() == self.head
        &&& self.shape@.ordered()
        &&& (forall|j: int|
            0 <= j < SIZE as int ==> ((#[trigger] self.storage.data@[j]).occupied
                <==> self.shape@.idxs().contains(j as usize)))
    }

    /// Create an empty tree over a freshly initialized pool of `SIZE` slots.
    pub fn new() -> (r: Self)
        requires
            SIZE <= POOL_LIMIT,
        ensures
            r.well_formed(),
            r@ == Map::<u64, D>::empty(),
            r.spec_len() == 0,
    {
        let storage = Storage::new(SIZE);
        Bst { storage, head: None, shape: Ghost(TreeShape::Empty) }
    }

    /// The number of stored payloads.
    pub fn len(&self) -> (r: usize)
        requires
            self.well_formed(),
        ensures
            r == self.spec_len(),
    {
        self.storage.len()
    }

    /// The payload at the root of the tree, or `None` when the tree is empty.
    pub fn head(&self) -> (r: Option<D>)
        requires
            self.well_formed(),
        ensures
            r == self.spec_tree().root_item(),
    {
        match self.head {
            None => None,
            Some(i) => {
                let slot = self.storage.data[i];
                Some(slot.node.unwrap().data)
            },
        }
    }

    /// Search for `key`, returning the payload stored under it.
    pub fn search(&self, key: u64) -> (r: Option<D>)
        requires
            self.well_formed(),
        ensures
            r == if self@.contains_key(key) {
                Some(self@[key])
            } else {
                None::<D>
            },
    {
        get_at(&self.storage, Ghost(self.shape@), Ghost(None), self.head, key)
    }

    /// Insert `data` under its ordering key. Fails with `OutOfSpace` when the
    /// pool is exhausted (even for a duplicate key, since a slot is claimed
    /// before the descent), and with `AlreadyExists` when the key is already
    /// present; every failing call leaves the tree unchanged.
    pub fn insert(&mut self, data: D) -> (r: Result<(), Error>)
        requires
            old(self).well_formed(),
        ensures
            final(self).well_formed(),
            match r {
                Ok(()) => {
                    &&& old(self).spec_len() < SIZE
                    &&& !old(self)@.contains_key(data.key_spec())
                    &&& final(self)@ == old(self)@.insert(data.key_spec(), data)
                    &&& final(self).spec_len() == old(self).spec_len() + 1
                },
                Err(Error::OutOfSpace) => {
                    &&& old(self).spec_len() == SIZE
                    &&& final(self)@ == old(self)@
                    &&& final(self).spec_len() == old(self).spec_len()
                },
                Err(Error::AlreadyExists) => {
                    &&& old(self).spec_len() < SIZE
                    &&& old(self)@.contains_key(data.key_spec())
                    &&& final(self)@ == old(self)@
                    &&& final(self).spec_len() == old(self).spec_len()
                },
                Err(Error::NotFound) => false,
            },
    {
        proof {
            self.storage.lemma_len_le_capacity();
        }
        if self.storage.len() == SIZE {
            return Err(Error::OutOfSpace);
        }
        let k = data.ordering_key();
        if self.search(k).is_some() {
            return Err(Error::AlreadyExists);
        }
        let node = Node { data, parent: None, left: None, right: None };
        let ghost pre = *self;
        match self.storage.add(node) {
            Ok(ni) => {
                proof {
                    assert(!pre.storage.data@[ni as int].occupied);
                    assert(!pre.shape@.idxs().contains(ni));
                    pre.shape@.lemma_linked_bounds(pre.storage.data@, None);
                    assert forall|j: usize| pre.shape@.idxs().contains(j) implies self
                        .storage.data@[j as int] == pre.storage.data@[j as int] by {
                        assert(j != ni);
                    }
                    pre.shape@.lemma_linked_frame(pre.storage.data@, self.storage.data@, None);
                }
                match self.head {
                    None => {
                        proof {
                            assert(pre.shape@ is Empty);
                        }
                        self.head = Some(ni);
                        let ghost sh2 = leaf_shape(ni, data);
                        self.shape = Ghost(sh2);
                        proof {
                            lemma_leaf_facts(ni, data, self.storage.data@, None);
                            assert(sh2.as_map() =~= pre.shape@.as_map().insert(
                                data.key_spec(),
                                data,
                            ));
                            assert(sh2.idxs() =~= pre.shape@.idxs().insert(ni));
                            assert forall|j: int| 0 <= j < SIZE as int implies ((
                            #[trigger] self.storage.data@[j]).occupied <==> sh2.idxs().contains(
                                j as usize,
                            )) by {
                                assert(pre.storage.data@[j].occupied <==> pre.shape@.idxs()
                                    .contains(j as usize));
                            }
                        }
                        Ok(())
                    },
                    Some(ri) => {
                        let res = ins_at(
                            &mut self.storage,
                            Ghost(pre.shape@),
                            Ghost(None),
                            ri,
                            ni,
                            data,
                        );
                        self.shape = res;
                        proof {
                            assert forall|j: int| 0 <= j < SIZE as int implies ((
                            #[trigger] self.storage.data@[j]).occupied <==> res@.idxs().contains(
                                j as usize,
                            )) by {
                                assert(pre.storage.data@[j].occupied <==> pre.shape@.idxs()
                                    .contains(j as usize));
                                if j == ni as int {
                                } else {
                                }
                            }
                        }
                        Ok(())
                    },
                }
            },
            Err(_) => {
                proof {
                    assert(false);
                }
                Err(Error::OutOfSpace)
            },
        }
    }

    /// Delete the payload whose ordering key equals `data`'s. Fails with
    /// `NotFound` when the key is absent; a failing call leaves the tree
    /// unchanged. The slot is released only after all relinking completes.
    pub fn delete(&mut self, data: D) -> (r: Result<(), Error>)
        requires
            old(self).well_formed(),
        ensures
            final(self).well_formed(),
            match r {
                Ok(()) => {
                    &&& old(self)@.contains_key(data.key_spec())
                    &&& final(self)@ == old(self)@.remove(data.key_spec())
                    &&& final(self).spec_len() == old(self).spec_len() - 1
                },
                Err(Error::NotFound) => {
                    &&& !old(self)@.contains_key(data.key_spec())
                    &&& final(self)@ == old(self)@
                    &&& final(self).spec_len() == old(self).spec_len()
                },
                _ => false,
            },
    {
        let k = data.ordering_key();
        if self.search(k).is_none() {
            return Err(Error::NotFound);
        }
        let ghost pre = *self;
        proof {
            if pre.shape@ is Empty {
                assert(pre.shape@.as_map() == Map::<u64, D>::empty());
                assert(false);
            }
            assert(self.head is Some);
        }
        let hd = self.head.unwrap();
        let (nr, g2, rm) = del_at(&mut self.storage, Ghost(pre.shape@), None, hd, k);
        self.head = nr;
        self.shape = g2;
        let ghost s1 = self.storage.data@;
        proof {
            pre.shape@.lemma_linked_bounds(pre.storage.data@, None);
            assert(pre.storage.data@[rm as int].occupied);
            assert(self.storage.data@[rm as int].occupied);
            assert(pre.shape@.size() >= 1);
        }
        self.storage.release(rm);
        proof {
            g2@.lemma_linked_bounds(s1, None);
            assert(!g2@.idxs().contains(rm));
            assert forall|j: usize| g2@.idxs().contains(j) implies self.storage.data@[j as int]
                == s1[j as int] by {
                assert(j != rm);
            }
            g2@.lemma_linked_frame(s1, self.storage.data@, None);
            assert forall|j: int| 0 <= j < SIZE as int implies ((
            #[trigger] self.storage.data@[j]).occupied <==> g2@.idxs().contains(j as usize)) by {
                assert(pre.storage.data@[j].occupied <==> pre.shape@.idxs().contains(j as usize));
                if j == rm as int {
                } else {
                }
            }
        }
        Ok(())
    }

    /// In-order traversal: the ascending sequence of stored payloads. The
    /// result lists exactly the stored payloads, in strictly ascending key
    /// order.
    pub fn traverse(&self) -> (r: Vec<D>)
        requires
            self.well_formed(),
        ensures
            r@ == self.spec_tree().inorder(),
            r@.len() == self.spec_len(),
            forall|a: int|
                0 <= a < r@.len() ==> self@.contains_key((#[trigger] r@[a]).key_spec())
                    && self@[r@[a].key_spec()] == r@[a],
            forall|a: int, b: int|
                0 <= a < b < r@.len() ==> (#[trigger] r@[a]).key_spec() < (
                #[trigger] r@[b]).key_spec(),
            forall|q: u64|
                #[trigger] self@.contains_key(q) ==> exists|a: int|
                    0 <= a < r@.len() && (#[trigger] r@[a]).key_spec() == q,
    {
        let mut out: Vec<D> = Vec::new();
        trav_at(&self.storage, Ghost(self.shape@), Ghost(None), self.head, &mut out);
        proof {
            self.shape@.lemma_inorder_sorted();
            assert(out@ =~= self.shape@.inorder());
        }
        out
    }

    /// The payload of the left child of the node holding `key` (`None` when
    /// the key is absent or that node has no left child).
    pub fn left_of(&self, key: u64) -> (r: Option<D>)
        requires
            self.well_formed(),
        ensures
            r == self.spec_tree().spec_left_of(key),
    {
        left_of_at(&self.storage, Ghost(self.shape@), Ghost(None), self.head, key)
    }

    /// The payload of the right child of the node holding `key` (`None` when
    /// the key is absent or that node has no right child).
    pub fn right_of(&self, key: u64) -> (r: Option<D>)
        requires
            self.well_formed(),
        ensures
            r == self.spec_tree().spec_right_of(key),
    {
        right_of_at(&self.storage, Ghost(self.shape@), Ghost(None), self.head, key)
    }

    /// The payload of the parent of the node holding `key` (`None` when the
    /// key is absent or its node is the root).
    pub fn parent_of(&self, key: u64) -> (r: Option<D>)
        requires
            self.well_formed(),
        ensures
            r == self.spec_tree().spec_parent_of(key, None),
    {
        parent_of_at(&self.storage, Ghost(self.shape@), Ghost(None), self.head, key, None)
    }

    /// Count the occupied slots of the pool one by one. Storage consistency:
    /// the count equals the number of stored payloads.
    pub fn occupied_count(&self) -> (r: usize)
        requires
            self.well_formed(),
        ensures
            r == self.spec_len(),
    {
        let mut count: usize = 0;
        let mut j: usize = 0;
        let ghost mut seen = Set::<usize>::empty();
        while j < SIZE
            invariant
                self.well_formed(),
                j <= SIZE,
                count <= j,
                seen.finite(),
                count == seen.len(),
                forall|x: usize|
                    #[trigger] seen.contains(x) <==> ((x as int) < j as int
                        && self.storage.data@[x as int].occupied),
            decreases SIZE - j,
        {
            let slot = self.storage.data[j];
            if slot.occupied {
                count = count + 1;
                proof {
                    assert(!seen.contains(j));
                    seen = seen.insert(j);
                }
            }
            j = j + 1;
        }
        proof {
            self.shape@.lemma_linked_bounds(self.storage.data@, None);
            assert(seen =~= self.shape@.idxs());
            self.shape@.lemma_idxs_size(self.storage.data@, None);
        }
        count
    }

    /// The BST order invariant holds recursively at every node of every
    /// well-formed tree, and the element count equals the tree size.
    pub proof fn lemma_order_invariant(self)
        requires
            self.well_formed(),
        ensures
            self.spec_tree().ordered(),
            self.spec_len() == self.spec_tree().size(),
    {
    }
}

} // verus!
