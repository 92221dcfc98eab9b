//! The red-black rebalancing layer over the intrusive search-tree engine.
//!
//! Nodes live in slots of the fixed-capacity pool, carry parent/left/right
//! links and a one-bit color, and are kept balanced by the classical
//! red-black fixup walks after every insert and delete: the root is black, a
//! red node never has a red child, and every path from a node to a
//! descendant null sentinel passes through the same number of black nodes.
//! The spec-level model is a recursive [`RbShape`] mirroring slot placement,
//! payloads and colors.

use vstd::prelude::*;

use crate::Error;
use crate::storage::{POOL_LIMIT, Slot, Storage};

verus! {

/// The color of a red node.
pub const RED: bool = false;

/// The color of a black node.
pub const BLACK: bool = true;

/// The ordering-key capability for the balanced tree: every storable payload
/// exposes one ordering projection, a `u64` used for all tree comparisons.
pub trait RbtKey: Sized {
    /// The ordering projection of this payload.
    spec fn key_spec(&self) -> u64;

    /// Return the ordering projection.
    fn ordering_key(&self) -> (k: u64)
        ensures
            k == self.key_spec(),
    ;
}

impl RbtKey for u64 {
    open spec fn key_spec(&self) -> u64 {
        *self
    }

    fn ordering_key(&self) -> (k: u64) {
        *self
    }
}

impl RbtKey for u32 {
    open spec fn key_spec(&self) -> u64 {
        *self as u64
    }

    fn ordering_key(&self) -> (k: u64) {
        *self as u64
    }
}

/// One balanced-tree node as it sits inside a slot: the payload, the
/// intrusive parent/left/right links, and the color bit.
#[derive(Clone, Copy)]
pub struct Node<D> {
    pub data: D,
    pub parent: Option<usize>,
    pub left: Option<usize>,
    pub right: Option<usize>,
    pub color: bool,
}

/// The size in bytes of one slot record for payload type `D`: the occupied
/// flag plus the node record with its color bit and all link fields.
pub fn node_size<D>() -> (r: usize)
    ensures
        r == vstd::layout::size_of::<Slot<Node<D>>>(),
{
    core::mem::size_of::<Slot<Node<D>>>()
}

/// The spec-level shape of a subtree: which slot index sits at each tree
/// position, the payload it carries there, and its color.
pub enum RbShape<D> {
    Empty,
    Node {
        idx: usize,
        item: D,
        color: bool,
        left: Box<RbShape<D>>,
        right: Box<RbShape<D>>,
    },
}

impl<D> RbShape<D> {
    /// The slot index of the subtree root, or `None` for an empty subtree.
    pub open spec fn root_idx(self) -> Option<usize> {
        match self {
            RbShape::Empty => None,
            RbShape::Node { idx, .. } => Some(idx),
        }
    }

    /// The payload at the subtree root.
    pub open spec fn root_item(self) -> Option<D> {
        match self {
            RbShape::Empty => None,
            RbShape::Node { item, .. } => Some(item),
        }
    }

    /// Whether the subtree root exists and is red. A null sentinel counts as
    /// black.
    pub open spec fn is_red(self) -> bool {
        match self {
            RbShape::Empty => false,
            RbShape::Node { color, .. } => color == RED,
        }
    }

    /// The color of the subtree root; a null sentinel counts as black.
    pub open spec fn root_color(self) -> bool {
        match self {
            RbShape::Empty => BLACK,
            RbShape::Node { color, .. } => color,
        }
    }

    /// The left subtree (empty for an empty tree).
    pub open spec fn left_sub(self) -> RbShape<D> {
        match self {
            RbShape::Empty => RbShape::Empty,
            RbShape::Node { left, .. } => *left,
        }
    }

    /// The right subtree (empty for an empty tree).
    pub open spec fn right_sub(self) -> RbShape<D> {
        match self {
            RbShape::Empty => RbShape::Empty,
            RbShape::Node { right, .. } => *right,
        }
    }

    /// The same shape with the root's color set to `c`.
    pub open spec fn with_color(self, c: bool) -> RbShape<D> {
        match self {
            RbShape::Empty => RbShape::Empty,
            RbShape::Node { idx, item, color, left, right } => RbShape::Node {
                idx,
                item,
                color: c,
                left,
                right,
            },
        }
    }

    /// The set of slot indices used by this subtree.
    pub open spec fn idxs(self) -> Set<usize>
        decreases self,
    {
        match self {
            RbShape::Empty => Set::empty(),
            RbShape::Node { idx, left, right, .. } => left.idxs().union(right.idxs()).insert(idx),
        }
    }

    /// The number of nodes in this subtree.
    pub open spec fn size(self) -> nat
        decreases self,
    {
        match self {
            RbShape::Empty => 0,
            RbShape::Node { left, right, .. } => 1 + left.size() + right.size(),
        }
    }

    /// The height of a subtree: the number of nodes on the longest path from
    /// the root down to a null sentinel.
    pub open spec fn height(self) -> nat
        decreases self,
    {
        match self {
            RbShape::Empty => 0,
            RbShape::Node { left, right, .. } => 1 + if left.height() >= right.height() {
                left.height()
            } else {
                right.height()
            },
        }
    }

    /// Black-height: the number of black nodes on a path from this subtree's
    /// root down to a null sentinel, the root included.
    pub open spec fn bh(self) -> nat
        decreases self,
    {
        match self {
            RbShape::Empty => 0,
            RbShape::Node { color, left, .. } => left.bh() + if color == BLACK {
                1nat
            } else {
                0nat
            },
        }
    }

    /// The red-black invariants inside this subtree: a red node never has a
    /// red child, and the black-height is equal along every path.
    pub open spec fn rb_valid(self) -> bool
        decreases self,
    {
        match self {
            RbShape::Empty => true,
            RbShape::Node { color, left, right, .. } => {
                &&& (color == RED ==> !left.is_red() && !right.is_red())
                &&& left.bh() == right.bh()
                &&& left.rb_valid()
                &&& right.rb_valid()
            },
        }
    }

    /// The red-black invariants everywhere except possibly a red root with a
    /// red child.
    pub open spec fn rb_almost(self) -> bool {
        match self {
            RbShape::Empty => true,
            RbShape::Node { left, right, .. } => {
                &&& left.bh() == right.bh()
                &&& left.rb_valid()
                &&& right.rb_valid()
            },
        }
    }

    /// The left-rotated shape: the right child becomes the subtree root and
    /// the old root becomes its left child, colors travelling with their
    /// nodes. In-order key order is preserved.
    pub open spec fn rotl_spec(self) -> RbShape<D> {
        match self {
            RbShape::Empty => self,
            RbShape::Node { idx, item, color, left, right } => {
                match *right {
                    RbShape::Empty => RbShape::Node { idx, item, color, left, right },
                    RbShape::Node { idx: yi, item: yit, color: yc, left: b, right: c } => {
                        RbShape::Node {
                            idx: yi,
                            item: yit,
                            color: yc,
                            left: Box::new(
                                RbShape::Node { idx, item, color, left, right: b },
                            ),
                            right: c,
                        }
                    },
                }
            },
        }
    }

    /// The right-rotated shape: the mirror image of `rotl_spec`.
    pub open spec fn rotr_spec(self) -> RbShape<D> {
        match self {
            RbShape::Empty => self,
            RbShape::Node { idx, item, color, left, right } => {
                match *left {
                    RbShape::Empty => RbShape::Node { idx, item, color, left, right },
                    RbShape::Node { idx: yi, item: yit, color: yc, left: a, right: b } => {
                        RbShape::Node {
                            idx: yi,
                            item: yit,
                            color: yc,
                            left: a,
                            right: Box::new(
                                RbShape::Node { idx, item, color, left: b, right },
                            ),
                        }
                    },
                }
            },
        }
    }

    /// The shape is realized in `slots`: every shape node sits in an occupied
    /// slot whose payload, color, parent back-link and child links agree with
    /// the shape, and no slot index is used twice.
    pub open spec fn linked(self, slots: Seq<Slot<Node<D>>>, parent: Option<usize>) -> bool
        decreases self,
    {
        match self {
            RbShape::Empty => true,
            RbShape::Node { idx, item, color, left, right } => {
                &&& (idx as int) < slots.len()
                &&& slots[idx as int].occupied
                &&& slots[idx as int].node is Some
                &&& slots[idx as int].node.unwrap().data == item
                &&& slots[idx as int].node.unwrap().color == color
                &&& slots[idx as int].node.unwrap().parent == parent
                &&& slots[idx as int].node.unwrap().left == left.root_idx()
                &&& slots[idx as int].node.unwrap().right == right.root_idx()
                &&& !left.idxs().contains(idx)
                &&& !right.idxs().contains(idx)
                &&& left.idxs().disjoint(right.idxs())
                &&& left.linked(slots, Some(idx))
                &&& right.linked(slots, Some(idx))
            },
        }
    }

    /// A shape stays realized when none of its slots changed.
    pub proof fn lemma_linked_frame(
        self,
        s1: Seq<Slot<Node<D>>>,
        s2: Seq<Slot<Node<D>>>,
        parent: Option<usize>,
    )
        requires
            self.linked(s1, parent),
            s2.len() == s1.len(),
            forall|j: usize| self.idxs().contains(j) ==> s2[j as int] == s1[j as int],
        ensures
            self.linked(s2, parent),
        decreases self,
    {
        match self {
            RbShape::Empty => {},
            RbShape::Node { idx, item, color, left, right } => {
                left.lemma_linked_frame(s1, s2, Some(idx));
                right.lemma_linked_frame(s1, s2, Some(idx));
            },
        }
    }

    /// Every slot index used by a realized shape is in bounds.
    pub proof fn lemma_linked_bounds(self, slots: Seq<Slot<Node<D>>>, parent: Option<usize>)
        requires
            self.linked(slots, parent),
        ensures
            forall|j: usize| self.idxs().contains(j) ==> (j as int) < slots.len(),
        decreases self,
    {
        match self {
            RbShape::Empty => {},
            RbShape::Node { idx, item, color, left, right } => {
                left.lemma_linked_bounds(slots, Some(idx));
                right.lemma_linked_bounds(slots, Some(idx));
            },
        }
    }

    /// A realized shape occupies exactly `size` distinct slots.
    pub proof fn lemma_idxs_size(self, slots: Seq<Slot<Node<D>>>, parent: Option<usize>)
        requires
            self.linked(slots, parent),
        ensures
            self.idxs().finite(),
            self.idxs().len() == self.size(),
        decreases self,
    {
        match self {
            RbShape::Empty => {
                assert(Set::<usize>::empty().len() == 0);
            },
            RbShape::Node { idx, item, color, left, right } => {
                left.lemma_idxs_size(slots, Some(idx));
                right.lemma_idxs_size(slots, Some(idx));
                vstd::set_lib::lemma_set_disjoint_lens(left.idxs(), right.idxs());
                assert(left.idxs() + right.idxs() =~= left.idxs().union(right.idxs()));
                assert(left.idxs().union(right.idxs()).len() == left.idxs().len()
                    + right.idxs().len());
            },
        }
    }
}

impl<D: RbtKey> RbShape<D> {
    /// The map from each stored ordering key to its payload.
    pub open spec fn as_map(self) -> Map<u64, D>
        decreases self,
    {
        match self {
            RbShape::Empty => Map::empty(),
            RbShape::Node { item, left, right, .. } => left.as_map().union_prefer_right(
                right.as_map(),
            ).insert(item.key_spec(), item),
        }
    }

    /// The BST order invariant: at every node, every key in the left subtree
    /// is strictly smaller and every key in the right subtree strictly larger
    /// than the node's key.
    pub open spec fn ordered(self) -> bool
        decreases self,
    {
        match self {
            RbShape::Empty => true,
            RbShape::Node { item, left, right, .. } => {
                &&& (forall|k: u64|
                    #[trigger] left.as_map().dom().contains(k) ==> k < item.key_spec())
                &&& (forall|k: u64|
                    #[trigger] right.as_map().dom().contains(k) ==> k > item.key_spec())
                &&& left.ordered()
                &&& right.ordered()
            },
        }
    }

    /// The ascending in-order sequence of payloads.
    pub open spec fn inorder(self) -> Seq<D>
        decreases self,
    {
        match self {
            RbShape::Empty => Seq::empty(),
            RbShape::Node { item, left, right, .. } => left.inorder() + seq![item]
                + right.inorder(),
        }
    }

    /// The payload of the left child of the node holding `key`.
    pub open spec fn spec_left_of(self, key: u64) -> Option<D>
        decreases self,
    {
        match self {
            RbShape::Empty => None,
            RbShape::Node { item, left, right, .. } => if key == item.key_spec() {
                left.root_item()
            } else if key < item.key_spec() {
                left.spec_left_of(key)
            } else {
                right.spec_left_of(key)
            },
        }
    }

    /// The payload of the right child of the node holding `key`.
    pub open spec fn spec_right_of(self, key: u64) -> Option<D>
        decreases self,
    {
        match self {
            RbShape::Empty => None,
            RbShape::Node { item, left, right, .. } => if key == item.key_spec() {
                right.root_item()
            } else if key < item.key_spec() {
                left.spec_right_of(key)
            } else {
                right.spec_right_of(key)
            },
        }
    }

    /// The payload of the parent of the node holding `key`, where `above` is
    /// the payload of this subtree's own parent.
    pub open spec fn spec_parent_of(self, key: u64, above: Option<D>) -> Option<D>
        decreases self,
    {
        match self {
            RbShape::Empty => None,
            RbShape::Node { item, left, right, .. } => if key == item.key_spec() {
                above
            } else if key < item.key_spec() {
                left.spec_parent_of(key, Some(item))
            } else {
                right.spec_parent_of(key, Some(item))
            },
        }
    }

    /// The color of the node holding `key`, or `None` when the key is absent.
    pub open spec fn spec_color_of(self, key: u64) -> Option<bool>
        decreases self,
    {
        match self {
            RbShape::Empty => None,
            RbShape::Node { item, color, left, right, .. } => if key == item.key_spec() {
                Some(color)
            } else if key < item.key_spec() {
                left.spec_color_of(key)
            } else {
                right.spec_color_of(key)
            },
        }
    }

    /// The red-black invariants bound the height logarithmically: the height
    /// is at most twice the black-height plus one, while the node count grows
    /// exponentially with the black-height.
    pub proof fn lemma_height_bound(self)
        requires
            self.rb_valid(),
        ensures
            self.height() <= 2 * self.bh() + (if self.is_red() {
                1nat
            } else {
                0nat
            }),
            self.size() + 1 >= vstd::arithmetic::power2::pow2(self.bh()),
        decreases self,
    {
        match self {
            RbShape::Empty => {
                assert(vstd::arithmetic::power2::pow2(0) == 1) by {
                    vstd::arithmetic::power2::lemma2_to64();
                }
            },
            RbShape::Node { idx, item, color, left, right } => {
                left.lemma_height_bound();
                right.lemma_height_bound();
                vstd::arithmetic::power2::lemma_pow2_pos(left.bh());
                if color == BLACK {
                    assert(self.bh() == left.bh() + 1);
                    vstd::arithmetic::power2::lemma_pow2_unfold(self.bh());
                    assert(vstd::arithmetic::power2::pow2(self.bh()) == 2
                        * vstd::arithmetic::power2::pow2(left.bh()));
                } else {
                    assert(!left.is_red() && !right.is_red());
                    assert(self.bh() == left.bh());
                }
            },
        }
    }

    /// A valid nonempty subtree of black-height zero is a single red node.
    pub proof fn lemma_red_leaf(self)
        requires
            self is Node,
            self.rb_valid(),
            self.bh() == 0,
        ensures
            self.is_red(),
            self.left_sub() is Empty,
            self.right_sub() is Empty,
        decreases self,
    {
        reveal_with_fuel(RbShape::bh, 3);
        if !self.is_red() {
            assert(self.bh() >= 1);
            assert(false);
        }
        let l = self.left_sub();
        let r = self.right_sub();
        assert(l.bh() == 0 && r.bh() == 0);
        if l is Node {
            assert(!l.is_red());
            assert(l.bh() >= 1);
            assert(false);
        }
        if r is Node {
            assert(!r.is_red());
            assert(r.bh() >= 1);
            assert(false);
        }
    }

    /// Recoloring a subtree root changes nothing but the color bit.
    pub proof fn lemma_with_color(self, c: bool)
        ensures
            self.with_color(c).as_map() == self.as_map(),
            self.with_color(c).idxs() == self.idxs(),
            self.with_color(c).size() == self.size(),
            self.with_color(c).inorder() == self.inorder(),
            self.with_color(c).ordered() == self.ordered(),
            self.with_color(c).root_idx() == self.root_idx(),
            self.with_color(c).root_item() == self.root_item(),
            self.with_color(c).left_sub() == self.left_sub(),
            self.with_color(c).right_sub() == self.right_sub(),
            self.with_color(c).rb_almost() == self.rb_almost(),
            self.with_color(c).root_color() == (if self is Empty {
                BLACK
            } else {
                c
            }),
    {
        match self {
            RbShape::Empty => {},
            RbShape::Node { idx, item, color, left, right } => {},
        }
    }

    /// A left rotation of an ordered shape keeps the payload map, the slot
    /// set, the size and the order invariant.
    pub proof fn lemma_rotl_props(self)
        requires
            self is Node,
            self.right_sub() is Node,
            self.ordered(),
        ensures
            self.rotl_spec().ordered(),
            self.rotl_spec().as_map() == self.as_map(),
            self.rotl_spec().idxs() == self.idxs(),
            self.rotl_spec().size() == self.size(),
    {
        reveal_with_fuel(RbShape::as_map, 3);
        reveal_with_fuel(RbShape::idxs, 3);
        reveal_with_fuel(RbShape::size, 3);
        reveal_with_fuel(RbShape::ordered, 3);
        let a = self.left_sub();
        let y = self.right_sub();
        let b = y.left_sub();
        let c = y.right_sub();
        let kx = self.root_item().unwrap().key_spec();
        let ky = y.root_item().unwrap().key_spec();
        let rot = self.rotl_spec();
        let xit = self.root_item().unwrap();
        let yit = y.root_item().unwrap();
        let inner = rot.left_sub();
        assert(y.as_map().dom().contains(ky));
        assert(kx < ky);
        assert forall|q: u64| #[trigger] b.as_map().dom().contains(q) implies q > kx && q < ky by {
            assert(y.as_map().dom().contains(q));
        }
        assert forall|q: u64| #[trigger] c.as_map().dom().contains(q) implies q > kx && q > ky by {
            assert(y.as_map().dom().contains(q));
        }
        assert(inner == RbShape::Node {
            idx: self.root_idx().unwrap(),
            item: xit,
            color: self.root_color(),
            left: Box::new(a),
            right: Box::new(b),
        });
        assert(inner.as_map() == a.as_map().union_prefer_right(b.as_map()).insert(kx, xit));
        assert(rot.as_map() == inner.as_map().union_prefer_right(c.as_map()).insert(ky, yit));
        assert(self.as_map() == a.as_map().union_prefer_right(y.as_map()).insert(kx, xit));
        assert(y.as_map() == b.as_map().union_prefer_right(c.as_map()).insert(ky, yit));
        assert forall|q: u64| #[trigger] self.as_map().dom().contains(q) implies rot.as_map().dom().contains(q)
            && rot.as_map()[q] == self.as_map()[q] by {
            if q == kx {
            } else if q == ky {
            } else if a.as_map().dom().contains(q) {
            } else if b.as_map().dom().contains(q) {
            } else {
                assert(c.as_map().dom().contains(q));
            }
        }
        assert forall|q: u64| #[trigger] rot.as_map().dom().contains(q) implies self.as_map().dom().contains(q) by {
            if q == kx {
            } else if q == ky {
            } else if a.as_map().dom().contains(q) {
            } else if b.as_map().dom().contains(q) {
            } else {
                assert(c.as_map().dom().contains(q));
            }
        }
        assert(rot.as_map() =~= self.as_map());
        assert(rot.idxs() =~= self.idxs());
        assert forall|q: u64| #[trigger] inner.as_map().dom().contains(q) implies q < ky by {}
        assert forall|q: u64| #[trigger] a.as_map().dom().contains(q) implies q < kx by {}
        assert(inner.ordered());
        assert(rot.ordered());
    }

    /// A right rotation of an ordered shape keeps the payload map, the slot
    /// set, the size and the order invariant.
    pub proof fn lemma_rotr_props(self)
        requires
            self is Node,
            self.left_sub() is Node,
            self.ordered(),
        ensures
            self.rotr_spec().ordered(),
            self.rotr_spec().as_map() == self.as_map(),
            self.rotr_spec().idxs() == self.idxs(),
            self.rotr_spec().size() == self.size(),
    {
        reveal_with_fuel(RbShape::as_map, 3);
        reveal_with_fuel(RbShape::idxs, 3);
        reveal_with_fuel(RbShape::size, 3);
        reveal_with_fuel(RbShape::ordered, 3);
        let y = self.left_sub();
        let a = y.left_sub();
        let b = y.right_sub();
        let c = self.right_sub();
        let kx = self.root_item().unwrap().key_spec();
        let ky = y.root_item().unwrap().key_spec();
        let rot = self.rotr_spec();
        let xit = self.root_item().unwrap();
        let yit = y.root_item().unwrap();
        let inner = rot.right_sub();
        assert(y.as_map().dom().contains(ky));
        assert(ky < kx);
        assert forall|q: u64| #[trigger] b.as_map().dom().contains(q) implies q < kx && q > ky by {
            assert(y.as_map().dom().contains(q));
        }
        assert forall|q: u64| #[trigger] a.as_map().dom().contains(q) implies q < kx && q < ky by {
            assert(y.as_map().dom().contains(q));
        }
        assert forall|q: u64| #[trigger] c.as_map().dom().contains(q) implies q > kx by {}
        assert(inner == RbShape::Node {
            idx: self.root_idx().unwrap(),
            item: xit,
            color: self.root_color(),
            left: Box::new(b),
            right: Box::new(c),
        });
        assert(inner.as_map() == b.as_map().union_prefer_right(c.as_map()).insert(kx, xit));
        assert(rot.as_map() == a.as_map().union_prefer_right(inner.as_map()).insert(ky, yit));
        assert(self.as_map() == y.as_map().union_prefer_right(c.as_map()).insert(kx, xit));
        assert(y.as_map() == a.as_map().union_prefer_right(b.as_map()).insert(ky, yit));
        assert forall|q: u64| #[trigger] self.as_map().dom().contains(q) implies rot.as_map().dom().contains(q)
            && rot.as_map()[q] == self.as_map()[q] by {
            if q == kx {
            } else if q == ky {
            } else if a.as_map().dom().contains(q) {
            } else if b.as_map().dom().contains(q) {
            } else {
                assert(c.as_map().dom().contains(q));
            }
        }
        assert forall|q: u64| #[trigger] rot.as_map().dom().contains(q) implies self.as_map().dom().contains(q) by {
            if q == kx {
            } else if q == ky {
            } else if a.as_map().dom().contains(q) {
            } else if b.as_map().dom().contains(q) {
            } else {
                assert(c.as_map().dom().contains(q));
            }
        }
        assert(rot.as_map() =~= self.as_map());
        assert(rot.idxs() =~= self.idxs());
        assert forall|q: u64| #[trigger] inner.as_map().dom().contains(q) implies q > ky by {}
        assert(inner.ordered());
        assert(rot.ordered());
    }

    /// In-order traversal of an ordered shape yields exactly the stored
    /// payloads, in strictly ascending key order.
    pub proof fn lemma_inorder_sorted(self)
        requires
            self.ordered(),
        ensures
            self.inorder().len() == self.size(),
            forall|a: int|
                0 <= a < self.inorder().len() ==> self.as_map().dom().contains(
                    (#[trigger] self.inorder()[a]).key_spec(),
                ) && self.as_map()[self.inorder()[a].key_spec()] == self.inorder()[a],
            forall|a: int, b: int|
                0 <= a < b < self.inorder().len() ==> (#[trigger] self.inorder()[a]).key_spec() < (
                #[trigger] self.inorder()[b]).key_spec(),
            forall|q: u64|
                #[trigger] self.as_map().dom().contains(q) ==> exists|a: int|
                    0 <= a < self.inorder().len() && (#[trigger] self.inorder()[a]).key_spec()
                        == q,
        decreases self,
    {
        match self {
            RbShape::Empty => {},
            RbShape::Node { idx, item, color, left, right } => {
                left.lemma_inorder_sorted();
                right.lemma_inorder_sorted();
                let li = left.inorder();
                let ri = right.inorder();
                let s = self.inorder();
                assert(s == li + seq![item] + ri);
                assert(s.len() == li.len() + 1 + ri.len());
                assert forall|a: int|
                    0 <= a < s.len() implies self.as_map().dom().contains(
                    (#[trigger] s[a]).key_spec(),
                ) && self.as_map()[s[a].key_spec()] == s[a] by {
                    if a < li.len() {
                        assert(s[a] == li[a]);
                        assert(left.as_map().dom().contains(li[a].key_spec()));
                        assert(!right.as_map().dom().contains(li[a].key_spec()));
                    } else if a == li.len() {
                        assert(s[a] == item);
                    } else {
                        assert(s[a] == ri[a - li.len() - 1]);
                        assert(right.as_map().dom().contains(s[a].key_spec()));
                    }
                }
                assert forall|a: int, b: int|
                    0 <= a < b < s.len() implies (#[trigger] s[a]).key_spec() < (
                #[trigger] s[b]).key_spec() by {
                    if a < li.len() {
                        assert(s[a] == li[a]);
                        assert(left.as_map().dom().contains(li[a].key_spec()));
                    } else if a == li.len() {
                        assert(s[a] == item);
                    } else {
                        assert(s[a] == ri[a - li.len() - 1]);
                        assert(right.as_map().dom().contains(s[a].key_spec()));
                    }
                    if b < li.len() {
                        assert(s[b] == li[b]);
                        assert(left.as_map().dom().contains(li[b].key_spec()));
                    } else if b == li.len() {
                        assert(s[b] == item);
                    } else {
                        assert(s[b] == ri[b - li.len() - 1]);
                        assert(right.as_map().dom().contains(s[b].key_spec()));
                    }
                }
                assert forall|q: u64| self.as_map().dom().contains(q) implies exists|a: int|
                    0 <= a < s.len() && (#[trigger] s[a]).key_spec() == q by {
                    if left.as_map().dom().contains(q) {
                        let a = choose|a: int| 0 <= a < li.len() && (#[trigger] li[a]).key_spec()
                            == q;
                        assert(s[a] == li[a]);
                        assert(s[a].key_spec() == q);
                    } else if q == item.key_spec() {
                        assert(s[li.len() as int] == item);
                        assert(s[li.len() as int].key_spec() == q);
                    } else {
                        assert(right.as_map().dom().contains(q));
                        let a = choose|a: int| 0 <= a < ri.len() && (#[trigger] ri[a]).key_spec()
                            == q;
                        assert(s[li.len() + 1 + a] == ri[a]);
                        assert(s[li.len() + 1 + a].key_spec() == q);
                    }
                }
            },
        }
    }
}

/// The shape of a single node in slot `ni` holding `nd` with color `c`.
pub open spec fn leaf_shape<D>(ni: usize, nd: D, c: bool) -> RbShape<D> {
    RbShape::Node {
        idx: ni,
        item: nd,
        color: c,
        left: Box::new(RbShape::Empty),
        right: Box::new(RbShape::Empty),
    }
}

/// Facts about a freshly linked leaf: it is realized in its slot and models
/// the singleton map.
proof fn lemma_leaf_facts<D: RbtKey>(
    ni: usize,
    nd: D,
    c: bool,
    slots: Seq<Slot<Node<D>>>,
    parent: Option<usize>,
)
    requires
        (ni as int) < slots.len(),
        slots[ni as int].occupied,
        slots[ni as int].node == Some(
            Node { data: nd, parent: parent, left: None::<usize>, right: None::<usize>, color: c },
        ),
    ensures
        leaf_shape(ni, nd, c).linked(slots, parent),
        leaf_shape(ni, nd, c).as_map() == Map::<u64, D>::empty().insert(nd.key_spec(), nd),
        leaf_shape(ni, nd, c).idxs() == Set::<usize>::empty().insert(ni),
        leaf_shape(ni, nd, c).ordered(),
        leaf_shape(ni, nd, c).size() == 1,
        leaf_shape(ni, nd, c).rb_valid(),
        leaf_shape(ni, nd, c).bh() == if c == BLACK {
            1nat
        } else {
            0nat
        },
{
    assert(RbShape::<D>::Empty.linked(slots, Some(ni)));
    assert(RbShape::<D>::Empty.as_map() == Map::<u64, D>::empty());
    assert(RbShape::<D>::Empty.idxs() == Set::<usize>::empty());
    assert(RbShape::<D>::Empty.ordered());
    assert(RbShape::<D>::Empty.size() == 0);
    assert(RbShape::<D>::Empty.bh() == 0);
    assert(RbShape::<D>::Empty.rb_valid());
    assert(!RbShape::<D>::Empty.is_red());
    assert(leaf_shape(ni, nd, c).as_map() =~= Map::<u64, D>::empty().insert(nd.key_spec(), nd));
    assert(leaf_shape(ni, nd, c).idxs() =~= Set::<usize>::empty().insert(ni));
}

/// Rotate left about the root of the subtree `sh` in slot `i`: the right
/// child becomes the subtree root. Touches the two pivot nodes' child links,
/// up to three parent back-links, and nothing else; in-order key order is
/// preserved.
fn rotate_left<D: RbtKey + Copy>(
    st: &mut Storage<Node<D>>,
    Ghost(sh): Ghost<RbShape<D>>,
    parent: Option<usize>,
    i: usize,
) -> (res: (usize, Ghost<RbShape<D>>))
    requires
        old(st).inv(),
        sh.linked(old(st).data@, parent),
        sh.ordered(),
        sh.root_idx() == Some(i),
        sh.right_sub() is Node,
    ensures
        final(st).inv(),
        final(st).length == old(st).length,
        final(st).data@.len() == old(st).data@.len(),
        res.1@ == sh.rotl_spec(),
        res.1@.linked(final(st).data@, parent),
        res.1@.root_idx() == Some(res.0),
        res.1@.ordered(),
        res.1@.as_map() == sh.as_map(),
        res.1@.idxs() == sh.idxs(),
        res.1@.size() == sh.size(),
        forall|j: int|
            0 <= j < final(st).data@.len() && !sh.idxs().contains(j as usize)
                ==> final(st).data@[j] == old(st).data@[j],
        forall|j: int|
            0 <= j < final(st).data@.len() ==> #[trigger] final(st).data@[j].occupied == old(
                st,
            ).data@[j].occupied,
{
    proof {
        reveal_with_fuel(RbShape::linked, 3);
        assert(sh is Node);
    }
    let ghost a = sh.left_sub();
    let ghost rsub = sh.right_sub();
    let ghost b = rsub.left_sub();
    let ghost c = rsub.right_sub();
    let slot = st.data[i];
    let node = slot.node.unwrap();
    let ri = node.right.unwrap();
    proof {
        assert(rsub.root_idx() == Some(ri));
        assert(rsub.idxs().contains(ri));
        assert(i != ri);
    }
    let rslot = st.data[ri];
    let rnode = rslot.node.unwrap();
    let bi = rnode.left;
    let mut n2 = node;
    n2.right = bi;
    n2.parent = Some(ri);
    st.set_slot(i, Slot { occupied: true, node: Some(n2) });
    match bi {
        Some(bidx) => {
            proof {
                assert(b is Node);
                assert(b.root_idx() == Some(bidx));
                assert(b.idxs().contains(bidx));
                assert(bidx != i && bidx != ri);
            }
            let bslot = st.data[bidx];
            let mut bn = bslot.node.unwrap();
            bn.parent = Some(i);
            st.set_slot(bidx, Slot { occupied: true, node: Some(bn) });
        },
        None => {},
    }
    let mut y2 = rnode;
    y2.left = Some(i);
    y2.parent = parent;
    st.set_slot(ri, Slot { occupied: true, node: Some(y2) });
    let ghost res_sh = sh.rotl_spec();
    proof {
        a.lemma_linked_bounds(old(st).data@, Some(i));
        b.lemma_linked_bounds(old(st).data@, Some(ri));
        c.lemma_linked_bounds(old(st).data@, Some(ri));
        assert forall|j: usize| a.idxs().contains(j) implies st.data@[j as int] == old(
            st,
        ).data@[j as int] by {
            assert(!rsub.idxs().contains(j));
            assert(j != i && j != ri);
        }
        a.lemma_linked_frame(old(st).data@, st.data@, Some(i));
        assert forall|j: usize| c.idxs().contains(j) implies st.data@[j as int] == old(
            st,
        ).data@[j as int] by {
            assert(rsub.idxs().contains(j));
            assert(!b.idxs().contains(j));
            assert(j != i && j != ri);
        }
        c.lemma_linked_frame(old(st).data@, st.data@, Some(ri));
        if b is Node {
            let bidx = b.root_idx().unwrap();
            let bl = b.left_sub();
            let br = b.right_sub();
            bl.lemma_linked_bounds(old(st).data@, Some(bidx));
            br.lemma_linked_bounds(old(st).data@, Some(bidx));
            assert forall|j: usize| bl.idxs().contains(j) implies st.data@[j as int] == old(
                st,
            ).data@[j as int] by {
                assert(b.idxs().contains(j));
                assert(rsub.idxs().contains(j));
                assert(j != i && j != ri && j != bidx);
            }
            bl.lemma_linked_frame(old(st).data@, st.data@, Some(bidx));
            assert forall|j: usize| br.idxs().contains(j) implies st.data@[j as int] == old(
                st,
            ).data@[j as int] by {
                assert(b.idxs().contains(j));
                assert(rsub.idxs().contains(j));
                assert(j != i && j != ri && j != bidx);
            }
            br.lemma_linked_frame(old(st).data@, st.data@, Some(bidx));
            assert(b.linked(st.data@, Some(i)));
        } else {
            assert(b.linked(st.data@, Some(i)));
        }
        let inner = res_sh.left_sub();
        assert(!a.idxs().contains(i) && !b.idxs().contains(i));
        assert(a.idxs().disjoint(b.idxs()));
        assert(inner.linked(st.data@, Some(ri)));
        assert(!inner.idxs().contains(ri));
        assert(!c.idxs().contains(ri));
        assert(inner.idxs().disjoint(c.idxs()));
        assert(res_sh.linked(st.data@, parent));
        sh.lemma_rotl_props();
    }
    (ri, Ghost(res_sh))
}

/// Rotate right about the root of the subtree `sh` in slot `i`: the left
/// child becomes the subtree root. The mirror image of `rotate_left`.
fn rotate_right<D: RbtKey + Copy>(
    st: &mut Storage<Node<D>>,
    Ghost(sh): Ghost<RbShape<D>>,
    parent: Option<usize>,
    i: usize,
) -> (res: (usize, Ghost<RbShape<D>>))
    requires
        old(st).inv(),
        sh.linked(old(st).data@, parent),
        sh.ordered(),
        sh.root_idx() == Some(i),
        sh.left_sub() is Node,
    ensures
        final(st).inv(),
        final(st).length == old(st).length,
        final(st).data@.len() == old(st).data@.len(),
        res.1@ == sh.rotr_spec(),
        res.1@.linked(final(st).data@, parent),
        res.1@.root_idx() == Some(res.0),
        res.1@.ordered(),
        res.1@.as_map() == sh.as_map(),
        res.1@.idxs() == sh.idxs(),
        res.1@.size() == sh.size(),
        forall|j: int|
            0 <= j < final(st).data@.len() && !sh.idxs().contains(j as usize)
                ==> final(st).data@[j] == old(st).data@[j],
        forall|j: int|
            0 <= j < final(st).data@.len() ==> #[trigger] final(st).data@[j].occupied == old(
                st,
            ).data@[j].occupied,
{
    proof {
        reveal_with_fuel(RbShape::linked, 3);
        assert(sh is Node);
    }
    let ghost lsub = sh.left_sub();
    let ghost a = lsub.left_sub();
    let ghost b = lsub.right_sub();
    let ghost c = sh.right_sub();
    let slot = st.data[i];
    let node = slot.node.unwrap();
    let li = node.left.unwrap();
    proof {
        assert(lsub.root_idx() == Some(li));
        assert(lsub.idxs().contains(li));
        assert(i != li);
    }
    let lslot = st.data[li];
    let lnode = lslot.node.unwrap();
    let bi = lnode.right;
    let mut n2 = node;
    n2.left = bi;
    n2.parent = Some(li);
    st.set_slot(i, Slot { occupied: true, node: Some(n2) });
    match bi {
        Some(bidx) => {
            proof {
                assert(b is Node);
                assert(b.root_idx() == Some(bidx));
                assert(b.idxs().contains(bidx));
                assert(bidx != i && bidx != li);
            }
            let bslot = st.data[bidx];
            let mut bn = bslot.node.unwrap();
            bn.parent = Some(i);
            st.set_slot(bidx, Slot { occupied: true, node: Some(bn) });
        },
        None => {},
    }
    let mut y2 = lnode;
    y2.right = Some(i);
    y2.parent = parent;
    st.set_slot(li, Slot { occupied: true, node: Some(y2) });
    let ghost res_sh = sh.rotr_spec();
    proof {
        a.lemma_linked_bounds(old(st).data@, Some(li));
        b.lemma_linked_bounds(old(st).data@, Some(li));
        c.lemma_linked_bounds(old(st).data@, Some(i));
        assert forall|j: usize| c.idxs().contains(j) implies st.data@[j as int] == old(
            st,
        ).data@[j as int] by {
            assert(!lsub.idxs().contains(j));
            assert(j != i && j != li);
        }
        c.lemma_linked_frame(old(st).data@, st.data@, Some(i));
        assert forall|j: usize| a.idxs().contains(j) implies st.data@[j as int] == old(
            st,
        ).data@[j as int] by {
            assert(lsub.idxs().contains(j));
            assert(!b.idxs().contains(j));
            assert(j != i && j != li);
        }
        a.lemma_linked_frame(old(st).data@, st.data@, Some(li));
        if b is Node {
            let bidx = b.root_idx().unwrap();
            let bl = b.left_sub();
            let br = b.right_sub();
            bl.lemma_linked_bounds(old(st).data@, Some(bidx));
            br.lemma_linked_bounds(old(st).data@, Some(bidx));
            assert forall|j: usize| bl.idxs().contains(j) implies st.data@[j as int] == old(
                st,
            ).data@[j as int] by {
                assert(b.idxs().contains(j));
                assert(lsub.idxs().contains(j));
                assert(j != i && j != li && j != bidx);
            }
            bl.lemma_linked_frame(old(st).data@, st.data@, Some(bidx));
            assert forall|j: usize| br.idxs().contains(j) implies st.data@[j as int] == old(
                st,
            ).data@[j as int] by {
                assert(b.idxs().contains(j));
                assert(lsub.idxs().contains(j));
                assert(j != i && j != li && j != bidx);
            }
            br.lemma_linked_frame(old(st).data@, st.data@, Some(bidx));
            assert(b.linked(st.data@, Some(i)));
        } else {
            assert(b.linked(st.data@, Some(i)));
        }
        let inner = res_sh.right_sub();
        assert(!b.idxs().contains(i) && !c.idxs().contains(i));
        assert(b.idxs().disjoint(c.idxs()));
        assert(inner.linked(st.data@, Some(li)));
        assert(!inner.idxs().contains(li));
        assert(!a.idxs().contains(li));
        assert(inner.idxs().disjoint(a.idxs()));
        assert(a.idxs().disjoint(inner.idxs()));
        assert(res_sh.linked(st.data@, parent));
        sh.lemma_rotr_props();
    }
    (li, Ghost(res_sh))
}

/// Read whether the subtree rooted at `cur` has a red root. A null sentinel
/// counts as black.
fn opt_is_red<D: RbtKey + Copy>(
    st: &Storage<Node<D>>,
    Ghost(sh): Ghost<RbShape<D>>,
    Ghost(parent): Ghost<Option<usize>>,
    cur: Option<usize>,
) -> (r: bool)
    requires
        sh.linked(st.data@, parent),
        sh.root_idx() == cur,
    ensures
        r == sh.is_red(),
{
    match cur {
        None => false,
        Some(i) => {
            proof {
                assert(sh is Node);
            }
            let slot = st.data[i];
            slot.node.unwrap().color == RED
        },
    }
}

/// The outer insert-fixup case on the left: the left child and its left
/// child are both red and the sibling is black, so recolor the left child
/// black and this node red, then rotate right about this node.
fn ins_outer_left<D: RbtKey + Copy>(
    st: &mut Storage<Node<D>>,
    parent: Option<usize>,
    i: usize,
    Ghost(cur): Ghost<RbShape<D>>,
) -> (res: (usize, Ghost<RbShape<D>>))
    requires
        old(st).inv(),
        cur.linked(old(st).data@, parent),
        cur.ordered(),
        cur.root_idx() == Some(i),
        !cur.is_red(),
        cur.left_sub() is Node,
        cur.left_sub().is_red(),
        cur.left_sub().left_sub().is_red(),
        !cur.left_sub().right_sub().is_red(),
        cur.left_sub().rb_almost(),
        !cur.right_sub().is_red(),
        cur.right_sub().rb_valid(),
        cur.left_sub().bh() == cur.right_sub().bh(),
    ensures
        final(st).inv(),
        final(st).length == old(st).length,
        final(st).data@.len() == old(st).data@.len(),
        res.1@.linked(final(st).data@, parent),
        res.1@.root_idx() == Some(res.0),
        res.1@.ordered(),
        res.1@.as_map() == cur.as_map(),
        res.1@.idxs() == cur.idxs(),
        res.1@.size() == cur.size(),
        res.1@.bh() == cur.bh(),
        res.1@.rb_valid(),
        forall|j: int|
            0 <= j < final(st).data@.len() && !cur.idxs().contains(j as usize)
                ==> final(st).data@[j] == old(st).data@[j],
        forall|j: int|
            0 <= j < final(st).data@.len() ==> #[trigger] final(st).data@[j].occupied == old(
                st,
            ).data@[j].occupied,
{
    proof {
        reveal_with_fuel(RbShape::linked, 3);
        assert(cur is Node);
    }
    let ghost lsub = cur.left_sub();
    let ghost rsub = cur.right_sub();
    let slot = st.data[i];
    let node = slot.node.unwrap();
    let li = node.left.unwrap();
    proof {
        assert(lsub.root_idx() == Some(li));
        assert(lsub.idxs().contains(li));
        assert(li != i);
    }
    let lslot = st.data[li];
    let mut ln2 = lslot.node.unwrap();
    ln2.color = BLACK;
    st.set_slot(li, Slot { occupied: true, node: Some(ln2) });
    let mut n2 = node;
    n2.color = RED;
    st.set_slot(i, Slot { occupied: true, node: Some(n2) });
    let ghost lb = lsub.with_color(BLACK);
    let ghost cur1 = RbShape::Node {
        idx: i,
        item: cur.root_item().unwrap(),
        color: RED,
        left: Box::new(lb),
        right: Box::new(rsub),
    };
    proof {
        let ll = lsub.left_sub();
        let lr = lsub.right_sub();
        ll.lemma_linked_bounds(old(st).data@, Some(li));
        lr.lemma_linked_bounds(old(st).data@, Some(li));
        rsub.lemma_linked_bounds(old(st).data@, Some(i));
        assert forall|j: usize| ll.idxs().contains(j) implies st.data@[j as int] == old(
            st,
        ).data@[j as int] by {
            assert(lsub.idxs().contains(j));
            assert(j != li && j != i);
        }
        ll.lemma_linked_frame(old(st).data@, st.data@, Some(li));
        assert forall|j: usize| lr.idxs().contains(j) implies st.data@[j as int] == old(
            st,
        ).data@[j as int] by {
            assert(lsub.idxs().contains(j));
            assert(j != li && j != i);
        }
        lr.lemma_linked_frame(old(st).data@, st.data@, Some(li));
        assert(lb.linked(st.data@, Some(i)));
        assert forall|j: usize| rsub.idxs().contains(j) implies st.data@[j as int] == old(
            st,
        ).data@[j as int] by {
            assert(!lsub.idxs().contains(j));
            assert(j != li && j != i);
        }
        rsub.lemma_linked_frame(old(st).data@, st.data@, Some(i));
        assert(cur1.linked(st.data@, parent));
        lsub.lemma_with_color(BLACK);
        assert(cur1.as_map() =~= cur.as_map());
        assert(cur1.idxs() =~= cur.idxs());
        assert(cur1.ordered());
        assert(cur1.left_sub() is Node);
    }
    let (nr, g) = rotate_right(st, Ghost(cur1), parent, i);
    proof {
        reveal_with_fuel(RbShape::bh, 4);
        reveal_with_fuel(RbShape::rb_valid, 4);
        let rot = g@;
        let ll = lsub.left_sub();
        let lr = lsub.right_sub();
        let inner = rot.right_sub();
        assert(rot == cur1.rotr_spec());
        assert(inner == RbShape::Node {
            idx: i,
            item: cur.root_item().unwrap(),
            color: RED,
            left: Box::new(lr),
            right: Box::new(rsub),
        });
        assert(rot.left_sub() == ll);
        assert(!lr.is_red());
        assert(!rsub.is_red());
        assert(lr.rb_valid() && rsub.rb_valid() && ll.rb_valid());
        assert(lr.bh() == ll.bh());
        assert(lsub.bh() == ll.bh());
        assert(rsub.bh() == lsub.bh());
        assert(inner.rb_valid());
        assert(inner.bh() == lr.bh());
        assert(rot.rb_valid());
        assert(rot.bh() == ll.bh() + 1);
        assert(cur.bh() == lsub.bh() + 1);
        assert(rot.bh() == cur.bh());
    }
    (nr, g)
}

/// The outer insert-fixup case on the right: the mirror image of
/// `ins_outer_left`.
fn ins_outer_right<D: RbtKey + Copy>(
    st: &mut Storage<Node<D>>,
    parent: Option<usize>,
    i: usize,
    Ghost(cur): Ghost<RbShape<D>>,
) -> (res: (usize, Ghost<RbShape<D>>))
    requires
        old(st).inv(),
        cur.linked(old(st).data@, parent),
        cur.ordered(),
        cur.root_idx() == Some(i),
        !cur.is_red(),
        cur.right_sub() is Node,
        cur.right_sub().is_red(),
        cur.right_sub().right_sub().is_red(),
        !cur.right_sub().left_sub().is_red(),
        cur.right_sub().rb_almost(),
        !cur.left_sub().is_red(),
        cur.left_sub().rb_valid(),
        cur.left_sub().bh() == cur.right_sub().bh(),
    ensures
        final(st).inv(),
        final(st).length == old(st).length,
        final(st).data@.len() == old(st).data@.len(),
        res.1@.linked(final(st).data@, parent),
        res.1@.root_idx() == Some(res.0),
        res.1@.ordered(),
        res.1@.as_map() == cur.as_map(),
        res.1@.idxs() == cur.idxs(),
        res.1@.size() == cur.size(),
        res.1@.bh() == cur.bh(),
        res.1@.rb_valid(),
        forall|j: int|
            0 <= j < final(st).data@.len() && !cur.idxs().contains(j as usize)
                ==> final(st).data@[j] == old(st).data@[j],
        forall|j: int|
            0 <= j < final(st).data@.len() ==> #[trigger] final(st).data@[j].occupied == old(
                st,
            ).data@[j].occupied,
{
    proof {
        reveal_with_fuel(RbShape::linked, 3);
        assert(cur is Node);
    }
    let ghost lsub = cur.left_sub();
    let ghost rsub = cur.right_sub();
    let slot = st.data[i];
    let node = slot.node.unwrap();
    let ri = node.right.unwrap();
    proof {
        assert(rsub.root_idx() == Some(ri));
        assert(rsub.idxs().contains(ri));
        assert(ri != i);
    }
    let rslot = st.data[ri];
    let mut rn2 = rslot.node.unwrap();
    rn2.color = BLACK;
    st.set_slot(ri, Slot { occupied: true, node: Some(rn2) });
    let mut n2 = node;
    n2.color = RED;
    st.set_slot(i, Slot { occupied: true, node: Some(n2) });
    let ghost rb = rsub.with_color(BLACK);
    let ghost cur1 = RbShape::Node {
        idx: i,
        item: cur.root_item().unwrap(),
        color: RED,
        left: Box::new(lsub),
        right: Box::new(rb),
    };
    proof {
        let rl = rsub.left_sub();
        let rr = rsub.right_sub();
        rl.lemma_linked_bounds(old(st).data@, Some(ri));
        rr.lemma_linked_bounds(old(st).data@, Some(ri));
        lsub.lemma_linked_bounds(old(st).data@, Some(i));
        assert forall|j: usize| rl.idxs().contains(j) implies st.data@[j as int] == old(
            st,
        ).data@[j as int] by {
            assert(rsub.idxs().contains(j));
            assert(j != ri && j != i);
        }
        rl.lemma_linked_frame(old(st).data@, st.data@, Some(ri));
        assert forall|j: usize| rr.idxs().contains(j) implies st.data@[j as int] == old(
            st,
        ).data@[j as int] by {
            assert(rsub.idxs().contains(j));
            assert(j != ri && j != i);
        }
        rr.lemma_linked_frame(old(st).data@, st.data@, Some(ri));
        assert(rb.linked(st.data@, Some(i)));
        assert forall|j: usize| lsub.idxs().contains(j) implies st.data@[j as int] == old(
            st,
        ).data@[j as int] by {
            assert(!rsub.idxs().contains(j));
            assert(j != ri && j != i);
        }
        lsub.lemma_linked_frame(old(st).data@, st.data@, Some(i));
        assert(cur1.linked(st.data@, parent));
        rsub.lemma_with_color(BLACK);
        assert(cur1.as_map() =~= cur.as_map());
        assert(cur1.idxs() =~= cur.idxs());
        assert(cur1.ordered());
        assert(cur1.right_sub() is Node);
    }
    let (nr, g) = rotate_left(st, Ghost(cur1), parent, i);
    proof {
        reveal_with_fuel(RbShape::bh, 4);
        reveal_with_fuel(RbShape::rb_valid, 4);
        let rot = g@;
        let rl = rsub.left_sub();
        let rr = rsub.right_sub();
        let inner = rot.left_sub();
        assert(rot == cur1.rotl_spec());
        assert(inner == RbShape::Node {
            idx: i,
            item: cur.root_item().unwrap(),
            color: RED,
            left: Box::new(lsub),
            right: Box::new(rl),
        });
        assert(rot.right_sub() == rr);
        assert(!rl.is_red());
        assert(!lsub.is_red());
        assert(rl.rb_valid() && lsub.rb_valid() && rr.rb_valid());
        assert(rl.bh() == rr.bh());
        assert(rsub.bh() == rl.bh());
        assert(lsub.bh() == rsub.bh());
        assert(inner.rb_valid());
        assert(inner.bh() == lsub.bh());
        assert(rot.rb_valid());
        assert(rot.bh() == inner.bh() + 1);
        assert(cur.bh() == lsub.bh() + 1);
        assert(rot.bh() == cur.bh());
    }
    (nr, g)
}

/// Restore the red-black invariants at the black node in slot `i` after an
/// insert into its left subtree: recolor when the uncle is red, otherwise
/// rotate (once for the outer case, twice for the zig-zag case).
fn ins_fix_left<D: RbtKey + Copy>(
    st: &mut Storage<Node<D>>,
    parent: Option<usize>,
    i: usize,
    Ghost(cur): Ghost<RbShape<D>>,
) -> (res: (usize, Ghost<RbShape<D>>))
    requires
        old(st).inv(),
        cur.linked(old(st).data@, parent),
        cur.ordered(),
        cur.root_idx() == Some(i),
        !cur.is_red(),
        cur.left_sub().rb_almost(),
        cur.left_sub().is_red() ==> !(cur.left_sub().left_sub().is_red()
            && cur.left_sub().right_sub().is_red()),
        cur.right_sub().rb_valid(),
        cur.left_sub().bh() == cur.right_sub().bh(),
    ensures
        final(st).inv(),
        final(st).length == old(st).length,
        final(st).data@.len() == old(st).data@.len(),
        res.1@.linked(final(st).data@, parent),
        res.1@.root_idx() == Some(res.0),
        res.1@.ordered(),
        res.1@.as_map() == cur.as_map(),
        res.1@.idxs() == cur.idxs(),
        res.1@.size() == cur.size(),
        res.1@.bh() == cur.bh(),
        res.1@.rb_valid(),
        forall|j: int|
            0 <= j < final(st).data@.len() && !cur.idxs().contains(j as usize)
                ==> final(st).data@[j] == old(st).data@[j],
        forall|j: int|
            0 <= j < final(st).data@.len() ==> #[trigger] final(st).data@[j].occupied == old(
                st,
            ).data@[j].occupied,
{
    proof {
        reveal_with_fuel(RbShape::linked, 3);
        assert(cur is Node);
    }
    let ghost lsub = cur.left_sub();
    let ghost rsub = cur.right_sub();
    let slot = st.data[i];
    let node = slot.node.unwrap();
    let lred = opt_is_red(st, Ghost(lsub), Ghost(Some(i)), node.left);
    if !lred {
        proof {
            assert(lsub.rb_valid());
            assert(cur.rb_valid());
        }
        return (i, Ghost(cur));
    }
    proof {
        assert(lsub is Node);
    }
    let li = node.left.unwrap();
    let lslot = st.data[li];
    let lnode = lslot.node.unwrap();
    let ghost ll = lsub.left_sub();
    let ghost lrsub = lsub.right_sub();
    let ll_red = opt_is_red(st, Ghost(ll), Ghost(Some(li)), lnode.left);
    let lr_red = opt_is_red(st, Ghost(lrsub), Ghost(Some(li)), lnode.right);
    if !ll_red && !lr_red {
        proof {
            assert(lsub.rb_valid());
            assert(cur.rb_valid());
        }
        return (i, Ghost(cur));
    }
    let uncle_red = opt_is_red(st, Ghost(rsub), Ghost(Some(i)), node.right);
    if uncle_red {
        proof {
            assert(rsub is Node);
            assert(lsub.idxs().contains(li));
            assert(li != i);
        }
        let mut ln2 = lnode;
        ln2.color = BLACK;
        st.set_slot(li, Slot { occupied: true, node: Some(ln2) });
        let ui = node.right.unwrap();
        proof {
            assert(rsub.idxs().contains(ui));
            assert(ui != i && ui != li);
        }
        let uslot = st.data[ui];
        let mut un2 = uslot.node.unwrap();
        un2.color = BLACK;
        st.set_slot(ui, Slot { occupied: true, node: Some(un2) });
        let mut n2 = node;
        n2.color = RED;
        st.set_slot(i, Slot { occupied: true, node: Some(n2) });
        let ghost lb = lsub.with_color(BLACK);
        let ghost ub = rsub.with_color(BLACK);
        let ghost res_sh = RbShape::Node {
            idx: i,
            item: cur.root_item().unwrap(),
            color: RED,
            left: Box::new(lb),
            right: Box::new(ub),
        };
        proof {
            reveal_with_fuel(RbShape::bh, 3);
            reveal_with_fuel(RbShape::rb_valid, 3);
            let lr = lsub.right_sub();
            let rl = rsub.left_sub();
            let rr = rsub.right_sub();
            ll.lemma_linked_bounds(old(st).data@, Some(li));
            lr.lemma_linked_bounds(old(st).data@, Some(li));
            rl.lemma_linked_bounds(old(st).data@, Some(ui));
            rr.lemma_linked_bounds(old(st).data@, Some(ui));
            assert forall|j: usize| ll.idxs().contains(j) implies st.data@[j as int] == old(
                st,
            ).data@[j as int] by {
                assert(lsub.idxs().contains(j));
                assert(!rsub.idxs().contains(j));
                assert(j != li && j != i && j != ui);
            }
            ll.lemma_linked_frame(old(st).data@, st.data@, Some(li));
            assert forall|j: usize| lr.idxs().contains(j) implies st.data@[j as int] == old(
                st,
            ).data@[j as int] by {
                assert(lsub.idxs().contains(j));
                assert(!rsub.idxs().contains(j));
                assert(j != li && j != i && j != ui);
            }
            lr.lemma_linked_frame(old(st).data@, st.data@, Some(li));
            assert forall|j: usize| rl.idxs().contains(j) implies st.data@[j as int] == old(
                st,
            ).data@[j as int] by {
                assert(rsub.idxs().contains(j));
                assert(!lsub.idxs().contains(j));
                assert(j != li && j != i && j != ui);
            }
            rl.lemma_linked_frame(old(st).data@, st.data@, Some(ui));
            assert forall|j: usize| rr.idxs().contains(j) implies st.data@[j as int] == old(
                st,
            ).data@[j as int] by {
                assert(rsub.idxs().contains(j));
                assert(!lsub.idxs().contains(j));
                assert(j != li && j != i && j != ui);
            }
            rr.lemma_linked_frame(old(st).data@, st.data@, Some(ui));
            assert(lb.linked(st.data@, Some(i)));
            assert(ub.linked(st.data@, Some(i)));
            assert(res_sh.linked(st.data@, parent));
            lsub.lemma_with_color(BLACK);
            rsub.lemma_with_color(BLACK);
            assert(res_sh.as_map() =~= cur.as_map());
            assert(res_sh.idxs() =~= cur.idxs());
            assert(res_sh.ordered());
            assert(lb.rb_valid());
            assert(ub.rb_valid());
            assert(lb.bh() == lsub.bh() + 1);
            assert(ub.bh() == rsub.bh() + 1);
            assert(res_sh.rb_valid());
            assert(res_sh.bh() == cur.bh());
        }
        return (i, Ghost(res_sh));
    }
    if ll_red {
        proof {
            assert(!lrsub.is_red());
            assert(!rsub.is_red());
        }
        ins_outer_left(st, parent, i, Ghost(cur))
    } else {
        proof {
            assert(lrsub.is_red());
            assert(lrsub is Node);
            assert(!ll.is_red());
            assert(!rsub.is_red());
        }
        let (nl, gl) = rotate_left(st, Ghost(lsub), Some(i), li);
        let ghost lsub2 = gl@;
        let ghost s1 = st.data@;
        proof {
            assert(!lsub.idxs().contains(i));
            assert(st.data@[i as int] == old(st).data@[i as int]);
        }
        let slot2 = st.data[i];
        let mut n2 = slot2.node.unwrap();
        n2.left = Some(nl);
        st.set_slot(i, Slot { occupied: true, node: Some(n2) });
        let ghost cur2 = RbShape::Node {
            idx: i,
            item: cur.root_item().unwrap(),
            color: BLACK,
            left: Box::new(lsub2),
            right: Box::new(rsub),
        };
        proof {
            reveal_with_fuel(RbShape::bh, 4);
            reveal_with_fuel(RbShape::rb_valid, 4);
            rsub.lemma_linked_bounds(old(st).data@, Some(i));
            assert forall|j: usize| rsub.idxs().contains(j) implies st.data@[j as int] == old(
                st,
            ).data@[j as int] by {
                assert(!lsub.idxs().contains(j));
                assert(j != i);
            }
            rsub.lemma_linked_frame(old(st).data@, st.data@, Some(i));
            lsub2.lemma_linked_bounds(s1, Some(i));
            assert forall|j: usize| lsub2.idxs().contains(j) implies st.data@[j as int]
                == s1[j as int] by {
                assert(lsub.idxs().contains(j));
                assert(j != i);
            }
            lsub2.lemma_linked_frame(s1, st.data@, Some(i));
            assert(cur2.linked(st.data@, parent));
            lsub.lemma_rotl_props();
            assert(cur2.as_map() =~= cur.as_map());
            assert(cur2.idxs() =~= cur.idxs());
            assert(cur2.ordered());
            let lrl = lrsub.left_sub();
            let lrr = lrsub.right_sub();
            assert(lsub2 == RbShape::Node {
                idx: lrsub.root_idx().unwrap(),
                item: lrsub.root_item().unwrap(),
                color: RED,
                left: Box::new(
                    RbShape::Node {
                        idx: li,
                        item: lsub.root_item().unwrap(),
                        color: RED,
                        left: Box::new(ll),
                        right: Box::new(lrl),
                    },
                ),
                right: Box::new(lrr),
            });
            assert(!lrl.is_red() && !lrr.is_red());
            assert(lrl.rb_valid() && lrr.rb_valid() && ll.rb_valid());
            assert(lrsub.bh() == lrl.bh() && lrl.bh() == lrr.bh());
            assert(ll.bh() == lrsub.bh());
            assert(lsub2.left_sub().rb_valid());
            assert(lsub2.left_sub().bh() == ll.bh());
            assert(lsub2.rb_almost());
            assert(lsub2.is_red() && lsub2.left_sub().is_red() && !lsub2.right_sub().is_red());
            assert(lsub2.bh() == lsub.bh());
            assert(cur2.left_sub() == lsub2 && cur2.right_sub() == rsub);
            assert(cur2.bh() == cur.bh());
        }
        let (nr, g) = ins_outer_left(st, parent, i, Ghost(cur2));
        proof {
            assert(g@.as_map() == cur.as_map());
            assert(g@.idxs() == cur.idxs());
        }
        (nr, g)
    }
}

/// Restore the red-black invariants at the black node in slot `i` after an
/// insert into its right subtree: the mirror image of `ins_fix_left`.
fn ins_fix_right<D: RbtKey + Copy>(
    st: &mut Storage<Node<D>>,
    parent: Option<usize>,
    i: usize,
    Ghost(cur): Ghost<RbShape<D>>,
) -> (res: (usize, Ghost<RbShape<D>>))
    requires
        old(st).inv(),
        cur.linked(old(st).data@, parent),
        cur.ordered(),
        cur.root_idx() == Some(i),
        !cur.is_red(),
        cur.right_sub().rb_almost(),
        cur.right_sub().is_red() ==> !(cur.right_sub().left_sub().is_red()
            && cur.right_sub().right_sub().is_red()),
        cur.left_sub().rb_valid(),
        cur.left_sub().bh() == cur.right_sub().bh(),
    ensures
        final(st).inv(),
        final(st).length == old(st).length,
        final(st).data@.len() == old(st).data@.len(),
        res.1@.linked(final(st).data@, parent),
        res.1@.root_idx() == Some(res.0),
        res.1@.ordered(),
        res.1@.as_map() == cur.as_map(),
        res.1@.idxs() == cur.idxs(),
        res.1@.size() == cur.size(),
        res.1@.bh() == cur.bh(),
        res.1@.rb_valid(),
        forall|j: int|
            0 <= j < final(st).data@.len() && !cur.idxs().contains(j as usize)
                ==> final(st).data@[j] == old(st).data@[j],
        forall|j: int|
            0 <= j < final(st).data@.len() ==> #[trigger] final(st).data@[j].occupied == old(
                st,
            ).data@[j].occupied,
{
    proof {
        reveal_with_fuel(RbShape::linked, 3);
        assert(cur is Node);
    }
    let ghost lsub = cur.left_sub();
    let ghost rsub = cur.right_sub();
    let slot = st.data[i];
    let node = slot.node.unwrap();
    let rred = opt_is_red(st, Ghost(rsub), Ghost(Some(i)), node.right);
    if !rred {
        proof {
            assert(rsub.rb_valid());
            assert(cur.rb_valid());
        }
        return (i, Ghost(cur));
    }
    proof {
        assert(rsub is Node);
    }
    let ri = node.right.unwrap();
    let rslot = st.data[ri];
    let rnode = rslot.node.unwrap();
    let ghost rlsub = rsub.left_sub();
    let ghost rr = rsub.right_sub();
    let rl_red = opt_is_red(st, Ghost(rlsub), Ghost(Some(ri)), rnode.left);
    let rr_red = opt_is_red(st, Ghost(rr), Ghost(Some(ri)), rnode.right);
    if !rl_red && !rr_red {
        proof {
            assert(rsub.rb_valid());
            assert(cur.rb_valid());
        }
        return (i, Ghost(cur));
    }
    let uncle_red = opt_is_red(st, Ghost(lsub), Ghost(Some(i)), node.left);
    if uncle_red {
        proof {
            assert(lsub is Node);
            assert(rsub.idxs().contains(ri));
            assert(ri != i);
        }
        let mut rn2 = rnode;
        rn2.color = BLACK;
        st.set_slot(ri, Slot { occupied: true, node: Some(rn2) });
        let ui = node.left.unwrap();
        proof {
            assert(lsub.idxs().contains(ui));
            assert(ui != i && ui != ri);
        }
        let uslot = st.data[ui];
        let mut un2 = uslot.node.unwrap();
        un2.color = BLACK;
        st.set_slot(ui, Slot { occupied: true, node: Some(un2) });
        let mut n2 = node;
        n2.color = RED;
        st.set_slot(i, Slot { occupied: true, node: Some(n2) });
        let ghost rb = rsub.with_color(BLACK);
        let ghost ub = lsub.with_color(BLACK);
        let ghost res_sh = RbShape::Node {
            idx: i,
            item: cur.root_item().unwrap(),
            color: RED,
            left: Box::new(ub),
            right: Box::new(rb),
        };
        proof {
            reveal_with_fuel(RbShape::bh, 3);
            reveal_with_fuel(RbShape::rb_valid, 3);
            let rl = rsub.left_sub();
            let ul = lsub.left_sub();
            let ur = lsub.right_sub();
            rl.lemma_linked_bounds(old(st).data@, Some(ri));
            rr.lemma_linked_bounds(old(st).data@, Some(ri));
            ul.lemma_linked_bounds(old(st).data@, Some(ui));
            ur.lemma_linked_bounds(old(st).data@, Some(ui));
            assert forall|j: usize| rl.idxs().contains(j) implies st.data@[j as int] == old(
                st,
            ).data@[j as int] by {
                assert(rsub.idxs().contains(j));
                assert(!lsub.idxs().contains(j));
                assert(j != ri && j != i && j != ui);
            }
            rl.lemma_linked_frame(old(st).data@, st.data@, Some(ri));
            assert forall|j: usize| rr.idxs().contains(j) implies st.data@[j as int] == old(
                st,
            ).data@[j as int] by {
                assert(rsub.idxs().contains(j));
                assert(!lsub.idxs().contains(j));
                assert(j != ri && j != i && j != ui);
            }
            rr.lemma_linked_frame(old(st).data@, st.data@, Some(ri));
            assert forall|j: usize| ul.idxs().contains(j) implies st.data@[j as int] == old(
                st,
            ).data@[j as int] by {
                assert(lsub.idxs().contains(j));
                assert(!rsub.idxs().contains(j));
                assert(j != ri && j != i && j != ui);
            }
            ul.lemma_linked_frame(old(st).data@, st.data@, Some(ui));
            assert forall|j: usize| ur.idxs().contains(j) implies st.data@[j as int] == old(
                st,
            ).data@[j as int] by {
                assert(lsub.idxs().contains(j));
                assert(!rsub.idxs().contains(j));
                assert(j != ri && j != i && j != ui);
            }
            ur.lemma_linked_frame(old(st).data@, st.data@, Some(ui));
            assert(rb.linked(st.data@, Some(i)));
            assert(ub.linked(st.data@, Some(i)));
            assert(res_sh.linked(st.data@, parent));
            lsub.lemma_with_color(BLACK);
            rsub.lemma_with_color(BLACK);
            assert(res_sh.as_map() =~= cur.as_map());
            assert(res_sh.idxs() =~= cur.idxs());
            assert(res_sh.ordered());
            assert(rb.rb_valid());
            assert(ub.rb_valid());
            assert(rb.bh() == rsub.bh() + 1);
            assert(ub.bh() == lsub.bh() + 1);
            assert(res_sh.rb_valid());
            assert(res_sh.bh() == cur.bh());
        }
        return (i, Ghost(res_sh));
    }
    if rr_red {
        proof {
            assert(!rlsub.is_red());
            assert(!lsub.is_red());
        }
        ins_outer_right(st, parent, i, Ghost(cur))
    } else {
        proof {
            assert(rlsub.is_red());
            assert(rlsub is Node);
            assert(!rr.is_red());
            assert(!lsub.is_red());
        }
        let (nr0, gr) = rotate_right(st, Ghost(rsub), Some(i), ri);
        let ghost rsub2 = gr@;
        let ghost s1 = st.data@;
        proof {
            assert(!rsub.idxs().contains(i));
            assert(st.data@[i as int] == old(st).data@[i as int]);
        }
        let slot2 = st.data[i];
        let mut n2 = slot2.node.unwrap();
        n2.right = Some(nr0);
        st.set_slot(i, Slot { occupied: true, node: Some(n2) });
        let ghost cur2 = RbShape::Node {
            idx: i,
            item: cur.root_item().unwrap(),
            color: BLACK,
            left: Box::new(lsub),
            right: Box::new(rsub2),
        };
        proof {
            reveal_with_fuel(RbShape::bh, 4);
            reveal_with_fuel(RbShape::rb_valid, 4);
            lsub.lemma_linked_bounds(old(st).data@, Some(i));
            assert forall|j: usize| lsub.idxs().contains(j) implies st.data@[j as int] == old(
                st,
            ).data@[j as int] by {
                assert(!rsub.idxs().contains(j));
                assert(j != i);
            }
            lsub.lemma_linked_frame(old(st).data@, st.data@, Some(i));
            rsub2.lemma_linked_bounds(s1, Some(i));
            assert forall|j: usize| rsub2.idxs().contains(j) implies st.data@[j as int]
                == s1[j as int] by {
                assert(rsub.idxs().contains(j));
                assert(j != i);
            }
            rsub2.lemma_linked_frame(s1, st.data@, Some(i));
            assert(cur2.linked(st.data@, parent));
            rsub.lemma_rotr_props();
            assert(cur2.as_map() =~= cur.as_map());
            assert(cur2.idxs() =~= cur.idxs());
            assert(cur2.ordered());
            let rll = rlsub.left_sub();
            let rlr = rlsub.right_sub();
            assert(rsub2 == RbShape::Node {
                idx: rlsub.root_idx().unwrap(),
                item: rlsub.root_item().unwrap(),
                color: RED,
                left: Box::new(rll),
                right: Box::new(
                    RbShape::Node {
                        idx: ri,
                        item: rsub.root_item().unwrap(),
                        color: RED,
                        left: Box::new(rlr),
                        right: Box::new(rr),
                    },
                ),
            });
            assert(!rll.is_red() && !rlr.is_red());
            assert(rll.rb_valid() && rlr.rb_valid() && rr.rb_valid());
            assert(rlsub.bh() == rll.bh() && rll.bh() == rlr.bh());
            assert(rr.bh() == rlsub.bh());
            assert(rsub2.right_sub().rb_valid());
            assert(rsub2.right_sub().bh() == rr.bh());
            assert(rsub2.rb_almost());
            assert(rsub2.is_red() && rsub2.right_sub().is_red() && !rsub2.left_sub().is_red());
            assert(rsub2.bh() == rsub.bh());
            assert(cur2.left_sub() == lsub && cur2.right_sub() == rsub2);
            assert(cur2.bh() == cur.bh());
        }
        let (nr, g) = ins_outer_right(st, parent, i, Ghost(cur2));
        proof {
            assert(g@.as_map() == cur.as_map());
            assert(g@.idxs() == cur.idxs());
        }
        (nr, g)
    }
}

/// Insert the freshly allocated red leaf `ni` (holding payload `nd`) below
/// the subtree rooted in slot `i`, restoring the red-black invariants on the
/// way back up. The returned subtree is valid except possibly for a red root
/// with one red child, which the caller repairs.
fn rb_ins_at<D: RbtKey + Copy>(
    st: &mut Storage<Node<D>>,
    Ghost(sh): Ghost<RbShape<D>>,
    parent: Option<usize>,
    i: usize,
    ni: usize,
    nd: D,
) -> (res: (usize, Ghost<RbShape<D>>))
    requires
        old(st).inv(),
        sh.linked(old(st).data@, parent),
        sh.ordered(),
        sh.rb_valid(),
        sh.root_idx() == Some(i),
        !sh.as_map().dom().contains(nd.key_spec()),
        ni < old(st).data@.len(),
        !sh.idxs().contains(ni),
        old(st).data@[ni as int].occupied,
    ensures
        final(st).inv(),
        final(st).length == old(st).length,
        final(st).data@.len() == old(st).data@.len(),
        res.1@.linked(final(st).data@, parent),
        res.1@.root_idx() == Some(res.0),
        res.1@.ordered(),
        res.1@.as_map() == sh.as_map().insert(nd.key_spec(), nd),
        res.1@.idxs() == sh.idxs().insert(ni),
        res.1@.size() == sh.size() + 1,
        res.1@.bh() == sh.bh(),
        res.1@.rb_almost(),
        !sh.is_red() ==> res.1@.rb_valid(),
        sh.is_red() ==> res.1@.is_red(),
        res.1@.is_red() ==> !(res.1@.left_sub().is_red() && res.1@.right_sub().is_red()),
        forall|j: int|
            0 <= j < final(st).data@.len() && j != ni && !sh.idxs().contains(j as usize)
                ==> final(st).data@[j] == old(st).data@[j],
        forall|j: int|
            0 <= j < final(st).data@.len() ==> #[trigger] final(st).data@[j].occupied == old(
                st,
            ).data@[j].occupied,
    decreases sh,
{
    let ghost item = sh.root_item().unwrap();
    let ghost lsub = sh.left_sub();
    let ghost rsub = sh.right_sub();
    proof {
        assert(sh is Node);
        assert(sh.idxs().contains(i));
        assert(i != ni);
        assert((i as int) < st.data@.len() && st.data@[i as int].occupied && st.data@[i as int].node
            is Some);
    }
    let slot = st.data[i];
    let node = slot.node.unwrap();
    let key = node.data.ordering_key();
    let nk = nd.ordering_key();
    proof {
        assert(node.data == item);
        assert(sh.as_map().dom().contains(item.key_spec()));
        assert(nk != key);
    }
    if nk < key {
        match node.left {
            Some(li) => {
                proof {
                    assert(lsub.root_idx() == Some(li));
                }
                let (nl, gl) = rb_ins_at(st, Ghost(lsub), Some(i), li, ni, nd);
                let ghost lsh2 = gl@;
                let ghost s1 = st.data@;
                proof {
                    assert(!lsub.idxs().contains(i));
                    assert(st.data@[i as int] == old(st).data@[i as int]);
                }
                let slot2 = st.data[i];
                let mut n2 = slot2.node.unwrap();
                n2.left = Some(nl);
                st.set_slot(i, Slot { occupied: true, node: Some(n2) });
                let ghost cur = RbShape::Node {
                    idx: i,
                    item: item,
                    color: sh.root_color(),
                    left: Box::new(lsh2),
                    right: Box::new(rsub),
                };
                proof {
                    rsub.lemma_linked_bounds(old(st).data@, Some(i));
                    assert forall|j: usize| rsub.idxs().contains(j) implies st.data@[j as int]
                        == old(st).data@[j as int] by {
                        assert(sh.idxs().contains(j));
                        assert(!lsub.idxs().contains(j));
                        assert(j != ni && j != i);
                    }
                    rsub.lemma_linked_frame(old(st).data@, st.data@, Some(i));
                    lsh2.lemma_linked_bounds(s1, Some(i));
                    assert forall|j: usize| lsh2.idxs().contains(j) implies st.data@[j as int]
                        == s1[j as int] by {
                        assert(j != i);
                    }
                    lsh2.lemma_linked_frame(s1, st.data@, Some(i));
                    assert(cur.linked(st.data@, parent));
                    assert(!rsub.as_map().dom().contains(nd.key_spec()));
                    assert(cur.as_map() =~= sh.as_map().insert(nd.key_spec(), nd));
                    assert(cur.idxs() =~= sh.idxs().insert(ni));
                    assert(cur.ordered());
                }
                if node.color == BLACK {
                    let ghost s2 = st.data@;
                    let (nr, g) = ins_fix_left(st, parent, i, Ghost(cur));
                    proof {
                        assert(g@.as_map() == sh.as_map().insert(nd.key_spec(), nd));
                        assert(g@.idxs() == sh.idxs().insert(ni));
                        assert forall|j: int|
                            0 <= j < st.data@.len() && j != ni && !sh.idxs().contains(j as usize)
                            implies st.data@[j] == old(st).data@[j] by {
                            vstd::std_specs::vec::axiom_spec_len(&st.data);
                            assert(j as usize != ni);
                            assert(!sh.idxs().insert(ni).contains(j as usize));
                            assert(!cur.idxs().contains(j as usize));
                            assert(s1[j] == old(st).data@[j]);
                            assert(s2[j] == s1[j]);
                        }
                    }
                    (nr, g)
                } else {
                    proof {
                        assert(sh.is_red());
                        assert(!lsub.is_red() && !rsub.is_red());
                        assert(lsh2.rb_valid());
                        assert(cur.rb_almost());
                        assert(cur.is_red());
                        assert(cur.bh() == sh.bh());
                    }
                    (i, Ghost(cur))
                }
            },
            None => {
                proof {
                    assert(lsub is Empty);
                    assert(lsub.as_map() == Map::<u64, D>::empty());
                    assert(lsub.bh() == 0);
                }
                st.set_slot(
                    ni,
                    Slot {
                        occupied: true,
                        node: Some(
                            Node {
                                data: nd,
                                parent: Some(i),
                                left: None,
                                right: None,
                                color: RED,
                            },
                        ),
                    },
                );
                let mut n2 = node;
                n2.left = Some(ni);
                st.set_slot(i, Slot { occupied: true, node: Some(n2) });
                let ghost leaf = leaf_shape(ni, nd, RED);
                let ghost cur = RbShape::Node {
                    idx: i,
                    item: item,
                    color: sh.root_color(),
                    left: Box::new(leaf),
                    right: Box::new(rsub),
                };
                proof {
                    lemma_leaf_facts(ni, nd, RED, st.data@, Some(i));
                    rsub.lemma_linked_bounds(old(st).data@, Some(i));
                    assert forall|j: usize| rsub.idxs().contains(j) implies st.data@[j as int]
                        == old(st).data@[j as int] by {
                        assert(sh.idxs().contains(j));
                        assert(j != ni && j != i);
                    }
                    rsub.lemma_linked_frame(old(st).data@, st.data@, Some(i));
                    assert(cur.linked(st.data@, parent));
                    assert(cur.as_map() =~= sh.as_map().insert(nd.key_spec(), nd));
                    assert(cur.idxs() =~= sh.idxs().insert(ni));
                    assert(rsub.bh() == 0);
                    assert(cur.rb_almost());
                    assert(cur.bh() == sh.bh());
                    assert(sh.is_red() ==> !rsub.is_red());
                    assert(!sh.is_red() ==> cur.rb_valid());
                }
                (i, Ghost(cur))
            },
        }
    } else {
        proof {
            assert(nk > key);
        }
        match node.right {
            Some(ri) => {
                proof {
                    assert(rsub.root_idx() == Some(ri));
                }
                let (nr0, gr) = rb_ins_at(st, Ghost(rsub), Some(i), ri, ni, nd);
                let ghost rsh2 = gr@;
                let ghost s1 = st.data@;
                proof {
                    assert(!rsub.idxs().contains(i));
                    assert(st.data@[i as int] == old(st).data@[i as int]);
                }
                let slot2 = st.data[i];
                let mut n2 = slot2.node.unwrap();
                n2.right = Some(nr0);
                st.set_slot(i, Slot { occupied: true, node: Some(n2) });
                let ghost cur = RbShape::Node {
                    idx: i,
                    item: item,
                    color: sh.root_color(),
                    left: Box::new(lsub),
                    right: Box::new(rsh2),
                };
                proof {
                    lsub.lemma_linked_bounds(old(st).data@, Some(i));
                    assert forall|j: usize| lsub.idxs().contains(j) implies st.data@[j as int]
                        == old(st).data@[j as int] by {
                        assert(sh.idxs().contains(j));
                        assert(!rsub.idxs().contains(j));
                        assert(j != ni && j != i);
                    }
                    lsub.lemma_linked_frame(old(st).data@, st.data@, Some(i));
                    rsh2.lemma_linked_bounds(s1, Some(i));
                    assert forall|j: usize| rsh2.idxs().contains(j) implies st.data@[j as int]
                        == s1[j as int] by {
                        assert(j != i);
                    }
                    rsh2.lemma_linked_frame(s1, st.data@, Some(i));
                    assert(cur.linked(st.data@, parent));
                    assert(!lsub.as_map().dom().contains(nd.key_spec()));
                    assert(cur.as_map() =~= sh.as_map().insert(nd.key_spec(), nd));
                    assert(cur.idxs() =~= sh.idxs().insert(ni));
                    assert(cur.ordered());
                }
                if node.color == BLACK {
                    let ghost s2 = st.data@;
                    let (nr, g) = ins_fix_right(st, parent, i, Ghost(cur));
                    proof {
                        assert(g@.as_map() == sh.as_map().insert(nd.key_spec(), nd));
                        assert(g@.idxs() == sh.idxs().insert(ni));
                        assert forall|j: int|
                            0 <= j < st.data@.len() && j != ni && !sh.idxs().contains(j as usize)
                            implies st.data@[j] == old(st).data@[j] by {
                            vstd::std_specs::vec::axiom_spec_len(&st.data);
                            assert(j as usize != ni);
                            assert(!sh.idxs().insert(ni).contains(j as usize));
                            assert(!cur.idxs().contains(j as usize));
                            assert(s1[j] == old(st).data@[j]);
                            assert(s2[j] == s1[j]);
                        }
                    }
                    (nr, g)
                } else {
                    proof {
                        assert(sh.is_red());
                        assert(!lsub.is_red() && !rsub.is_red());
                        assert(rsh2.rb_valid());
                        assert(cur.rb_almost());
                        assert(cur.is_red());
                        assert(cur.bh() == sh.bh());
                    }
                    (i, Ghost(cur))
                }
            },
            None => {
                proof {
                    assert(rsub is Empty);
                    assert(rsub.as_map() == Map::<u64, D>::empty());
                    assert(rsub.bh() == 0);
                }
                st.set_slot(
                    ni,
                    Slot {
                        occupied: true,
                        node: Some(
                            Node {
                                data: nd,
                                parent: Some(i),
                                left: None,
                                right: None,
                                color: RED,
                            },
                        ),
                    },
                );
                let mut n2 = node;
                n2.right = Some(ni);
                st.set_slot(i, Slot { occupied: true, node: Some(n2) });
                let ghost leaf = leaf_shape(ni, nd, RED);
                let ghost cur = RbShape::Node {
                    idx: i,
                    item: item,
                    color: sh.root_color(),
                    left: Box::new(lsub),
                    right: Box::new(leaf),
                };
                proof {
                    lemma_leaf_facts(ni, nd, RED, st.data@, Some(i));
                    lsub.lemma_linked_bounds(old(st).data@, Some(i));
                    assert forall|j: usize| lsub.idxs().contains(j) implies st.data@[j as int]
                        == old(st).data@[j as int] by {
                        assert(sh.idxs().contains(j));
                        assert(j != ni && j != i);
                    }
                    lsub.lemma_linked_frame(old(st).data@, st.data@, Some(i));
                    assert(cur.linked(st.data@, parent));
                    assert(cur.as_map() =~= sh.as_map().insert(nd.key_spec(), nd));
                    assert(cur.idxs() =~= sh.idxs().insert(ni));
                    assert(lsub.bh() == 0);
                    assert(cur.rb_almost());
                    assert(cur.bh() == sh.bh());
                    assert(sh.is_red() ==> !lsub.is_red());
                    assert(!sh.is_red() ==> cur.rb_valid());
                }
                (i, Ghost(cur))
            },
        }
    }
}

/// Resolve a left black-height deficit when the sibling is black with a red
/// far (right) child: recolor and rotate left about this node. The deficit is
/// fully repaired.
#[verifier::rlimit(100)]
fn del_far_left<D: RbtKey + Copy>(
    st: &mut Storage<Node<D>>,
    parent: Option<usize>,
    i: usize,
    Ghost(cur): Ghost<RbShape<D>>,
) -> (res: (usize, Ghost<RbShape<D>>))
    requires
        old(st).inv(),
        cur.linked(old(st).data@, parent),
        cur.ordered(),
        cur.root_idx() == Some(i),
        cur.left_sub().rb_valid(),
        cur.right_sub() is Node,
        !cur.right_sub().is_red(),
        cur.right_sub().rb_valid(),
        cur.right_sub().right_sub().is_red(),
        cur.left_sub().bh() + 1 == cur.right_sub().bh(),
    ensures
        final(st).inv(),
        final(st).length == old(st).length,
        final(st).data@.len() == old(st).data@.len(),
        res.1@.linked(final(st).data@, parent),
        res.1@.root_idx() == Some(res.0),
        res.1@.ordered(),
        res.1@.as_map() == cur.as_map(),
        res.1@.idxs() == cur.idxs(),
        res.1@.size() == cur.size(),
        res.1@.rb_valid(),
        res.1@.root_color() == cur.root_color(),
        res.1@.bh() == cur.right_sub().bh() + (if cur.is_red() {
            0nat
        } else {
            1nat
        }),
        forall|j: int|
            0 <= j < final(st).data@.len() && !cur.idxs().contains(j as usize)
                ==> final(st).data@[j] == old(st).data@[j],
        forall|j: int|
            0 <= j < final(st).data@.len() ==> #[trigger] final(st).data@[j].occupied == old(
                st,
            ).data@[j].occupied,
{
    proof {
        reveal_with_fuel(RbShape::linked, 3);
        reveal_with_fuel(RbShape::ordered, 3);
        reveal_with_fuel(RbShape::size, 3);
        assert(cur is Node);
    }
    let ghost lsub = cur.left_sub();
    let ghost w = cur.right_sub();
    let ghost wl = w.left_sub();
    let ghost wr = w.right_sub();
    let slot = st.data[i];
    let node = slot.node.unwrap();
    let wi = node.right.unwrap();
    proof {
        assert(w.root_idx() == Some(wi));
        assert(w.idxs().contains(wi));
        assert(wi != i);
        assert(wr is Node);
    }
    let wslot = st.data[wi];
    let wnode = wslot.node.unwrap();
    let wri = wnode.right.unwrap();
    proof {
        assert(wr.root_idx() == Some(wri));
        assert(wr.idxs().contains(wri));
        assert(w.idxs().contains(wri));
        assert(wri != i && wri != wi);
    }
    let wrslot = st.data[wri];
    let wrnode = wrslot.node.unwrap();
    let c0 = node.color;
    let mut n2 = node;
    n2.color = BLACK;
    st.set_slot(i, Slot { occupied: true, node: Some(n2) });
    let mut wn2 = wnode;
    wn2.color = c0;
    st.set_slot(wi, Slot { occupied: true, node: Some(wn2) });
    let mut wrn2 = wrnode;
    wrn2.color = BLACK;
    st.set_slot(wri, Slot { occupied: true, node: Some(wrn2) });
    let ghost wrb = wr.with_color(BLACK);
    let ghost w1 = RbShape::Node {
        idx: wi,
        item: w.root_item().unwrap(),
        color: cur.root_color(),
        left: Box::new(wl),
        right: Box::new(wrb),
    };
    let ghost cur1 = RbShape::Node {
        idx: i,
        item: cur.root_item().unwrap(),
        color: BLACK,
        left: Box::new(lsub),
        right: Box::new(w1),
    };
    proof {
        let wrl = wr.left_sub();
        let wrr = wr.right_sub();
        lsub.lemma_linked_bounds(old(st).data@, Some(i));
        wl.lemma_linked_bounds(old(st).data@, Some(wi));
        wrl.lemma_linked_bounds(old(st).data@, Some(wri));
        wrr.lemma_linked_bounds(old(st).data@, Some(wri));
        assert forall|j: usize| lsub.idxs().contains(j) implies st.data@[j as int] == old(
            st,
        ).data@[j as int] by {
            assert(!w.idxs().contains(j));
            assert(j != i && j != wi && j != wri);
        }
        lsub.lemma_linked_frame(old(st).data@, st.data@, Some(i));
        assert forall|j: usize| wl.idxs().contains(j) implies st.data@[j as int] == old(
            st,
        ).data@[j as int] by {
            assert(w.idxs().contains(j));
            assert(!wr.idxs().contains(j));
            assert(j != i && j != wi && j != wri);
        }
        wl.lemma_linked_frame(old(st).data@, st.data@, Some(wi));
        assert forall|j: usize| wrl.idxs().contains(j) implies st.data@[j as int] == old(
            st,
        ).data@[j as int] by {
            assert(wr.idxs().contains(j));
            assert(w.idxs().contains(j));
            assert(j != i && j != wi && j != wri);
        }
        wrl.lemma_linked_frame(old(st).data@, st.data@, Some(wri));
        assert forall|j: usize| wrr.idxs().contains(j) implies st.data@[j as int] == old(
            st,
        ).data@[j as int] by {
            assert(wr.idxs().contains(j));
            assert(w.idxs().contains(j));
            assert(j != i && j != wi && j != wri);
        }
        wrr.lemma_linked_frame(old(st).data@, st.data@, Some(wri));
        assert(wrb.linked(st.data@, Some(wi)));
        assert(w1.linked(st.data@, Some(i)));
        assert(cur1.linked(st.data@, parent));
        wr.lemma_with_color(BLACK);
        assert(w1.as_map() =~= w.as_map());
        assert(w1.idxs() =~= w.idxs());
        assert(cur1.as_map() =~= cur.as_map());
        assert(cur1.idxs() =~= cur.idxs());
        assert(w1.size() == w.size());
        assert(cur1.size() == cur.size());
        assert(w1.ordered());
        assert(cur1.ordered());
        assert(cur1.right_sub() is Node);
    }
    let (nr, g) = rotate_left(st, Ghost(cur1), parent, i);
    proof {
        reveal_with_fuel(RbShape::bh, 4);
        reveal_with_fuel(RbShape::rb_valid, 4);
        let rot = g@;
        assert(rot == cur1.rotl_spec());
        let inner = rot.left_sub();
        assert(inner == RbShape::Node {
            idx: i,
            item: cur.root_item().unwrap(),
            color: BLACK,
            left: Box::new(lsub),
            right: Box::new(wl),
        });
        assert(rot.right_sub() == wrb);
        assert(rot.root_color() == cur.root_color());
        wr.lemma_with_color(BLACK);
        assert(wl.rb_valid() && wr.rb_valid() && lsub.rb_valid());
        assert(w.bh() == wl.bh() + 1);
        assert(wl.bh() == wr.bh());
        assert(lsub.bh() == wl.bh());
        assert(inner.rb_valid());
        assert(inner.bh() == lsub.bh() + 1);
        assert(wrb.rb_valid());
        assert(wrb.bh() == wr.bh() + 1);
        assert(inner.bh() == wrb.bh());
        assert(!inner.is_red() && !wrb.is_red());
        assert(rot.rb_valid());
        assert(rot.bh() == inner.bh() + (if cur.is_red() {
            0nat
        } else {
            1nat
        }));
        assert(rot.bh() == w.bh() + (if cur.is_red() {
            0nat
        } else {
            1nat
        }));
    }
    (nr, g)
}

/// Repair a left black-height deficit at the node in slot `i`: the left
/// subtree's black-height is one short of the right's. Applies the classical
/// sibling cases; the deficit either disappears or moves up to this subtree
/// (reported through the returned flag).
#[verifier::rlimit(100)]
fn del_fix_left<D: RbtKey + Copy>(
    st: &mut Storage<Node<D>>,
    parent: Option<usize>,
    i: usize,
    Ghost(cur): Ghost<RbShape<D>>,
) -> (res: (usize, Ghost<RbShape<D>>, bool))
    requires
        old(st).inv(),
        cur.linked(old(st).data@, parent),
        cur.ordered(),
        cur.root_idx() == Some(i),
        cur.left_sub().rb_valid(),
        cur.right_sub().rb_valid(),
        cur.is_red() ==> !cur.right_sub().is_red(),
        cur.left_sub().bh() + 1 == cur.right_sub().bh(),
    ensures
        final(st).inv(),
        final(st).length == old(st).length,
        final(st).data@.len() == old(st).data@.len(),
        res.1@.linked(final(st).data@, parent),
        res.1@.root_idx() == Some(res.0),
        res.1@.ordered(),
        res.1@.as_map() == cur.as_map(),
        res.1@.idxs() == cur.idxs(),
        res.1@.size() == cur.size(),
        res.1@.rb_valid(),
        res.2 ==> res.1@.bh() + 1 == cur.right_sub().bh() + (if cur.is_red() {
            0nat
        } else {
            1nat
        }) && !res.1@.is_red(),
        !res.2 ==> res.1@.bh() == cur.right_sub().bh() + (if cur.is_red() {
            0nat
        } else {
            1nat
        }),
        cur.is_red() ==> !res.2,
        !cur.is_red() ==> !res.1@.is_red(),
        forall|j: int|
            0 <= j < final(st).data@.len() && !cur.idxs().contains(j as usize)
                ==> final(st).data@[j] == old(st).data@[j],
        forall|j: int|
            0 <= j < final(st).data@.len() ==> #[trigger] final(st).data@[j].occupied == old(
                st,
            ).data@[j].occupied,
    decreases cur.size(),
{
    proof {
        reveal_with_fuel(RbShape::linked, 3);
        reveal_with_fuel(RbShape::bh, 3);
        reveal_with_fuel(RbShape::ordered, 3);
        reveal_with_fuel(RbShape::size, 3);
        assert(cur is Node);
    }
    let ghost lsub = cur.left_sub();
    let ghost w = cur.right_sub();
    proof {
        if w is Empty {
            assert(w.bh() == 0);
            assert(false);
        }
    }
    let ghost wl = w.left_sub();
    let ghost wr = w.right_sub();
    let slot = st.data[i];
    let node = slot.node.unwrap();
    let wi = node.right.unwrap();
    proof {
        assert(w.root_idx() == Some(wi));
        assert(w.idxs().contains(wi));
        assert(wi != i);
    }
    let wslot = st.data[wi];
    let wnode = wslot.node.unwrap();
    if wnode.color == RED {
        // Sibling red: this node is black, the sibling's children are black
        // with full height. Recolor and rotate left, then repair in the new,
        // smaller configuration, where the deficit meets a red parent and is
        // absorbed.
        proof {
            assert(!cur.is_red());
            assert(!wl.is_red() && !wr.is_red());
            assert(w.bh() == wl.bh());
            if wl is Empty {
                assert(wl.bh() == 0);
                assert(false);
            }
        }
        let mut wn2 = wnode;
        wn2.color = BLACK;
        st.set_slot(wi, Slot { occupied: true, node: Some(wn2) });
        let mut n2 = node;
        n2.color = RED;
        st.set_slot(i, Slot { occupied: true, node: Some(n2) });
        let ghost wb = w.with_color(BLACK);
        let ghost cur1 = RbShape::Node {
            idx: i,
            item: cur.root_item().unwrap(),
            color: RED,
            left: Box::new(lsub),
            right: Box::new(wb),
        };
        proof {
            lsub.lemma_linked_bounds(old(st).data@, Some(i));
            wl.lemma_linked_bounds(old(st).data@, Some(wi));
            wr.lemma_linked_bounds(old(st).data@, Some(wi));
            assert forall|j: usize| lsub.idxs().contains(j) implies st.data@[j as int] == old(
                st,
            ).data@[j as int] by {
                assert(!w.idxs().contains(j));
                assert(j != i && j != wi);
            }
            lsub.lemma_linked_frame(old(st).data@, st.data@, Some(i));
            assert forall|j: usize| wl.idxs().contains(j) implies st.data@[j as int] == old(
                st,
            ).data@[j as int] by {
                assert(w.idxs().contains(j));
                assert(j != i && j != wi);
            }
            wl.lemma_linked_frame(old(st).data@, st.data@, Some(wi));
            assert forall|j: usize| wr.idxs().contains(j) implies st.data@[j as int] == old(
                st,
            ).data@[j as int] by {
                assert(w.idxs().contains(j));
                assert(j != i && j != wi);
            }
            wr.lemma_linked_frame(old(st).data@, st.data@, Some(wi));
            assert(wb.linked(st.data@, Some(i)));
            assert(cur1.linked(st.data@, parent));
            w.lemma_with_color(BLACK);
            assert(cur1.as_map() =~= cur.as_map());
            assert(cur1.idxs() =~= cur.idxs());
            assert(cur1.size() == cur.size());
            assert(cur1.ordered());
            assert(cur1.right_sub() is Node);
        }
        let (nr0, g1) = rotate_left(st, Ghost(cur1), parent, i);
        let ghost rot = g1@;
        let ghost inner = rot.left_sub();
        proof {
            reveal_with_fuel(RbShape::linked, 2);
            assert(rot == cur1.rotl_spec());
            assert(inner == RbShape::Node {
                idx: i,
                item: cur.root_item().unwrap(),
                color: RED,
                left: Box::new(lsub),
                right: Box::new(wl),
            });
            assert(rot.right_sub() == wr);
            assert(rot.root_idx() == Some(nr0));
            assert(nr0 == wi);
            assert(inner.linked(st.data@, Some(wi)));
            assert(inner.ordered());
            assert(inner.is_red());
            assert(!wl.is_red());
            assert(wl.rb_valid() && lsub.rb_valid());
            assert(lsub.bh() + 1 == wl.bh());
            assert(inner.size() < cur.size());
        }
        let ghost s1 = st.data@;
        let (ir, gi, f2) = del_fix_left(st, Some(wi), i, Ghost(inner));
        proof {
            assert(!f2);
            assert(gi@.bh() == wl.bh());
        }
        let ghost s2 = st.data@;
        proof {
            assert(!inner.idxs().contains(wi));
            assert(st.data@[wi as int] == s1[wi as int]);
        }
        let wslot2 = st.data[wi];
        let mut wn3 = wslot2.node.unwrap();
        wn3.left = Some(ir);
        st.set_slot(wi, Slot { occupied: true, node: Some(wn3) });
        let ghost res_sh = RbShape::Node {
            idx: wi,
            item: w.root_item().unwrap(),
            color: BLACK,
            left: Box::new(gi@),
            right: Box::new(wr),
        };
        proof {
            reveal_with_fuel(RbShape::bh, 3);
            wr.lemma_linked_bounds(s1, Some(wi));
            assert forall|j: usize| wr.idxs().contains(j) implies st.data@[j as int]
                == s1[j as int] by {
                assert(!inner.idxs().contains(j));
                assert(j != wi);
                assert(s2[j as int] == s1[j as int]);
            }
            wr.lemma_linked_frame(s1, st.data@, Some(wi));
            gi@.lemma_linked_bounds(s2, Some(wi));
            assert forall|j: usize| gi@.idxs().contains(j) implies st.data@[j as int]
                == s2[j as int] by {
                assert(inner.idxs().contains(j));
                assert(j != wi);
            }
            gi@.lemma_linked_frame(s2, st.data@, Some(wi));
            assert(res_sh.linked(st.data@, parent));
            assert(res_sh.as_map() =~= rot.as_map());
            assert(res_sh.idxs() =~= rot.idxs());
            assert(res_sh.size() == 1 + gi@.size() + wr.size());
            assert(rot.size() == 1 + inner.size() + wr.size());
            assert(res_sh.size() == cur.size());
            assert(res_sh.ordered());
            assert(gi@.rb_valid() && wr.rb_valid());
            assert(wr.bh() == wl.bh());
            assert(res_sh.rb_valid());
            assert(res_sh.bh() == wl.bh() + 1);
            assert(w.bh() == wl.bh());
            assert(res_sh.bh() == cur.right_sub().bh() + 1);
            assert forall|j: int|
                0 <= j < st.data@.len() && !cur.idxs().contains(j as usize)
                implies st.data@[j] == old(st).data@[j] by {
                assert(!cur1.idxs().contains(j as usize));
                assert(!inner.idxs().contains(j as usize));
                vstd::std_specs::vec::axiom_spec_len(&st.data);
                assert(j as usize != wi);
                assert(s1[j] == old(st).data@[j]);
                assert(s2[j] == s1[j]);
            }
        }
        return (wi, Ghost(res_sh), false);
    }
    // Sibling black.
    let wl_red = opt_is_red(st, Ghost(wl), Ghost(Some(wi)), wnode.left);
    let wr_red = opt_is_red(st, Ghost(wr), Ghost(Some(wi)), wnode.right);
    if wr_red {
        // Far child red: one rotation repairs the deficit.
        proof {
            assert(wr is Node);
        }
        let (nr, g) = del_far_left(st, parent, i, Ghost(cur));
        return (nr, g, false);
    }
    if wl_red {
        // Near child red: rotate at the sibling to expose a red far child,
        // then repair as in the far case.
        proof {
            assert(wl is Node);
            assert(wl.idxs().contains(wl.root_idx().unwrap()));
        }
        let wli = wnode.left.unwrap();
        proof {
            assert(wl.root_idx() == Some(wli));
            assert(wli != i && wli != wi);
        }
        let wlslot = st.data[wli];
        let mut wln2 = wlslot.node.unwrap();
        wln2.color = BLACK;
        st.set_slot(wli, Slot { occupied: true, node: Some(wln2) });
        let mut wn2 = wnode;
        wn2.color = RED;
        st.set_slot(wi, Slot { occupied: true, node: Some(wn2) });
        let ghost wlb = wl.with_color(BLACK);
        let ghost w1 = RbShape::Node {
            idx: wi,
            item: w.root_item().unwrap(),
            color: RED,
            left: Box::new(wlb),
            right: Box::new(wr),
        };
        proof {
            let wll = wl.left_sub();
            let wlr = wl.right_sub();
            wll.lemma_linked_bounds(old(st).data@, Some(wli));
            wlr.lemma_linked_bounds(old(st).data@, Some(wli));
            wr.lemma_linked_bounds(old(st).data@, Some(wi));
            assert forall|j: usize| wll.idxs().contains(j) implies st.data@[j as int] == old(
                st,
            ).data@[j as int] by {
                assert(wl.idxs().contains(j));
                assert(w.idxs().contains(j));
                assert(j != wli && j != wi);
            }
            wll.lemma_linked_frame(old(st).data@, st.data@, Some(wli));
            assert forall|j: usize| wlr.idxs().contains(j) implies st.data@[j as int] == old(
                st,
            ).data@[j as int] by {
                assert(wl.idxs().contains(j));
                assert(w.idxs().contains(j));
                assert(j != wli && j != wi);
            }
            wlr.lemma_linked_frame(old(st).data@, st.data@, Some(wli));
            assert forall|j: usize| wr.idxs().contains(j) implies st.data@[j as int] == old(
                st,
            ).data@[j as int] by {
                assert(w.idxs().contains(j));
                assert(!wl.idxs().contains(j));
                assert(j != wli && j != wi);
            }
            wr.lemma_linked_frame(old(st).data@, st.data@, Some(wi));
            assert(wlb.linked(st.data@, Some(wi)));
            assert(w1.linked(st.data@, Some(i)));
            wl.lemma_with_color(BLACK);
            assert(w1.as_map() =~= w.as_map());
            assert(w1.idxs() =~= w.idxs());
            assert(w1.ordered());
            assert(w1.left_sub() is Node);
        }
        let (nwi, gw) = rotate_right(st, Ghost(w1), Some(i), wi);
        let ghost s1 = st.data@;
        proof {
            assert(!w.idxs().contains(i));
            assert(!w1.idxs().contains(i));
            assert(st.data@[i as int] == old(st).data@[i as int]);
        }
        let slot2 = st.data[i];
        let mut n2 = slot2.node.unwrap();
        n2.right = Some(nwi);
        st.set_slot(i, Slot { occupied: true, node: Some(n2) });
        let ghost gw2 = gw@;
        let ghost cur2 = RbShape::Node {
            idx: i,
            item: cur.root_item().unwrap(),
            color: cur.root_color(),
            left: Box::new(lsub),
            right: Box::new(gw2),
        };
        proof {
            reveal_with_fuel(RbShape::bh, 4);
            reveal_with_fuel(RbShape::rb_valid, 4);
            let wll = wl.left_sub();
            let wlr = wl.right_sub();
            lsub.lemma_linked_bounds(old(st).data@, Some(i));
            assert forall|j: usize| lsub.idxs().contains(j) implies st.data@[j as int] == old(
                st,
            ).data@[j as int] by {
                assert(!w.idxs().contains(j));
                assert(j != i && j != wi && j != wli);
            }
            lsub.lemma_linked_frame(old(st).data@, st.data@, Some(i));
            gw2.lemma_linked_bounds(s1, Some(i));
            assert forall|j: usize| gw2.idxs().contains(j) implies st.data@[j as int]
                == s1[j as int] by {
                assert(w1.idxs().contains(j));
                assert(w.idxs().contains(j));
                assert(j != i);
            }
            gw2.lemma_linked_frame(s1, st.data@, Some(i));
            assert(cur2.linked(st.data@, parent));
            w1.lemma_rotr_props();
            wl.lemma_with_color(BLACK);
            assert(gw2 == w1.rotr_spec());
            assert(gw2 == RbShape::Node {
                idx: wli,
                item: wl.root_item().unwrap(),
                color: BLACK,
                left: Box::new(wll),
                right: Box::new(
                    RbShape::Node {
                        idx: wi,
                        item: w.root_item().unwrap(),
                        color: RED,
                        left: Box::new(wlr),
                        right: Box::new(wr),
                    },
                ),
            });
            assert(cur2.as_map() =~= cur.as_map());
            assert(cur2.idxs() =~= cur.idxs());
            assert(gw2.size() == w1.size());
            assert(w1.size() == w.size());
            assert(cur2.size() == cur.size());
            assert(cur2.ordered());
            assert(!wll.is_red() && !wlr.is_red() && !wr.is_red());
            assert(wll.rb_valid() && wlr.rb_valid() && wr.rb_valid());
            assert(w.bh() == wl.bh() + 1);
            assert(wl.bh() == wr.bh());
            assert(wl.bh() == wll.bh() && wll.bh() == wlr.bh());
            assert(gw2.right_sub().rb_valid());
            assert(gw2.right_sub().bh() == wlr.bh());
            assert(wlr.bh() == wr.bh());
            assert(gw2.rb_valid());
            assert(gw2.bh() == wll.bh() + 1);
            assert(gw2.bh() == w.bh());
            assert(gw2.right_sub().is_red());
            assert(!gw2.is_red());
            assert(cur2.right_sub() == gw2 && cur2.left_sub() == lsub);
            assert(cur2.root_color() == cur.root_color());
            assert(lsub.bh() + 1 == gw2.bh());
        }
        let (nr, g) = del_far_left(st, parent, i, Ghost(cur2));
        proof {
            assert(g@.as_map() == cur.as_map());
            assert(g@.idxs() == cur.idxs());
            assert(g@.bh() == cur.right_sub().bh() + (if cur.is_red() {
                0nat
            } else {
                1nat
            }));
        }
        return (nr, g, false);
    }
    // Sibling black with two black children: recolor the sibling red. If
    // this node is red, blackening it restores the height; otherwise the
    // deficit moves up.
    let mut wn2 = wnode;
    wn2.color = RED;
    st.set_slot(wi, Slot { occupied: true, node: Some(wn2) });
    let ghost wred = w.with_color(RED);
    let ghost s1 = st.data@;
    proof {
        lsub.lemma_linked_bounds(old(st).data@, Some(i));
        wl.lemma_linked_bounds(old(st).data@, Some(wi));
        wr.lemma_linked_bounds(old(st).data@, Some(wi));
        assert forall|j: usize| wl.idxs().contains(j) implies st.data@[j as int] == old(
            st,
        ).data@[j as int] by {
            assert(w.idxs().contains(j));
            assert(j != wi);
        }
        wl.lemma_linked_frame(old(st).data@, st.data@, Some(wi));
        assert forall|j: usize| wr.idxs().contains(j) implies st.data@[j as int] == old(
            st,
        ).data@[j as int] by {
            assert(w.idxs().contains(j));
            assert(j != wi);
        }
        wr.lemma_linked_frame(old(st).data@, st.data@, Some(wi));
        assert(wred.linked(st.data@, Some(i)));
        w.lemma_with_color(RED);
        assert(wred.rb_valid());
        assert(wred.bh() == w.bh() - 1);
    }
    if node.color == RED {
        let mut n2 = node;
        n2.color = BLACK;
        st.set_slot(i, Slot { occupied: true, node: Some(n2) });
        let ghost res_sh = RbShape::Node {
            idx: i,
            item: cur.root_item().unwrap(),
            color: BLACK,
            left: Box::new(lsub),
            right: Box::new(wred),
        };
        proof {
            assert forall|j: usize| lsub.idxs().contains(j) implies st.data@[j as int] == old(
                st,
            ).data@[j as int] by {
                assert(!w.idxs().contains(j));
                assert(j != i && j != wi);
            }
            lsub.lemma_linked_frame(old(st).data@, st.data@, Some(i));
            wred.lemma_linked_bounds(s1, Some(i));
            assert forall|j: usize| wred.idxs().contains(j) implies st.data@[j as int]
                == s1[j as int] by {
                assert(w.idxs().contains(j));
                assert(j != i);
            }
            wred.lemma_linked_frame(s1, st.data@, Some(i));
            assert(res_sh.linked(st.data@, parent));
            assert(res_sh.as_map() =~= cur.as_map());
            assert(res_sh.idxs() =~= cur.idxs());
            assert(res_sh.size() == cur.size());
            assert(res_sh.ordered());
            assert(res_sh.rb_valid());
            assert(res_sh.bh() == lsub.bh() + 1);
            assert(res_sh.bh() == cur.right_sub().bh());
        }
        (i, Ghost(res_sh), false)
    } else {
        let ghost res_sh = RbShape::Node {
            idx: i,
            item: cur.root_item().unwrap(),
            color: BLACK,
            left: Box::new(lsub),
            right: Box::new(wred),
        };
        proof {
            assert forall|j: usize| lsub.idxs().contains(j) implies st.data@[j as int] == old(
                st,
            ).data@[j as int] by {
                assert(!w.idxs().contains(j));
                assert(j != wi);
            }
            lsub.lemma_linked_frame(old(st).data@, st.data@, Some(i));
            assert(st.data@[i as int] == old(st).data@[i as int]);
            assert(res_sh.linked(st.data@, parent));
            assert(res_sh.as_map() =~= cur.as_map());
            assert(res_sh.idxs() =~= cur.idxs());
            assert(res_sh.size() == cur.size());
            assert(res_sh.ordered());
            assert(res_sh.rb_valid());
            assert(res_sh.bh() == lsub.bh() + 1);
            assert(res_sh.bh() + 1 == cur.right_sub().bh() + 1);
        }
        (i, Ghost(res_sh), true)
    }
}

/// Resolve a right black-height deficit when the sibling is black with a red
/// far (left) child: recolor and rotate right about this node. The deficit is
/// fully repaired.
#[verifier::rlimit(100)]
fn del_far_right<D: RbtKey + Copy>(
    st: &mut Storage<Node<D>>,
    parent: Option<usize>,
    i: usize,
    Ghost(cur): Ghost<RbShape<D>>,
) -> (res: (usize, Ghost<RbShape<D>>))
    requires
        old(st).inv(),
        cur.linked(old(st).data@, parent),
        cur.ordered(),
        cur.root_idx() == Some(i),
        cur.right_sub().rb_valid(),
        cur.left_sub() is Node,
        !cur.left_sub().is_red(),
        cur.left_sub().rb_valid(),
        cur.left_sub().left_sub().is_red(),
        cur.right_sub().bh() + 1 == cur.left_sub().bh(),
    ensures
        final(st).inv(),
        final(st).length == old(st).length,
        final(st).data@.len() == old(st).data@.len(),
        res.1@.linked(final(st).data@, parent),
        res.1@.root_idx() == Some(res.0),
        res.1@.ordered(),
        res.1@.as_map() == cur.as_map(),
        res.1@.idxs() == cur.idxs(),
        res.1@.size() == cur.size(),
        res.1@.rb_valid(),
        res.1@.root_color() == cur.root_color(),
        res.1@.bh() == cur.left_sub().bh() + (if cur.is_red() {
            0nat
        } else {
            1nat
        }),
        forall|j: int|
            0 <= j < final(st).data@.len() && !cur.idxs().contains(j as usize)
                ==> final(st).data@[j] == old(st).data@[j],
        forall|j: int|
            0 <= j < final(st).data@.len() ==> #[trigger] final(st).data@[j].occupied == old(
                st,
            ).data@[j].occupied,
{
    proof {
        reveal_with_fuel(RbShape::linked, 3);
        reveal_with_fuel(RbShape::ordered, 3);
        reveal_with_fuel(RbShape::size, 3);
        assert(cur is Node);
    }
    let ghost rsub = cur.right_sub();
    let ghost w = cur.left_sub();
    let ghost wl = w.left_sub();
    let ghost wr = w.right_sub();
    let slot = st.data[i];
    let node = slot.node.unwrap();
    let wi = node.left.unwrap();
    proof {
        assert(w.root_idx() == Some(wi));
        assert(w.idxs().contains(wi));
        assert(wi != i);
        assert(wl is Node);
    }
    let wslot = st.data[wi];
    let wnode = wslot.node.unwrap();
    let wli = wnode.left.unwrap();
    proof {
        assert(wl.root_idx() == Some(wli));
        assert(wl.idxs().contains(wli));
        assert(w.idxs().contains(wli));
        assert(wli != i && wli != wi);
    }
    let wlslot = st.data[wli];
    let wlnode = wlslot.node.unwrap();
    let c0 = node.color;
    let mut n2 = node;
    n2.color = BLACK;
    st.set_slot(i, Slot { occupied: true, node: Some(n2) });
    let mut wn2 = wnode;
    wn2.color = c0;
    st.set_slot(wi, Slot { occupied: true, node: Some(wn2) });
    let mut wln2 = wlnode;
    wln2.color = BLACK;
    st.set_slot(wli, Slot { occupied: true, node: Some(wln2) });
    let ghost wlb = wl.with_color(BLACK);
    let ghost w1 = RbShape::Node {
        idx: wi,
        item: w.root_item().unwrap(),
        color: cur.root_color(),
        left: Box::new(wlb),
        right: Box::new(wr),
    };
    let ghost cur1 = RbShape::Node {
        idx: i,
        item: cur.root_item().unwrap(),
        color: BLACK,
        left: Box::new(w1),
        right: Box::new(rsub),
    };
    proof {
        let wll = wl.left_sub();
        let wlr = wl.right_sub();
        rsub.lemma_linked_bounds(old(st).data@, Some(i));
        wr.lemma_linked_bounds(old(st).data@, Some(wi));
        wll.lemma_linked_bounds(old(st).data@, Some(wli));
        wlr.lemma_linked_bounds(old(st).data@, Some(wli));
        assert forall|j: usize| rsub.idxs().contains(j) implies st.data@[j as int] == old(
            st,
        ).data@[j as int] by {
            assert(!w.idxs().contains(j));
            assert(j != i && j != wi && j != wli);
        }
        rsub.lemma_linked_frame(old(st).data@, st.data@, Some(i));
        assert forall|j: usize| wr.idxs().contains(j) implies st.data@[j as int] == old(
            st,
        ).data@[j as int] by {
            assert(w.idxs().contains(j));
            assert(!wl.idxs().contains(j));
            assert(j != i && j != wi && j != wli);
        }
        wr.lemma_linked_frame(old(st).data@, st.data@, Some(wi));
        assert forall|j: usize| wll.idxs().contains(j) implies st.data@[j as int] == old(
            st,
        ).data@[j as int] by {
            assert(wl.idxs().contains(j));
            assert(w.idxs().contains(j));
            assert(j != i && j != wi && j != wli);
        }
        wll.lemma_linked_frame(old(st).data@, st.data@, Some(wli));
        assert forall|j: usize| wlr.idxs().contains(j) implies st.data@[j as int] == old(
            st,
        ).data@[j as int] by {
            assert(wl.idxs().contains(j));
            assert(w.idxs().contains(j));
            assert(j != i && j != wi && j != wli);
        }
        wlr.lemma_linked_frame(old(st).data@, st.data@, Some(wli));
        assert(wlb.linked(st.data@, Some(wi)));
        assert(w1.linked(st.data@, Some(i)));
        assert(cur1.linked(st.data@, parent));
        wl.lemma_with_color(BLACK);
        assert(w1.as_map() =~= w.as_map());
        assert(w1.idxs() =~= w.idxs());
        assert(cur1.as_map() =~= cur.as_map());
        assert(cur1.idxs() =~= cur.idxs());
        assert(w1.size() == w.size());
        assert(cur1.size() == cur.size());
        assert(w1.ordered());
        assert(cur1.ordered());
        assert(cur1.left_sub() is Node);
    }
    let (nr, g) = rotate_right(st, Ghost(cur1), parent, i);
    proof {
        reveal_with_fuel(RbShape::bh, 4);
        reveal_with_fuel(RbShape::rb_valid, 4);
        let rot = g@;
        assert(rot == cur1.rotr_spec());
        let inner = rot.right_sub();
        assert(inner == RbShape::Node {
            idx: i,
            item: cur.root_item().unwrap(),
            color: BLACK,
            left: Box::new(wr),
            right: Box::new(rsub),
        });
        assert(rot.left_sub() == wlb);
        assert(rot.root_color() == cur.root_color());
        wl.lemma_with_color(BLACK);
        assert(wl.rb_valid() && wr.rb_valid() && rsub.rb_valid());
        assert(w.bh() == wl.bh() + 1);
        assert(wl.bh() == wr.bh());
        assert(rsub.bh() == wr.bh());
        assert(inner.rb_valid());
        assert(inner.bh() == wr.bh() + 1);
        assert(wlb.rb_valid());
        assert(wlb.bh() == wl.bh() + 1);
        assert(inner.bh() == wlb.bh());
        assert(!inner.is_red() && !wlb.is_red());
        assert(rot.rb_valid());
        assert(rot.bh() == inner.bh() + (if cur.is_red() {
            0nat
        } else {
            1nat
        }));
        assert(rot.bh() == w.bh() + (if cur.is_red() {
            0nat
        } else {
            1nat
        }));
    }
    (nr, g)
}

/// Repair a right black-height deficit at the node in slot `i`: the right
/// subtree's black-height is one short of the left's. The mirror image of
/// `del_fix_left`.
#[verifier::rlimit(100)]
fn del_fix_right<D: RbtKey + Copy>(
    st: &mut Storage<Node<D>>,
    parent: Option<usize>,
    i: usize,
    Ghost(cur): Ghost<RbShape<D>>,
) -> (res: (usize, Ghost<RbShape<D>>, bool))
    requires
        old(st).inv(),
        cur.linked(old(st).data@, parent),
        cur.ordered(),
        cur.root_idx() == Some(i),
        cur.right_sub().rb_valid(),
        cur.left_sub().rb_valid(),
        cur.is_red() ==> !cur.left_sub().is_red(),
        cur.right_sub().bh() + 1 == cur.left_sub().bh(),
    ensures
        final(st).inv(),
        final(st).length == old(st).length,
        final(st).data@.len() == old(st).data@.len(),
        res.1@.linked(final(st).data@, parent),
        res.1@.root_idx() == Some(res.0),
        res.1@.ordered(),
        res.1@.as_map() == cur.as_map(),
        res.1@.idxs() == cur.idxs(),
        res.1@.size() == cur.size(),
        res.1@.rb_valid(),
        res.2 ==> res.1@.bh() + 1 == cur.left_sub().bh() + (if cur.is_red() {
            0nat
        } else {
            1nat
        }) && !res.1@.is_red(),
        !res.2 ==> res.1@.bh() == cur.left_sub().bh() + (if cur.is_red() {
            0nat
        } else {
            1nat
        }),
        cur.is_red() ==> !res.2,
        !cur.is_red() ==> !res.1@.is_red(),
        forall|j: int|
            0 <= j < final(st).data@.len() && !cur.idxs().contains(j as usize)
                ==> final(st).data@[j] == old(st).data@[j],
        forall|j: int|
            0 <= j < final(st).data@.len() ==> #[trigger] final(st).data@[j].occupied == old(
                st,
            ).data@[j].occupied,
    decreases cur.size(),
{
    proof {
        reveal_with_fuel(RbShape::linked, 3);
        reveal_with_fuel(RbShape::bh, 3);
        reveal_with_fuel(RbShape::ordered, 3);
        reveal_with_fuel(RbShape::size, 3);
        assert(cur is Node);
    }
    let ghost rsub = cur.right_sub();
    let ghost w = cur.left_sub();
    proof {
        if w is Empty {
            assert(w.bh() == 0);
            assert(false);
        }
    }
    let ghost wl = w.left_sub();
    let ghost wr = w.right_sub();
    let slot = st.data[i];
    let node = slot.node.unwrap();
    let wi = node.left.unwrap();
    proof {
        assert(w.root_idx() == Some(wi));
        assert(w.idxs().contains(wi));
        assert(wi != i);
    }
    let wslot = st.data[wi];
    let wnode = wslot.node.unwrap();
    if wnode.color == RED {
        // Sibling red: recolor and rotate right, then repair in the new,
        // smaller configuration, where the deficit meets a red parent and is
        // absorbed.
        proof {
            assert(!cur.is_red());
            assert(!wl.is_red() && !wr.is_red());
            assert(w.bh() == wl.bh());
            if wr is Empty {
                assert(wr.bh() == 0);
                assert(false);
            }
        }
        let mut wn2 = wnode;
        wn2.color = BLACK;
        st.set_slot(wi, Slot { occupied: true, node: Some(wn2) });
        let mut n2 = node;
        n2.color = RED;
        st.set_slot(i, Slot { occupied: true, node: Some(n2) });
        let ghost wb = w.with_color(BLACK);
        let ghost cur1 = RbShape::Node {
            idx: i,
            item: cur.root_item().unwrap(),
            color: RED,
            left: Box::new(wb),
            right: Box::new(rsub),
        };
        proof {
            rsub.lemma_linked_bounds(old(st).data@, Some(i));
            wl.lemma_linked_bounds(old(st).data@, Some(wi));
            wr.lemma_linked_bounds(old(st).data@, Some(wi));
            assert forall|j: usize| rsub.idxs().contains(j) implies st.data@[j as int] == old(
                st,
            ).data@[j as int] by {
                assert(!w.idxs().contains(j));
                assert(j != i && j != wi);
            }
            rsub.lemma_linked_frame(old(st).data@, st.data@, Some(i));
            assert forall|j: usize| wl.idxs().contains(j) implies st.data@[j as int] == old(
                st,
            ).data@[j as int] by {
                assert(w.idxs().contains(j));
                assert(j != i && j != wi);
            }
            wl.lemma_linked_frame(old(st).data@, st.data@, Some(wi));
            assert forall|j: usize| wr.idxs().contains(j) implies st.data@[j as int] == old(
                st,
            ).data@[j as int] by {
                assert(w.idxs().contains(j));
                assert(j != i && j != wi);
            }
            wr.lemma_linked_frame(old(st).data@, st.data@, Some(wi));
            assert(wb.linked(st.data@, Some(i)));
            assert(cur1.linked(st.data@, parent));
            w.lemma_with_color(BLACK);
            assert(cur1.as_map() =~= cur.as_map());
            assert(cur1.idxs() =~= cur.idxs());
            assert(cur1.size() == cur.size());
            assert(cur1.ordered());
            assert(cur1.left_sub() is Node);
        }
        let (nr0, g1) = rotate_right(st, Ghost(cur1), parent, i);
        let ghost rot = g1@;
        let ghost inner = rot.right_sub();
        proof {
            reveal_with_fuel(RbShape::linked, 2);
            assert(rot == cur1.rotr_spec());
            assert(inner == RbShape::Node {
                idx: i,
                item: cur.root_item().unwrap(),
                color: RED,
                left: Box::new(wr),
                right: Box::new(rsub),
            });
            assert(rot.left_sub() == wl);
            assert(rot.root_idx() == Some(nr0));
            assert(nr0 == wi);
            assert(inner.linked(st.data@, Some(wi)));
            assert(inner.ordered());
            assert(inner.is_red());
            assert(!wr.is_red());
            assert(wr.rb_valid() && rsub.rb_valid());
            assert(rsub.bh() + 1 == wr.bh());
            assert(inner.size() < cur.size());
        }
        let ghost s1 = st.data@;
        let (ir, gi, f2) = del_fix_right(st, Some(wi), i, Ghost(inner));
        proof {
            assert(!f2);
            assert(gi@.bh() == wr.bh());
        }
        let ghost s2 = st.data@;
        proof {
            assert(!inner.idxs().contains(wi));
            assert(st.data@[wi as int] == s1[wi as int]);
        }
        let wslot2 = st.data[wi];
        let mut wn3 = wslot2.node.unwrap();
        wn3.right = Some(ir);
        st.set_slot(wi, Slot { occupied: true, node: Some(wn3) });
        let ghost res_sh = RbShape::Node {
            idx: wi,
            item: w.root_item().unwrap(),
            color: BLACK,
            left: Box::new(wl),
            right: Box::new(gi@),
        };
        proof {
            reveal_with_fuel(RbShape::bh, 3);
            wl.lemma_linked_bounds(s1, Some(wi));
            assert forall|j: usize| wl.idxs().contains(j) implies st.data@[j as int]
                == s1[j as int] by {
                assert(!inner.idxs().contains(j));
                assert(j != wi);
                assert(s2[j as int] == s1[j as int]);
            }
            wl.lemma_linked_frame(s1, st.data@, Some(wi));
            gi@.lemma_linked_bounds(s2, Some(wi));
            assert forall|j: usize| gi@.idxs().contains(j) implies st.data@[j as int]
                == s2[j as int] by {
                assert(inner.idxs().contains(j));
                assert(j != wi);
            }
            gi@.lemma_linked_frame(s2, st.data@, Some(wi));
            assert(res_sh.linked(st.data@, parent));
            assert(res_sh.as_map() =~= rot.as_map());
            assert(res_sh.idxs() =~= rot.idxs());
            assert(res_sh.size() == 1 + wl.size() + gi@.size());
            assert(rot.size() == 1 + wl.size() + inner.size());
            assert(res_sh.size() == cur.size());
            assert(res_sh.ordered());
            assert(gi@.rb_valid() && wl.rb_valid());
            assert(wl.bh() == wr.bh());
            assert(res_sh.rb_valid());
            assert(res_sh.bh() == wl.bh() + 1);
            assert(w.bh() == wl.bh());
            assert(res_sh.bh() == cur.left_sub().bh() + 1);
            assert forall|j: int|
                0 <= j < st.data@.len() && !cur.idxs().contains(j as usize)
                implies st.data@[j] == old(st).data@[j] by {
                assert(!cur1.idxs().contains(j as usize));
                assert(!inner.idxs().contains(j as usize));
                vstd::std_specs::vec::axiom_spec_len(&st.data);
                assert(j as usize != wi);
                assert(s1[j] == old(st).data@[j]);
                assert(s2[j] == s1[j]);
            }
        }
        return (wi, Ghost(res_sh), false);
    }
    // Sibling black.
    let wl_red = opt_is_red(st, Ghost(wl), Ghost(Some(wi)), wnode.left);
    let wr_red = opt_is_red(st, Ghost(wr), Ghost(Some(wi)), wnode.right);
    if wl_red {
        // Far child red: one rotation repairs the deficit.
        proof {
            assert(wl is Node);
        }
        let (nr, g) = del_far_right(st, parent, i, Ghost(cur));
        return (nr, g, false);
    }
    if wr_red {
        // Near child red: rotate at the sibling to expose a red far child,
        // then repair as in the far case.
        proof {
            assert(wr is Node);
            assert(wr.idxs().contains(wr.root_idx().unwrap()));
        }
        let wri = wnode.right.unwrap();
        proof {
            assert(wr.root_idx() == Some(wri));
            assert(wri != i && wri != wi);
        }
        let wrslot = st.data[wri];
        let mut wrn2 = wrslot.node.unwrap();
        wrn2.color = BLACK;
        st.set_slot(wri, Slot { occupied: true, node: Some(wrn2) });
        let mut wn2 = wnode;
        wn2.color = RED;
        st.set_slot(wi, Slot { occupied: true, node: Some(wn2) });
        let ghost wrb = wr.with_color(BLACK);
        let ghost w1 = RbShape::Node {
            idx: wi,
            item: w.root_item().unwrap(),
            color: RED,
            left: Box::new(wl),
            right: Box::new(wrb),
        };
        proof {
            let wrl = wr.left_sub();
            let wrr = wr.right_sub();
            wrl.lemma_linked_bounds(old(st).data@, Some(wri));
            wrr.lemma_linked_bounds(old(st).data@, Some(wri));
            wl.lemma_linked_bounds(old(st).data@, Some(wi));
            assert forall|j: usize| wrl.idxs().contains(j) implies st.data@[j as int] == old(
                st,
            ).data@[j as int] by {
                assert(wr.idxs().contains(j));
                assert(w.idxs().contains(j));
                assert(j != wri && j != wi);
            }
            wrl.lemma_linked_frame(old(st).data@, st.data@, Some(wri));
            assert forall|j: usize| wrr.idxs().contains(j) implies st.data@[j as int] == old(
                st,
            ).data@[j as int] by {
                assert(wr.idxs().contains(j));
                assert(w.idxs().contains(j));
                assert(j != wri && j != wi);
            }
            wrr.lemma_linked_frame(old(st).data@, st.data@, Some(wri));
            assert forall|j: usize| wl.idxs().contains(j) implies st.data@[j as int] == old(
                st,
            ).data@[j as int] by {
                assert(w.idxs().contains(j));
                assert(!wr.idxs().contains(j));
                assert(j != wri && j != wi);
            }
            wl.lemma_linked_frame(old(st).data@, st.data@, Some(wi));
            assert(wrb.linked(st.data@, Some(wi)));
            assert(w1.linked(st.data@, Some(i)));
            wr.lemma_with_color(BLACK);
            assert(w1.as_map() =~= w.as_map());
            assert(w1.idxs() =~= w.idxs());
            assert(w1.ordered());
            assert(w1.right_sub() is Node);
        }
        let (nwi, gw) = rotate_left(st, Ghost(w1), Some(i), wi);
        let ghost s1 = st.data@;
        proof {
            assert(!w.idxs().contains(i));
            assert(!w1.idxs().contains(i));
            assert(st.data@[i as int] == old(st).data@[i as int]);
        }
        let slot2 = st.data[i];
        let mut n2 = slot2.node.unwrap();
        n2.left = Some(nwi);
        st.set_slot(i, Slot { occupied: true, node: Some(n2) });
        let ghost gw2 = gw@;
        let ghost cur2 = RbShape::Node {
            idx: i,
            item: cur.root_item().unwrap(),
            color: cur.root_color(),
            left: Box::new(gw2),
            right: Box::new(rsub),
        };
        proof {
            reveal_with_fuel(RbShape::bh, 4);
            reveal_with_fuel(RbShape::rb_valid, 4);
            let wrl = wr.left_sub();
            let wrr = wr.right_sub();
            rsub.lemma_linked_bounds(old(st).data@, Some(i));
            assert forall|j: usize| rsub.idxs().contains(j) implies st.data@[j as int] == old(
                st,
            ).data@[j as int] by {
                assert(!w.idxs().contains(j));
                assert(j != i && j != wi && j != wri);
            }
            rsub.lemma_linked_frame(old(st).data@, st.data@, Some(i));
            gw2.lemma_linked_bounds(s1, Some(i));
            assert forall|j: usize| gw2.idxs().contains(j) implies st.data@[j as int]
                == s1[j as int] by {
                assert(w1.idxs().contains(j));
                assert(w.idxs().contains(j));
                assert(j != i);
            }
            gw2.lemma_linked_frame(s1, st.data@, Some(i));
            assert(cur2.linked(st.data@, parent));
            w1.lemma_rotl_props();
            wr.lemma_with_color(BLACK);
            assert(gw2 == w1.rotl_spec());
            assert(gw2 == RbShape::Node {
                idx: wri,
                item: wr.root_item().unwrap(),
                color: BLACK,
                left: Box::new(
                    RbShape::Node {
                        idx: wi,
                        item: w.root_item().unwrap(),
                        color: RED,
                        left: Box::new(wl),
                        right: Box::new(wrl),
                    },
                ),
                right: Box::new(wrr),
            });
            assert(cur2.as_map() =~= cur.as_map());
            assert(cur2.idxs() =~= cur.idxs());
            assert(gw2.size() == w1.size());
            assert(w1.size() == w.size());
            assert(cur2.size() == cur.size());
            assert(cur2.ordered());
            assert(!wrl.is_red() && !wrr.is_red() && !wl.is_red());
            assert(wrl.rb_valid() && wrr.rb_valid() && wl.rb_valid());
            assert(w.bh() == wl.bh() + 1);
            assert(wl.bh() == wr.bh());
            assert(wr.bh() == wrl.bh() && wrl.bh() == wrr.bh());
            assert(gw2.left_sub().rb_valid());
            assert(gw2.left_sub().bh() == wl.bh());
            assert(wrl.bh() == wl.bh());
            assert(gw2.rb_valid());
            assert(gw2.bh() == gw2.left_sub().bh() + 1);
            assert(gw2.bh() == w.bh());
            assert(gw2.left_sub().is_red());
            assert(!gw2.is_red());
            assert(cur2.left_sub() == gw2 && cur2.right_sub() == rsub);
            assert(cur2.root_color() == cur.root_color());
            assert(rsub.bh() + 1 == gw2.bh());
        }
        let (nr, g) = del_far_right(st, parent, i, Ghost(cur2));
        proof {
            assert(g@.as_map() == cur.as_map());
            assert(g@.idxs() == cur.idxs());
            assert(g@.bh() == cur.left_sub().bh() + (if cur.is_red() {
                0nat
            } else {
                1nat
            }));
        }
        return (nr, g, false);
    }
    // Sibling black with two black children: recolor the sibling red. If
    // this node is red, blackening it restores the height; otherwise the
    // deficit moves up.
    let mut wn2 = wnode;
    wn2.color = RED;
    st.set_slot(wi, Slot { occupied: true, node: Some(wn2) });
    let ghost wred = w.with_color(RED);
    let ghost s1 = st.data@;
    proof {
        rsub.lemma_linked_bounds(old(st).data@, Some(i));
        wl.lemma_linked_bounds(old(st).data@, Some(wi));
        wr.lemma_linked_bounds(old(st).data@, Some(wi));
        assert forall|j: usize| wl.idxs().contains(j) implies st.data@[j as int] == old(
            st,
        ).data@[j as int] by {
            assert(w.idxs().contains(j));
            assert(j != wi);
        }
        wl.lemma_linked_frame(old(st).data@, st.data@, Some(wi));
        assert forall|j: usize| wr.idxs().contains(j) implies st.data@[j as int] == old(
            st,
        ).data@[j as int] by {
            assert(w.idxs().contains(j));
            assert(j != wi);
        }
        wr.lemma_linked_frame(old(st).data@, st.data@, Some(wi));
        assert(wred.linked(st.data@, Some(i)));
        w.lemma_with_color(RED);
        assert(wred.rb_valid());
        assert(wred.bh() == w.bh() - 1);
    }
    if node.color == RED {
        let mut n2 = node;
        n2.color = BLACK;
        st.set_slot(i, Slot { occupied: true, node: Some(n2) });
        let ghost res_sh = RbShape::Node {
            idx: i,
            item: cur.root_item().unwrap(),
            color: BLACK,
            left: Box::new(wred),
            right: Box::new(rsub),
        };
        proof {
            assert forall|j: usize| rsub.idxs().contains(j) implies st.data@[j as int] == old(
                st,
            ).data@[j as int] by {
                assert(!w.idxs().contains(j));
                assert(j != i && j != wi);
            }
            rsub.lemma_linked_frame(old(st).data@, st.data@, Some(i));
            wred.lemma_linked_bounds(s1, Some(i));
            assert forall|j: usize| wred.idxs().contains(j) implies st.data@[j as int]
                == s1[j as int] by {
                assert(w.idxs().contains(j));
                assert(j != i);
            }
            wred.lemma_linked_frame(s1, st.data@, Some(i));
            assert(res_sh.linked(st.data@, parent));
            assert(res_sh.as_map() =~= cur.as_map());
            assert(res_sh.idxs() =~= cur.idxs());
            assert(res_sh.size() == cur.size());
            assert(res_sh.ordered());
            assert(res_sh.rb_valid());
            assert(res_sh.bh() == wred.bh() + 1);
            assert(res_sh.bh() == cur.left_sub().bh());
        }
        (i, Ghost(res_sh), false)
    } else {
        let ghost res_sh = RbShape::Node {
            idx: i,
            item: cur.root_item().unwrap(),
            color: BLACK,
            left: Box::new(wred),
            right: Box::new(rsub),
        };
        proof {
            assert forall|j: usize| rsub.idxs().contains(j) implies st.data@[j as int] == old(
                st,
            ).data@[j as int] by {
                assert(!w.idxs().contains(j));
                assert(j != wi);
            }
            rsub.lemma_linked_frame(old(st).data@, st.data@, Some(i));
            assert(st.data@[i as int] == old(st).data@[i as int]);
            assert(res_sh.linked(st.data@, parent));
            assert(res_sh.as_map() =~= cur.as_map());
            assert(res_sh.idxs() =~= cur.idxs());
            assert(res_sh.size() == cur.size());
            assert(res_sh.ordered());
            assert(res_sh.rb_valid());
            assert(res_sh.bh() == wred.bh() + 1);
            assert(res_sh.bh() + 1 == cur.left_sub().bh() + 1);
        }
        (i, Ghost(res_sh), true)
    }
}

/// Descend from `cur` comparing the ordering projection, returning the
/// payload stored under `key` if it is present.
fn get_at<D: RbtKey + Copy>(
    st: &Storage<Node<D>>,
    Ghost(sh): Ghost<RbShape<D>>,
    Ghost(parent): Ghost<Option<usize>>,
    cur: Option<usize>,
    key: u64,
) -> (r: Option<D>)
    requires
        sh.linked(st.data@, parent),
        sh.ordered(),
        sh.root_idx() == cur,
    ensures
        r == if sh.as_map().dom().contains(key) {
            Some(sh.as_map()[key])
        } else {
            None::<D>
        },
    decreases sh,
{
    match cur {
        None => None,
        Some(i) => {
            proof {
                assert(sh is Node);
            }
            let slot = st.data[i];
            let node = slot.node.unwrap();
            let k0 = node.data.ordering_key();
            let ghost lsub = sh.left_sub();
            let ghost rsub = sh.right_sub();
            if key == k0 {
                proof {
                    assert(sh.as_map()[key] == node.data);
                }
                Some(node.data)
            } else if key < k0 {
                proof {
                    assert(!rsub.as_map().dom().contains(key));
                }
                get_at(st, Ghost(lsub), Ghost(Some(i)), node.left, key)
            } else {
                proof {
                    assert(!lsub.as_map().dom().contains(key));
                }
                get_at(st, Ghost(rsub), Ghost(Some(i)), node.right, key)
            }
        },
    }
}

/// Append the in-order payload sequence of the subtree rooted at `cur` to
/// `out`.
fn trav_at<D: RbtKey + Copy>(
    st: &Storage<Node<D>>,
    Ghost(sh): Ghost<RbShape<D>>,
    Ghost(parent): Ghost<Option<usize>>,
    cur: Option<usize>,
    out: &mut Vec<D>,
)
    requires
        sh.linked(st.data@, parent),
        sh.root_idx() == cur,
    ensures
        final(out)@ == old(out)@ + sh.inorder(),
    decreases sh,
{
    match cur {
        None => {
            proof {
                assert(sh.inorder() == Seq::<D>::empty());
                assert(out@ =~= old(out)@ + sh.inorder());
            }
        },
        Some(i) => {
            proof {
                assert(sh is Node);
            }
            let slot = st.data[i];
            let node = slot.node.unwrap();
            trav_at(st, Ghost(sh.left_sub()), Ghost(Some(i)), node.left, out);
            out.push(node.data);
            trav_at(st, Ghost(sh.right_sub()), Ghost(Some(i)), node.right, out);
            proof {
                assert(out@ =~= old(out)@ + sh.inorder());
            }
        },
    }
}

/// Descend for `key` and return the payload of the left child of its node.
fn left_of_at<D: RbtKey + Copy>(
    st: &Storage<Node<D>>,
    Ghost(sh): Ghost<RbShape<D>>,
    Ghost(parent): Ghost<Option<usize>>,
    cur: Option<usize>,
    key: u64,
) -> (r: Option<D>)
    requires
        sh.linked(st.data@, parent),
        sh.root_idx() == cur,
    ensures
        r == sh.spec_left_of(key),
    decreases sh,
{
    match cur {
        None => None,
        Some(i) => {
            proof {
                reveal_with_fuel(RbShape::linked, 2);
                assert(sh is Node);
            }
            let slot = st.data[i];
            let node = slot.node.unwrap();
            let k0 = node.data.ordering_key();
            if key == k0 {
                match node.left {
                    None => None,
                    Some(li) => {
                        proof {
                            assert(sh.left_sub() is Node);
                        }
                        let ls = st.data[li];
                        Some(ls.node.unwrap().data)
                    },
                }
            } else if key < k0 {
                left_of_at(st, Ghost(sh.left_sub()), Ghost(Some(i)), node.left, key)
            } else {
                left_of_at(st, Ghost(sh.right_sub()), Ghost(Some(i)), node.right, key)
            }
        },
    }
}

/// Descend for `key` and return the payload of the right child of its node.
fn right_of_at<D: RbtKey + Copy>(
    st: &Storage<Node<D>>,
    Ghost(sh): Ghost<RbShape<D>>,
    Ghost(parent): Ghost<Option<usize>>,
    cur: Option<usize>,
    key: u64,
) -> (r: Option<D>)
    requires
        sh.linked(st.data@, parent),
        sh.root_idx() == cur,
    ensures
        r == sh.spec_right_of(key),
    decreases sh,
{
    match cur {
        None => None,
        Some(i) => {
            proof {
                reveal_with_fuel(RbShape::linked, 2);
                assert(sh is Node);
            }
            let slot = st.data[i];
            let node = slot.node.unwrap();
            let k0 = node.data.ordering_key();
            if key == k0 {
                match node.right {
                    None => None,
                    Some(ri) => {
                        proof {
                            assert(sh.right_sub() is Node);
                        }
                        let rs = st.data[ri];
                        Some(rs.node.unwrap().data)
                    },
                }
            } else if key < k0 {
                right_of_at(st, Ghost(sh.left_sub()), Ghost(Some(i)), node.left, key)
            } else {
                right_of_at(st, Ghost(sh.right_sub()), Ghost(Some(i)), node.right, key)
            }
        },
    }
}

/// Descend for `key` and return the payload of the parent of its node, where
/// `above` is the payload of the parent of this subtree.
fn parent_of_at<D: RbtKey + Copy>(
    st: &Storage<Node<D>>,
    Ghost(sh): Ghost<RbShape<D>>,
    Ghost(parent): Ghost<Option<usize>>,
    cur: Option<usize>,
    key: u64,
    above: Option<D>,
) -> (r: Option<D>)
    requires
        sh.linked(st.data@, parent),
        sh.root_idx() == cur,
    ensures
        r == sh.spec_parent_of(key, above),
    decreases sh,
{
    match cur {
        None => None,
        Some(i) => {
            proof {
                assert(sh is Node);
            }
            let slot = st.data[i];
            let node = slot.node.unwrap();
            let k0 = node.data.ordering_key();
            if key == k0 {
                above
            } else if key < k0 {
                parent_of_at(
                    st,
                    Ghost(sh.left_sub()),
                    Ghost(Some(i)),
                    node.left,
                    key,
                    Some(node.data),
                )
            } else {
                parent_of_at(
                    st,
                    Ghost(sh.right_sub()),
                    Ghost(Some(i)),
                    node.right,
                    key,
                    Some(node.data),
                )
            }
        },
    }
}

/// Descend for `key` and return the color of its node.
fn color_of_at<D: RbtKey + Copy>(
    st: &Storage<Node<D>>,
    Ghost(sh): Ghost<RbShape<D>>,
    Ghost(parent): Ghost<Option<usize>>,
    cur: Option<usize>,
    key: u64,
) -> (r: Option<bool>)
    requires
        sh.linked(st.data@, parent),
        sh.root_idx() == cur,
    ensures
        r == sh.spec_color_of(key),
    decreases sh,
{
    match cur {
        None => None,
        Some(i) => {
            proof {
                assert(sh is Node);
            }
            let slot = st.data[i];
            let node = slot.node.unwrap();
            let k0 = node.data.ordering_key();
            if key == k0 {
                Some(node.color)
            } else if key < k0 {
                color_of_at(st, Ghost(sh.left_sub()), Ghost(Some(i)), node.left, key)
            } else {
                color_of_at(st, Ghost(sh.right_sub()), Ghost(Some(i)), node.right, key)
            }
        },
    }
}

/// Remove the left-most (smallest-key) node of the subtree rooted in slot
/// `i`, repairing black-height deficits on the way back up. Returns the
/// removed payload, the new subtree root, the new shape, whether a deficit
/// remains, and the index of the slot that was unlinked (not yet released).
#[verifier::rlimit(100)]
fn rb_del_min<D: RbtKey + Copy>(
    st: &mut Storage<Node<D>>,
    Ghost(sh): Ghost<RbShape<D>>,
    parent: Option<usize>,
    i: usize,
) -> (res: (D, Option<usize>, Ghost<RbShape<D>>, bool, usize))
    requires
        old(st).inv(),
        sh.linked(old(st).data@, parent),
        sh.ordered(),
        sh.rb_valid(),
        sh.root_idx() == Some(i),
    ensures
        final(st).inv(),
        final(st).length == old(st).length,
        final(st).data@.len() == old(st).data@.len(),
        res.2@.linked(final(st).data@, parent),
        res.2@.root_idx() == res.1,
        res.2@.ordered(),
        res.2@.rb_valid(),
        sh.as_map().dom().contains(res.0.key_spec()),
        sh.as_map()[res.0.key_spec()] == res.0,
        forall|q: u64| #[trigger] sh.as_map().dom().contains(q) ==> res.0.key_spec() <= q,
        res.2@.as_map() == sh.as_map().remove(res.0.key_spec()),
        sh.idxs().contains(res.4),
        res.2@.idxs() == sh.idxs().remove(res.4),
        res.2@.size() == sh.size() - 1,
        res.3 ==> res.2@.bh() + 1 == sh.bh() && !res.2@.is_red(),
        !res.3 ==> res.2@.bh() == sh.bh(),
        sh.is_red() ==> !res.3,
        !sh.is_red() ==> !res.2@.is_red(),
        forall|j: int|
            0 <= j < final(st).data@.len() && !sh.idxs().contains(j as usize)
                ==> final(st).data@[j] == old(st).data@[j],
        forall|j: int|
            0 <= j < final(st).data@.len() ==> #[trigger] final(st).data@[j].occupied == old(
                st,
            ).data@[j].occupied,
    decreases sh,
{
    let ghost item = sh.root_item().unwrap();
    let ghost lsub = sh.left_sub();
    let ghost rsub = sh.right_sub();
    proof {
        reveal_with_fuel(RbShape::linked, 2);
        assert(sh is Node);
        assert(sh.idxs().contains(i));
        assert((i as int) < st.data@.len() && st.data@[i as int].occupied && st.data@[i as int].node
            is Some);
        assert(sh.as_map().dom().contains(item.key_spec()));
        assert(sh.as_map()[item.key_spec()] == item);
    }
    let slot = st.data[i];
    let node = slot.node.unwrap();
    match node.left {
        None => {
            proof {
                assert(lsub is Empty);
                assert(lsub.as_map() == Map::<u64, D>::empty());
                assert(lsub.bh() == 0);
            }
            match node.right {
                Some(ri) => {
                    proof {
                        assert(rsub is Node);
                        assert(rsub.bh() == 0);
                        rsub.lemma_red_leaf();
                        assert(!sh.is_red());
                        assert(rsub.root_idx() == Some(ri));
                        assert(rsub.idxs().contains(ri));
                    }
                    let rslot = st.data[ri];
                    let mut rn2 = rslot.node.unwrap();
                    rn2.parent = parent;
                    rn2.color = BLACK;
                    st.set_slot(ri, Slot { occupied: true, node: Some(rn2) });
                    let ghost res_sh = rsub.with_color(BLACK);
                    proof {
                        rsub.lemma_with_color(BLACK);
                        assert(res_sh is Node);
                        assert(res_sh.left_sub() is Empty && res_sh.right_sub() is Empty);
                        assert(RbShape::<D>::Empty.linked(st.data@, Some(ri)));
                        assert(res_sh.linked(st.data@, parent));
                        assert(!rsub.as_map().dom().contains(item.key_spec()));
                        assert(res_sh.as_map() =~= sh.as_map().remove(item.key_spec()));
                        assert(res_sh.idxs() =~= sh.idxs().remove(i));
                        assert forall|q: u64| sh.as_map().dom().contains(q) implies
                            item.key_spec() <= q by {
                            if rsub.as_map().dom().contains(q) {
                            }
                        }
                        assert(res_sh.rb_valid());
                        assert(res_sh.bh() == 1);
                        assert(sh.bh() == 1);
                    }
                    (node.data, Some(ri), Ghost(res_sh), false, i)
                },
                None => {
                    proof {
                        assert(rsub is Empty);
                        assert(rsub.as_map() == Map::<u64, D>::empty());
                        assert(RbShape::<D>::Empty.linked(st.data@, parent));
                        assert(RbShape::<D>::Empty.as_map() =~= sh.as_map().remove(
                            item.key_spec(),
                        ));
                        assert(RbShape::<D>::Empty.idxs() =~= sh.idxs().remove(i));
                        assert forall|q: u64| sh.as_map().dom().contains(q) implies
                            item.key_spec() <= q by {}
                        assert(sh.bh() == (if sh.is_red() {
                            0nat
                        } else {
                            1nat
                        }));
                    }
                    (node.data, None, Ghost(RbShape::Empty), node.color == BLACK, i)
                },
            }
        },
        Some(li) => {
            proof {
                assert(lsub.root_idx() == Some(li));
            }
            let (d, nl, gl, f, rm) = rb_del_min(st, Ghost(lsub), Some(i), li);
            let ghost s1 = st.data@;
            proof {
                assert(!lsub.idxs().contains(i));
                assert(st.data@[i as int] == old(st).data@[i as int]);
            }
            let slot2 = st.data[i];
            let mut n2 = slot2.node.unwrap();
            n2.left = nl;
            st.set_slot(i, Slot { occupied: true, node: Some(n2) });
            let ghost cur = RbShape::Node {
                idx: i,
                item: item,
                color: sh.root_color(),
                left: Box::new(gl@),
                right: Box::new(rsub),
            };
            proof {
                rsub.lemma_linked_bounds(old(st).data@, Some(i));
                assert forall|j: usize| rsub.idxs().contains(j) implies st.data@[j as int] == old(
                    st,
                ).data@[j as int] by {
                    assert(sh.idxs().contains(j));
                    assert(!lsub.idxs().contains(j));
                    assert(j != i);
                }
                rsub.lemma_linked_frame(old(st).data@, st.data@, Some(i));
                gl@.lemma_linked_bounds(s1, Some(i));
                assert forall|j: usize| gl@.idxs().contains(j) implies st.data@[j as int]
                    == s1[j as int] by {
                    assert(lsub.idxs().contains(j));
                    assert(j != i);
                }
                gl@.lemma_linked_frame(s1, st.data@, Some(i));
                assert(cur.linked(st.data@, parent));
                assert(lsub.as_map().dom().contains(d.key_spec()));
                assert(d.key_spec() < item.key_spec());
                assert(!rsub.as_map().dom().contains(d.key_spec()));
                assert(cur.as_map() =~= sh.as_map().remove(d.key_spec()));
                assert(cur.idxs() =~= sh.idxs().remove(rm));
                assert(cur.ordered());
                assert forall|q: u64| sh.as_map().dom().contains(q) implies d.key_spec()
                    <= q by {
                    if lsub.as_map().dom().contains(q) {
                    } else if q == item.key_spec() {
                    } else {
                        assert(rsub.as_map().dom().contains(q));
                    }
                }
                assert(sh.is_red() ==> !lsub.is_red() && !rsub.is_red());
            }
            if f {
                let ghost s2 = st.data@;
                let (nr, g, f2) = del_fix_left(st, parent, i, Ghost(cur));
                proof {
                    assert(g@.as_map() == sh.as_map().remove(d.key_spec()));
                    assert(g@.idxs() == sh.idxs().remove(rm));
                    assert(cur.right_sub() == rsub);
                    assert(rsub.bh() == lsub.bh());
                    assert(sh.bh() == rsub.bh() + (if sh.is_red() {
                        0nat
                    } else {
                        1nat
                    }));
                    assert forall|j: int|
                        0 <= j < st.data@.len() && !sh.idxs().contains(j as usize)
                        implies st.data@[j] == old(st).data@[j] by {
                        assert(!cur.idxs().contains(j as usize));
                        assert(!lsub.idxs().contains(j as usize));
                        assert(s1[j] == old(st).data@[j]);
                        assert(s2[j] == s1[j]);
                    }
                }
                (d, Some(nr), g, f2, rm)
            } else {
                proof {
                    assert(gl@.rb_valid() && rsub.rb_valid());
                    assert(gl@.bh() == lsub.bh());
                    assert(cur.rb_valid());
                    assert(cur.bh() == sh.bh());
                }
                (d, Some(i), Ghost(cur), false, rm)
            }
        },
    }
}

/// Delete the node holding `key` from the subtree rooted in slot `i`,
/// repairing black-height deficits on the way back up. Returns the new
/// subtree root, the new shape, whether a deficit remains, and the index of
/// the slot that was unlinked (not yet released).
#[verifier::rlimit(100)]
fn rb_del_at<D: RbtKey + Copy>(
    st: &mut Storage<Node<D>>,
    Ghost(sh): Ghost<RbShape<D>>,
    parent: Option<usize>,
    i: usize,
    key: u64,
) -> (res: (Option<usize>, Ghost<RbShape<D>>, bool, usize))
    requires
        old(st).inv(),
        sh.linked(old(st).data@, parent),
        sh.ordered(),
        sh.rb_valid(),
        sh.root_idx() == Some(i),
        sh.as_map().dom().contains(key),
    ensures
        final(st).inv(),
        final(st).length == old(st).length,
        final(st).data@.len() == old(st).data@.len(),
        res.1@.linked(final(st).data@, parent),
        res.1@.root_idx() == res.0,
        res.1@.ordered(),
        res.1@.rb_valid(),
        res.1@.as_map() == sh.as_map().remove(key),
        sh.idxs().contains(res.3),
        res.1@.idxs() == sh.idxs().remove(res.3),
        res.1@.size() == sh.size() - 1,
        res.2 ==> res.1@.bh() + 1 == sh.bh() && !res.1@.is_red(),
        !res.2 ==> res.1@.bh() == sh.bh(),
        sh.is_red() ==> !res.2,
        !sh.is_red() ==> !res.1@.is_red(),
        forall|j: int|
            0 <= j < final(st).data@.len() && !sh.idxs().contains(j as usize)
                ==> final(st).data@[j] == old(st).data@[j],
        forall|j: int|
            0 <= j < final(st).data@.len() ==> #[trigger] final(st).data@[j].occupied == old(
                st,
            ).data@[j].occupied,
    decreases sh,
{
    let ghost item = sh.root_item().unwrap();
    let ghost lsub = sh.left_sub();
    let ghost rsub = sh.right_sub();
    proof {
        reveal_with_fuel(RbShape::linked, 2);
        assert(sh is Node);
        assert(sh.idxs().contains(i));
        assert((i as int) < st.data@.len() && st.data@[i as int].occupied && st.data@[i as int].node
            is Some);
        assert(sh.as_map().dom().contains(item.key_spec()));
    }
    let slot = st.data[i];
    let node = slot.node.unwrap();
    let k0 = node.data.ordering_key();
    if key == k0 {
        match node.left {
            None => {
                proof {
                    assert(lsub is Empty);
                    assert(lsub.as_map() == Map::<u64, D>::empty());
                    assert(lsub.bh() == 0);
                }
                match node.right {
                    Some(ri) => {
                        proof {
                            assert(rsub is Node);
                            assert(rsub.bh() == 0);
                            rsub.lemma_red_leaf();
                            assert(!sh.is_red());
                            assert(rsub.root_idx() == Some(ri));
                            assert(rsub.idxs().contains(ri));
                        }
                        let rslot = st.data[ri];
                        let mut rn2 = rslot.node.unwrap();
                        rn2.parent = parent;
                        rn2.color = BLACK;
                        st.set_slot(ri, Slot { occupied: true, node: Some(rn2) });
                        let ghost res_sh = rsub.with_color(BLACK);
                        proof {
                            rsub.lemma_with_color(BLACK);
                            assert(res_sh is Node);
                            assert(res_sh.left_sub() is Empty && res_sh.right_sub() is Empty);
                            assert(RbShape::<D>::Empty.linked(st.data@, Some(ri)));
                            assert(res_sh.linked(st.data@, parent));
                            assert(!rsub.as_map().dom().contains(key));
                            assert(res_sh.as_map() =~= sh.as_map().remove(key));
                            assert(res_sh.idxs() =~= sh.idxs().remove(i));
                            assert(res_sh.rb_valid());
                            assert(res_sh.bh() == 1);
                            assert(sh.bh() == 1);
                        }
                        (Some(ri), Ghost(res_sh), false, i)
                    },
                    None => {
                        proof {
                            assert(rsub is Empty);
                            assert(rsub.as_map() == Map::<u64, D>::empty());
                            assert(RbShape::<D>::Empty.linked(st.data@, parent));
                            assert(RbShape::<D>::Empty.as_map() =~= sh.as_map().remove(key));
                            assert(RbShape::<D>::Empty.idxs() =~= sh.idxs().remove(i));
                            assert(sh.bh() == (if sh.is_red() {
                                0nat
                            } else {
                                1nat
                            }));
                        }
                        (None, Ghost(RbShape::Empty), node.color == BLACK, i)
                    },
                }
            },
            Some(li) => {
                match node.right {
                    None => {
                        proof {
                            assert(rsub is Empty);
                            assert(rsub.as_map() == Map::<u64, D>::empty());
                            assert(rsub.bh() == 0);
                            assert(lsub is Node);
                            assert(lsub.bh() == 0);
                            lsub.lemma_red_leaf();
                            assert(!sh.is_red());
                            assert(lsub.root_idx() == Some(li));
                            assert(lsub.idxs().contains(li));
                        }
                        let lslot = st.data[li];
                        let mut ln2 = lslot.node.unwrap();
                        ln2.parent = parent;
                        ln2.color = BLACK;
                        st.set_slot(li, Slot { occupied: true, node: Some(ln2) });
                        let ghost res_sh = lsub.with_color(BLACK);
                        proof {
                            lsub.lemma_with_color(BLACK);
                            assert(res_sh is Node);
                            assert(res_sh.left_sub() is Empty && res_sh.right_sub() is Empty);
                            assert(RbShape::<D>::Empty.linked(st.data@, Some(li)));
                            assert(res_sh.linked(st.data@, parent));
                            assert(!lsub.as_map().dom().contains(key));
                            assert(res_sh.as_map() =~= sh.as_map().remove(key));
                            assert(res_sh.idxs() =~= sh.idxs().remove(i));
                            assert(res_sh.rb_valid());
                            assert(res_sh.bh() == 1);
                            assert(sh.bh() == 1);
                        }
                        (Some(li), Ghost(res_sh), false, i)
                    },
                    Some(ri) => {
                        proof {
                            assert(rsub.root_idx() == Some(ri));
                        }
                        let (d, nr0, gr, f, rm) = rb_del_min(st, Ghost(rsub), Some(i), ri);
                        let ghost s1 = st.data@;
                        proof {
                            assert(!rsub.idxs().contains(i));
                            assert(st.data@[i as int] == old(st).data@[i as int]);
                        }
                        let slot2 = st.data[i];
                        let mut n2 = slot2.node.unwrap();
                        n2.data = d;
                        n2.right = nr0;
                        st.set_slot(i, Slot { occupied: true, node: Some(n2) });
                        let ghost cur = RbShape::Node {
                            idx: i,
                            item: d,
                            color: sh.root_color(),
                            left: Box::new(lsub),
                            right: Box::new(gr@),
                        };
                        proof {
                            lsub.lemma_linked_bounds(old(st).data@, Some(i));
                            assert forall|j: usize| lsub.idxs().contains(j) implies st
                                .data@[j as int] == old(st).data@[j as int] by {
                                assert(sh.idxs().contains(j));
                                assert(!rsub.idxs().contains(j));
                                assert(j != i);
                            }
                            lsub.lemma_linked_frame(old(st).data@, st.data@, Some(i));
                            gr@.lemma_linked_bounds(s1, Some(i));
                            assert forall|j: usize| gr@.idxs().contains(j) implies st
                                .data@[j as int] == s1[j as int] by {
                                assert(rsub.idxs().contains(j));
                                assert(j != i);
                            }
                            gr@.lemma_linked_frame(s1, st.data@, Some(i));
                            assert(cur.linked(st.data@, parent));
                            assert(rsub.as_map().dom().contains(d.key_spec()));
                            assert(d.key_spec() > item.key_spec());
                            assert(!lsub.as_map().dom().contains(d.key_spec()));
                            assert forall|q: u64| #[trigger] gr@.as_map().dom().contains(q)
                                implies q > d.key_spec() by {
                                assert(rsub.as_map().dom().contains(q));
                            }
                            assert(cur.ordered());
                            assert(sh.as_map()[d.key_spec()] == d);
                            assert(cur.as_map() =~= sh.as_map().remove(key));
                            assert(cur.idxs() =~= sh.idxs().remove(rm));
                            assert(sh.is_red() ==> !lsub.is_red() && !rsub.is_red());
                        }
                        if f {
                            let ghost s2 = st.data@;
                            let (nr, g, f2) = del_fix_right(st, parent, i, Ghost(cur));
                            proof {
                                assert(g@.as_map() == sh.as_map().remove(key));
                                assert(g@.idxs() == sh.idxs().remove(rm));
                                assert(cur.left_sub() == lsub);
                                assert(lsub.bh() == rsub.bh());
                                assert(sh.bh() == lsub.bh() + (if sh.is_red() {
                                    0nat
                                } else {
                                    1nat
                                }));
                                assert forall|j: int|
                                    0 <= j < st.data@.len() && !sh.idxs().contains(j as usize)
                                    implies st.data@[j] == old(st).data@[j] by {
                                    assert(!cur.idxs().contains(j as usize));
                                    assert(!rsub.idxs().contains(j as usize));
                                    assert(s1[j] == old(st).data@[j]);
                                    assert(s2[j] == s1[j]);
                                }
                            }
                            (Some(nr), g, f2, rm)
                        } else {
                            proof {
                                assert(gr@.rb_valid() && lsub.rb_valid());
                                assert(gr@.bh() == rsub.bh());
                                assert(cur.rb_valid());
                                assert(cur.bh() == sh.bh());
                            }
                            (Some(i), Ghost(cur), false, rm)
                        }
                    },
                }
            },
        }
    } else if key < k0 {
        proof {
            assert(!rsub.as_map().dom().contains(key));
            assert(lsub.as_map().dom().contains(key));
            if lsub is Empty {
                assert(lsub.as_map() == Map::<u64, D>::empty());
                assert(false);
            }
        }
        let li = node.left.unwrap();
        let (nl, gl, f, rm) = rb_del_at(st, Ghost(lsub), Some(i), li, key);
        let ghost s1 = st.data@;
        proof {
            assert(!lsub.idxs().contains(i));
            assert(st.data@[i as int] == old(st).data@[i as int]);
        }
        let slot2 = st.data[i];
        let mut n2 = slot2.node.unwrap();
        n2.left = nl;
        st.set_slot(i, Slot { occupied: true, node: Some(n2) });
        let ghost cur = RbShape::Node {
            idx: i,
            item: item,
            color: sh.root_color(),
            left: Box::new(gl@),
            right: Box::new(rsub),
        };
        proof {
            rsub.lemma_linked_bounds(old(st).data@, Some(i));
            assert forall|j: usize| rsub.idxs().contains(j) implies st.data@[j as int] == old(
                st,
            ).data@[j as int] by {
                assert(sh.idxs().contains(j));
                assert(!lsub.idxs().contains(j));
                assert(j != i);
            }
            rsub.lemma_linked_frame(old(st).data@, st.data@, Some(i));
            gl@.lemma_linked_bounds(s1, Some(i));
            assert forall|j: usize| gl@.idxs().contains(j) implies st.data@[j as int]
                == s1[j as int] by {
                assert(lsub.idxs().contains(j));
                assert(j != i);
            }
            gl@.lemma_linked_frame(s1, st.data@, Some(i));
            assert(cur.linked(st.data@, parent));
            assert(cur.as_map() =~= sh.as_map().remove(key));
            assert(cur.idxs() =~= sh.idxs().remove(rm));
            assert(cur.ordered());
            assert(sh.is_red() ==> !lsub.is_red() && !rsub.is_red());
        }
        if f {
            let ghost s2 = st.data@;
            let (nr, g, f2) = del_fix_left(st, parent, i, Ghost(cur));
            proof {
                assert(g@.as_map() == sh.as_map().remove(key));
                assert(g@.idxs() == sh.idxs().remove(rm));
                assert(cur.right_sub() == rsub);
                assert(rsub.bh() == lsub.bh());
                assert(sh.bh() == rsub.bh() + (if sh.is_red() {
                    0nat
                } else {
                    1nat
                }));
                assert forall|j: int|
                    0 <= j < st.data@.len() && !sh.idxs().contains(j as usize)
                    implies st.data@[j] == old(st).data@[j] by {
                    assert(!cur.idxs().contains(j as usize));
                    assert(!lsub.idxs().contains(j as usize));
                    assert(s1[j] == old(st).data@[j]);
                    assert(s2[j] == s1[j]);
                }
            }
            (Some(nr), g, f2, rm)
        } else {
            proof {
                assert(gl@.rb_valid() && rsub.rb_valid());
                assert(gl@.bh() == lsub.bh());
                assert(cur.rb_valid());
                assert(cur.bh() == sh.bh());
            }
            (Some(i), Ghost(cur), false, rm)
        }
    } else {
        proof {
            assert(!lsub.as_map().dom().contains(key));
            assert(rsub.as_map().dom().contains(key));
            if rsub is Empty {
                assert(rsub.as_map() == Map::<u64, D>::empty());
                assert(false);
            }
        }
        let ri = node.right.unwrap();
        let (nr0, gr, f, rm) = rb_del_at(st, Ghost(rsub), Some(i), ri, key);
        let ghost s1 = st.data@;
        proof {
            assert(!rsub.idxs().contains(i));
            assert(st.data@[i as int] == old(st).data@[i as int]);
        }
        let slot2 = st.data[i];
        let mut n2 = slot2.node.unwrap();
        n2.right = nr0;
        st.set_slot(i, Slot { occupied: true, node: Some(n2) });
        let ghost cur = RbShape::Node {
            idx: i,
            item: item,
            color: sh.root_color(),
            left: Box::new(lsub),
            right: Box::new(gr@),
        };
        proof {
            lsub.lemma_linked_bounds(old(st).data@, Some(i));
            assert forall|j: usize| lsub.idxs().contains(j) implies st.data@[j as int] == old(
                st,
            ).data@[j as int] by {
                assert(sh.idxs().contains(j));
                assert(!rsub.idxs().contains(j));
                assert(j != i);
            }
            lsub.lemma_linked_frame(old(st).data@, st.data@, Some(i));
            gr@.lemma_linked_bounds(s1, Some(i));
            assert forall|j: usize| gr@.idxs().contains(j) implies st.data@[j as int]
                == s1[j as int] by {
                assert(rsub.idxs().contains(j));
                assert(j != i);
            }
            gr@.lemma_linked_frame(s1, st.data@, Some(i));
            assert(cur.linked(st.data@, parent));
            assert(cur.as_map() =~= sh.as_map().remove(key));
            assert(cur.idxs() =~= sh.idxs().remove(rm));
            assert(cur.ordered());
            assert(sh.is_red() ==> !lsub.is_red() && !rsub.is_red());
        }
        if f {
            let ghost s2 = st.data@;
            let (nr, g, f2) = del_fix_right(st, parent, i, Ghost(cur));
            proof {
                assert(g@.as_map() == sh.as_map().remove(key));
                assert(g@.idxs() == sh.idxs().remove(rm));
                assert(cur.left_sub() == lsub);
                assert(lsub.bh() == rsub.bh());
                assert(sh.bh() == lsub.bh() + (if sh.is_red() {
                    0nat
                } else {
                    1nat
                }));
                assert forall|j: int|
                    0 <= j < st.data@.len() && !sh.idxs().contains(j as usize)
                    implies st.data@[j] == old(st).data@[j] by {
                    assert(!cur.idxs().contains(j as usize));
                    assert(!rsub.idxs().contains(j as usize));
                    assert(s1[j] == old(st).data@[j]);
                    assert(s2[j] == s1[j]);
                }
            }
            (Some(nr), g, f2, rm)
        } else {
            proof {
                assert(gr@.rb_valid() && lsub.rb_valid());
                assert(gr@.bh() == rsub.bh());
                assert(cur.rb_valid());
                assert(cur.bh() == sh.bh());
            }
            (Some(i), Ghost(cur), false, rm)
        }
    }
}

/// An arena-backed red-black tree holding up to `SIZE` payloads of type `D`,
/// ordered by the `RbtKey` projection and kept balanced by insert and delete
/// fixups.
pub struct Rbt<D: RbtKey + Copy, const SIZE: usize> {
    storage: Storage<Node<D>>,
    head: Option<usize>,
    shape: Ghost<RbShape<D>>,
}

impl<D: RbtKey + Copy, const SIZE: usize> View for Rbt<D, SIZE> {
    type V = Map<u64, D>;

    closed spec fn view(&self) -> Map<u64, D> {
        self.shape@.as_map()
    }
}

impl<D: RbtKey + Copy, const SIZE: usize> Rbt<D, SIZE> {
    /// The spec-level tree shape.
    pub closed spec fn spec_tree(self) -> RbShape<D> {
        self.shape@
    }

    /// The number of stored payloads.
    pub closed spec fn spec_len(self) -> nat {
        self.shape@.size()
    }

    /// Well-formedness: the shape is realized in the slot pool, the BST order
    /// invariant holds, the red-black invariants hold with a black root, and
    /// storage is consistent (the occupied slots are exactly the tree's slots
    /// and the occupied count is the element count).
    pub closed spec fn well_formed(self) -> bool {
        &&& self.storage.inv()
        &&& self.storage.data@.len() == SIZE as int
        &&& self.storage.length == self.shape@.size()
        &&& self.shape@.linked(self.storage.data@, None)
        &&& self.shape@.root_idx() == self.head
        &&& self.shape@.ordered()
        &&& self.shape@.rb_valid()
        &&& !self.shape@.is_red()
        &&& (forall|j: int|
            0 <= j < SIZE as int ==> ((#[trigger] self.storage.data@[j]).occupied
                <==> self.shape@.idxs().contains(j as usize)))
    }

    /// Create an empty tree over a freshly initialized pool of `SIZE` slots.
    pub fn new() -> (r: Self)
        requires
            SIZE <= POOL_LIMIT,
        ensures
            r.well_formed(),
            r@ == Map::<u64, D>::empty(),
            r.spec_len() == 0,
    {
        let storage = Storage::new(SIZE);
        Rbt { storage, head: None, shape: Ghost(RbShape::Empty) }
    }

    /// The number of stored payloads.
    pub fn len(&self) -> (r: usize)
        requires
            self.well_formed(),
        ensures
            r == self.spec_len(),
    {
        self.storage.len()
    }

    /// The payload at the root of the tree, or `None` when the tree is empty.
    pub fn head(&self) -> (r: Option<D>)
        requires
            self.well_formed(),
        ensures
            r == self.spec_tree().root_item(),
    {
        match self.head {
            None => None,
            Some(i) => {
                let slot = self.storage.data[i];
                Some(slot.node.unwrap().data)
            },
        }
    }

    /// Search for `key`, returning the payload stored under it.
    pub fn search(&self, key: u64) -> (r: Option<D>)
        requires
            self.well_formed(),
        ensures
            r == if self@.contains_key(key) {
                Some(self@[key])
            } else {
                None::<D>
            },
    {
        get_at(&self.storage, Ghost(self.shape@), Ghost(None), self.head, key)
    }

    /// Insert `data` under its ordering key, then rebalance. Fails with
    /// `OutOfSpace` when the pool is exhausted (even for a duplicate key,
    /// since a slot is claimed before the descent), and with `AlreadyExists`
    /// when the key is already present; every failing call leaves the tree
    /// unchanged.
    pub fn insert(&mut self, data: D) -> (r: Result<(), Error>)
        requires
            old(self).well_formed(),
        ensures
            final(self).well_formed(),
            match r {
                Ok(()) => {
                    &&& old(self).spec_len() < SIZE
                    &&& !old(self)@.contains_key(data.key_spec())
                    &&& final(self)@ == old(self)@.insert(data.key_spec(), data)
                    &&& final(self).spec_len() == old(self).spec_len() + 1
                },
                Err(Error::OutOfSpace) => {
                    &&& old(self).spec_len() == SIZE
                    &&& final(self)@ == old(self)@
                    &&& final(self).spec_len() == old(self).spec_len()
                },
                Err(Error::AlreadyExists) => {
                    &&& old(self).spec_len() < SIZE
                    &&& old(self)@.contains_key(data.key_spec())
                    &&& final(self)@ == old(self)@
                    &&& final(self).spec_len() == old(self).spec_len()
                },
                Err(Error::NotFound) => false,
            },
    {
        proof {
            self.storage.lemma_len_le_capacity();
        }
        if self.storage.len() == SIZE {
            return Err(Error::OutOfSpace);
        }
        let k = data.ordering_key();
        if self.search(k).is_some() {
            return Err(Error::AlreadyExists);
        }
        let node = Node { data, parent: None, left: None, right: None, color: RED };
        let ghost pre = *self;
        match self.storage.add(node) {
            Ok(ni) => {
                proof {
                    assert(!pre.storage.data@[ni as int].occupied);
                    assert(!pre.shape@.idxs().contains(ni));
                    pre.shape@.lemma_linked_bounds(pre.storage.data@, None);
                    assert forall|j: usize| pre.shape@.idxs().contains(j) implies self
                        .storage.data@[j as int] == pre.storage.data@[j as int] by {
                        assert(j != ni);
                    }
                    pre.shape@.lemma_linked_frame(pre.storage.data@, self.storage.data@, None);
                }
                match self.head {
                    None => {
                        proof {
                            assert(pre.shape@ is Empty);
                        }
                        let nb = Node {
                            data,
                            parent: None,
                            left: None,
                            right: None,
                            color: BLACK,
                        };
                        self.storage.set_slot(ni, Slot { occupied: true, node: Some(nb) });
                        self.head = Some(ni);
                        let ghost sh2 = leaf_shape(ni, data, BLACK);
                        self.shape = Ghost(sh2);
                        proof {
                            lemma_leaf_facts(ni, data, BLACK, self.storage.data@, None);
                            assert(sh2.as_map() =~= pre.shape@.as_map().insert(
                                data.key_spec(),
                                data,
                            ));
                            assert(sh2.idxs() =~= pre.shape@.idxs().insert(ni));
                            assert forall|j: int| 0 <= j < SIZE as int implies ((
                            #[trigger] self.storage.data@[j]).occupied <==> sh2.idxs().contains(
                                j as usize,
                            )) by {
                                assert(pre.storage.data@[j].occupied <==> pre.shape@.idxs()
                                    .contains(j as usize));
                            }
                        }
                        Ok(())
                    },
                    Some(ri) => {
                        let ghost mid = self.storage.data@;
                        let (r0, g) = rb_ins_at(
                            &mut self.storage,
                            Ghost(pre.shape@),
                            None,
                            ri,
                            ni,
                            data,
                        );
                        let ghost s1 = self.storage.data@;
                        proof {
                            assert(g@ is Node);
                            assert(g@.idxs().contains(r0));
                            g@.lemma_linked_bounds(s1, None);
                        }
                        let rslot = self.storage.data[r0];
                        let mut rn = rslot.node.unwrap();
                        rn.color = BLACK;
                        self.storage.set_slot(r0, Slot { occupied: true, node: Some(rn) });
                        let ghost sh2 = g@.with_color(BLACK);
                        self.head = Some(r0);
                        self.shape = Ghost(sh2);
                        proof {
                            reveal_with_fuel(RbShape::linked, 2);
                            let gl = g@.left_sub();
                            let gr = g@.right_sub();
                            gl.lemma_linked_bounds(s1, Some(r0));
                            gr.lemma_linked_bounds(s1, Some(r0));
                            assert forall|j: usize| gl.idxs().contains(j) implies self
                                .storage.data@[j as int] == s1[j as int] by {
                                assert(j != r0);
                            }
                            gl.lemma_linked_frame(s1, self.storage.data@, Some(r0));
                            assert forall|j: usize| gr.idxs().contains(j) implies self
                                .storage.data@[j as int] == s1[j as int] by {
                                assert(j != r0);
                            }
                            gr.lemma_linked_frame(s1, self.storage.data@, Some(r0));
                            g@.lemma_with_color(BLACK);
                            assert(sh2.linked(self.storage.data@, None));
                            assert(sh2.rb_valid());
                            assert(!sh2.is_red());
                            assert(sh2.as_map() == pre.shape@.as_map().insert(
                                data.key_spec(),
                                data,
                            ));
                            assert forall|j: int| 0 <= j < SIZE as int implies ((
                            #[trigger] self.storage.data@[j]).occupied <==> sh2.idxs().contains(
                                j as usize,
                            )) by {
                                assert(pre.storage.data@[j].occupied <==> pre.shape@.idxs()
                                    .contains(j as usize));
                                vstd::std_specs::vec::axiom_spec_len(&self.storage.data);
                                if j == ni as int {
                                } else {
                                    assert(!pre.shape@.idxs().insert(ni).contains(j as usize)
                                        ==> !g@.idxs().contains(j as usize));
                                }
                            }
                        }
                        Ok(())
                    },
                }
            },
            Err(_) => {
                proof {
                    assert(false);
                }
                Err(Error::OutOfSpace)
            },
        }
    }

    /// Delete the payload whose ordering key equals `data`'s, then
    /// rebalance. Fails with `NotFound` when the key is absent; a failing
    /// call leaves the tree unchanged. The slot is released only after all
    /// relinking completes.
    pub fn delete(&mut self, data: D) -> (r: Result<(), Error>)
        requires
            old(self).well_formed(),
        ensures
            final(self).well_formed(),
            match r {
                Ok(()) => {
                    &&& old(self)@.contains_key(data.key_spec())
                    &&& final(self)@ == old(self)@.remove(data.key_spec())
                    &&& final(self).spec_len() == old(self).spec_len() - 1
                },
                Err(Error::NotFound) => {
                    &&& !old(self)@.contains_key(data.key_spec())
                    &&& final(self)@ == old(self)@
                    &&& final(self).spec_len() == old(self).spec_len()
                },
                _ => false,
            },
    {
        let k = data.ordering_key();
        if self.search(k).is_none() {
            return Err(Error::NotFound);
        }
        let ghost pre = *self;
        proof {
            if pre.shape@ is Empty {
                assert(pre.shape@.as_map() == Map::<u64, D>::empty());
                assert(false);
            }
            assert(self.head is Some);
        }
        let hd = self.head.unwrap();
        let (nr, g, fl, rm) = rb_del_at(&mut self.storage, Ghost(pre.shape@), None, hd, k);
        self.head = nr;
        self.shape = g;
        let ghost s1 = self.storage.data@;
        proof {
            pre.shape@.lemma_linked_bounds(pre.storage.data@, None);
            assert(pre.storage.data@[rm as int].occupied);
            assert(self.storage.data@[rm as int].occupied);
            assert(pre.shape@.size() >= 1);
        }
        self.storage.release(rm);
        proof {
            g@.lemma_linked_bounds(s1, None);
            assert(!g@.idxs().contains(rm));
            assert forall|j: usize| g@.idxs().contains(j) implies self.storage.data@[j as int]
                == s1[j as int] by {
                assert(j != rm);
            }
            g@.lemma_linked_frame(s1, self.storage.data@, None);
            assert forall|j: int| 0 <= j < SIZE as int implies ((
            #[trigger] self.storage.data@[j]).occupied <==> g@.idxs().contains(j as usize)) by {
                assert(pre.storage.data@[j].occupied <==> pre.shape@.idxs().contains(j as usize));
                if j == rm as int {
                } else {
                }
            }
        }
        Ok(())
    }

    /// In-order traversal: the ascending sequence of stored payloads. The
    /// result lists exactly the stored payloads, in strictly ascending key
    /// order.
    pub fn traverse(&self) -> (r: Vec<D>)
        requires
            self.well_formed(),
        ensures
            r@ == self.spec_tree().inorder(),
            r@.len() == self.spec_len(),
            forall|a: int|
                0 <= a < r@.len() ==> self@.contains_key((#[trigger] r@[a]).key_spec())
                    && self@[r@[a].key_spec()] == r@[a],
            forall|a: int, b: int|
                0 <= a < b < r@.len() ==> (#[trigger] r@[a]).key_spec() < (
                #[trigger] r@[b]).key_spec(),
            forall|q: u64|
                #[trigger] self@.contains_key(q) ==> exists|a: int|
                    0 <= a < r@.len() && (#[trigger] r@[a]).key_spec() == q,
    {
        let mut out: Vec<D> = Vec::new();
        trav_at(&self.storage, Ghost(self.shape@), Ghost(None), self.head, &mut out);
        proof {
            self.shape@.lemma_inorder_sorted();
            assert(out@ =~= self.shape@.inorder());
        }
        out
    }

    /// The payload of the left child of the node holding `key` (`None` when
    /// the key is absent or that node has no left child).
    pub fn left_of(&self, key: u64) -> (r: Option<D>)
        requires
            self.well_formed(),
        ensures
            r == self.spec_tree().spec_left_of(key),
    {
        left_of_at(&self.storage, Ghost(self.shape@), Ghost(None), self.head, key)
    }

    /// The payload of the right child of the node holding `key` (`None` when
    /// the key is absent or that node has no right child).
    pub fn right_of(&self, key: u64) -> (r: Option<D>)
        requires
            self.well_formed(),
        ensures
            r == self.spec_tree().spec_right_of(key),
    {
        right_of_at(&self.storage, Ghost(self.shape@), Ghost(None), self.head, key)
    }

    /// The payload of the parent of the node holding `key` (`None` when the
    /// key is absent or its node is the root).
    pub fn parent_of(&self, key: u64) -> (r: Option<D>)
        requires
            self.well_formed(),
        ensures
            r == self.spec_tree().spec_parent_of(key, None),
    {
        parent_of_at(&self.storage, Ghost(self.shape@), Ghost(None), self.head, key, None)
    }

    /// The color of the node holding `key`, or `None` when the key is absent.
    pub fn color_of(&self, key: u64) -> (r: Option<bool>)
        requires
            self.well_formed(),
        ensures
            r == self.spec_tree().spec_color_of(key),
    {
        color_of_at(&self.storage, Ghost(self.shape@), Ghost(None), self.head, key)
    }

    /// Whether the node holding `key` exists and is red.
    pub fn is_red(&self, key: u64) -> (r: bool)
        requires
            self.well_formed(),
        ensures
            r == (self.spec_tree().spec_color_of(key) == Some(RED)),
    {
        match self.color_of(key) {
            Some(c) => c == RED,
            None => false,
        }
    }

    /// Whether the node holding `key` exists and is black.
    pub fn is_black(&self, key: u64) -> (r: bool)
        requires
            self.well_formed(),
        ensures
            r == (self.spec_tree().spec_color_of(key) == Some(BLACK)),
    {
        match self.color_of(key) {
            Some(c) => c == BLACK,
            None => false,
        }
    }

    /// Count the occupied slots of the pool one by one. Storage consistency:
    /// the count equals the number of stored payloads.
    pub fn occupied_count(&self) -> (r: usize)
        requires
            self.well_formed(),
        ensures
            r == self.spec_len(),
    {
        let mut count: usize = 0;
        let mut j: usize = 0;
        let ghost mut seen = Set::<usize>::empty();
        while j < SIZE
            invariant
                self.well_formed(),
                j <= SIZE,
                count <= j,
                seen.finite(),
                count == seen.len(),
                forall|x: usize|
                    #[trigger] seen.contains(x) <==> ((x as int) < j as int
                        && self.storage.data@[x as int].occupied),
            decreases SIZE - j,
        {
            let slot = self.storage.data[j];
            if slot.occupied {
                count = count + 1;
                proof {
                    assert(!seen.contains(j));
                    seen = seen.insert(j);
                }
            }
            j = j + 1;
        }
        proof {
            self.shape@.lemma_linked_bounds(self.storage.data@, None);
            assert(seen =~= self.shape@.idxs());
            self.shape@.lemma_idxs_size(self.storage.data@, None);
        }
        count
    }

    /// The maintained invariants of every well-formed balanced tree: the BST
    /// order invariant holds recursively at every node, the root is black, no
    /// red node has a red child, the black-height is equal along every
    /// root-to-null path, and the element count equals the tree size.
    pub proof fn lemma_rb_invariant(self)
        requires
            self.well_formed(),
        ensures
            self.spec_tree().ordered(),
            self.spec_tree().rb_valid(),
            !self.spec_tree().is_red(),
            self.spec_len() == self.spec_tree().size(),
    {
    }

    /// The balancing guarantee: the height of every well-formed tree is at
    /// most twice its black-height, and the element count is at least
    /// exponential in the black-height, so the height is O(log n).
    pub proof fn lemma_height_logarithmic(self)
        requires
            self.well_formed(),
        ensures
            self.spec_tree().height() <= 2 * self.spec_tree().bh(),
            self.spec_len() + 1 >= vstd::arithmetic::power2::pow2(self.spec_tree().bh()),
    {
        self.spec_tree().lemma_height_bound();
    }
}

} // verus!
