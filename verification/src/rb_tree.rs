//! Ordered map as a red-black tree whose nodes live in slots addressed by
//! generational handles.
//!
//! [`RedBlackTree`] provides insert, lookup, removal and in-order traversal. Nodes
//! stay in their slot for as long as they are in the tree, so an [`ArenaIndex`]
//! handle stays valid across unrelated inserts and removals until the node it
//! names is removed; the slot's generation then changes and the handle is dead.
//!
//! The proofs keep, for every node, the open interval of key ranks that its
//! subtree spans (a ghost map). Each child spans exactly the part of its
//! parent's interval on its own side, and a missing child means that side holds
//! no key. From this the searches are complete, rotations are local, and the
//! view of the tree is a map from keys to values.
//!
//! Insertion and removal keep the red-black rules, recorded as a ghost black
//! height per node, so every path from the root is at most twice as long as
//! the black height and the height stays logarithmic in the number of keys.
//! Removing a black node leaves one black missing at a link; the repair moves
//! that missing black up the tree or absorbs it with a rotation.
use vstd::prelude::*;
use vstd::set_lib::{lemma_int_range, lemma_len_subset, lemma_set_disjoint_lens, set_int_range};
use vstd::arithmetic::power2::{pow2, lemma2_to64, lemma_pow2_unfold, lemma_pow2_strictly_increases};

verus! {

/// Outcome of comparing two keys.
#[derive(Clone, Copy, PartialEq, Eq, Structural, Debug)]
pub enum KeyOrder {
    Less,
    Equal,
    Greater,
}

/// Keys of a [`RedBlackTree`]: totally ordered through an integer rank.
pub trait TreeKey: Sized {
    /// The position of the key in the order; equal ranks mean equal keys.
    spec fn rank(&self) -> int;

    proof fn lemma_rank_injective(a: &Self, b: &Self)
        requires
            a.rank() == b.rank(),
        ensures
            *a == *b,
    ;

    fn compare(&self, other: &Self) -> (r: KeyOrder)
        ensures
            (r == KeyOrder::Less) == (self.rank() < other.rank()),
            (r == KeyOrder::Equal) == (self.rank() == other.rank()),
            (r == KeyOrder::Greater) == (self.rank() > other.rank()),
    ;
}

impl TreeKey for u64 {
    open spec fn rank(&self) -> int {
        *self as int
    }

    proof fn lemma_rank_injective(a: &Self, b: &Self) {
    }

    fn compare(&self, other: &Self) -> (r: KeyOrder) {
        if *self < *other {
            KeyOrder::Less
        } else if *self == *other {
            KeyOrder::Equal
        } else {
            KeyOrder::Greater
        }
    }
}

/// Node color in the red-black tree.
#[derive(Clone, Copy, PartialEq, Eq, Structural, Debug)]
pub enum Color {
    /// Red node (may not be adjacent to another red node).
    Red,
    /// Black node (root is always black).
    Black,
}

/// Which child slot of a parent (`left` or `right`).
#[derive(Clone, Copy, PartialEq, Eq, Structural, Debug)]
pub enum Branch {
    Left,
    Right,
}

impl Branch {
    /// The other child direction.
    pub open spec fn opposite_spec(self) -> Branch {
        match self {
            Branch::Left => Branch::Right,
            Branch::Right => Branch::Left,
        }
    }

    /// Returns the other child direction.
    pub fn opposite(self) -> (r: Branch)
        ensures
            r != self,
            r == self.opposite_spec(),
    {
        match self {
            Branch::Left => Branch::Right,
            Branch::Right => Branch::Left,
        }
    }
}

/// Stable handle of a node: its slot and the generation the slot had when the
/// node was stored there.
#[derive(Clone, Copy, PartialEq, Eq, Structural, Debug)]
pub struct ArenaIndex {
    pub index: usize,
    pub generation: u64,
}

impl ArenaIndex {
    /// Builds a handle from its slot number and generation.
    pub fn from_raw_parts(index: usize, generation: u64) -> (r: ArenaIndex)
        ensures
            r.index == index,
            r.generation == generation,
    {
        ArenaIndex { index, generation }
    }

    /// Returns the slot number and the generation of the handle.
    pub fn into_raw_parts(self) -> (r: (usize, u64))
        ensures
            r == (self.index, self.generation),
    {
        (self.index, self.generation)
    }
}

/// A single tree node. Keys and values are public for callers that hold
/// handles; the links are crate-private.
pub struct Node<K, V> {
    /// Sort key.
    pub key: K,
    /// Associated value.
    pub value: V,
    pub color: Color,
    pub parent: Option<usize>,
    pub left: Option<usize>,
    pub right: Option<usize>,
}

impl<K, V> Node<K, V> {
    /// The color of the node, as the proofs see it.
    pub closed spec fn color_of_node(&self) -> Color {
        self.color
    }

    /// The color of the node.
    pub fn color(&self) -> (r: Color)
        ensures
            r == self.color_of_node(),
    {
        self.color
    }
}

/// Storage cell of the tree: the node it holds, if any, and its generation.
pub struct Slot<K, V> {
    pub(crate) generation: u64,
    pub(crate) node: Option<Node<K, V>>,
}

/// Interval of ranks, open at both ends; `None` stands for an infinite end.
pub type Bounds = (Option<int>, Option<int>);

pub open spec fn within(b: Bounds, x: int) -> bool {
    &&& match b.0 {
        Some(l) => l < x,
        None => true,
    }
    &&& match b.1 {
        Some(h) => x < h,
        None => true,
    }
}

/// `a <= b` for upper ends, `None` being infinite.
pub open spec fn hi_le(a: Option<int>, b: Option<int>) -> bool {
    match (a, b) {
        (_, None) => true,
        (None, Some(_)) => false,
        (Some(x), Some(y)) => x <= y,
    }
}

/// `a >= b` for lower ends, `None` being minus infinity.
pub open spec fn lo_ge(a: Option<int>, b: Option<int>) -> bool {
    match (a, b) {
        (_, None) => true,
        (None, Some(_)) => false,
        (Some(x), Some(y)) => x >= y,
    }
}

/// Ordered map implemented as a red-black binary search tree.
pub struct RedBlackTree<K, V> {
    slots: Vec<Slot<K, V>>,
    free: Vec<usize>,
    root: Option<usize>,
    len: usize,
    bounds: Ghost<spec_fn(int) -> Bounds>,
    black_heights: Ghost<spec_fn(int) -> int>,
}

impl<K: TreeKey, V> RedBlackTree<K, V> {
    // ── Model ────────────────────────────────────────────────────────────────
    pub closed spec fn occ(&self, i: int) -> bool {
        0 <= i < self.slots@.len() && self.slots@[i].node is Some
    }

    pub closed spec fn nd(&self, i: int) -> Node<K, V> {
        self.slots@[i].node.unwrap()
    }

    pub closed spec fn rk(&self, i: int) -> int {
        self.nd(i).key.rank()
    }

    closed spec fn iv(&self, i: int) -> Bounds {
        (self.bounds@)(i)
    }

    closed spec fn left_iv(&self, i: int) -> Bounds {
        (self.iv(i).0, Some(self.rk(i)))
    }

    closed spec fn right_iv(&self, i: int) -> Bounds {
        (Some(self.rk(i)), self.iv(i).1)
    }

    closed spec fn key_free(&self, b: Bounds) -> bool {
        forall|m: int| self.occ(m) ==> !within(b, #[trigger] self.rk(m))
    }

    closed spec fn child_ok(&self, i: int, c: Option<usize>, b: Bounds) -> bool {
        match c {
            None => self.key_free(b),
            Some(c) => {
                &&& self.occ(c as int)
                &&& self.nd(c as int).parent == Some(i as usize)
                &&& self.iv(c as int) == b
            },
        }
    }

    closed spec fn parent_ok(&self, i: int) -> bool {
        match self.nd(i).parent {
            None => self.root == Some(i as usize),
            Some(p) => {
                &&& self.occ(p as int)
                &&& (self.nd(p as int).left == Some(i as usize) || self.nd(p as int).right == Some(
                    i as usize,
                ))
            },
        }
    }

    closed spec fn node_ok(&self, i: int) -> bool {
        &&& within(self.iv(i), self.rk(i))
        &&& self.child_ok(i, self.nd(i).left, self.left_iv(i))
        &&& self.child_ok(i, self.nd(i).right, self.right_iv(i))
        &&& self.parent_ok(i)
    }

    closed spec fn root_ok(&self) -> bool {
        match self.root {
            None => forall|i: int| !#[trigger] self.occ(i),
            Some(r) => {
                &&& self.occ(r as int)
                &&& self.iv(r as int) == (None::<int>, None::<int>)
                &&& self.nd(r as int).parent is None
            },
        }
    }

    closed spec fn distinct(&self) -> bool {
        forall|i: int, j: int|
            #![trigger self.rk(i), self.rk(j)]
            self.occ(i) && self.occ(j) && self.rk(i) == self.rk(j) ==> i == j
    }

    closed spec fn occupied(&self) -> Set<int> {
        Set::new(|i: int| self.occ(i))
    }

    closed spec fn keys_in(&self, b: Bounds) -> Set<int> {
        Set::new(|i: int| self.occ(i) && within(b, self.rk(i)))
    }

    closed spec fn free_ok(&self) -> bool {
        &&& self.free@.no_duplicates()
        &&& forall|t: int|
            0 <= t < self.free@.len() ==> {
                &&& #[trigger] self.free@[t] < self.slots@.len()
                &&& !self.occ(self.free@[t] as int)
            }
        &&& forall|i: int| 0 <= i < self.slots@.len() && !#[trigger] self.occ(i) ==> self.free@.contains(i as usize)
    }

    /// The linked structure is a binary search tree.
    closed spec fn links_ok(&self) -> bool {
        &&& self.slots@.len() <= usize::MAX
        &&& self.root_ok()
        &&& self.distinct()
        &&& forall|i: int| self.occ(i) ==> #[trigger] self.node_ok(i)
    }

    closed spec fn root_black(&self) -> bool {
        match self.root {
            None => true,
            Some(r) => self.nd(r as int).color == Color::Black,
        }
    }

    /// The black height recorded for node `i`: the black nodes on every path
    /// from just below `i` down to a leaf.
    closed spec fn bhv(&self, i: int) -> int {
        (self.black_heights@)(i)
    }

    /// The black height seen from above a child link: a missing child is a
    /// black leaf of height zero.
    closed spec fn cbh(&self, c: Option<usize>) -> int {
        match c {
            None => 0,
            Some(c) => self.bhv(c as int) + (if self.nd(c as int).color == Color::Black {
                1int
            } else {
                0int
            }),
        }
    }

    /// Node `i` keeps the red-black rules: both its links lead down to the
    /// same black height, and if it is red its children are black, except
    /// that the child `z` may be red.
    closed spec fn node_rb(&self, i: int, z: Option<usize>) -> bool {
        &&& self.cbh(self.nd(i).left) == self.bhv(i)
        &&& self.cbh(self.nd(i).right) == self.bhv(i)
        &&& self.nd(i).color == Color::Red ==> (self.nd(i).left == z || self.color_spec(self.nd(i).left)
            == Color::Black) && (self.nd(i).right == z || self.color_spec(self.nd(i).right) == Color::Black)
    }

    /// Every node keeps the red-black rules, `z` possibly excepted from the
    /// rule on red nodes.
    closed spec fn rb_except(&self, z: Option<usize>) -> bool {
        forall|i: int| self.occ(i) ==> #[trigger] self.node_rb(i, z)
    }

    /// The tree is a red-black tree: from each node, every path down to a
    /// leaf passes the same number of black nodes, and no red node has a red
    /// child.
    pub closed spec fn balanced(&self) -> bool {
        self.rb_except(None)
    }

    /// The tree is well formed: a binary search tree with a black root whose
    /// size and free slots are tracked.
    pub closed spec fn wf(&self) -> bool {
        &&& self.links_ok()
        &&& self.root_black()
        &&& self.free_ok()
        &&& self.len == self.occupied().len()
    }

    /// The map from keys to values that the tree holds.
    pub closed spec fn view(&self) -> Map<K, V> {
        Map::new(
            |k: K| exists|i: int| self.occ(i) && #[trigger] self.nd(i).key == k,
            |k: K| self.nd(choose|i: int| self.occ(i) && #[trigger] self.nd(i).key == k).value,
        )
    }

    /// Whether `h` names a node currently in the tree.
    pub closed spec fn valid_handle(&self, h: ArenaIndex) -> bool {
        self.occ(h.index as int) && self.slots@[h.index as int].generation == h.generation
    }

    /// The key of the node that `h` names.
    pub closed spec fn handle_key(&self, h: ArenaIndex) -> K {
        self.nd(h.index as int).key
    }

    /// The value of the node that `h` names.
    pub closed spec fn handle_value(&self, h: ArenaIndex) -> V {
        self.nd(h.index as int).value
    }

    /// Whether some key of the tree has rank `r`.
    pub closed spec fn has_rank(&self, r: int) -> bool {
        exists|i: int| self.occ(i) && #[trigger] self.rk(i) == r
    }

    // ── Lemmas on the model ───────────────────────────────────────────────────
    proof fn lemma_occupied_finite(&self)
        ensures
            self.occupied().finite(),
            self.occupied().len() <= self.slots@.len(),
            forall|b: Bounds| #[trigger] self.keys_in(b).finite(),
            forall|b: Bounds| #[trigger] self.keys_in(b).len() <= self.occupied().len(),
    {
        lemma_int_range(0, self.slots@.len() as int);
        assert(self.occupied().subset_of(set_int_range(0, self.slots@.len() as int)));
        lemma_len_subset(self.occupied(), set_int_range(0, self.slots@.len() as int));
        assert forall|b: Bounds| #[trigger] self.keys_in(b).finite() by {
            assert(self.keys_in(b).subset_of(self.occupied()));
            lemma_len_subset(self.keys_in(b), self.occupied());
        }
        assert forall|b: Bounds| #[trigger] self.keys_in(b).len() <= self.occupied().len() by {
            assert(self.keys_in(b).subset_of(self.occupied()));
            lemma_len_subset(self.keys_in(b), self.occupied());
        }
    }

    /// A child spans strictly fewer keys than its parent.
    proof fn lemma_child_fewer(&self, i: int, c: usize)
        requires
            self.links_ok(),
            self.occ(i),
            self.nd(i).left == Some(c) || self.nd(i).right == Some(c),
        ensures
            self.occ(c as int),
            self.keys_in(self.iv(c as int)).len() < self.keys_in(self.iv(i)).len(),
    {
        assert(self.node_ok(i));
        if self.nd(i).left == Some(c) {
            assert(self.child_ok(i, self.nd(i).left, self.left_iv(i)));
            assert(self.iv(c as int) == self.left_iv(i));
        } else {
            assert(self.child_ok(i, self.nd(i).right, self.right_iv(i)));
            assert(self.iv(c as int) == self.right_iv(i));
        }
        self.lemma_sub_interval_fewer(i, c as int);
    }

    proof fn lemma_sub_interval_fewer(&self, i: int, c: int)
        requires
            self.occ(i),
            within(self.iv(i), self.rk(i)),
            self.iv(c) == self.left_iv(i) || self.iv(c) == self.right_iv(i),
            self.occ(c),
        ensures
            self.keys_in(self.iv(c)).len() < self.keys_in(self.iv(i)).len(),
    {
        self.lemma_occupied_finite();
        let small = self.keys_in(self.iv(c));
        let big = self.keys_in(self.iv(i));
        assert forall|j: int| small.contains(j) implies big.remove(i).contains(j) by {
            assert(within(self.iv(c), self.rk(j)));
        }
        assert(small.subset_of(big.remove(i)));
        assert(big.finite());
        lemma_len_subset(small, big.remove(i));
        assert(big.contains(i));
    }

    /// The ends of a node's interval are keys of the tree, and an interval that
    /// starts (ends) at a key lies within the part of that key's interval on
    /// its right (left).
    proof fn lemma_bounds(&self, i: int)
        requires
            self.links_ok(),
            self.occ(i),
        ensures
            self.iv(i).0 matches Some(l) ==> self.has_rank(l),
            self.iv(i).1 matches Some(h) ==> self.has_rank(h),
            forall|j: int|
                self.occ(j) && self.iv(i).0 == Some(#[trigger] self.rk(j)) ==> hi_le(
                    self.iv(i).1,
                    self.iv(j).1,
                ),
            forall|j: int|
                self.occ(j) && self.iv(i).1 == Some(#[trigger] self.rk(j)) ==> lo_ge(
                    self.iv(i).0,
                    self.iv(j).0,
                ),
        decreases self.occupied().len() - self.keys_in(self.iv(i)).len(),
    {
        self.lemma_occupied_finite();
        assert(self.node_ok(i));
        match self.nd(i).parent {
            None => {
                assert(self.root == Some(i as usize));
            },
            Some(p) => {
                assert(self.occ(p as int));
                assert(self.node_ok(p as int));
                assert(self.keys_in(self.iv(p as int)).len() <= self.occupied().len());
                if self.nd(p as int).left == Some(i as usize) {
                    self.lemma_child_fewer(p as int, i as usize);
                    self.lemma_bounds(p as int);
                    assert(self.iv(i) == self.left_iv(p as int));
                    assert(self.has_rank(self.rk(p as int)));
                    assert forall|j: int|
                        self.occ(j) && self.iv(i).1 == Some(#[trigger] self.rk(j)) implies lo_ge(
                        self.iv(i).0,
                        self.iv(j).0,
                    ) by {
                        assert(self.rk(j) == self.rk(p as int));
                        assert(j == p as int);
                    }
                } else {
                    assert(self.nd(p as int).right == Some(i as usize));
                    self.lemma_child_fewer(p as int, i as usize);
                    self.lemma_bounds(p as int);
                    assert(self.iv(i) == self.right_iv(p as int));
                    assert(self.has_rank(self.rk(p as int)));
                    assert forall|j: int|
                        self.occ(j) && self.iv(i).0 == Some(#[trigger] self.rk(j)) implies hi_le(
                        self.iv(i).1,
                        self.iv(j).1,
                    ) by {
                        assert(self.rk(j) == self.rk(p as int));
                        assert(j == p as int);
                    }
                }
            },
        }
    }

    /// Two ranks of the tree's keys coincide only for the same key.
    proof fn lemma_view_entry(&self, i: int)
        requires
            self.links_ok(),
            self.occ(i),
        ensures
            self@.contains_key(self.nd(i).key),
            self@[self.nd(i).key] == self.nd(i).value,
    {
        let k = self.nd(i).key;
        assert(self.occ(i) && self.nd(i).key == k);
        let j = choose|j: int| self.occ(j) && #[trigger] self.nd(j).key == k;
        assert(self.rk(j) == self.rk(i));
    }

    proof fn lemma_contains_rank(&self, k: K)
        requires
            self.links_ok(),
        ensures
            self@.contains_key(k) == self.has_rank(k.rank()),
    {
        if self.has_rank(k.rank()) {
            let i = choose|i: int| self.occ(i) && #[trigger] self.rk(i) == k.rank();
            K::lemma_rank_injective(&self.nd(i).key, &k);
            assert(self.nd(i).key == k);
        }
        if self@.contains_key(k) {
            let i = choose|i: int| self.occ(i) && #[trigger] self.nd(i).key == k;
            assert(self.rk(i) == k.rank());
        }
    }

    // ── Exec accessors ───────────────────────────────────────────────────────
    fn node(&self, i: usize) -> (r: &Node<K, V>)
        requires
            self.occ(i as int),
        ensures
            *r == self.nd(i as int),
    {
        self.slots[i].node.as_ref().unwrap()
    }

    /// Creates an empty tree.
    pub fn new() -> (r: Self)
        ensures
            r.wf(),
            r.balanced(),
            r@ == Map::<K, V>::empty(),
            r.len_spec() == 0,
    {
        let r = RedBlackTree {
            slots: Vec::new(),
            free: Vec::new(),
            root: None,
            len: 0,
            bounds: Ghost(|i: int| (None::<int>, None::<int>)),
            black_heights: Ghost(|i: int| 0int),
        };
        assert(r.occupied() =~= Set::<int>::empty());
        assert(r@ =~= Map::<K, V>::empty());
        r
    }

    /// The number of entries, as the tree counts them.
    pub closed spec fn len_spec(&self) -> nat {
        self.occupied().len()
    }

    /// Every entry of the map corresponds to one node: the count of nodes is the
    /// size of the map.
    pub proof fn lemma_len_is_map_size(&self)
        requires
            self.wf(),
        ensures
            self@.dom().finite(),
            self.len_spec() == self@.dom().len(),
            self@.dom().len() <= usize::MAX,
    {
        self.lemma_occupied_finite();
        let f = |i: int| self.nd(i).key;
        assert forall|a: int, b: int|
            self.occupied().contains(a) && self.occupied().contains(b) && #[trigger] f(a) == #[trigger] f(
                b,
            ) implies a == b by {
            assert(self.rk(a) == self.rk(b));
        }
        assert(self.occupied().map(f) =~= self@.dom()) by {
            assert forall|k: K| self@.dom().contains(k) implies #[trigger] self.occupied().map(
                f,
            ).contains(k) by {
                let i = choose|i: int| self.occ(i) && #[trigger] self.nd(i).key == k;
                assert(self.occupied().contains(i) && f(i) == k);
            }
        }
        vstd::set_lib::lemma_map_size(self.occupied(), self@.dom(), f);
    }

    /// Returns the number of key-value pairs in the tree.
    pub fn len(&self) -> (r: usize)
        requires
            self.wf(),
        ensures
            r == self@.dom().len(),
    {
        proof {
            self.lemma_len_is_map_size();
        }
        self.len
    }

    /// Returns `true` if the tree contains no elements.
    pub fn is_empty(&self) -> (r: bool)
        requires
            self.wf(),
        ensures
            r == (self@.dom().len() == 0),
    {
        proof {
            self.lemma_len_is_map_size();
        }
        self.len == 0
    }

    /// Returns the slot of the node with `key`, if present.
    fn find_slot(&self, key: &K) -> (r: Option<usize>)
        requires
            self.wf(),
        ensures
            match r {
                None => !self@.contains_key(*key),
                Some(i) => self.occ(i as int) && self.nd(i as int).key == *key,
            },
    {
        proof {
            self.lemma_contains_rank(*key);
        }
        let mut current = self.root;
        loop
            invariant
                self.wf(),
                self@.contains_key(*key) == self.has_rank(key.rank()),
                match current {
                    Some(c) => self.occ(c as int) && within(self.iv(c as int), key.rank()),
                    None => !self.has_rank(key.rank()),
                },
            decreases
                match current {
                    Some(c) => self.keys_in(self.iv(c as int)).len() + 1,
                    None => 0,
                },
        {
            match current {
                None => {
                    return None;
                },
                Some(idx) => {
                    proof {
                        assert(self.node_ok(idx as int));
                    }
                    let node = self.node(idx);
                    match key.compare(&node.key) {
                        KeyOrder::Equal => {
                            proof {
                                K::lemma_rank_injective(key, &node.key);
                            }
                            return Some(idx);
                        },
                        KeyOrder::Less => {
                            proof {
                                if let Some(c) = node.left {
                                    self.lemma_child_fewer(idx as int, c);
                                }
                            }
                            current = node.left;
                        },
                        KeyOrder::Greater => {
                            proof {
                                if let Some(c) = node.right {
                                    self.lemma_child_fewer(idx as int, c);
                                }
                            }
                            current = node.right;
                        },
                    }
                },
            }
        }
    }

    /// Returns `true` if `key` is present in the tree.
    pub fn contains(&self, key: &K) -> (r: bool)
        requires
            self.wf(),
        ensures
            r == self@.contains_key(*key),
    {
        let s = self.find_slot(key);
        proof {
            if let Some(i) = s {
                self.lemma_view_entry(i as int);
            }
        }
        s.is_some()
    }

    /// Returns a reference to the value for `key`, if present.
    pub fn get(&self, key: &K) -> (r: Option<&V>)
        requires
            self.wf(),
        ensures
            match r {
                None => !self@.contains_key(*key),
                Some(v) => self@.contains_key(*key) && *v == self@[*key],
            },
    {
        match self.find_slot(key) {
            None => None,
            Some(i) => {
                proof {
                    self.lemma_view_entry(i as int);
                }
                Some(&self.node(i).value)
            },
        }
    }

    /// `t` differs from this tree only in the value of the node in slot `i`.
    closed spec fn value_replaced(&self, t: Self, i: int) -> bool {
        &&& t.slots@.len() == self.slots@.len()
        &&& t.free@ == self.free@
        &&& t.root == self.root
        &&& t.len == self.len
        &&& t.bounds == self.bounds
        &&& forall|j: int| 0 <= j < self.slots@.len() && j != i ==> #[trigger] t.slots@[j] == self.slots@[j]
        &&& t.slots@[i].generation == self.slots@[i].generation
        &&& t.slots@[i].node is Some
        &&& t.nd(i).key == self.nd(i).key
        &&& t.nd(i).color == self.nd(i).color
        &&& t.nd(i).parent == self.nd(i).parent
        &&& t.nd(i).left == self.nd(i).left
        &&& t.nd(i).right == self.nd(i).right
    }

    /// A tree that differs from a well-formed one only in the value of the
    /// node in slot `i` is well formed, maps the key of slot `i` to the new
    /// value and the other keys as before, and keeps the handles.
    proof fn lemma_value_replaced(&self, i: int)
        requires
            self.wf(),
            self.occ(i),
        ensures
            forall|t: Self| #![trigger t.wf()] self.value_replaced(t, i) ==> t.wf(),
            forall|t: Self| #![trigger t.view()] self.value_replaced(t, i) ==> t@ == self@.insert(self.nd(i).key, t.nd(i).value),
            forall|t: Self, h: ArenaIndex| #![trigger t.valid_handle(h)] self.value_replaced(t, i) ==> t.valid_handle(h) == self.valid_handle(h),
            forall|t: Self, h: ArenaIndex| #![trigger t.handle_key(h)] self.value_replaced(t, i) && self.valid_handle(h) ==> t.handle_key(h) == self.handle_key(h),
    {
        assert forall|t: Self| self.value_replaced(t, i) implies #[trigger] t.wf() by {
            self.lemma_value_replaced_one(t, i);
        }
        assert forall|t: Self| self.value_replaced(t, i) implies #[trigger] t.view() == self@.insert(
            self.nd(i).key,
            t.nd(i).value,
        ) by {
            self.lemma_value_replaced_one(t, i);
        }
        assert forall|t: Self, h: ArenaIndex| self.value_replaced(t, i) implies #[trigger] t.valid_handle(h)
            == self.valid_handle(h) by {
            self.lemma_value_replaced_one(t, i);
        }
        assert forall|t: Self, h: ArenaIndex| self.value_replaced(t, i) && self.valid_handle(h) implies #[trigger] t.handle_key(
            h,
        ) == self.handle_key(h) by {
            self.lemma_value_replaced_one(t, i);
        }
    }

    proof fn lemma_value_replaced_one(&self, t: Self, i: int)
        requires
            self.wf(),
            self.occ(i),
            self.value_replaced(t, i),
        ensures
            t.wf(),
            t@ == self@.insert(self.nd(i).key, t.nd(i).value),
            forall|h: ArenaIndex| #[trigger] t.valid_handle(h) == self.valid_handle(h),
            forall|h: ArenaIndex| self.valid_handle(h) ==> #[trigger] t.handle_key(h) == self.handle_key(h),
    {
        assert forall|j: int| #[trigger] t.occ(j) == self.occ(j) by {}
        assert forall|j: int| self.occ(j) implies #[trigger] t.rk(j) == self.rk(j) && t.nd(j).left == self.nd(j).left
            && t.nd(j).right == self.nd(j).right && t.nd(j).parent == self.nd(j).parent && t.nd(j).color
            == self.nd(j).color && t.nd(j).key == self.nd(j).key by {}
        assert forall|j: int| self.occ(j) implies #[trigger] t.node_ok(j) by {
            assert(self.node_ok(j));
            let l = self.nd(j).left;
            let r = self.nd(j).right;
            if let Some(c) = l {
                assert(self.child_ok(j, l, self.left_iv(j)));
                assert(t.occ(c as int));
            } else {
                assert(self.key_free(self.left_iv(j)));
                assert forall|m: int| t.occ(m) implies !within(t.left_iv(j), #[trigger] t.rk(m)) by {
                    assert(self.occ(m));
                    assert(!within(self.left_iv(j), self.rk(m)));
                }
            }
            if let Some(c) = r {
                assert(self.child_ok(j, r, self.right_iv(j)));
                assert(t.occ(c as int));
            } else {
                assert(self.key_free(self.right_iv(j)));
                assert forall|m: int| t.occ(m) implies !within(t.right_iv(j), #[trigger] t.rk(m)) by {
                    assert(self.occ(m));
                    assert(!within(self.right_iv(j), self.rk(m)));
                }
            }
            assert(self.parent_ok(j));
            if let Some(p) = self.nd(j).parent {
                assert(t.occ(p as int));
            }
        }
        assert(t.root_ok()) by {
            assert(self.root_ok());
            if self.root is None {
                assert forall|j: int| !#[trigger] t.occ(j) by {
                    assert(!self.occ(j));
                }
            }
        }
        assert(t.distinct()) by {
            assert forall|a: int, b: int|
                #![trigger t.rk(a), t.rk(b)]
                t.occ(a) && t.occ(b) && t.rk(a) == t.rk(b) implies a == b by {
                assert(self.rk(a) == self.rk(b));
            }
        }
        assert(t.occupied() =~= self.occupied());
        assert(t.free_ok()) by {
            assert forall|j: int| 0 <= j < t.slots@.len() && !#[trigger] t.occ(j) implies t.free@.contains(j as usize) by {
                assert(!self.occ(j));
            }
        }
        let k = self.nd(i).key;
        assert(t@ =~= self@.insert(k, t.nd(i).value)) by {
            assert forall|key: K| #[trigger] t@.contains_key(key) == self@.insert(k, t.nd(i).value).contains_key(key) by {
                if t@.contains_key(key) {
                    let j = choose|j: int| t.occ(j) && #[trigger] t.nd(j).key == key;
                    assert(self.occ(j) && self.nd(j).key == key);
                }
                if self@.contains_key(key) {
                    let j = choose|j: int| self.occ(j) && #[trigger] self.nd(j).key == key;
                    assert(t.occ(j) && t.nd(j).key == key);
                }
                if key == k {
                    assert(t.occ(i) && t.nd(i).key == key);
                }
            }
            assert forall|key: K| #[trigger] t@.contains_key(key) implies t@[key] == self@.insert(k, t.nd(i).value)[key] by {
                let j = choose|j: int| t.occ(j) && #[trigger] t.nd(j).key == key;
                assert(t.rk(j) == t.rk(i) ==> j == i);
                if key == k {
                    assert(t.rk(j) == t.rk(i));
                } else {
                    assert(j != i);
                    self.lemma_view_entry(j);
                }
            }
        }
    }

    /// Returns a mutable reference to the value for `key`, if present; what
    /// is written through it becomes the value of `key`.
    pub fn get_mut(&mut self, key: &K) -> (r: Option<&mut V>)
        requires
            old(self).wf(),
        ensures
            final(self).wf(),
            match r {
                None => !old(self)@.contains_key(*key) && final(self)@ == old(self)@,
                Some(v) => old(self)@.contains_key(*key) && *v == old(self)@[*key] && final(self)@ == old(
                    self,
                )@.insert(*key, *final(v)),
            },
            forall|h: ArenaIndex| #[trigger] final(self).valid_handle(h) == old(self).valid_handle(h),
            forall|h: ArenaIndex| old(self).valid_handle(h) ==> #[trigger] final(self).handle_key(h) == old(self).handle_key(h),
    {
        match self.find_slot(key) {
            None => None,
            Some(i) => {
                proof {
                    self.lemma_view_entry(i as int);
                    self.lemma_value_replaced(i as int);
                }
                let slot = &mut self.slots[i];
                let node = slot.node.as_mut().unwrap();
                Some(&mut node.value)
            },
        }
    }

    /// Returns the handle of the node with `key`, if present.
    pub fn find_node(&self, key: &K) -> (r: Option<ArenaIndex>)
        requires
            self.wf(),
        ensures
            match r {
                None => !self@.contains_key(*key),
                Some(h) => self.valid_handle(h) && self.handle_key(h) == *key,
            },
    {
        match self.find_slot(key) {
            None => None,
            Some(i) => Some(ArenaIndex { index: i, generation: self.slots[i].generation }),
        }
    }

    /// Returns the slot of the minimum-key node in the subtree rooted at `start`.
    fn subtree_min(&self, start: usize) -> (r: usize)
        requires
            self.wf(),
            self.occ(start as int),
        ensures
            self.occ(r as int),
            self.nd(r as int).left is None,
            self.iv(r as int).0 == self.iv(start as int).0,
            self.key_free((self.iv(start as int).0, Some(self.rk(r as int)))),
            within(self.iv(start as int), self.rk(r as int)),
            r == start || self.rk(r as int) < self.rk(start as int),
    {
        let mut result = start;
        proof {
            assert(self.node_ok(start as int));
        }
        loop
            invariant
                self.wf(),
                self.occ(start as int),
                self.occ(result as int),
                self.iv(result as int).0 == self.iv(start as int).0,
                within(self.iv(start as int), self.rk(result as int)),
                result == start || self.rk(result as int) < self.rk(start as int),
                forall|x: int|
                    within(self.iv(result as int), x) ==> within(self.iv(start as int), x),
            decreases self.keys_in(self.iv(result as int)).len(),
        {
            proof {
                assert(self.node_ok(result as int));
            }
            match self.node(result).left {
                None => {
                    return result;
                },
                Some(c) => {
                    proof {
                        self.lemma_child_fewer(result as int, c);
                        assert(self.node_ok(c as int));
                    }
                    result = c;
                },
            }
        }
    }

    /// Returns the slot of the maximum-key node in the subtree rooted at `start`.
    fn subtree_max(&self, start: usize) -> (r: usize)
        requires
            self.wf(),
            self.occ(start as int),
        ensures
            self.occ(r as int),
            self.nd(r as int).right is None,
            self.iv(r as int).1 == self.iv(start as int).1,
            self.key_free((Some(self.rk(r as int)), self.iv(start as int).1)),
    {
        let mut result = start;
        loop
            invariant
                self.wf(),
                self.occ(result as int),
                self.iv(result as int).1 == self.iv(start as int).1,
            decreases self.keys_in(self.iv(result as int)).len(),
        {
            proof {
                assert(self.node_ok(result as int));
            }
            match self.node(result).right {
                None => {
                    return result;
                },
                Some(c) => {
                    proof {
                        self.lemma_child_fewer(result as int, c);
                    }
                    result = c;
                },
            }
        }
    }

    /// Returns a reference to the smallest key in the tree.
    pub fn min(&self) -> (r: Option<&K>)
        requires
            self.wf(),
        ensures
            match r {
                None => self@.dom().len() == 0,
                Some(k) => self@.contains_key(*k) && forall|j: K|
                    #[trigger] self@.contains_key(j) ==> k.rank() <= j.rank(),
            },
    {
        proof {
            self.lemma_len_is_map_size();
        }
        match self.root {
            None => {
                proof {
                    assert(self.occupied() =~= Set::<int>::empty());
                }
                None
            },
            Some(root) => {
                let m = self.subtree_min(root);
                proof {
                    self.lemma_view_entry(m as int);
                    assert forall|j: K| #[trigger] self@.contains_key(j) implies self.rk(m as int)
                        <= j.rank() by {
                        let i = choose|i: int| self.occ(i) && #[trigger] self.nd(i).key == j;
                        assert(self.rk(i) == j.rank());
                    }
                }
                Some(&self.node(m).key)
            },
        }
    }

    /// Returns a reference to the largest key in the tree.
    pub fn max(&self) -> (r: Option<&K>)
        requires
            self.wf(),
        ensures
            match r {
                None => self@.dom().len() == 0,
                Some(k) => self@.contains_key(*k) && forall|j: K|
                    #[trigger] self@.contains_key(j) ==> j.rank() <= k.rank(),
            },
    {
        proof {
            self.lemma_len_is_map_size();
        }
        match self.root {
            None => {
                proof {
                    assert(self.occupied() =~= Set::<int>::empty());
                }
                None
            },
            Some(root) => {
                let m = self.subtree_max(root);
                proof {
                    self.lemma_view_entry(m as int);
                    assert forall|j: K| #[trigger] self@.contains_key(j) implies j.rank()
                        <= self.rk(m as int) by {
                        let i = choose|i: int| self.occ(i) && #[trigger] self.nd(i).key == j;
                        assert(self.rk(i) == j.rank());
                    }
                }
                Some(&self.node(m).key)
            },
        }
    }

    /// Returns a shared reference to a node by handle, if the handle is still valid.
    pub fn arena_get(&self, idx: ArenaIndex) -> (r: Option<&Node<K, V>>)
        requires
            self.wf(),
        ensures
            match r {
                None => !self.valid_handle(idx),
                Some(n) => self.valid_handle(idx) && n.key == self.handle_key(idx) && n.value
                    == self.handle_value(idx),
            },
    {
        if idx.index < self.slots.len() && self.slots[idx.index].generation == idx.generation {
            match &self.slots[idx.index].node {
                Some(n) => Some(n),
                None => None,
            }
        } else {
            None
        }
    }

    // ── Raw link updates ─────────────────────────────────────────────────────
    /// The trees hold the same nodes in the same slots, with the same keys and
    /// values; only links and colors may differ.
    closed spec fn same_content(&self, other: &Self) -> bool {
        &&& self.slots@.len() == other.slots@.len()
        &&& self.free == other.free
        &&& self.len == other.len
        &&& forall|j: int| #[trigger] self.occ(j) == other.occ(j)
        &&& forall|j: int|
            0 <= j < self.slots@.len() ==> (#[trigger] self.slots@[j]).generation
                == other.slots@[j].generation
        &&& forall|j: int|
            #[trigger] self.occ(j) ==> self.nd(j).key == other.nd(j).key && self.nd(j).value
                == other.nd(j).value
    }

    /// Only node `i`'s links or color changed.
    proof fn lemma_same_content_facts(&self, other: &Self)
        requires
            self.same_content(other),
        ensures
            forall|j: int| #[trigger] self.occ(j) ==> self.rk(j) == other.rk(j),
            forall|b: Bounds| #[trigger] self.key_free(b) == other.key_free(b),
            self.occupied() == other.occupied(),
            forall|b: Bounds| #[trigger] self.keys_in(b) == other.keys_in(b),
            self.free_ok() == other.free_ok(),
            forall|h: ArenaIndex| #[trigger] self.valid_handle(h) == other.valid_handle(h),
            forall|h: ArenaIndex| self.valid_handle(h) ==> #[trigger] self.handle_key(h) == other.handle_key(h)
                && self.handle_value(h) == other.handle_value(h),
    {
        assert forall|b: Bounds| #[trigger] self.key_free(b) == other.key_free(b) by {
            if self.key_free(b) {
                assert forall|m: int| other.occ(m) implies !within(b, #[trigger] other.rk(m)) by {
                    assert(self.occ(m));
                    assert(!within(b, self.rk(m)));
                }
            }
            if other.key_free(b) {
                assert forall|m: int| self.occ(m) implies !within(b, #[trigger] self.rk(m)) by {
                    assert(other.occ(m));
                    assert(!within(b, other.rk(m)));
                }
            }
        }
        assert(self.occupied() =~= other.occupied());
        if self.free_ok() {
            assert forall|i: int| 0 <= i < other.slots@.len() && !#[trigger] other.occ(i) implies other.free@.contains(i as usize) by {
                assert(!self.occ(i));
            }
            assert forall|t: int| 0 <= t < other.free@.len() implies #[trigger] other.free@[t] < other.slots@.len() && !other.occ(other.free@[t] as int) by {
                assert(!self.occ(self.free@[t] as int));
            }
        }
        if other.free_ok() {
            assert forall|i: int| 0 <= i < self.slots@.len() && !#[trigger] self.occ(i) implies self.free@.contains(i as usize) by {
                assert(!other.occ(i));
            }
            assert forall|t: int| 0 <= t < self.free@.len() implies #[trigger] self.free@[t] < self.slots@.len() && !self.occ(self.free@[t] as int) by {
                assert(!other.occ(other.free@[t] as int));
            }
        }
        assert forall|b: Bounds| #[trigger] self.keys_in(b) == other.keys_in(b) by {
            assert forall|j: int| self.keys_in(b).contains(j) == other.keys_in(b).contains(j) by {
                assert(self.occ(j) == other.occ(j));
                if self.occ(j) {
                    assert(self.rk(j) == other.rk(j));
                }
            }
            assert(self.keys_in(b) =~= other.keys_in(b));
        }
    }

    /// Trees with the same content hold the same map.
    proof fn lemma_same_content_view(&self, other: &Self)
        requires
            self.same_content(other),
            other.links_ok(),
        ensures
            self@ == other@,
    {
        assert forall|k: K| #[trigger] self@.contains_key(k) == other@.contains_key(k) by {
            if self@.contains_key(k) {
                let i = choose|i: int| self.occ(i) && #[trigger] self.nd(i).key == k;
                assert(other.occ(i) && other.nd(i).key == k);
            }
            if other@.contains_key(k) {
                let i = choose|i: int| other.occ(i) && #[trigger] other.nd(i).key == k;
                assert(self.occ(i) == other.occ(i));
                assert(self.occ(i) && self.nd(i).key == k);
            }
        }
        assert(self@.dom() =~= other@.dom());
        assert forall|k: K| #[trigger] self@.contains_key(k) implies self@[k] == other@[k] by {
            let i = choose|i: int| self.occ(i) && #[trigger] self.nd(i).key == k;
            assert(other.occ(i) && other.nd(i).key == k);
            let j = choose|j: int| other.occ(j) && #[trigger] other.nd(j).key == k;
            assert(self.occ(j) == other.occ(j));
            assert(self.occ(j) && self.nd(j).key == k);
            assert(other.rk(i) == other.rk(j));
            assert(i == j);
        }
        assert(self@ =~= other@);
    }

    fn set_parent(&mut self, i: usize, p: Option<usize>)
        requires
            old(self).occ(i as int),
        ensures
            final(self).slots@ == old(self).slots@.update(
                i as int,
                Slot {
                    generation: old(self).slots@[i as int].generation,
                    node: Some(Node { parent: p, ..old(self).nd(i as int) }),
                },
            ),
            final(self).slots@.len() == old(self).slots@.len(),
            forall|j: int| #[trigger] final(self).occ(j) == old(self).occ(j),
            final(self).free == old(self).free,
            final(self).root == old(self).root,
            final(self).len == old(self).len,
            final(self).bounds == old(self).bounds,
            final(self).black_heights == old(self).black_heights,
    {
        match &mut self.slots[i].node {
            Some(n) => {
                n.parent = p;
            },
            None => {},
        }
    }

    fn set_left(&mut self, i: usize, c: Option<usize>)
        requires
            old(self).occ(i as int),
        ensures
            final(self).slots@ == old(self).slots@.update(
                i as int,
                Slot {
                    generation: old(self).slots@[i as int].generation,
                    node: Some(Node { left: c, ..old(self).nd(i as int) }),
                },
            ),
            final(self).slots@.len() == old(self).slots@.len(),
            forall|j: int| #[trigger] final(self).occ(j) == old(self).occ(j),
            final(self).free == old(self).free,
            final(self).root == old(self).root,
            final(self).len == old(self).len,
            final(self).bounds == old(self).bounds,
            final(self).black_heights == old(self).black_heights,
    {
        match &mut self.slots[i].node {
            Some(n) => {
                n.left = c;
            },
            None => {},
        }
    }

    fn set_right(&mut self, i: usize, c: Option<usize>)
        requires
            old(self).occ(i as int),
        ensures
            final(self).slots@ == old(self).slots@.update(
                i as int,
                Slot {
                    generation: old(self).slots@[i as int].generation,
                    node: Some(Node { right: c, ..old(self).nd(i as int) }),
                },
            ),
            final(self).slots@.len() == old(self).slots@.len(),
            forall|j: int| #[trigger] final(self).occ(j) == old(self).occ(j),
            final(self).free == old(self).free,
            final(self).root == old(self).root,
            final(self).len == old(self).len,
            final(self).bounds == old(self).bounds,
            final(self).black_heights == old(self).black_heights,
    {
        match &mut self.slots[i].node {
            Some(n) => {
                n.right = c;
            },
            None => {},
        }
    }

    fn set_color(&mut self, i: usize, c: Color)
        requires
            old(self).occ(i as int),
        ensures
            final(self).slots@ == old(self).slots@.update(
                i as int,
                Slot {
                    generation: old(self).slots@[i as int].generation,
                    node: Some(Node { color: c, ..old(self).nd(i as int) }),
                },
            ),
            final(self).slots@.len() == old(self).slots@.len(),
            forall|j: int| #[trigger] final(self).occ(j) == old(self).occ(j),
            final(self).free == old(self).free,
            final(self).root == old(self).root,
            final(self).len == old(self).len,
            final(self).bounds == old(self).bounds,
            final(self).black_heights == old(self).black_heights,
    {
        match &mut self.slots[i].node {
            Some(n) => {
                n.color = c;
            },
            None => {},
        }
    }

    /// Returns the child at `branch` of the node in slot `idx`.
    fn link(&self, idx: usize, branch: Branch) -> (r: Option<usize>)
        requires
            self.occ(idx as int),
        ensures
            r == self.link_spec(idx as int, branch),
    {
        let node = self.node(idx);
        match branch {
            Branch::Left => node.left,
            Branch::Right => node.right,
        }
    }

    closed spec fn link_spec(&self, idx: int, branch: Branch) -> Option<usize> {
        match branch {
            Branch::Left => self.nd(idx).left,
            Branch::Right => self.nd(idx).right,
        }
    }

    /// Sets the left or right child pointer of `parent` to `child`.
    ///
    /// Does not update `child.parent`; callers keep parent links consistent.
    fn set_child(&mut self, parent: usize, branch: Branch, child: Option<usize>)
        requires
            old(self).occ(parent as int),
        ensures
            final(self).slots@ == old(self).slots@.update(
                parent as int,
                Slot {
                    generation: old(self).slots@[parent as int].generation,
                    node: Some(
                        match branch {
                            Branch::Left => Node { left: child, ..old(self).nd(parent as int) },
                            Branch::Right => Node { right: child, ..old(self).nd(parent as int) },
                        },
                    ),
                },
            ),
            final(self).slots@.len() == old(self).slots@.len(),
            forall|j: int| #[trigger] final(self).occ(j) == old(self).occ(j),
            final(self).free == old(self).free,
            final(self).root == old(self).root,
            final(self).len == old(self).len,
            final(self).bounds == old(self).bounds,
            final(self).black_heights == old(self).black_heights,
    {
        match branch {
            Branch::Left => self.set_left(parent, child),
            Branch::Right => self.set_right(parent, child),
        }
    }

    /// Returns which side of `parent` holds `child` as a direct child.
    fn branch_of_child(&self, parent: usize, child: usize) -> (r: Branch)
        requires
            self.occ(parent as int),
        ensures
            r == Branch::Left <==> self.nd(parent as int).left == Some(child),
    {
        if self.node(parent).left == Some(child) {
            Branch::Left
        } else {
            Branch::Right
        }
    }

    /// Returns the color of `node`, or black if `node` is `None` (a leaf).
    fn color_of(&self, node: Option<usize>) -> (r: Color)
        requires
            node matches Some(i) ==> self.occ(i as int),
        ensures
            r == self.color_spec(node),
    {
        match node {
            None => Color::Black,
            Some(i) => self.node(i).color,
        }
    }

    closed spec fn color_spec(&self, node: Option<usize>) -> Color {
        match node {
            None => Color::Black,
            Some(i) => self.nd(i as int).color,
        }
    }

    /// What a rotation through `x` lifting `y` did to the links.
    closed spec fn rotated(&self, old: &Self, x: usize, y: usize, lift_right: bool) -> bool {
        let xp = old.nd(x as int).parent;
        let inner = if lift_right { old.nd(y as int).left } else { old.nd(y as int).right };
        &&& self.links_ok()
        &&& self.same_content(old)
        &&& self.black_heights == old.black_heights
        &&& forall|j: int| #[trigger] self.occ(j) ==> self.nd(j).color == old.nd(j).color
        &&& self.nd(y as int).parent == xp
        &&& self.nd(x as int).parent == Some(y)
        &&& if lift_right {
            &&& self.nd(y as int).left == Some(x)
            &&& self.nd(y as int).right == old.nd(y as int).right
            &&& self.nd(x as int).right == inner
            &&& self.nd(x as int).left == old.nd(x as int).left
        } else {
            &&& self.nd(y as int).right == Some(x)
            &&& self.nd(y as int).left == old.nd(y as int).left
            &&& self.nd(x as int).left == inner
            &&& self.nd(x as int).right == old.nd(x as int).right
        }
        &&& match xp {
            None => self.root == Some(y),
            Some(p) => {
                &&& self.root == old.root
                &&& self.nd(p as int).left == (if old.nd(p as int).left == Some(x) {
                    Some(y)
                } else {
                    old.nd(p as int).left
                })
                &&& self.nd(p as int).right == (if old.nd(p as int).left == Some(x) {
                    old.nd(p as int).right
                } else {
                    Some(y)
                })
                &&& self.nd(p as int).parent == old.nd(p as int).parent
            },
        }
        &&& forall|j: int|
            #![trigger self.slots@[j]]
            0 <= j < self.slots@.len() && j != x as int && j != y as int && Some(j as usize) != xp && Some(
                j as usize,
            ) != inner ==> self.slots@[j] == old.slots@[j]
        &&& match inner {
            Some(b) => self.nd(b as int).parent == Some(x) && self.nd(b as int).left
                == old.nd(b as int).left && self.nd(b as int).right == old.nd(b as int).right,
            None => true,
        }
        &&& forall|j: int|
            #[trigger] self.occ(j) && j != x as int && j != y as int ==> self.iv(j) == old.iv(j)
        &&& self.iv(y as int) == old.iv(x as int)
    }

    /// Standard left rotation at `x`, which must have a right child `y`.
    ///
    /// ```text
    ///      xp                      xp
    ///      /                       /
    ///     x                       y
    ///    / \        left          / \
    ///   α  y        rotate       x   γ
    ///     / \        ===>       / \
    ///    β  γ                   α  β
    /// ```
    fn left_rotate(&mut self, x: usize)
        requires
            old(self).links_ok(),
            old(self).occ(x as int),
            old(self).nd(x as int).right is Some,
        ensures
            final(self).rotated(old(self), x, old(self).nd(x as int).right.unwrap(), true),
    {
        let ghost t = *self;
        let y = self.node(x).right.unwrap();
        proof {
            assert(t.node_ok(x as int));
            assert(t.node_ok(y as int));
            assert(t.parent_ok(x as int));
        }
        let yl = self.node(y).left;
        self.set_right(x, yl);
        if let Some(b) = yl {
            proof {
                assert(t.node_ok(b as int));
            }
            self.set_parent(b, Some(x));
        }
        let xp = self.node(x).parent;
        self.set_parent(y, xp);
        match xp {
            None => {
                self.root = Some(y);
            },
            Some(p) => {
                let branch = self.branch_of_child(p, x);
                self.set_child(p, branch, Some(y));
            },
        }
        self.set_left(y, Some(x));
        self.set_parent(x, Some(y));
        let ghost ivx = t.iv(x as int);
        let ghost rky = t.rk(y as int);
        let ghost ob = t.bounds@;
        self.bounds = Ghost(
            |j: int|
                if j == y as int {
                    ivx
                } else if j == x as int {
                    (ivx.0, Some(rky))
                } else {
                    ob(j)
                },
        );
        proof {
            assert(self.rotation_links(&t, x, y, true));
            self.lemma_rotation_done(&t, x, y, true);
        }
    }

    /// Standard right rotation at `x` — mirror image of [`Self::left_rotate`];
    /// `x` must have a left child.
    fn right_rotate(&mut self, x: usize)
        requires
            old(self).links_ok(),
            old(self).occ(x as int),
            old(self).nd(x as int).left is Some,
        ensures
            final(self).rotated(old(self), x, old(self).nd(x as int).left.unwrap(), false),
    {
        let ghost t = *self;
        let y = self.node(x).left.unwrap();
        proof {
            assert(t.node_ok(x as int));
            assert(t.node_ok(y as int));
            assert(t.parent_ok(x as int));
        }
        let yr = self.node(y).right;
        self.set_left(x, yr);
        if let Some(b) = yr {
            proof {
                assert(t.node_ok(b as int));
            }
            self.set_parent(b, Some(x));
        }
        let xp = self.node(x).parent;
        self.set_parent(y, xp);
        match xp {
            None => {
                self.root = Some(y);
            },
            Some(p) => {
                let branch = self.branch_of_child(p, x);
                self.set_child(p, branch, Some(y));
            },
        }
        self.set_right(y, Some(x));
        self.set_parent(x, Some(y));
        let ghost ivx = t.iv(x as int);
        let ghost rky = t.rk(y as int);
        let ghost ob = t.bounds@;
        self.bounds = Ghost(
            |j: int|
                if j == y as int {
                    ivx
                } else if j == x as int {
                    (Some(rky), ivx.1)
                } else {
                    ob(j)
                },
        );
        proof {
            assert(self.rotation_links(&t, x, y, false));
            self.lemma_rotation_done(&t, x, y, false);
        }
    }

    /// The links after a rotation, slot by slot.
    closed spec fn rotation_links(&self, t: &Self, x: usize, y: usize, lift_right: bool) -> bool {
        let xp = t.nd(x as int).parent;
        let inner = if lift_right { t.nd(y as int).left } else { t.nd(y as int).right };
        &&& self.same_content(t)
        &&& self.black_heights == t.black_heights
        &&& if lift_right {
            &&& self.nd(x as int) == (Node { right: inner, parent: Some(y), ..t.nd(x as int) })
            &&& self.nd(y as int) == (Node { left: Some(x), parent: xp, ..t.nd(y as int) })
        } else {
            &&& self.nd(x as int) == (Node { left: inner, parent: Some(y), ..t.nd(x as int) })
            &&& self.nd(y as int) == (Node { right: Some(x), parent: xp, ..t.nd(y as int) })
        }
        &&& match inner {
            Some(b) => self.nd(b as int) == (Node { parent: Some(x), ..t.nd(b as int) }),
            None => true,
        }
        &&& match xp {
            None => self.root == Some(y),
            Some(p) => {
                &&& self.root == t.root
                &&& self.nd(p as int) == (if t.nd(p as int).left == Some(x) {
                    Node { left: Some(y), ..t.nd(p as int) }
                } else {
                    Node { right: Some(y), ..t.nd(p as int) }
                })
            },
        }
        &&& forall|j: int|
            #![trigger self.slots@[j]]
            0 <= j < self.slots@.len() && j != x as int && j != y as int && Some(j as usize) != xp && Some(
                j as usize,
            ) != inner ==> self.slots@[j] == t.slots@[j]
        &&& forall|j: int|
            j != x as int && j != y as int ==> #[trigger] self.iv(j) == t.iv(j)
        &&& self.iv(y as int) == t.iv(x as int)
        &&& self.iv(x as int) == (if lift_right {
            (t.iv(x as int).0, Some(t.rk(y as int)))
        } else {
            (Some(t.rk(y as int)), t.iv(x as int).1)
        })
    }

    #[verifier::spinoff_prover]
    #[verifier::rlimit(60)]
    proof fn lemma_rotation_done(&self, t: &Self, x: usize, y: usize, lift_right: bool)
        requires
            t.links_ok(),
            t.occ(x as int),
            if lift_right { t.nd(x as int).right == Some(y) } else { t.nd(x as int).left == Some(y) },
            self.rotation_links(t, x, y, lift_right),
        ensures
            self.rotated(t, x, y, lift_right),
    {
        let xp = t.nd(x as int).parent;
        let inner = if lift_right { t.nd(y as int).left } else { t.nd(y as int).right };
        assert(t.node_ok(x as int));
        assert(t.occ(y as int));
        assert(t.node_ok(y as int));
        assert(t.parent_ok(x as int));
        self.lemma_same_content_facts(t);
        assert(x != y);
        if let Some(p) = xp {
            assert(t.node_ok(p as int));
            assert(p != x);
            assert(p != y);
        }
        if let Some(b) = inner {
            assert(t.node_ok(b as int));
            assert(b != x);
            assert(b != y);
            if let Some(p) = xp {
                assert(b != p);
            }
        }
        assert forall|j: int| self.occ(j) implies #[trigger] self.node_ok(j) by {
            self.lemma_rotation_node(t, x, y, lift_right, j);
        }
        assert(self.root_ok());
        assert(self.distinct());
    }

    proof fn lemma_rotation_node(&self, t: &Self, x: usize, y: usize, lift_right: bool, j: int)
        requires
            t.links_ok(),
            t.occ(x as int),
            if lift_right { t.nd(x as int).right == Some(y) } else { t.nd(x as int).left == Some(y) },
            self.rotation_links(t, x, y, lift_right),
            self.occ(j),
        ensures
            self.node_ok(j),
    {
        let xp = t.nd(x as int).parent;
        let inner = if lift_right { t.nd(y as int).left } else { t.nd(y as int).right };
        let outer = if lift_right { t.nd(y as int).right } else { t.nd(y as int).left };
        let a = if lift_right { t.nd(x as int).left } else { t.nd(x as int).right };
        assert(t.node_ok(x as int));
        assert(t.occ(y as int));
        assert(t.node_ok(y as int));
        self.lemma_same_content_facts(t);
        assert(t.occ(j));
        assert(t.node_ok(j));
        assert(self.rk(j) == t.rk(j));
        assert(self.rk(x as int) == t.rk(x as int));
        assert(self.rk(y as int) == t.rk(y as int));
        if let Some(p) = xp {
            assert(t.node_ok(p as int));
            assert(self.rk(p as int) == t.rk(p as int));
        }
        if let Some(b) = inner {
            assert(t.node_ok(b as int));
            assert(self.rk(b as int) == t.rk(b as int));
        }
        if let Some(g) = outer {
            assert(t.node_ok(g as int));
            assert(self.rk(g as int) == t.rk(g as int));
        }
        if let Some(c) = a {
            assert(t.node_ok(c as int));
            assert(self.rk(c as int) == t.rk(c as int));
        }
        if j == x as int {
        } else if j == y as int {
        } else if Some(j as usize) == xp {
            self.lemma_rotation_parent(t, x, y, lift_right, j);
        } else if Some(j as usize) == inner {
            self.lemma_rotation_inner(t, x, y, lift_right, j);
        } else {
            self.lemma_rotation_other(t, x, y, lift_right, j);
        }
    }

    proof fn lemma_rotation_parent(&self, t: &Self, x: usize, y: usize, lift_right: bool, j: int)
        requires
            t.links_ok(),
            t.occ(x as int),
            if lift_right { t.nd(x as int).right == Some(y) } else { t.nd(x as int).left == Some(y) },
            self.rotation_links(t, x, y, lift_right),
            self.occ(j),
            Some(j as usize) == t.nd(x as int).parent,
        ensures
            self.node_ok(j),
    {
        let xp = t.nd(x as int).parent;
        let inner = if lift_right { t.nd(y as int).left } else { t.nd(y as int).right };
        assert(t.node_ok(x as int));
        assert(t.occ(y as int));
        assert(t.node_ok(y as int));
        self.lemma_same_content_facts(t);
        assert(t.occ(j));
        assert(t.node_ok(j));
            assert(t.parent_ok(x as int));
            assert(self.iv(j) == t.iv(j));
            assert(self.left_iv(j) == t.left_iv(j));
            assert(self.right_iv(j) == t.right_iv(j));
            if t.nd(j).left == Some(x) {
                assert(self.nd(j).left == Some(y));
                assert(self.child_ok(j, self.nd(j).left, self.left_iv(j)));
                assert(self.nd(j).right == t.nd(j).right);
                if let Some(c) = t.nd(j).right {
                    assert(t.node_ok(c as int));
                    assert(c != x);
                    assert(c != y);
                    assert(Some(c) != inner);
                    assert(self.slots@[c as int] == t.slots@[c as int]);
                }
                assert(self.child_ok(j, self.nd(j).right, self.right_iv(j)));
            } else {
                assert(self.nd(j).right == Some(y));
                assert(self.child_ok(j, self.nd(j).right, self.right_iv(j)));
                assert(self.nd(j).left == t.nd(j).left);
                if let Some(c) = t.nd(j).left {
                    assert(t.node_ok(c as int));
                    assert(c != x);
                    assert(c != y);
                    assert(Some(c) != inner);
                    assert(self.slots@[c as int] == t.slots@[c as int]);
                }
                assert(self.child_ok(j, self.nd(j).left, self.left_iv(j)));
            }
            assert(t.parent_ok(j));
            if let Some(q) = t.nd(j).parent {
                assert(t.node_ok(q as int));
                assert(q != x);
                assert(q != y);
                assert(Some(q) != inner);
                assert(self.slots@[q as int] == t.slots@[q as int]);
            }
            assert(self.parent_ok(j));
    }

    proof fn lemma_rotation_inner(&self, t: &Self, x: usize, y: usize, lift_right: bool, j: int)
        requires
            t.links_ok(),
            t.occ(x as int),
            if lift_right { t.nd(x as int).right == Some(y) } else { t.nd(x as int).left == Some(y) },
            self.rotation_links(t, x, y, lift_right),
            self.occ(j),
            Some(j as usize) == (if lift_right { t.nd(y as int).left } else { t.nd(y as int).right }),
            j != x as int,
            j != y as int,
        ensures
            self.node_ok(j),
    {
        let xp = t.nd(x as int).parent;
        let inner = if lift_right { t.nd(y as int).left } else { t.nd(y as int).right };
        assert(t.node_ok(x as int));
        assert(t.occ(y as int));
        assert(t.node_ok(y as int));
        self.lemma_same_content_facts(t);
        assert(t.occ(j));
        assert(t.node_ok(j));
            if let Some(c) = t.nd(j).left {
                assert(t.node_ok(c as int));
            }
            if let Some(c) = t.nd(j).right {
                assert(t.node_ok(c as int));
            }
    }

    proof fn lemma_rotation_other(&self, t: &Self, x: usize, y: usize, lift_right: bool, j: int)
        requires
            t.links_ok(),
            t.occ(x as int),
            if lift_right { t.nd(x as int).right == Some(y) } else { t.nd(x as int).left == Some(y) },
            self.rotation_links(t, x, y, lift_right),
            self.occ(j),
            Some(j as usize) != t.nd(x as int).parent,
            Some(j as usize) != (if lift_right { t.nd(y as int).left } else { t.nd(y as int).right }),
            j != x as int,
            j != y as int,
        ensures
            self.node_ok(j),
    {
        let xp = t.nd(x as int).parent;
        let inner = if lift_right { t.nd(y as int).left } else { t.nd(y as int).right };
        assert(t.node_ok(x as int));
        assert(t.occ(y as int));
        assert(t.node_ok(y as int));
        self.lemma_same_content_facts(t);
        assert(t.occ(j));
        assert(t.node_ok(j));
            if let Some(c) = t.nd(j).left {
                assert(t.node_ok(c as int));
            }
            if let Some(c) = t.nd(j).right {
                assert(t.node_ok(c as int));
            }
            if let Some(q) = t.nd(j).parent {
                assert(t.node_ok(q as int));
            }
    }

    // ── Insertion ────────────────────────────────────────────────────────────
    /// The interval of the child position on `side` of node `i`.
    closed spec fn side_iv(&self, i: int, side: Branch) -> Bounds {
        match side {
            Branch::Left => self.left_iv(i),
            Branch::Right => self.right_iv(i),
        }
    }

    /// Two empty child positions whose intervals hold the same rank are the
    /// same position.
    proof fn lemma_gap_unique(&self, p: int, sp: Branch, j: int, sj: Branch, r: int)
        requires
            self.links_ok(),
            self.occ(p),
            self.occ(j),
            self.link_spec(p, sp) is None,
            self.link_spec(j, sj) is None,
            within(self.side_iv(p, sp), r),
            within(self.side_iv(j, sj), r),
        ensures
            p == j,
            sp == sj,
    {
        assert(self.node_ok(p));
        assert(self.node_ok(j));
        let g1 = self.side_iv(p, sp);
        let g2 = self.side_iv(j, sj);
        assert(self.key_free(g1));
        assert(self.key_free(g2));
        self.lemma_bounds(p);
        self.lemma_bounds(j);
        assert(self.has_rank(self.rk(p)));
        assert(self.has_rank(self.rk(j)));
        // Both ends of each gap are ranks of keys (or infinite).
        assert(g1.0 matches Some(a) ==> self.has_rank(a));
        assert(g1.1 matches Some(a) ==> self.has_rank(a));
        assert(g2.0 matches Some(a) ==> self.has_rank(a));
        assert(g2.1 matches Some(a) ==> self.has_rank(a));
        // The lower ends agree.
        if g1.0 != g2.0 {
            match (g1.0, g2.0) {
                (Some(a), Some(b)) => {
                    if a < b {
                        let m = choose|m: int| self.occ(m) && #[trigger] self.rk(m) == b;
                        assert(within(g1, self.rk(m)));
                    } else {
                        let m = choose|m: int| self.occ(m) && #[trigger] self.rk(m) == a;
                        assert(within(g2, self.rk(m)));
                    }
                },
                (None, Some(b)) => {
                    let m = choose|m: int| self.occ(m) && #[trigger] self.rk(m) == b;
                    assert(within(g1, self.rk(m)));
                },
                (Some(a), None) => {
                    let m = choose|m: int| self.occ(m) && #[trigger] self.rk(m) == a;
                    assert(within(g2, self.rk(m)));
                },
                (None, None) => {},
            }
        }
        if g1.1 != g2.1 {
            match (g1.1, g2.1) {
                (Some(a), Some(b)) => {
                    if a < b {
                        let m = choose|m: int| self.occ(m) && #[trigger] self.rk(m) == a;
                        assert(within(g2, self.rk(m)));
                    } else {
                        let m = choose|m: int| self.occ(m) && #[trigger] self.rk(m) == b;
                        assert(within(g1, self.rk(m)));
                    }
                },
                (None, Some(b)) => {
                    let m = choose|m: int| self.occ(m) && #[trigger] self.rk(m) == b;
                    assert(within(g1, self.rk(m)));
                },
                (Some(a), None) => {
                    let m = choose|m: int| self.occ(m) && #[trigger] self.rk(m) == a;
                    assert(within(g2, self.rk(m)));
                },
                (None, None) => {},
            }
        }
        assert(g1 == g2);
        match (sp, sj) {
            (Branch::Left, Branch::Left) => {
                assert(self.rk(p) == self.rk(j));
            },
            (Branch::Right, Branch::Right) => {
                assert(self.rk(p) == self.rk(j));
            },
            (Branch::Left, Branch::Right) => {
                assert(self.iv(p).0 == Some(self.rk(j)));
                assert(hi_le(self.iv(p).1, self.iv(j).1));
            },
            (Branch::Right, Branch::Left) => {
                assert(self.iv(j).0 == Some(self.rk(p)));
                assert(hi_le(self.iv(j).1, self.iv(p).1));
            },
        }
    }

    /// The side on which a key of rank `r` hangs below a node of rank `pr`.
    closed spec fn side_for(r: int, pr: int) -> Branch {
        if r < pr {
            Branch::Left
        } else {
            Branch::Right
        }
    }

    /// Every slot that holds no node is on the free list, so with an empty
    /// free list every slot is occupied.
    proof fn lemma_no_free_all_occupied(&self)
        requires
            self.free_ok(),
            self.free@.len() == 0,
        ensures
            self.occupied().len() == self.slots@.len(),
    {
        lemma_int_range(0, self.slots@.len() as int);
        assert(self.occupied() =~= set_int_range(0, self.slots@.len() as int)) by {
            assert forall|i: int| 0 <= i < self.slots@.len() implies self.occ(i) by {
                if !self.occ(i) {
                    assert(self.free@.contains(i as usize));
                }
            }
        }
    }

    /// Stores `value` in the node of slot `i`.
    fn set_value(&mut self, i: usize, value: V)
        requires
            old(self).occ(i as int),
        ensures
            final(self).slots@ == old(self).slots@.update(
                i as int,
                Slot {
                    generation: old(self).slots@[i as int].generation,
                    node: Some(Node { value: value, ..old(self).nd(i as int) }),
                },
            ),
            final(self).slots@.len() == old(self).slots@.len(),
            forall|j: int| #[trigger] final(self).occ(j) == old(self).occ(j),
            final(self).free == old(self).free,
            final(self).root == old(self).root,
            final(self).len == old(self).len,
            final(self).bounds == old(self).bounds,
            final(self).black_heights == old(self).black_heights,
    {
        match &mut self.slots[i].node {
            Some(n) => {
                n.value = value;
            },
            None => {},
        }
    }

    /// Trees whose occupied slots agree everywhere but in slot `n`, which
    /// only the new tree occupies, with a key not in the old tree.
    proof fn lemma_view_add(&self, prev: &Self, n: int, key: K, value: V)
        requires
            prev.links_ok(),
            self.links_ok(),
            self.occ(n),
            !prev.occ(n),
            self.nd(n).key == key,
            self.nd(n).value == value,
            !prev@.contains_key(key),
            forall|j: int| j != n ==> #[trigger] self.occ(j) == prev.occ(j),
            forall|j: int|
                j != n && #[trigger] self.occ(j) ==> self.nd(j).key == prev.nd(j).key && self.nd(j).value
                    == prev.nd(j).value,
        ensures
            self@ == prev@.insert(key, value),
    {
        self.lemma_view_entry(n);
        assert forall|k: K| #[trigger] self@.contains_key(k) == prev@.insert(key, value).contains_key(k) by {
            if self@.contains_key(k) && k != key {
                let i = choose|i: int| self.occ(i) && #[trigger] self.nd(i).key == k;
                assert(i != n);
                assert(self.occ(i) == prev.occ(i));
                assert(self.nd(i).key == prev.nd(i).key);
                assert(prev.occ(i) && prev.nd(i).key == k);
            }
            if prev@.contains_key(k) {
                let i = choose|i: int| prev.occ(i) && #[trigger] prev.nd(i).key == k;
                assert(i != n);
                assert(self.occ(i) == prev.occ(i));
                assert(self.nd(i).key == prev.nd(i).key);
                assert(self.occ(i) && self.nd(i).key == k);
            }
        }
        assert forall|k: K| #[trigger] self@.contains_key(k) implies self@[k] == prev@.insert(key, value)[k] by {
            if k != key {
                let i = choose|i: int| prev.occ(i) && #[trigger] prev.nd(i).key == k;
                assert(i != n);
                assert(self.occ(i) == prev.occ(i));
                assert(self.nd(i).key == prev.nd(i).key);
                assert(self.occ(i) && self.nd(i).key == k);
                self.lemma_view_entry(i);
                prev.lemma_view_entry(i);
            }
        }
        assert(self@ =~= prev@.insert(key, value));
    }

    /// Trees whose slots agree but in slot `i`, whose node got `value`.
    proof fn lemma_view_value(&self, prev: &Self, i: int, value: V)
        requires
            prev.links_ok(),
            self.links_ok(),
            prev.occ(i),
            self.occ(i),
            self.nd(i).key == prev.nd(i).key,
            self.nd(i).value == value,
            forall|j: int| #[trigger] self.occ(j) == prev.occ(j),
            forall|j: int|
                j != i && #[trigger] self.occ(j) ==> self.nd(j).key == prev.nd(j).key && self.nd(j).value
                    == prev.nd(j).value,
        ensures
            self@ == prev@.insert(prev.nd(i).key, value),
    {
        let key = prev.nd(i).key;
        self.lemma_view_entry(i);
        prev.lemma_view_entry(i);
        assert forall|k: K| #[trigger] self@.contains_key(k) == prev@.insert(key, value).contains_key(k) by {
            if self@.contains_key(k) {
                let j = choose|j: int| self.occ(j) && #[trigger] self.nd(j).key == k;
                assert(self.occ(j) == prev.occ(j));
                if j != i {
                    assert(self.nd(j).key == prev.nd(j).key);
                }
                assert(prev.occ(j) && prev.nd(j).key == k);
            }
            if prev@.contains_key(k) {
                let j = choose|j: int| prev.occ(j) && #[trigger] prev.nd(j).key == k;
                assert(self.occ(j) == prev.occ(j));
                if j != i {
                    assert(self.nd(j).key == prev.nd(j).key);
                }
                assert(self.occ(j) && self.nd(j).key == k);
            }
        }
        assert forall|k: K| #[trigger] self@.contains_key(k) implies self@[k] == prev@.insert(key, value)[k] by {
            if k != key {
                let j = choose|j: int| prev.occ(j) && #[trigger] prev.nd(j).key == k;
                assert(j != i);
                assert(self.occ(j) == prev.occ(j));
                assert(self.nd(j).key == prev.nd(j).key);
                assert(self.occ(j) && self.nd(j).key == k);
                self.lemma_view_entry(j);
                prev.lemma_view_entry(j);
            }
        }
        assert(self@ =~= prev@.insert(key, value));
    }

    /// How the tree looks after a new node in slot `n` was hung below
    /// `parent` (or made the root), before any rebalancing.
    closed spec fn attached(&self, prev: &Self, n: int, parent: Option<usize>, key: K, value: V) -> bool {
        let side = match parent {
            Some(p) => Self::side_for(key.rank(), prev.rk(p as int)),
            None => Branch::Left,
        };
        &&& n < self.slots@.len()
        &&& self.slots@.len() <= usize::MAX
        &&& 0 <= n <= prev.slots@.len()
        &&& self.slots@.len() == (if n == prev.slots@.len() {
            prev.slots@.len() + 1int
        } else {
            prev.slots@.len() as int
        })
        &&& self.occ(n)
        &&& !prev.occ(n)
        &&& self.nd(n) == (Node { key: key, value: value, color: Color::Red, parent: parent, left: None::<usize>, right: None::<usize> })
        &&& forall|j: int|
            #![trigger self.slots@[j]]
            0 <= j < prev.slots@.len() && j != n && Some(j as usize) != parent ==> self.slots@[j] == prev.slots@[j]
        &&& match parent {
            None => self.root == Some(n as usize) && prev.root is None,
            Some(p) => {
                &&& self.root == prev.root
                &&& prev.occ(p as int)
                &&& self.occ(p as int)
                &&& self.slots@[p as int].generation == prev.slots@[p as int].generation
                &&& prev.link_spec(p as int, side) is None
                &&& within(prev.side_iv(p as int, side), key.rank())
                &&& self.nd(p as int) == (match side {
                    Branch::Left => Node { left: Some(n as usize), ..prev.nd(p as int) },
                    Branch::Right => Node { right: Some(n as usize), ..prev.nd(p as int) },
                })
            },
        }
        &&& self.iv(n) == (match parent {
            None => (None::<int>, None::<int>),
            Some(p) => prev.side_iv(p as int, side),
        })
        &&& forall|j: int| j != n ==> #[trigger] self.iv(j) == prev.iv(j)
        &&& !prev.has_rank(key.rank())
    }

    proof fn lemma_attach_node(&self, prev: &Self, n: int, parent: Option<usize>, key: K, value: V, j: int)
        requires
            prev.links_ok(),
            self.attached(prev, n, parent, key, value),
            self.occ(j),
        ensures
            self.node_ok(j),
    {
        let side = match parent {
            Some(p) => Self::side_for(key.rank(), prev.rk(p as int)),
            None => Branch::Left,
        };
        let r = key.rank();
        assert(self.rk(n) == r);
        if let Some(p) = parent {
            assert(prev.node_ok(p as int));
            assert(self.rk(p as int) == prev.rk(p as int));
            assert(prev.key_free(prev.side_iv(p as int, side)));
        } else {
            assert(prev.root_ok());
        }
        // Keys other than the new one are the old keys.
        assert forall|m: int| #[trigger] self.occ(m) && m != n implies prev.occ(m) && self.rk(m) == prev.rk(m) by {
            if 0 <= m < prev.slots@.len() {
                if Some(m as usize) != parent {
                    assert(self.slots@[m] == prev.slots@[m]);
                } else {
                    let side = Self::side_for(key.rank(), prev.rk(m));
                    assert(self.nd(m).key == prev.nd(m).key);
                }
            } else {
                assert(m == prev.slots@.len());
            }
        }
        if j == n {
            assert(within(self.iv(n), r));
            assert forall|m: int| self.occ(m) implies !within(self.left_iv(n), #[trigger] self.rk(m)) by {
                if m != n {
                    assert(prev.occ(m));
                    if let Some(p) = parent {
                        assert(!within(prev.side_iv(p as int, side), prev.rk(m)));
                    } else {
                        assert(!prev.occ(m));
                    }
                }
            }
            assert forall|m: int| self.occ(m) implies !within(self.right_iv(n), #[trigger] self.rk(m)) by {
                if m != n {
                    assert(prev.occ(m));
                    if let Some(p) = parent {
                        assert(!within(prev.side_iv(p as int, side), prev.rk(m)));
                    } else {
                        assert(!prev.occ(m));
                    }
                }
            }
            assert(self.child_ok(n, self.nd(n).left, self.left_iv(n)));
            assert(self.child_ok(n, self.nd(n).right, self.right_iv(n)));
            assert(self.parent_ok(n));
        } else {
            assert(prev.occ(j));
            assert(prev.node_ok(j));
            let pj = prev.nd(j);
            assert(self.rk(j) == prev.rk(j));
            assert(self.iv(j) == prev.iv(j));
            assert(self.left_iv(j) == prev.left_iv(j));
            assert(self.right_iv(j) == prev.right_iv(j));
            // An empty position of the old tree that the new key does not land in
            // stays empty.
            assert forall|sd: Branch| prev.link_spec(j, sd) is None && !(Some(j as usize) == parent && sd == side)
                implies #[trigger] self.key_free(prev.side_iv(j, sd)) by {
                assert(prev.key_free(prev.side_iv(j, sd))) by {
                    match sd {
                        Branch::Left => assert(prev.child_ok(j, pj.left, prev.left_iv(j))),
                        Branch::Right => assert(prev.child_ok(j, pj.right, prev.right_iv(j))),
                    }
                }
                assert forall|m: int| self.occ(m) implies !within(prev.side_iv(j, sd), #[trigger] self.rk(m)) by {
                    if m == n {
                        if within(prev.side_iv(j, sd), r) {
                            if let Some(p) = parent {
                                prev.lemma_gap_unique(p as int, side, j, sd, r);
                            } else {
                                assert(!prev.occ(j));
                            }
                        }
                    } else {
                        assert(prev.occ(m));
                    }
                }
            }
            // Children that are nodes keep their slots, parents and intervals.
            assert forall|c: usize| prev.occ(c as int) && prev.nd(c as int).parent == Some(j as usize)
                implies #[trigger] self.occ(c as int) && self.nd(c as int).parent == Some(j as usize)
                && self.iv(c as int) == prev.iv(c as int) by {
                assert(c as int != n);
                if Some(c) != parent {
                    assert(self.slots@[c as int] == prev.slots@[c as int]);
                }
            }
            if Some(j as usize) == parent {
                let p = j;
                match side {
                    Branch::Left => {
                        assert(self.nd(p).left == Some(n as usize));
                        assert(self.child_ok(p, self.nd(p).left, self.left_iv(p)));
                        if let Some(c) = pj.right {
                            assert(prev.child_ok(p, pj.right, prev.right_iv(p)));
                        } else {
                            assert(prev.link_spec(j, Branch::Right) is None);
                            assert(self.key_free(prev.side_iv(j, Branch::Right)));
                        }
                        assert(self.child_ok(p, self.nd(p).right, self.right_iv(p)));
                    },
                    Branch::Right => {
                        assert(self.nd(p).right == Some(n as usize));
                        assert(self.child_ok(p, self.nd(p).right, self.right_iv(p)));
                        if let Some(c) = pj.left {
                            assert(prev.child_ok(p, pj.left, prev.left_iv(p)));
                        } else {
                            assert(prev.link_spec(j, Branch::Left) is None);
                            assert(self.key_free(prev.side_iv(j, Branch::Left)));
                        }
                        assert(self.child_ok(p, self.nd(p).left, self.left_iv(p)));
                    },
                }
            } else {
                assert(self.slots@[j] == prev.slots@[j]);
                if let Some(c) = pj.left {
                    assert(prev.child_ok(j, pj.left, prev.left_iv(j)));
                } else {
                    assert(prev.link_spec(j, Branch::Left) is None);
                    assert(self.key_free(prev.side_iv(j, Branch::Left)));
                }
                if let Some(c) = pj.right {
                    assert(prev.child_ok(j, pj.right, prev.right_iv(j)));
                } else {
                    assert(prev.link_spec(j, Branch::Right) is None);
                    assert(self.key_free(prev.side_iv(j, Branch::Right)));
                }
                assert(self.child_ok(j, self.nd(j).left, self.left_iv(j)));
                assert(self.child_ok(j, self.nd(j).right, self.right_iv(j)));
            }
            assert(prev.parent_ok(j));
            if let Some(q) = pj.parent {
                assert(prev.occ(q as int));
                assert(q as int != n);
                if Some(q) != parent {
                    assert(self.slots@[q as int] == prev.slots@[q as int]);
                } else {
                    assert(prev.node_ok(q as int));
                    if pj.parent == parent {
                        // `j` hangs on the side that was not empty.
                        if side == Branch::Left {
                            assert(prev.nd(q as int).left is None);
                            assert(prev.nd(q as int).right == Some(j as usize));
                        } else {
                            assert(prev.nd(q as int).right is None);
                            assert(prev.nd(q as int).left == Some(j as usize));
                        }
                    }
                }
            } else {
                assert(prev.root == Some(j as usize));
            }
            assert(self.parent_ok(j));
        }
    }

    proof fn lemma_attach_links(&self, prev: &Self, n: int, parent: Option<usize>, key: K, value: V)
        requires
            prev.links_ok(),
            self.attached(prev, n, parent, key, value),
        ensures
            self.links_ok(),
    {
        assert forall|j: int| self.occ(j) implies #[trigger] self.node_ok(j) by {
            self.lemma_attach_node(prev, n, parent, key, value, j);
        }
        assert forall|m: int| #[trigger] self.occ(m) && m != n implies prev.occ(m) && self.rk(m) == prev.rk(m) by {
            if 0 <= m < prev.slots@.len() {
                if Some(m as usize) != parent {
                    assert(self.slots@[m] == prev.slots@[m]);
                } else {
                    let side = Self::side_for(key.rank(), prev.rk(m));
                    assert(self.nd(m).key == prev.nd(m).key);
                }
            } else {
                assert(m == prev.slots@.len());
            }
        }
        assert forall|i: int, j: int|
            #![trigger self.rk(i), self.rk(j)]
            self.occ(i) && self.occ(j) && self.rk(i) == self.rk(j) implies i == j by {
            if i != n && j != n {
                assert(prev.occ(i) && prev.occ(j));
            } else if i == n && j != n {
                assert(prev.occ(j) && prev.rk(j) == key.rank());
            } else if j == n && i != n {
                assert(prev.occ(i) && prev.rk(i) == key.rank());
            }
        }
        match parent {
            None => {
                assert(prev.root_ok());
                assert forall|m: int| self.occ(m) implies m == n by {
                    if m != n {
                        assert(prev.occ(m));
                    }
                }
            },
            Some(p) => {
                assert(prev.root_ok());
                let r = prev.root.unwrap();
                assert(r as int != n);
                if r != p {
                    assert(self.slots@[r as int] == prev.slots@[r as int]);
                }
            },
        }
        assert(self.root_ok());
    }

    /// Repaints the node of slot `i`; nothing else changes.
    fn recolor(&mut self, i: usize, c: Color)
        requires
            old(self).links_ok(),
            old(self).occ(i as int),
        ensures
            final(self).links_ok(),
            final(self).same_content(old(self)),
            final(self).root == old(self).root,
            final(self).bounds == old(self).bounds,
            final(self).black_heights == old(self).black_heights,
            final(self).nd(i as int) == (Node { color: c, ..old(self).nd(i as int) }),
            forall|j: int| 0 <= j < final(self).slots@.len() && j != i ==> #[trigger] final(self).slots@[j] == old(self).slots@[j],
    {
        let ghost prev = *self;
        self.set_color(i, c);
        proof {
            assert(self.same_content(&prev));
            self.lemma_same_content_facts(&prev);
            assert forall|j: int| self.occ(j) implies #[trigger] self.node_ok(j) by {
                assert(prev.node_ok(j));
                let nj = prev.nd(j);
                if let Some(l) = nj.left {
                    assert(prev.child_ok(j, nj.left, prev.left_iv(j)));
                }
                if let Some(r) = nj.right {
                    assert(prev.child_ok(j, nj.right, prev.right_iv(j)));
                }
                if let Some(q) = nj.parent {
                    assert(prev.parent_ok(j));
                }
            }
            assert(prev.root_ok());
            assert(self.root_ok());
            assert(self.distinct());
        }
    }

    /// Keys outside the interval `b`.
    closed spec fn outside(&self, b: Bounds) -> Set<int> {
        Set::new(|i: int| self.occ(i) && !within(b, self.rk(i)))
    }

    /// Whether node `z` has a red parent.
    closed spec fn parent_red(&self, z: int) -> bool {
        match self.nd(z).parent {
            Some(p) => self.nd(p as int).color == Color::Red,
            None => false,
        }
    }

    /// A node's interval lies within its parent's, and its grandparent's key
    /// lies outside it.
    proof fn lemma_outside_shrinks(&self, zu: usize, pu: usize, gu: usize)
        requires
            self.links_ok(),
            self.occ(zu as int),
            self.nd(zu as int).parent == Some(pu),
            self.nd(pu as int).parent == Some(gu),
        ensures
            self.outside(self.iv(gu as int)).finite(),
            self.outside(self.iv(gu as int)).len() < self.outside(self.iv(zu as int)).len(),
    {
        let z = zu as int;
        let parent = pu as int;
        let gp = gu as int;
        assert(self.node_ok(z));
        assert(self.parent_ok(z));
        assert(self.occ(parent));
        assert(self.node_ok(parent));
        assert(self.parent_ok(parent));
        assert(self.occ(gp));
        assert(self.node_ok(gp));
        assert(self.iv(z) == self.left_iv(parent) || self.iv(z) == self.right_iv(parent)) by {
            if self.nd(parent).left == Some(zu) {
                assert(self.child_ok(parent, self.nd(parent).left, self.left_iv(parent)));
            } else {
                assert(self.child_ok(parent, self.nd(parent).right, self.right_iv(parent)));
            }
        }
        assert(self.iv(parent) == self.left_iv(gp) || self.iv(parent) == self.right_iv(gp)) by {
            if self.nd(gp).left == Some(pu) {
                assert(self.child_ok(gp, self.nd(gp).left, self.left_iv(gp)));
            } else {
                assert(self.child_ok(gp, self.nd(gp).right, self.right_iv(gp)));
            }
        }
        self.lemma_occupied_finite();
        let big = self.outside(self.iv(z));
        let small = self.outside(self.iv(gp));
        assert(big.subset_of(self.occupied()));
        lemma_len_subset(big, self.occupied());
        assert(small.subset_of(self.occupied()));
        lemma_len_subset(small, self.occupied());
        assert forall|i: int| small.contains(i) implies big.remove(gp).contains(i) by {
            if within(self.iv(z), self.rk(i)) {
                assert(within(self.iv(parent), self.rk(i)));
                assert(within(self.iv(gp), self.rk(i)));
            }
        }
        assert(!within(self.iv(parent), self.rk(gp)));
        assert(big.contains(gp));
        lemma_len_subset(small, big.remove(gp));
    }

    /// Left rotation when `branch` is `Left`, right rotation otherwise: the
    /// child opposite `branch` moves up.
    fn rotate_in(&mut self, x: usize, branch: Branch)
        requires
            old(self).links_ok(),
            old(self).occ(x as int),
            old(self).link_spec(x as int, branch.opposite_spec()) is Some,
        ensures
            final(self).rotated(
                old(self),
                x,
                old(self).link_spec(x as int, branch.opposite_spec()).unwrap(),
                branch == Branch::Left,
            ),
    {
        match branch {
            Branch::Left => self.left_rotate(x),
            Branch::Right => self.right_rotate(x),
        }
    }

    /// Right rotation when `branch` is `Left`, left rotation otherwise: the
    /// child on `branch` moves up.
    fn rotate_out(&mut self, x: usize, branch: Branch)
        requires
            old(self).links_ok(),
            old(self).occ(x as int),
            old(self).link_spec(x as int, branch) is Some,
        ensures
            final(self).rotated(
                old(self),
                x,
                old(self).link_spec(x as int, branch).unwrap(),
                branch == Branch::Right,
            ),
    {
        match branch {
            Branch::Left => self.right_rotate(x),
            Branch::Right => self.left_rotate(x),
        }
    }

    /// A red leaf hung into a red-black tree breaks at most the rule on red
    /// nodes, at its own link.
    proof fn lemma_attach_rb(&self, prev: &Self, n: int, parent: Option<usize>, key: K, value: V)
        requires
            prev.links_ok(),
            prev.balanced(),
            self.attached(prev, n, parent, key, value),
            self.bhv(n) == 0,
            forall|j: int| j != n ==> #[trigger] self.bhv(j) == prev.bhv(j),
        ensures
            self.rb_except(Some(n as usize)),
    {
        let side = match parent {
            Some(p) => Self::side_for(key.rank(), prev.rk(p as int)),
            None => Branch::Left,
        };
        assert forall|i: int| self.occ(i) implies #[trigger] self.node_rb(i, Some(n as usize)) by {
            if i == n {
            } else if parent == Some(i as usize) {
                assert(prev.node_rb(i, None));
                assert(prev.node_ok(i));
                let l = prev.nd(i).left;
                let r = prev.nd(i).right;
                if let Some(c) = l {
                    assert(prev.child_ok(i, l, prev.left_iv(i)));
                    assert(c as int != n);
                    assert(self.slots@[c as int] == prev.slots@[c as int]);
                }
                if let Some(c) = r {
                    assert(prev.child_ok(i, r, prev.right_iv(i)));
                    assert(c as int != n);
                    assert(self.slots@[c as int] == prev.slots@[c as int]);
                }
            } else {
                assert(i < prev.slots@.len());
                assert(self.slots@[i] == prev.slots@[i]);
                assert(prev.occ(i));
                assert(prev.node_rb(i, None));
                assert(prev.node_ok(i));
                let l = prev.nd(i).left;
                let r = prev.nd(i).right;
                if let Some(c) = l {
                    assert(prev.child_ok(i, l, prev.left_iv(i)));
                    assert(c as int != n);
                    if parent != Some(c) {
                        assert(self.slots@[c as int] == prev.slots@[c as int]);
                    }
                }
                if let Some(c) = r {
                    assert(prev.child_ok(i, r, prev.right_iv(i)));
                    assert(c as int != n);
                    if parent != Some(c) {
                        assert(self.slots@[c as int] == prev.slots@[c as int]);
                    }
                }
            }
        }
    }

    /// Stores a new red node with `key` and `value` in a free slot (or a new
    /// one) and hangs it below `parent` on the side its key falls, or makes
    /// it the root of the empty tree.
    fn attach(&mut self, key: K, value: V, parent: Option<usize>) -> (n: usize)
        requires
            old(self).wf(),
            old(self).len < usize::MAX,
            !old(self).has_rank(key.rank()),
            parent is None ==> old(self).root is None,
            parent matches Some(p) ==> {
                &&& old(self).occ(p as int)
                &&& old(self).link_spec(p as int, Self::side_for(key.rank(), old(self).rk(p as int))) is None
                &&& within(
                    old(self).side_iv(p as int, Self::side_for(key.rank(), old(self).rk(p as int))),
                    key.rank(),
                )
            },
        ensures
            final(self).attached(old(self), n as int, parent, key, value),
            old(self).balanced() ==> final(self).rb_except(Some(n)),
            final(self).links_ok(),
            final(self).free_ok(),
            final(self).len == final(self).occupied().len(),
            final(self).root_black() || final(self).root == Some(n),
            final(self)@ == old(self)@.insert(key, value),
            forall|h: ArenaIndex|
                old(self).valid_handle(h) ==> #[trigger] final(self).valid_handle(h) && final(self).handle_key(h)
                    == old(self).handle_key(h) && final(self).handle_value(h) == old(self).handle_value(h),
    {
        let ghost prev = *self;
        let node = Node { key, value, color: Color::Red, parent, left: None, right: None };
        let n: usize;
        if self.free.len() > 0 {
            n = self.free.pop().unwrap();
            proof {
                assert(prev.free@[prev.free@.len() - 1] == n);
                assert(!prev.occ(n as int));
            }
            let generation = self.slots[n].generation;
            self.slots.set(n, Slot { generation, node: Some(node) });
        } else {
            proof {
                prev.lemma_no_free_all_occupied();
            }
            n = self.slots.len();
            self.slots.push(Slot { generation: 0, node: Some(node) });
        }
        self.len = self.len + 1;
        let ghost ob = prev.bounds@;
        let ghost nb = match parent {
            None => (None::<int>, None::<int>),
            Some(p) => prev.side_iv(p as int, Self::side_for(key.rank(), prev.rk(p as int))),
        };
        self.bounds = Ghost(|j: int| if j == n as int { nb } else { ob(j) });
        let ghost oh = prev.black_heights@;
        self.black_heights = Ghost(|j: int| if j == n as int { 0int } else { oh(j) });
        let ghost mid = *self;
        match parent {
            None => {
                self.root = Some(n);
            },
            Some(p) => {
                let branch = match self.node(n).key.compare(&self.node(p).key) {
                    KeyOrder::Less => Branch::Left,
                    _ => Branch::Right,
                };
                proof {
                    assert(mid.rk(p as int) == prev.rk(p as int));
                    assert(branch == Self::side_for(key.rank(), prev.rk(p as int)));
                }
                self.set_child(p, branch, Some(n));
            },
        }
        proof {
            assert(self.attached(&prev, n as int, parent, key, value));
            self.lemma_attach_links(&prev, n as int, parent, key, value);
            if prev.balanced() {
                self.lemma_attach_rb(&prev, n as int, parent, key, value);
            }
            // Free list.
            if n < prev.slots@.len() {
                assert(self.free@ =~= prev.free@.drop_last());
                assert forall|t: int| 0 <= t < self.free@.len() implies #[trigger] self.free@[t] < self.slots@.len()
                    && !self.occ(self.free@[t] as int) by {
                    assert(prev.free@[t] != n) by {
                        assert(prev.free@.no_duplicates());
                    }
                    let f = prev.free@[t] as int;
                    assert(!prev.occ(f));
                    if let Some(p) = parent {
                        assert(f != p as int);
                    }
                    assert(self.slots@[f] == prev.slots@[f]);
                }
                assert forall|i: int| 0 <= i < self.slots@.len() && !#[trigger] self.occ(i) implies self.free@.contains(i as usize) by {
                    assert(i != n as int);
                    if let Some(p) = parent {
                        assert(i != p as int);
                    }
                    assert(self.slots@[i] == prev.slots@[i]);
                    assert(i < prev.slots@.len());
                    assert(!prev.occ(i));
                    assert(prev.free@.contains(i as usize));
                    let t = choose|t: int| 0 <= t < prev.free@.len() && prev.free@[t] == i as usize;
                    assert(t != prev.free@.len() - 1);
                    assert(self.free@[t] == i as usize);
                }
            } else {
                assert forall|i: int| 0 <= i < self.slots@.len() && !#[trigger] self.occ(i) implies self.free@.contains(i as usize) by {
                    assert(i != n as int);
                    if let Some(p) = parent {
                        assert(i != p as int);
                    }
                    assert(self.slots@[i] == prev.slots@[i]);
                    assert(i < prev.slots@.len());
                    assert(!prev.occ(i));
                    assert(prev.free@.contains(i as usize));
                }
            }
            assert(self.free_ok());
            // Length.
            prev.lemma_occupied_finite();
            assert(self.occupied() =~= prev.occupied().insert(n as int)) by {
                assert forall|i: int| #[trigger] self.occ(i) == prev.occupied().insert(n as int).contains(i) by {
                    if i != n as int && 0 <= i < prev.slots@.len() {
                        if Some(i as usize) != parent {
                            assert(self.slots@[i] == prev.slots@[i]);
                        }
                    }
                }
            }
            // Root color.
            match parent {
                None => {},
                Some(p) => {
                    assert(prev.root_ok());
                    let r = prev.root.unwrap();
                    if r != p {
                        assert(self.slots@[r as int] == prev.slots@[r as int]);
                    }
                    assert(self.root_black());
                },
            }
            // Contents.
            prev.lemma_contains_rank(key);
            assert forall|j: int| j != n as int implies #[trigger] self.occ(j) == prev.occ(j) by {
                if 0 <= j < prev.slots@.len() && Some(j as usize) != parent {
                    assert(self.slots@[j] == prev.slots@[j]);
                }
            }
            assert forall|j: int| j != n as int && #[trigger] self.occ(j) implies self.nd(j).key == prev.nd(j).key
                && self.nd(j).value == prev.nd(j).value by {
                if 0 <= j < prev.slots@.len() && Some(j as usize) != parent {
                    assert(self.slots@[j] == prev.slots@[j]);
                }
            }
            self.lemma_view_add(&prev, n as int, key, value);
            // Handles.
            assert forall|h: ArenaIndex| prev.valid_handle(h) implies #[trigger] self.valid_handle(h)
                && self.handle_key(h) == prev.handle_key(h) && self.handle_value(h) == prev.handle_value(h) by {
                let i = h.index as int;
                assert(i != n as int);
                if Some(h.index) != parent {
                    assert(self.slots@[i] == prev.slots@[i]);
                }
            }
        }
        n
    }

    /// `p` goes down the tree: each node is followed by one of its children.
    pub closed spec fn is_down_path(&self, p: Seq<usize>) -> bool {
        forall|k: int| 0 <= k < p.len() - 1 ==> #[trigger] self.child_at(p, k)
    }

    /// The node after position `k` of `p` is a child of the node at `k`.
    closed spec fn child_at(&self, p: Seq<usize>, k: int) -> bool {
        self.nd(p[k] as int).left == Some(p[k + 1]) || self.nd(p[k] as int).right == Some(p[k + 1])
    }

    /// `p` goes down the tree from its root.
    pub closed spec fn is_root_path(&self, p: Seq<usize>) -> bool {
        &&& p.len() >= 1
        &&& self.root == Some(p[0])
        &&& self.is_down_path(p)
    }

    /// A subtree of a red-black tree holds at least 2^b - 1 keys, `b` the
    /// black height seen from above it.
    proof fn lemma_subtree_size(&self, i: int)
        requires
            self.links_ok(),
            self.balanced(),
            self.occ(i),
        ensures
            self.bhv(i) >= 0,
            self.cbh(Some(i as usize)) >= 0,
            pow2(self.cbh(Some(i as usize)) as nat) <= self.keys_in(self.iv(i)).len() + 1,
        decreases self.keys_in(self.iv(i)).len(),
    {
        self.lemma_occupied_finite();
        assert(self.node_ok(i));
        assert(self.node_rb(i, None));
        let l = self.nd(i).left;
        let r = self.nd(i).right;
        let big = self.keys_in(self.iv(i));
        let ls = self.keys_in(self.left_iv(i));
        let rs = self.keys_in(self.right_iv(i));
        match l {
            None => {
                assert(self.key_free(self.left_iv(i)));
                assert(ls =~= Set::<int>::empty());
            },
            Some(c) => {
                assert(self.child_ok(i, l, self.left_iv(i)));
                self.lemma_child_fewer(i, c);
                self.lemma_subtree_size(c as int);
            },
        }
        match r {
            None => {
                assert(self.key_free(self.right_iv(i)));
                assert(rs =~= Set::<int>::empty());
            },
            Some(c) => {
                assert(self.child_ok(i, r, self.right_iv(i)));
                self.lemma_child_fewer(i, c);
                self.lemma_subtree_size(c as int);
            },
        }
        let h = self.bhv(i);
        lemma2_to64();
        assert(h >= 0);
        assert(pow2(h as nat) <= ls.len() + 1) by {
            if let Some(c) = l {
                assert(self.iv(c as int) == self.left_iv(i));
            }
        }
        assert(pow2(h as nat) <= rs.len() + 1) by {
            if let Some(c) = r {
                assert(self.iv(c as int) == self.right_iv(i));
            }
        }
        assert(ls.disjoint(rs));
        lemma_set_disjoint_lens(ls, rs);
        let both = ls + rs;
        assert(!both.contains(i));
        lemma_set_disjoint_lens(both, set![i]);
        assert(both.finite());
        assert((both + set![i]).subset_of(big));
        lemma_len_subset(both + set![i], big);
        assert(set![i].len() == 1);
        lemma_pow2_unfold((h + 1) as nat);
        assert(pow2((h + 1) as nat) <= big.len() + 1);
        if self.nd(i).color == Color::Red {
            assert(self.cbh(Some(i as usize)) == h);
            lemma_pow2_strictly_increases(h as nat, (h + 1) as nat);
        }
    }

    /// A path down from a node of a red-black tree has at most twice as many
    /// nodes as the black height seen from above that node, one more when
    /// that node is red.
    proof fn lemma_path_len(&self, p: Seq<usize>)
        requires
            self.links_ok(),
            self.balanced(),
            p.len() >= 1,
            self.occ(p[0] as int),
            self.is_down_path(p),
        ensures
            p.len() <= 2 * self.cbh(Some(p[0])) + (if self.nd(p[0] as int).color == Color::Red {
                1int
            } else {
                0int
            }),
        decreases p.len(),
    {
        let i = p[0] as int;
        assert(self.node_ok(i));
        assert(self.node_rb(i, None));
        self.lemma_subtree_size(i);
        if p.len() > 1 {
            let t = p.drop_first();
            assert(self.child_at(p, 0));
            let c = p[1];
            if self.nd(i).left == Some(c) {
                assert(self.child_ok(i, self.nd(i).left, self.left_iv(i)));
            } else {
                assert(self.child_ok(i, self.nd(i).right, self.right_iv(i)));
            }
            assert forall|k: int| 0 <= k < t.len() - 1 implies #[trigger] self.child_at(t, k) by {
                assert(self.child_at(p, k + 1));
            }
            self.lemma_path_len(t);
            self.lemma_subtree_size(c as int);
            assert(t[0] == c);
            assert(self.cbh(Some(c)) == self.bhv(i));
            if self.nd(i).color == Color::Red {
                assert(self.color_spec(Some(c)) == Color::Black);
            }
        }
    }

    /// In a red-black tree of `n` keys, every path down from the root has
    /// at most 2·log2(n + 1) nodes.
    pub proof fn lemma_height_bound(&self, path: Seq<usize>)
        requires
            self.wf(),
            self.balanced(),
            self.is_root_path(path),
        ensures
            pow2((path.len() / 2) as nat) <= self@.dom().len() + 1,
    {
        self.lemma_len_is_map_size();
        self.lemma_occupied_finite();
        assert(self.root_ok());
        let r = path[0];
        self.lemma_path_len(path);
        self.lemma_subtree_size(r as int);
        assert(self.keys_in(self.iv(r as int)) =~= self.occupied());
        let b = self.cbh(Some(r));
        assert(path.len() / 2 <= b);
        if path.len() / 2 < b {
            lemma_pow2_strictly_increases((path.len() / 2) as nat, b as nat);
        }
    }

    /// Two trees that differ only in their recorded black heights agree on
    /// everything else.
    proof fn lemma_heights_only(&self, t: &Self)
        requires
            self.slots == t.slots,
            self.free == t.free,
            self.root == t.root,
            self.len == t.len,
            self.bounds == t.bounds,
        ensures
            forall|j: int| #[trigger] self.occ(j) == t.occ(j),
            forall|j: int| #[trigger] self.nd(j) == t.nd(j),
            forall|j: int| #[trigger] self.iv(j) == t.iv(j),
            self.links_ok() == t.links_ok(),
            self.root_black() == t.root_black(),
            forall|b: Bounds| #[trigger] self.outside(b) == t.outside(b),
            forall|j: int| #[trigger] self.parent_red(j) == t.parent_red(j),
            forall|o: Self| #[trigger] self.same_content(&o) == t.same_content(&o),
    {
        assert forall|m: int| #[trigger] self.rk(m) == t.rk(m) by {}
        assert forall|b: Bounds| #[trigger] self.key_free(b) == t.key_free(b) by {
            if self.key_free(b) {
                assert forall|m: int| t.occ(m) implies !within(b, #[trigger] t.rk(m)) by {
                    assert(self.occ(m));
                    assert(self.rk(m) == t.rk(m));
                }
            }
            if t.key_free(b) {
                assert forall|m: int| self.occ(m) implies !within(b, #[trigger] self.rk(m)) by {
                    assert(t.occ(m));
                    assert(self.rk(m) == t.rk(m));
                }
            }
        }
        assert forall|j: int| #[trigger] self.node_ok(j) == t.node_ok(j) by {
            assert(self.key_free(self.left_iv(j)) == t.key_free(t.left_iv(j)));
            assert(self.key_free(self.right_iv(j)) == t.key_free(t.right_iv(j)));
        }
        assert(self.root_ok() == t.root_ok()) by {
            if self.root is None {
                if self.root_ok() {
                    assert forall|i: int| !#[trigger] t.occ(i) by {
                        assert(!self.occ(i));
                    }
                }
                if t.root_ok() {
                    assert forall|i: int| !#[trigger] self.occ(i) by {
                        assert(!t.occ(i));
                    }
                }
            }
        }
        assert(self.distinct() == t.distinct()) by {
            if self.distinct() {
                assert forall|i: int, j: int|
                    #![trigger t.rk(i), t.rk(j)]
                    t.occ(i) && t.occ(j) && t.rk(i) == t.rk(j) implies i == j by {
                    assert(self.rk(i) == self.rk(j));
                }
            }
            if t.distinct() {
                assert forall|i: int, j: int|
                    #![trigger self.rk(i), self.rk(j)]
                    self.occ(i) && self.occ(j) && self.rk(i) == self.rk(j) implies i == j by {
                    assert(t.rk(i) == t.rk(j));
                }
            }
        }
        assert forall|b: Bounds| #[trigger] self.outside(b) == t.outside(b) by {
            assert(self.outside(b) =~= t.outside(b));
        }
        assert(self.links_ok() == t.links_ok()) by {
            if self.links_ok() {
                assert forall|i: int| t.occ(i) implies #[trigger] t.node_ok(i) by {
                    assert(self.node_ok(i));
                }
            }
            if t.links_ok() {
                assert forall|i: int| self.occ(i) implies #[trigger] self.node_ok(i) by {
                    assert(t.node_ok(i));
                }
            }
        }
        assert forall|o: Self| #[trigger] self.same_content(&o) == t.same_content(&o) by {
            if self.same_content(&o) {
                assert forall|j: int| #[trigger] t.occ(j) == o.occ(j) by {
                    assert(self.occ(j) == o.occ(j));
                }
                assert forall|j: int| 0 <= j < t.slots@.len() implies (#[trigger] t.slots@[j]).generation
                    == o.slots@[j].generation by {
                    assert(self.slots@[j] == t.slots@[j]);
                }
                assert forall|j: int| #[trigger] t.occ(j) implies t.nd(j).key == o.nd(j).key && t.nd(j).value
                    == o.nd(j).value by {
                    assert(self.occ(j));
                }
            }
            if t.same_content(&o) {
                assert forall|j: int| #[trigger] self.occ(j) == o.occ(j) by {
                    assert(t.occ(j) == o.occ(j));
                }
                assert forall|j: int| 0 <= j < self.slots@.len() implies (#[trigger] self.slots@[j]).generation
                    == o.slots@[j].generation by {
                    assert(self.slots@[j] == t.slots@[j]);
                }
                assert forall|j: int| #[trigger] self.occ(j) implies self.nd(j).key == o.nd(j).key && self.nd(j).value
                    == o.nd(j).value by {
                    assert(t.occ(j));
                }
            }
        }
    }

    /// Recoloring a red parent and a red uncle black and their black
    /// grandparent red, one black higher, leaves at most the grandparent's
    /// link breaking the rule on red nodes.
    proof fn lemma_uncle_red_rb(&self, t0: &Self, z: usize, p: usize, g: usize, u: usize)
        requires
            t0.links_ok(),
            t0.rb_except(Some(z)),
            t0.occ(z as int),
            t0.nd(z as int).parent == Some(p),
            t0.nd(p as int).color == Color::Red,
            t0.nd(p as int).parent == Some(g),
            t0.occ(u as int),
            t0.nd(u as int).parent == Some(g),
            t0.nd(u as int).color == Color::Red,
            u != p,
            self.slots@.len() == t0.slots@.len(),
            forall|j: int| #[trigger] self.occ(j) == t0.occ(j),
            self.nd(p as int) == (Node { color: Color::Black, ..t0.nd(p as int) }),
            self.nd(u as int) == (Node { color: Color::Black, ..t0.nd(u as int) }),
            self.nd(g as int) == (Node { color: Color::Red, ..t0.nd(g as int) }),
            forall|j: int|
                #![trigger self.slots@[j]]
                0 <= j < self.slots@.len() && j != p && j != u && j != g ==> self.slots@[j] == t0.slots@[j],
            self.bhv(g as int) == t0.bhv(g as int) + 1,
            forall|j: int| j != g ==> #[trigger] self.bhv(j) == t0.bhv(j),
        ensures
            self.rb_except(Some(g)),
    {
        let zi = z as int;
        let pi = p as int;
        let gi = g as int;
        let ui = u as int;
        assert(t0.node_ok(zi));
        assert(t0.parent_ok(zi));
        assert(t0.occ(pi));
        assert(t0.node_ok(pi));
        assert(t0.parent_ok(pi));
        assert(t0.occ(gi));
        assert(t0.node_ok(gi));
        assert(t0.node_ok(ui));
        assert(t0.parent_ok(ui));
        t0.lemma_child_fewer(pi, z);
        t0.lemma_child_fewer(gi, p);
        t0.lemma_child_fewer(gi, u);
        assert(t0.nd(gi).left == Some(p) || t0.nd(gi).right == Some(p));
        assert(t0.nd(gi).left == Some(u) || t0.nd(gi).right == Some(u));
        assert(t0.node_rb(gi, Some(z)));
        assert(t0.node_rb(pi, Some(z)));
        assert(t0.node_rb(ui, Some(z)));
        assert(z != u);
        assert(t0.nd(gi).color == Color::Black);
        assert forall|i: int| self.occ(i) implies #[trigger] self.node_rb(i, Some(g)) by {
            assert(t0.occ(i));
            assert(t0.node_ok(i));
            assert(t0.node_rb(i, Some(z)));
            let l = t0.nd(i).left;
            let r = t0.nd(i).right;
            if let Some(c) = l {
                assert(t0.child_ok(i, l, t0.left_iv(i)));
                if c != p && c != u && c != g {
                    assert(self.slots@[c as int] == t0.slots@[c as int]);
                }
            }
            if let Some(c) = r {
                assert(t0.child_ok(i, r, t0.right_iv(i)));
                if c != p && c != u && c != g {
                    assert(self.slots@[c as int] == t0.slots@[c as int]);
                }
            }
            if i == gi {
            } else if i == pi {
                assert(l != Some(g) && r != Some(g));
                assert(l != Some(u) && r != Some(u));
            } else if i == ui {
                if l == Some(g) || r == Some(g) {
                    t0.lemma_child_fewer(ui, g);
                }
            } else {
                assert(self.slots@[i] == t0.slots@[i]);
                assert(l != Some(p) && r != Some(p));
                assert(l != Some(u) && r != Some(u));
                assert(l != Some(z) && r != Some(z));
            }
        }
    }

    /// A node whose links and color stay, among nodes whose colors and black
    /// heights stay, keeps the red-black rules; a red child that is no longer
    /// excepted must not be its child.
    proof fn lemma_rb_same_links(&self, t: &Self, j: int, zt: Option<usize>, zs: Option<usize>)
        requires
            t.links_ok(),
            t.occ(j),
            t.node_rb(j, zt),
            self.nd(j).left == t.nd(j).left,
            self.nd(j).right == t.nd(j).right,
            self.nd(j).color == t.nd(j).color,
            self.bhv(j) == t.bhv(j),
            t.nd(j).left matches Some(c) ==> self.nd(c as int).color == t.nd(c as int).color && self.bhv(c as int) == t.bhv(c as int),
            t.nd(j).right matches Some(c) ==> self.nd(c as int).color == t.nd(c as int).color && self.bhv(c as int) == t.bhv(c as int),
            t.nd(j).color == Color::Red && t.nd(j).left == zt && zt is Some ==> t.nd(j).left == zs,
            t.nd(j).color == Color::Red && t.nd(j).right == zt && zt is Some ==> t.nd(j).right == zs,
        ensures
            self.node_rb(j, zs),
    {
    }

    /// Lifting a red node over its red parent keeps the red-black rules, the
    /// exception moving to the old parent, now the lifted node's child.
    proof fn lemma_rotate_in_rb(&self, t: &Self, x: usize, y: usize, lift_right: bool)
        requires
            t.links_ok(),
            t.rb_except(Some(y)),
            t.occ(x as int),
            t.occ(y as int),
            t.nd(y as int).color == Color::Red,
            t.nd(x as int).color == Color::Red,
            if lift_right { t.nd(x as int).right == Some(y) } else { t.nd(x as int).left == Some(y) },
            self.rotated(t, x, y, lift_right),
        ensures
            self.rb_except(Some(x)),
            self.nd(x as int).color == Color::Red,
    {
        let xi = x as int;
        let yi = y as int;
        let xp = t.nd(xi).parent;
        let inner = if lift_right { t.nd(yi).left } else { t.nd(yi).right };
        assert(t.node_ok(xi));
        assert(t.node_ok(yi));
        assert(t.parent_ok(xi));
        assert(t.node_rb(xi, Some(y)));
        assert(t.node_rb(yi, Some(y)));
        t.lemma_child_fewer(xi, y);
        assert(t.nd(yi).parent == Some(x)) by {
            if lift_right {
                assert(t.child_ok(xi, t.nd(xi).right, t.right_iv(xi)));
            } else {
                assert(t.child_ok(xi, t.nd(xi).left, t.left_iv(xi)));
            }
        }
        assert(t.nd(xi).left != t.nd(xi).right) by {
            assert(t.child_ok(xi, t.nd(xi).right, t.right_iv(xi)));
            assert(t.child_ok(xi, t.nd(xi).left, t.left_iv(xi)));
        }
        assert(t.nd(yi).left != Some(y) && t.nd(yi).right != Some(y)) by {
            if t.nd(yi).left == Some(y) {
                t.lemma_child_fewer(yi, y);
            }
            if t.nd(yi).right == Some(y) {
                t.lemma_child_fewer(yi, y);
            }
        }
        if let Some(g) = xp {
            assert(t.occ(g as int));
            assert(t.node_ok(g as int));
            assert(t.node_rb(g as int, Some(y)));
            t.lemma_child_fewer(g as int, x);
            assert(t.nd(g as int).color == Color::Black);
        }
        assert(self.occ(xi));
        assert forall|j: int| self.occ(j) implies #[trigger] self.node_rb(j, Some(x)) by {
            assert(t.occ(j));
            assert(t.node_ok(j));
            assert(t.node_rb(j, Some(y)));
            let l = t.nd(j).left;
            let r = t.nd(j).right;
            if let Some(c) = l {
                assert(t.child_ok(j, l, t.left_iv(j)));
                assert(self.occ(c as int));
            }
            if let Some(c) = r {
                assert(t.child_ok(j, r, t.right_iv(j)));
                assert(self.occ(c as int));
            }
            if j == xi {
                if let Some(c) = t.nd(xi).left {
                    assert(self.occ(c as int));
                }
                if let Some(c) = t.nd(xi).right {
                    assert(self.occ(c as int));
                }
                if let Some(b) = inner {
                    assert(t.occ(b as int));
                    assert(self.occ(b as int));
                    assert(self.nd(b as int).color == t.nd(b as int).color);
                }
                assert(self.bhv(xi) == t.bhv(xi));
                assert(t.cbh(Some(y)) == t.bhv(yi));
                assert(self.cbh(inner) == t.cbh(inner));
                assert(self.cbh(t.nd(xi).left) == t.cbh(t.nd(xi).left)) by {
                    if let Some(c) = t.nd(xi).left {
                        assert(self.nd(c as int).color == t.nd(c as int).color);
                    }
                }
                if lift_right {
                    assert(self.cbh(self.nd(xi).left) == self.bhv(xi));
                    assert(self.cbh(self.nd(xi).right) == self.bhv(xi));
                } else {
                    assert(self.cbh(self.nd(xi).left) == self.bhv(xi));
                    assert(self.cbh(self.nd(xi).right) == self.bhv(xi));
                }
                assert(self.node_rb(j, Some(x)));
            } else if j == yi {
                let far = if lift_right { t.nd(yi).right } else { t.nd(yi).left };
                if let Some(c) = far {
                    assert(t.occ(c as int));
                    assert(self.occ(c as int));
                    assert(self.nd(c as int).color == t.nd(c as int).color);
                }
                assert(self.cbh(far) == t.cbh(far));
                assert(self.nd(xi).color == t.nd(xi).color);
                assert(self.cbh(Some(x)) == t.bhv(xi));
                assert(self.bhv(yi) == t.bhv(yi));
                assert(t.cbh(Some(y)) == t.bhv(yi));
                assert(t.color_spec(far) == Color::Black);
                assert(self.color_spec(far) == Color::Black);
                assert(self.occ(yi));
                assert(self.nd(yi).color == t.nd(yi).color);
                if lift_right {
                    assert(self.nd(yi).left == Some(x));
                    assert(self.nd(yi).right == far);
                } else {
                    assert(self.nd(yi).right == Some(x));
                    assert(self.nd(yi).left == far);
                }
                assert(self.cbh(self.nd(yi).left) == self.bhv(yi));
                assert(self.cbh(self.nd(yi).right) == self.bhv(yi));
                assert(self.node_rb(j, Some(x)));
            } else if xp == Some(j as usize) {
                assert(self.occ(j));
                assert(self.occ(yi) && self.occ(xi));
                assert(self.nd(j).color == t.nd(j).color);
                assert(self.nd(yi).color == t.nd(yi).color);
                assert(self.cbh(Some(y)) == t.cbh(Some(x)));
                let other = if t.nd(j).left == Some(x) { t.nd(j).right } else { t.nd(j).left };
                if let Some(c) = other {
                    assert(self.occ(c as int));
                    assert(self.nd(c as int).color == t.nd(c as int).color);
                }
                assert(self.cbh(other) == t.cbh(other));
                assert(self.bhv(j) == t.bhv(j));
                assert(self.node_rb(j, Some(x)));
            } else {
                if inner != Some(j as usize) {
                    assert(self.slots@[j] == t.slots@[j]);
                }
                assert(l != Some(y) && r != Some(y));
                self.lemma_rb_same_links(t, j, Some(y), Some(x));
            }
        }
    }

    /// Painting a red parent black and its black parent red, then lifting
    /// the parent over it, mends a red node under a red parent whose sibling
    /// is black.
    #[verifier::spinoff_prover]
    #[verifier::rlimit(40)]
    proof fn lemma_rotate_out_rb(&self, t3: &Self, t1: &Self, z: usize, p: usize, g: usize, lift_right: bool)
        requires
            t1.links_ok(),
            t1.rb_except(Some(z)),
            t1.occ(z as int),
            t1.nd(z as int).color == Color::Red,
            t1.nd(z as int).parent == Some(p),
            t1.nd(p as int).color == Color::Red,
            t1.nd(p as int).parent == Some(g),
            lift_right ==> t1.nd(g as int).right == Some(p) && t1.nd(p as int).right == Some(z) && t1.color_spec(
                t1.nd(g as int).left,
            ) == Color::Black,
            !lift_right ==> t1.nd(g as int).left == Some(p) && t1.nd(p as int).left == Some(z) && t1.color_spec(
                t1.nd(g as int).right,
            ) == Color::Black,
            t3.slots@.len() == t1.slots@.len(),
            forall|j: int| #[trigger] t3.occ(j) == t1.occ(j),
            t3.nd(p as int) == (Node { color: Color::Black, ..t1.nd(p as int) }),
            t3.nd(g as int) == (Node { color: Color::Red, ..t1.nd(g as int) }),
            forall|j: int|
                #![trigger t3.slots@[j]]
                0 <= j < t3.slots@.len() && j != p && j != g ==> t3.slots@[j] == t1.slots@[j],
            t3.black_heights == t1.black_heights,
            self.rotated(t3, g, p, lift_right),
        ensures
            self.rb_except(Some(z)),
            self.nd(z as int).color == Color::Red,
    {
        let zi = z as int;
        let pi = p as int;
        let gi = g as int;
        let q = t1.nd(gi).parent;
        let beta = if lift_right { t1.nd(pi).left } else { t1.nd(pi).right };
        let u = if lift_right { t1.nd(gi).left } else { t1.nd(gi).right };
        assert(t1.node_ok(zi));
        assert(t1.parent_ok(zi));
        assert(t1.occ(pi));
        assert(t1.node_ok(pi));
        assert(t1.parent_ok(pi));
        assert(t1.occ(gi));
        assert(t1.node_ok(gi));
        assert(t1.parent_ok(gi));
        t1.lemma_child_fewer(pi, z);
        t1.lemma_child_fewer(gi, p);
        assert(t1.node_rb(zi, Some(z)));
        assert(t1.node_rb(pi, Some(z)));
        assert(t1.node_rb(gi, Some(z)));
        assert(t1.nd(gi).color == Color::Black);
        assert(t1.child_ok(pi, t1.nd(pi).left, t1.left_iv(pi)));
        assert(t1.child_ok(pi, t1.nd(pi).right, t1.right_iv(pi)));
        assert(t1.child_ok(gi, t1.nd(gi).left, t1.left_iv(gi)));
        assert(t1.child_ok(gi, t1.nd(gi).right, t1.right_iv(gi)));
        assert(beta != Some(z));
        if let Some(b) = beta {
            assert(t1.occ(b as int));
            t1.lemma_child_fewer(pi, b);
        }
        if let Some(c) = u {
            assert(t1.occ(c as int));
            t1.lemma_child_fewer(gi, c);
        }
        if let Some(qq) = q {
            assert(t1.occ(qq as int));
            assert(t1.node_ok(qq as int));
            assert(t1.node_rb(qq as int, Some(z)));
            t1.lemma_child_fewer(qq as int, g);
        }
        assert(t3.nd(zi) == t1.nd(zi));
        assert(self.occ(zi) && self.occ(pi) && self.occ(gi));
        assert(self.nd(zi).color == Color::Red);
        assert(self.nd(pi).color == Color::Black);
        assert(self.nd(gi).color == Color::Red);
        assert(t1.bhv(gi) == t1.bhv(pi));
        assert(t1.bhv(zi) == t1.bhv(pi));
        assert(t1.cbh(beta) == t1.bhv(pi));
        assert(t1.cbh(u) == t1.bhv(gi));
        assert(self.cbh(beta) == t1.cbh(beta)) by {
            if let Some(b) = beta {
                assert(self.occ(b as int));
                assert(t3.slots@[b as int] == t1.slots@[b as int]);
            }
        }
        assert(self.cbh(u) == t1.cbh(u)) by {
            if let Some(c) = u {
                assert(self.occ(c as int));
                assert(t3.slots@[c as int] == t1.slots@[c as int]);
            }
        }
        assert(self.color_spec(beta) == Color::Black) by {
            if let Some(b) = beta {
                assert(t3.slots@[b as int] == t1.slots@[b as int]);
            }
        }
        assert(self.color_spec(u) == Color::Black) by {
            if let Some(c) = u {
                assert(t3.slots@[c as int] == t1.slots@[c as int]);
            }
        }
        assert forall|j: int| self.occ(j) implies #[trigger] self.node_rb(j, Some(z)) by {
            assert(t1.occ(j));
            assert(t1.node_ok(j));
            assert(t1.node_rb(j, Some(z)));
            let l = t1.nd(j).left;
            let r = t1.nd(j).right;
            if let Some(c) = l {
                assert(t1.child_ok(j, l, t1.left_iv(j)));
                assert(self.occ(c as int));
            }
            if let Some(c) = r {
                assert(t1.child_ok(j, r, t1.right_iv(j)));
                assert(self.occ(c as int));
            }
            if j == pi {
                assert(self.cbh(Some(g)) == t1.bhv(pi));
                assert(self.cbh(Some(z)) == t1.bhv(pi));
                assert(self.node_rb(j, Some(z)));
            } else if j == gi {
                assert(self.node_rb(j, Some(z)));
            } else if q == Some(j as usize) {
                assert(t3.nd(j) == t1.nd(j));
                assert(self.cbh(Some(p)) == t1.cbh(Some(g)));
                let other = if t1.nd(j).left == Some(g) { t1.nd(j).right } else { t1.nd(j).left };
                if let Some(c) = other {
                    assert(t3.slots@[c as int] == t1.slots@[c as int]);
                }
                assert(self.cbh(other) == t1.cbh(other));
                assert(self.node_rb(j, Some(z)));
            } else {
                if beta != Some(j as usize) {
                    assert(self.slots@[j] == t3.slots@[j]);
                }
                assert(t3.slots@[j] == t1.slots@[j]);
                assert(l != Some(p) && r != Some(p));
                assert(l != Some(g) && r != Some(g));
                if let Some(c) = l {
                    assert(t3.slots@[c as int] == t1.slots@[c as int]);
                }
                if let Some(c) = r {
                    assert(t3.slots@[c as int] == t1.slots@[c as int]);
                }
                self.lemma_rb_same_links(t1, j, Some(z), Some(z));
            }
        }
    }

    /// One step of the insert repair at `z`, whose parent `parent` is red and
    /// hangs on `branch` below `gp`.
    #[verifier::spinoff_prover]
    #[verifier::rlimit(40)]
    fn insert_fixup_iteration(&mut self, z: usize, parent: usize, gp: usize, branch: Branch) -> (r: usize)
        requires
            old(self).links_ok(),
            old(self).root_black(),
            old(self).occ(z as int),
            old(self).nd(z as int).parent == Some(parent),
            old(self).nd(parent as int).color == Color::Red,
            old(self).nd(parent as int).parent == Some(gp),
            old(self).link_spec(gp as int, branch) == Some(parent),
        ensures
            final(self).links_ok(),
            final(self).same_content(old(self)),
            final(self).occ(r as int),
            final(self).root_black() || final(self).root == Some(r),
            !final(self).parent_red(r as int) || final(self).outside(final(self).iv(r as int)).len() < old(
                self,
            ).outside(old(self).iv(z as int)).len(),
            old(self).rb_except(Some(z)) && old(self).nd(z as int).color == Color::Red
                ==> final(self).rb_except(Some(r)) && final(self).nd(r as int).color == Color::Red,
    {
        let ghost t0 = *self;
        proof {
            assert(t0.node_ok(z as int));
            assert(t0.parent_ok(z as int));
            assert(t0.occ(parent as int));
            assert(t0.node_ok(parent as int));
            assert(t0.parent_ok(parent as int));
            assert(t0.occ(gp as int));
            assert(t0.node_ok(gp as int));
            assert(t0.root_ok());
            t0.lemma_outside_shrinks(z, parent, gp);
            t0.lemma_occupied_finite();
        }
        let uncle = self.link(gp, branch.opposite());
        proof {
            if let Some(u) = uncle {
                match branch.opposite_spec() {
                    Branch::Left => assert(t0.child_ok(gp as int, t0.nd(gp as int).left, t0.left_iv(gp as int))),
                    Branch::Right => assert(t0.child_ok(gp as int, t0.nd(gp as int).right, t0.right_iv(gp as int))),
                }
                assert(t0.occ(u as int));
            }
        }
        if self.color_of(uncle) == Color::Red {
            self.recolor(parent, Color::Black);
            let ghost t1 = *self;
            if let Some(u) = uncle {
                self.recolor(u, Color::Black);
            }
            let ghost t2 = *self;
            self.recolor(gp, Color::Red);
            let ghost t3 = *self;
            let ghost oh = t0.black_heights@;
            self.black_heights = Ghost(|j: int| if j == gp as int { oh(j) + 1 } else { oh(j) });
            proof {
                self.lemma_heights_only(&t3);
                t1.lemma_same_content_facts(&t0);
                t2.lemma_same_content_facts(&t1);
                t3.lemma_same_content_facts(&t2);
                assert(self.same_content(&t0));
                if t0.rb_except(Some(z)) {
                    self.lemma_same_content_facts(&t0);
                    self.lemma_uncle_red_rb(&t0, z, parent, gp, uncle.unwrap());
                }
                assert(self.nd(gp as int).color == Color::Red);
                assert(self.bounds == t0.bounds);
                // The links did not change, so the intervals shrink as before.
                assert(self.outside(self.iv(gp as int)) =~= t0.outside(t0.iv(gp as int)));
                assert(self.outside(self.iv(gp as int)).len() < t0.outside(t0.iv(z as int)).len());
                let root = t0.root.unwrap();
                if root != gp {
                    assert(root != parent);
                    if let Some(u) = uncle {
                        assert(root != u) by {
                            assert(t0.node_ok(u as int));
                        }
                    }
                    assert(self.nd(root as int) == t0.nd(root as int));
                }
            }
            return gp;
        }
        let z0 = z;
        let mut z = z;
        let on_far_side = self.link(parent, branch.opposite()) == Some(z);
        if on_far_side {
            z = parent;
            self.rotate_in(z, branch);
        }
        let ghost t1 = *self;
        proof {
            t1.lemma_same_content_facts(&t0);
            if on_far_side {
                // The old child took its parent's place below `gp`.
                assert(t1.nd(z0 as int).parent == Some(gp));
            } else {
                assert(t1 == t0);
                if branch == Branch::Left {
                    assert(t0.nd(parent as int).left == Some(z));
                } else {
                    assert(t0.nd(parent as int).right == Some(z));
                }
            }
            if t0.rb_except(Some(z0)) && t0.nd(z0 as int).color == Color::Red {
                if on_far_side {
                    t1.lemma_rotate_in_rb(&t0, parent, z0, branch == Branch::Left);
                }
            }
        }
        let p1 = self.node(z).parent.unwrap();
        proof {
            assert(t1.node_ok(p1 as int));
            assert(t1.occ(p1 as int));
            assert(t1.link_spec(gp as int, branch) == Some(p1));
            assert(t1.link_spec(p1 as int, branch) == Some(z));
        }
        let g1 = self.node(p1).parent.unwrap();
        proof {
            assert(g1 == gp);
            assert(t1.nd(z as int).color == t0.nd(z as int).color || on_far_side);
            assert(t1.root == t0.root || t0.nd(parent as int).parent is None);
        }
        self.recolor(p1, Color::Black);
        let ghost t2 = *self;
        self.recolor(g1, Color::Red);
        let ghost t3 = *self;
        proof {
            t2.lemma_same_content_facts(&t1);
            t3.lemma_same_content_facts(&t2);
            assert(t3.link_spec(g1 as int, branch) == Some(p1));
            assert(t3.nd(p1 as int).color == Color::Black);
            assert(t3.nd(z as int).parent == Some(p1));
            assert(t3.link_spec(p1 as int, branch) == Some(z));
            // `z`, its parent and its grandparent are distinct from the
            // grandparent's parent.
            t3.lemma_child_fewer(g1 as int, p1);
            t3.lemma_child_fewer(p1 as int, z);
            assert(t3.node_ok(g1 as int));
            assert(t3.parent_ok(g1 as int));
            if let Some(q) = t3.nd(g1 as int).parent {
                if q == z {
                    t3.lemma_child_fewer(z as int, g1);
                }
                assert(q != z);
            }
            assert(t3.node_ok(p1 as int));
            if branch == Branch::Left {
                if t3.nd(p1 as int).right == Some(z) {
                    assert(t3.child_ok(p1 as int, t3.nd(p1 as int).left, t3.left_iv(p1 as int)));
                    assert(t3.child_ok(p1 as int, t3.nd(p1 as int).right, t3.right_iv(p1 as int)));
                }
            } else {
                if t3.nd(p1 as int).left == Some(z) {
                    assert(t3.child_ok(p1 as int, t3.nd(p1 as int).left, t3.left_iv(p1 as int)));
                    assert(t3.child_ok(p1 as int, t3.nd(p1 as int).right, t3.right_iv(p1 as int)));
                }
            }
        }
        self.rotate_out(g1, branch);
        proof {
            if t0.rb_except(Some(z0)) && t0.nd(z0 as int).color == Color::Red {
                assert(t1.rb_except(Some(z)) && t1.nd(z as int).color == Color::Red);
                let uo = t0.link_spec(gp as int, branch.opposite_spec());
                assert(t0.color_spec(uo) == Color::Black);
                assert(t1.link_spec(gp as int, branch.opposite_spec()) == uo);
                if let Some(uu) = uo {
                    assert(t0.occ(uu as int));
                    assert(t1.occ(uu as int));
                }
                assert(t1.color_spec(uo) == Color::Black);
                assert(t3.nd(p1 as int) == (Node { color: Color::Black, ..t1.nd(p1 as int) }));
                assert(t3.nd(g1 as int) == (Node { color: Color::Red, ..t1.nd(g1 as int) }));
                self.lemma_rotate_out_rb(&t3, &t1, z, p1, g1, branch == Branch::Right);
            }
            self.lemma_same_content_facts(&t3);
            assert(self.nd(z as int).parent == Some(p1));
            assert(self.occ(p1 as int));
            assert(self.nd(p1 as int).color == t3.nd(p1 as int).color);
            assert(!self.parent_red(z as int));
            assert(self.same_content(&t0));
            let root = t0.root.unwrap();
            match t3.nd(g1 as int).parent {
                None => {
                    assert(self.root == Some(p1));
                },
                Some(q) => {
                    assert(self.root == t0.root);
                    assert(root != g1 as usize);
                    assert(root != p1) by {
                        assert(t3.node_ok(p1 as int));
                    }
                    assert(t3.nd(root as int).color == t0.nd(root as int).color);
                },
            }
        }
        z
    }

    /// Trees with the same content as a third have the same content.
    proof fn lemma_same_content_trans(&self, mid: &Self, first: &Self)
        requires
            self.same_content(mid),
            mid.same_content(first),
        ensures
            self.same_content(first),
    {
        assert forall|j: int| #[trigger] self.occ(j) implies self.nd(j).key == first.nd(j).key && self.nd(j).value
            == first.nd(j).value by {
            assert(mid.occ(j));
        }
    }

    /// The rule on red nodes excepted at `z` holds everywhere once `z` has
    /// no red parent.
    proof fn lemma_rb_release(&self, z: usize)
        requires
            self.links_ok(),
            self.occ(z as int),
            self.rb_except(Some(z)),
            match self.nd(z as int).parent {
                None => true,
                Some(p) => self.nd(p as int).color == Color::Black,
            },
        ensures
            self.balanced(),
    {
        assert forall|i: int| self.occ(i) implies #[trigger] self.node_rb(i, None) by {
            assert(self.node_rb(i, Some(z)));
            assert(self.node_ok(i));
            if self.nd(i).left == Some(z) {
                assert(self.child_ok(i, self.nd(i).left, self.left_iv(i)));
            }
            if self.nd(i).right == Some(z) {
                assert(self.child_ok(i, self.nd(i).right, self.right_iv(i)));
            }
        }
    }

    /// Painting the root of a red-black tree black keeps it one.
    proof fn lemma_root_black_rb(&self, t: &Self, root: usize)
        requires
            t.links_ok(),
            t.balanced(),
            t.root == Some(root),
            self.slots@.len() == t.slots@.len(),
            forall|j: int| #[trigger] self.occ(j) == t.occ(j),
            self.nd(root as int) == (Node { color: Color::Black, ..t.nd(root as int) }),
            forall|j: int|
                #![trigger self.slots@[j]]
                0 <= j < self.slots@.len() && j != root ==> self.slots@[j] == t.slots@[j],
            self.black_heights == t.black_heights,
        ensures
            self.balanced(),
    {
        assert(t.root_ok());
        assert forall|i: int| self.occ(i) implies #[trigger] self.node_rb(i, None) by {
            assert(t.node_rb(i, None));
            assert(t.node_ok(i));
            let l = t.nd(i).left;
            let r = t.nd(i).right;
            if let Some(c) = l {
                assert(t.child_ok(i, l, t.left_iv(i)));
                if c == root {
                    assert(t.nd(root as int).parent is None);
                }
                assert(self.slots@[c as int] == t.slots@[c as int]);
            }
            if let Some(c) = r {
                assert(t.child_ok(i, r, t.right_iv(i)));
                if c == root {
                    assert(t.nd(root as int).parent is None);
                }
                assert(self.slots@[c as int] == t.slots@[c as int]);
            }
            if i != root {
                assert(self.slots@[i] == t.slots@[i]);
            }
        }
    }

    /// Restores the red-black coloring after the red node `z0` was attached.
    fn insert_fixup(&mut self, z0: usize)
        requires
            old(self).links_ok(),
            old(self).occ(z0 as int),
            old(self).root_black() || old(self).root == Some(z0),
        ensures
            final(self).links_ok(),
            final(self).root_black(),
            final(self).same_content(old(self)),
            old(self).rb_except(Some(z0)) && old(self).nd(z0 as int).color == Color::Red ==> final(self).balanced(),
    {
        let ghost t0 = *self;
        let mut z = z0;
        loop
            invariant
                t0.links_ok(),
                self.links_ok(),
                self.same_content(&t0),
                self.occ(z as int),
                self.root_black() || self.root == Some(z),
                t0.rb_except(Some(z0)) && t0.nd(z0 as int).color == Color::Red ==> self.rb_except(Some(z))
                    && self.nd(z as int).color == Color::Red,
            ensures
                t0.links_ok(),
                self.links_ok(),
                self.same_content(&t0),
                self.occ(z as int),
                self.root_black() || self.root == Some(z),
                t0.rb_except(Some(z0)) && t0.nd(z0 as int).color == Color::Red ==> self.balanced(),
            decreases (if self.parent_red(z as int) {
                1int
            } else {
                0int
            }), self.outside(self.iv(z as int)).len(),
        {
            let parent = match self.node(z).parent {
                None => {
                    proof {
                        if t0.rb_except(Some(z0)) && t0.nd(z0 as int).color == Color::Red {
                            self.lemma_rb_release(z);
                        }
                    }
                    break;
                },
                Some(p) => p,
            };
            proof {
                assert(self.node_ok(z as int));
                assert(self.parent_ok(z as int));
            }
            if self.node(parent).color != Color::Red {
                proof {
                    if t0.rb_except(Some(z0)) && t0.nd(z0 as int).color == Color::Red {
                        self.lemma_rb_release(z);
                    }
                }
                break;
            }
            proof {
                assert(self.root_ok());
                assert(self.root != Some(z));
                assert(self.node_ok(parent as int));
                assert(self.parent_ok(parent as int));
            }
            let grandparent = self.node(parent).parent.unwrap();
            let branch = if self.node(grandparent).left == Some(parent) {
                Branch::Left
            } else {
                Branch::Right
            };
            let ghost before = *self;
            z = self.insert_fixup_iteration(z, parent, grandparent, branch);
            proof {
                self.lemma_same_content_trans(&before, &t0);
            }
        }
        if let Some(root) = self.root {
            proof {
                assert(self.root_ok());
            }
            let ghost before = *self;
            self.recolor(root, Color::Black);
            proof {
                self.lemma_same_content_trans(&before, &t0);
                if t0.rb_except(Some(z0)) && t0.nd(z0 as int).color == Color::Red {
                    self.lemma_same_content_facts(&before);
                    self.lemma_root_black_rb(&before, root);
                }
            }
        }
    }

    /// Stores `value` in the node of slot `i`, keeping the tree well formed.
    fn replace_value(&mut self, i: usize, value: V)
        requires
            old(self).wf(),
            old(self).occ(i as int),
        ensures
            final(self).wf(),
            final(self)@ == old(self)@.insert(old(self).nd(i as int).key, value),
            final(self).valid_handle(ArenaIndex { index: i, generation: old(self).slots@[i as int].generation }),
            forall|h: ArenaIndex|
                old(self).valid_handle(h) ==> #[trigger] final(self).valid_handle(h) && final(self).handle_key(h)
                    == old(self).handle_key(h),
            final(self).slots@[i as int].generation == old(self).slots@[i as int].generation,
            final(self).nd(i as int).key == old(self).nd(i as int).key,
            old(self).balanced() ==> final(self).balanced(),
    {
        let ghost prev = *self;
        self.set_value(i, value);
        proof {
            assert forall|j: int| #[trigger] self.occ(j) == prev.occ(j) by {
                if j != i as int && 0 <= j < self.slots@.len() {
                    assert(self.slots@[j] == prev.slots@[j]);
                }
            }
            assert forall|j: int| #[trigger] self.occ(j) implies self.nd(j).key == prev.nd(j).key && (j != i
                ==> self.nd(j).value == prev.nd(j).value) && self.nd(j).parent == prev.nd(j).parent
                && self.nd(j).left == prev.nd(j).left && self.nd(j).right == prev.nd(j).right
                && self.nd(j).color == prev.nd(j).color by {
                if j != i as int {
                    assert(self.slots@[j] == prev.slots@[j]);
                }
            }
            assert forall|j: int| #[trigger] self.occ(j) implies self.rk(j) == prev.rk(j) by {}
            assert forall|b: Bounds| #[trigger] self.key_free(b) == prev.key_free(b) by {
                if prev.key_free(b) {
                    assert forall|m: int| self.occ(m) implies !within(b, #[trigger] self.rk(m)) by {
                        assert(prev.occ(m));
                        assert(!within(b, prev.rk(m)));
                    }
                }
                if self.key_free(b) {
                    assert forall|m: int| prev.occ(m) implies !within(b, #[trigger] prev.rk(m)) by {
                        assert(self.occ(m));
                        assert(!within(b, self.rk(m)));
                    }
                }
            }
            assert forall|j: int| self.occ(j) implies #[trigger] self.node_ok(j) by {
                assert(prev.node_ok(j));
                let nj = prev.nd(j);
                if let Some(l) = nj.left {
                    assert(prev.child_ok(j, nj.left, prev.left_iv(j)));
                }
                if let Some(r) = nj.right {
                    assert(prev.child_ok(j, nj.right, prev.right_iv(j)));
                }
                if let Some(q) = nj.parent {
                    assert(prev.parent_ok(j));
                }
            }
            assert(prev.root_ok());
            assert(self.root_ok());
            assert(self.distinct());
            assert(self.links_ok());
            assert(self.occupied() =~= prev.occupied());
            assert(self.free_ok()) by {
                assert forall|t: int| 0 <= t < self.free@.len() implies #[trigger] self.free@[t] < self.slots@.len()
                    && !self.occ(self.free@[t] as int) by {
                    assert(!prev.occ(prev.free@[t] as int));
                }
                assert forall|k: int| 0 <= k < self.slots@.len() && !#[trigger] self.occ(k) implies self.free@.contains(k as usize) by {
                    assert(!prev.occ(k));
                }
            }
            self.lemma_view_value(&prev, i as int, value);
            assert forall|h: ArenaIndex| prev.valid_handle(h) implies #[trigger] self.valid_handle(h)
                && self.handle_key(h) == prev.handle_key(h) by {
                if h.index != i {
                    assert(self.slots@[h.index as int] == prev.slots@[h.index as int]);
                }
            }
            if prev.balanced() {
                assert forall|j: int| self.occ(j) implies #[trigger] self.node_rb(j, None) by {
                    assert(prev.node_rb(j, None));
                    assert(prev.node_ok(j));
                    let nj = prev.nd(j);
                    if let Some(l) = nj.left {
                        assert(prev.child_ok(j, nj.left, prev.left_iv(j)));
                        assert(self.occ(l as int));
                    }
                    if let Some(r) = nj.right {
                        assert(prev.child_ok(j, nj.right, prev.right_iv(j)));
                        assert(self.occ(r as int));
                    }
                    self.lemma_rb_same_links(&prev, j, None, None);
                }
            }
        }
    }

    /// Inserts or updates `key` with `value`.
    ///
    /// Returns the handle of the node. If the key already existed, the value
    /// is overwritten and the existing handle is returned.
    pub fn insert(&mut self, key: K, value: V) -> (h: ArenaIndex)
        requires
            old(self).wf(),
            old(self)@.dom().len() < usize::MAX,
        ensures
            final(self).wf(),
            final(self)@ == old(self)@.insert(key, value),
            final(self).valid_handle(h),
            final(self).handle_key(h) == key,
            old(self)@.contains_key(key) ==> old(self).valid_handle(h),
            old(self)@.contains_key(key) ==> forall|g: ArenaIndex|
                old(self).valid_handle(g) && old(self).handle_key(g) == key ==> g == h,
            forall|g: ArenaIndex|
                old(self).valid_handle(g) ==> #[trigger] final(self).valid_handle(g) && final(self).handle_key(g)
                    == old(self).handle_key(g),
            old(self).balanced() ==> final(self).balanced(),
    {
        proof {
            self.lemma_len_is_map_size();
            self.lemma_contains_rank(key);
        }
        let ghost r = key.rank();
        let mut parent: Option<usize> = None;
        let mut current = self.root;
        proof {
            assert(self.root_ok());
        }
        loop
            invariant
                self == old(self),
                self.wf(),
                old(self)@.dom().len() < usize::MAX,
                self@.contains_key(key) == self.has_rank(r),
                r == key.rank(),
                match current {
                    Some(c) => self.occ(c as int) && within(self.iv(c as int), r),
                    None => {
                        &&& !self.has_rank(r)
                        &&& (parent is None ==> self.root is None)
                        &&& (parent matches Some(p) ==> {
                            &&& self.occ(p as int)
                            &&& self.link_spec(p as int, Self::side_for(r, self.rk(p as int))) is None
                            &&& within(self.side_iv(p as int, Self::side_for(r, self.rk(p as int))), r)
                        })
                    },
                },
            ensures
                self == old(self),
                self.wf(),
                old(self)@.dom().len() < usize::MAX,
                self@.contains_key(key) == self.has_rank(r),
                r == key.rank(),
                current is None,
                !self.has_rank(r),
                parent is None ==> self.root is None,
                parent matches Some(p) ==> {
                    &&& self.occ(p as int)
                    &&& self.link_spec(p as int, Self::side_for(r, self.rk(p as int))) is None
                    &&& within(self.side_iv(p as int, Self::side_for(r, self.rk(p as int))), r)
                },
            decreases
                match current {
                    Some(c) => self.keys_in(self.iv(c as int)).len() + 1,
                    None => 0,
                },
        {
            match current {
                None => {
                    break;
                },
                Some(c) => {
                    proof {
                        assert(self.node_ok(c as int));
                    }
                    let node = self.node(c);
                    match key.compare(&node.key) {
                        KeyOrder::Equal => {
                            proof {
                                K::lemma_rank_injective(&key, &node.key);
                                self.lemma_view_entry(c as int);
                            }
                            let generation = self.slots[c].generation;
                            let existing = ArenaIndex { index: c, generation };
                            proof {
                                assert(old(self).valid_handle(existing));
                                assert forall|g: ArenaIndex|
                                    old(self).valid_handle(g) && old(self).handle_key(g) == key implies g
                                    == existing by {
                                    old(self).lemma_handle_unique(g, existing);
                                }
                            }
                            self.replace_value(c, value);
                            return existing;
                        },
                        KeyOrder::Less => {
                            proof {
                                if let Some(l) = node.left {
                                    self.lemma_child_fewer(c as int, l);
                                }
                            }
                            parent = Some(c);
                            current = node.left;
                        },
                        KeyOrder::Greater => {
                            proof {
                                if let Some(l) = node.right {
                                    self.lemma_child_fewer(c as int, l);
                                }
                            }
                            parent = Some(c);
                            current = node.right;
                        },
                    }
                },
            }
        }
        let n = self.attach(key, value, parent);
        let ghost attached_tree = *self;
        self.insert_fixup(n);
        proof {
            self.lemma_same_content_facts(&attached_tree);
            self.lemma_same_content_view(&attached_tree);
        }
        ArenaIndex { index: n, generation: self.slots[n].generation }
    }

    // ── Removal ──────────────────────────────────────────────────────────────
    /// Replaces the subtree rooted at `u` by the one rooted at `v`, in the
    /// link of `u`'s parent (or as the root); `u`'s own links stay.
    fn transplant(&mut self, u: usize, v: Option<usize>)
        requires
            old(self).occ(u as int),
            old(self).nd(u as int).parent matches Some(p) ==> old(self).occ(p as int) && v != Some(p),
            v matches Some(vi) ==> old(self).occ(vi as int),
        ensures
            final(self).slots@.len() == old(self).slots@.len(),
            final(self).free == old(self).free,
            final(self).len == old(self).len,
            final(self).bounds == old(self).bounds,
            final(self).black_heights == old(self).black_heights,
            forall|j: int| #[trigger] final(self).occ(j) == old(self).occ(j),
            forall|j: int|
                0 <= j < final(self).slots@.len() ==> (#[trigger] final(self).slots@[j]).generation
                    == old(self).slots@[j].generation,
            forall|j: int|
                #![trigger final(self).slots@[j]]
                0 <= j < final(self).slots@.len() && Some(j as usize) != old(self).nd(u as int).parent && Some(
                    j as usize,
                ) != v ==> final(self).slots@[j] == old(self).slots@[j],
            match old(self).nd(u as int).parent {
                None => final(self).root == v,
                Some(p) => {
                    &&& final(self).root == old(self).root
                    &&& final(self).nd(p as int) == (if old(self).nd(p as int).left == Some(u) {
                        Node { left: v, ..old(self).nd(p as int) }
                    } else {
                        Node { right: v, ..old(self).nd(p as int) }
                    })
                },
            },
            v matches Some(vi) ==> final(self).nd(vi as int) == (Node {
                parent: old(self).nd(u as int).parent,
                ..old(self).nd(vi as int)
            }),
    {
        let u_parent = self.node(u).parent;
        match u_parent {
            None => {
                self.root = v;
            },
            Some(p) => {
                let branch = self.branch_of_child(p, u);
                self.set_child(p, branch, v);
            },
        }
        if let Some(vi) = v {
            self.set_parent(vi, u_parent);
        }
    }

    /// The tree after node `z`, which has no left child, was replaced by its
    /// right subtree and its slot emptied: interval ends at `z`'s key now end
    /// where `z`'s interval did.
    closed spec fn spliced_a(&self, prev: &Self, z: int) -> bool {
        let c = prev.nd(z).right;
        let xp = prev.nd(z).parent;
        let rz = prev.rk(z);
        &&& self.slots@.len() == prev.slots@.len()
        &&& forall|j: int| #[trigger] self.occ(j) == (prev.occ(j) && j != z)
        &&& forall|j: int|
            #[trigger] self.occ(j) ==> self.nd(j).key == prev.nd(j).key && self.nd(j).value == prev.nd(j).value
                && self.nd(j).color == prev.nd(j).color
        &&& self.root == (if xp is None { c } else { prev.root })
        &&& xp matches Some(p) ==> self.nd(p as int).parent == prev.nd(p as int).parent && self.nd(p as int).left
            == (if prev.nd(p as int).left == Some(z as usize) { c } else { prev.nd(p as int).left })
            && self.nd(p as int).right == (if prev.nd(p as int).left == Some(z as usize) {
            prev.nd(p as int).right
        } else {
            c
        })
        &&& c matches Some(ci) ==> self.nd(ci as int).parent == xp && self.nd(ci as int).left == prev.nd(
            ci as int,
        ).left && self.nd(ci as int).right == prev.nd(ci as int).right
        &&& forall|j: int|
            #[trigger] self.occ(j) && Some(j as usize) != xp && Some(j as usize) != c ==> self.nd(j).parent
                == prev.nd(j).parent && self.nd(j).left == prev.nd(j).left && self.nd(j).right == prev.nd(j).right
        &&& forall|j: int|
            j != z ==> #[trigger] self.iv(j) == (
                if prev.iv(j).0 == Some(rz) {
                    prev.iv(z).0
                } else {
                    prev.iv(j).0
                },
                prev.iv(j).1,
            )
    }

    /// With no left child at `z`, no interval ends at `z`'s key from above.
    proof fn lemma_no_upper_end(&self, z: int)
        requires
            self.links_ok(),
            self.occ(z),
            self.nd(z).left is None,
        ensures
            forall|j: int| #[trigger] self.occ(j) ==> self.iv(j).1 != Some(self.rk(z)),
            forall|m: int| #[trigger] self.occ(m) ==> !within(self.left_iv(z), self.rk(m)),
    {
        assert(self.node_ok(z));
        assert(self.key_free(self.left_iv(z)));
        assert forall|j: int| #[trigger] self.occ(j) implies self.iv(j).1 != Some(self.rk(z)) by {
            if self.iv(j).1 == Some(self.rk(z)) {
                self.lemma_bounds(j);
                assert(self.node_ok(j));
                assert(lo_ge(self.iv(j).0, self.iv(z).0));
                assert(within(self.left_iv(z), self.rk(j)));
            }
        }
    }

    proof fn lemma_spliced_a_node(&self, prev: &Self, z: int, j: int)
        requires
            prev.links_ok(),
            prev.occ(z),
            prev.nd(z).left is None,
            self.spliced_a(prev, z),
            self.occ(j),
        ensures
            self.node_ok(j),
    {
        let c = prev.nd(z).right;
        let xp = prev.nd(z).parent;
        let rz = prev.rk(z);
        let lz = prev.iv(z).0;
        prev.lemma_no_upper_end(z);
        assert(prev.node_ok(z));
        assert(prev.parent_ok(z));
        assert(within(prev.iv(z), rz));
        assert(prev.occ(j));
        assert(j != z);
        assert(prev.node_ok(j));
        assert(self.rk(j) == prev.rk(j));
        assert(prev.rk(j) != rz);
        let pj = prev.nd(j);
        // Keys of the new tree are old keys other than `z`'s.
        assert forall|m: int| #[trigger] self.occ(m) implies prev.occ(m) && m != z && self.rk(m) == prev.rk(m)
            && prev.rk(m) != rz by {}
        if c is None {
            assert(prev.key_free(prev.right_iv(z))) by {
                assert(prev.child_ok(z, prev.nd(z).right, prev.right_iv(z)));
            }
        } else {
            assert(prev.child_ok(z, prev.nd(z).right, prev.right_iv(z)));
        }
        if let Some(p) = xp {
            assert(prev.occ(p as int));
            assert(prev.node_ok(p as int));
            if prev.nd(p as int).left == Some(z as usize) {
                assert(prev.child_ok(p as int, prev.nd(p as int).left, prev.left_iv(p as int)));
            } else {
                assert(prev.child_ok(p as int, prev.nd(p as int).right, prev.right_iv(p as int)));
            }
            assert(self.iv(p as int) == prev.iv(p as int));
        }
        // The interval of `j` holds its key.
        if prev.iv(j).0 == Some(rz) {
            assert(rz < prev.rk(j));
        }
        assert(within(self.iv(j), self.rk(j)));
        // Children.
        assert forall|sd: Branch| true implies #[trigger] self.child_ok(j, self.link_spec(j, sd), self.side_iv(j, sd)) by {
            let d = prev.link_spec(j, sd);
            assert(prev.child_ok(j, d, prev.side_iv(j, sd))) by {
                match sd {
                    Branch::Left => {},
                    Branch::Right => {},
                }
            }
            if Some(j as usize) == xp && d == Some(z as usize) {
                assert(self.link_spec(j, sd) == c);
                assert(self.side_iv(j, sd) == prev.iv(z));
                match c {
                    Some(ci) => {
                        assert(self.occ(ci as int));
                        assert(self.iv(ci as int) == prev.iv(z));
                    },
                    None => {
                        assert forall|m: int| self.occ(m) implies !within(prev.iv(z), #[trigger] self.rk(m)) by {
                            assert(!within(prev.left_iv(z), prev.rk(m)));
                            assert(!within(prev.right_iv(z), prev.rk(m)));
                        }
                    },
                }
            } else {
                assert(self.link_spec(j, sd) == d) by {
                    if Some(j as usize) == xp {
                    } else if Some(j as usize) == c {
                    }
                }
                match d {
                    Some(dd) => {
                        assert(prev.occ(dd as int));
                        assert(dd as int != z);
                        assert(self.occ(dd as int));
                        assert(Some(dd) != c) by {
                            if Some(dd) == c {
                                assert(prev.nd(dd as int).parent == Some(z as usize));
                            }
                        }
                        assert(self.nd(dd as int).parent == Some(j as usize));
                        assert(self.iv(dd as int) == self.side_iv(j, sd));
                    },
                    None => {
                        assert forall|m: int| self.occ(m) implies !within(self.side_iv(j, sd), #[trigger] self.rk(m)) by {
                            assert(!within(prev.side_iv(j, sd), prev.rk(m)));
                            assert(!within(prev.left_iv(z), prev.rk(m)));
                        }
                    },
                }
            }
        }
        assert(self.child_ok(j, self.nd(j).left, self.left_iv(j))) by {
            assert(self.child_ok(j, self.link_spec(j, Branch::Left), self.side_iv(j, Branch::Left)));
        }
        assert(self.child_ok(j, self.nd(j).right, self.right_iv(j))) by {
            assert(self.child_ok(j, self.link_spec(j, Branch::Right), self.side_iv(j, Branch::Right)));
        }
        // Parent.
        assert(prev.parent_ok(j));
        if Some(j as usize) == c {
            assert(self.nd(j).parent == xp);
        } else {
            assert(self.nd(j).parent == pj.parent);
            match pj.parent {
                None => {
                    assert(prev.root == Some(j as usize));
                    assert(xp is Some) by {
                        if xp is None {
                            assert(prev.root_ok());
                        }
                    }
                },
                Some(q) => {
                    assert(q as int != z);
                    assert(self.occ(q as int));
                },
            }
        }
        assert(self.parent_ok(j));
    }

    proof fn lemma_spliced_a_links(&self, prev: &Self, z: int)
        requires
            prev.links_ok(),
            prev.occ(z),
            prev.nd(z).left is None,
            self.spliced_a(prev, z),
            self.slots@.len() <= usize::MAX,
        ensures
            self.links_ok(),
    {
        assert forall|j: int| self.occ(j) implies #[trigger] self.node_ok(j) by {
            self.lemma_spliced_a_node(prev, z, j);
        }
        assert forall|i: int, j: int|
            #![trigger self.rk(i), self.rk(j)]
            self.occ(i) && self.occ(j) && self.rk(i) == self.rk(j) implies i == j by {
            assert(prev.occ(i) && prev.occ(j));
            assert(self.rk(i) == prev.rk(i));
            assert(self.rk(j) == prev.rk(j));
        }
        let c = prev.nd(z).right;
        let xp = prev.nd(z).parent;
        assert(prev.root_ok());
        assert(prev.node_ok(z));
        prev.lemma_no_upper_end(z);
        match xp {
            None => {
                assert(prev.root == Some(z as usize));
                match c {
                    None => {
                        assert(prev.key_free(prev.right_iv(z))) by {
                            assert(prev.child_ok(z, prev.nd(z).right, prev.right_iv(z)));
                        }
                        assert forall|m: int| !#[trigger] self.occ(m) by {
                            if self.occ(m) {
                                assert(prev.occ(m));
                                assert(!within(prev.left_iv(z), prev.rk(m)));
                                assert(!within(prev.right_iv(z), prev.rk(m)));
                            }
                        }
                    },
                    Some(ci) => {
                        assert(prev.child_ok(z, prev.nd(z).right, prev.right_iv(z)));
                        assert(self.occ(ci as int));
                    },
                }
            },
            Some(p) => {
                let r = prev.root.unwrap();
                assert(r as int != z);
                assert(self.occ(r as int));
                assert(Some(r) != c) by {
                    if Some(r) == c {
                        assert(prev.child_ok(z, prev.nd(z).right, prev.right_iv(z)));
                    }
                }
            },
        }
        assert(self.root_ok());
    }

    /// The tree after node `z`, which has no right child, was replaced by its
    /// left subtree and its slot emptied: interval ends at `z`'s key now end
    /// where `z`'s interval did.
    closed spec fn spliced_b(&self, prev: &Self, z: int) -> bool {
        let c = prev.nd(z).left;
        let xp = prev.nd(z).parent;
        let rz = prev.rk(z);
        &&& self.slots@.len() == prev.slots@.len()
        &&& forall|j: int| #[trigger] self.occ(j) == (prev.occ(j) && j != z)
        &&& forall|j: int|
            #[trigger] self.occ(j) ==> self.nd(j).key == prev.nd(j).key && self.nd(j).value == prev.nd(j).value
                && self.nd(j).color == prev.nd(j).color
        &&& self.root == (if xp is None { c } else { prev.root })
        &&& xp matches Some(p) ==> self.nd(p as int).parent == prev.nd(p as int).parent && self.nd(p as int).left
            == (if prev.nd(p as int).left == Some(z as usize) { c } else { prev.nd(p as int).left })
            && self.nd(p as int).right == (if prev.nd(p as int).left == Some(z as usize) {
            prev.nd(p as int).right
        } else {
            c
        })
        &&& c matches Some(ci) ==> self.nd(ci as int).parent == xp && self.nd(ci as int).left == prev.nd(
            ci as int,
        ).left && self.nd(ci as int).right == prev.nd(ci as int).right
        &&& forall|j: int|
            #[trigger] self.occ(j) && Some(j as usize) != xp && Some(j as usize) != c ==> self.nd(j).parent
                == prev.nd(j).parent && self.nd(j).left == prev.nd(j).left && self.nd(j).right == prev.nd(j).right
        &&& forall|j: int|
            j != z ==> #[trigger] self.iv(j) == (
                prev.iv(j).0,
                if prev.iv(j).1 == Some(rz) {
                    prev.iv(z).1
                } else {
                    prev.iv(j).1
                },
            )
    }

    /// With no right child at `z`, no interval starts at `z`'s key.
    proof fn lemma_no_lower_end(&self, z: int)
        requires
            self.links_ok(),
            self.occ(z),
            self.nd(z).right is None,
        ensures
            forall|j: int| #[trigger] self.occ(j) ==> self.iv(j).0 != Some(self.rk(z)),
            forall|m: int| #[trigger] self.occ(m) ==> !within(self.right_iv(z), self.rk(m)),
    {
        assert(self.node_ok(z));
        assert(self.key_free(self.right_iv(z)));
        assert forall|j: int| #[trigger] self.occ(j) implies self.iv(j).0 != Some(self.rk(z)) by {
            if self.iv(j).0 == Some(self.rk(z)) {
                self.lemma_bounds(j);
                assert(self.node_ok(j));
                assert(hi_le(self.iv(j).1, self.iv(z).1));
                assert(within(self.right_iv(z), self.rk(j)));
            }
        }
    }

    proof fn lemma_spliced_b_node(&self, prev: &Self, z: int, j: int)
        requires
            prev.links_ok(),
            prev.occ(z),
            prev.nd(z).right is None,
            self.spliced_b(prev, z),
            self.occ(j),
        ensures
            self.node_ok(j),
    {
        let c = prev.nd(z).left;
        let xp = prev.nd(z).parent;
        let rz = prev.rk(z);
        let lz = prev.iv(z).0;
        prev.lemma_no_lower_end(z);
        assert(prev.node_ok(z));
        assert(prev.parent_ok(z));
        assert(within(prev.iv(z), rz));
        assert(prev.occ(j));
        assert(j != z);
        assert(prev.node_ok(j));
        assert(self.rk(j) == prev.rk(j));
        assert(prev.rk(j) != rz);
        let pj = prev.nd(j);
        // Keys of the new tree are old keys other than `z`'s.
        assert forall|m: int| #[trigger] self.occ(m) implies prev.occ(m) && m != z && self.rk(m) == prev.rk(m)
            && prev.rk(m) != rz by {}
        if c is None {
            assert(prev.key_free(prev.left_iv(z))) by {
                assert(prev.child_ok(z, prev.nd(z).left, prev.left_iv(z)));
            }
        } else {
            assert(prev.child_ok(z, prev.nd(z).left, prev.left_iv(z)));
        }
        if let Some(p) = xp {
            assert(prev.occ(p as int));
            assert(prev.node_ok(p as int));
            if prev.nd(p as int).left == Some(z as usize) {
                assert(prev.child_ok(p as int, prev.nd(p as int).left, prev.left_iv(p as int)));
            } else {
                assert(prev.child_ok(p as int, prev.nd(p as int).right, prev.right_iv(p as int)));
            }
            assert(self.iv(p as int) == prev.iv(p as int));
        }
        // The interval of `j` holds its key.
        if prev.iv(j).1 == Some(rz) {
            assert(prev.rk(j) < rz);
        }
        assert(within(self.iv(j), self.rk(j)));
        // Children.
        assert forall|sd: Branch| true implies #[trigger] self.child_ok(j, self.link_spec(j, sd), self.side_iv(j, sd)) by {
            let d = prev.link_spec(j, sd);
            assert(prev.child_ok(j, d, prev.side_iv(j, sd))) by {
                match sd {
                    Branch::Left => {},
                    Branch::Right => {},
                }
            }
            if Some(j as usize) == xp && d == Some(z as usize) {
                assert(self.link_spec(j, sd) == c);
                assert(self.side_iv(j, sd) == prev.iv(z));
                match c {
                    Some(ci) => {
                        assert(self.occ(ci as int));
                        assert(self.iv(ci as int) == prev.iv(z));
                    },
                    None => {
                        assert forall|m: int| self.occ(m) implies !within(prev.iv(z), #[trigger] self.rk(m)) by {
                            assert(!within(prev.left_iv(z), prev.rk(m)));
                            assert(!within(prev.right_iv(z), prev.rk(m)));
                        }
                    },
                }
            } else {
                assert(self.link_spec(j, sd) == d) by {
                    if Some(j as usize) == xp {
                    } else if Some(j as usize) == c {
                    }
                }
                match d {
                    Some(dd) => {
                        assert(prev.occ(dd as int));
                        assert(dd as int != z);
                        assert(self.occ(dd as int));
                        assert(Some(dd) != c) by {
                            if Some(dd) == c {
                                assert(prev.nd(dd as int).parent == Some(z as usize));
                            }
                        }
                        assert(self.nd(dd as int).parent == Some(j as usize));
                        assert(self.iv(dd as int) == self.side_iv(j, sd));
                    },
                    None => {
                        assert forall|m: int| self.occ(m) implies !within(self.side_iv(j, sd), #[trigger] self.rk(m)) by {
                            assert(!within(prev.side_iv(j, sd), prev.rk(m)));
                            assert(!within(prev.right_iv(z), prev.rk(m)));
                        }
                    },
                }
            }
        }
        assert(self.child_ok(j, self.nd(j).left, self.left_iv(j))) by {
            assert(self.child_ok(j, self.link_spec(j, Branch::Left), self.side_iv(j, Branch::Left)));
        }
        assert(self.child_ok(j, self.nd(j).right, self.right_iv(j))) by {
            assert(self.child_ok(j, self.link_spec(j, Branch::Right), self.side_iv(j, Branch::Right)));
        }
        // Parent.
        assert(prev.parent_ok(j));
        if Some(j as usize) == c {
            assert(self.nd(j).parent == xp);
        } else {
            assert(self.nd(j).parent == pj.parent);
            match pj.parent {
                None => {
                    assert(prev.root == Some(j as usize));
                    assert(xp is Some) by {
                        if xp is None {
                            assert(prev.root_ok());
                        }
                    }
                },
                Some(q) => {
                    assert(q as int != z);
                    assert(self.occ(q as int));
                },
            }
        }
        assert(self.parent_ok(j));
    }

    proof fn lemma_spliced_b_links(&self, prev: &Self, z: int)
        requires
            prev.links_ok(),
            prev.occ(z),
            prev.nd(z).right is None,
            self.spliced_b(prev, z),
            self.slots@.len() <= usize::MAX,
        ensures
            self.links_ok(),
    {
        assert forall|j: int| self.occ(j) implies #[trigger] self.node_ok(j) by {
            self.lemma_spliced_b_node(prev, z, j);
        }
        assert forall|i: int, j: int|
            #![trigger self.rk(i), self.rk(j)]
            self.occ(i) && self.occ(j) && self.rk(i) == self.rk(j) implies i == j by {
            assert(prev.occ(i) && prev.occ(j));
            assert(self.rk(i) == prev.rk(i));
            assert(self.rk(j) == prev.rk(j));
        }
        let c = prev.nd(z).left;
        let xp = prev.nd(z).parent;
        assert(prev.root_ok());
        assert(prev.node_ok(z));
        prev.lemma_no_lower_end(z);
        match xp {
            None => {
                assert(prev.root == Some(z as usize));
                match c {
                    None => {
                        assert(prev.key_free(prev.left_iv(z))) by {
                            assert(prev.child_ok(z, prev.nd(z).left, prev.left_iv(z)));
                        }
                        assert forall|m: int| !#[trigger] self.occ(m) by {
                            if self.occ(m) {
                                assert(prev.occ(m));
                                assert(!within(prev.left_iv(z), prev.rk(m)));
                                assert(!within(prev.right_iv(z), prev.rk(m)));
                            }
                        }
                    },
                    Some(ci) => {
                        assert(prev.child_ok(z, prev.nd(z).left, prev.left_iv(z)));
                        assert(self.occ(ci as int));
                    },
                }
            },
            Some(p) => {
                let r = prev.root.unwrap();
                assert(r as int != z);
                assert(self.occ(r as int));
                assert(Some(r) != c) by {
                    if Some(r) == c {
                        assert(prev.child_ok(z, prev.nd(z).left, prev.left_iv(z)));
                    }
                }
            },
        }
        assert(self.root_ok());
    }

    /// `b` with the ends at rank `from` moved to rank `to`.
    closed spec fn swap_ends(b: Bounds, from: int, to: int) -> Bounds {
        (
            if b.0 == Some(from) { Some(to) } else { b.0 },
            if b.1 == Some(from) { Some(to) } else { b.1 },
        )
    }

    /// The facts about the successor `s` of `z` (the leftmost node of its
    /// right subtree) that removing `z` relies on.
    closed spec fn successor_of(&self, z: int, s: usize) -> bool {
        &&& self.occ(z)
        &&& self.nd(z).left is Some
        &&& self.nd(z).right is Some
        &&& self.occ(s as int)
        &&& self.nd(s as int).left is None
        &&& self.iv(s as int).0 == Some(self.rk(z))
        &&& self.key_free((Some(self.rk(z)), Some(self.rk(s as int))))
        &&& within(self.right_iv(z), self.rk(s as int))
    }

    /// The tree after node `z`, which has two children, was replaced by its
    /// successor `s` and its slot emptied: `s` takes `z`'s place, interval,
    /// children and color, and its own right subtree takes its old place.
    closed spec fn spliced_c(&self, prev: &Self, z: int, s: usize) -> bool {
        let zl = prev.nd(z).left.unwrap();
        let zr = prev.nd(z).right.unwrap();
        let xp = prev.nd(z).parent;
        let sp = prev.nd(s as int).parent.unwrap();
        let sr = prev.nd(s as int).right;
        let rz = prev.rk(z);
        let rs = prev.rk(s as int);
        &&& self.slots@.len() == prev.slots@.len()
        &&& forall|j: int| #[trigger] self.occ(j) == (prev.occ(j) && j != z)
        &&& forall|j: int|
            #[trigger] self.occ(j) ==> self.nd(j).key == prev.nd(j).key && self.nd(j).value == prev.nd(j).value
        &&& self.root == (if xp is None { Some(s) } else { prev.root })
        &&& xp matches Some(p) ==> self.nd(p as int).parent == prev.nd(p as int).parent && self.nd(p as int).left
            == (if prev.nd(p as int).left == Some(z as usize) { Some(s) } else { prev.nd(p as int).left })
            && self.nd(p as int).right == (if prev.nd(p as int).left == Some(z as usize) {
            prev.nd(p as int).right
        } else {
            Some(s)
        })
        &&& self.nd(s as int).parent == xp
        &&& self.nd(s as int).left == Some(zl)
        &&& self.nd(s as int).right == (if s == zr { sr } else { Some(zr) })
        &&& self.nd(zl as int).parent == Some(s)
        &&& self.nd(zl as int).left == prev.nd(zl as int).left
        &&& self.nd(zl as int).right == prev.nd(zl as int).right
        &&& s != zr ==> {
            &&& self.nd(sp as int).left == sr
            &&& self.nd(sp as int).right == prev.nd(sp as int).right
            &&& self.nd(sp as int).parent == (if sp == zr { Some(s) } else { prev.nd(sp as int).parent })
            &&& self.nd(zr as int).parent == Some(s)
            &&& self.nd(zr as int).right == prev.nd(zr as int).right
            &&& self.nd(zr as int).left == (if sp == zr { sr } else { prev.nd(zr as int).left })
        }
        &&& sr matches Some(r) ==> self.nd(r as int).parent == Some(if s == zr { s } else { sp })
            && self.nd(r as int).left == prev.nd(r as int).left && self.nd(r as int).right == prev.nd(r as int).right
        &&& forall|j: int|
            #[trigger] self.occ(j) && j != s as int && j != zl as int && j != zr as int && Some(j as usize) != xp
                && Some(j as usize) != sr && j != sp as int ==> self.nd(j).parent == prev.nd(j).parent
                && self.nd(j).left == prev.nd(j).left && self.nd(j).right == prev.nd(j).right
        &&& self.iv(s as int) == prev.iv(z)
        &&& forall|j: int| j != z && j != s as int ==> #[trigger] self.iv(j) == Self::swap_ends(prev.iv(j), rz, rs)
    }

    /// Facts about the nodes around `z` and its successor `s` before `z` is
    /// removed.
    proof fn lemma_successor_facts(&self, z: int, s: usize)
        requires
            self.links_ok(),
            self.successor_of(z, s),
        ensures
            ({
                let zl = self.nd(z).left.unwrap();
                let zr = self.nd(z).right.unwrap();
                let sp = self.nd(s as int).parent.unwrap();
                let rz = self.rk(z);
                let rs = self.rk(s as int);
                &&& self.occ(zl as int)
                &&& self.occ(zr as int)
                &&& self.nd(zl as int).parent == Some(z as usize)
                &&& self.nd(zr as int).parent == Some(z as usize)
                &&& self.iv(zl as int) == self.left_iv(z)
                &&& self.iv(zr as int) == self.right_iv(z)
                &&& rz < rs
                &&& within(self.iv(z), rz)
                &&& within(self.iv(z), rs)
                &&& s as int != z
                &&& s != zl
                &&& zl != zr
                &&& self.nd(s as int).parent is Some
                &&& self.occ(sp as int)
                &&& (s == zr <==> sp as int == z)
                &&& (s != zr ==> {
                    &&& self.nd(sp as int).left == Some(s)
                    &&& self.iv(sp as int).0 == Some(rz)
                    &&& self.iv(s as int).1 == Some(self.rk(sp as int))
                    &&& rs < self.rk(sp as int)
                    &&& within(self.iv(z), self.rk(sp as int))
                    &&& sp != zl
                })
                &&& (s == zr ==> self.iv(s as int) == self.right_iv(z))
                &&& (self.nd(s as int).right matches Some(r) ==> {
                    &&& self.occ(r as int)
                    &&& self.nd(r as int).parent == Some(s)
                    &&& self.iv(r as int) == self.right_iv(s as int)
                    &&& within(self.iv(z), self.rk(r as int))
                    &&& r != zl
                    &&& r != zr
                    &&& r != sp
                })
                &&& (self.nd(s as int).right is None ==> self.key_free(self.right_iv(s as int)))
                &&& forall|j: int|
                    #[trigger] self.occ(j) && self.iv(j).0 == Some(rz) && j != s as int ==> rs < self.rk(j)
                &&& forall|j: int| #[trigger] self.occ(j) && self.iv(j).1 == Some(rz) ==> self.rk(j) < rz
                &&& forall|m: int| #[trigger] self.occ(m) && m != z ==> !(rz <= self.rk(m) < rs)
                &&& (self.nd(z).parent matches Some(p) ==> {
                    &&& self.occ(p as int)
                    &&& (self.nd(p as int).left == Some(z as usize) ==> self.iv(z) == self.left_iv(p as int))
                    &&& (self.nd(p as int).left != Some(z as usize) ==> self.iv(z) == self.right_iv(p as int)
                        && self.nd(p as int).right == Some(z as usize))
                    &&& !within(self.iv(z), self.rk(p as int))
                    &&& self.iv(p as int).0 != Some(rz)
                    &&& self.iv(p as int).1 != Some(rz)
                })
            }),
    {
        let zl = self.nd(z).left.unwrap();
        let zr = self.nd(z).right.unwrap();
        let rz = self.rk(z);
        let rs = self.rk(s as int);
        assert(self.node_ok(z));
        assert(self.child_ok(z, self.nd(z).left, self.left_iv(z)));
        assert(self.child_ok(z, self.nd(z).right, self.right_iv(z)));
        assert(self.node_ok(s as int));
        assert(self.parent_ok(s as int));
        assert(self.node_ok(zl as int));
        assert(rz < rs);
        assert(s as int != z);
        assert(s != zl) by {
            assert(within(self.left_iv(z), self.rk(zl as int)));
        }
        assert(self.nd(s as int).parent is Some) by {
            assert(self.root_ok());
            if self.nd(s as int).parent is None {
                assert(self.iv(s as int) == (None::<int>, None::<int>));
            }
        }
        let sp = self.nd(s as int).parent.unwrap();
        assert(self.occ(sp as int));
        assert(self.node_ok(sp as int));
        if self.nd(sp as int).right == Some(s) {
            assert(self.child_ok(sp as int, self.nd(sp as int).right, self.right_iv(sp as int)));
            assert(self.rk(sp as int) == rz);
            assert(sp as int == z);
        } else {
            assert(self.nd(sp as int).left == Some(s));
            assert(self.child_ok(sp as int, self.nd(sp as int).left, self.left_iv(sp as int)));
            if sp as int == z {
                assert(self.iv(s as int) == self.left_iv(z));
            }
        }
        if s != zr {
            assert(sp as int != z);
            assert(self.iv(sp as int).0 == Some(rz));
            self.lemma_bounds(sp as int);
            assert(hi_le(self.iv(sp as int).1, self.iv(z).1));
            assert(sp != zl) by {
                assert(self.iv(zl as int).1 == Some(rz));
            }
        }
        if let Some(r) = self.nd(s as int).right {
            assert(self.child_ok(s as int, self.nd(s as int).right, self.right_iv(s as int)));
            assert(self.node_ok(r as int));
            if s != zr {
                self.lemma_bounds(sp as int);
            }
            assert(r != zl) by {
                assert(within(self.left_iv(z), self.rk(zl as int)));
            }
        } else {
            assert(self.child_ok(s as int, self.nd(s as int).right, self.right_iv(s as int)));
        }
        assert forall|j: int| #[trigger] self.occ(j) && self.iv(j).0 == Some(rz) && j != s as int implies rs
            < self.rk(j) by {
            assert(self.node_ok(j));
            assert(!within((Some(rz), Some(rs)), self.rk(j)));
            assert(self.rk(j) != rs);
        }
        assert forall|j: int| #[trigger] self.occ(j) && self.iv(j).1 == Some(rz) implies self.rk(j) < rz by {
            assert(self.node_ok(j));
        }
        assert forall|m: int| #[trigger] self.occ(m) && m != z implies !(rz <= self.rk(m) < rs) by {
            if self.rk(m) == rz {
            } else {
                assert(!within((Some(rz), Some(rs)), self.rk(m)));
            }
        }
        assert(self.parent_ok(z));
        if let Some(p) = self.nd(z).parent {
            assert(self.node_ok(p as int));
            if self.nd(p as int).left == Some(z as usize) {
                assert(self.child_ok(p as int, self.nd(p as int).left, self.left_iv(p as int)));
            } else {
                assert(self.child_ok(p as int, self.nd(p as int).right, self.right_iv(p as int)));
            }
        }
    }

    /// A child position that removing `z` left alone: the same child (or
    /// none), whose interval moved with its parent's.
    proof fn lemma_c_same_child(&self, prev: &Self, z: int, s: usize, j: int, sd: Branch)
        requires
            prev.links_ok(),
            prev.successor_of(z, s),
            self.spliced_c(prev, z, s),
            self.occ(j),
            j != s as int,
            self.link_spec(j, sd) == prev.link_spec(j, sd),
            prev.link_spec(j, sd) matches Some(d) ==> d as int != z && d != s && self.nd(d as int).parent == Some(
                j as usize,
            ),
        ensures
            self.child_ok(j, self.link_spec(j, sd), self.side_iv(j, sd)),
    {
        let rz = prev.rk(z);
        let rs = prev.rk(s as int);
        prev.lemma_successor_facts(z, s);
        assert(prev.occ(j));
        assert(prev.node_ok(j));
        assert(j != z);
        assert(self.rk(j) == prev.rk(j));
        assert(prev.rk(j) != rz);
        assert(self.iv(j) == Self::swap_ends(prev.iv(j), rz, rs));
        assert(prev.child_ok(j, prev.link_spec(j, sd), prev.side_iv(j, sd))) by {
            match sd {
                Branch::Left => {},
                Branch::Right => {},
            }
        }
        assert(self.side_iv(j, sd) == Self::swap_ends(prev.side_iv(j, sd), rz, rs));
        match prev.link_spec(j, sd) {
            Some(d) => {
                assert(self.occ(d as int));
                assert(self.iv(d as int) == Self::swap_ends(prev.iv(d as int), rz, rs));
            },
            None => {
                assert forall|m: int| self.occ(m) implies !within(self.side_iv(j, sd), #[trigger] self.rk(m)) by {
                    assert(prev.occ(m) && m != z);
                    assert(self.rk(m) == prev.rk(m));
                    assert(!within(prev.side_iv(j, sd), prev.rk(m)));
                    assert(!(rz <= prev.rk(m) < rs));
                }
            },
        }
    }

    proof fn lemma_c_node_s(&self, prev: &Self, z: int, s: usize, j: int)
        requires
            prev.links_ok(),
            prev.successor_of(z, s),
            self.spliced_c(prev, z, s),
            self.occ(j),
            j == s as int,
        ensures
            self.node_ok(j),
    {
        let zl = prev.nd(z).left.unwrap();
        let zr = prev.nd(z).right.unwrap();
        let xp = prev.nd(z).parent;
        let sp = prev.nd(s as int).parent.unwrap();
        let sr = prev.nd(s as int).right;
        let rz = prev.rk(z);
        let rs = prev.rk(s as int);
        prev.lemma_successor_facts(z, s);
        assert(prev.occ(j));
        assert(j != z);
        assert(prev.node_ok(j));
        assert(prev.parent_ok(j));
        assert(self.rk(j) == prev.rk(j));
        let pj = prev.nd(j);
        assert(within(self.iv(j), self.rk(j)));
        assert(self.iv(zl as int) == Self::swap_ends(prev.iv(zl as int), rz, rs));
        assert(self.child_ok(j, self.nd(j).left, self.left_iv(j)));
        if s == zr {
            match sr {
                Some(r) => {
                    assert(self.iv(r as int) == Self::swap_ends(prev.iv(r as int), rz, rs));
                },
                None => {
                    assert forall|m: int| self.occ(m) implies !within(self.right_iv(j), #[trigger] self.rk(m)) by {
                        assert(prev.occ(m) && m != z);
                        assert(!within(prev.right_iv(s as int), prev.rk(m)));
                    }
                },
            }
        } else {
            assert(self.iv(zr as int) == Self::swap_ends(prev.iv(zr as int), rz, rs));
        }
        assert(self.child_ok(j, self.nd(j).right, self.right_iv(j)));
        match xp {
            None => {},
            Some(p) => {
                assert(self.occ(p as int));
            },
        }
        assert(self.parent_ok(j));
    }

    proof fn lemma_c_node_sp(&self, prev: &Self, z: int, s: usize, j: int)
        requires
            prev.links_ok(),
            prev.successor_of(z, s),
            self.spliced_c(prev, z, s),
            self.occ(j),
            s != prev.nd(z).right.unwrap(),
            j == prev.nd(s as int).parent.unwrap() as int,
        ensures
            self.node_ok(j),
    {
        let zl = prev.nd(z).left.unwrap();
        let zr = prev.nd(z).right.unwrap();
        let xp = prev.nd(z).parent;
        let sp = prev.nd(s as int).parent.unwrap();
        let sr = prev.nd(s as int).right;
        let rz = prev.rk(z);
        let rs = prev.rk(s as int);
        prev.lemma_successor_facts(z, s);
        assert(prev.occ(j));
        assert(j != z);
        assert(prev.node_ok(j));
        assert(prev.parent_ok(j));
        assert(self.rk(j) == prev.rk(j));
        let pj = prev.nd(j);
        assert(within(self.iv(j), self.rk(j)));
        match sr {
            Some(r) => {
                assert(self.iv(r as int) == Self::swap_ends(prev.iv(r as int), rz, rs));
            },
            None => {
                assert forall|m: int| self.occ(m) implies !within(self.left_iv(j), #[trigger] self.rk(m)) by {
                    assert(prev.occ(m) && m != z);
                    assert(!within(prev.right_iv(s as int), prev.rk(m)));
                }
            },
        }
        assert(self.child_ok(j, self.nd(j).left, self.left_iv(j)));
        if let Some(d) = pj.right {
            assert(prev.child_ok(j, pj.right, prev.right_iv(j)));
            assert(prev.node_ok(d as int));
            assert(d as int != z);
            assert(d != s);
            assert(d != zl && d != zr);
            assert(Some(d) != sr);
            assert(Some(d) != xp);
            assert(d != sp);
            assert(self.occ(d as int));
            assert(self.nd(d as int).parent == prev.nd(d as int).parent);
        }
        self.lemma_c_same_child(prev, z, s, j, Branch::Right);
        assert(self.child_ok(j, self.nd(j).right, self.right_iv(j)));
        if sp == zr {
        } else {
            match pj.parent {
                None => {
                    assert(prev.root_ok());
                    assert(prev.iv(j) == (None::<int>, None::<int>));
                },
                Some(q) => {
                    assert(q as int != z);
                    assert(self.occ(q as int));
                    assert(prev.node_ok(q as int));
                },
            }
        }
        assert(self.parent_ok(j));
    }

    proof fn lemma_c_node_zr(&self, prev: &Self, z: int, s: usize, j: int)
        requires
            prev.links_ok(),
            prev.successor_of(z, s),
            self.spliced_c(prev, z, s),
            self.occ(j),
            s != prev.nd(z).right.unwrap(),
            j == prev.nd(z).right.unwrap() as int,
            j != prev.nd(s as int).parent.unwrap() as int,
        ensures
            self.node_ok(j),
    {
        let zl = prev.nd(z).left.unwrap();
        let zr = prev.nd(z).right.unwrap();
        let xp = prev.nd(z).parent;
        let sp = prev.nd(s as int).parent.unwrap();
        let sr = prev.nd(s as int).right;
        let rz = prev.rk(z);
        let rs = prev.rk(s as int);
        prev.lemma_successor_facts(z, s);
        assert(prev.occ(j));
        assert(j != z);
        assert(prev.node_ok(j));
        assert(prev.parent_ok(j));
        assert(self.rk(j) == prev.rk(j));
        let pj = prev.nd(j);
        assert(prev.rk(j) > rs);
        assert(within(self.iv(j), self.rk(j)));
        assert forall|sd: Branch| true implies #[trigger] self.child_ok(j, self.link_spec(j, sd), self.side_iv(j, sd)) by {
            if let Some(d) = prev.link_spec(j, sd) {
                assert(prev.child_ok(j, prev.link_spec(j, sd), prev.side_iv(j, sd))) by {
                    match sd {
                        Branch::Left => {},
                        Branch::Right => {},
                    }
                }
                assert(prev.node_ok(d as int));
                assert(d as int != z);
                assert(d != s);
                assert(d != zl && d != zr);
                assert(Some(d) != sr);
                assert(self.occ(d as int));
                assert(self.nd(d as int).parent == prev.nd(d as int).parent) by {
                    if Some(d) == xp {
                    } else if d == sp {
                    } else {
                    }
                }
            }
            self.lemma_c_same_child(prev, z, s, j, sd);
        }
        assert(self.child_ok(j, self.link_spec(j, Branch::Left), self.side_iv(j, Branch::Left)));
        assert(self.child_ok(j, self.link_spec(j, Branch::Right), self.side_iv(j, Branch::Right)));
        assert(self.parent_ok(j));
    }

    proof fn lemma_c_node_zl(&self, prev: &Self, z: int, s: usize, j: int)
        requires
            prev.links_ok(),
            prev.successor_of(z, s),
            self.spliced_c(prev, z, s),
            self.occ(j),
            j == prev.nd(z).left.unwrap() as int,
        ensures
            self.node_ok(j),
    {
        let zl = prev.nd(z).left.unwrap();
        let zr = prev.nd(z).right.unwrap();
        let xp = prev.nd(z).parent;
        let sp = prev.nd(s as int).parent.unwrap();
        let sr = prev.nd(s as int).right;
        let rz = prev.rk(z);
        let rs = prev.rk(s as int);
        prev.lemma_successor_facts(z, s);
        assert(prev.occ(j));
        assert(j != z);
        assert(prev.node_ok(j));
        assert(prev.parent_ok(j));
        assert(self.rk(j) == prev.rk(j));
        let pj = prev.nd(j);
        assert(within(self.iv(j), self.rk(j)));
        assert forall|sd: Branch| true implies #[trigger] self.child_ok(j, self.link_spec(j, sd), self.side_iv(j, sd)) by {
            if let Some(d) = prev.link_spec(j, sd) {
                assert(prev.child_ok(j, prev.link_spec(j, sd), prev.side_iv(j, sd))) by {
                    match sd {
                        Branch::Left => {},
                        Branch::Right => {},
                    }
                }
                assert(prev.node_ok(d as int));
                assert(d as int != z);
                assert(d != s);
                assert(d != zl && d != zr);
                assert(Some(d) != sr);
                assert(self.occ(d as int));
                assert(self.nd(d as int).parent == prev.nd(d as int).parent) by {
                    if Some(d) == xp {
                    } else if d == sp {
                    } else {
                    }
                }
            }
            self.lemma_c_same_child(prev, z, s, j, sd);
        }
        assert(self.child_ok(j, self.link_spec(j, Branch::Left), self.side_iv(j, Branch::Left)));
        assert(self.child_ok(j, self.link_spec(j, Branch::Right), self.side_iv(j, Branch::Right)));
        assert(self.parent_ok(j));
    }

    proof fn lemma_c_node_sr(&self, prev: &Self, z: int, s: usize, j: int)
        requires
            prev.links_ok(),
            prev.successor_of(z, s),
            self.spliced_c(prev, z, s),
            self.occ(j),
            Some(j as usize) == prev.nd(s as int).right,
        ensures
            self.node_ok(j),
    {
        let zl = prev.nd(z).left.unwrap();
        let zr = prev.nd(z).right.unwrap();
        let xp = prev.nd(z).parent;
        let sp = prev.nd(s as int).parent.unwrap();
        let sr = prev.nd(s as int).right;
        let rz = prev.rk(z);
        let rs = prev.rk(s as int);
        prev.lemma_successor_facts(z, s);
        assert(prev.occ(j));
        assert(j != z);
        assert(prev.node_ok(j));
        assert(prev.parent_ok(j));
        assert(self.rk(j) == prev.rk(j));
        let pj = prev.nd(j);
        assert(within(self.iv(j), self.rk(j)));
        assert forall|sd: Branch| true implies #[trigger] self.child_ok(j, self.link_spec(j, sd), self.side_iv(j, sd)) by {
            if let Some(d) = prev.link_spec(j, sd) {
                assert(prev.child_ok(j, prev.link_spec(j, sd), prev.side_iv(j, sd))) by {
                    match sd {
                        Branch::Left => {},
                        Branch::Right => {},
                    }
                }
                assert(prev.node_ok(d as int));
                assert(d as int != z);
                assert(d != s);
                assert(d != zl && d != zr);
                assert(Some(d) != sr);
                assert(self.occ(d as int));
                assert(self.nd(d as int).parent == prev.nd(d as int).parent) by {
                    if Some(d) == xp {
                    } else if d == sp {
                    } else {
                    }
                }
            }
            self.lemma_c_same_child(prev, z, s, j, sd);
        }
        assert(self.child_ok(j, self.link_spec(j, Branch::Left), self.side_iv(j, Branch::Left)));
        assert(self.child_ok(j, self.link_spec(j, Branch::Right), self.side_iv(j, Branch::Right)));
        assert(self.parent_ok(j));
    }

    proof fn lemma_c_node_xp(&self, prev: &Self, z: int, s: usize, j: int)
        requires
            prev.links_ok(),
            prev.successor_of(z, s),
            self.spliced_c(prev, z, s),
            self.occ(j),
            Some(j as usize) == prev.nd(z).parent,
        ensures
            self.node_ok(j),
    {
        let zl = prev.nd(z).left.unwrap();
        let zr = prev.nd(z).right.unwrap();
        let xp = prev.nd(z).parent;
        let sp = prev.nd(s as int).parent.unwrap();
        let sr = prev.nd(s as int).right;
        let rz = prev.rk(z);
        let rs = prev.rk(s as int);
        prev.lemma_successor_facts(z, s);
        assert(prev.occ(j));
        assert(j != z);
        assert(prev.node_ok(j));
        assert(prev.parent_ok(j));
        assert(self.rk(j) == prev.rk(j));
        let pj = prev.nd(j);
        assert(self.iv(j) == prev.iv(j));
        assert(within(self.iv(j), self.rk(j)));
        let zside = if pj.left == Some(z as usize) { Branch::Left } else { Branch::Right };
        let other = if pj.left == Some(z as usize) { Branch::Right } else { Branch::Left };
        assert(self.link_spec(j, zside) == Some(s));
        assert(self.side_iv(j, zside) == prev.iv(z));
        assert(self.child_ok(j, self.link_spec(j, zside), self.side_iv(j, zside)));
        if let Some(d) = prev.link_spec(j, other) {
            assert(prev.child_ok(j, prev.link_spec(j, other), prev.side_iv(j, other))) by {
                match other {
                    Branch::Left => {},
                    Branch::Right => {},
                }
            }
            assert(prev.node_ok(d as int));
            assert(!within(prev.iv(z), prev.rk(d as int))) by {
                assert(within(prev.side_iv(j, other), prev.rk(d as int)));
            }
            assert(d as int != z);
            assert(d != s);
            assert(d != zl && d != zr);
            assert(Some(d) != sr);
            assert(d != sp);
            assert(Some(d) != xp);
            assert(self.occ(d as int));
            assert(self.nd(d as int).parent == prev.nd(d as int).parent);
        }
        self.lemma_c_same_child(prev, z, s, j, other);
        assert(self.child_ok(j, self.link_spec(j, Branch::Left), self.side_iv(j, Branch::Left)));
        assert(self.child_ok(j, self.link_spec(j, Branch::Right), self.side_iv(j, Branch::Right)));
        match pj.parent {
            None => {},
            Some(q) => {
                assert(prev.occ(q as int));
                assert(prev.node_ok(q as int));
                assert(!within(prev.iv(j), prev.rk(q as int)));
                assert(!within(prev.iv(z), prev.rk(q as int)));
                assert(q as int != z);
                assert(q != s && q != zl && q != zr && Some(q) != sr && q != sp);
                assert(Some(q) != xp);
                assert(self.occ(q as int));
                assert(self.nd(q as int).left == prev.nd(q as int).left);
                assert(self.nd(q as int).right == prev.nd(q as int).right);
            },
        }
        assert(self.parent_ok(j));
    }

    proof fn lemma_c_node_other(&self, prev: &Self, z: int, s: usize, j: int)
        requires
            prev.links_ok(),
            prev.successor_of(z, s),
            self.spliced_c(prev, z, s),
            self.occ(j),
            j != s as int,
            !(s != prev.nd(z).right.unwrap() && j == prev.nd(s as int).parent.unwrap() as int),
            !(s != prev.nd(z).right.unwrap() && j == prev.nd(z).right.unwrap() as int),
            j != prev.nd(z).left.unwrap() as int,
            Some(j as usize) != prev.nd(s as int).right,
            Some(j as usize) != prev.nd(z).parent,
        ensures
            self.node_ok(j),
    {
        let zl = prev.nd(z).left.unwrap();
        let zr = prev.nd(z).right.unwrap();
        let xp = prev.nd(z).parent;
        let sp = prev.nd(s as int).parent.unwrap();
        let sr = prev.nd(s as int).right;
        let rz = prev.rk(z);
        let rs = prev.rk(s as int);
        prev.lemma_successor_facts(z, s);
        assert(prev.occ(j));
        assert(j != z);
        assert(prev.node_ok(j));
        assert(prev.parent_ok(j));
        assert(self.rk(j) == prev.rk(j));
        let pj = prev.nd(j);
        if prev.iv(j).0 == Some(rz) {
            assert(rs < prev.rk(j));
        }
        if prev.iv(j).1 == Some(rz) {
            assert(prev.rk(j) < rz);
        }
        assert(within(self.iv(j), self.rk(j)));
        assert(self.nd(j).left == pj.left && self.nd(j).right == pj.right && self.nd(j).parent == pj.parent);
        assert forall|sd: Branch| true implies #[trigger] self.child_ok(j, self.link_spec(j, sd), self.side_iv(j, sd)) by {
            if let Some(d) = prev.link_spec(j, sd) {
                assert(prev.child_ok(j, prev.link_spec(j, sd), prev.side_iv(j, sd))) by {
                    match sd {
                        Branch::Left => {},
                        Branch::Right => {},
                    }
                }
                assert(prev.node_ok(d as int));
                assert(d as int != z);
                assert(d != s);
                assert(d != zl && d != zr);
                assert(Some(d) != sr);
                assert(self.occ(d as int));
                assert(self.nd(d as int).parent == prev.nd(d as int).parent) by {
                    if Some(d) == xp {
                    } else if d == sp {
                    } else {
                    }
                }
            }
            self.lemma_c_same_child(prev, z, s, j, sd);
        }
        assert(self.child_ok(j, self.link_spec(j, Branch::Left), self.side_iv(j, Branch::Left)));
        assert(self.child_ok(j, self.link_spec(j, Branch::Right), self.side_iv(j, Branch::Right)));
        assert(prev.node_ok(z));
        assert(prev.parent_ok(z));
        match pj.parent {
            None => {
                assert(prev.root == Some(j as usize));
                assert(xp is Some) by {
                    if xp is None {
                        assert(prev.root == Some(z as usize));
                    }
                }
            },
            Some(q) => {
                assert(q as int != z);
                assert(self.occ(q as int));
                assert(q != s) by {
                    if q == s {
                        assert(prev.nd(s as int).left is None);
                    }
                }
            },
        }
        assert(self.parent_ok(j));
    }

    proof fn lemma_spliced_c_node(&self, prev: &Self, z: int, s: usize, j: int)
        requires
            prev.links_ok(),
            prev.successor_of(z, s),
            self.spliced_c(prev, z, s),
            self.occ(j),
        ensures
            self.node_ok(j),
    {
        let zl = prev.nd(z).left.unwrap();
        let zr = prev.nd(z).right.unwrap();
        let xp = prev.nd(z).parent;
        let sp = prev.nd(s as int).parent.unwrap();
        let sr = prev.nd(s as int).right;
        prev.lemma_successor_facts(z, s);
        if j == s as int {
            self.lemma_c_node_s(prev, z, s, j);
        } else if s != zr && j == sp as int {
            self.lemma_c_node_sp(prev, z, s, j);
        } else if s != zr && j == zr as int {
            self.lemma_c_node_zr(prev, z, s, j);
        } else if j == zl as int {
            self.lemma_c_node_zl(prev, z, s, j);
        } else if Some(j as usize) == sr {
            self.lemma_c_node_sr(prev, z, s, j);
        } else if Some(j as usize) == xp {
            self.lemma_c_node_xp(prev, z, s, j);
        } else {
            self.lemma_c_node_other(prev, z, s, j);
        }
    }

    proof fn lemma_spliced_c_links(&self, prev: &Self, z: int, s: usize)
        requires
            prev.links_ok(),
            prev.successor_of(z, s),
            self.spliced_c(prev, z, s),
            self.slots@.len() <= usize::MAX,
        ensures
            self.links_ok(),
    {
        assert forall|j: int| self.occ(j) implies #[trigger] self.node_ok(j) by {
            self.lemma_spliced_c_node(prev, z, s, j);
        }
        assert forall|i: int, j: int|
            #![trigger self.rk(i), self.rk(j)]
            self.occ(i) && self.occ(j) && self.rk(i) == self.rk(j) implies i == j by {
            assert(prev.occ(i) && prev.occ(j));
            assert(self.rk(i) == prev.rk(i));
            assert(self.rk(j) == prev.rk(j));
        }
        prev.lemma_successor_facts(z, s);
        assert(prev.root_ok());
        assert(prev.node_ok(z));
        assert(prev.parent_ok(z));
        match prev.nd(z).parent {
            None => {
                assert(prev.root == Some(z as usize));
            },
            Some(p) => {
                let r = prev.root.unwrap();
                assert(r as int != z);
                assert(self.occ(r as int));
                assert(prev.nd(r as int).parent is None);
                let zl = prev.nd(z).left.unwrap();
                let zr = prev.nd(z).right.unwrap();
                assert(r != s && r != zl && r != zr);
                if let Some(sr) = prev.nd(s as int).right {
                    assert(r != sr);
                }
                assert(r != prev.nd(s as int).parent.unwrap());
                assert(self.iv(r as int) == Self::swap_ends(prev.iv(r as int), prev.rk(z), prev.rk(s as int)));
            },
        }
        assert(self.root_ok());
    }

    /// Empties slot `z` and puts it on the free list; the slot's generation
    /// moves on, so that handles to the node it held die.
    fn release_slot(&mut self, z: usize) -> (n: Node<K, V>)
        requires
            old(self).occ(z as int),
        ensures
            final(self).slots@.len() == old(self).slots@.len(),
            final(self).slots@[z as int].node is None,
            forall|j: int| 0 <= j < final(self).slots@.len() && j != z ==> #[trigger] final(self).slots@[j] == old(self).slots@[j],
            final(self).free@ == old(self).free@.push(z),
            final(self).root == old(self).root,
            final(self).len == old(self).len,
            final(self).bounds == old(self).bounds,
            final(self).black_heights == old(self).black_heights,
            n == old(self).nd(z as int),
    {
        let n = self.slots[z].node.take().unwrap();
        let generation = self.slots[z].generation.wrapping_add(1);
        self.slots[z].generation = generation;
        self.free.push(z);
        n
    }

    /// After slot `z` was emptied and nothing else changed in occupancy,
    /// keys or values, the map lost `z`'s key.
    proof fn lemma_view_remove(&self, prev: &Self, z: int)
        requires
            prev.links_ok(),
            self.links_ok(),
            prev.occ(z),
            forall|j: int| #[trigger] self.occ(j) == (prev.occ(j) && j != z),
            forall|j: int|
                #[trigger] self.occ(j) ==> self.nd(j).key == prev.nd(j).key && self.nd(j).value == prev.nd(j).value,
        ensures
            self@ == prev@.remove(prev.nd(z).key),
    {
        let key = prev.nd(z).key;
        prev.lemma_view_entry(z);
        assert forall|k: K| #[trigger] self@.contains_key(k) == prev@.remove(key).contains_key(k) by {
            if self@.contains_key(k) {
                let i = choose|i: int| self.occ(i) && #[trigger] self.nd(i).key == k;
                assert(prev.occ(i) && prev.nd(i).key == k);
                if k == key {
                    assert(prev.rk(i) == prev.rk(z));
                }
            }
            if prev@.contains_key(k) && k != key {
                let i = choose|i: int| prev.occ(i) && #[trigger] prev.nd(i).key == k;
                assert(i != z);
                assert(self.occ(i));
                assert(self.nd(i).key == k);
            }
        }
        assert forall|k: K| #[trigger] self@.contains_key(k) implies self@[k] == prev@.remove(key)[k] by {
            let i = choose|i: int| self.occ(i) && #[trigger] self.nd(i).key == k;
            assert(prev.occ(i) && prev.nd(i).key == k);
            self.lemma_view_entry(i);
            prev.lemma_view_entry(i);
        }
        assert(self@ =~= prev@.remove(key));
    }

    /// The bookkeeping after slot `z` was emptied: the free list, the count,
    /// the map and the handles.
    proof fn lemma_released(&self, prev: &Self, z: int)
        requires
            prev.wf(),
            self.links_ok(),
            prev.occ(z),
            self.slots@.len() == prev.slots@.len(),
            self.free@ == prev.free@.push(z as usize),
            self.len == prev.len - 1,
            forall|j: int| #[trigger] self.occ(j) == (prev.occ(j) && j != z),
            forall|j: int|
                #[trigger] self.occ(j) ==> self.nd(j).key == prev.nd(j).key && self.nd(j).value == prev.nd(j).value,
            forall|j: int|
                0 <= j < self.slots@.len() && j != z ==> (#[trigger] self.slots@[j]).generation
                    == prev.slots@[j].generation,
        ensures
            self.free_ok(),
            self.len == self.occupied().len(),
            self@ == prev@.remove(prev.nd(z).key),
            forall|h: ArenaIndex|
                prev.valid_handle(h) && h.index != z ==> #[trigger] self.valid_handle(h) && self.handle_key(h)
                    == prev.handle_key(h),
            forall|h: ArenaIndex| h.index == z ==> !#[trigger] self.valid_handle(h),
    {
        assert(!prev.free@.contains(z as usize)) by {
            if prev.free@.contains(z as usize) {
                let t = choose|t: int| 0 <= t < prev.free@.len() && prev.free@[t] == z as usize;
                assert(!prev.occ(prev.free@[t] as int));
            }
        }
        assert(self.free@.no_duplicates()) by {
            assert forall|a: int, b: int| 0 <= a < b < self.free@.len() implies self.free@[a] != self.free@[b] by {
                if b == self.free@.len() - 1 {
                    assert(self.free@[a] == prev.free@[a]);
                } else {
                    assert(prev.free@.no_duplicates());
                }
            }
        }
        assert forall|t: int| 0 <= t < self.free@.len() implies #[trigger] self.free@[t] < self.slots@.len()
            && !self.occ(self.free@[t] as int) by {
            if t < prev.free@.len() {
                assert(self.free@[t] == prev.free@[t]);
                assert(!prev.occ(prev.free@[t] as int));
            }
        }
        assert forall|i: int| 0 <= i < self.slots@.len() && !#[trigger] self.occ(i) implies self.free@.contains(i as usize) by {
            if i == z {
                assert(self.free@[self.free@.len() - 1] == z as usize);
            } else {
                assert(!prev.occ(i));
                assert(prev.free@.contains(i as usize));
                let t = choose|t: int| 0 <= t < prev.free@.len() && prev.free@[t] == i as usize;
                assert(self.free@[t] == i as usize);
            }
        }
        prev.lemma_occupied_finite();
        assert(self.occupied() =~= prev.occupied().remove(z));
        self.lemma_view_remove(prev, z);
    }

    /// Bounds after removing `z`, which has no left child.
    closed spec fn bounds_without_a(prev: &Self, z: int) -> spec_fn(int) -> Bounds {
        let rz = prev.rk(z);
        let lz = prev.iv(z).0;
        let ob = prev.bounds@;
        |j: int| if ob(j).0 == Some(rz) { (lz, ob(j).1) } else { ob(j) }
    }

    /// Bounds after removing `z`, which has no right child.
    closed spec fn bounds_without_b(prev: &Self, z: int) -> spec_fn(int) -> Bounds {
        let rz = prev.rk(z);
        let hz = prev.iv(z).1;
        let ob = prev.bounds@;
        |j: int| if ob(j).1 == Some(rz) { (ob(j).0, hz) } else { ob(j) }
    }

    /// Bounds after removing `z` with its successor `s` taking its place.
    closed spec fn bounds_without_c(prev: &Self, z: int, s: usize) -> spec_fn(int) -> Bounds {
        let rz = prev.rk(z);
        let rs = prev.rk(s as int);
        let ivz = prev.iv(z);
        let ob = prev.bounds@;
        |j: int| if j == s as int { ivz } else { Self::swap_ends(ob(j), rz, rs) }
    }

    /// A child is not its own grandparent.
    proof fn lemma_not_grandparent(&self, i: usize, c: usize)
        requires
            self.links_ok(),
            self.occ(i as int),
            self.nd(i as int).left == Some(c) || self.nd(i as int).right == Some(c),
        ensures
            self.nd(i as int).parent != Some(c),
            c != i,
    {
        self.lemma_child_fewer(i as int, c);
        if self.nd(i as int).parent == Some(c) {
            assert(self.node_ok(i as int));
            assert(self.parent_ok(i as int));
            self.lemma_child_fewer(c as int, i);
        }
    }

    /// A node whose links and color stay, among nodes whose colors and black
    /// heights stay, keeps the rules of a tree in which `x`, not its child,
    /// is black.
    proof fn lemma_rb_black_at_same_links(&self, t: &Self, j: int, x: usize)
        requires
            t.links_ok(),
            t.occ(j),
            t.node_rb(j, None),
            self.nd(j).left == t.nd(j).left,
            self.nd(j).right == t.nd(j).right,
            self.nd(j).color == t.nd(j).color,
            self.bhv(j) == t.bhv(j),
            t.nd(j).left != Some(x),
            t.nd(j).right != Some(x),
            t.nd(j).left matches Some(c) ==> self.nd(c as int).color == t.nd(c as int).color && self.bhv(c as int) == t.bhv(c as int),
            t.nd(j).right matches Some(c) ==> self.nd(c as int).color == t.nd(c as int).color && self.bhv(c as int) == t.bhv(c as int),
        ensures
            self.node_rb_black_at(j, x),
    {
    }

    /// In a red-black tree, a node with at most one child is either a red
    /// leaf or a black node whose only child, if any, is a red leaf.
    proof fn lemma_one_child_shape(&self, z: int)
        requires
            self.links_ok(),
            self.balanced(),
            self.occ(z),
            self.nd(z).left is None || self.nd(z).right is None,
        ensures
            self.bhv(z) == 0,
            self.nd(z).color == Color::Red ==> self.nd(z).left is None && self.nd(z).right is None,
            self.nd(z).left matches Some(c) ==> self.occ(c as int) && self.nd(c as int).color == Color::Red
                && self.bhv(c as int) == 0 && self.nd(c as int).left is None && self.nd(c as int).right is None,
            self.nd(z).right matches Some(c) ==> self.occ(c as int) && self.nd(c as int).color == Color::Red
                && self.bhv(c as int) == 0 && self.nd(c as int).left is None && self.nd(c as int).right is None,
    {
        assert(self.node_rb(z, None));
        assert(self.node_ok(z));
        let l = self.nd(z).left;
        let r = self.nd(z).right;
        if let Some(c) = l {
            assert(self.child_ok(z, l, self.left_iv(z)));
            self.lemma_leaf_under_zero(c as int);
        }
        if let Some(c) = r {
            assert(self.child_ok(z, r, self.right_iv(z)));
            self.lemma_leaf_under_zero(c as int);
        }
    }

    /// A node of a red-black tree seen at black height zero from above is a
    /// red leaf.
    proof fn lemma_leaf_under_zero(&self, c: int)
        requires
            self.links_ok(),
            self.balanced(),
            self.occ(c),
        ensures
            self.cbh(Some(c as usize)) == 0 ==> self.nd(c).color == Color::Red && self.bhv(c) == 0 && self.nd(c).left is None
                && self.nd(c).right is None,
    {
        self.lemma_subtree_size(c);
        assert(self.node_rb(c, None));
        assert(self.node_ok(c));
        let l = self.nd(c).left;
        let r = self.nd(c).right;
        if let Some(d) = l {
            assert(self.child_ok(c, l, self.left_iv(c)));
            self.lemma_subtree_size(d as int);
        }
        if let Some(d) = r {
            assert(self.child_ok(c, r, self.right_iv(c)));
            self.lemma_subtree_size(d as int);
        }
    }

    /// Unlinking a node with at most one child from a red-black tree: a red
    /// leaf leaves a red-black tree, a black node with a child leaves one
    /// that is red-black once the child, a red leaf, is painted black.
    proof fn lemma_detach_one_rb(&self, t0: &Self, z: int)
        requires
            t0.links_ok(),
            t0.balanced(),
            t0.occ(z),
            t0.nd(z).left is None || t0.nd(z).right is None,
            self.links_ok(),
            self.black_heights == t0.black_heights,
            t0.nd(z).left is None ==> self.spliced_a(t0, z),
            t0.nd(z).left is Some ==> self.spliced_b(t0, z),
        ensures
            t0.nd(z).color == Color::Red ==> self.balanced(),
            ({
                let c = if t0.nd(z).left is None { t0.nd(z).right } else { t0.nd(z).left };
                t0.nd(z).color == Color::Black && c is Some ==> self.rb_black_at(c.unwrap()) && self.nd(
                    c.unwrap() as int,
                ).color == Color::Red
            }),
            ({
                let c = if t0.nd(z).left is None { t0.nd(z).right } else { t0.nd(z).left };
                t0.nd(z).color == Color::Black && c is None ==> self.rb_hole(
                    t0.nd(z).parent,
                    t0.up_side(z as usize),
                    None,
                )
            }),
    {
        let c = if t0.nd(z).left is None { t0.nd(z).right } else { t0.nd(z).left };
        let xp = t0.nd(z).parent;
        let side = t0.up_side(z as usize);
        t0.lemma_one_child_shape(z);
        assert(t0.node_ok(z));
        assert(t0.parent_ok(z));
        if let Some(ci) = c {
            assert(t0.occ(ci as int));
            assert(self.occ(ci as int));
            if t0.nd(z).left is None {
                assert(t0.child_ok(z, t0.nd(z).right, t0.right_iv(z)));
            } else {
                assert(t0.child_ok(z, t0.nd(z).left, t0.left_iv(z)));
            }
            assert(t0.nd(ci as int).parent == Some(z as usize));
        }
        if let Some(p) = xp {
            assert(t0.occ(p as int));
            assert(t0.node_ok(p as int));
            assert(t0.nd(p as int).left == Some(z as usize) || t0.nd(p as int).right == Some(z as usize));
        }
        let red = t0.nd(z).color == Color::Red;
        assert forall|i: int| #![trigger self.occ(i)] self.occ(i) implies (red ==> self.node_rb(i, None)) && (!red && c is Some
            ==> self.node_rb_black_at(i, c.unwrap())) && (!red && c is None ==> self.node_rb_hole(i, xp, side, None)) by {
            assert(t0.occ(i));
            assert(i != z);
            assert(t0.node_rb(i, None));
            assert(t0.node_ok(i));
            let l = t0.nd(i).left;
            let r = t0.nd(i).right;
            if let Some(d) = l {
                assert(t0.child_ok(i, l, t0.left_iv(i)));
            }
            if let Some(d) = r {
                assert(t0.child_ok(i, r, t0.right_iv(i)));
            }
            if xp == Some(i as usize) {
                let other = if t0.nd(i).left == Some(z as usize) { t0.nd(i).right } else { t0.nd(i).left };
                if let Some(d) = other {
                    assert(self.occ(d as int));
                }
                assert(self.cbh(other) == t0.cbh(other));
            } else if c == Some(i as usize) {
            } else {
                assert(l != Some(z as usize) && r != Some(z as usize));
                if let Some(d) = l {
                    assert(self.occ(d as int));
                }
                if let Some(d) = r {
                    assert(self.occ(d as int));
                }
                if red {
                    self.lemma_rb_same_links(t0, i, None, None);
                } else if let Some(ci) = c {
                    assert(l != Some(ci) && r != Some(ci));
                    self.lemma_rb_black_at_same_links(t0, i, ci);
                } else {
                    self.lemma_rb_same_links(t0, i, None, None);
                }
            }
        }
        if red {
            assert forall|i: int| self.occ(i) implies #[trigger] self.node_rb(i, None) by {}
        }
        if !red && c is Some {
            assert forall|i: int| self.occ(i) implies #[trigger] self.node_rb_black_at(i, c.unwrap()) by {}
        }
        if !red && c is None {
            assert forall|i: int| self.occ(i) implies #[trigger] self.node_rb_hole(i, xp, side, None) by {}
        }
    }

    /// Unlinks node `z`, which has at most one child, and empties its slot;
    /// returns the child that took its place, `z`'s color, its node, and the
    /// node and side where the child now hangs.
    fn detach_one(&mut self, z: usize) -> (r: (Option<usize>, Color, Node<K, V>, Option<usize>, Branch))
        requires
            old(self).wf(),
            old(self).occ(z as int),
            old(self).nd(z as int).left is None || old(self).nd(z as int).right is None,
        ensures
            final(self).links_ok(),
            final(self).free_ok(),
            final(self).len == final(self).occupied().len(),
            final(self)@ == old(self)@.remove(old(self).nd(z as int).key),
            r.0 matches Some(c) ==> final(self).occ(c as int),
            final(self).root_black() || final(self).root == r.0,
            r.1 == Color::Red ==> final(self).root_black(),
            r.1 == old(self).nd(z as int).color,
            r.2 == old(self).nd(z as int),
            forall|h: ArenaIndex|
                old(self).valid_handle(h) && h.index != z ==> #[trigger] final(self).valid_handle(h)
                    && final(self).handle_key(h) == old(self).handle_key(h),
            forall|h: ArenaIndex| h.index == z ==> !#[trigger] final(self).valid_handle(h),
            r.0 == (if old(self).nd(z as int).left is None {
                old(self).nd(z as int).right
            } else {
                old(self).nd(z as int).left
            }),
            old(self).balanced() && r.1 == Color::Red ==> final(self).balanced(),
            old(self).balanced() && r.1 == Color::Black ==> final(self).rb_hole(r.3, r.4, r.0),
            final(self).hangs_at(r.0, r.3, r.4),
    {
        let ghost t0 = *self;
        let z_left = self.node(z).left;
        let z_right = self.node(z).right;
        let z_color = self.node(z).color;
        let zp = self.node(z).parent;
        proof {
            assert(t0.node_ok(z as int));
            assert(t0.parent_ok(z as int));
        }
        let zb = match zp {
            Some(p) => self.branch_of_child(p, z),
            None => Branch::Left,
        };
        proof {
            assert(zb == t0.up_side(z));
            assert(t0.node_ok(z as int));
            assert(t0.parent_ok(z as int));
            assert(t0.root_ok());
            if let Some(c) = z_right {
                assert(t0.child_ok(z as int, z_right, t0.right_iv(z as int)));
                t0.lemma_not_grandparent(z, c);
            }
            if let Some(c) = z_left {
                assert(t0.child_ok(z as int, z_left, t0.left_iv(z as int)));
                t0.lemma_not_grandparent(z, c);
            }
        }
        let child = if z_left.is_none() {
            z_right
        } else {
            z_left
        };
        proof {
            t0.lemma_occupied_finite();
            assert(t0.occupied().contains(z as int));
        }
        self.len = self.len - 1;
        self.transplant(z, child);
        let ghost t1 = *self;
        let node = self.release_slot(z);
        proof {
            if z_left.is_none() {
                self.bounds = Ghost(Self::bounds_without_a(&t0, z as int));
            } else {
                self.bounds = Ghost(Self::bounds_without_b(&t0, z as int));
            }
        }
        proof {
            assert forall|j: int| #[trigger] self.occ(j) == (t0.occ(j) && j != z as int) by {
                if j != z as int && 0 <= j < self.slots@.len() {
                    assert(self.slots@[j] == t1.slots@[j]);
                    assert(t1.occ(j) == t0.occ(j));
                }
            }
            assert forall|j: int|
                #[trigger] self.occ(j) implies self.nd(j).key == t0.nd(j).key && self.nd(j).value == t0.nd(j).value
                && self.nd(j).color == t0.nd(j).color by {
                assert(self.slots@[j] == t1.slots@[j]);
                assert(t1.occ(j));
                if Some(j as usize) != child && Some(j as usize) != t0.nd(z as int).parent {
                    assert(t1.slots@[j] == t0.slots@[j]);
                }
            }
            assert forall|j: int| 0 <= j < self.slots@.len() && j != z as int implies (#[trigger] self.slots@[j]).generation
                == t0.slots@[j].generation by {
                assert(self.slots@[j] == t1.slots@[j]);
            }
            if z_left.is_none() {
                assert(self.spliced_a(&t0, z as int));
                self.lemma_spliced_a_links(&t0, z as int);
            } else {
                assert(self.spliced_b(&t0, z as int));
                self.lemma_spliced_b_links(&t0, z as int);
            }
            self.lemma_released(&t0, z as int);
            if t0.balanced() {
                self.lemma_detach_one_rb(&t0, z as int);
            }
            match t0.nd(z as int).parent {
                None => {},
                Some(p) => {
                    let r = t0.root.unwrap();
                    assert(r != z);
                    if Some(r) != child && Some(r) != t0.nd(z as int).parent {
                        assert(self.slots@[r as int] == t0.slots@[r as int]);
                    }
                    assert(self.nd(r as int).color == t0.nd(r as int).color);
                },
            }
            if z_color == Color::Red {
                assert(t0.root != Some(z));
            }
            if let Some(p) = zp {
                assert(self.occ(p as int));
                assert(t0.nd(p as int).left == Some(z) || t0.nd(p as int).right == Some(z));
            }
            if let Some(c) = child {
                assert(self.nd(c as int).parent == zp);
            }
            assert(self.hangs_at(child, zp, zb));
            if t0.balanced() && z_color == Color::Black {
                if let Some(c) = child {
                    self.lemma_black_at_hole(c, zp, zb);
                }
            }
        }
        (child, z_color, node, zp, zb)
    }

    /// Replacing a node with two children of a red-black tree by its
    /// successor `s` (which takes the node's color and black height): a red
    /// successor leaves a red-black tree, a black one with a child leaves one
    /// that is red-black once that child, a red leaf, is painted black.
    #[verifier::spinoff_prover]
    #[verifier::rlimit(80)]
    proof fn lemma_detach_two_rb(&self, t0: &Self, z: int, s: usize)
        requires
            t0.links_ok(),
            t0.balanced(),
            t0.successor_of(z, s),
            self.links_ok(),
            self.spliced_c(t0, z, s),
            forall|j: int| self.occ(j) && j != s ==> #[trigger] self.nd(j).color == t0.nd(j).color,
            self.nd(s as int).color == t0.nd(z).color,
            self.bhv(s as int) == t0.bhv(z),
            forall|j: int| j != s ==> #[trigger] self.bhv(j) == t0.bhv(j),
        ensures
            t0.nd(s as int).color == Color::Red ==> self.balanced(),
            t0.nd(s as int).color == Color::Black && t0.nd(s as int).right is Some ==> self.rb_black_at(
                t0.nd(s as int).right.unwrap(),
            ) && self.nd(t0.nd(s as int).right.unwrap() as int).color == Color::Red,
            t0.nd(s as int).color == Color::Black && t0.nd(s as int).right is None ==> self.rb_hole(
                Some(
                    if t0.nd(s as int).parent == Some(z as usize) {
                        s
                    } else {
                        t0.nd(s as int).parent.unwrap()
                    },
                ),
                if t0.nd(s as int).parent == Some(z as usize) {
                    Branch::Right
                } else {
                    Branch::Left
                },
                None,
            ),
    {
        t0.lemma_successor_facts(z, s);
        let si = s as int;
        let zl = t0.nd(z).left.unwrap();
        let zr = t0.nd(z).right.unwrap();
        let xp = t0.nd(z).parent;
        let sp = t0.nd(si).parent.unwrap();
        let sr = t0.nd(si).right;
        let red = t0.nd(si).color == Color::Red;
        t0.lemma_one_child_shape(si);
        assert(t0.node_rb(z, None));
        assert(t0.node_ok(z));
        assert(t0.parent_ok(z));
        assert(t0.occ(si));
        assert(t0.node_ok(si));
        assert(t0.parent_ok(si));
        assert(t0.node_rb(si, None));
        assert(t0.occ(sp as int));
        assert(t0.node_ok(sp as int));
        assert(t0.node_rb(sp as int, None));
        let k = t0.bhv(z);
        assert(t0.cbh(Some(zr)) == k);
        assert(t0.cbh(Some(zl)) == k);
        if s != zr {
            assert(t0.cbh(Some(s)) == t0.bhv(sp as int));
        }
        if let Some(x) = sr {
            assert(self.occ(x as int));
            assert(self.nd(x as int).color == t0.nd(x as int).color);
        }
        if let Some(p) = xp {
            assert(t0.occ(p as int));
            assert(t0.node_ok(p as int));
            assert(t0.node_rb(p as int, None));
            assert(self.occ(p as int));
        }
        assert(self.occ(zl as int) && self.occ(zr as int) && self.occ(si));
        assert(self.nd(zl as int).color == t0.nd(zl as int).color);
        assert(self.nd(zr as int).color == t0.nd(zr as int).color || zr == s);
        let hp = if s == zr { s } else { sp };
        let hb = if s == zr { Branch::Right } else { Branch::Left };
        assert forall|i: int| #![trigger self.occ(i)] self.occ(i) implies (red ==> self.node_rb(i, None)) && (!red
            && sr is Some ==> self.node_rb_black_at(i, sr.unwrap())) && (!red && sr is None ==> self.node_rb_hole(
            i,
            Some(hp),
            hb,
            None,
        )) by {
            assert(t0.occ(i));
            assert(i != z);
            assert(t0.node_rb(i, None));
            assert(t0.node_ok(i));
            let l = t0.nd(i).left;
            let r = t0.nd(i).right;
            if let Some(d) = l {
                assert(t0.child_ok(i, l, t0.left_iv(i)));
            }
            if let Some(d) = r {
                assert(t0.child_ok(i, r, t0.right_iv(i)));
            }
            if i == si {
                if s != zr {
                    assert(self.cbh(Some(zr)) == k);
                }
                assert(self.cbh(Some(zl)) == k);
            } else if xp == Some(i as usize) {
                let other = if t0.nd(i).left == Some(z as usize) { t0.nd(i).right } else { t0.nd(i).left };
                if let Some(d) = other {
                    assert(self.occ(d as int));
                    assert(d != s);
                }
                assert(self.cbh(other) == t0.cbh(other));
                assert(self.cbh(Some(s)) == t0.cbh(Some(z as usize)));
            } else if i == sp as int && s != zr {
                let other = t0.nd(i).right;
                if let Some(d) = other {
                    assert(self.occ(d as int));
                    assert(d != s);
                }
                assert(self.cbh(other) == t0.cbh(other));
            } else if sr == Some(i as usize) {
                assert(self.nd(i).left == t0.nd(i).left);
                assert(self.nd(i).right == t0.nd(i).right);
            } else {
                assert(self.nd(i).left == t0.nd(i).left);
                assert(self.nd(i).right == t0.nd(i).right);
                assert(l != Some(z as usize) && r != Some(z as usize));
                assert(l != Some(s) && r != Some(s));
                if let Some(d) = l {
                    assert(self.occ(d as int));
                }
                if let Some(d) = r {
                    assert(self.occ(d as int));
                }
                if red {
                    self.lemma_rb_same_links(t0, i, None, None);
                } else if let Some(x) = sr {
                    assert(l != Some(x) && r != Some(x));
                    self.lemma_rb_black_at_same_links(t0, i, x);
                } else {
                    self.lemma_rb_same_links(t0, i, None, None);
                }
            }
        }
        if red {
            assert forall|i: int| self.occ(i) implies #[trigger] self.node_rb(i, None) by {}
        }
        if !red && sr is Some {
            assert forall|i: int| self.occ(i) implies #[trigger] self.node_rb_black_at(i, sr.unwrap()) by {}
        }
        if !red && sr is None {
            assert(s == zr <==> t0.nd(si).parent == Some(z as usize));
            assert forall|i: int| self.occ(i) implies #[trigger] self.node_rb_hole(i, Some(hp), hb, None) by {}
        }
    }

    /// Unlinks node `z`, which has two children, by moving its successor into
    /// its place, and empties its slot; returns the successor's old right
    /// child, the successor's old color and `z`'s node.
    #[verifier::spinoff_prover]
    #[verifier::rlimit(100)]
    fn detach_two(&mut self, z: usize) -> (r: (Option<usize>, Color, Node<K, V>, Option<usize>, Branch))
        requires
            old(self).wf(),
            old(self).occ(z as int),
            old(self).nd(z as int).left is Some,
            old(self).nd(z as int).right is Some,
        ensures
            final(self).links_ok(),
            final(self).free_ok(),
            final(self).len == final(self).occupied().len(),
            final(self)@ == old(self)@.remove(old(self).nd(z as int).key),
            r.0 matches Some(c) ==> final(self).occ(c as int),
            final(self).root_black(),
            r.2 == old(self).nd(z as int),
            forall|h: ArenaIndex|
                old(self).valid_handle(h) && h.index != z ==> #[trigger] final(self).valid_handle(h)
                    && final(self).handle_key(h) == old(self).handle_key(h),
            forall|h: ArenaIndex| h.index == z ==> !#[trigger] final(self).valid_handle(h),
            exists|s: usize| #[trigger]
                old(self).successor_of(z as int, s) && r.1 == old(self).nd(s as int).color && r.0 == old(
                    self,
                ).nd(s as int).right,
            old(self).balanced() && r.1 == Color::Red ==> final(self).balanced(),
            old(self).balanced() && r.1 == Color::Black ==> final(self).rb_hole(r.3, r.4, r.0),
            final(self).hangs_at(r.0, r.3, r.4),
    {
        let ghost t0 = *self;
        proof {
            assert(t0.node_ok(z as int));
            assert(t0.child_ok(z as int, t0.nd(z as int).right, t0.right_iv(z as int)));
            assert(t0.child_ok(z as int, t0.nd(z as int).left, t0.left_iv(z as int)));
            t0.lemma_occupied_finite();
            assert(t0.occupied().contains(z as int));
        }
        let zr = self.node(z).right.unwrap();
        let s = self.subtree_min(zr);
        proof {
            assert(t0.successor_of(z as int, s));
            t0.lemma_successor_facts(z as int, s);
            assert(t0.parent_ok(z as int));
            assert(t0.root_ok());
        }
        let s_color = self.node(s).color;
        let sr = self.node(s).right;
        let zl = self.node(z).left.unwrap();
        let z_color = self.node(z).color;
        let ghost xp = t0.nd(z as int).parent;
        let ghost sp = t0.nd(s as int).parent.unwrap();
        let (hole_parent, hole_side) = if self.node(s).parent == Some(z) {
            (s, Branch::Right)
        } else {
            (self.node(s).parent.unwrap(), Branch::Left)
        };
        self.len = self.len - 1;
        if self.node(s).parent == Some(z) {
            if let Some(r) = sr {
                self.set_parent(r, Some(s));
            }
        } else {
            self.transplant(s, sr);
            self.set_right(s, Some(zr));
            self.set_parent(zr, Some(s));
        }
        let ghost t1 = *self;
        proof {
            // Only `s`, `sp`, `sr` and `zr` changed so far.
            assert(forall|j: int| #[trigger] t1.occ(j) == t0.occ(j));
            assert(t1.nd(z as int) == t0.nd(z as int));
            if let Some(p) = xp {
                assert(t1.nd(p as int) == t0.nd(p as int));
                assert(t1.occ(p as int));
            }
            assert(t1.nd(zl as int) == t0.nd(zl as int));
            assert(t1.nd(s as int).parent == t0.nd(s as int).parent);
        }
        self.transplant(z, Some(s));
        let ghost t2 = *self;
        self.set_left(s, Some(zl));
        let ghost t2a = *self;
        self.set_parent(zl, Some(s));
        let ghost t2b = *self;
        self.set_color(s, z_color);
        let ghost t3 = *self;
        proof {
            assert forall|j: int| #[trigger] t3.occ(j) == t0.occ(j) by {
                assert(t3.occ(j) == t2b.occ(j));
                assert(t2b.occ(j) == t2a.occ(j));
                assert(t2a.occ(j) == t2.occ(j));
                assert(t2.occ(j) == t1.occ(j));
            }
        }
        let node = self.release_slot(z);
        proof {
            self.bounds = Ghost(Self::bounds_without_c(&t0, z as int, s));
            let oh = t0.black_heights@;
            let hz = t0.bhv(z as int);
            self.black_heights = Ghost(|j: int| if j == s as int { hz } else { oh(j) });
        }
        proof {
            assert forall|j: int| #[trigger] self.occ(j) == (t0.occ(j) && j != z as int) by {
                if j != z as int && 0 <= j < self.slots@.len() {
                    assert(self.slots@[j] == t3.slots@[j]);
                    assert(t3.occ(j) == t0.occ(j));
                }
            }
            assert forall|j: int|
                #[trigger] self.occ(j) implies self.nd(j).key == t0.nd(j).key && self.nd(j).value == t0.nd(j).value by {
                assert(self.slots@[j] == t3.slots@[j]);
                assert(t3.occ(j) && t0.occ(j));
            }
            assert forall|j: int| 0 <= j < self.slots@.len() && j != z as int implies (#[trigger] self.slots@[j]).generation
                == t0.slots@[j].generation by {
                assert(self.slots@[j] == t3.slots@[j]);
            }
            assert(self.spliced_c(&t0, z as int, s));
            self.lemma_spliced_c_links(&t0, z as int, s);
            self.lemma_released(&t0, z as int);
            assert forall|j: int| self.occ(j) && j != s implies #[trigger] self.nd(j).color == t0.nd(j).color by {
                assert(self.slots@[j] == t3.slots@[j]);
                assert(t3.occ(j) && t0.occ(j));
            }
            assert(self.nd(s as int).color == z_color) by {
                assert(self.slots@[s as int] == t3.slots@[s as int]);
            }
            if t0.balanced() {
                self.lemma_detach_two_rb(&t0, z as int, s);
            }
            match xp {
                None => {
                    assert(self.root == Some(s));
                    assert(t0.root == Some(z));
                },
                Some(p) => {
                    let r = t0.root.unwrap();
                    assert(r != z);
                    assert(r != s && r != zl && r != zr && r != sp && Some(r) != sr);
                    assert(self.nd(r as int).color == t0.nd(r as int).color);
                },
            }
            assert(self.occ(hole_parent as int));
            if let Some(c) = sr {
                assert(self.nd(c as int).parent == Some(hole_parent));
            }
            assert(self.hangs_at(sr, Some(hole_parent), hole_side));
            if t0.balanced() && s_color == Color::Black {
                if let Some(c) = sr {
                    self.lemma_black_at_hole(c, Some(hole_parent), hole_side);
                }
            }
        }
        (sr, s_color, node, Some(hole_parent), hole_side)
    }

    /// A node's parent lies outside the node's interval, and the parent's
    /// interval holds the node's.
    proof fn lemma_outside_parent(&self, xu: usize, pu: usize)
        requires
            self.links_ok(),
            self.occ(xu as int),
            self.nd(xu as int).parent == Some(pu),
        ensures
            self.outside(self.iv(pu as int)).finite(),
            self.outside(self.iv(xu as int)).finite(),
            self.outside(self.iv(pu as int)).len() < self.outside(self.iv(xu as int)).len(),
    {
        let x = xu as int;
        let p = pu as int;
        assert(self.node_ok(x));
        assert(self.parent_ok(x));
        assert(self.occ(p));
        assert(self.node_ok(p));
        assert(self.iv(x) == self.left_iv(p) || self.iv(x) == self.right_iv(p)) by {
            if self.nd(p).left == Some(xu) {
                assert(self.child_ok(p, self.nd(p).left, self.left_iv(p)));
            } else {
                assert(self.child_ok(p, self.nd(p).right, self.right_iv(p)));
            }
        }
        self.lemma_occupied_finite();
        let big = self.outside(self.iv(x));
        let small = self.outside(self.iv(p));
        assert(big.subset_of(self.occupied()));
        lemma_len_subset(big, self.occupied());
        assert(small.subset_of(self.occupied()));
        lemma_len_subset(small, self.occupied());
        assert forall|i: int| small.contains(i) implies big.remove(p).contains(i) by {
            if within(self.iv(x), self.rk(i)) {
                assert(within(self.iv(p), self.rk(i)));
            }
        }
        assert(big.contains(p));
        lemma_len_subset(small, big.remove(p));
    }

    /// The colors of the children of `sibling` on `branch` and on the other
    /// side; a missing sibling or child counts as black.
    fn nephew_colors(&self, sibling: Option<usize>, branch: Branch) -> (r: (Color, Color))
        requires
            self.links_ok(),
            sibling matches Some(w) ==> self.occ(w as int),
        ensures
            r == (match sibling {
                None => (Color::Black, Color::Black),
                Some(w) => (
                    self.color_spec(self.link_spec(w as int, branch)),
                    self.color_spec(self.link_spec(w as int, branch.opposite_spec())),
                ),
            }),
    {
        match sibling {
            None => (Color::Black, Color::Black),
            Some(w) => {
                proof {
                    assert(self.node_ok(w as int));
                    if let Some(c) = self.nd(w as int).left {
                        assert(self.child_ok(w as int, self.nd(w as int).left, self.left_iv(w as int)));
                    }
                    if let Some(c) = self.nd(w as int).right {
                        assert(self.child_ok(w as int, self.nd(w as int).right, self.right_iv(w as int)));
                    }
                }
                let near = self.link(w, branch);
                let far = self.link(w, branch.opposite());
                (self.color_of(near), self.color_of(far))
            },
        }
    }

    /// The children of a node are nodes.
    proof fn lemma_children_occupied(&self, i: int)
        requires
            self.links_ok(),
            self.occ(i),
        ensures
            self.nd(i).left matches Some(c) ==> self.occ(c as int) && self.nd(c as int).parent == Some(i as usize),
            self.nd(i).right matches Some(c) ==> self.occ(c as int) && self.nd(c as int).parent == Some(i as usize),
            forall|b: Branch| #[trigger] self.link_spec(i, b) matches Some(c) ==> self.occ(c as int),
    {
        assert(self.node_ok(i));
        if let Some(c) = self.nd(i).left {
            assert(self.child_ok(i, self.nd(i).left, self.left_iv(i)));
        }
        if let Some(c) = self.nd(i).right {
            assert(self.child_ok(i, self.nd(i).right, self.right_iv(i)));
        }
    }

    /// The measure of the delete repair: twice the keys outside the interval
    /// of the node above the missing black, one more while the node that
    /// hangs there is black.
    closed spec fn fixup_measure(&self, eb: Option<usize>, ebp: Option<usize>) -> nat {
        match ebp {
            Some(p) => 2 * self.outside(self.iv(p as int)).len() + (if self.color_spec(eb) == Color::Red {
                0nat
            } else {
                1nat
            }),
            None => 0,
        }
    }

    /// Keys outside an interval depend on the keys only.
    proof fn lemma_outside_same_content(&self, t: &Self, b: Bounds)
        requires
            self.same_content(t),
        ensures
            self.outside(b) == t.outside(b),
    {
        self.lemma_same_content_facts(t);
        assert forall|i: int| #[trigger] self.outside(b).contains(i) == t.outside(b).contains(i) by {
            if self.occ(i) {
                assert(self.rk(i) == t.rk(i));
            }
        }
        assert(self.outside(b) =~= t.outside(b));
    }

    /// A red-black tree lacks no black anywhere.
    proof fn lemma_balanced_hole(&self, hb: Branch, hx: Option<usize>)
        requires
            self.balanced(),
        ensures
            self.rb_hole(None, hb, hx),
    {
        assert forall|i: int| self.occ(i) implies #[trigger] self.node_rb_hole(i, None, hb, hx) by {
            assert(self.node_rb(i, None));
        }
    }

    /// The first move of the delete repair when the sibling `w` of the
    /// missing black is red: paint it black and the parent red, and lift it
    /// over the parent.
    #[verifier::spinoff_prover]
    #[verifier::rlimit(60)]
    fn del_lift_red_sibling(&mut self, x: Option<usize>, parent: usize, branch: Branch, w: usize)
        requires
            old(self).links_ok(),
            old(self).root_black(),
            old(self).hangs_at(x, Some(parent), branch),
            old(self).link_spec(parent as int, branch.opposite_spec()) == Some(w),
            old(self).nd(w as int).color == Color::Red,
        ensures
            final(self).links_ok(),
            final(self).same_content(old(self)),
            final(self).root_black(),
            final(self).hangs_at(x, Some(parent), branch),
            final(self).nd(parent as int).color == Color::Red,
            final(self).nd(parent as int).parent == Some(w),
            final(self).iv(w as int) == old(self).iv(parent as int),
            final(self).color_spec(x) == old(self).color_spec(x),
            old(self).rb_hole(Some(parent), branch, x) && old(self).color_spec(x) == Color::Black ==> {
                &&& final(self).rb_hole(Some(parent), branch, x)
                &&& final(self).color_spec(final(self).link_spec(parent as int, branch.opposite_spec()))
                    == Color::Black
            },
    {
        let ghost t0 = *self;
        proof {
            t0.lemma_children_occupied(parent as int);
            t0.lemma_links_distinct(parent as int);
            assert(t0.node_ok(parent as int));
            assert(t0.parent_ok(parent as int));
            assert(t0.root_ok());
            if let Some(xi) = x {
                t0.lemma_not_grandparent(parent, xi);
            }
            t0.lemma_not_grandparent(parent, w);
        }
        self.recolor(w, Color::Black);
        let ghost t1a = *self;
        self.recolor(parent, Color::Red);
        let ghost t1 = *self;
        proof {
            assert(t1.nd(w as int) == t1a.nd(w as int));
            t1.lemma_same_content_facts(&t0);
            assert(t1.link_spec(parent as int, branch.opposite_spec()) == Some(w));
            t1.lemma_same_content_trans(&t1a, &t0);
        }
        self.rotate_in(parent, branch);
        proof {
            self.lemma_same_content_facts(&t1);
            self.lemma_same_content_trans(&t1, &t0);
            self.lemma_rotation_sides(&t1, parent, w, branch.opposite_spec());
            t1.lemma_children_occupied(w as int);
            if let Some(xi) = x {
                assert(Some(xi) != t1.nd(parent as int).parent);
                assert(Some(xi) != t1.link_spec(w as int, branch));
                assert(self.slots@[xi as int] == t1.slots@[xi as int]);
            }
            assert(self.hangs_at(x, Some(parent), branch)) by {
                match branch {
                    Branch::Left => {},
                    Branch::Right => {},
                }
            }
            match t0.nd(parent as int).parent {
                None => {
                    assert(self.root == Some(w));
                },
                Some(q) => {
                    let root = t0.root.unwrap();
                    assert(root != parent && root != w);
                    assert(self.nd(root as int).color == t0.nd(root as int).color);
                },
            }
            if t0.rb_hole(Some(parent), branch, x) && t0.color_spec(x) == Color::Black {
                self.lemma_del_red_sibling(&t1, &t0, x, parent, branch, w);
            }
        }
    }

    /// The delete repair when the sibling of the missing black and both its
    /// children are black (a missing node counts as black): paint the
    /// sibling red, so that the black goes missing above the parent.
    #[verifier::spinoff_prover]
    #[verifier::rlimit(60)]
    fn del_black_nephews(&mut self, x: Option<usize>, parent: usize, branch: Branch, sibling: Option<usize>) -> (r: (
        Option<usize>,
        Option<usize>,
        Branch,
    ))
        requires
            old(self).links_ok(),
            old(self).root_black(),
            old(self).hangs_at(x, Some(parent), branch),
            old(self).link_spec(parent as int, branch.opposite_spec()) == sibling,
            sibling matches Some(w) ==> old(self).color_spec(old(self).nd(w as int).left) == Color::Black
                && old(self).color_spec(old(self).nd(w as int).right) == Color::Black,
        ensures
            final(self).links_ok(),
            final(self).same_content(old(self)),
            final(self).root_black(),
            final(self).hangs_at(r.0, r.1, r.2),
            r.0 == Some(parent),
            r.1 == old(self).nd(parent as int).parent,
            final(self).fixup_measure(r.0, r.1) < 2 * old(self).outside(old(self).iv(parent as int)).len() + 1,
            old(self).nd(parent as int).color == Color::Red && r.1 is Some ==> final(self).fixup_measure(r.0, r.1)
                == 2 * old(self).outside(old(self).iv(r.1.unwrap() as int)).len(),
            old(self).rb_hole(Some(parent), branch, x) && old(self).color_spec(x) == Color::Black
                && old(self).color_spec(sibling) == Color::Black ==> final(self).rb_hole(r.1, r.2, r.0),
    {
        let ghost t2 = *self;
        proof {
            t2.lemma_children_occupied(parent as int);
            t2.lemma_links_distinct(parent as int);
            assert(t2.node_ok(parent as int));
            assert(t2.parent_ok(parent as int));
            assert(t2.root_ok());
        }
        if let Some(w) = sibling {
            self.recolor(w, Color::Red);
            proof {
                self.lemma_same_content_facts(&t2);
                let root = t2.root.unwrap();
                assert(root != w) by {
                    assert(t2.nd(w as int).parent == Some(parent));
                }
                assert(w != parent);
            }
        }
        let ghost t3 = *self;
        proof {
            let oh = t2.black_heights@;
            let pi = parent as int;
            self.black_heights = Ghost(|j: int| if j == pi { oh(j) - 1 } else { oh(j) });
            self.lemma_heights_only(&t3);
            assert(self.nd(parent as int) == t2.nd(parent as int));
            if t2.rb_hole(Some(parent), branch, x) && t2.color_spec(x) == Color::Black && t2.color_spec(sibling)
                == Color::Black {
                t2.lemma_hole_sibling(x, parent, branch);
                let w = sibling.unwrap();
                self.lemma_del_black_nephews(&t2, x, parent, branch, w);
            }
        }
        let pp = self.node(parent).parent;
        let pb = match pp {
            Some(g) => {
                proof {
                    assert(self.node_ok(parent as int));
                    assert(self.parent_ok(parent as int));
                }
                self.branch_of_child(g, parent)
            },
            None => Branch::Left,
        };
        proof {
            assert(self.node_ok(parent as int));
            assert(self.parent_ok(parent as int));
            assert(pb == t2.up_side(parent));
            if let Some(g) = pp {
                t2.lemma_outside_parent(parent, g);
                self.lemma_outside_same_content(&t2, t2.iv(g as int));
                assert(self.iv(g as int) == t2.iv(g as int));
            }
            assert(self.hangs_at(Some(parent), pp, pb));
        }
        (Some(parent), pp, pb)
    }

    /// The delete repair when the sibling `w` of the missing black has a red
    /// child on the near side and a black one on the far side: paint the
    /// near child black and `w` red, and lift the near child over `w`.
    #[verifier::spinoff_prover]
    #[verifier::rlimit(60)]
    fn del_near_red(&mut self, x: Option<usize>, parent: usize, branch: Branch, w: usize)
        requires
            old(self).links_ok(),
            old(self).root_black(),
            old(self).hangs_at(x, Some(parent), branch),
            old(self).link_spec(parent as int, branch.opposite_spec()) == Some(w),
            old(self).color_spec(old(self).link_spec(w as int, branch)) == Color::Red,
        ensures
            final(self).links_ok(),
            final(self).same_content(old(self)),
            final(self).root_black(),
            final(self).hangs_at(x, Some(parent), branch),
            final(self).link_spec(parent as int, branch.opposite_spec()) is Some,
            final(self).color_spec(x) == old(self).color_spec(x),
            old(self).rb_hole(Some(parent), branch, x) && old(self).color_spec(x) == Color::Black && old(self).nd(
                w as int,
            ).color == Color::Black && old(self).color_spec(old(self).link_spec(w as int, branch.opposite_spec()))
                == Color::Black ==> {
                let s = final(self).link_spec(parent as int, branch.opposite_spec()).unwrap();
                &&& final(self).rb_hole(Some(parent), branch, x)
                &&& final(self).nd(s as int).color == Color::Black
                &&& final(self).color_spec(final(self).link_spec(s as int, branch.opposite_spec())) == Color::Red
            },
    {
        let ghost t3 = *self;
        proof {
            t3.lemma_children_occupied(parent as int);
            t3.lemma_children_occupied(w as int);
            t3.lemma_links_distinct(w as int);
            assert(t3.root_ok());
            assert(t3.node_ok(w as int));
            assert(t3.parent_ok(w as int));
        }
        let n = self.link(w, branch).unwrap();
        proof {
            t3.lemma_not_grandparent(w, n);
            t3.lemma_not_grandparent(parent, w);
            t3.lemma_links_distinct(parent as int);
            t3.lemma_links_distinct(n as int);
            if let Some(xi) = x {
                t3.lemma_not_grandparent(parent, xi);
                assert(xi != w);
                assert(xi != n);
                if let Some(c) = t3.link_spec(n as int, branch.opposite_spec()) {
                    assert(t3.nd(c as int).parent == Some(n));
                    assert(xi != c);
                }
            }
        }
        self.recolor(n, Color::Black);
        let ghost t3a = *self;
        self.recolor(w, Color::Red);
        let ghost t4 = *self;
        proof {
            t4.lemma_same_content_facts(&t3);
            t4.lemma_same_content_trans(&t3a, &t3);
            assert(t4.link_spec(w as int, branch) == Some(n));
            assert(t4.nd(n as int) == (Node { color: Color::Black, ..t3.nd(n as int) }));
        }
        self.rotate_out(w, branch);
        proof {
            self.lemma_same_content_facts(&t4);
            self.lemma_same_content_trans(&t4, &t3);
            self.lemma_rotation_sides(&t4, w, n, branch);
            assert(t4.nd(w as int).parent == Some(parent));
            assert(t4.link_spec(parent as int, branch.opposite_spec()) == Some(w));
            t4.lemma_links_distinct(parent as int);
            assert(self.link_spec(parent as int, branch.opposite_spec()) == Some(n)) by {
                match branch {
                    Branch::Left => {},
                    Branch::Right => {},
                }
            }
            if let Some(xi) = x {
                assert(Some(xi) != t4.link_spec(n as int, branch.opposite_spec()));
                assert(self.slots@[xi as int] == t4.slots@[xi as int]);
                assert(t4.slots@[xi as int] == t3.slots@[xi as int]);
            }
            assert(self.hangs_at(x, Some(parent), branch)) by {
                match branch {
                    Branch::Left => {},
                    Branch::Right => {},
                }
            }
            let root = t3.root.unwrap();
            assert(root != w && root != n);
            assert(self.nd(root as int).color == t3.nd(root as int).color);
            if t3.rb_hole(Some(parent), branch, x) && t3.color_spec(x) == Color::Black && t3.nd(w as int).color
                == Color::Black && t3.color_spec(t3.link_spec(w as int, branch.opposite_spec())) == Color::Black {
                self.lemma_del_near_red(&t4, &t3, x, parent, branch, w, n);
            }
        }
    }

    /// The last move of the delete repair, when the sibling `w` of the
    /// missing black has a red child on the far side: `w` takes the
    /// parent's color, the parent and that child turn black, and `w` is
    /// lifted over the parent.
    #[verifier::spinoff_prover]
    #[verifier::rlimit(60)]
    fn del_far_red(&mut self, x: Option<usize>, parent: usize, branch: Branch, w: usize)
        requires
            old(self).links_ok(),
            old(self).hangs_at(x, Some(parent), branch),
            old(self).link_spec(parent as int, branch.opposite_spec()) == Some(w),
        ensures
            final(self).links_ok(),
            final(self).same_content(old(self)),
            final(self).hangs_at(final(self).root, None, Branch::Left),
            old(self).rb_hole(Some(parent), branch, x) && old(self).color_spec(x) == Color::Black && old(self).nd(
                w as int,
            ).color == Color::Black && old(self).color_spec(old(self).link_spec(w as int, branch.opposite_spec()))
                == Color::Red ==> final(self).balanced(),
    {
        let ghost t5 = *self;
        let ghost hole = t5.rb_hole(Some(parent), branch, x) && t5.color_spec(x) == Color::Black && t5.nd(
            w as int,
        ).color == Color::Black && t5.color_spec(t5.link_spec(w as int, branch.opposite_spec())) == Color::Red;
        let ob = branch.opposite();
        proof {
            t5.lemma_children_occupied(parent as int);
            t5.lemma_children_occupied(w as int);
            t5.lemma_not_grandparent(parent, w);
        }
        let parent_color = self.node(parent).color;
        let far_link = self.link(w, ob);
        self.recolor(w, parent_color);
        let ghost t6a = *self;
        self.recolor(parent, Color::Black);
        let ghost t6b = *self;
        proof {
            t6b.lemma_same_content_trans(&t6a, &t5);
            t6b.lemma_children_occupied(w as int);
            assert(t6b.nd(w as int) == t6a.nd(w as int));
        }
        if let Some(far) = far_link {
            proof {
                t5.lemma_not_grandparent(w, far);
            }
            self.recolor(far, Color::Black);
            proof {
                self.lemma_same_content_trans(&t6b, &t5);
            }
        }
        let ghost t6 = *self;
        proof {
            t6.lemma_same_content_facts(&t5);
            assert(t6.link_spec(parent as int, branch.opposite_spec()) == Some(w));
        }
        self.rotate_in(parent, branch);
        let ghost t7 = *self;
        proof {
            self.lemma_same_content_facts(&t6);
            self.lemma_same_content_trans(&t6, &t5);
            let oh = t5.black_heights@;
            let pi = parent as int;
            let wi = w as int;
            self.black_heights = Ghost(
                |j: int|
                    if j == pi {
                        oh(pi) - 1
                    } else if j == wi {
                        oh(pi)
                    } else {
                        oh(j)
                    },
            );
            self.lemma_heights_only(&t7);
            assert(self.root_ok());
            if hole {
                let f = far_link.unwrap();
                assert(f != parent && f != w);
                assert(t6.nd(w as int) == (Node { color: t5.nd(parent as int).color, ..t5.nd(w as int) }));
                assert(t6.nd(parent as int) == (Node { color: Color::Black, ..t5.nd(parent as int) }));
                assert(t6.nd(f as int) == (Node { color: Color::Black, ..t5.nd(f as int) }));
                self.lemma_del_far_red(&t7, &t6, &t5, x, parent, branch, w, f);
            }
        }
    }

    /// One step of the delete repair for the black (or missing) node `x`,
    /// which hangs on `branch` below `parent`, where a black is missing.
    /// Returns where the missing black is now: the node that hangs there,
    /// the node above it and the side, or the root and no node above when
    /// the tree is red-black again.
    #[verifier::spinoff_prover]
    #[verifier::rlimit(60)]
    fn delete_fixup_iteration(&mut self, x: Option<usize>, parent: usize, branch: Branch) -> (r: (
        Option<usize>,
        Option<usize>,
        Branch,
    ))
        requires
            old(self).links_ok(),
            old(self).root_black(),
            old(self).hangs_at(x, Some(parent), branch),
            old(self).color_spec(x) == Color::Black,
        ensures
            final(self).links_ok(),
            final(self).same_content(old(self)),
            final(self).hangs_at(r.0, r.1, r.2),
            final(self).root_black() || final(self).root == r.0,
            final(self).fixup_measure(r.0, r.1) < old(self).fixup_measure(x, Some(parent)),
            old(self).rb_hole(Some(parent), branch, x) ==> final(self).rb_hole(r.1, r.2, r.0),
    {
        let ghost t0 = *self;
        let ghost hole = t0.rb_hole(Some(parent), branch, x);
        proof {
            t0.lemma_children_occupied(parent as int);
        }
        let ob = branch.opposite();
        let sibling0 = self.link(parent, ob);
        let mut lifted = false;
        if self.color_of(sibling0) == Color::Red {
            self.del_lift_red_sibling(x, parent, branch, sibling0.unwrap());
            lifted = true;
        }
        let ghost t2 = *self;
        proof {
            t2.lemma_children_occupied(parent as int);
            if !lifted {
                assert(t2 == t0);
            }
        }
        let sibling = self.link(parent, ob);
        proof {
            if let Some(w) = sibling {
                t2.lemma_children_occupied(w as int);
            }
            if hole {
                assert(t2.rb_hole(Some(parent), branch, x));
                assert(t2.color_spec(sibling) == Color::Black);
            }
        }
        let (near_color, far_color) = self.nephew_colors(sibling, branch);
        if near_color == Color::Black && far_color == Color::Black {
            proof {
                if let Some(w) = sibling {
                    match branch {
                        Branch::Left => {},
                        Branch::Right => {},
                    }
                }
            }
            let r = self.del_black_nephews(x, parent, branch, sibling);
            proof {
                self.lemma_same_content_trans(&t2, &t0);
                if lifted {
                    t2.lemma_outside_same_content(&t0, t0.iv(parent as int));
                }
            }
            return r;
        }
        if far_color == Color::Black {
            let w = sibling.unwrap();
            self.del_near_red(x, parent, branch, w);
        }
        let ghost t5 = *self;
        proof {
            if far_color != Color::Black {
                assert(t5 == t2);
            }
            assert(t5.same_content(&t0)) by {
                if far_color == Color::Black {
                    t5.lemma_same_content_trans(&t2, &t0);
                }
            }
            t5.lemma_children_occupied(parent as int);
            if hole {
                assert(t5.rb_hole(Some(parent), branch, x));
            }
        }
        let w = self.link(parent, ob).unwrap();
        self.del_far_red(x, parent, branch, w);
        proof {
            self.lemma_same_content_trans(&t5, &t0);
            if hole {
                self.lemma_balanced_hole(Branch::Left, self.root);
            }
        }
        (self.root, None, Branch::Left)
    }

    /// The black height seen from above link `c`, were node `x` black.
    closed spec fn cbh_black_at(&self, x: usize, c: Option<usize>) -> int {
        if c == Some(x) {
            self.bhv(x as int) + 1
        } else {
            self.cbh(c)
        }
    }

    /// Node `i` keeps the red-black rules of a tree in which node `x` is
    /// black.
    closed spec fn node_rb_black_at(&self, i: int, x: usize) -> bool {
        &&& self.cbh_black_at(x, self.nd(i).left) == self.bhv(i)
        &&& self.cbh_black_at(x, self.nd(i).right) == self.bhv(i)
        &&& self.nd(i).color == Color::Red ==> (self.nd(i).left == Some(x) || self.color_spec(self.nd(i).left)
            == Color::Black) && (self.nd(i).right == Some(x) || self.color_spec(self.nd(i).right) == Color::Black)
    }

    /// The tree would be a red-black tree with node `x` painted black.
    closed spec fn rb_black_at(&self, x: usize) -> bool {
        forall|i: int| self.occ(i) ==> #[trigger] self.node_rb_black_at(i, x)
    }

    /// Link `side` of node `i` is the place `(hp, hb)` that lacks a black.
    closed spec fn at_hole(i: int, side: Branch, hp: Option<usize>, hb: Branch) -> bool {
        hp == Some(i as usize) && side == hb
    }

    /// One for the link that lacks a black, zero for every other.
    closed spec fn hole_adj(i: int, side: Branch, hp: Option<usize>, hb: Branch) -> int {
        if Self::at_hole(i, side, hp, hb) {
            1
        } else {
            0
        }
    }

    /// Node `i` keeps the rules of a tree whose link `hb` below `hp`, where
    /// `hx` hangs, lacks one black, and in which `hx` may be red with a red
    /// child.
    closed spec fn node_rb_hole(&self, i: int, hp: Option<usize>, hb: Branch, hx: Option<usize>) -> bool {
        &&& self.cbh(self.nd(i).left) + Self::hole_adj(i, Branch::Left, hp, hb) == self.bhv(i)
        &&& self.cbh(self.nd(i).right) + Self::hole_adj(i, Branch::Right, hp, hb) == self.bhv(i)
        &&& self.nd(i).color == Color::Red && Some(i as usize) != hx ==> (Self::at_hole(i, Branch::Left, hp, hb)
            || self.color_spec(self.nd(i).left) == Color::Black) && (Self::at_hole(i, Branch::Right, hp, hb)
            || self.color_spec(self.nd(i).right) == Color::Black)
    }

    /// The tree is red-black but for one missing black at link `hb` below
    /// `hp` (none when `hp` is `None`) and the color of `hx`, which hangs
    /// there.
    closed spec fn rb_hole(&self, hp: Option<usize>, hb: Branch, hx: Option<usize>) -> bool {
        forall|i: int| self.occ(i) ==> #[trigger] self.node_rb_hole(i, hp, hb, hx)
    }

    /// `hx` hangs at link `hb` below `hp`, or is the root when `hp` is `None`.
    closed spec fn hangs_at(&self, hx: Option<usize>, hp: Option<usize>, hb: Branch) -> bool {
        &&& match hp {
            Some(p) => self.occ(p as int) && self.link_spec(p as int, hb) == hx,
            None => self.root == hx,
        }
        &&& hx matches Some(x) ==> self.occ(x as int) && self.nd(x as int).parent == hp
    }

    /// Black heights are not negative in a tree that lacks at most one
    /// black.
    proof fn lemma_hole_nonneg(&self, i: int, hp: Option<usize>, hb: Branch, hx: Option<usize>)
        requires
            self.links_ok(),
            self.rb_hole(hp, hb, hx),
            self.occ(i),
        ensures
            self.bhv(i) >= 0,
            self.cbh(Some(i as usize)) >= 0,
        decreases self.keys_in(self.iv(i)).len(),
    {
        assert(self.node_rb_hole(i, hp, hb, hx));
        if let Some(c) = self.nd(i).left {
            self.lemma_child_fewer(i, c);
            self.lemma_hole_nonneg(c as int, hp, hb, hx);
        }
        if let Some(c) = self.nd(i).right {
            self.lemma_child_fewer(i, c);
            self.lemma_hole_nonneg(c as int, hp, hb, hx);
        }
    }

    /// A node has two different links, and nodes other than its parent do not
    /// link to it.
    proof fn lemma_links_distinct(&self, i: int)
        requires
            self.links_ok(),
            self.occ(i),
        ensures
            self.nd(i).left is Some ==> self.nd(i).left != self.nd(i).right,
            self.nd(i).left matches Some(c) ==> self.occ(c as int) && self.nd(c as int).parent == Some(i as usize),
            self.nd(i).right matches Some(c) ==> self.occ(c as int) && self.nd(c as int).parent == Some(i as usize),
    {
        assert(self.node_ok(i));
        assert(self.child_ok(i, self.nd(i).left, self.left_iv(i)));
        assert(self.child_ok(i, self.nd(i).right, self.right_iv(i)));
    }

    /// Painting black the node that hangs where a black is missing, when it
    /// is red or the root, makes a red-black tree.
    proof fn lemma_paint_hole(&self, t: &Self, x: usize, hp: Option<usize>, hb: Branch)
        requires
            t.links_ok(),
            t.rb_hole(hp, hb, Some(x)),
            t.hangs_at(Some(x), hp, hb),
            hp is None || t.nd(x as int).color == Color::Red,
            self.slots@.len() == t.slots@.len(),
            forall|j: int| #[trigger] self.occ(j) == t.occ(j),
            self.nd(x as int) == (Node { color: Color::Black, ..t.nd(x as int) }),
            forall|j: int|
                #![trigger self.slots@[j]]
                0 <= j < self.slots@.len() && j != x ==> self.slots@[j] == t.slots@[j],
            self.black_heights == t.black_heights,
        ensures
            self.balanced(),
    {
        assert forall|i: int| self.occ(i) implies #[trigger] self.node_rb(i, None) by {
            assert(t.node_rb_hole(i, hp, hb, Some(x)));
            t.lemma_links_distinct(i);
            let l = t.nd(i).left;
            let r = t.nd(i).right;
            if let Some(c) = l {
                if c != x {
                    assert(self.slots@[c as int] == t.slots@[c as int]);
                }
            }
            if let Some(c) = r {
                if c != x {
                    assert(self.slots@[c as int] == t.slots@[c as int]);
                }
            }
            if i != x {
                assert(self.slots@[i] == t.slots@[i]);
            }
            if hp != Some(i as usize) {
                assert(l != Some(x) && r != Some(x));
            }
        }
    }

    /// The links around a rotation through `x` that lifts its child `y` on
    /// side `d`, told by side.
    proof fn lemma_rotation_sides(&self, t: &Self, x: usize, y: usize, d: Branch)
        requires
            t.links_ok(),
            t.occ(x as int),
            t.link_spec(x as int, d) == Some(y),
            self.rotated(t, x, y, d == Branch::Right),
        ensures
            self.link_spec(y as int, d.opposite_spec()) == Some(x),
            self.link_spec(y as int, d) == t.link_spec(y as int, d),
            self.link_spec(x as int, d) == t.link_spec(y as int, d.opposite_spec()),
            self.link_spec(x as int, d.opposite_spec()) == t.link_spec(x as int, d.opposite_spec()),
            self.nd(x as int).parent == Some(y),
            self.nd(y as int).parent == t.nd(x as int).parent,
            self.occ(x as int),
            self.occ(y as int),
            x != y,
    {
        t.lemma_links_distinct(x as int);
        t.lemma_not_grandparent(x, y);
        self.lemma_same_content_facts(t);
    }

    /// A node whose links, color and black height stay, over children whose
    /// colors and black heights stay, keeps the rules of a tree that lacks
    /// a black at the same links of it.
    proof fn lemma_hole_same_links(
        &self,
        t: &Self,
        j: int,
        hp: Option<usize>,
        hb: Branch,
        hx: Option<usize>,
        hp2: Option<usize>,
        hb2: Branch,
        hx2: Option<usize>,
    )
        requires
            t.node_rb_hole(j, hp, hb, hx),
            self.nd(j).left == t.nd(j).left,
            self.nd(j).right == t.nd(j).right,
            self.nd(j).color == t.nd(j).color,
            self.bhv(j) == t.bhv(j),
            t.nd(j).left matches Some(c) ==> self.nd(c as int).color == t.nd(c as int).color && self.bhv(c as int)
                == t.bhv(c as int),
            t.nd(j).right matches Some(c) ==> self.nd(c as int).color == t.nd(c as int).color && self.bhv(c as int)
                == t.bhv(c as int),
            Self::at_hole(j, Branch::Left, hp2, hb2) == Self::at_hole(j, Branch::Left, hp, hb),
            Self::at_hole(j, Branch::Right, hp2, hb2) == Self::at_hole(j, Branch::Right, hp, hb),
            t.nd(j).color == Color::Red && Some(j as usize) != hx2 ==> Some(j as usize) != hx,
        ensures
            self.node_rb_hole(j, hp2, hb2, hx2),
    {
    }

    /// The missing black at link `b` of `p` seen from the sibling's side:
    /// the sibling `w` is a node whose black height above is one more than
    /// that of `x`.
    proof fn lemma_hole_sibling(&self, x: Option<usize>, p: usize, b: Branch)
        requires
            self.links_ok(),
            self.rb_hole(Some(p), b, x),
            self.hangs_at(x, Some(p), b),
        ensures
            self.link_spec(p as int, b.opposite_spec()) is Some,
            self.cbh(self.link_spec(p as int, b.opposite_spec())) == self.bhv(p as int),
            self.cbh(x) + 1 == self.bhv(p as int),
            self.cbh(x) >= 0,
            self.link_spec(p as int, b.opposite_spec()) != x,
            x != Some(p),
    {
        assert(self.node_rb_hole(p as int, Some(p), b, x));
        self.lemma_links_distinct(p as int);
        if let Some(xi) = x {
            self.lemma_hole_nonneg(xi as int, Some(p), b, x);
            self.lemma_not_grandparent(p, xi);
        }
        match b {
            Branch::Left => {},
            Branch::Right => {},
        }
    }

    /// The case of a red sibling: painting it black and the parent red, then
    /// lifting the sibling over the parent, keeps the black missing at the
    /// same link, under a parent that is now red.
    #[verifier::spinoff_prover]
    #[verifier::rlimit(60)]
    proof fn lemma_del_red_sibling(&self, t1: &Self, t0: &Self, x: Option<usize>, p: usize, b: Branch, w: usize)
        requires
            t0.links_ok(),
            t0.rb_hole(Some(p), b, x),
            t0.hangs_at(x, Some(p), b),
            t0.color_spec(x) == Color::Black,
            t0.link_spec(p as int, b.opposite_spec()) == Some(w),
            t0.nd(w as int).color == Color::Red,
            t1.links_ok(),
            t1.slots@.len() == t0.slots@.len(),
            forall|j: int| #[trigger] t1.occ(j) == t0.occ(j),
            t1.nd(p as int) == (Node { color: Color::Red, ..t0.nd(p as int) }),
            t1.nd(w as int) == (Node { color: Color::Black, ..t0.nd(w as int) }),
            forall|j: int|
                #![trigger t1.slots@[j]]
                0 <= j < t1.slots@.len() && j != p && j != w ==> t1.slots@[j] == t0.slots@[j],
            t1.black_heights == t0.black_heights,
            self.rotated(t1, p, w, b.opposite_spec() == Branch::Right),
        ensures
            self.rb_hole(Some(p), b, x),
            self.hangs_at(x, Some(p), b),
            self.nd(p as int).color == Color::Red,
            self.link_spec(p as int, b.opposite_spec()) == t0.link_spec(w as int, b),
            self.color_spec(self.link_spec(p as int, b.opposite_spec())) == Color::Black,
            self.nd(p as int).parent == Some(w),
    {
        let ob = b.opposite_spec();
        let pi = p as int;
        let wi = w as int;
        let g = t0.nd(pi).parent;
        let wn = t0.link_spec(wi, b);
        let wo = t0.link_spec(wi, ob);
        t0.lemma_hole_sibling(x, p, b);
        t0.lemma_links_distinct(pi);
        t0.lemma_links_distinct(wi);
        t0.lemma_not_grandparent(p, w);
        assert(t0.node_rb_hole(pi, Some(p), b, x));
        assert(t0.node_rb_hole(wi, Some(p), b, x));
        assert(t0.nd(pi).color == Color::Black) by {
            match b {
                Branch::Left => {},
                Branch::Right => {},
            }
        }
        assert(t0.bhv(wi) == t0.bhv(pi));
        assert(t0.cbh(wn) == t0.bhv(wi) && t0.cbh(wo) == t0.bhv(wi) && t0.color_spec(wn) == Color::Black
            && t0.color_spec(wo) == Color::Black) by {
            match b {
                Branch::Left => {},
                Branch::Right => {},
            }
        }
        assert(t1.link_spec(pi, ob) == Some(w));
        self.lemma_rotation_sides(t1, p, w, ob);
        assert(ob.opposite_spec() == b) by {
            match b {
                Branch::Left => {},
                Branch::Right => {},
            }
        }
        assert(t1.link_spec(wi, b) == wn);
        assert(t1.link_spec(pi, b) == x);
        assert(t0.node_ok(pi));
        assert(t0.parent_ok(pi));
        if let Some(q) = g {
            assert(t0.occ(q as int));
            t0.lemma_links_distinct(q as int);
            assert(t0.node_rb_hole(q as int, Some(p), b, x));
            t0.lemma_not_grandparent(q, p);
        }
        if let Some(c) = wn {
            t0.lemma_not_grandparent(w, c);
        }
        if let Some(xi) = x {
            assert(t0.occ(xi as int));
            assert(xi != w);
            assert(Some(xi) != g);
            assert(Some(xi) != wn);
            assert(self.slots@[xi as int] == t1.slots@[xi as int]);
            assert(t1.slots@[xi as int] == t0.slots@[xi as int]);
        }
        if let Some(c) = wn {
            assert(self.occ(c as int));
            assert(t1.slots@[c as int] == t0.slots@[c as int]);
            assert(self.nd(c as int).color == t0.nd(c as int).color);
        }
        if let Some(c) = wo {
            assert(c != p && Some(c) != g);
            assert(self.slots@[c as int] == t1.slots@[c as int]);
            assert(t1.slots@[c as int] == t0.slots@[c as int]);
        }
        assert(self.cbh(x) == t0.cbh(x));
        assert(self.cbh(wn) == t0.cbh(wn));
        assert(self.cbh(wo) == t0.cbh(wo));
        assert forall|j: int| self.occ(j) implies #[trigger] self.node_rb_hole(j, Some(p), b, x) by {
            assert(t0.occ(j));
            assert(t0.node_rb_hole(j, Some(p), b, x));
            t0.lemma_links_distinct(j);
            let l = t0.nd(j).left;
            let r = t0.nd(j).right;
            if j == pi {
                assert(self.link_spec(pi, b) == x);
                assert(self.link_spec(pi, ob) == wn);
                match b {
                    Branch::Left => {},
                    Branch::Right => {},
                }
            } else if j == wi {
                assert(self.link_spec(wi, b) == Some(p));
                assert(self.link_spec(wi, ob) == wo);
                assert(self.cbh(Some(p)) == t0.bhv(pi));
                match b {
                    Branch::Left => {},
                    Branch::Right => {},
                }
            } else if g == Some(j as usize) {
                assert(self.cbh(Some(w)) == t0.cbh(Some(p)));
                let other = if t0.nd(j).left == Some(p) { r } else { l };
                if let Some(c) = other {
                    assert(c != p && c != w);
                    assert(self.slots@[c as int] == t0.slots@[c as int]);
                }
            } else if wn == Some(j as usize) {
                assert(t1.slots@[j] == t0.slots@[j]);
                if let Some(c) = l {
                    t0.lemma_not_grandparent(j as usize, c);
                    assert(self.occ(c as int));
                    assert(t1.slots@[c as int] == t0.slots@[c as int]);
                }
                if let Some(c) = r {
                    t0.lemma_not_grandparent(j as usize, c);
                    assert(self.occ(c as int));
                    assert(t1.slots@[c as int] == t0.slots@[c as int]);
                }
                self.lemma_hole_same_links(t0, j, Some(p), b, x, Some(p), b, x);
            } else {
                assert(self.slots@[j] == t1.slots@[j]);
                assert(t1.slots@[j] == t0.slots@[j]);
                assert(l != Some(p) && r != Some(p));
                assert(l != Some(w) && r != Some(w));
                if let Some(c) = l {
                    assert(self.occ(c as int));
                    assert(t1.slots@[c as int] == t0.slots@[c as int]);
                }
                if let Some(c) = r {
                    assert(self.occ(c as int));
                    assert(t1.slots@[c as int] == t0.slots@[c as int]);
                }
                self.lemma_hole_same_links(t0, j, Some(p), b, x, Some(p), b, x);
            }
        }
        assert(self.hangs_at(x, Some(p), b));
    }

    /// The side of its parent on which `c` hangs (left for the root).
    closed spec fn up_side(&self, c: usize) -> Branch {
        match self.nd(c as int).parent {
            Some(q) => if self.nd(q as int).left == Some(c) {
                Branch::Left
            } else {
                Branch::Right
            },
            None => Branch::Left,
        }
    }

    /// The case of a black sibling with black children: painting the
    /// sibling red takes a black from the parent's subtree, so the missing
    /// black moves up to the link where the parent hangs.
    #[verifier::spinoff_prover]
    #[verifier::rlimit(40)]
    proof fn lemma_del_black_nephews(&self, t: &Self, x: Option<usize>, p: usize, b: Branch, w: usize)
        requires
            t.links_ok(),
            t.rb_hole(Some(p), b, x),
            t.hangs_at(x, Some(p), b),
            t.color_spec(x) == Color::Black,
            t.link_spec(p as int, b.opposite_spec()) == Some(w),
            t.nd(w as int).color == Color::Black,
            t.color_spec(t.nd(w as int).left) == Color::Black,
            t.color_spec(t.nd(w as int).right) == Color::Black,
            self.links_ok(),
            self.slots@.len() == t.slots@.len(),
            forall|j: int| #[trigger] self.occ(j) == t.occ(j),
            self.nd(w as int) == (Node { color: Color::Red, ..t.nd(w as int) }),
            forall|j: int|
                #![trigger self.slots@[j]]
                0 <= j < self.slots@.len() && j != w ==> self.slots@[j] == t.slots@[j],
            self.bhv(p as int) == t.bhv(p as int) - 1,
            forall|j: int| j != p ==> #[trigger] self.bhv(j) == t.bhv(j),
            self.root == t.root,
        ensures
            self.rb_hole(t.nd(p as int).parent, t.up_side(p), Some(p)),
            self.hangs_at(Some(p), t.nd(p as int).parent, t.up_side(p)),
    {
        let ob = b.opposite_spec();
        let pi = p as int;
        let wi = w as int;
        let g = t.nd(pi).parent;
        let side = t.up_side(p);
        t.lemma_hole_sibling(x, p, b);
        t.lemma_links_distinct(pi);
        t.lemma_links_distinct(wi);
        t.lemma_not_grandparent(p, w);
        assert(t.node_rb_hole(pi, Some(p), b, x));
        assert(t.node_rb_hole(wi, Some(p), b, x));
        assert(t.node_ok(pi));
        assert(t.parent_ok(pi));
        assert(t.nd(pi) == self.nd(pi));
        if let Some(xi) = x {
            assert(self.slots@[xi as int] == t.slots@[xi as int]);
        }
        if let Some(q) = g {
            assert(t.occ(q as int));
            t.lemma_links_distinct(q as int);
            t.lemma_not_grandparent(q, p);
            assert(t.node_rb_hole(q as int, Some(p), b, x));
            assert(self.slots@[q as int] == t.slots@[q as int]);
        }
        assert(self.cbh(Some(w)) == t.cbh(Some(w)) - 1);
        assert(self.cbh(x) == t.cbh(x));
        assert(self.cbh(Some(p)) == t.cbh(Some(p)) - 1);
        assert forall|j: int| self.occ(j) implies #[trigger] self.node_rb_hole(j, g, side, Some(p)) by {
            assert(t.occ(j));
            assert(t.node_rb_hole(j, Some(p), b, x));
            t.lemma_links_distinct(j);
            let l = t.nd(j).left;
            let r = t.nd(j).right;
            if j == pi {
                match b {
                    Branch::Left => {},
                    Branch::Right => {},
                }
            } else if j == wi {
                if let Some(c) = l {
                    t.lemma_not_grandparent(w, c);
                    assert(self.slots@[c as int] == t.slots@[c as int]);
                }
                if let Some(c) = r {
                    t.lemma_not_grandparent(w, c);
                    assert(self.slots@[c as int] == t.slots@[c as int]);
                }
            } else if g == Some(j as usize) {
                let other = if t.nd(j).left == Some(p) { r } else { l };
                if let Some(c) = other {
                    assert(c != p && c != w);
                    assert(self.slots@[c as int] == t.slots@[c as int]);
                }
                assert(self.slots@[j] == t.slots@[j]);
            } else {
                assert(self.slots@[j] == t.slots@[j]);
                assert(l != Some(p) && r != Some(p));
                assert(l != Some(w) && r != Some(w));
                if let Some(c) = l {
                    assert(self.slots@[c as int] == t.slots@[c as int]);
                }
                if let Some(c) = r {
                    assert(self.slots@[c as int] == t.slots@[c as int]);
                }
                self.lemma_hole_same_links(t, j, Some(p), b, x, g, side, Some(p));
            }
        }
        assert(self.hangs_at(Some(p), g, side)) by {
            if let Some(q) = g {
                assert(self.nd(q as int) == t.nd(q as int));
            } else {
                assert(t.root == Some(p));
            }
        }
    }

    /// The case of a black sibling whose far child is black and near child
    /// red: painting the near child black and the sibling red, then lifting
    /// the near child over the sibling, keeps the black missing at the same
    /// link, beside a black sibling with a red far child.
    #[verifier::spinoff_prover]
    #[verifier::rlimit(60)]
    proof fn lemma_del_near_red(&self, t1: &Self, t0: &Self, x: Option<usize>, p: usize, b: Branch, w: usize, n: usize)
        requires
            t0.links_ok(),
            t0.rb_hole(Some(p), b, x),
            t0.hangs_at(x, Some(p), b),
            t0.color_spec(x) == Color::Black,
            t0.link_spec(p as int, b.opposite_spec()) == Some(w),
            t0.nd(w as int).color == Color::Black,
            t0.link_spec(w as int, b) == Some(n),
            t0.nd(n as int).color == Color::Red,
            t0.color_spec(t0.link_spec(w as int, b.opposite_spec())) == Color::Black,
            t1.links_ok(),
            t1.slots@.len() == t0.slots@.len(),
            forall|j: int| #[trigger] t1.occ(j) == t0.occ(j),
            t1.nd(n as int) == (Node { color: Color::Black, ..t0.nd(n as int) }),
            t1.nd(w as int) == (Node { color: Color::Red, ..t0.nd(w as int) }),
            forall|j: int|
                #![trigger t1.slots@[j]]
                0 <= j < t1.slots@.len() && j != n && j != w ==> t1.slots@[j] == t0.slots@[j],
            t1.black_heights == t0.black_heights,
            self.rotated(t1, w, n, b == Branch::Right),
        ensures
            self.rb_hole(Some(p), b, x),
            self.hangs_at(x, Some(p), b),
            self.link_spec(p as int, b.opposite_spec()) == Some(n),
            self.nd(n as int).color == Color::Black,
            self.link_spec(n as int, b.opposite_spec()) == Some(w),
            self.nd(w as int).color == Color::Red,
    {
        let ob = b.opposite_spec();
        let pi = p as int;
        let wi = w as int;
        let ni = n as int;
        let nb = t0.link_spec(ni, b);
        let no = t0.link_spec(ni, ob);
        let f = t0.link_spec(wi, ob);
        t0.lemma_hole_sibling(x, p, b);
        t0.lemma_links_distinct(pi);
        t0.lemma_links_distinct(wi);
        t0.lemma_links_distinct(ni);
        t0.lemma_not_grandparent(p, w);
        t0.lemma_not_grandparent(w, n);
        assert(t0.node_rb_hole(pi, Some(p), b, x));
        assert(t0.node_rb_hole(wi, Some(p), b, x));
        assert(t0.node_rb_hole(ni, Some(p), b, x));
        assert(t0.bhv(ni) == t0.bhv(wi) && t0.cbh(f) == t0.bhv(wi)) by {
            match b {
                Branch::Left => {},
                Branch::Right => {},
            }
        }
        assert(t0.cbh(nb) == t0.bhv(ni) && t0.cbh(no) == t0.bhv(ni) && t0.color_spec(nb) == Color::Black
            && t0.color_spec(no) == Color::Black) by {
            match b {
                Branch::Left => {},
                Branch::Right => {},
            }
        }
        assert(t1.link_spec(wi, b) == Some(n));
        self.lemma_rotation_sides(t1, w, n, b);
        assert(t1.link_spec(ni, ob) == no);
        assert(t1.link_spec(ni, b) == nb);
        assert(t1.link_spec(wi, ob) == f);
        assert(t0.nd(wi).parent == Some(p));
        assert(self.link_spec(pi, ob) == Some(n)) by {
            match b {
                Branch::Left => {},
                Branch::Right => {},
            }
        }
        if let Some(c) = nb {
            t0.lemma_not_grandparent(n, c);
            assert(self.occ(c as int));
            assert(t1.slots@[c as int] == t0.slots@[c as int]);
        }
        if let Some(c) = no {
            t0.lemma_not_grandparent(n, c);
            assert(self.occ(c as int));
            assert(t1.slots@[c as int] == t0.slots@[c as int]);
        }
        if let Some(c) = f {
            t0.lemma_not_grandparent(w, c);
            assert(self.occ(c as int));
            assert(t1.slots@[c as int] == t0.slots@[c as int]);
            assert(self.slots@[c as int] == t1.slots@[c as int]);
        }
        if let Some(xi) = x {
            assert(xi != w && xi != n && Some(xi) != no);
            assert(self.slots@[xi as int] == t1.slots@[xi as int]);
            assert(t1.slots@[xi as int] == t0.slots@[xi as int]);
        }
        assert(self.cbh(x) == t0.cbh(x));
        assert(self.cbh(nb) == t0.cbh(nb));
        assert(self.cbh(no) == t0.cbh(no));
        assert(self.cbh(f) == t0.cbh(f));
        assert forall|j: int| self.occ(j) implies #[trigger] self.node_rb_hole(j, Some(p), b, x) by {
            assert(t0.occ(j));
            assert(t0.node_rb_hole(j, Some(p), b, x));
            t0.lemma_links_distinct(j);
            let l = t0.nd(j).left;
            let r = t0.nd(j).right;
            if j == wi {
                assert(self.link_spec(wi, b) == no);
                assert(self.link_spec(wi, ob) == f);
                match b {
                    Branch::Left => {},
                    Branch::Right => {},
                }
            } else if j == ni {
                assert(self.link_spec(ni, ob) == Some(w));
                assert(self.link_spec(ni, b) == nb);
                match b {
                    Branch::Left => {},
                    Branch::Right => {},
                }
            } else if j == pi {
                assert(self.link_spec(pi, b) == x) by {
                    match b {
                        Branch::Left => {},
                        Branch::Right => {},
                    }
                }
                match b {
                    Branch::Left => {},
                    Branch::Right => {},
                }
            } else {
                assert(self.nd(j).left == t0.nd(j).left && self.nd(j).right == t0.nd(j).right) by {
                    if Some(j as usize) != no {
                        assert(self.slots@[j] == t1.slots@[j]);
                    }
                    assert(t1.slots@[j] == t0.slots@[j]);
                }
                assert(l != Some(n) && r != Some(n));
                assert(l != Some(w) && r != Some(w));
                if let Some(c) = l {
                    assert(self.occ(c as int));
                    assert(t1.slots@[c as int] == t0.slots@[c as int]);
                }
                if let Some(c) = r {
                    assert(self.occ(c as int));
                    assert(t1.slots@[c as int] == t0.slots@[c as int]);
                }
                assert(t1.slots@[j] == t0.slots@[j]);
                self.lemma_hole_same_links(t0, j, Some(p), b, x, Some(p), b, x);
            }
        }
        assert(self.hangs_at(x, Some(p), b)) by {
            match b {
                Branch::Left => {},
                Branch::Right => {},
            }
        }
    }

    /// A node whose links, color and black height stay, over children whose
    /// colors and black heights stay, and which neither lacks a black below
    /// it nor is excepted from the rule on red nodes, keeps the red-black
    /// rules.
    proof fn lemma_hole_closed_same_links(&self, t: &Self, j: int, hp: Option<usize>, hb: Branch, hx: Option<usize>)
        requires
            t.node_rb_hole(j, hp, hb, hx),
            self.nd(j).left == t.nd(j).left,
            self.nd(j).right == t.nd(j).right,
            self.nd(j).color == t.nd(j).color,
            self.bhv(j) == t.bhv(j),
            t.nd(j).left matches Some(c) ==> self.nd(c as int).color == t.nd(c as int).color && self.bhv(c as int)
                == t.bhv(c as int),
            t.nd(j).right matches Some(c) ==> self.nd(c as int).color == t.nd(c as int).color && self.bhv(c as int)
                == t.bhv(c as int),
            hp != Some(j as usize),
            t.nd(j).color == Color::Red ==> Some(j as usize) != hx,
        ensures
            self.node_rb(j, None),
    {
    }

    /// The case of a black sibling with a red far child: the sibling takes
    /// the parent's color, the parent and the far child turn black, and the
    /// sibling is lifted over the parent; the parent, one black lower, and
    /// the sibling, one higher, make the tree red-black again.
    #[verifier::spinoff_prover]
    #[verifier::rlimit(80)]
    proof fn lemma_del_far_red(&self, t2: &Self, t1: &Self, t0: &Self, x: Option<usize>, p: usize, b: Branch, w: usize, f: usize)
        requires
            t0.links_ok(),
            t0.rb_hole(Some(p), b, x),
            t0.hangs_at(x, Some(p), b),
            t0.color_spec(x) == Color::Black,
            t0.link_spec(p as int, b.opposite_spec()) == Some(w),
            t0.nd(w as int).color == Color::Black,
            t0.link_spec(w as int, b.opposite_spec()) == Some(f),
            t0.nd(f as int).color == Color::Red,
            t1.links_ok(),
            t1.slots@.len() == t0.slots@.len(),
            forall|j: int| #[trigger] t1.occ(j) == t0.occ(j),
            t1.nd(w as int) == (Node { color: t0.nd(p as int).color, ..t0.nd(w as int) }),
            t1.nd(p as int) == (Node { color: Color::Black, ..t0.nd(p as int) }),
            t1.nd(f as int) == (Node { color: Color::Black, ..t0.nd(f as int) }),
            forall|j: int|
                #![trigger t1.slots@[j]]
                0 <= j < t1.slots@.len() && j != p && j != w && j != f ==> t1.slots@[j] == t0.slots@[j],
            t1.black_heights == t0.black_heights,
            t2.rotated(t1, p, w, b.opposite_spec() == Branch::Right),
            self.slots == t2.slots,
            self.free == t2.free,
            self.root == t2.root,
            self.len == t2.len,
            self.bounds == t2.bounds,
            self.bhv(p as int) == t0.bhv(p as int) - 1,
            self.bhv(w as int) == t0.bhv(p as int),
            forall|j: int| j != p && j != w ==> #[trigger] self.bhv(j) == t0.bhv(j),
        ensures
            self.balanced(),
    {
        let ob = b.opposite_spec();
        let pi = p as int;
        let wi = w as int;
        let fi = f as int;
        let g = t0.nd(pi).parent;
        let wn = t0.link_spec(wi, b);
        self.lemma_heights_only(t2);
        t0.lemma_hole_sibling(x, p, b);
        t0.lemma_links_distinct(pi);
        t0.lemma_links_distinct(wi);
        t0.lemma_links_distinct(fi);
        t0.lemma_not_grandparent(p, w);
        t0.lemma_not_grandparent(w, f);
        assert(t0.node_rb_hole(pi, Some(p), b, x));
        assert(t0.node_rb_hole(wi, Some(p), b, x));
        assert(t0.node_rb_hole(fi, Some(p), b, x));
        assert(t0.bhv(wi) + 1 == t0.bhv(pi));
        assert(t0.bhv(fi) == t0.bhv(wi) && t0.cbh(wn) == t0.bhv(wi)) by {
            match b {
                Branch::Left => {},
                Branch::Right => {},
            }
        }
        assert(t0.node_ok(pi));
        assert(t0.parent_ok(pi));
        assert(t1.link_spec(pi, ob) == Some(w));
        t2.lemma_rotation_sides(t1, p, w, ob);
        assert(ob.opposite_spec() == b) by {
            match b {
                Branch::Left => {},
                Branch::Right => {},
            }
        }
        assert(t1.link_spec(wi, b) == wn);
        assert(t1.link_spec(wi, ob) == Some(f));
        assert(t1.link_spec(pi, b) == x);
        if let Some(q) = g {
            assert(t0.occ(q as int));
            t0.lemma_links_distinct(q as int);
            t0.lemma_not_grandparent(q, p);
            assert(t0.node_rb_hole(q as int, Some(p), b, x));
        }
        if let Some(c) = wn {
            t0.lemma_not_grandparent(w, c);
            assert(t2.occ(c as int));
            assert(t1.slots@[c as int] == t0.slots@[c as int]);
        }
        if let Some(xi) = x {
            assert(xi != w && xi != f && Some(xi) != g && Some(xi) != wn);
            assert(t2.slots@[xi as int] == t1.slots@[xi as int]);
            assert(t1.slots@[xi as int] == t0.slots@[xi as int]);
        }
        assert(t2.slots@[fi] == t1.slots@[fi]) by {
            assert(f != p && Some(f) != g && Some(f) != wn);
        }
        assert(self.cbh(x) == t0.cbh(x));
        assert(self.cbh(wn) == t0.cbh(wn));
        assert(self.cbh(Some(f)) == t0.bhv(pi));
        assert(self.cbh(Some(p)) == t0.bhv(pi));
        assert forall|j: int| self.occ(j) implies #[trigger] self.node_rb(j, None) by {
            assert(t0.occ(j));
            assert(t0.node_rb_hole(j, Some(p), b, x));
            t0.lemma_links_distinct(j);
            let l = t0.nd(j).left;
            let r = t0.nd(j).right;
            if j == pi {
                assert(t2.link_spec(pi, b) == x);
                assert(t2.link_spec(pi, ob) == wn);
                match b {
                    Branch::Left => {},
                    Branch::Right => {},
                }
            } else if j == wi {
                assert(t2.link_spec(wi, b) == Some(p));
                assert(t2.link_spec(wi, ob) == Some(f));
                match b {
                    Branch::Left => {},
                    Branch::Right => {},
                }
            } else if g == Some(j as usize) {
                assert(self.cbh(Some(w)) == t0.cbh(Some(p)));
                let other = if t0.nd(j).left == Some(p) { r } else { l };
                if let Some(c) = other {
                    assert(c != p && c != w && c != f);
                    assert(t2.occ(c as int));
                    assert(t1.slots@[c as int] == t0.slots@[c as int]);
                }
            } else if j == fi {
                assert(t2.slots@[j] == t1.slots@[j]);
                if let Some(c) = l {
                    t0.lemma_not_grandparent(f, c);
                    assert(t2.occ(c as int));
                    assert(t1.slots@[c as int] == t0.slots@[c as int]);
                }
                if let Some(c) = r {
                    t0.lemma_not_grandparent(f, c);
                    assert(t2.occ(c as int));
                    assert(t1.slots@[c as int] == t0.slots@[c as int]);
                }
            } else {
                assert(self.nd(j).left == t0.nd(j).left && self.nd(j).right == t0.nd(j).right) by {
                    if Some(j as usize) != wn {
                        assert(t2.slots@[j] == t1.slots@[j]);
                    }
                    assert(t1.slots@[j] == t0.slots@[j]);
                }
                assert(t1.slots@[j] == t0.slots@[j]);
                assert(l != Some(p) && r != Some(p));
                assert(l != Some(w) && r != Some(w));
                assert(l != Some(f) && r != Some(f));
                if let Some(c) = l {
                    assert(t2.occ(c as int));
                    assert(t1.slots@[c as int] == t0.slots@[c as int]);
                }
                if let Some(c) = r {
                    assert(t2.occ(c as int));
                    assert(t1.slots@[c as int] == t0.slots@[c as int]);
                }
                self.lemma_hole_closed_same_links(t0, j, Some(p), b, x);
            }
        }
    }

    /// A tree that is red-black once the red node `x` is painted black lacks
    /// one black at the link where `x` hangs.
    proof fn lemma_black_at_hole(&self, x: usize, hp: Option<usize>, hb: Branch)
        requires
            self.links_ok(),
            self.rb_black_at(x),
            self.hangs_at(Some(x), hp, hb),
            self.nd(x as int).color == Color::Red,
        ensures
            self.rb_hole(hp, hb, Some(x)),
    {
        assert forall|i: int| self.occ(i) implies #[trigger] self.node_rb_hole(i, hp, hb, Some(x)) by {
            assert(self.node_rb_black_at(i, x));
            self.lemma_links_distinct(i);
            if hp == Some(i as usize) {
                match hb {
                    Branch::Left => {},
                    Branch::Right => {},
                }
            } else {
                assert(self.nd(i).left != Some(x) && self.nd(i).right != Some(x));
            }
        }
    }

    /// Restores the red-black coloring after a black node was removed from
    /// link `hb0` below `hp0`, where `x0` (possibly no node) now hangs and
    /// a black is missing.
    fn delete_fixup(&mut self, x0: Option<usize>, hp0: Option<usize>, hb0: Branch)
        requires
            old(self).links_ok(),
            old(self).hangs_at(x0, hp0, hb0),
            old(self).root_black() || old(self).root == x0,
        ensures
            final(self).links_ok(),
            final(self).root_black(),
            final(self).same_content(old(self)),
            old(self).rb_hole(hp0, hb0, x0) ==> final(self).balanced(),
    {
        let ghost t0 = *self;
        let ghost hole0 = t0.rb_hole(hp0, hb0, x0);
        let mut eb = x0;
        let mut ebp = hp0;
        let mut ebb = hb0;
        while eb != self.root && self.color_of(eb) == Color::Black
            invariant
                t0.links_ok(),
                self.links_ok(),
                self.same_content(&t0),
                self.hangs_at(eb, ebp, ebb),
                self.root_black() || self.root == eb,
                hole0 ==> self.rb_hole(ebp, ebb, eb),
            decreases self.fixup_measure(eb, ebp),
        {
            proof {
                if ebp is None {
                    assert(self.root == eb);
                }
                if let Some(x) = eb {
                    assert(self.root != Some(x));
                }
            }
            let parent = ebp.unwrap();
            proof {
                assert(self.root_black()) by {
                    if !self.root_black() {
                        assert(self.root == eb);
                    }
                }
            }
            let ghost before = *self;
            let (nx, np, nb) = self.delete_fixup_iteration(eb, parent, ebb);
            eb = nx;
            ebp = np;
            ebb = nb;
            proof {
                self.lemma_same_content_trans(&before, &t0);
            }
        }
        proof {
            assert(self.root_ok());
            if let Some(p) = ebp {
                if let Some(x) = eb {
                    assert(self.node_ok(x as int));
                    assert(self.parent_ok(x as int));
                }
            }
        }
        if let Some(idx) = eb {
            let ghost before = *self;
            self.recolor(idx, Color::Black);
            proof {
                self.lemma_same_content_trans(&before, &t0);
                if self.root != Some(idx) {
                    let root = before.root.unwrap();
                    assert(self.nd(root as int) == before.nd(root as int));
                }
                if hole0 {
                    self.lemma_same_content_facts(&before);
                    self.lemma_paint_hole(&before, idx, ebp, ebb);
                }
            }
        } else {
            proof {
                if hole0 {
                    assert forall|i: int| self.occ(i) implies #[trigger] self.node_rb(i, None) by {}
                }
            }
        }
    }

    /// Unlinks node `z` from the tree, restores the coloring, and empties
    /// its slot; returns `z`'s value.
    #[verifier::spinoff_prover]
    fn detach_node(&mut self, z: usize) -> (v: V)
        requires
            old(self).wf(),
            old(self).occ(z as int),
        ensures
            final(self).wf(),
            final(self)@ == old(self)@.remove(old(self).nd(z as int).key),
            v == old(self).nd(z as int).value,
            forall|h: ArenaIndex|
                old(self).valid_handle(h) && h.index != z ==> #[trigger] final(self).valid_handle(h)
                    && final(self).handle_key(h) == old(self).handle_key(h),
            forall|h: ArenaIndex| h.index == z ==> !#[trigger] final(self).valid_handle(h),
            old(self).balanced() ==> final(self).balanced(),
    {
        let ghost t0 = *self;
        let z_left = self.node(z).left;
        let z_right = self.node(z).right;
        let (fixup_node, deleted_color, node, hole_parent, hole_side) = if z_left.is_none()
            || z_right.is_none() {
            self.detach_one(z)
        } else {
            self.detach_two(z)
        };
        if deleted_color == Color::Black {
            let ghost before = *self;
            self.delete_fixup(fixup_node, hole_parent, hole_side);
            proof {
                self.lemma_same_content_facts(&before);
                self.lemma_same_content_view(&before);
            }
        }
        node.value
    }

    /// Removes the entry for `key` and returns its value, if the key was
    /// present. Handles to that node die.
    pub fn remove(&mut self, key: &K) -> (r: Option<V>)
        requires
            old(self).wf(),
        ensures
            final(self).wf(),
            final(self)@ == old(self)@.remove(*key),
            r == (if old(self)@.contains_key(*key) {
                Some(old(self)@[*key])
            } else {
                None::<V>
            }),
            forall|h: ArenaIndex|
                old(self).valid_handle(h) && old(self).handle_key(h) != *key ==> #[trigger] final(self).valid_handle(h)
                    && final(self).handle_key(h) == old(self).handle_key(h),
            forall|h: ArenaIndex|
                old(self).valid_handle(h) && old(self).handle_key(h) == *key ==> !#[trigger] final(self).valid_handle(h),
            old(self).balanced() ==> final(self).balanced(),
    {
        let idx = match self.find_slot(key) {
            None => {
                proof {
                    assert(old(self)@.remove(*key) =~= old(self)@);
                }
                return None;
            },
            Some(i) => i,
        };
        proof {
            self.lemma_view_entry(idx as int);
            assert forall|h: ArenaIndex| self.valid_handle(h) && self.handle_key(h) == *key implies h.index == idx by {
                assert(self.rk(h.index as int) == self.rk(idx as int));
            }
        }
        let value = self.detach_node(idx);
        Some(value)
    }

    /// Whether `s` lists, in strictly increasing order, exactly the keys of
    /// the tree whose ranks lie in `b`, each with its node's color.
    closed spec fn lists_keys_in(&self, s: Seq<(K, Color)>, b: Bounds) -> bool {
        &&& forall|a: int, c: int| 0 <= a < c < s.len() ==> (#[trigger] s[a]).0.rank() < (#[trigger] s[c]).0.rank()
        &&& forall|a: int| 0 <= a < s.len() ==> within(b, (#[trigger] s[a]).0.rank())
        &&& forall|a: int|
            #![trigger s[a]]
            0 <= a < s.len() ==> exists|j: int| #[trigger] self.occ(j) && self.nd(j).key == s[a].0 && self.nd(j).color
                == s[a].1
        &&& forall|j: int|
            #[trigger] self.occ(j) && within(b, self.rk(j)) ==> exists|a: int|
                0 <= a < s.len() && (#[trigger] s[a]) == (self.nd(j).key, self.nd(j).color)
    }

    /// Appends the keys of the subtree rooted at `current` (in order, with
    /// their colors) to `out`.
    fn walk_in_order(&self, current: Option<usize>, b: Ghost<Bounds>, out: &mut Vec<(K, Color)>)
        where
            K: Copy,
        requires
            self.wf(),
            match current {
                Some(c) => self.occ(c as int) && self.iv(c as int) == b@,
                None => self.key_free(b@),
            },
        ensures
            final(out)@.len() >= old(out)@.len(),
            final(out)@.subrange(0, old(out)@.len() as int) == old(out)@,
            self.lists_keys_in(final(out)@.subrange(old(out)@.len() as int, final(out)@.len() as int), b@),
        decreases
                match current {
                    Some(c) => self.keys_in(self.iv(c as int)).len() + 1,
                    None => 0,
                },
    {
        let ghost start = out@;
        match current {
            None => {
                assert(out@.subrange(0, start.len() as int) =~= start);
                assert(out@.subrange(start.len() as int, out@.len() as int) =~= Seq::<(K, Color)>::empty());
            },
            Some(c) => {
                proof {
                    assert(self.node_ok(c as int));
                    self.lemma_children_occupied(c as int);
                }
                let node = self.node(c);
                let left = node.left;
                let right = node.right;
                let key = node.key;
                let color = node.color;
                proof {
                    if let Some(l) = left {
                        self.lemma_child_fewer(c as int, l);
                    }
                    if let Some(r) = right {
                        self.lemma_child_fewer(c as int, r);
                    }
                }
                self.walk_in_order(left, Ghost(self.left_iv(c as int)), out);
                let ghost after_left = out@;
                out.push((key, color));
                let ghost after_node = out@;
                self.walk_in_order(right, Ghost(self.right_iv(c as int)), out);
                proof {
                    let l = after_left.subrange(start.len() as int, after_left.len() as int);
                    let r = out@.subrange(after_node.len() as int, out@.len() as int);
                    let all = out@.subrange(start.len() as int, out@.len() as int);
                    assert(out@.subrange(0, after_node.len() as int) == after_node);
                    assert(after_node.subrange(0, after_left.len() as int) =~= after_left);
                    assert(out@.subrange(0, start.len() as int) =~= start) by {
                        assert(after_left.subrange(0, start.len() as int) == start);
                    }
                    assert(all =~= l.push((key, color)) + r) by {
                        assert forall|a: int| 0 <= a < all.len() implies all[a] == (l.push((key, color)) + r)[a] by {
                            if a < l.len() {
                                assert(all[a] == out@[start.len() + a]);
                                assert(out@[start.len() + a] == after_node[start.len() + a]);
                                assert(after_node[start.len() + a] == after_left[start.len() + a]);
                            } else if a == l.len() {
                                assert(out@[start.len() + a] == after_node[start.len() + a]);
                            } else {
                                assert(all[a] == r[a - l.len() - 1]);
                            }
                        }
                    }
                    let rk = key.rank();
                    assert(rk == self.rk(c as int));
                    assert forall|a: int, d: int| 0 <= a < d < all.len() implies (#[trigger] all[a]).0.rank() < (#[trigger] all[d]).0.rank() by {
                        let s2 = l.push((key, color)) + r;
                        if d < l.len() {
                            assert(l[a].0.rank() < l[d].0.rank());
                        } else if a < l.len() {
                            assert(within(self.left_iv(c as int), l[a].0.rank()));
                            if d > l.len() {
                                assert(within(self.right_iv(c as int), r[d - l.len() - 1].0.rank()));
                            }
                        } else if a == l.len() {
                            assert(within(self.right_iv(c as int), r[d - l.len() - 1].0.rank()));
                        } else {
                            assert(r[a - l.len() - 1].0.rank() < r[d - l.len() - 1].0.rank());
                        }
                    }
                    assert forall|a: int| 0 <= a < all.len() implies within(b@, (#[trigger] all[a]).0.rank()) by {
                        if a < l.len() {
                            assert(within(self.left_iv(c as int), l[a].0.rank()));
                        } else if a > l.len() {
                            assert(within(self.right_iv(c as int), r[a - l.len() - 1].0.rank()));
                        }
                    }
                    assert forall|a: int| #![trigger all[a]] 0 <= a < all.len() implies exists|j: int| #[trigger] self.occ(j) && self.nd(j).key
                        == all[a].0 && self.nd(j).color == all[a].1 by {
                        if a < l.len() {
                            assert(l[a] == all[a]);
                        } else if a == l.len() {
                            assert(self.occ(c as int) && self.nd(c as int).key == all[a].0);
                        } else {
                            assert(r[a - l.len() - 1] == all[a]);
                        }
                    }
                    assert forall|j: int| #[trigger] self.occ(j) && within(b@, self.rk(j)) implies exists|a: int|
                        0 <= a < all.len() && (#[trigger] all[a]) == (self.nd(j).key, self.nd(j).color) by {
                        if self.rk(j) < rk {
                            assert(within(self.left_iv(c as int), self.rk(j)));
                            let a = choose|a: int| 0 <= a < l.len() && (#[trigger] l[a]) == (self.nd(j).key, self.nd(j).color);
                            assert(all[a] == l[a]);
                        } else if self.rk(j) == rk {
                            assert(j == c as int);
                            assert(all[l.len() as int] == (key, color));
                        } else {
                            assert(within(self.right_iv(c as int), self.rk(j)));
                            let a = choose|a: int| 0 <= a < r.len() && (#[trigger] r[a]) == (self.nd(j).key, self.nd(j).color);
                            assert(all[a + l.len() + 1] == r[a]);
                        }
                    }
                }
            },
        }
    }

    /// The keys in ascending order, each with its node's color.
    pub fn in_order(&self) -> (s: Vec<(K, Color)>)
        where
            K: Copy,
        requires
            self.wf(),
        ensures
            forall|a: int, c: int| 0 <= a < c < s@.len() ==> (#[trigger] s@[a]).0.rank() < (#[trigger] s@[c]).0.rank(),
            forall|a: int| 0 <= a < s@.len() ==> self@.contains_key((#[trigger] s@[a]).0),
            forall|k: K| #[trigger] self@.contains_key(k) ==> exists|a: int| 0 <= a < s@.len() && (#[trigger] s@[a]).0 == k,
    {
        let mut out: Vec<(K, Color)> = Vec::new();
        proof {
            assert(self.root_ok());
            if self.root is None {
                assert forall|m: int| self.occ(m) implies !within((None::<int>, None::<int>), #[trigger] self.rk(m)) by {}
            }
        }
        self.walk_in_order(self.root, Ghost((None::<int>, None::<int>)), &mut out);
        proof {
            assert(out@.subrange(0, out@.len() as int) =~= out@);
            assert forall|a: int| 0 <= a < out@.len() implies self@.contains_key((#[trigger] out@[a]).0) by {
                let j = choose|j: int| #[trigger] self.occ(j) && self.nd(j).key == out@[a].0 && self.nd(j).color == out@[a].1;
                self.lemma_view_entry(j);
            }
            assert forall|k: K| #[trigger] self@.contains_key(k) implies exists|a: int| 0 <= a < out@.len() && (#[trigger] out@[a]).0 == k by {
                let j = choose|j: int| self.occ(j) && #[trigger] self.nd(j).key == k;
                let a = choose|a: int| 0 <= a < out@.len() && (#[trigger] out@[a]) == (self.nd(j).key, self.nd(j).color);
                assert(out@[a].0 == k);
            }
        }
        out
    }

    /// A valid handle names a key of the map, and the value stored under it.
    /// A key has one handle: two valid handles of the same key are equal.
    pub proof fn lemma_handle_unique(&self, g: ArenaIndex, h: ArenaIndex)
        requires
            self.wf(),
            self.valid_handle(g),
            self.valid_handle(h),
            self.handle_key(g) == self.handle_key(h),
        ensures
            g == h,
    {
        assert(self.distinct());
        assert(self.rk(g.index as int) == self.rk(h.index as int));
    }

    pub proof fn lemma_handle_in_map(&self, h: ArenaIndex)
        requires
            self.wf(),
            self.valid_handle(h),
        ensures
            self@.contains_key(self.handle_key(h)),
            self@[self.handle_key(h)] == self.handle_value(h),
    {
        self.lemma_view_entry(h.index as int);
    }
}

impl<K: TreeKey, V> Default for RedBlackTree<K, V> {
    fn default() -> (r: Self)
        ensures
            r.wf(),
            r@ == Map::<K, V>::empty(),
    {
        Self::new()
    }
}

} // verus!
