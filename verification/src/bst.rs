//! An ordered binary search tree with parent back-links.
//!
//! Nodes live in an arena (`Vec<SimpleBstNode>`) and refer to one another by
//! index, so that a node can be reached both from its parent and from its
//! children, as the shared link cells of a classical parent-pointer tree
//! allow. A ghost `Shape` tree mirrors the part of the arena that is linked
//! into the tree and carries the structural invariants: link symmetry,
//! acyclicity and the ordering of values.

use vstd::prelude::*;

verus! {

/// A direction of a child relative to a parent.
#[derive(Clone, Copy, PartialEq, Eq, Debug, Structural)]
pub enum Direction {
    Left,
    Right,
}

/// Gets the other direction.
pub fn flip_direction(d: Direction) -> (r: Direction)
    ensures
        d == Direction::Left ==> r == Direction::Right,
        d == Direction::Right ==> r == Direction::Left,
{
    match d {
        Direction::Left => Direction::Right,
        Direction::Right => Direction::Left,
    }
}

/// One tree node: a value and three optional links, stored as arena indices.
#[derive(Clone, Copy, Debug)]
pub struct SimpleBstNode {
    value: u64,
    left_child: Option<usize>,
    right_child: Option<usize>,
    parent: Option<usize>,
}

impl SimpleBstNode {
    /// The stored value.
    pub closed spec fn spec_value(self) -> u64 {
        self.value
    }

    /// The link to the child in direction `d`.
    pub closed spec fn spec_child(self, d: Direction) -> Option<usize> {
        match d {
            Direction::Left => self.left_child,
            Direction::Right => self.right_child,
        }
    }

    /// The link to the parent.
    pub closed spec fn spec_parent(self) -> Option<usize> {
        self.parent
    }

    /// True when the node carries no links at all.
    pub open spec fn spec_unlinked(self) -> bool {
        self.spec_parent() is None && self.spec_child(Direction::Left) is None
            && self.spec_child(Direction::Right) is None
    }

    /// Constructs an isolated node with no links.
    pub fn new(value: u64) -> (n: Self)
        ensures
            n.spec_value() == value,
            n.spec_unlinked(),
    {
        Self { value, left_child: None, right_child: None, parent: None }
    }

    /// Returns the stored value.
    pub fn as_value(&self) -> (v: u64)
        ensures
            v == self.spec_value(),
    {
        self.value
    }

    /// Consumes the node, returning the contained value. Consuming a node
    /// that still has links to other nodes is a caller error, which the
    /// precondition rules out.
    pub fn into_value(self) -> (v: u64)
        requires
            self.spec_unlinked(),
        ensures
            v == self.spec_value(),
    {
        self.value
    }

    /// Reads the child link in direction `d`.
    pub fn get_child(&self, d: Direction) -> (r: Option<usize>)
        ensures
            r == self.spec_child(d),
    {
        match d {
            Direction::Left => self.left_child,
            Direction::Right => self.right_child,
        }
    }

    /// Reads the parent link.
    pub fn get_parent(&self) -> (r: Option<usize>)
        ensures
            r == self.spec_parent(),
    {
        self.parent
    }

    /// Overwrites the child link in direction `d`. The caller is responsible
    /// for updating the counterpart parent link.
    pub fn set_child(&mut self, d: Direction, child: Option<usize>)
        ensures
            final(self).spec_child(d) == child,
            final(self).spec_child(flip_spec(d)) == old(self).spec_child(flip_spec(d)),
            final(self).spec_parent() == old(self).spec_parent(),
            final(self).spec_value() == old(self).spec_value(),
    {
        match d {
            Direction::Left => self.left_child = child,
            Direction::Right => self.right_child = child,
        }
    }

    /// Overwrites the parent link. The caller is responsible for updating the
    /// counterpart child link.
    pub fn set_parent(&mut self, parent: Option<usize>)
        ensures
            final(self).spec_parent() == parent,
            final(self).spec_child(Direction::Left) == old(self).spec_child(Direction::Left),
            final(self).spec_child(Direction::Right) == old(self).spec_child(Direction::Right),
            final(self).spec_value() == old(self).spec_value(),
    {
        self.parent = parent;
    }

    /// Checks whether the node is a leaf: no children in either direction.
    pub fn is_leaf(&self) -> (r: bool)
        ensures
            r == (self.spec_child(Direction::Left) is None && self.spec_child(
                Direction::Right,
            ) is None),
    {
        self.left_child.is_none() && self.right_child.is_none()
    }

    /// Checks whether the node is a root: no parent link.
    pub fn is_root(&self) -> (r: bool)
        ensures
            r == (self.spec_parent() is None),
    {
        self.parent.is_none()
    }

    /// Returns the direction of descent where `v` can be located; `None`
    /// means `v` equals this node's value ("found").
    pub fn get_direction_of_value(&self, v: u64) -> (r: Option<Direction>)
        ensures
            v < self.spec_value() ==> r == Some(Direction::Left),
            v > self.spec_value() ==> r == Some(Direction::Right),
            v == self.spec_value() ==> r is None,
    {
        if v < self.value {
            Some(Direction::Left)
        } else if v > self.value {
            Some(Direction::Right)
        } else {
            None
        }
    }
}

impl PartialEq for SimpleBstNode {
    /// Node equality goes by the contained value alone, ignoring structural
    /// position.
    fn eq(&self, other: &SimpleBstNode) -> (r: bool) {
        self.value == other.value
    }
}

impl vstd::std_specs::cmp::PartialEqSpecImpl for SimpleBstNode {
    open spec fn obeys_eq_spec() -> bool {
        true
    }

    open spec fn eq_spec(&self, other: &SimpleBstNode) -> bool {
        self.spec_value() == other.spec_value()
    }
}

impl PartialOrd for SimpleBstNode {
    /// Node ordering goes by the contained value alone.
    fn partial_cmp(&self, other: &SimpleBstNode) -> (r: Option<core::cmp::Ordering>) {
        if self.value < other.value {
            Some(core::cmp::Ordering::Less)
        } else if self.value == other.value {
            Some(core::cmp::Ordering::Equal)
        } else {
            Some(core::cmp::Ordering::Greater)
        }
    }
}

impl vstd::std_specs::cmp::PartialOrdSpecImpl for SimpleBstNode {
    open spec fn obeys_partial_cmp_spec() -> bool {
        true
    }

    open spec fn partial_cmp_spec(&self, other: &SimpleBstNode) -> Option<core::cmp::Ordering> {
        if self.spec_value() < other.spec_value() {
            Some(core::cmp::Ordering::Less)
        } else if self.spec_value() == other.spec_value() {
            Some(core::cmp::Ordering::Equal)
        } else {
            Some(core::cmp::Ordering::Greater)
        }
    }
}

/// The other direction, as a spec-level function.
pub open spec fn flip_spec(d: Direction) -> Direction {
    match d {
        Direction::Left => Direction::Right,
        Direction::Right => Direction::Left,
    }
}

/// The ghost skeleton of the linked part of the arena: each `Node` names the
/// arena index it stands for.
pub enum Shape {
    Nil,
    Node { i: int, l: Box<Shape>, r: Box<Shape> },
}

/// An `Option<usize>` link lifted to mathematical integers.
pub open spec fn lift(o: Option<usize>) -> Option<int> {
    match o {
        None => None,
        Some(u) => Some(u as int),
    }
}

/// The arena index at the root of a shape, if any.
pub open spec fn sub_root(sh: Shape) -> Option<int> {
    match sh {
        Shape::Nil => None,
        Shape::Node { i, .. } => Some(i),
    }
}

/// The set of arena indices a shape covers.
pub open spec fn shape_idxs(sh: Shape) -> Set<int>
    decreases sh,
{
    match sh {
        Shape::Nil => Set::empty(),
        Shape::Node { i, l, r } => shape_idxs(*l).union(shape_idxs(*r)).insert(i),
    }
}

/// Every index occurs once: the two subtrees are disjoint and neither
/// contains the root index.
pub open spec fn shape_distinct(sh: Shape) -> bool
    decreases sh,
{
    match sh {
        Shape::Nil => true,
        Shape::Node { i, l, r } => {
            &&& !shape_idxs(*l).contains(i)
            &&& !shape_idxs(*r).contains(i)
            &&& shape_idxs(*l).disjoint(shape_idxs(*r))
            &&& shape_distinct(*l)
            &&& shape_distinct(*r)
        },
    }
}

/// The shape agrees with the arena links: each node's parent field points at
/// the node above it and its child fields point at the roots of its subtrees.
/// This is exactly the parent/child symmetry invariant.
pub open spec fn shape_wf(s: Seq<SimpleBstNode>, sh: Shape, parent: Option<int>) -> bool
    decreases sh,
{
    match sh {
        Shape::Nil => true,
        Shape::Node { i, l, r } => {
            &&& 0 <= i < s.len()
            &&& lift(s[i].spec_parent()) == parent
            &&& lift(s[i].spec_child(Direction::Left)) == sub_root(*l)
            &&& lift(s[i].spec_child(Direction::Right)) == sub_root(*r)
            &&& shape_wf(s, *l, Some(i))
            &&& shape_wf(s, *r, Some(i))
        },
    }
}

/// The values of a shape's nodes, in ascending in-order.
pub open spec fn shape_inorder(s: Seq<SimpleBstNode>, sh: Shape) -> Seq<u64>
    decreases sh,
{
    match sh {
        Shape::Nil => Seq::empty(),
        Shape::Node { i, l, r } => shape_inorder(s, *l) + seq![s[i].spec_value()] + shape_inorder(
            s,
            *r,
        ),
    }
}

/// The set of values a shape's nodes hold.
pub open spec fn shape_vals(s: Seq<SimpleBstNode>, sh: Shape) -> Set<u64>
    decreases sh,
{
    match sh {
        Shape::Nil => Set::empty(),
        Shape::Node { i, l, r } => shape_vals(s, *l).union(shape_vals(s, *r)).insert(
            s[i].spec_value(),
        ),
    }
}

/// The lower sentinel of the ordering bounds: below every `u64`.
pub open spec fn no_low() -> int {
    -1
}

/// The upper sentinel of the ordering bounds: above every `u64`.
pub open spec fn no_high() -> int {
    0x1_0000_0000_0000_0000
}

/// The binary-search-tree ordering: every value sits strictly between the
/// bounds inherited from its ancestors.
pub open spec fn shape_ordered(s: Seq<SimpleBstNode>, sh: Shape, lo: int, hi: int) -> bool
    decreases sh,
{
    match sh {
        Shape::Nil => true,
        Shape::Node { i, l, r } => {
            &&& lo < s[i].spec_value() < hi
            &&& shape_ordered(s, *l, lo, s[i].spec_value() as int)
            &&& shape_ordered(s, *r, s[i].spec_value() as int, hi)
        },
    }
}

/// A strictly ascending sequence.
pub open spec fn sorted_strict(q: Seq<u64>) -> bool {
    forall|k1: int, k2: int| 0 <= k1 < k2 < q.len() ==> q[k1] < q[k2]
}

/// The left subtree of a shape (`Nil` for `Nil`).
pub open spec fn sub_left(sh: Shape) -> Shape {
    match sh {
        Shape::Nil => Shape::Nil,
        Shape::Node { l, .. } => *l,
    }
}

/// The right subtree of a shape (`Nil` for `Nil`).
pub open spec fn sub_right(sh: Shape) -> Shape {
    match sh {
        Shape::Nil => Shape::Nil,
        Shape::Node { r, .. } => *r,
    }
}

/// Every value of an ordered shape lies strictly between the bounds.
proof fn lemma_vals_bounds(s: Seq<SimpleBstNode>, sh: Shape, lo: int, hi: int)
    requires
        shape_ordered(s, sh, lo, hi),
    ensures
        forall|x: u64| shape_vals(s, sh).contains(x) ==> lo < x < hi,
    decreases sh,
{
    match sh {
        Shape::Nil => {},
        Shape::Node { i, l, r } => {
            lemma_vals_bounds(s, *l, lo, s[i].spec_value() as int);
            lemma_vals_bounds(s, *r, s[i].spec_value() as int, hi);
            assert forall|x: u64| shape_vals(s, sh).contains(x) implies lo < x < hi by {
                if shape_vals(s, *l).contains(x) {
                } else if shape_vals(s, *r).contains(x) {
                } else {
                    assert(x == s[i].spec_value());
                }
            }
        },
    }
}

/// Widening the bounds keeps a shape ordered.
proof fn lemma_ordered_relax(s: Seq<SimpleBstNode>, sh: Shape, lo: int, hi: int, lo2: int, hi2: int)
    requires
        shape_ordered(s, sh, lo, hi),
        lo2 <= lo,
        hi <= hi2,
    ensures
        shape_ordered(s, sh, lo2, hi2),
    decreases sh,
{
    match sh {
        Shape::Nil => {},
        Shape::Node { i, l, r } => {
            lemma_ordered_relax(s, *l, lo, s[i].spec_value() as int, lo2, s[i].spec_value() as int);
            lemma_ordered_relax(s, *r, s[i].spec_value() as int, hi, s[i].spec_value() as int, hi2);
        },
    }
}

/// All indices of a well-formed shape are inside the arena.
proof fn lemma_idxs_in_arena(s: Seq<SimpleBstNode>, sh: Shape, parent: Option<int>)
    requires
        shape_wf(s, sh, parent),
    ensures
        forall|j: int| shape_idxs(sh).contains(j) ==> 0 <= j < s.len(),
    decreases sh,
{
    match sh {
        Shape::Nil => {},
        Shape::Node { i, l, r } => {
            lemma_idxs_in_arena(s, *l, Some(i));
            lemma_idxs_in_arena(s, *r, Some(i));
            assert forall|j: int| shape_idxs(sh).contains(j) implies 0 <= j < s.len() by {
                if shape_idxs(*l).contains(j) {
                } else if shape_idxs(*r).contains(j) {
                } else {
                    assert(j == i);
                }
            }
        },
    }
}

/// Everything a shape says depends only on the arena slots it covers: an
/// arena that agrees on those slots supports the same shape facts.
proof fn lemma_frame(
    s1: Seq<SimpleBstNode>,
    s2: Seq<SimpleBstNode>,
    sh: Shape,
    parent: Option<int>,
    lo: int,
    hi: int,
)
    requires
        shape_wf(s1, sh, parent),
        s1.len() <= s2.len(),
        forall|j: int| shape_idxs(sh).contains(j) ==> s2[j] == s1[j],
    ensures
        shape_wf(s2, sh, parent),
        shape_vals(s2, sh) == shape_vals(s1, sh),
        shape_inorder(s2, sh) == shape_inorder(s1, sh),
        shape_ordered(s1, sh, lo, hi) ==> shape_ordered(s2, sh, lo, hi),
    decreases sh,
{
    match sh {
        Shape::Nil => {
            assert(shape_vals(s2, sh) =~= shape_vals(s1, sh));
            assert(shape_inorder(s2, sh) =~= shape_inorder(s1, sh));
        },
        Shape::Node { i, l, r } => {
            assert(shape_idxs(sh).contains(i));
            lemma_frame(s1, s2, *l, Some(i), lo, s1[i].spec_value() as int);
            lemma_frame(s1, s2, *r, Some(i), s1[i].spec_value() as int, hi);
            assert(shape_vals(s2, sh) =~= shape_vals(s1, sh));
            assert(shape_inorder(s2, sh) =~= shape_inorder(s1, sh));
        },
    }
}

/// The in-order sequence of an ordered shape is strictly ascending, stays
/// within the bounds, and visits exactly the shape's values.
proof fn lemma_inorder_sorted(s: Seq<SimpleBstNode>, sh: Shape, lo: int, hi: int)
    requires
        shape_ordered(s, sh, lo, hi),
    ensures
        sorted_strict(shape_inorder(s, sh)),
        forall|k: int| 0 <= k < shape_inorder(s, sh).len() ==> lo < #[trigger] shape_inorder(
            s,
            sh,
        )[k] < hi,
        shape_inorder(s, sh).to_set() == shape_vals(s, sh),
    decreases sh,
{
    match sh {
        Shape::Nil => {
            assert(shape_inorder(s, sh).to_set() =~= shape_vals(s, sh));
        },
        Shape::Node { i, l, r } => {
            let v = s[i].spec_value();
            lemma_inorder_sorted(s, *l, lo, v as int);
            lemma_inorder_sorted(s, *r, v as int, hi);
            let ql = shape_inorder(s, *l);
            let qr = shape_inorder(s, *r);
            let q = shape_inorder(s, sh);
            assert(q == ql + seq![v] + qr);
            assert forall|k1: int, k2: int| 0 <= k1 < k2 < q.len() implies q[k1] < q[k2] by {
                if k1 < ql.len() {
                    assert(q[k1] == ql[k1]);
                }
                if k2 < ql.len() {
                    assert(q[k2] == ql[k2]);
                }
                if k1 > ql.len() {
                    assert(q[k1] == qr[k1 - ql.len() - 1]);
                }
                if k2 > ql.len() {
                    assert(q[k2] == qr[k2 - ql.len() - 1]);
                }
            }
            assert(q.to_set() =~= shape_vals(s, sh)) by {
                assert forall|x: u64| q.to_set().contains(x) implies shape_vals(s, sh).contains(
                    x,
                ) by {
                    let k = choose|k: int| 0 <= k < q.len() && q[k] == x;
                    if k < ql.len() {
                        assert(ql[k] == x);
                        assert(ql.to_set().contains(x));
                    } else if k == ql.len() {
                        assert(x == v);
                    } else {
                        assert(qr[k - ql.len() - 1] == x);
                        assert(qr.to_set().contains(x));
                    }
                }
                assert forall|x: u64| shape_vals(s, sh).contains(x) implies q.to_set().contains(
                    x,
                ) by {
                    if shape_vals(s, *l).contains(x) {
                        let k = choose|k: int| 0 <= k < ql.len() && ql[k] == x;
                        assert(q[k] == x);
                    } else if shape_vals(s, *r).contains(x) {
                        let k = choose|k: int| 0 <= k < qr.len() && qr[k] == x;
                        assert(q[ql.len() + 1 + k] == x);
                    } else {
                        assert(q[ql.len() as int] == v);
                    }
                }
            }
        },
    }
}

/// The ordered binary search tree: an arena of nodes, the index of the root,
/// and the ghost skeleton of the linked part of the arena.
pub struct SimpleBst {
    nodes: Vec<SimpleBstNode>,
    root: Option<usize>,
    shape: Ghost<Shape>,
}

impl View for SimpleBst {
    type V = Set<u64>;

    /// The set of values the tree holds.
    closed spec fn view(&self) -> Set<u64> {
        shape_vals(self.nodes@, self.shape@)
    }
}

impl SimpleBst {
    /// Well-formedness: the ghost skeleton matches the arena links (link
    /// symmetry), covers each index at most once (acyclicity), respects the
    /// value ordering, and starts at the tree's root, which has no parent.
    pub closed spec fn wf(self) -> bool {
        &&& shape_wf(self.nodes@, self.shape@, None)
        &&& shape_distinct(self.shape@)
        &&& shape_ordered(self.nodes@, self.shape@, no_low(), no_high())
        &&& lift(self.root) == sub_root(self.shape@)
    }

    /// The values of the tree in ascending order.
    pub closed spec fn in_order_view(self) -> Seq<u64> {
        shape_inorder(self.nodes@, self.shape@)
    }

    /// True when index `i` is a node linked into the tree.
    pub closed spec fn contains_idx(self, i: usize) -> bool {
        shape_idxs(self.shape@).contains(i as int)
    }

    /// The whole arena of nodes, as a mathematical sequence.
    pub closed spec fn spec_nodes(self) -> Seq<SimpleBstNode> {
        self.nodes@
    }

    /// The index of the root node, if any.
    pub closed spec fn spec_root(self) -> Option<usize> {
        self.root
    }

    /// The value stored at index `i`.
    pub closed spec fn value_at(self, i: usize) -> u64 {
        self.nodes@[i as int].spec_value()
    }

    /// The parent link of the node at index `i`.
    pub closed spec fn parent_at(self, i: usize) -> Option<usize> {
        self.nodes@[i as int].spec_parent()
    }

    /// The child link of the node at index `i` in direction `d`.
    pub closed spec fn child_at(self, i: usize, d: Direction) -> Option<usize> {
        self.nodes@[i as int].spec_child(d)
    }

    /// Constructs an empty tree.
    pub fn new() -> (t: Self)
        ensures
            t.wf(),
            t@ == Set::<u64>::empty(),
            t.in_order_view() == Seq::<u64>::empty(),
    {
        let t = Self { nodes: Vec::new(), root: None, shape: Ghost(Shape::Nil) };
        proof {
            assert(t@ =~= Set::<u64>::empty());
            assert(t.in_order_view() =~= Seq::<u64>::empty());
        }
        t
    }

    /// Returns the index of the root node, if the tree is not empty. The
    /// root, when present, has no parent.
    pub fn get_root(&self) -> (r: Option<usize>)
        requires
            self.wf(),
        ensures
            r == self.spec_root(),
            (r is Some) <==> self@ != Set::<u64>::empty(),
            r is Some ==> self.contains_idx(r.unwrap()) && self.parent_at(r.unwrap()) is None
                && self@.contains(self.value_at(r.unwrap())),
    {
        proof {
            match self.shape@ {
                Shape::Nil => {
                    assert(self@ =~= Set::<u64>::empty());
                },
                Shape::Node { i, l, r } => {
                    assert(self@.contains(self.nodes@[i].spec_value()));
                    assert(shape_idxs(self.shape@).contains(i));
                },
            }
        }
        self.root
    }

    /// Returns a copy of the node at index `i`, for navigating the tree.
    pub fn get_node(&self, i: usize) -> (n: SimpleBstNode)
        requires
            self.wf(),
            self.contains_idx(i),
        ensures
            n.spec_value() == self.value_at(i),
            n.spec_parent() == self.parent_at(i),
            n.spec_child(Direction::Left) == self.child_at(i, Direction::Left),
            n.spec_child(Direction::Right) == self.child_at(i, Direction::Right),
    {
        proof {
            lemma_idxs_in_arena(self.nodes@, self.shape@, None);
        }
        self.nodes[i]
    }

    /// Descends from the root following `get_direction_of_value`; returns the
    /// index of the node holding `v`, or `None` exactly when `v` is not in
    /// the tree.
    pub fn find(&self, v: u64) -> (r: Option<usize>)
        requires
            self.wf(),
        ensures
            (r is Some) <==> self@.contains(v),
            r is Some ==> self.contains_idx(r.unwrap()) && self.value_at(r.unwrap()) == v,
    {
        match self.root {
            None => {
                proof {
                    assert(self.shape@ is Nil);
                    assert(!self@.contains(v));
                }
                None
            },
            Some(root) => find_at(
                &self.nodes,
                root,
                v,
                Ghost(self.shape@),
                Ghost(None),
                Ghost(no_low()),
                Ghost(no_high()),
            ),
        }
    }
}

impl SimpleBst {
    /// Descends as in `find`; if a node with an equal value is reached, the
    /// insert is a no-op that leaves the tree untouched. Otherwise a new
    /// isolated node is attached as the appropriate child of the last
    /// visited node (the only childless slot that keeps the order), or as
    /// the new root if the tree was empty; no other slot changes.
    pub fn insert(&mut self, v: u64)
        requires
            old(self).wf(),
        ensures
            final(self).wf(),
            final(self)@ == old(self)@.insert(v),
            old(self)@.contains(v) ==> final(self).spec_nodes() == old(self).spec_nodes()
                && final(self).spec_root() == old(self).spec_root() && final(self).in_order_view()
                == old(self).in_order_view(),
            !old(self)@.contains(v) && old(self)@ != Set::<u64>::empty()
                ==> final(self).spec_root() == old(self).spec_root() && exists|p: usize, d: Direction|
                #![auto]
                old(self).contains_idx(p) && inserted_at(
                    old(self).spec_nodes(),
                    final(self).spec_nodes(),
                    v,
                    p,
                    d,
                ),
            old(self)@ == Set::<u64>::empty() ==> ({
                let s0 = old(self).spec_nodes();
                let f = final(self).spec_nodes();
                &&& f.len() == s0.len() + 1
                &&& lift(final(self).spec_root()) == Some(s0.len() as int)
                &&& f[s0.len() as int].spec_value() == v
                &&& f[s0.len() as int].spec_unlinked()
                &&& forall|j: int| 0 <= j < s0.len() ==> f[j] == s0[j]
            }),
    {
        match self.root {
            None => {
                proof {
                    assert(self.shape@ is Nil);
                }
                let new_idx = self.nodes.len();
                self.nodes.push(SimpleBstNode::new(v));
                self.root = Some(new_idx);
                proof {
                    reveal_with_fuel(shape_wf, 3);
                    reveal_with_fuel(shape_ordered, 3);
                    reveal_with_fuel(shape_vals, 3);
                    reveal_with_fuel(shape_idxs, 3);
                    reveal_with_fuel(shape_inorder, 3);
                    reveal_with_fuel(shape_distinct, 3);
                    self.shape@ = Shape::Node {
                        i: new_idx as int,
                        l: Box::new(Shape::Nil),
                        r: Box::new(Shape::Nil),
                    };
                    assert(old(self)@ =~= Set::<u64>::empty());
                    assert(self.nodes@[new_idx as int].spec_value() == v);
                    assert(self@ =~= old(self)@.insert(v));
                }
            },
            Some(root) => {
                proof {
                    assert(old(self)@.contains(old(self).value_at(root)));
                    assert(old(self)@ != Set::<u64>::empty());
                }
                let res = insert_at(
                    &mut self.nodes,
                    root,
                    v,
                    Ghost(self.shape@),
                    Ghost(None),
                    Ghost(no_low()),
                    Ghost(no_high()),
                );
                proof {
                    self.shape@ = res@;
                    if old(self)@.contains(v) {
                        assert(self.in_order_view() == old(self).in_order_view());
                    } else {
                        let (p, d) = choose|p: usize, d: Direction|
                            #![auto]
                            shape_idxs(old(self).shape@).contains(p as int) && inserted_at(
                                old(self).spec_nodes(),
                                self.spec_nodes(),
                                v,
                                p,
                                d,
                            );
                        assert(old(self).contains_idx(p));
                        assert(inserted_at(old(self).spec_nodes(), self.spec_nodes(), v, p, d));
                    }
                }
            },
        }
    }
}

/// Describes the attachment of a fresh node: the arena grew by exactly one
/// node holding `v`, linked as the `d`-child of the previously childless
/// `d`-slot of node `p`; `p` changed in that one slot alone and every other
/// slot is untouched.
pub open spec fn inserted_at(
    s0: Seq<SimpleBstNode>,
    f: Seq<SimpleBstNode>,
    v: u64,
    p: usize,
    d: Direction,
) -> bool {
    let new_i = s0.len() as int;
    &&& 0 <= p < s0.len()
    &&& s0[p as int].spec_child(d) is None
    &&& f.len() == s0.len() + 1
    &&& f[new_i].spec_value() == v
    &&& lift(f[new_i].spec_parent()) == Some(p as int)
    &&& f[new_i].spec_child(Direction::Left) is None
    &&& f[new_i].spec_child(Direction::Right) is None
    &&& lift(f[p as int].spec_child(d)) == Some(new_i)
    &&& f[p as int].spec_child(flip_spec(d)) == s0[p as int].spec_child(flip_spec(d))
    &&& f[p as int].spec_parent() == s0[p as int].spec_parent()
    &&& f[p as int].spec_value() == s0[p as int].spec_value()
    &&& forall|j: int| 0 <= j < s0.len() && j != p ==> f[j] == s0[j]
}

/// The recursive descent behind `SimpleBst::insert`: returns the new ghost
/// skeleton of the subtree rooted at `cur`.
fn insert_at(
    nodes: &mut Vec<SimpleBstNode>,
    cur: usize,
    v: u64,
    Ghost(sh): Ghost<Shape>,
    Ghost(parent): Ghost<Option<int>>,
    Ghost(lo): Ghost<int>,
    Ghost(hi): Ghost<int>,
) -> (res: Ghost<Shape>)
    requires
        shape_wf(old(nodes)@, sh, parent),
        shape_distinct(sh),
        shape_ordered(old(nodes)@, sh, lo, hi),
        sub_root(sh) == Some(cur as int),
        lo < v < hi,
    ensures
        shape_wf(final(nodes)@, res@, parent),
        shape_distinct(res@),
        shape_ordered(final(nodes)@, res@, lo, hi),
        sub_root(res@) == Some(cur as int),
        shape_idxs(res@).subset_of(shape_idxs(sh).insert(old(nodes)@.len() as int)),
        shape_idxs(sh).subset_of(shape_idxs(res@)),
        shape_vals(final(nodes)@, res@) == shape_vals(old(nodes)@, sh).insert(v),
        final(nodes)@.len() >= old(nodes)@.len(),
        forall|j: int|
            0 <= j < old(nodes)@.len() && !shape_idxs(sh).contains(j) ==> final(nodes)@[j] == old(
                nodes,
            )@[j],
        shape_vals(old(nodes)@, sh).contains(v) ==> final(nodes)@ == old(nodes)@ && res@ == sh,
        !shape_vals(old(nodes)@, sh).contains(v) ==> exists|p: usize, d: Direction|
            #![auto]
            shape_idxs(sh).contains(p as int) && inserted_at(old(nodes)@, final(nodes)@, v, p, d),
    decreases sh,
{
    let ghost s0 = nodes@;
    let node = nodes[cur];
    let ghost shl = sub_left(sh);
    let ghost shr = sub_right(sh);
    let ghost val = node.spec_value();
    proof {
        assert(sh == Shape::Node { i: cur as int, l: Box::new(shl), r: Box::new(shr) });
        lemma_idxs_in_arena(s0, sh, parent);
    }
    match node.get_direction_of_value(v) {
        None => {
            proof {
                assert(shape_vals(s0, sh).contains(v));
                assert(shape_vals(s0, sh) =~= shape_vals(s0, sh).insert(v));
            }
            Ghost(sh)
        },
        Some(Direction::Left) => {
            proof {
                lemma_vals_bounds(nodes@, shr, val as int, hi);
            }
            match node.get_child(Direction::Left) {
                Some(lc) => {
                    let res = insert_at(
                        nodes,
                        lc,
                        v,
                        Ghost(shl),
                        Ghost(Some(cur as int)),
                        Ghost(lo),
                        Ghost(val as int),
                    );
                    let ghost sh2 = Shape::Node {
                        i: cur as int,
                        l: Box::new(res@),
                        r: Box::new(shr),
                    };
                    proof {
                        lemma_idxs_in_arena(s0, shr, Some(cur as int));
                        assert(nodes@[cur as int] == s0[cur as int]);
                        lemma_frame(s0, nodes@, shr, Some(cur as int), val as int, hi);
                        assert(shape_wf(nodes@, sh2, parent));
                        assert(shape_vals(nodes@, sh2) =~= shape_vals(s0, sh).insert(v));
                        assert(shape_idxs(sh2).subset_of(
                            shape_idxs(sh).insert(s0.len() as int),
                        )) by {
                            assert forall|j: int| shape_idxs(sh2).contains(j) implies shape_idxs(
                                sh,
                            ).insert(s0.len() as int).contains(j) by {
                                if shape_idxs(res@).contains(j) {
                                    assert(shape_idxs(shl).insert(s0.len() as int).contains(j));
                                }
                            }
                        }
                        assert(shape_idxs(sh).subset_of(shape_idxs(sh2)));
                        assert(shape_distinct(sh2)) by {
                            reveal_with_fuel(shape_distinct, 2);
                            assert(!shape_idxs(res@).contains(cur as int));
                            assert(shape_idxs(res@).disjoint(shape_idxs(shr))) by {
                                assert forall|j: int|
                                    shape_idxs(res@).contains(j) && shape_idxs(shr).contains(
                                        j,
                                    ) implies false by {
                                    assert(shape_idxs(shl).insert(s0.len() as int).contains(j));
                                }
                            }
                        }
                        if shape_vals(s0, sh).contains(v) {
                            assert(shape_vals(s0, shl).contains(v));
                            assert(res@ == shl);
                            assert(sh2 == sh);
                        } else {
                            assert(!shape_vals(s0, shl).contains(v));
                            let (p, d) = choose|p: usize, d: Direction|
                                #![auto]
                                shape_idxs(shl).contains(p as int) && inserted_at(
                                    s0,
                                    nodes@,
                                    v,
                                    p,
                                    d,
                                );
                            assert(shape_idxs(sh).contains(p as int));
                            assert(inserted_at(s0, nodes@, v, p, d));
                        }
                    }
                    Ghost(sh2)
                },
                None => {
                    proof {
                        assert(shl is Nil);
                        assert(!shape_vals(s0, shl).contains(v));
                        assert(!shape_vals(s0, shr).contains(v));
                        assert(shape_vals(s0, sh) == shape_vals(s0, shl).union(
                            shape_vals(s0, shr),
                        ).insert(val));
                        assert(!shape_vals(s0, sh).contains(v));
                    }
                    let new_idx = nodes.len();
                    let mut leaf = SimpleBstNode::new(v);
                    leaf.set_parent(Some(cur));
                    nodes.push(leaf);
                    let mut cnode = nodes[cur];
                    cnode.set_child(Direction::Left, Some(new_idx));
                    nodes[cur] = cnode;
                    let ghost leaf_sh = Shape::Node {
                        i: new_idx as int,
                        l: Box::new(Shape::Nil),
                        r: Box::new(Shape::Nil),
                    };
                    let ghost sh2 = Shape::Node {
                        i: cur as int,
                        l: Box::new(leaf_sh),
                        r: Box::new(shr),
                    };
                    proof {
                        reveal_with_fuel(shape_wf, 3);
                        reveal_with_fuel(shape_ordered, 3);
                        reveal_with_fuel(shape_vals, 3);
                        reveal_with_fuel(shape_idxs, 3);
                        reveal_with_fuel(shape_inorder, 3);
                        reveal_with_fuel(shape_distinct, 3);
                        assert(nodes@ == s0.push(leaf).update(cur as int, cnode));
                        assert(nodes@[new_idx as int] == leaf);
                        assert(nodes@[cur as int] == cnode);
                        lemma_idxs_in_arena(s0, shr, Some(cur as int));
                        lemma_frame(s0, nodes@, shr, Some(cur as int), val as int, hi);
                        assert(shape_wf(nodes@, leaf_sh, Some(cur as int)));
                        assert(shape_wf(nodes@, sh2, parent));
                        assert(shape_ordered(nodes@, sh2, lo, hi));
                        assert(shape_vals(nodes@, sh2) =~= shape_vals(s0, sh).insert(v));
                        assert(shape_idxs(sh2).subset_of(shape_idxs(sh).insert(s0.len() as int)));
                        assert(shape_idxs(sh).subset_of(shape_idxs(sh2)));
                        assert(inserted_at(s0, nodes@, v, cur, Direction::Left));
                        assert(shape_idxs(sh).contains(cur as int));
                    }
                    Ghost(sh2)
                },
            }
        },
        Some(Direction::Right) => {
            proof {
                lemma_vals_bounds(nodes@, shl, lo, val as int);
            }
            match node.get_child(Direction::Right) {
                Some(rc) => {
                    let res = insert_at(
                        nodes,
                        rc,
                        v,
                        Ghost(shr),
                        Ghost(Some(cur as int)),
                        Ghost(val as int),
                        Ghost(hi),
                    );
                    let ghost sh2 = Shape::Node {
                        i: cur as int,
                        l: Box::new(shl),
                        r: Box::new(res@),
                    };
                    proof {
                        lemma_idxs_in_arena(s0, shl, Some(cur as int));
                        assert(nodes@[cur as int] == s0[cur as int]);
                        lemma_frame(s0, nodes@, shl, Some(cur as int), lo, val as int);
                        assert(shape_wf(nodes@, sh2, parent));
                        assert(shape_vals(nodes@, sh2) =~= shape_vals(s0, sh).insert(v));
                        assert(shape_idxs(sh2).subset_of(
                            shape_idxs(sh).insert(s0.len() as int),
                        )) by {
                            assert forall|j: int| shape_idxs(sh2).contains(j) implies shape_idxs(
                                sh,
                            ).insert(s0.len() as int).contains(j) by {
                                if shape_idxs(res@).contains(j) {
                                    assert(shape_idxs(shr).insert(s0.len() as int).contains(j));
                                }
                            }
                        }
                        assert(shape_idxs(sh).subset_of(shape_idxs(sh2)));
                        assert(shape_distinct(sh2)) by {
                            reveal_with_fuel(shape_distinct, 2);
                            assert(!shape_idxs(res@).contains(cur as int));
                            assert(shape_idxs(shl).disjoint(shape_idxs(res@))) by {
                                assert forall|j: int|
                                    shape_idxs(shl).contains(j) && shape_idxs(res@).contains(
                                        j,
                                    ) implies false by {
                                    assert(shape_idxs(shr).insert(s0.len() as int).contains(j));
                                }
                            }
                        }
                        if shape_vals(s0, sh).contains(v) {
                            assert(shape_vals(s0, shr).contains(v));
                            assert(res@ == shr);
                            assert(sh2 == sh);
                        } else {
                            assert(!shape_vals(s0, shr).contains(v));
                            let (p, d) = choose|p: usize, d: Direction|
                                #![auto]
                                shape_idxs(shr).contains(p as int) && inserted_at(
                                    s0,
                                    nodes@,
                                    v,
                                    p,
                                    d,
                                );
                            assert(shape_idxs(sh).contains(p as int));
                            assert(inserted_at(s0, nodes@, v, p, d));
                        }
                    }
                    Ghost(sh2)
                },
                None => {
                    proof {
                        assert(shr is Nil);
                        assert(!shape_vals(s0, shr).contains(v));
                        assert(!shape_vals(s0, shl).contains(v));
                        assert(shape_vals(s0, sh) == shape_vals(s0, shl).union(
                            shape_vals(s0, shr),
                        ).insert(val));
                        assert(!shape_vals(s0, sh).contains(v));
                    }
                    let new_idx = nodes.len();
                    let mut leaf = SimpleBstNode::new(v);
                    leaf.set_parent(Some(cur));
                    nodes.push(leaf);
                    let mut cnode = nodes[cur];
                    cnode.set_child(Direction::Right, Some(new_idx));
                    nodes[cur] = cnode;
                    let ghost leaf_sh = Shape::Node {
                        i: new_idx as int,
                        l: Box::new(Shape::Nil),
                        r: Box::new(Shape::Nil),
                    };
                    let ghost sh2 = Shape::Node {
                        i: cur as int,
                        l: Box::new(shl),
                        r: Box::new(leaf_sh),
                    };
                    proof {
                        reveal_with_fuel(shape_wf, 3);
                        reveal_with_fuel(shape_ordered, 3);
                        reveal_with_fuel(shape_vals, 3);
                        reveal_with_fuel(shape_idxs, 3);
                        reveal_with_fuel(shape_inorder, 3);
                        reveal_with_fuel(shape_distinct, 3);
                        assert(nodes@ == s0.push(leaf).update(cur as int, cnode));
                        assert(nodes@[new_idx as int] == leaf);
                        assert(nodes@[cur as int] == cnode);
                        lemma_idxs_in_arena(s0, shl, Some(cur as int));
                        lemma_frame(s0, nodes@, shl, Some(cur as int), lo, val as int);
                        assert(shape_wf(nodes@, leaf_sh, Some(cur as int)));
                        assert(shape_wf(nodes@, sh2, parent));
                        assert(shape_ordered(nodes@, sh2, lo, hi));
                        assert(shape_vals(nodes@, sh2) =~= shape_vals(s0, sh).insert(v));
                        assert(shape_idxs(sh2).subset_of(shape_idxs(sh).insert(s0.len() as int)));
                        assert(shape_idxs(sh).subset_of(shape_idxs(sh2)));
                        assert(inserted_at(s0, nodes@, v, cur, Direction::Right));
                        assert(shape_idxs(sh).contains(cur as int));
                    }
                    Ghost(sh2)
                },
            }
        },
    }
}

/// A shape keeps all its properties when only its root node's parent field
/// changes and the arena is untouched elsewhere inside the shape.
proof fn lemma_reparent(
    s1: Seq<SimpleBstNode>,
    s2: Seq<SimpleBstNode>,
    sh: Shape,
    p1: Option<int>,
    p2: Option<int>,
    lo: int,
    hi: int,
)
    requires
        shape_wf(s1, sh, p1),
        shape_distinct(sh),
        s1.len() <= s2.len(),
        forall|j: int|
            shape_idxs(sh).contains(j) && Some(j) != sub_root(sh) ==> s2[j] == s1[j],
        sh is Node ==> {
            let ri = sub_root(sh).unwrap();
            &&& s2[ri].spec_value() == s1[ri].spec_value()
            &&& s2[ri].spec_child(Direction::Left) == s1[ri].spec_child(Direction::Left)
            &&& s2[ri].spec_child(Direction::Right) == s1[ri].spec_child(Direction::Right)
            &&& lift(s2[ri].spec_parent()) == p2
        },
    ensures
        shape_wf(s2, sh, p2),
        shape_vals(s2, sh) == shape_vals(s1, sh),
        shape_inorder(s2, sh) == shape_inorder(s1, sh),
        shape_ordered(s1, sh, lo, hi) ==> shape_ordered(s2, sh, lo, hi),
{
    match sh {
        Shape::Nil => {
            assert(shape_vals(s2, sh) =~= shape_vals(s1, sh));
            assert(shape_inorder(s2, sh) =~= shape_inorder(s1, sh));
        },
        Shape::Node { i, l, r } => {
            assert(shape_idxs(sh).contains(i));
            lemma_frame(s1, s2, *l, Some(i), lo, s1[i].spec_value() as int);
            lemma_frame(s1, s2, *r, Some(i), s1[i].spec_value() as int, hi);
            assert(shape_vals(s2, sh) =~= shape_vals(s1, sh));
            assert(shape_inorder(s2, sh) =~= shape_inorder(s1, sh));
        },
    }
}

impl SimpleBst {
    /// Collects the tree's values in ascending order, by an in-order walk.
    pub fn in_order(&self) -> (r: Vec<u64>)
        requires
            self.wf(),
        ensures
            r@ == self.in_order_view(),
            sorted_strict(r@),
            r@.to_set() == self@,
    {
        let mut out: Vec<u64> = Vec::new();
        match self.root {
            None => {
                proof {
                    assert(self.shape@ is Nil);
                    assert(out@ =~= self.in_order_view());
                    assert(out@.to_set() =~= self@);
                }
            },
            Some(root) => {
                in_order_at(&self.nodes, root, Ghost(self.shape@), Ghost(None), &mut out);
                proof {
                    lemma_inorder_sorted(self.nodes@, self.shape@, no_low(), no_high());
                    assert(out@ =~= self.in_order_view());
                }
            },
        }
        out
    }

    /// Returns an iterator over the tree's values in ascending order. The
    /// iterator holds owned copies of the values, so it stays valid however
    /// long it is kept.
    pub fn iter(&self) -> (it: BstIterator)
        requires
            self.wf(),
        ensures
            it.inv(),
            it.remaining() == self.in_order_view(),
    {
        let values = self.in_order();
        BstIterator { values, pos: 0 }
    }
}

/// The recursive in-order walk behind `SimpleBst::in_order`.
fn in_order_at(
    nodes: &Vec<SimpleBstNode>,
    cur: usize,
    Ghost(sh): Ghost<Shape>,
    Ghost(parent): Ghost<Option<int>>,
    out: &mut Vec<u64>,
)
    requires
        shape_wf(nodes@, sh, parent),
        sub_root(sh) == Some(cur as int),
    ensures
        final(out)@ == old(out)@ + shape_inorder(nodes@, sh),
    decreases sh,
{
    let ghost shl = sub_left(sh);
    let ghost shr = sub_right(sh);
    let node = nodes[cur];
    match node.get_child(Direction::Left) {
        Some(lc) => {
            in_order_at(nodes, lc, Ghost(shl), Ghost(Some(cur as int)), out);
        },
        None => {
            proof {
                assert(shl is Nil);
            }
        },
    }
    out.push(node.as_value());
    match node.get_child(Direction::Right) {
        Some(rc) => {
            in_order_at(nodes, rc, Ghost(shr), Ghost(Some(cur as int)), out);
        },
        None => {
            proof {
                assert(shr is Nil);
            }
        },
    }
    proof {
        assert(final(out)@ =~= old(out)@ + shape_inorder(nodes@, sh));
    }
}

/// An iterator over a tree's values in ascending order, produced by
/// `SimpleBst::iter`. It yields owned values and does not borrow the tree.
pub struct BstIterator {
    values: Vec<u64>,
    pos: usize,
}

impl BstIterator {
    /// The iterator has not run past its backing values.
    pub closed spec fn inv(self) -> bool {
        self.pos <= self.values@.len()
    }

    /// The values the iterator has yet to yield.
    pub closed spec fn remaining(self) -> Seq<u64> {
        self.values@.skip(self.pos as int)
    }

    /// Yields the next value in ascending order, or `None` when exhausted.
    pub fn next(&mut self) -> (r: Option<u64>)
        requires
            old(self).inv(),
        ensures
            final(self).inv(),
            old(self).remaining().len() == 0 ==> r is None && final(self).remaining()
                == old(self).remaining(),
            old(self).remaining().len() > 0 ==> r == Some(old(self).remaining()[0])
                && final(self).remaining() == old(self).remaining().skip(1),
    {
        if self.pos < self.values.len() {
            let v = self.values[self.pos];
            self.pos = self.pos + 1;
            proof {
                assert(final(self).remaining() =~= old(self).remaining().skip(1));
            }
            Some(v)
        } else {
            None
        }
    }
}

/// Relies on `rand::random::<bool>`: draws one boolean from the thread-local
/// random generator; nothing is assumed about which one comes back.
#[verifier::external_body]
fn random_bool() -> bool {
    rand::random::<bool>()
}

/// The uniformly random tie-break used by two-child deletion.
fn get_random_direction() -> (d: Direction)
    ensures
        d == Direction::Left || d == Direction::Right,
{
    if random_bool() {
        Direction::Left
    } else {
        Direction::Right
    }
}

/// Descends to the rightmost node of the subtree rooted at `cur` and splices
/// it out: the rightmost node keeps only its value, and its left subtree, if
/// any, takes its place under its former parent, so that exactly one value
/// leaves the subtree. The returned shape has its upper bound tightened to
/// the severed value.
fn cut_rightmost(
    nodes: &mut Vec<SimpleBstNode>,
    cur: usize,
    Ghost(sh): Ghost<Shape>,
    Ghost(parent): Ghost<Option<int>>,
    Ghost(lo): Ghost<int>,
    Ghost(hi): Ghost<int>,
) -> (res: (usize, Ghost<Shape>))
    requires
        shape_wf(old(nodes)@, sh, parent),
        shape_distinct(sh),
        shape_ordered(old(nodes)@, sh, lo, hi),
        sub_root(sh) == Some(cur as int),
        old(nodes)@[cur as int].spec_child(Direction::Right) is Some,
    ensures
        ({
            let (rm, g) = res;
            let f = final(nodes)@;
            &&& f.len() == old(nodes)@.len()
            &&& forall|j: int|
                0 <= j < old(nodes)@.len() && !shape_idxs(sh).contains(j) ==> f[j] == old(
                    nodes,
                )@[j]
            &&& shape_wf(f, g@, parent)
            &&& shape_distinct(g@)
            &&& sub_root(g@) == Some(cur as int)
            &&& shape_ordered(f, g@, lo, f[rm as int].spec_value() as int)
            &&& shape_idxs(g@).subset_of(shape_idxs(sh))
            &&& !shape_idxs(g@).contains(rm as int)
            &&& shape_idxs(sh).contains(rm as int)
            &&& 0 <= rm < f.len()
            &&& f[rm as int].spec_unlinked()
            &&& lo < f[rm as int].spec_value() < hi
            &&& shape_vals(old(nodes)@, sh).contains(f[rm as int].spec_value())
            &&& shape_vals(f, g@) == shape_vals(old(nodes)@, sh).remove(f[rm as int].spec_value())
            &&& shape_inorder(f, g@).len() + 1 == shape_inorder(old(nodes)@, sh).len()
        }),
    decreases sh,
{
    let ghost s0 = nodes@;
    let node = nodes[cur];
    let ghost shl = sub_left(sh);
    let ghost shr = sub_right(sh);
    let ghost val = node.spec_value();
    proof {
        assert(sh == Shape::Node { i: cur as int, l: Box::new(shl), r: Box::new(shr) });
        lemma_idxs_in_arena(s0, sh, parent);
        lemma_vals_bounds(s0, shr, val as int, hi);
        lemma_vals_bounds(s0, shl, lo, val as int);
    }
    let rc = match node.get_child(Direction::Right) {
        Some(rc) => rc,
        None => vstd::pervasive::unreached(),
    };
    proof {
        assert(sub_root(shr) == Some(rc as int));
        assert(shr is Node);
        assert(shape_wf(s0, shr, Some(cur as int)));
        assert((rc as int) < s0.len());
    }
    let rnode = nodes[rc];
    match rnode.get_child(Direction::Right) {
        Some(_) => {
            let res = cut_rightmost(
                nodes,
                rc,
                Ghost(shr),
                Ghost(Some(cur as int)),
                Ghost(val as int),
                Ghost(hi),
            );
            let (rm, g_r) = res;
            let ghost f = nodes@;
            let ghost g = Shape::Node { i: cur as int, l: Box::new(shl), r: Box::new(g_r@) };
            proof {
                lemma_idxs_in_arena(s0, shl, Some(cur as int));
                assert(f[cur as int] == s0[cur as int]);
                lemma_frame(s0, f, shl, Some(cur as int), lo, val as int);
                assert(shape_wf(f, g, parent));
                let rmv = f[rm as int].spec_value();
                assert(val < rmv);
                assert(shape_ordered(f, g, lo, rmv as int));
                assert(shape_vals(f, g) =~= shape_vals(s0, sh).remove(rmv)) by {
                    assert(shape_vals(s0, shr).contains(rmv));
                    assert forall|x: u64| shape_vals(f, g).contains(x) implies shape_vals(
                        s0,
                        sh,
                    ).remove(rmv).contains(x) by {
                        if shape_vals(f, shl).contains(x) {
                            assert(x < val);
                        } else if shape_vals(f, g_r@).contains(x) {
                            assert(shape_vals(s0, shr).remove(rmv).contains(x));
                        } else {
                            assert(x == val);
                        }
                    }
                    assert forall|x: u64|
                        shape_vals(s0, sh).remove(rmv).contains(x) implies shape_vals(
                        f,
                        g,
                    ).contains(x) by {
                        if shape_vals(s0, shr).contains(x) {
                            assert(shape_vals(s0, shr).remove(rmv).contains(x));
                        }
                    }
                }
                assert(shape_idxs(g).subset_of(shape_idxs(sh))) by {
                    assert forall|j: int| shape_idxs(g).contains(j) implies shape_idxs(
                        sh,
                    ).contains(j) by {
                        if shape_idxs(g_r@).contains(j) {
                            assert(shape_idxs(shr).contains(j));
                        }
                    }
                }
                assert(shape_inorder(f, g).len() + 1 == shape_inorder(s0, sh).len());
            }
            (rm, Ghost(g))
        },
        None => {
            // `rc` is the rightmost node: splice it out, reattaching its
            // left subtree, if any, in its place under `cur`
            let rl = rnode.get_child(Direction::Left);
            let mut cnode = nodes[cur];
            cnode.set_child(Direction::Right, rl);
            nodes[cur] = cnode;
            let mut rn = nodes[rc];
            rn.set_parent(None);
            rn.set_child(Direction::Left, None);
            rn.set_child(Direction::Right, None);
            nodes[rc] = rn;
            match rl {
                Some(c) => {
                    proof {
                        assert(shape_wf(s0, sub_left(shr), Some(rc as int)));
                        assert(sub_root(sub_left(shr)) == Some(c as int));
                        assert(sub_left(shr) is Node);
                        assert((c as int) < s0.len());
                    }
                    let mut cn = nodes[c];
                    cn.set_parent(Some(cur));
                    nodes[c] = cn;
                },
                None => {},
            }
            let ghost rls = sub_left(shr);
            let ghost f = nodes@;
            let ghost g = Shape::Node { i: cur as int, l: Box::new(shl), r: Box::new(rls) };
            proof {
                reveal_with_fuel(shape_wf, 2);
                reveal_with_fuel(shape_ordered, 2);
                reveal_with_fuel(shape_vals, 2);
                reveal_with_fuel(shape_idxs, 2);
                reveal_with_fuel(shape_inorder, 2);
                reveal_with_fuel(shape_distinct, 2);
                lemma_idxs_in_arena(s0, shl, Some(cur as int));
                lemma_idxs_in_arena(s0, shr, Some(cur as int));
                let rmv = s0[rc as int].spec_value();
                assert(shape_vals(s0, shr).contains(rmv));
                assert(shape_idxs(shr).contains(rc as int));
                assert(f[cur as int] == cnode);
                lemma_frame(s0, f, shl, Some(cur as int), lo, val as int);
                assert(shape_distinct(shr));
                assert(shape_ordered(s0, shr, val as int, hi));
                assert(shape_ordered(s0, rls, val as int, rmv as int));
                assert(shape_wf(s0, rls, Some(rc as int)));
                assert forall|j: int|
                    shape_idxs(rls).contains(j) && Some(j) != sub_root(rls) implies f[j] == s0[j] by {
                    assert(shape_idxs(shr).contains(j));
                    assert(0 <= j < s0.len());
                    assert(j != cur as int);
                    assert(j != rc as int);
                    assert(!shape_idxs(shl).contains(j));
                }
                lemma_reparent(s0, f, rls, Some(rc as int), Some(cur as int), val as int, rmv as int);
                assert(shape_wf(f, g, parent));
                assert(val < rmv);
                assert(shape_ordered(f, g, lo, rmv as int));
                assert(f[rc as int].spec_unlinked());
                assert(f[rc as int].spec_value() == rmv);
                lemma_vals_bounds(s0, rls, val as int, rmv as int);
                assert(shape_vals(f, g) =~= shape_vals(s0, sh).remove(rmv)) by {
                    assert(shape_vals(s0, shr) == shape_vals(s0, rls).union(
                        shape_vals(s0, Shape::Nil),
                    ).insert(rmv));
                    assert forall|x: u64| shape_vals(f, g).contains(x) implies shape_vals(
                        s0,
                        sh,
                    ).remove(rmv).contains(x) by {
                        if shape_vals(f, shl).contains(x) {
                            assert(x < val);
                        } else if shape_vals(f, rls).contains(x) {
                            assert(shape_vals(s0, rls).contains(x));
                            assert(x < rmv);
                            assert(shape_vals(s0, shr).contains(x));
                        } else {
                            assert(x == val);
                        }
                    }
                    assert forall|x: u64|
                        shape_vals(s0, sh).remove(rmv).contains(x) implies shape_vals(
                        f,
                        g,
                    ).contains(x) by {
                        if shape_vals(s0, shr).contains(x) {
                            assert(shape_vals(s0, rls).contains(x) || x == rmv);
                        }
                    }
                }
                assert(shape_inorder(f, g).len() + 1 == shape_inorder(s0, sh).len()) by {
                    assert(shape_inorder(f, g).len() == shape_inorder(f, shl).len() + 1
                        + shape_inorder(f, rls).len());
                    assert(shape_inorder(f, rls) == shape_inorder(s0, rls));
                    assert(shape_inorder(s0, shr) == shape_inorder(s0, rls) + seq![rmv]
                        + shape_inorder(s0, Shape::Nil));
                    assert(shape_inorder(s0, sh).len() == shape_inorder(s0, shl).len() + 1
                        + shape_inorder(s0, shr).len());
                }
            }
            (rc, Ghost(g))
        },
    }
}

/// The mirror of `cut_rightmost`: descends to the leftmost node of the
/// subtree rooted at `cur` and splices it out, reattaching its right
/// subtree, if any, in its place. The returned shape has its lower bound
/// tightened to the severed value.
fn cut_leftmost(
    nodes: &mut Vec<SimpleBstNode>,
    cur: usize,
    Ghost(sh): Ghost<Shape>,
    Ghost(parent): Ghost<Option<int>>,
    Ghost(lo): Ghost<int>,
    Ghost(hi): Ghost<int>,
) -> (res: (usize, Ghost<Shape>))
    requires
        shape_wf(old(nodes)@, sh, parent),
        shape_distinct(sh),
        shape_ordered(old(nodes)@, sh, lo, hi),
        sub_root(sh) == Some(cur as int),
        old(nodes)@[cur as int].spec_child(Direction::Left) is Some,
    ensures
        ({
            let (lm, g) = res;
            let f = final(nodes)@;
            &&& f.len() == old(nodes)@.len()
            &&& forall|j: int|
                0 <= j < old(nodes)@.len() && !shape_idxs(sh).contains(j) ==> f[j] == old(
                    nodes,
                )@[j]
            &&& shape_wf(f, g@, parent)
            &&& shape_distinct(g@)
            &&& sub_root(g@) == Some(cur as int)
            &&& shape_ordered(f, g@, f[lm as int].spec_value() as int, hi)
            &&& shape_idxs(g@).subset_of(shape_idxs(sh))
            &&& !shape_idxs(g@).contains(lm as int)
            &&& shape_idxs(sh).contains(lm as int)
            &&& 0 <= lm < f.len()
            &&& f[lm as int].spec_unlinked()
            &&& lo < f[lm as int].spec_value() < hi
            &&& shape_vals(old(nodes)@, sh).contains(f[lm as int].spec_value())
            &&& shape_vals(f, g@) == shape_vals(old(nodes)@, sh).remove(f[lm as int].spec_value())
            &&& shape_inorder(f, g@).len() + 1 == shape_inorder(old(nodes)@, sh).len()
        }),
    decreases sh,
{
    let ghost s0 = nodes@;
    let node = nodes[cur];
    let ghost shl = sub_left(sh);
    let ghost shr = sub_right(sh);
    let ghost val = node.spec_value();
    proof {
        assert(sh == Shape::Node { i: cur as int, l: Box::new(shl), r: Box::new(shr) });
        lemma_idxs_in_arena(s0, sh, parent);
        lemma_vals_bounds(s0, shr, val as int, hi);
        lemma_vals_bounds(s0, shl, lo, val as int);
    }
    let lc = match node.get_child(Direction::Left) {
        Some(lc) => lc,
        None => vstd::pervasive::unreached(),
    };
    proof {
        assert(sub_root(shl) == Some(lc as int));
        assert(shl is Node);
        assert(shape_wf(s0, shl, Some(cur as int)));
        assert((lc as int) < s0.len());
    }
    let lnode = nodes[lc];
    match lnode.get_child(Direction::Left) {
        Some(_) => {
            let res = cut_leftmost(
                nodes,
                lc,
                Ghost(shl),
                Ghost(Some(cur as int)),
                Ghost(lo),
                Ghost(val as int),
            );
            let (lm, g_l) = res;
            let ghost f = nodes@;
            let ghost g = Shape::Node { i: cur as int, l: Box::new(g_l@), r: Box::new(shr) };
            proof {
                lemma_idxs_in_arena(s0, shr, Some(cur as int));
                assert(f[cur as int] == s0[cur as int]);
                lemma_frame(s0, f, shr, Some(cur as int), val as int, hi);
                assert(shape_wf(f, g, parent));
                let lmv = f[lm as int].spec_value();
                assert(lmv < val);
                assert(shape_ordered(f, g, lmv as int, hi));
                assert(shape_vals(f, g) =~= shape_vals(s0, sh).remove(lmv)) by {
                    assert(shape_vals(s0, shl).contains(lmv));
                    assert forall|x: u64| shape_vals(f, g).contains(x) implies shape_vals(
                        s0,
                        sh,
                    ).remove(lmv).contains(x) by {
                        if shape_vals(f, shr).contains(x) {
                            assert(x > val);
                        } else if shape_vals(f, g_l@).contains(x) {
                            assert(shape_vals(s0, shl).remove(lmv).contains(x));
                        } else {
                            assert(x == val);
                        }
                    }
                    assert forall|x: u64|
                        shape_vals(s0, sh).remove(lmv).contains(x) implies shape_vals(
                        f,
                        g,
                    ).contains(x) by {
                        if shape_vals(s0, shl).contains(x) {
                            assert(shape_vals(s0, shl).remove(lmv).contains(x));
                        }
                    }
                }
                assert(shape_idxs(g).subset_of(shape_idxs(sh))) by {
                    assert forall|j: int| shape_idxs(g).contains(j) implies shape_idxs(
                        sh,
                    ).contains(j) by {
                        if shape_idxs(g_l@).contains(j) {
                            assert(shape_idxs(shl).contains(j));
                        }
                    }
                }
                assert(shape_inorder(f, g).len() + 1 == shape_inorder(s0, sh).len());
            }
            (lm, Ghost(g))
        },
        None => {
            // `lc` is the leftmost node: splice it out, reattaching its
            // right subtree, if any, in its place under `cur`
            let lr = lnode.get_child(Direction::Right);
            let mut cnode = nodes[cur];
            cnode.set_child(Direction::Left, lr);
            nodes[cur] = cnode;
            let mut ln = nodes[lc];
            ln.set_parent(None);
            ln.set_child(Direction::Left, None);
            ln.set_child(Direction::Right, None);
            nodes[lc] = ln;
            match lr {
                Some(c) => {
                    proof {
                        assert(shape_wf(s0, sub_right(shl), Some(lc as int)));
                        assert(sub_root(sub_right(shl)) == Some(c as int));
                        assert(sub_right(shl) is Node);
                        assert((c as int) < s0.len());
                    }
                    let mut cn = nodes[c];
                    cn.set_parent(Some(cur));
                    nodes[c] = cn;
                },
                None => {},
            }
            let ghost lrs = sub_right(shl);
            let ghost f = nodes@;
            let ghost g = Shape::Node { i: cur as int, l: Box::new(lrs), r: Box::new(shr) };
            proof {
                reveal_with_fuel(shape_wf, 2);
                reveal_with_fuel(shape_ordered, 2);
                reveal_with_fuel(shape_vals, 2);
                reveal_with_fuel(shape_idxs, 2);
                reveal_with_fuel(shape_inorder, 2);
                reveal_with_fuel(shape_distinct, 2);
                lemma_idxs_in_arena(s0, shl, Some(cur as int));
                lemma_idxs_in_arena(s0, shr, Some(cur as int));
                let lmv = s0[lc as int].spec_value();
                assert(shape_vals(s0, shl).contains(lmv));
                assert(shape_idxs(shl).contains(lc as int));
                assert(f[cur as int] == cnode);
                lemma_frame(s0, f, shr, Some(cur as int), val as int, hi);
                assert(shape_distinct(shl));
                assert(shape_ordered(s0, shl, lo, val as int));
                assert(shape_ordered(s0, lrs, lmv as int, val as int));
                assert(shape_wf(s0, lrs, Some(lc as int)));
                assert forall|j: int|
                    shape_idxs(lrs).contains(j) && Some(j) != sub_root(lrs) implies f[j] == s0[j] by {
                    assert(shape_idxs(shl).contains(j));
                    assert(0 <= j < s0.len());
                    assert(j != cur as int);
                    assert(j != lc as int);
                    assert(!shape_idxs(shr).contains(j));
                }
                lemma_reparent(s0, f, lrs, Some(lc as int), Some(cur as int), lmv as int, val as int);
                assert(shape_wf(f, g, parent));
                assert(lmv < val);
                assert(shape_ordered(f, g, lmv as int, hi));
                assert(f[lc as int].spec_unlinked());
                assert(f[lc as int].spec_value() == lmv);
                lemma_vals_bounds(s0, lrs, lmv as int, val as int);
                assert(shape_vals(f, g) =~= shape_vals(s0, sh).remove(lmv)) by {
                    assert(shape_vals(s0, shl) == shape_vals(s0, Shape::Nil).union(
                        shape_vals(s0, lrs),
                    ).insert(lmv));
                    assert forall|x: u64| shape_vals(f, g).contains(x) implies shape_vals(
                        s0,
                        sh,
                    ).remove(lmv).contains(x) by {
                        if shape_vals(f, shr).contains(x) {
                            assert(x > val);
                        } else if shape_vals(f, lrs).contains(x) {
                            assert(shape_vals(s0, lrs).contains(x));
                            assert(x > lmv);
                            assert(shape_vals(s0, shl).contains(x));
                        } else {
                            assert(x == val);
                        }
                    }
                    assert forall|x: u64|
                        shape_vals(s0, sh).remove(lmv).contains(x) implies shape_vals(
                        f,
                        g,
                    ).contains(x) by {
                        if shape_vals(s0, shl).contains(x) {
                            assert(shape_vals(s0, lrs).contains(x) || x == lmv);
                        }
                    }
                }
                assert(shape_inorder(f, g).len() + 1 == shape_inorder(s0, sh).len()) by {
                    assert(shape_inorder(f, g).len() == shape_inorder(f, lrs).len() + 1
                        + shape_inorder(f, shr).len());
                    assert(shape_inorder(f, lrs) == shape_inorder(s0, lrs));
                    assert(shape_inorder(s0, shl) == shape_inorder(s0, Shape::Nil)
                        + seq![lmv] + shape_inorder(s0, lrs));
                    assert(shape_inorder(s0, sh).len() == shape_inorder(s0, shl).len() + 1
                        + shape_inorder(s0, shr).len());
                }
            }
            (lc, Ghost(g))
        },
    }
}

/// Given a subtree root, removes that node from the subtree, splices a
/// replacement into its place, and returns the index of the new subtree root
/// (if any) together with the new ghost skeleton. With two children, a
/// uniformly random coin picks which side donates the promoted extremum;
/// either way exactly the root's value leaves the subtree, and the removed
/// node ends fully unlinked.
fn delete_subtree_root(
    nodes: &mut Vec<SimpleBstNode>,
    cur: usize,
    parent_idx: Option<usize>,
    Ghost(sh): Ghost<Shape>,
    Ghost(parent): Ghost<Option<int>>,
    Ghost(lo): Ghost<int>,
    Ghost(hi): Ghost<int>,
) -> (res: (Option<usize>, Ghost<Shape>))
    requires
        shape_wf(old(nodes)@, sh, parent),
        shape_distinct(sh),
        shape_ordered(old(nodes)@, sh, lo, hi),
        sub_root(sh) == Some(cur as int),
        lift(parent_idx) == parent,
    ensures
        ({
            let (nr, g) = res;
            let f = final(nodes)@;
            &&& f.len() == old(nodes)@.len()
            &&& forall|j: int|
                0 <= j < old(nodes)@.len() && !shape_idxs(sh).contains(j) ==> f[j] == old(
                    nodes,
                )@[j]
            &&& shape_wf(f, g@, parent)
            &&& shape_distinct(g@)
            &&& shape_ordered(f, g@, lo, hi)
            &&& sub_root(g@) == lift(nr)
            &&& shape_idxs(g@).subset_of(shape_idxs(sh).remove(cur as int))
            &&& shape_vals(f, g@) == shape_vals(old(nodes)@, sh).remove(
                old(nodes)@[cur as int].spec_value(),
            )
            &&& shape_inorder(f, g@).len() + 1 == shape_inorder(old(nodes)@, sh).len()
            &&& f[cur as int].spec_unlinked()
            &&& f[cur as int].spec_value() == old(nodes)@[cur as int].spec_value()
        }),
{
    let ghost s0 = nodes@;
    let node = nodes[cur];
    let ghost shl = sub_left(sh);
    let ghost shr = sub_right(sh);
    let ghost val = node.spec_value();
    proof {
        assert(sh == Shape::Node { i: cur as int, l: Box::new(shl), r: Box::new(shr) });
        lemma_idxs_in_arena(s0, sh, parent);
        lemma_vals_bounds(s0, shr, val as int, hi);
        lemma_vals_bounds(s0, shl, lo, val as int);
    }
    // The extraction step: clear this node's three links; a parent's slot is
    // handled by the caller, children's parent links are cleared here.
    let mut cnode = nodes[cur];
    cnode.set_parent(None);
    cnode.set_child(Direction::Left, None);
    cnode.set_child(Direction::Right, None);
    nodes[cur] = cnode;
    match node.get_child(Direction::Left) {
        Some(lc) => {
            proof {
                assert(sub_root(shl) == Some(lc as int));
                assert(shape_wf(s0, shl, Some(cur as int)));
                assert((lc as int) < s0.len());
            }
            let mut n = nodes[lc];
            n.set_parent(None);
            nodes[lc] = n;
        },
        None => {},
    }
    match node.get_child(Direction::Right) {
        Some(rc) => {
            proof {
                assert(sub_root(shr) == Some(rc as int));
                assert(shape_wf(s0, shr, Some(cur as int)));
                assert((rc as int) < s0.len());
            }
            let mut n = nodes[rc];
            n.set_parent(None);
            nodes[rc] = n;
        },
        None => {},
    }
    let ghost s1 = nodes@;
    proof {
        assert(!shape_idxs(shl).contains(cur as int));
        assert(!shape_idxs(shr).contains(cur as int));
        if node.spec_child(Direction::Left) is Some {
            let lci = node.spec_child(Direction::Left).unwrap() as int;
            assert(sub_root(shl) == Some(lci));
            assert(shape_idxs(shl).contains(lci));
            assert(!shape_idxs(shr).contains(lci));
        }
        if node.spec_child(Direction::Right) is Some {
            let rci = node.spec_child(Direction::Right).unwrap() as int;
            assert(sub_root(shr) == Some(rci));
            assert(shape_idxs(shr).contains(rci));
            assert(!shape_idxs(shl).contains(rci));
        }
        lemma_idxs_in_arena(s0, shl, Some(cur as int));
        lemma_idxs_in_arena(s0, shr, Some(cur as int));
        assert forall|j: int|
            shape_idxs(shl).contains(j) && Some(j) != sub_root(shl) implies s1[j] == s0[j] by {
            assert(0 <= j < s0.len());
            assert(j != cur as int);
            assert(!shape_idxs(shr).contains(j));
        }
        assert forall|j: int|
            shape_idxs(shr).contains(j) && Some(j) != sub_root(shr) implies s1[j] == s0[j] by {
            assert(0 <= j < s0.len());
            assert(j != cur as int);
            assert(!shape_idxs(shl).contains(j));
        }
        // after extraction both former subtrees stand alone as roots
        lemma_reparent(s0, s1, shl, Some(cur as int), None, lo, val as int);
        lemma_reparent(s0, s1, shr, Some(cur as int), None, val as int, hi);
        assert(s1[cur as int].spec_unlinked());
        assert(s1.len() == s0.len());
    }
    match (node.get_child(Direction::Left), node.get_child(Direction::Right)) {
        (None, None) => {
            proof {
                assert(shl is Nil);
                assert(shr is Nil);
                assert(shape_inorder(s0, sh) == shape_inorder(s0, shl) + seq![val]
                    + shape_inorder(s0, shr));
                assert(shape_inorder(s0, sh).len() == 1);
                assert(shape_inorder(nodes@, Shape::Nil).len() == 0);
                assert(shape_vals(nodes@, Shape::Nil) =~= Set::<u64>::empty());
                assert(shape_idxs(Shape::Nil) =~= Set::<int>::empty());
                assert(shape_vals(nodes@, Shape::Nil) =~= shape_vals(s0, sh).remove(val));
                assert(nodes@[cur as int].spec_unlinked());
                assert(nodes@[cur as int].spec_value() == val);
            }
            (None, Ghost(Shape::Nil))
        },
        (Some(c), None) => {
            let mut ch = nodes[c];
            ch.set_parent(parent_idx);
            nodes[c] = ch;
            let ghost f = nodes@;
            proof {
                assert(shr is Nil);
                lemma_reparent(s1, f, shl, None, parent, lo, val as int);
                lemma_ordered_relax(f, shl, lo, val as int, lo, hi);
                assert(shape_vals(f, shl).subset_of(shape_vals(s0, sh).remove(val))) by {
                    assert forall|x: u64| shape_vals(f, shl).contains(x) implies shape_vals(
                        s0,
                        sh,
                    ).contains(x) && x != val by {
                        assert(shape_vals(s0, shl).contains(x));
                    }
                }
                assert(shape_idxs(shl).subset_of(shape_idxs(sh).remove(cur as int)));
                assert(shape_inorder(f, shl).len() + 1 == shape_inorder(s0, sh).len()) by {
                    assert(shape_inorder(s0, sh) == shape_inorder(s0, shl) + seq![val]
                        + shape_inorder(s0, shr));
                    assert(shape_inorder(s0, shr).len() == 0);
                    assert(shape_inorder(f, shl) == shape_inorder(s1, shl));
                    assert(shape_inorder(s1, shl) == shape_inorder(s0, shl));
                }
                assert(shape_vals(f, shl) =~= shape_vals(s0, sh).remove(val));
                assert(f[cur as int] == s1[cur as int]);
                assert(f[cur as int].spec_unlinked());
            }
            (Some(c), Ghost(shl))
        },
        (None, Some(c)) => {
            let mut ch = nodes[c];
            ch.set_parent(parent_idx);
            nodes[c] = ch;
            let ghost f = nodes@;
            proof {
                assert(shl is Nil);
                lemma_reparent(s1, f, shr, None, parent, val as int, hi);
                lemma_ordered_relax(f, shr, val as int, hi, lo, hi);
                assert(shape_vals(f, shr).subset_of(shape_vals(s0, sh).remove(val))) by {
                    assert forall|x: u64| shape_vals(f, shr).contains(x) implies shape_vals(
                        s0,
                        sh,
                    ).contains(x) && x != val by {
                        assert(shape_vals(s0, shr).contains(x));
                    }
                }
                assert(shape_idxs(shr).subset_of(shape_idxs(sh).remove(cur as int)));
                assert(shape_inorder(f, shr).len() + 1 == shape_inorder(s0, sh).len()) by {
                    assert(shape_inorder(s0, sh) == shape_inorder(s0, shl) + seq![val]
                        + shape_inorder(s0, shr));
                    assert(shape_inorder(s0, shl).len() == 0);
                    assert(shape_inorder(f, shr) == shape_inorder(s1, shr));
                    assert(shape_inorder(s1, shr) == shape_inorder(s0, shr));
                }
                assert(shape_vals(f, shr) =~= shape_vals(s0, sh).remove(val));
                assert(f[cur as int] == s1[cur as int]);
                assert(f[cur as int].spec_unlinked());
            }
            (Some(c), Ghost(shr))
        },
        (Some(lc), Some(rc)) => {
            match get_random_direction() {
                Direction::Left => {
                    let has_inner = nodes[lc].get_child(Direction::Right).is_some();
                    if has_inner {
                        // the left child has a right subtree: promote the
                        // rightmost descendant of the left subtree
                        let res = cut_rightmost(
                            nodes,
                            lc,
                            Ghost(shl),
                            Ghost(None),
                            Ghost(lo),
                            Ghost(val as int),
                        );
                        let (rm, g_l) = res;
                        let ghost s2 = nodes@;
                        let ghost rmv = s2[rm as int].spec_value();
                        let mut rmn = nodes[rm];
                        rmn.set_child(Direction::Left, Some(lc));
                        rmn.set_child(Direction::Right, Some(rc));
                        rmn.set_parent(parent_idx);
                        nodes[rm] = rmn;
                        let mut lcn = nodes[lc];
                        lcn.set_parent(Some(rm));
                        nodes[lc] = lcn;
                        let mut rcn = nodes[rc];
                        rcn.set_parent(Some(rm));
                        nodes[rc] = rcn;
                        let ghost f = nodes@;
                        let ghost g = Shape::Node {
                            i: rm as int,
                            l: Box::new(g_l@),
                            r: Box::new(shr),
                        };
                        proof {
                            assert(shape_idxs(g_l@).subset_of(shape_idxs(shl)));
                            assert(shape_idxs(shl).contains(rm as int));
                            assert(!shape_idxs(shr).contains(rm as int));
                            assert(!shape_idxs(shr).contains(lc as int));
                            assert(!shape_idxs(g_l@).contains(rc as int));
                            lemma_reparent(s2, f, g_l@, None, Some(rm as int), lo, rmv as int);
                            lemma_frame(s1, s2, shr, None, val as int, hi);
                            lemma_reparent(s2, f, shr, None, Some(rm as int), val as int, hi);
                            lemma_ordered_relax(f, shr, val as int, hi, rmv as int, hi);
                            assert(shape_wf(f, g, parent));
                            assert(shape_ordered(f, g, lo, hi));
                            assert(shape_distinct(g)) by {
                                assert(shape_idxs(g_l@).disjoint(shape_idxs(shr))) by {
                                    assert forall|j: int|
                                        shape_idxs(g_l@).contains(j) && shape_idxs(shr).contains(
                                            j,
                                        ) implies false by {
                                        assert(shape_idxs(shl).contains(j));
                                    }
                                }
                            }
                            assert(shape_idxs(g).subset_of(shape_idxs(sh).remove(cur as int)))
                                by {
                                assert forall|j: int| shape_idxs(g).contains(j) implies shape_idxs(
                                    sh,
                                ).remove(cur as int).contains(j) by {
                                    if shape_idxs(g_l@).contains(j) {
                                        assert(shape_idxs(shl).contains(j));
                                    }
                                }
                            }
                            assert(shape_vals(f, g) =~= shape_vals(s0, sh).remove(val)) by {
                                assert(shape_vals(s2, g_l@) == shape_vals(s1, shl).remove(rmv));
                                assert(shape_vals(s1, shl) == shape_vals(s0, shl));
                                assert(shape_vals(s1, shl).contains(rmv));
                                assert forall|x: u64| shape_vals(f, g).contains(x) implies
                                    shape_vals(s0, sh).contains(x) && x != val by {
                                    if shape_vals(f, g_l@).contains(x) {
                                        assert(shape_vals(s2, g_l@).contains(x));
                                        assert(shape_vals(s0, shl).contains(x));
                                    } else if shape_vals(f, shr).contains(x) {
                                        assert(shape_vals(s0, shr).contains(x));
                                    } else {
                                        assert(x == rmv);
                                        assert(shape_vals(s0, shl).contains(rmv));
                                    }
                                }
                                assert forall|x: u64|
                                    shape_vals(s0, sh).contains(x) && x != val implies shape_vals(
                                    f,
                                    g,
                                ).contains(x) by {
                                    if shape_vals(s0, shl).contains(x) {
                                        if x != rmv {
                                            assert(shape_vals(s1, shl).remove(rmv).contains(x));
                                            assert(shape_vals(s2, g_l@).contains(x));
                                            assert(shape_vals(f, g_l@).contains(x));
                                        }
                                    } else if shape_vals(s0, shr).contains(x) {
                                        assert(shape_vals(f, shr).contains(x));
                                    }
                                }
                            }
                            assert(shape_inorder(f, g).len() + 1 == shape_inorder(s0, sh).len())
                                by {
                                assert(shape_inorder(f, g_l@) == shape_inorder(s2, g_l@));
                                assert(shape_inorder(s2, g_l@).len() + 1 == shape_inorder(
                                    s1,
                                    shl,
                                ).len());
                                assert(shape_inorder(s1, shl) == shape_inorder(s0, shl));
                                assert(shape_inorder(f, shr) == shape_inorder(s2, shr));
                                assert(shape_inorder(s2, shr) == shape_inorder(s1, shr));
                                assert(shape_inorder(s1, shr) == shape_inorder(s0, shr));
                            }
                            assert(f[cur as int] == s1[cur as int]);
                            assert(f[cur as int].spec_unlinked());
                        }
                        (Some(rm), Ghost(g))
                    } else {
                        // the left child has no right subtree: lift it one
                        // level and attach the right child to it
                        let ghost ll = sub_left(shl);
                        let ghost lcv = s1[lc as int].spec_value();
                        let mut lcn = nodes[lc];
                        lcn.set_child(Direction::Right, Some(rc));
                        lcn.set_parent(parent_idx);
                        nodes[lc] = lcn;
                        let mut rcn = nodes[rc];
                        rcn.set_parent(Some(lc));
                        nodes[rc] = rcn;
                        let ghost f = nodes@;
                        let ghost g = Shape::Node {
                            i: lc as int,
                            l: Box::new(ll),
                            r: Box::new(shr),
                        };
                        proof {
                            assert(sub_right(shl) is Nil);
                            assert(shl == Shape::Node {
                                i: lc as int,
                                l: Box::new(ll),
                                r: Box::new(sub_right(shl)),
                            });
                            assert(shape_distinct(shl));
                            assert(shape_wf(s1, ll, Some(lc as int)));
                            assert(shape_ordered(s1, ll, lo, lcv as int));
                            assert(shape_vals(s1, shl).contains(lcv));
                            assert(lcv < val);
                            lemma_idxs_in_arena(s1, shl, None);
                            assert(!shape_idxs(ll).contains(lc as int));
                            assert(!shape_idxs(ll).contains(rc as int));
                            assert(!shape_idxs(shr).contains(lc as int));
                            assert(!shape_idxs(shr).contains(rc as int) || sub_root(shr)
                                == Some(rc as int));
                            assert forall|j: int| shape_idxs(ll).contains(j) implies f[j]
                                == s1[j] by {
                                assert(shape_idxs(shl).contains(j));
                                assert(0 <= j < s1.len());
                                assert(j != lc as int);
                                assert(!shape_idxs(shr).contains(j));
                            }
                            lemma_frame(s1, f, ll, Some(lc as int), lo, lcv as int);
                            lemma_reparent(s1, f, shr, None, Some(lc as int), val as int, hi);
                            lemma_ordered_relax(f, shr, val as int, hi, lcv as int, hi);
                            assert(shape_wf(f, g, parent));
                            assert(shape_ordered(f, g, lo, hi));
                            assert(shape_distinct(g)) by {
                                assert(shape_idxs(ll).disjoint(shape_idxs(shr))) by {
                                    assert forall|j: int|
                                        shape_idxs(ll).contains(j) && shape_idxs(shr).contains(
                                            j,
                                        ) implies false by {
                                        assert(shape_idxs(shl).contains(j));
                                    }
                                }
                            }
                            assert(shape_idxs(g).subset_of(shape_idxs(sh).remove(cur as int)))
                                by {
                                assert forall|j: int| shape_idxs(g).contains(j) implies shape_idxs(
                                    sh,
                                ).remove(cur as int).contains(j) by {
                                    if shape_idxs(ll).contains(j) {
                                        assert(shape_idxs(shl).contains(j));
                                    }
                                }
                            }
                            assert(shape_vals(f, g) =~= shape_vals(s0, sh).remove(val)) by {
                                assert(shape_vals(s1, shl) == shape_vals(s1, ll).union(
                                    shape_vals(s1, sub_right(shl)),
                                ).insert(lcv));
                                assert(shape_vals(s1, sub_right(shl)) =~= Set::<u64>::empty());
                                assert(shape_vals(s1, shl) == shape_vals(s0, shl));
                                assert(shape_vals(f, ll) == shape_vals(s1, ll));
                                assert forall|x: u64| shape_vals(f, g).contains(x) implies
                                    shape_vals(s0, sh).contains(x) && x != val by {
                                    if shape_vals(f, ll).contains(x) {
                                        assert(shape_vals(s1, shl).contains(x));
                                        assert(shape_vals(s0, shl).contains(x));
                                    } else if shape_vals(f, shr).contains(x) {
                                        assert(shape_vals(s0, shr).contains(x));
                                    } else {
                                        assert(x == lcv);
                                        assert(shape_vals(s0, shl).contains(lcv));
                                    }
                                }
                                assert forall|x: u64|
                                    shape_vals(s0, sh).contains(x) && x != val implies shape_vals(
                                    f,
                                    g,
                                ).contains(x) by {
                                    if shape_vals(s0, shl).contains(x) {
                                        assert(shape_vals(s1, shl).contains(x));
                                        assert(shape_vals(s1, ll).contains(x) || x == lcv);
                                    } else if shape_vals(s0, shr).contains(x) {
                                        assert(shape_vals(f, shr).contains(x));
                                    }
                                }
                            }
                            assert(shape_inorder(f, g).len() + 1 == shape_inorder(s0, sh).len())
                                by {
                                assert(shape_inorder(f, ll) == shape_inorder(s1, ll));
                                assert(shape_inorder(s1, shl) == shape_inorder(s1, ll) + seq![
                                    lcv,
                                ] + shape_inorder(s1, sub_right(shl)));
                                assert(shape_inorder(s1, sub_right(shl)).len() == 0);
                                assert(shape_inorder(f, shr) == shape_inorder(s1, shr));
                                assert(shape_inorder(s1, shr) == shape_inorder(s0, shr));
                                assert(shape_inorder(s1, shl) == shape_inorder(s0, shl));
                            }
                            assert(f[cur as int] == s1[cur as int]);
                            assert(f[cur as int].spec_unlinked());
                        }
                        (Some(lc), Ghost(g))
                    }
                },
                Direction::Right => {
                    let has_inner = nodes[rc].get_child(Direction::Left).is_some();
                    if has_inner {
                        // the right child has a left subtree: promote the
                        // leftmost descendant of the right subtree
                        let res = cut_leftmost(
                            nodes,
                            rc,
                            Ghost(shr),
                            Ghost(None),
                            Ghost(val as int),
                            Ghost(hi),
                        );
                        let (lm, g_r) = res;
                        let ghost s2 = nodes@;
                        let ghost lmv = s2[lm as int].spec_value();
                        let mut lmn = nodes[lm];
                        lmn.set_child(Direction::Right, Some(rc));
                        lmn.set_child(Direction::Left, Some(lc));
                        lmn.set_parent(parent_idx);
                        nodes[lm] = lmn;
                        let mut rcn = nodes[rc];
                        rcn.set_parent(Some(lm));
                        nodes[rc] = rcn;
                        let mut lcn = nodes[lc];
                        lcn.set_parent(Some(lm));
                        nodes[lc] = lcn;
                        let ghost f = nodes@;
                        let ghost g = Shape::Node {
                            i: lm as int,
                            l: Box::new(shl),
                            r: Box::new(g_r@),
                        };
                        proof {
                            assert(shape_idxs(g_r@).subset_of(shape_idxs(shr)));
                            assert(shape_idxs(shr).contains(lm as int));
                            assert(!shape_idxs(shl).contains(lm as int));
                            assert(!shape_idxs(shl).contains(rc as int));
                            assert(!shape_idxs(g_r@).contains(lc as int));
                            lemma_reparent(s2, f, g_r@, None, Some(lm as int), lmv as int, hi);
                            lemma_frame(s1, s2, shl, None, lo, val as int);
                            lemma_reparent(s2, f, shl, None, Some(lm as int), lo, val as int);
                            lemma_ordered_relax(f, shl, lo, val as int, lo, lmv as int);
                            assert(shape_wf(f, g, parent));
                            assert(shape_ordered(f, g, lo, hi));
                            assert(shape_distinct(g)) by {
                                assert(shape_idxs(shl).disjoint(shape_idxs(g_r@))) by {
                                    assert forall|j: int|
                                        shape_idxs(shl).contains(j) && shape_idxs(g_r@).contains(
                                            j,
                                        ) implies false by {
                                        assert(shape_idxs(shr).contains(j));
                                    }
                                }
                            }
                            assert(shape_idxs(g).subset_of(shape_idxs(sh).remove(cur as int)))
                                by {
                                assert forall|j: int| shape_idxs(g).contains(j) implies shape_idxs(
                                    sh,
                                ).remove(cur as int).contains(j) by {
                                    if shape_idxs(g_r@).contains(j) {
                                        assert(shape_idxs(shr).contains(j));
                                    }
                                }
                            }
                            assert(shape_vals(f, g) =~= shape_vals(s0, sh).remove(val)) by {
                                assert(shape_vals(s2, g_r@) == shape_vals(s1, shr).remove(lmv));
                                assert(shape_vals(s1, shr) == shape_vals(s0, shr));
                                assert(shape_vals(s1, shr).contains(lmv));
                                assert forall|x: u64| shape_vals(f, g).contains(x) implies
                                    shape_vals(s0, sh).contains(x) && x != val by {
                                    if shape_vals(f, g_r@).contains(x) {
                                        assert(shape_vals(s2, g_r@).contains(x));
                                        assert(shape_vals(s0, shr).contains(x));
                                    } else if shape_vals(f, shl).contains(x) {
                                        assert(shape_vals(s0, shl).contains(x));
                                    } else {
                                        assert(x == lmv);
                                        assert(shape_vals(s0, shr).contains(lmv));
                                    }
                                }
                                assert forall|x: u64|
                                    shape_vals(s0, sh).contains(x) && x != val implies shape_vals(
                                    f,
                                    g,
                                ).contains(x) by {
                                    if shape_vals(s0, shr).contains(x) {
                                        if x != lmv {
                                            assert(shape_vals(s1, shr).remove(lmv).contains(x));
                                            assert(shape_vals(s2, g_r@).contains(x));
                                            assert(shape_vals(f, g_r@).contains(x));
                                        }
                                    } else if shape_vals(s0, shl).contains(x) {
                                        assert(shape_vals(f, shl).contains(x));
                                    }
                                }
                            }
                            assert(shape_inorder(f, g).len() + 1 == shape_inorder(s0, sh).len())
                                by {
                                assert(shape_inorder(f, g_r@) == shape_inorder(s2, g_r@));
                                assert(shape_inorder(s2, g_r@).len() + 1 == shape_inorder(
                                    s1,
                                    shr,
                                ).len());
                                assert(shape_inorder(s1, shr) == shape_inorder(s0, shr));
                                assert(shape_inorder(f, shl) == shape_inorder(s2, shl));
                                assert(shape_inorder(s2, shl) == shape_inorder(s1, shl));
                                assert(shape_inorder(s1, shl) == shape_inorder(s0, shl));
                            }
                            assert(f[cur as int] == s1[cur as int]);
                            assert(f[cur as int].spec_unlinked());
                        }
                        (Some(lm), Ghost(g))
                    } else {
                        // the right child has no left subtree: lift it one
                        // level and attach the left child to it
                        let ghost rr = sub_right(shr);
                        let ghost rcv = s1[rc as int].spec_value();
                        let mut rcn = nodes[rc];
                        rcn.set_child(Direction::Left, Some(lc));
                        rcn.set_parent(parent_idx);
                        nodes[rc] = rcn;
                        let mut lcn = nodes[lc];
                        lcn.set_parent(Some(rc));
                        nodes[lc] = lcn;
                        let ghost f = nodes@;
                        let ghost g = Shape::Node {
                            i: rc as int,
                            l: Box::new(shl),
                            r: Box::new(rr),
                        };
                        proof {
                            assert(sub_left(shr) is Nil);
                            assert(shr == Shape::Node {
                                i: rc as int,
                                l: Box::new(sub_left(shr)),
                                r: Box::new(rr),
                            });
                            assert(shape_distinct(shr));
                            assert(shape_wf(s1, rr, Some(rc as int)));
                            assert(shape_ordered(s1, rr, rcv as int, hi));
                            assert(shape_vals(s1, shr).contains(rcv));
                            assert(val < rcv);
                            lemma_idxs_in_arena(s1, shr, None);
                            assert(!shape_idxs(rr).contains(rc as int));
                            assert(!shape_idxs(rr).contains(lc as int));
                            assert(!shape_idxs(shl).contains(rc as int));
                            assert forall|j: int| shape_idxs(rr).contains(j) implies f[j]
                                == s1[j] by {
                                assert(shape_idxs(shr).contains(j));
                                assert(0 <= j < s1.len());
                                assert(j != rc as int);
                                assert(!shape_idxs(shl).contains(j));
                            }
                            lemma_frame(s1, f, rr, Some(rc as int), rcv as int, hi);
                            lemma_reparent(s1, f, shl, None, Some(rc as int), lo, val as int);
                            lemma_ordered_relax(f, shl, lo, val as int, lo, rcv as int);
                            assert(shape_wf(f, g, parent));
                            assert(shape_ordered(f, g, lo, hi));
                            assert(shape_distinct(g)) by {
                                assert(shape_idxs(shl).disjoint(shape_idxs(rr))) by {
                                    assert forall|j: int|
                                        shape_idxs(shl).contains(j) && shape_idxs(rr).contains(
                                            j,
                                        ) implies false by {
                                        assert(shape_idxs(shr).contains(j));
                                    }
                                }
                            }
                            assert(shape_idxs(g).subset_of(shape_idxs(sh).remove(cur as int)))
                                by {
                                assert forall|j: int| shape_idxs(g).contains(j) implies shape_idxs(
                                    sh,
                                ).remove(cur as int).contains(j) by {
                                    if shape_idxs(rr).contains(j) {
                                        assert(shape_idxs(shr).contains(j));
                                    }
                                }
                            }
                            assert(shape_vals(f, g) =~= shape_vals(s0, sh).remove(val)) by {
                                assert(shape_vals(s1, shr) == shape_vals(s1, sub_left(shr)).union(
                                    shape_vals(s1, rr),
                                ).insert(rcv));
                                assert(shape_vals(s1, sub_left(shr)) =~= Set::<u64>::empty());
                                assert(shape_vals(s1, shr) == shape_vals(s0, shr));
                                assert(shape_vals(f, rr) == shape_vals(s1, rr));
                                assert forall|x: u64| shape_vals(f, g).contains(x) implies
                                    shape_vals(s0, sh).contains(x) && x != val by {
                                    if shape_vals(f, rr).contains(x) {
                                        assert(shape_vals(s1, shr).contains(x));
                                        assert(shape_vals(s0, shr).contains(x));
                                    } else if shape_vals(f, shl).contains(x) {
                                        assert(shape_vals(s0, shl).contains(x));
                                    } else {
                                        assert(x == rcv);
                                        assert(shape_vals(s0, shr).contains(rcv));
                                    }
                                }
                                assert forall|x: u64|
                                    shape_vals(s0, sh).contains(x) && x != val implies shape_vals(
                                    f,
                                    g,
                                ).contains(x) by {
                                    if shape_vals(s0, shr).contains(x) {
                                        assert(shape_vals(s1, shr).contains(x));
                                        assert(shape_vals(s1, rr).contains(x) || x == rcv);
                                    } else if shape_vals(s0, shl).contains(x) {
                                        assert(shape_vals(f, shl).contains(x));
                                    }
                                }
                            }
                            assert(shape_inorder(f, g).len() + 1 == shape_inorder(s0, sh).len())
                                by {
                                assert(shape_inorder(f, rr) == shape_inorder(s1, rr));
                                assert(shape_inorder(s1, shr) == shape_inorder(s1, sub_left(shr))
                                    + seq![rcv] + shape_inorder(s1, rr));
                                assert(shape_inorder(s1, sub_left(shr)).len() == 0);
                                assert(shape_inorder(f, shl) == shape_inorder(s1, shl));
                                assert(shape_inorder(s1, shl) == shape_inorder(s0, shl));
                                assert(shape_inorder(s1, shr) == shape_inorder(s0, shr));
                            }
                            assert(f[cur as int] == s1[cur as int]);
                            assert(f[cur as int].spec_unlinked());
                        }
                        (Some(rc), Ghost(g))
                    }
                },
            }
        },
    }
}

impl SimpleBst {
    /// Locates the node holding `v` as `find` does; if absent, returns
    /// `None` and leaves the tree untouched. If present, detaches the node
    /// by the randomized subtree-removal algorithm and returns its value:
    /// exactly that one value leaves the tree, whichever side the coin
    /// chose, and every other value survives.
    pub fn delete(&mut self, v: u64) -> (r: Option<u64>)
        requires
            old(self).wf(),
        ensures
            final(self).wf(),
            (r is Some) <==> old(self)@.contains(v),
            r is Some ==> r == Some(v),
            final(self)@ == old(self)@.remove(v),
            old(self)@.contains(v) ==> final(self).in_order_view().len() + 1 == old(
                self,
            ).in_order_view().len(),
            !old(self)@.contains(v) ==> final(self).spec_nodes() == old(self).spec_nodes()
                && final(self).spec_root() == old(self).spec_root() && final(self)@ == old(self)@
                && final(self).in_order_view() == old(self).in_order_view(),
    {
        match self.root {
            None => {
                proof {
                    assert(self.shape@ is Nil);
                    assert(!old(self)@.contains(v));
                    assert(final(self)@ =~= old(self)@.remove(v));
                }
                None
            },
            Some(root) => {
                let res = delete_at(
                    &mut self.nodes,
                    root,
                    v,
                    None,
                    Ghost(self.shape@),
                    Ghost(None),
                    Ghost(no_low()),
                    Ghost(no_high()),
                );
                let (rv, nr, g) = res;
                self.root = nr;
                proof {
                    self.shape@ = g@;
                }
                rv
            },
        }
    }
}

/// The recursive descent behind `SimpleBst::delete`: finds the node holding
/// `v` in the subtree rooted at `cur` and removes it via
/// `delete_subtree_root`, rebuilding the links on the way back up.
fn delete_at(
    nodes: &mut Vec<SimpleBstNode>,
    cur: usize,
    v: u64,
    parent_idx: Option<usize>,
    Ghost(sh): Ghost<Shape>,
    Ghost(parent): Ghost<Option<int>>,
    Ghost(lo): Ghost<int>,
    Ghost(hi): Ghost<int>,
) -> (res: (Option<u64>, Option<usize>, Ghost<Shape>))
    requires
        shape_wf(old(nodes)@, sh, parent),
        shape_distinct(sh),
        shape_ordered(old(nodes)@, sh, lo, hi),
        sub_root(sh) == Some(cur as int),
        lift(parent_idx) == parent,
        lo < v < hi,
    ensures
        ({
            let (rv, nr, g) = res;
            let f = final(nodes)@;
            let s0 = old(nodes)@;
            &&& f.len() == s0.len()
            &&& forall|j: int|
                0 <= j < s0.len() && !shape_idxs(sh).contains(j) ==> f[j] == s0[j]
            &&& shape_wf(f, g@, parent)
            &&& shape_distinct(g@)
            &&& shape_ordered(f, g@, lo, hi)
            &&& sub_root(g@) == lift(nr)
            &&& shape_idxs(g@).subset_of(shape_idxs(sh))
            &&& shape_vals(f, g@) == shape_vals(s0, sh).remove(v)
            &&& shape_vals(s0, sh).contains(v) ==> rv == Some(v) && shape_inorder(f, g@).len()
                + 1 == shape_inorder(s0, sh).len()
            &&& !shape_vals(s0, sh).contains(v) ==> rv is None && f == s0 && g@ == sh && nr
                == Some(cur)
        }),
    decreases sh,
{
    let ghost s0 = nodes@;
    let node = nodes[cur];
    let ghost shl = sub_left(sh);
    let ghost shr = sub_right(sh);
    let ghost val = node.spec_value();
    proof {
        assert(sh == Shape::Node { i: cur as int, l: Box::new(shl), r: Box::new(shr) });
        lemma_idxs_in_arena(s0, sh, parent);
        lemma_vals_bounds(s0, shr, val as int, hi);
        lemma_vals_bounds(s0, shl, lo, val as int);
    }
    match node.get_direction_of_value(v) {
        None => {
            // found: splice this node out
            let res = delete_subtree_root(
                nodes,
                cur,
                parent_idx,
                Ghost(sh),
                Ghost(parent),
                Ghost(lo),
                Ghost(hi),
            );
            let (nr, g) = res;
            proof {
                assert(shape_vals(s0, sh).contains(v));
                assert(shape_idxs(g@).subset_of(shape_idxs(sh))) by {
                    assert forall|j: int| shape_idxs(g@).contains(j) implies shape_idxs(
                        sh,
                    ).contains(j) by {
                        assert(shape_idxs(sh).remove(cur as int).contains(j));
                    }
                }
            }
            (Some(node.as_value()), nr, g)
        },
        Some(Direction::Left) => {
            match node.get_child(Direction::Left) {
                None => {
                    proof {
                        assert(shl is Nil);
                        assert(!shape_vals(s0, shl).contains(v));
                        assert(!shape_vals(s0, shr).contains(v));
                        assert(shape_vals(s0, sh) == shape_vals(s0, shl).union(
                            shape_vals(s0, shr),
                        ).insert(val));
                        assert(!shape_vals(s0, sh).contains(v));
                        assert(shape_vals(s0, sh) =~= shape_vals(s0, sh).remove(v));
                    }
                    (None, Some(cur), Ghost(sh))
                },
                Some(lc) => {
                    let res = delete_at(
                        nodes,
                        lc,
                        v,
                        Some(cur),
                        Ghost(shl),
                        Ghost(Some(cur as int)),
                        Ghost(lo),
                        Ghost(val as int),
                    );
                    let (rv, nr, g_l) = res;
                    if rv.is_none() {
                        proof {
                            assert(!shape_vals(s0, shl).contains(v));
                            assert(!shape_vals(s0, shr).contains(v));
                            assert(!shape_vals(s0, sh).contains(v));
                            assert(shape_vals(s0, sh) =~= shape_vals(s0, sh).remove(v));
                        }
                        (None, Some(cur), Ghost(sh))
                    } else {
                        let ghost mid = nodes@;
                        let mut cnode = nodes[cur];
                        cnode.set_child(Direction::Left, nr);
                        nodes[cur] = cnode;
                        let ghost f = nodes@;
                        let ghost g = Shape::Node {
                            i: cur as int,
                            l: Box::new(g_l@),
                            r: Box::new(shr),
                        };
                        proof {
                            assert(shape_vals(s0, shl).contains(v));
                            assert(mid[cur as int] == s0[cur as int]);
                            lemma_idxs_in_arena(s0, shr, Some(cur as int));
                            lemma_idxs_in_arena(s0, shl, Some(cur as int));
                            assert forall|j: int| shape_idxs(shr).contains(j) implies mid[j]
                                == s0[j] by {
                                assert(0 <= j < s0.len());
                                assert(!shape_idxs(shl).contains(j));
                            }
                            lemma_frame(s0, mid, shr, Some(cur as int), val as int, hi);
                            assert(!shape_idxs(g_l@).contains(cur as int));
                            assert(!shape_idxs(shr).contains(cur as int));
                            assert forall|j: int|
                                shape_idxs(g_l@).contains(j) implies f[j] == mid[j] by {
                                assert(shape_idxs(shl).contains(j));
                                assert(0 <= j < s0.len());
                                assert(j != cur as int);
                            }
                            lemma_frame(mid, f, g_l@, Some(cur as int), lo, val as int);
                            assert forall|j: int| shape_idxs(shr).contains(j) implies f[j]
                                == mid[j] by {
                                assert(0 <= j < s0.len());
                                assert(j != cur as int);
                            }
                            lemma_frame(mid, f, shr, Some(cur as int), val as int, hi);
                            assert(shape_wf(f, g, parent));
                            assert(shape_ordered(f, g, lo, hi));
                            assert(shape_distinct(g)) by {
                                assert(shape_idxs(g_l@).disjoint(shape_idxs(shr))) by {
                                    assert forall|j: int|
                                        shape_idxs(g_l@).contains(j) && shape_idxs(shr).contains(
                                            j,
                                        ) implies false by {
                                        assert(shape_idxs(shl).contains(j));
                                    }
                                }
                            }
                            assert(shape_vals(f, g) =~= shape_vals(s0, sh).remove(v)) by {
                                assert(shape_vals(f, g_l@) == shape_vals(mid, g_l@));
                                assert(shape_vals(mid, g_l@) == shape_vals(s0, shl).remove(v));
                                assert forall|x: u64| shape_vals(f, g).contains(x) implies
                                    shape_vals(s0, sh).contains(x) && x != v by {
                                    if shape_vals(f, g_l@).contains(x) {
                                        assert(shape_vals(s0, shl).remove(v).contains(x));
                                    } else if shape_vals(f, shr).contains(x) {
                                        assert(shape_vals(s0, shr).contains(x));
                                    } else {
                                        assert(x == val);
                                    }
                                }
                                assert forall|x: u64|
                                    shape_vals(s0, sh).contains(x) && x != v implies shape_vals(
                                    f,
                                    g,
                                ).contains(x) by {
                                    if shape_vals(s0, shl).contains(x) {
                                        assert(shape_vals(s0, shl).remove(v).contains(x));
                                        assert(shape_vals(f, g_l@).contains(x));
                                    } else if shape_vals(s0, shr).contains(x) {
                                        assert(shape_vals(f, shr).contains(x));
                                    }
                                }
                            }
                            assert(shape_inorder(f, g).len() + 1 == shape_inorder(s0, sh).len())
                                by {
                                assert(shape_inorder(f, g_l@) == shape_inorder(mid, g_l@));
                                assert(shape_inorder(mid, g_l@).len() + 1 == shape_inorder(
                                    s0,
                                    shl,
                                ).len());
                                assert(shape_inorder(f, shr) == shape_inorder(mid, shr));
                                assert(shape_inorder(mid, shr) == shape_inorder(s0, shr));
                            }
                            assert(shape_idxs(g).subset_of(shape_idxs(sh))) by {
                                assert forall|j: int| shape_idxs(g).contains(j) implies shape_idxs(
                                    sh,
                                ).contains(j) by {
                                    if shape_idxs(g_l@).contains(j) {
                                        assert(shape_idxs(shl).contains(j));
                                    }
                                }
                            }
                            assert forall|t: int|
                                shape_idxs(sh).contains(t) && s0[t].spec_value() == v && (s0[t].spec_child(
                                    Direction::Left,
                                ) is None || s0[t].spec_child(Direction::Right) is None) implies
                                shape_vals(f, g) == shape_vals(s0, sh).remove(v) by {
                                if shape_idxs(shr).contains(t) {
                                    lemma_idx_val(s0, shr, Some(cur as int), t);
                                }
                                assert(t != cur as int);
                                assert(shape_idxs(shl).contains(t));
                                assert(shape_vals(mid, g_l@) == shape_vals(s0, shl).remove(v));
                                assert(shape_vals(f, g) =~= shape_vals(s0, sh).remove(v));
                            }
                        }
                        (rv, Some(cur), Ghost(g))
                    }
                },
            }
        },
        Some(Direction::Right) => {
            match node.get_child(Direction::Right) {
                None => {
                    proof {
                        assert(shr is Nil);
                        assert(!shape_vals(s0, shr).contains(v));
                        assert(!shape_vals(s0, shl).contains(v));
                        assert(shape_vals(s0, sh) == shape_vals(s0, shl).union(
                            shape_vals(s0, shr),
                        ).insert(val));
                        assert(!shape_vals(s0, sh).contains(v));
                        assert(shape_vals(s0, sh) =~= shape_vals(s0, sh).remove(v));
                    }
                    (None, Some(cur), Ghost(sh))
                },
                Some(rc) => {
                    let res = delete_at(
                        nodes,
                        rc,
                        v,
                        Some(cur),
                        Ghost(shr),
                        Ghost(Some(cur as int)),
                        Ghost(val as int),
                        Ghost(hi),
                    );
                    let (rv, nr, g_r) = res;
                    if rv.is_none() {
                        proof {
                            assert(!shape_vals(s0, shr).contains(v));
                            assert(!shape_vals(s0, shl).contains(v));
                            assert(!shape_vals(s0, sh).contains(v));
                            assert(shape_vals(s0, sh) =~= shape_vals(s0, sh).remove(v));
                        }
                        (None, Some(cur), Ghost(sh))
                    } else {
                        let ghost mid = nodes@;
                        let mut cnode = nodes[cur];
                        cnode.set_child(Direction::Right, nr);
                        nodes[cur] = cnode;
                        let ghost f = nodes@;
                        let ghost g = Shape::Node {
                            i: cur as int,
                            l: Box::new(shl),
                            r: Box::new(g_r@),
                        };
                        proof {
                            assert(shape_vals(s0, shr).contains(v));
                            assert(mid[cur as int] == s0[cur as int]);
                            lemma_idxs_in_arena(s0, shl, Some(cur as int));
                            lemma_idxs_in_arena(s0, shr, Some(cur as int));
                            assert forall|j: int| shape_idxs(shl).contains(j) implies mid[j]
                                == s0[j] by {
                                assert(0 <= j < s0.len());
                                assert(!shape_idxs(shr).contains(j));
                            }
                            lemma_frame(s0, mid, shl, Some(cur as int), lo, val as int);
                            assert(!shape_idxs(g_r@).contains(cur as int));
                            assert(!shape_idxs(shl).contains(cur as int));
                            assert forall|j: int|
                                shape_idxs(g_r@).contains(j) implies f[j] == mid[j] by {
                                assert(shape_idxs(shr).contains(j));
                                assert(0 <= j < s0.len());
                                assert(j != cur as int);
                            }
                            lemma_frame(mid, f, g_r@, Some(cur as int), val as int, hi);
                            assert forall|j: int| shape_idxs(shl).contains(j) implies f[j]
                                == mid[j] by {
                                assert(0 <= j < s0.len());
                                assert(j != cur as int);
                            }
                            lemma_frame(mid, f, shl, Some(cur as int), lo, val as int);
                            assert(shape_wf(f, g, parent));
                            assert(shape_ordered(f, g, lo, hi));
                            assert(shape_distinct(g)) by {
                                assert(shape_idxs(shl).disjoint(shape_idxs(g_r@))) by {
                                    assert forall|j: int|
                                        shape_idxs(shl).contains(j) && shape_idxs(g_r@).contains(
                                            j,
                                        ) implies false by {
                                        assert(shape_idxs(shr).contains(j));
                                    }
                                }
                            }
                            assert(shape_vals(f, g) =~= shape_vals(s0, sh).remove(v)) by {
                                assert(shape_vals(f, g_r@) == shape_vals(mid, g_r@));
                                assert(shape_vals(mid, g_r@) == shape_vals(s0, shr).remove(v));
                                assert forall|x: u64| shape_vals(f, g).contains(x) implies
                                    shape_vals(s0, sh).contains(x) && x != v by {
                                    if shape_vals(f, g_r@).contains(x) {
                                        assert(shape_vals(s0, shr).remove(v).contains(x));
                                    } else if shape_vals(f, shl).contains(x) {
                                        assert(shape_vals(s0, shl).contains(x));
                                    } else {
                                        assert(x == val);
                                    }
                                }
                                assert forall|x: u64|
                                    shape_vals(s0, sh).contains(x) && x != v implies shape_vals(
                                    f,
                                    g,
                                ).contains(x) by {
                                    if shape_vals(s0, shr).contains(x) {
                                        assert(shape_vals(s0, shr).remove(v).contains(x));
                                        assert(shape_vals(f, g_r@).contains(x));
                                    } else if shape_vals(s0, shl).contains(x) {
                                        assert(shape_vals(f, shl).contains(x));
                                    }
                                }
                            }
                            assert(shape_inorder(f, g).len() + 1 == shape_inorder(s0, sh).len())
                                by {
                                assert(shape_inorder(f, g_r@) == shape_inorder(mid, g_r@));
                                assert(shape_inorder(mid, g_r@).len() + 1 == shape_inorder(
                                    s0,
                                    shr,
                                ).len());
                                assert(shape_inorder(f, shl) == shape_inorder(mid, shl));
                                assert(shape_inorder(mid, shl) == shape_inorder(s0, shl));
                            }
                            assert(shape_idxs(g).subset_of(shape_idxs(sh))) by {
                                assert forall|j: int| shape_idxs(g).contains(j) implies shape_idxs(
                                    sh,
                                ).contains(j) by {
                                    if shape_idxs(g_r@).contains(j) {
                                        assert(shape_idxs(shr).contains(j));
                                    }
                                }
                            }
                            assert forall|t: int|
                                shape_idxs(sh).contains(t) && s0[t].spec_value() == v && (s0[t].spec_child(
                                    Direction::Left,
                                ) is None || s0[t].spec_child(Direction::Right) is None) implies
                                shape_vals(f, g) == shape_vals(s0, sh).remove(v) by {
                                if shape_idxs(shl).contains(t) {
                                    lemma_idx_val(s0, shl, Some(cur as int), t);
                                }
                                assert(t != cur as int);
                                assert(shape_idxs(shr).contains(t));
                                assert(shape_vals(mid, g_r@) == shape_vals(s0, shr).remove(v));
                                assert(shape_vals(f, g) =~= shape_vals(s0, sh).remove(v));
                            }
                        }
                        (rv, Some(cur), Ghost(g))
                    }
                },
            }
        },
    }
}

/// Every index linked into a shape contributes its value to the shape's
/// value set.
proof fn lemma_idx_val(s: Seq<SimpleBstNode>, sh: Shape, parent: Option<int>, i: int)
    requires
        shape_wf(s, sh, parent),
        shape_idxs(sh).contains(i),
    ensures
        shape_vals(s, sh).contains(s[i].spec_value()),
    decreases sh,
{
    match sh {
        Shape::Nil => {},
        Shape::Node { i: n, l, r } => {
            if shape_idxs(*l).contains(i) {
                lemma_idx_val(s, *l, Some(n), i);
            } else if shape_idxs(*r).contains(i) {
                lemma_idx_val(s, *r, Some(n), i);
            }
        },
    }
}

/// Two linked nodes holding the same value are the same node: the ordering
/// makes all values in the tree distinct.
proof fn lemma_value_unique(
    s: Seq<SimpleBstNode>,
    sh: Shape,
    parent: Option<int>,
    lo: int,
    hi: int,
    i: int,
    j: int,
)
    requires
        shape_wf(s, sh, parent),
        shape_ordered(s, sh, lo, hi),
        shape_idxs(sh).contains(i),
        shape_idxs(sh).contains(j),
        s[i].spec_value() == s[j].spec_value(),
    ensures
        i == j,
    decreases sh,
{
    match sh {
        Shape::Nil => {},
        Shape::Node { i: n, l, r } => {
            let v = s[n].spec_value();
            lemma_vals_bounds(s, *l, lo, v as int);
            lemma_vals_bounds(s, *r, v as int, hi);
            if shape_idxs(*l).contains(i) {
                lemma_idx_val(s, *l, Some(n), i);
            }
            if shape_idxs(*r).contains(i) {
                lemma_idx_val(s, *r, Some(n), i);
            }
            if shape_idxs(*l).contains(j) {
                lemma_idx_val(s, *l, Some(n), j);
            }
            if shape_idxs(*r).contains(j) {
                lemma_idx_val(s, *r, Some(n), j);
            }
            if shape_idxs(*l).contains(i) && shape_idxs(*l).contains(j) {
                lemma_value_unique(s, *l, Some(n), lo, v as int, i, j);
            } else if shape_idxs(*r).contains(i) && shape_idxs(*r).contains(j) {
                lemma_value_unique(s, *r, Some(n), v as int, hi, i, j);
            }
        },
    }
}

/// Link symmetry, downward: a linked node's child slots point at linked
/// nodes whose parent link points back at it.
proof fn lemma_child_link(s: Seq<SimpleBstNode>, sh: Shape, parent: Option<int>, i: int, d: Direction)
    requires
        shape_wf(s, sh, parent),
        shape_idxs(sh).contains(i),
        s[i].spec_child(d) is Some,
    ensures
        ({
            let c = s[i].spec_child(d).unwrap() as int;
            &&& shape_idxs(sh).contains(c)
            &&& 0 <= c < s.len()
            &&& s[c].spec_parent() == Some(i as usize)
            &&& i as usize as int == i
        }),
    decreases sh,
{
    match sh {
        Shape::Nil => {},
        Shape::Node { i: n, l, r } => {
            if i == n {
                lemma_idxs_in_arena(s, sh, parent);
                let c = s[i].spec_child(d).unwrap();
                if d == Direction::Left {
                    assert(lift(s[i].spec_child(Direction::Left)) == sub_root(*l));
                    assert(sub_root(*l) == Some(c as int));
                    assert(*l is Node);
                    assert(shape_idxs(*l).contains(c as int));
                    assert(shape_wf(s, *l, Some(n)));
                    assert(lift(s[c as int].spec_parent()) == Some(n));
                    assert(s[c as int].spec_parent().unwrap() as int == n);
                } else {
                    assert(lift(s[i].spec_child(Direction::Right)) == sub_root(*r));
                    assert(sub_root(*r) == Some(c as int));
                    assert(*r is Node);
                    assert(shape_idxs(*r).contains(c as int));
                    assert(shape_wf(s, *r, Some(n)));
                    assert(lift(s[c as int].spec_parent()) == Some(n));
                    assert(s[c as int].spec_parent().unwrap() as int == n);
                }
            } else if shape_idxs(*l).contains(i) {
                lemma_child_link(s, *l, Some(n), i, d);
            } else {
                assert(shape_idxs(*r).contains(i));
                lemma_child_link(s, *r, Some(n), i, d);
            }
        },
    }
}

/// Link symmetry, upward: a linked node is either the shape's own root, or
/// its parent link points at a linked node one of whose child slots points
/// back at it.
proof fn lemma_parent_link(s: Seq<SimpleBstNode>, sh: Shape, parent: Option<int>, i: int)
    requires
        shape_wf(s, sh, parent),
        shape_idxs(sh).contains(i),
    ensures
        Some(i) == sub_root(sh) || ({
            let p = s[i].spec_parent().unwrap() as int;
            &&& s[i].spec_parent() is Some
            &&& shape_idxs(sh).contains(p)
            &&& 0 <= p < s.len()
            &&& (s[p].spec_child(Direction::Left) == Some(i as usize) || s[p].spec_child(
                Direction::Right,
            ) == Some(i as usize))
            &&& i as usize as int == i
        }),
    decreases sh,
{
    match sh {
        Shape::Nil => {},
        Shape::Node { i: n, l, r } => {
            lemma_idxs_in_arena(s, sh, parent);
            if i == n {
            } else if shape_idxs(*l).contains(i) {
                lemma_parent_link(s, *l, Some(n), i);
                if sub_root(*l) == Some(i) {
                    assert(*l is Node);
                    assert(shape_wf(s, *l, Some(n)));
                    assert(lift(s[i].spec_parent()) == Some(n));
                    assert(s[i].spec_parent().unwrap() as int == n);
                    assert(lift(s[n].spec_child(Direction::Left)) == sub_root(*l));
                    assert(s[n].spec_child(Direction::Left).unwrap() as int == i);
                }
            } else {
                assert(shape_idxs(*r).contains(i));
                lemma_parent_link(s, *r, Some(n), i);
                if sub_root(*r) == Some(i) {
                    assert(*r is Node);
                    assert(shape_wf(s, *r, Some(n)));
                    assert(lift(s[i].spec_parent()) == Some(n));
                    assert(s[i].spec_parent().unwrap() as int == n);
                    assert(lift(s[n].spec_child(Direction::Right)) == sub_root(*r));
                    assert(s[n].spec_child(Direction::Right).unwrap() as int == i);
                }
            }
        },
    }
}

impl SimpleBst {
    /// What `is_child` answers: the node names a parent inside the arena
    /// whose `d` slot holds this node.
    pub open spec fn spec_is_child(self, i: usize, d: Direction) -> bool {
        &&& self.parent_at(i) is Some
        &&& (self.parent_at(i).unwrap() as int) < self.spec_nodes().len()
        &&& self.child_at(self.parent_at(i).unwrap(), d) == Some(i)
    }

    /// Checks whether the node at `i` is a `d`-child of its parent: true iff
    /// it has a parent and that parent's `d` slot holds this node. Absence
    /// of a parent is a normal condition, never an error, so any node of the
    /// arena may be asked, detached ones included.
    pub fn is_child(&self, i: usize, d: Direction) -> (r: bool)
        requires
            self.wf(),
            i < self.spec_nodes().len(),
        ensures
            r == self.spec_is_child(i, d),
            self.contains_idx(i) ==> r == (self.parent_at(i) is Some && self.child_at(
                self.parent_at(i).unwrap(),
                d,
            ) == Some(i)),
    {
        proof {
            lemma_idxs_in_arena(self.nodes@, self.shape@, None);
            if self.contains_idx(i) {
                lemma_parent_link(self.nodes@, self.shape@, None, i as int);
                if Some(i as int) == sub_root(self.shape@) {
                    assert(lift(self.nodes@[i as int].spec_parent()) == None::<int>);
                }
            }
        }
        match self.nodes[i].get_parent() {
            None => false,
            Some(p) => {
                // a node severed from the tree keeps no parent link, but a
                // node inside a detached subtree may still name one; the
                // lookup is guarded so that every arena index can be asked
                if p < self.nodes.len() {
                    match self.nodes[p].get_child(d) {
                        None => false,
                        Some(c) => c == i,
                    }
                } else {
                    false
                }
            },
        }
    }
}

/// Parent/child symmetry, upward: every linked node with a parent is held by
/// exactly that parent, in one of its two child slots.
pub proof fn lemma_parent_child_symmetry(t: SimpleBst, i: usize)
    requires
        t.wf(),
        t.contains_idx(i),
        t.parent_at(i) is Some,
    ensures
        ({
            let p = t.parent_at(i).unwrap();
            &&& t.contains_idx(p)
            &&& t.child_at(p, Direction::Left) == Some(i) || t.child_at(p, Direction::Right)
                == Some(i)
        }),
{
    lemma_parent_link(t.spec_nodes(), t.shape@, None, i as int);
    if Some(i as int) == sub_root(t.shape@) {
        assert(lift(t.spec_nodes()[i as int].spec_parent()) == None::<int>);
        assert(false);
    }
}

/// Parent/child symmetry, downward: every child slot of a linked node holds
/// a node whose parent link points back at it.
pub proof fn lemma_child_parent_symmetry(t: SimpleBst, i: usize, d: Direction)
    requires
        t.wf(),
        t.contains_idx(i),
        t.child_at(i, d) is Some,
    ensures
        ({
            let c = t.child_at(i, d).unwrap();
            &&& t.contains_idx(c)
            &&& t.parent_at(c) == Some(i)
        }),
{
    lemma_child_link(t.spec_nodes(), t.shape@, None, i as int, d);
}

impl SimpleBst {
    /// The link-severing primitive: clears the node's parent link and both
    /// child links; if a parent existed, clears the corresponding slot on the
    /// parent and reports which direction it occupied; the children, if any,
    /// are left orphaned with no parent link. A non-root node leaves the tree
    /// together with its subtrees; the root stays, as the tree's root
    /// reference still names it.
    pub fn extract(&mut self, i: usize) -> (r: (
        Option<(Direction, usize)>,
        Option<usize>,
        Option<usize>,
    ))
        requires
            old(self).wf(),
            old(self).contains_idx(i),
        ensures
            final(self).wf(),
            final(self).spec_nodes().len() == old(self).spec_nodes().len(),
            final(self).spec_nodes()[i as int].spec_unlinked(),
            final(self).value_at(i) == old(self).value_at(i),
            r.1 == old(self).child_at(i, Direction::Left),
            r.2 == old(self).child_at(i, Direction::Right),
            r.1 is Some ==> final(self).parent_at(r.1.unwrap()) is None && final(self).value_at(
                r.1.unwrap(),
            ) == old(self).value_at(r.1.unwrap()) && final(self).child_at(
                r.1.unwrap(),
                Direction::Left,
            ) == old(self).child_at(r.1.unwrap(), Direction::Left) && final(self).child_at(
                r.1.unwrap(),
                Direction::Right,
            ) == old(self).child_at(r.1.unwrap(), Direction::Right),
            r.2 is Some ==> final(self).parent_at(r.2.unwrap()) is None && final(self).value_at(
                r.2.unwrap(),
            ) == old(self).value_at(r.2.unwrap()) && final(self).child_at(
                r.2.unwrap(),
                Direction::Left,
            ) == old(self).child_at(r.2.unwrap(), Direction::Left) && final(self).child_at(
                r.2.unwrap(),
                Direction::Right,
            ) == old(self).child_at(r.2.unwrap(), Direction::Right),
            forall|j: int|
                0 <= j < old(self).spec_nodes().len() && j != i as int && lift(
                    old(self).parent_at(i),
                ) != Some(j) && lift(old(self).child_at(i, Direction::Left)) != Some(j) && lift(
                    old(self).child_at(i, Direction::Right),
                ) != Some(j) ==> final(self).spec_nodes()[j] == old(self).spec_nodes()[j],
            (r.0 is None) <==> (old(self).parent_at(i) is None),
            r.0 is Some ==> ({
                let (d, p) = r.0.unwrap();
                &&& old(self).parent_at(i) == Some(p)
                &&& old(self).child_at(p, d) == Some(i)
                &&& final(self).child_at(p, d) is None
                &&& final(self).child_at(p, flip_spec(d)) == old(self).child_at(p, flip_spec(d))
                &&& final(self).parent_at(p) == old(self).parent_at(p)
                &&& final(self).value_at(p) == old(self).value_at(p)
                &&& final(self).contains_idx(p)
            }),
            old(self).parent_at(i) is Some ==> !final(self).contains_idx(i)
                && final(self)@.subset_of(old(self)@.remove(old(self).value_at(i))),
            old(self).parent_at(i) is None ==> final(self).contains_idx(i) && final(self)@
                == Set::<u64>::empty().insert(old(self).value_at(i)),
    {
        let ghost s0 = self.nodes@;
        let ghost sh = self.shape@;
        proof {
            lemma_idxs_in_arena(s0, sh, None);
        }
        let node = self.nodes[i];
        match node.get_parent() {
            None => {
                // a parentless linked node is the tree root: orphan its
                // children and keep it as the (now childless) root
                proof {
                    lemma_parent_link(s0, sh, None, i as int);
                    assert(Some(i as int) == sub_root(sh));
                }
                let mut cnode = self.nodes[i];
                cnode.set_child(Direction::Left, None);
                cnode.set_child(Direction::Right, None);
                self.nodes[i] = cnode;
                match node.get_child(Direction::Left) {
                    Some(lc) => {
                        proof {
                            assert(sub_root(sub_left(sh)) == Some(lc as int));
                            assert(shape_wf(s0, sub_left(sh), Some(i as int)));
                            assert((lc as int) < s0.len());
                        }
                        let mut n = self.nodes[lc];
                        n.set_parent(None);
                        self.nodes[lc] = n;
                    },
                    None => {},
                }
                match node.get_child(Direction::Right) {
                    Some(rc) => {
                        proof {
                            assert(sub_root(sub_right(sh)) == Some(rc as int));
                            assert(shape_wf(s0, sub_right(sh), Some(i as int)));
                            assert((rc as int) < s0.len());
                        }
                        let mut n = self.nodes[rc];
                        n.set_parent(None);
                        self.nodes[rc] = n;
                    },
                    None => {},
                }
                proof {
                    reveal_with_fuel(shape_wf, 3);
                    reveal_with_fuel(shape_ordered, 3);
                    reveal_with_fuel(shape_vals, 3);
                    reveal_with_fuel(shape_idxs, 3);
                    reveal_with_fuel(shape_distinct, 3);
                    self.shape@ = Shape::Node {
                        i: i as int,
                        l: Box::new(Shape::Nil),
                        r: Box::new(Shape::Nil),
                    };
                    assert(shape_wf(self.nodes@, self.shape@, None));
                    assert(self@ =~= Set::<u64>::empty().insert(old(self).value_at(i)));
                }
                (None, node.get_child(Direction::Left), node.get_child(Direction::Right))
            },
            Some(_) => {
                let v = node.as_value();
                proof {
                    lemma_idx_val(s0, sh, None, i as int);
                    lemma_parent_link(s0, sh, None, i as int);
                    if Some(i as int) == sub_root(sh) {
                        assert(lift(s0[i as int].spec_parent()) == None::<int>);
                        assert(false);
                    }
                }
                let root = match self.root {
                    Some(root) => root,
                    None => vstd::pervasive::unreached(),
                };
                proof {
                    assert(sub_root(self.shape@) == Some(root as int));
                }
                let res = extract_at(
                    &mut self.nodes,
                    root,
                    v,
                    Ghost(self.shape@),
                    Ghost(None),
                    Ghost(no_low()),
                    Ghost(no_high()),
                );
                let (fi, pinfo, cl, cr, g) = res;
                proof {
                    lemma_value_unique(s0, sh, None, no_low(), no_high(), fi as int, i as int);
                    assert(fi == i);
                    self.shape@ = g@;
                }
                (pinfo, cl, cr)
            },
        }
    }
}

/// The recursive descent behind `SimpleBst::extract`: locates the node
/// holding `v` and severs it and its subtrees from the tree, clearing the
/// links on both sides of every severed edge.
fn extract_at(
    nodes: &mut Vec<SimpleBstNode>,
    cur: usize,
    v: u64,
    Ghost(sh): Ghost<Shape>,
    Ghost(parent): Ghost<Option<int>>,
    Ghost(lo): Ghost<int>,
    Ghost(hi): Ghost<int>,
) -> (res: (usize, Option<(Direction, usize)>, Option<usize>, Option<usize>, Ghost<Shape>))
    requires
        shape_wf(old(nodes)@, sh, parent),
        shape_distinct(sh),
        shape_ordered(old(nodes)@, sh, lo, hi),
        sub_root(sh) == Some(cur as int),
        lo < v < hi,
        shape_vals(old(nodes)@, sh).contains(v),
    ensures
        ({
            let (fi, pinfo, cl, cr, g) = res;
            let f = final(nodes)@;
            let s0 = old(nodes)@;
            &&& f.len() == s0.len()
            &&& forall|j: int|
                0 <= j < s0.len() && !shape_idxs(sh).contains(j) ==> f[j] == s0[j]
            &&& shape_wf(f, g@, parent)
            &&& shape_distinct(g@)
            &&& shape_ordered(f, g@, lo, hi)
            &&& shape_idxs(g@).subset_of(shape_idxs(sh))
            &&& shape_idxs(sh).contains(fi as int)
            &&& 0 <= fi < f.len()
            &&& s0[fi as int].spec_value() == v
            &&& f[fi as int].spec_unlinked()
            &&& f[fi as int].spec_value() == v
            &&& !shape_idxs(g@).contains(fi as int)
            &&& cl == s0[fi as int].spec_child(Direction::Left)
            &&& cr == s0[fi as int].spec_child(Direction::Right)
            &&& (cl is Some ==> 0 <= cl.unwrap() < f.len() && f[cl.unwrap() as int].spec_parent()
                is None)
            &&& (cr is Some ==> 0 <= cr.unwrap() < f.len() && f[cr.unwrap() as int].spec_parent()
                is None)
            &&& ((fi == cur) <==> (pinfo is None))
            &&& (pinfo is None ==> g@ is Nil)
            &&& (pinfo is Some ==> sub_root(g@) == Some(cur as int) && ({
                let (d, p) = pinfo.unwrap();
                &&& s0[fi as int].spec_parent() == Some(p)
                &&& s0[p as int].spec_child(d) == Some(fi)
                &&& 0 <= p < f.len()
                &&& f[p as int].spec_child(d) is None
                &&& f[p as int].spec_child(flip_spec(d)) == s0[p as int].spec_child(flip_spec(d))
                &&& f[p as int].spec_parent() == s0[p as int].spec_parent()
                &&& f[p as int].spec_value() == s0[p as int].spec_value()
                &&& shape_idxs(g@).contains(p as int)
            }))
            &&& (cl is Some ==> ({
                let c = cl.unwrap() as int;
                &&& f[c].spec_value() == s0[c].spec_value()
                &&& f[c].spec_child(Direction::Left) == s0[c].spec_child(Direction::Left)
                &&& f[c].spec_child(Direction::Right) == s0[c].spec_child(Direction::Right)
            }))
            &&& (cr is Some ==> ({
                let c = cr.unwrap() as int;
                &&& f[c].spec_value() == s0[c].spec_value()
                &&& f[c].spec_child(Direction::Left) == s0[c].spec_child(Direction::Left)
                &&& f[c].spec_child(Direction::Right) == s0[c].spec_child(Direction::Right)
            }))
            &&& forall|j: int|
                0 <= j < s0.len() && j != fi as int && (pinfo is Some ==> j
                    != pinfo.unwrap().1 as int) && (cl is Some ==> j != cl.unwrap() as int) && (
                cr is Some ==> j != cr.unwrap() as int) ==> f[j] == s0[j]
            &&& shape_vals(f, g@).subset_of(shape_vals(s0, sh).remove(v))
        }),
    decreases sh,
{
    let ghost s0 = nodes@;
    let node = nodes[cur];
    let ghost shl = sub_left(sh);
    let ghost shr = sub_right(sh);
    let ghost val = node.spec_value();
    proof {
        assert(sh == Shape::Node { i: cur as int, l: Box::new(shl), r: Box::new(shr) });
        lemma_idxs_in_arena(s0, sh, parent);
        lemma_idxs_in_arena(s0, shl, Some(cur as int));
        lemma_idxs_in_arena(s0, shr, Some(cur as int));
        lemma_vals_bounds(s0, shr, val as int, hi);
        lemma_vals_bounds(s0, shl, lo, val as int);
    }
    match node.get_direction_of_value(v) {
        None => {
            // this is the node: sever all three links and orphan the children
            let mut cnode = nodes[cur];
            cnode.set_parent(None);
            cnode.set_child(Direction::Left, None);
            cnode.set_child(Direction::Right, None);
            nodes[cur] = cnode;
            match node.get_child(Direction::Left) {
                Some(lc) => {
                    proof {
                        assert(sub_root(shl) == Some(lc as int));
                        assert(shape_wf(s0, shl, Some(cur as int)));
                        assert((lc as int) < s0.len());
                    }
                    let mut n = nodes[lc];
                    n.set_parent(None);
                    nodes[lc] = n;
                },
                None => {},
            }
            match node.get_child(Direction::Right) {
                Some(rc) => {
                    proof {
                        assert(sub_root(shr) == Some(rc as int));
                        assert(shape_wf(s0, shr, Some(cur as int)));
                        assert((rc as int) < s0.len());
                    }
                    let mut n = nodes[rc];
                    n.set_parent(None);
                    nodes[rc] = n;
                },
                None => {},
            }
            proof {
                assert(shape_vals(nodes@, Shape::Nil) =~= Set::<u64>::empty());
                assert(shape_idxs(Shape::Nil) =~= Set::<int>::empty());
                assert(nodes@[cur as int].spec_unlinked());
                if node.spec_child(Direction::Left) is Some {
                    let lci = node.spec_child(Direction::Left).unwrap() as int;
                    assert(sub_root(shl) == Some(lci));
                    assert(shape_idxs(shl).contains(lci));
                    assert(!shape_idxs(shr).contains(lci));
                    assert(nodes@[lci].spec_parent() is None);
                }
                if node.spec_child(Direction::Right) is Some {
                    let rci = node.spec_child(Direction::Right).unwrap() as int;
                    assert(sub_root(shr) == Some(rci));
                    assert(shape_idxs(shr).contains(rci));
                    assert(nodes@[rci].spec_parent() is None);
                }
            }
            (
                cur,
                None,
                node.get_child(Direction::Left),
                node.get_child(Direction::Right),
                Ghost(Shape::Nil),
            )
        },
        Some(Direction::Left) => {
            proof {
                assert(!shape_vals(s0, shr).contains(v));
                assert(shape_vals(s0, shl).contains(v));
                assert(shl is Node);
            }
            let lc = match node.get_child(Direction::Left) {
                Some(lc) => lc,
                None => vstd::pervasive::unreached(),
            };
            let res = extract_at(
                nodes,
                lc,
                v,
                Ghost(shl),
                Ghost(Some(cur as int)),
                Ghost(lo),
                Ghost(val as int),
            );
            let (fi, rec_pinfo, cl, cr, g_l) = res;
            let ghost mid = nodes@;
            if rec_pinfo.is_none() {
                // the severed node was our own left child: clear the slot
                let mut cnode = nodes[cur];
                cnode.set_child(Direction::Left, None);
                nodes[cur] = cnode;
                let ghost f = nodes@;
                let ghost g = Shape::Node {
                    i: cur as int,
                    l: Box::new(Shape::Nil),
                    r: Box::new(shr),
                };
                proof {
                    reveal_with_fuel(shape_vals, 2);
                    reveal_with_fuel(shape_idxs, 2);
                    reveal_with_fuel(shape_wf, 2);
                    reveal_with_fuel(shape_ordered, 2);
                    reveal_with_fuel(shape_distinct, 2);
                    assert(fi == lc);
                    assert(mid[cur as int] == s0[cur as int]);
                    assert forall|j: int| shape_idxs(shr).contains(j) implies f[j] == s0[j] by {
                        assert(0 <= j < s0.len());
                        assert(!shape_idxs(shl).contains(j));
                        assert(j != cur as int);
                    }
                    lemma_frame(s0, f, shr, Some(cur as int), val as int, hi);
                    assert(shape_wf(f, g, parent));
                    assert(shape_ordered(f, g, lo, hi));
                    assert(f[fi as int] == mid[fi as int]);
                    assert(shape_vals(f, g).subset_of(shape_vals(s0, sh).remove(v))) by {
                        assert forall|x: u64| shape_vals(f, g).contains(x) implies shape_vals(
                            s0,
                            sh,
                        ).contains(x) && x != v by {
                            if shape_vals(f, shr).contains(x) {
                                assert(shape_vals(s0, shr).contains(x));
                            } else {
                                assert(x == val);
                            }
                        }
                    }
                    if cl is Some {
                        assert(f[cl.unwrap() as int] == mid[cl.unwrap() as int]);
                    }
                    if cr is Some {
                        assert(f[cr.unwrap() as int] == mid[cr.unwrap() as int]);
                    }
                }
                (fi, Some((Direction::Left, cur)), cl, cr, Ghost(g))
            } else {
                let ghost g = Shape::Node { i: cur as int, l: Box::new(g_l@), r: Box::new(shr) };
                proof {
                    assert(mid[cur as int] == s0[cur as int]);
                    assert forall|j: int| shape_idxs(shr).contains(j) implies mid[j] == s0[j] by {
                        assert(0 <= j < s0.len());
                        assert(!shape_idxs(shl).contains(j));
                    }
                    lemma_frame(s0, mid, shr, Some(cur as int), val as int, hi);
                    assert(shape_wf(mid, g, parent));
                    assert(shape_ordered(mid, g, lo, hi));
                    assert(shape_distinct(g)) by {
                        assert(shape_idxs(g_l@).disjoint(shape_idxs(shr))) by {
                            assert forall|j: int|
                                shape_idxs(g_l@).contains(j) && shape_idxs(shr).contains(
                                    j,
                                ) implies false by {
                                assert(shape_idxs(shl).contains(j));
                            }
                        }
                        assert(!shape_idxs(g_l@).contains(cur as int));
                    }
                    assert(shape_vals(mid, g).subset_of(shape_vals(s0, sh).remove(v))) by {
                        assert forall|x: u64| shape_vals(mid, g).contains(x) implies shape_vals(
                            s0,
                            sh,
                        ).contains(x) && x != v by {
                            if shape_vals(mid, g_l@).contains(x) {
                                assert(shape_vals(s0, shl).remove(v).contains(x));
                            } else if shape_vals(mid, shr).contains(x) {
                                assert(shape_vals(s0, shr).contains(x));
                            } else {
                                assert(x == val);
                            }
                        }
                    }
                    assert(shape_idxs(g).subset_of(shape_idxs(sh))) by {
                        assert forall|j: int| shape_idxs(g).contains(j) implies shape_idxs(
                            sh,
                        ).contains(j) by {
                            if shape_idxs(g_l@).contains(j) {
                                assert(shape_idxs(shl).contains(j));
                            }
                        }
                    }
                }
                (fi, rec_pinfo, cl, cr, Ghost(g))
            }
        },
        Some(Direction::Right) => {
            proof {
                assert(!shape_vals(s0, shl).contains(v));
                assert(shape_vals(s0, shr).contains(v));
                assert(shr is Node);
            }
            let rc = match node.get_child(Direction::Right) {
                Some(rc) => rc,
                None => vstd::pervasive::unreached(),
            };
            let res = extract_at(
                nodes,
                rc,
                v,
                Ghost(shr),
                Ghost(Some(cur as int)),
                Ghost(val as int),
                Ghost(hi),
            );
            let (fi, rec_pinfo, cl, cr, g_r) = res;
            let ghost mid = nodes@;
            if rec_pinfo.is_none() {
                let mut cnode = nodes[cur];
                cnode.set_child(Direction::Right, None);
                nodes[cur] = cnode;
                let ghost f = nodes@;
                let ghost g = Shape::Node {
                    i: cur as int,
                    l: Box::new(shl),
                    r: Box::new(Shape::Nil),
                };
                proof {
                    reveal_with_fuel(shape_vals, 2);
                    reveal_with_fuel(shape_idxs, 2);
                    reveal_with_fuel(shape_wf, 2);
                    reveal_with_fuel(shape_ordered, 2);
                    reveal_with_fuel(shape_distinct, 2);
                    assert(fi == rc);
                    assert(mid[cur as int] == s0[cur as int]);
                    assert forall|j: int| shape_idxs(shl).contains(j) implies f[j] == s0[j] by {
                        assert(0 <= j < s0.len());
                        assert(!shape_idxs(shr).contains(j));
                        assert(j != cur as int);
                    }
                    lemma_frame(s0, f, shl, Some(cur as int), lo, val as int);
                    assert(shape_wf(f, g, parent));
                    assert(shape_ordered(f, g, lo, hi));
                    assert(f[fi as int] == mid[fi as int]);
                    assert(shape_vals(f, g).subset_of(shape_vals(s0, sh).remove(v))) by {
                        assert forall|x: u64| shape_vals(f, g).contains(x) implies shape_vals(
                            s0,
                            sh,
                        ).contains(x) && x != v by {
                            if shape_vals(f, shl).contains(x) {
                                assert(shape_vals(s0, shl).contains(x));
                            } else {
                                assert(x == val);
                            }
                        }
                    }
                    if cl is Some {
                        assert(f[cl.unwrap() as int] == mid[cl.unwrap() as int]);
                    }
                    if cr is Some {
                        assert(f[cr.unwrap() as int] == mid[cr.unwrap() as int]);
                    }
                }
                (fi, Some((Direction::Right, cur)), cl, cr, Ghost(g))
            } else {
                let ghost g = Shape::Node { i: cur as int, l: Box::new(shl), r: Box::new(g_r@) };
                proof {
                    assert(mid[cur as int] == s0[cur as int]);
                    assert forall|j: int| shape_idxs(shl).contains(j) implies mid[j] == s0[j] by {
                        assert(0 <= j < s0.len());
                        assert(!shape_idxs(shr).contains(j));
                    }
                    lemma_frame(s0, mid, shl, Some(cur as int), lo, val as int);
                    assert(shape_wf(mid, g, parent));
                    assert(shape_ordered(mid, g, lo, hi));
                    assert(shape_distinct(g)) by {
                        assert(shape_idxs(shl).disjoint(shape_idxs(g_r@))) by {
                            assert forall|j: int|
                                shape_idxs(shl).contains(j) && shape_idxs(g_r@).contains(
                                    j,
                                ) implies false by {
                                assert(shape_idxs(shr).contains(j));
                            }
                        }
                        assert(!shape_idxs(g_r@).contains(cur as int));
                    }
                    assert(shape_vals(mid, g).subset_of(shape_vals(s0, sh).remove(v))) by {
                        assert forall|x: u64| shape_vals(mid, g).contains(x) implies shape_vals(
                            s0,
                            sh,
                        ).contains(x) && x != v by {
                            if shape_vals(mid, g_r@).contains(x) {
                                assert(shape_vals(s0, shr).remove(v).contains(x));
                            } else if shape_vals(mid, shl).contains(x) {
                                assert(shape_vals(s0, shl).contains(x));
                            } else {
                                assert(x == val);
                            }
                        }
                    }
                    assert(shape_idxs(g).subset_of(shape_idxs(sh))) by {
                        assert forall|j: int| shape_idxs(g).contains(j) implies shape_idxs(
                            sh,
                        ).contains(j) by {
                            if shape_idxs(g_r@).contains(j) {
                                assert(shape_idxs(shr).contains(j));
                            }
                        }
                    }
                }
                (fi, rec_pinfo, cl, cr, Ghost(g))
            }
        },
    }
}

/// The subshape rooted at index `i` within `sh` (`Nil` if `i` is not
/// linked).
pub open spec fn sub_at(sh: Shape, i: int) -> Shape
    decreases sh,
{
    if sub_root(sh) == Some(i) {
        sh
    } else if shape_idxs(sub_left(sh)).contains(i) {
        sub_at(sub_left(sh), i)
    } else if shape_idxs(sub_right(sh)).contains(i) {
        sub_at(sub_right(sh), i)
    } else {
        Shape::Nil
    }
}

/// The lower bound the subtree at index `i` inherits from its ancestors:
/// every turn to the right raises it to the value just passed.
pub open spec fn win_lo(s: Seq<SimpleBstNode>, sh: Shape, i: int, lo: int) -> int
    decreases sh,
{
    if sub_root(sh) == Some(i) {
        lo
    } else if shape_idxs(sub_left(sh)).contains(i) {
        win_lo(s, sub_left(sh), i, lo)
    } else if shape_idxs(sub_right(sh)).contains(i) {
        win_lo(s, sub_right(sh), i, s[sub_root(sh).unwrap()].spec_value() as int)
    } else {
        lo
    }
}

/// The upper bound the subtree at index `i` inherits from its ancestors:
/// every turn to the left lowers it to the value just passed.
pub open spec fn win_hi(s: Seq<SimpleBstNode>, sh: Shape, i: int, hi: int) -> int
    decreases sh,
{
    if sub_root(sh) == Some(i) {
        hi
    } else if shape_idxs(sub_left(sh)).contains(i) {
        win_hi(s, sub_left(sh), i, s[sub_root(sh).unwrap()].spec_value() as int)
    } else if shape_idxs(sub_right(sh)).contains(i) {
        win_hi(s, sub_right(sh), i, hi)
    } else {
        hi
    }
}

/// The window of a linked index separates the tree: the subtree at `i` is
/// ordered within it, and every other value of the tree lies outside it.
proof fn lemma_window(s: Seq<SimpleBstNode>, sh: Shape, parent: Option<int>, lo: int, hi: int, i: int)
    requires
        shape_wf(s, sh, parent),
        shape_distinct(sh),
        shape_ordered(s, sh, lo, hi),
        shape_idxs(sh).contains(i),
    ensures
        ({
            let wl = win_lo(s, sh, i, lo);
            let wh = win_hi(s, sh, i, hi);
            &&& lo <= wl
            &&& wh <= hi
            &&& shape_ordered(s, sub_at(sh, i), wl, wh)
            &&& forall|x: u64|
                shape_vals(s, sh).contains(x) && !shape_vals(s, sub_at(sh, i)).contains(x) ==> x
                    <= wl || x >= wh
        }),
    decreases sh,
{
    match sh {
        Shape::Nil => {},
        Shape::Node { i: n, l, r } => {
            let v = s[n].spec_value();
            lemma_vals_bounds(s, *l, lo, v as int);
            lemma_vals_bounds(s, *r, v as int, hi);
            if n == i {
                assert(sub_at(sh, i) == sh);
                assert forall|x: u64|
                    shape_vals(s, sh).contains(x) && !shape_vals(s, sub_at(sh, i)).contains(
                        x,
                    ) implies x <= lo || x >= hi by {}
            } else if shape_idxs(*l).contains(i) {
                lemma_window(s, *l, Some(n), lo, v as int, i);
                let wl = win_lo(s, sh, i, lo);
                let wh = win_hi(s, sh, i, hi);
                assert(wl == win_lo(s, *l, i, lo));
                assert(wh == win_hi(s, *l, i, v as int));
                assert(sub_at(sh, i) == sub_at(*l, i));
                assert forall|x: u64|
                    shape_vals(s, sh).contains(x) && !shape_vals(s, sub_at(sh, i)).contains(
                        x,
                    ) implies x <= wl || x >= wh by {
                    if shape_vals(s, *l).contains(x) {
                    } else if shape_vals(s, *r).contains(x) {
                        assert(x > v);
                        assert(wh <= v as int);
                    } else {
                        assert(x == v);
                        assert(wh <= v as int);
                    }
                }
            } else {
                assert(shape_idxs(*r).contains(i));
                lemma_window(s, *r, Some(n), v as int, hi, i);
                let wl = win_lo(s, sh, i, lo);
                let wh = win_hi(s, sh, i, hi);
                assert(wl == win_lo(s, *r, i, v as int));
                assert(wh == win_hi(s, *r, i, hi));
                assert(sub_at(sh, i) == sub_at(*r, i));
                assert forall|x: u64|
                    shape_vals(s, sh).contains(x) && !shape_vals(s, sub_at(sh, i)).contains(
                        x,
                    ) implies x <= wl || x >= wh by {
                    if shape_vals(s, *r).contains(x) {
                    } else if shape_vals(s, *l).contains(x) {
                        assert(x < v);
                        assert(wl >= v as int);
                    } else {
                        assert(x == v);
                        assert(wl >= v as int);
                    }
                }
            }
        },
    }
}

/// Stepping from a node to one of its children narrows the window on one
/// side: a left child's upper bound becomes the parent's value, a right
/// child's lower bound does.
proof fn lemma_win_child(
    s: Seq<SimpleBstNode>,
    sh: Shape,
    parent: Option<int>,
    lo: int,
    hi: int,
    p: int,
    d: Direction,
)
    requires
        shape_wf(s, sh, parent),
        shape_distinct(sh),
        shape_idxs(sh).contains(p),
        s[p].spec_child(d) is Some,
    ensures
        ({
            let c = s[p].spec_child(d).unwrap() as int;
            &&& shape_idxs(sh).contains(c)
            &&& d == Direction::Left ==> win_lo(s, sh, c, lo) == win_lo(s, sh, p, lo) && win_hi(
                s,
                sh,
                c,
                hi,
            ) == s[p].spec_value() as int
            &&& d == Direction::Right ==> win_lo(s, sh, c, lo) == s[p].spec_value() as int
                && win_hi(s, sh, c, hi) == win_hi(s, sh, p, hi)
        }),
    decreases sh,
{
    lemma_child_link(s, sh, parent, p, d);
    match sh {
        Shape::Nil => {},
        Shape::Node { i: n, l, r } => {
            let c = s[p].spec_child(d).unwrap() as int;
            let v = s[n].spec_value();
            if n == p {
                if d == Direction::Left {
                    assert(sub_root(*l) == Some(c));
                    assert(shape_idxs(*l).contains(c));
                    assert(!shape_idxs(*r).contains(c));
                    assert(c != n);
                    assert(win_lo(s, *l, c, lo) == lo);
                    assert(win_hi(s, *l, c, v as int) == v as int);
                } else {
                    assert(sub_root(*r) == Some(c));
                    assert(shape_idxs(*r).contains(c));
                    assert(!shape_idxs(*l).contains(c));
                    assert(c != n);
                    assert(win_lo(s, *r, c, v as int) == v as int);
                    assert(win_hi(s, *r, c, hi) == hi);
                }
            } else if shape_idxs(*l).contains(p) {
                lemma_win_child(s, *l, Some(n), lo, v as int, p, d);
                lemma_child_link(s, *l, Some(n), p, d);
                assert(shape_idxs(*l).contains(c));
                assert(c != n);
                assert(!shape_idxs(*r).contains(c));
            } else {
                assert(shape_idxs(*r).contains(p));
                lemma_win_child(s, *r, Some(n), v as int, hi, p, d);
                lemma_child_link(s, *r, Some(n), p, d);
                assert(shape_idxs(*r).contains(c));
                assert(c != n);
                assert(!shape_idxs(*l).contains(c));
            }
        },
    }
}

/// The subshape at a linked index is itself well-formed, ordered within the
/// enclosing bounds, and covered by the enclosing shape.
proof fn lemma_sub_at(s: Seq<SimpleBstNode>, sh: Shape, parent: Option<int>, lo: int, hi: int, i: int)
    requires
        shape_wf(s, sh, parent),
        shape_distinct(sh),
        shape_ordered(s, sh, lo, hi),
        shape_idxs(sh).contains(i),
    ensures
        ({
            let sub = sub_at(sh, i);
            &&& sub_root(sub) == Some(i)
            &&& shape_wf(s, sub, lift(s[i].spec_parent()))
            &&& shape_distinct(sub)
            &&& shape_ordered(s, sub, lo, hi)
            &&& shape_idxs(sub).subset_of(shape_idxs(sh))
            &&& shape_vals(s, sub).subset_of(shape_vals(s, sh))
        }),
    decreases sh,
{
    match sh {
        Shape::Nil => {},
        Shape::Node { i: n, l, r } => {
            let v = s[n].spec_value();
            if n == i {
                assert(lift(s[i].spec_parent()) == parent);
            } else if shape_idxs(*l).contains(i) {
                lemma_sub_at(s, *l, Some(n), lo, v as int, i);
                lemma_ordered_relax(s, sub_at(*l, i), lo, v as int, lo, hi);
            } else {
                assert(shape_idxs(*r).contains(i));
                lemma_sub_at(s, *r, Some(n), v as int, hi, i);
                lemma_ordered_relax(s, sub_at(*r, i), v as int, hi, lo, hi);
            }
        },
    }
}

/// Stepping from a node to one of its children moves the subshape one level
/// down.
proof fn lemma_sub_at_child(
    s: Seq<SimpleBstNode>,
    sh: Shape,
    parent: Option<int>,
    p: int,
    d: Direction,
)
    requires
        shape_wf(s, sh, parent),
        shape_distinct(sh),
        shape_idxs(sh).contains(p),
        s[p].spec_child(d) is Some,
    ensures
        ({
            let c = s[p].spec_child(d).unwrap() as int;
            &&& shape_idxs(sh).contains(c)
            &&& sub_at(sh, c) == (if d == Direction::Left {
                sub_left(sub_at(sh, p))
            } else {
                sub_right(sub_at(sh, p))
            })
        }),
    decreases sh,
{
    lemma_child_link(s, sh, parent, p, d);
    match sh {
        Shape::Nil => {},
        Shape::Node { i: n, l, r } => {
            let c = s[p].spec_child(d).unwrap() as int;
            if n == p {
                if d == Direction::Left {
                    assert(sub_root(*l) == Some(c));
                    assert(shape_idxs(*l).contains(c));
                    assert(!shape_idxs(*r).contains(c));
                    assert(c != n);
                    assert(sub_at(*l, c) == *l);
                    assert(sub_at(sh, c) == *l);
                } else {
                    assert(sub_root(*r) == Some(c));
                    assert(shape_idxs(*r).contains(c));
                    assert(!shape_idxs(*l).contains(c));
                    assert(c != n);
                    assert(sub_at(*r, c) == *r);
                    assert(sub_at(sh, c) == *r);
                }
            } else if shape_idxs(*l).contains(p) {
                lemma_sub_at_child(s, *l, Some(n), p, d);
                lemma_child_link(s, *l, Some(n), p, d);
                assert(shape_idxs(*l).contains(c));
                assert(c != n);
                assert(!shape_idxs(*r).contains(c));
            } else {
                assert(shape_idxs(*r).contains(p));
                lemma_sub_at_child(s, *r, Some(n), p, d);
                lemma_child_link(s, *r, Some(n), p, d);
                assert(shape_idxs(*r).contains(c));
                assert(c != n);
                assert(!shape_idxs(*l).contains(c));
            }
        },
    }
}

impl SimpleBst {
    /// The set of values in the subtree rooted at the node with index `i`.
    pub closed spec fn subtree_vals(self, i: usize) -> Set<u64> {
        shape_vals(self.nodes@, sub_at(self.shape@, i as int))
    }
}

/// Follows `d`-children from `i` as far as possible: returns the extreme
/// (leftmost or rightmost) node of the subtree rooted at `i`, which holds
/// the minimum (for `Left`) or maximum (for `Right`) of that subtree. The
/// subtree's values are values of the tree, include this node's own value,
/// and are the whole tree when `i` is the root.
pub fn get_extreme(t: &SimpleBst, i: usize, d: Direction) -> (r: usize)
    requires
        t.wf(),
        t.contains_idx(i),
    ensures
        t.contains_idx(r),
        t.subtree_vals(i).contains(t.value_at(r)),
        t.subtree_vals(i).contains(t.value_at(i)),
        t.subtree_vals(i).subset_of(t@),
        t.parent_at(i) is None ==> t.subtree_vals(i) == t@,
        t.child_at(r, d) is None,
        d == Direction::Left ==> forall|x: u64| t.subtree_vals(i).contains(x) ==> t.value_at(r)
            <= x,
        d == Direction::Right ==> forall|x: u64| t.subtree_vals(i).contains(x) ==> t.value_at(r)
            >= x,
{
    proof {
        lemma_sub_at(t.nodes@, t.shape@, None, no_low(), no_high(), i as int);
        assert(sub_at(t.shape@, i as int) is Node);
        assert(shape_vals(t.nodes@, sub_at(t.shape@, i as int)).contains(t.value_at(i)));
        if t.parent_at(i) is None {
            lemma_parent_link(t.nodes@, t.shape@, None, i as int);
            assert(Some(i as int) == sub_root(t.shape@));
            assert(sub_at(t.shape@, i as int) == t.shape@);
        }
    }
    let r = extreme_at(
        &t.nodes,
        i,
        d,
        Ghost(sub_at(t.shape@, i as int)),
        Ghost(lift(t.nodes@[i as int].spec_parent())),
        Ghost(no_low()),
        Ghost(no_high()),
    );
    r
}

/// The recursive descent behind `get_extreme`.
fn extreme_at(
    nodes: &Vec<SimpleBstNode>,
    cur: usize,
    d: Direction,
    Ghost(sh): Ghost<Shape>,
    Ghost(parent): Ghost<Option<int>>,
    Ghost(lo): Ghost<int>,
    Ghost(hi): Ghost<int>,
) -> (r: usize)
    requires
        shape_wf(nodes@, sh, parent),
        shape_ordered(nodes@, sh, lo, hi),
        sub_root(sh) == Some(cur as int),
    ensures
        shape_idxs(sh).contains(r as int),
        0 <= r < nodes@.len(),
        shape_vals(nodes@, sh).contains(nodes@[r as int].spec_value()),
        nodes@[r as int].spec_child(d) is None,
        d == Direction::Left ==> forall|x: u64|
            shape_vals(nodes@, sh).contains(x) ==> nodes@[r as int].spec_value() <= x,
        d == Direction::Right ==> forall|x: u64|
            shape_vals(nodes@, sh).contains(x) ==> nodes@[r as int].spec_value() >= x,
    decreases sh,
{
    let node = nodes[cur];
    let ghost shl = sub_left(sh);
    let ghost shr = sub_right(sh);
    let ghost val = node.spec_value();
    proof {
        lemma_vals_bounds(nodes@, shl, lo, val as int);
        lemma_vals_bounds(nodes@, shr, val as int, hi);
    }
    match node.get_child(d) {
        None => {
            proof {
                match d {
                    Direction::Left => {
                        assert(shl is Nil);
                        assert forall|x: u64| shape_vals(nodes@, sh).contains(x) implies val
                            <= x by {
                            if shape_vals(nodes@, shr).contains(x) {
                            } else if shape_vals(nodes@, shl).contains(x) {
                            } else {
                                assert(x == val);
                            }
                        }
                    },
                    Direction::Right => {
                        assert(shr is Nil);
                        assert forall|x: u64| shape_vals(nodes@, sh).contains(x) implies val
                            >= x by {
                            if shape_vals(nodes@, shl).contains(x) {
                            } else if shape_vals(nodes@, shr).contains(x) {
                            } else {
                                assert(x == val);
                            }
                        }
                    },
                }
                assert(shape_vals(nodes@, sh).contains(val));
            }
            cur
        },
        Some(c) => {
            let ghost sub = if d == Direction::Left {
                shl
            } else {
                shr
            };
            let ghost (slo, shi) = if d == Direction::Left {
                (lo, val as int)
            } else {
                (val as int, hi)
            };
            let r = extreme_at(nodes, c, d, Ghost(sub), Ghost(Some(cur as int)), Ghost(slo), Ghost(shi));
            proof {
                lemma_vals_bounds(nodes@, sub, slo, shi);
                let rv = nodes@[r as int].spec_value();
                match d {
                    Direction::Left => {
                        assert(rv < val);
                        assert forall|x: u64| shape_vals(nodes@, sh).contains(x) implies rv
                            <= x by {
                            if shape_vals(nodes@, shl).contains(x) {
                            } else if shape_vals(nodes@, shr).contains(x) {
                            } else {
                                assert(x == val);
                            }
                        }
                    },
                    Direction::Right => {
                        assert(rv > val);
                        assert forall|x: u64| shape_vals(nodes@, sh).contains(x) implies rv
                            >= x by {
                            if shape_vals(nodes@, shr).contains(x) {
                            } else if shape_vals(nodes@, shl).contains(x) {
                            } else {
                                assert(x == val);
                            }
                        }
                    },
                }
            }
            r
        },
    }
}

/// Computes the in-order successor of the node at `i`: the leftmost node of
/// its right subtree if one exists, otherwise the first ancestor reached
/// from a left child. The successor holds the least value of the tree
/// strictly above this node's value; `None` comes back exactly when this
/// node holds the maximum.
pub fn next_inorder(t: &SimpleBst, i: usize) -> (r: Option<usize>)
    requires
        t.wf(),
        t.contains_idx(i),
    ensures
        r is Some ==> t.contains_idx(r.unwrap()) && t@.contains(t.value_at(r.unwrap()))
            && t.value_at(r.unwrap()) > t.value_at(i) && forall|x: u64|
            t@.contains(x) && x > t.value_at(i) ==> t.value_at(r.unwrap()) <= x,
        (r is None) <==> (forall|x: u64| t@.contains(x) ==> x <= t.value_at(i)),
{
    let ghost s_seq = t.nodes@;
    let ghost sh = t.shape@;
    let ghost vi = t.value_at(i);
    proof {
        lemma_idxs_in_arena(s_seq, sh, None);
        lemma_sub_at(s_seq, sh, None, no_low(), no_high(), i as int);
        lemma_window(s_seq, sh, None, no_low(), no_high(), i as int);
    }
    let ghost sub_i = sub_at(sh, i as int);
    let ghost wl = win_lo(s_seq, sh, i as int, no_low());
    let ghost wh = win_hi(s_seq, sh, i as int, no_high());
    let node = t.nodes[i];
    match node.get_child(Direction::Right) {
        Some(rc) => {
            proof {
                lemma_sub_at_child(s_seq, sh, None, i as int, Direction::Right);
                lemma_sub_at(s_seq, sh, None, no_low(), no_high(), rc as int);
                assert(sub_at(sh, rc as int) == sub_right(sub_i));
                assert(sub_i is Node);
                assert(shape_ordered(s_seq, sub_i, wl, wh));
                assert(wl < vi < wh);
                assert(shape_ordered(s_seq, sub_right(sub_i), vi as int, wh));
                lemma_vals_bounds(s_seq, sub_right(sub_i), vi as int, wh);
                lemma_vals_bounds(s_seq, sub_left(sub_i), wl, vi as int);
            }
            let succ = extreme_at(
                &t.nodes,
                rc,
                Direction::Left,
                Ghost(sub_at(sh, rc as int)),
                Ghost(lift(t.nodes@[rc as int].spec_parent())),
                Ghost(vi as int),
                Ghost(wh),
            );
            proof {
                let sv = t.value_at(succ);
                lemma_idx_val(s_seq, sh, None, succ as int);
                assert(t@.contains(sv));
                assert(vi < sv < wh);
                assert forall|x: u64| t@.contains(x) && x > vi implies sv <= x by {
                    if shape_vals(s_seq, sub_i).contains(x) {
                        if shape_vals(s_seq, sub_left(sub_i)).contains(x) {
                            assert(x < vi);
                        } else if shape_vals(s_seq, sub_right(sub_i)).contains(x) {
                        } else {
                            assert(x == vi);
                        }
                    } else {
                        assert(x <= wl || x >= wh);
                    }
                }
            }
            Some(succ)
        },
        None => {
            // walk up while the current node is a right child; the successor
            // is the parent of the first ancestor that is a left child
            proof {
                assert(sub_right(sub_i) is Nil);
                assert(sub_i is Node);
                assert(shape_vals(s_seq, sub_right(sub_i)) =~= Set::<u64>::empty());
                assert(shape_ordered(s_seq, sub_i, wl, wh));
                assert(wl < vi < wh);
                lemma_vals_bounds(s_seq, sub_left(sub_i), wl, vi as int);
                assert forall|x: u64|
                    t@.contains(x) && x > vi implies x >= win_hi(s_seq, sh, i as int, no_high()) by {
                    if shape_vals(s_seq, sub_i).contains(x) {
                        if shape_vals(s_seq, sub_left(sub_i)).contains(x) {
                            assert(x < vi);
                        } else if shape_vals(s_seq, sub_right(sub_i)).contains(x) {
                            assert(false);
                        } else {
                            assert(x == vi);
                        }
                    } else {
                        assert(x <= wl || x >= wh);
                    }
                }
            }
            let mut cur = i;
            loop
                invariant
                    t.wf(),
                    t.nodes@ == s_seq,
                    t.shape@ == sh,
                    t.contains_idx(cur),
                    t.subtree_vals(cur).contains(vi),
                    t.value_at(cur) <= vi,
                    vi == t.value_at(i),
                    forall|x: u64|
                        t@.contains(x) && x > vi ==> x >= win_hi(s_seq, sh, cur as int, no_high()),
                decreases t.value_at(cur),
            {
                proof {
                    lemma_idxs_in_arena(s_seq, sh, None);
                    lemma_parent_link(s_seq, sh, None, cur as int);
                }
                match t.nodes[cur].get_parent() {
                    None => {
                        proof {
                            if Some(cur as int) != sub_root(sh) {
                                assert(false);
                            }
                            assert(win_hi(s_seq, sh, cur as int, no_high()) == no_high());
                            assert forall|x: u64| t@.contains(x) implies x <= vi by {
                                if x > vi {
                                    assert(x >= no_high());
                                }
                            }
                        }
                        return None;
                    },
                    Some(p) => {
                        proof {
                            if Some(cur as int) == sub_root(sh) {
                                assert(lift(s_seq[cur as int].spec_parent()) == None::<int>);
                                assert(false);
                            }
                            lemma_sub_at(s_seq, sh, None, no_low(), no_high(), p as int);
                        }
                        let pnode = t.nodes[p];
                        let is_right = match pnode.get_child(Direction::Right) {
                            Some(c) => c == cur,
                            None => false,
                        };
                        if is_right {
                            proof {
                                lemma_sub_at_child(s_seq, sh, None, p as int, Direction::Right);
                                lemma_win_child(
                                    s_seq,
                                    sh,
                                    None,
                                    no_low(),
                                    no_high(),
                                    p as int,
                                    Direction::Right,
                                );
                                assert(win_hi(s_seq, sh, cur as int, no_high()) == win_hi(
                                    s_seq,
                                    sh,
                                    p as int,
                                    no_high(),
                                ));
                                let subp = sub_at(sh, p as int);
                                assert(sub_at(sh, cur as int) == sub_right(subp));
                                assert(shape_ordered(s_seq, subp, no_low(), no_high()));
                                lemma_sub_at(s_seq, sh, None, no_low(), no_high(), cur as int);
                                assert(sub_root(sub_at(sh, cur as int)) == Some(cur as int));
                                assert(sub_at(sh, cur as int) is Node);
                                assert(shape_vals(s_seq, sub_at(sh, cur as int)).contains(
                                    t.value_at(cur),
                                ));
                                lemma_vals_bounds(
                                    s_seq,
                                    sub_right(subp),
                                    s_seq[p as int].spec_value() as int,
                                    no_high(),
                                );
                                assert(t.value_at(p) < t.value_at(cur));
                            }
                            cur = p;
                        } else {
                            proof {
                                assert(t.child_at(p, Direction::Left) == Some(cur)
                                    || t.child_at(p, Direction::Right) == Some(cur));
                                assert(t.child_at(p, Direction::Left) == Some(cur));
                                lemma_sub_at_child(s_seq, sh, None, p as int, Direction::Left);
                                lemma_win_child(
                                    s_seq,
                                    sh,
                                    None,
                                    no_low(),
                                    no_high(),
                                    p as int,
                                    Direction::Left,
                                );
                                assert(win_hi(s_seq, sh, cur as int, no_high())
                                    == s_seq[p as int].spec_value() as int);
                                let subp = sub_at(sh, p as int);
                                assert(sub_at(sh, cur as int) == sub_left(subp));
                                lemma_vals_bounds(
                                    s_seq,
                                    sub_left(subp),
                                    no_low(),
                                    s_seq[p as int].spec_value() as int,
                                );
                                assert(vi < t.value_at(p));
                                lemma_idx_val(s_seq, sh, None, p as int);
                                assert(t@.contains(t.value_at(p)));
                                assert forall|x: u64|
                                    t@.contains(x) && x > vi implies t.value_at(p) <= x by {
                                    assert(x >= win_hi(s_seq, sh, cur as int, no_high()));
                                }
                            }
                            return Some(p);
                        }
                    },
                }
            }
        },
    }
}

/// The recursive descent behind `SimpleBst::find`.
fn find_at(
    nodes: &Vec<SimpleBstNode>,
    cur: usize,
    v: u64,
    Ghost(sh): Ghost<Shape>,
    Ghost(parent): Ghost<Option<int>>,
    Ghost(lo): Ghost<int>,
    Ghost(hi): Ghost<int>,
) -> (r: Option<usize>)
    requires
        shape_wf(nodes@, sh, parent),
        shape_ordered(nodes@, sh, lo, hi),
        sub_root(sh) == Some(cur as int),
    ensures
        (r is Some) <==> shape_vals(nodes@, sh).contains(v),
        r is Some ==> shape_idxs(sh).contains(r.unwrap() as int) && nodes@[r.unwrap() as int].spec_value()
            == v,
    decreases sh,
{
    let node = nodes[cur];
    let ghost shl = sub_left(sh);
    let ghost shr = sub_right(sh);
    let ghost val = node.spec_value();
    match node.get_direction_of_value(v) {
        None => {
            proof {
                assert(shape_vals(nodes@, sh).contains(v));
                assert(shape_idxs(sh).contains(cur as int));
            }
            Some(cur)
        },
        Some(Direction::Left) => {
            proof {
                lemma_vals_bounds(nodes@, shr, val as int, hi);
                assert(!shape_vals(nodes@, shr).contains(v));
            }
            match node.get_child(Direction::Left) {
                None => {
                    proof {
                        assert(shl is Nil);
                        assert(!shape_vals(nodes@, shl).contains(v));
                        assert(v != val);
                        assert(shape_vals(nodes@, sh) == shape_vals(nodes@, shl).union(
                            shape_vals(nodes@, shr),
                        ).insert(val));
                        assert(!shape_vals(nodes@, sh).contains(v));
                    }
                    None
                },
                Some(lc) => find_at(
                    nodes,
                    lc,
                    v,
                    Ghost(shl),
                    Ghost(Some(cur as int)),
                    Ghost(lo),
                    Ghost(val as int),
                ),
            }
        },
        Some(Direction::Right) => {
            proof {
                lemma_vals_bounds(nodes@, shl, lo, val as int);
                assert(!shape_vals(nodes@, shl).contains(v));
            }
            match node.get_child(Direction::Right) {
                None => {
                    proof {
                        assert(shr is Nil);
                        assert(!shape_vals(nodes@, shr).contains(v));
                        assert(v != val);
                        assert(shape_vals(nodes@, sh) == shape_vals(nodes@, shl).union(
                            shape_vals(nodes@, shr),
                        ).insert(val));
                        assert(!shape_vals(nodes@, sh).contains(v));
                    }
                    None
                },
                Some(rc) => find_at(
                    nodes,
                    rc,
                    v,
                    Ghost(shr),
                    Ghost(Some(cur as int)),
                    Ghost(val as int),
                    Ghost(hi),
                ),
            }
        },
    }
}

} // verus!
