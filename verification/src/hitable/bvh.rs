//! The bounding volume hierarchy: a binary tree of boxes over a collection
//! of shapes, built by sorting along a random axis and halving, and searched
//! for the nearest hit.

use vstd::prelude::*;
use vstd::seq_lib::*;
use std::cmp::Ordering;
use rand::Rng;
use crate::math::Scalar;
use crate::ray::Ray;
use crate::hitable::aabb::{box_tested, Slabs, AABB};
use crate::hitable::sort::sort_on_axis;
use crate::hitable::{answers, gives_box, nearer, nearer_of, HitInfos, Hitable};

verus! {

/// How `a` stands to `b`: equal, less, or else greater. What is unordered
/// counts as greater.
pub open spec fn order_of(a: Scalar, b: Scalar) -> Ordering {
    if a.eq_spec(b) {
        Ordering::Equal
    } else if a.le_spec(b) {
        Ordering::Less
    } else {
        Ordering::Greater
    }
}

/// How `a` stands to `b`: equal, less, or else greater.
pub fn fast_cmp(a: &Scalar, b: &Scalar) -> (r: Ordering)
    ensures
        r == order_of(*a, *b),
{
    if a.equals(*b) {
        Ordering::Equal
    } else if a.le(*b) {
        Ordering::Less
    } else {
        Ordering::Greater
    }
}

/// How box `a` stands to box `b` by the lower corner on an axis.
pub fn box_compare(a: &AABB, b: &AABB, axis: u32) -> (r: Ordering)
    ensures
        r == order_of(a.min.on_axis(axis), b.min.on_axis(axis)),
{
    fast_cmp(&a.min.component(axis), &b.min.component(axis))
}

/// Box `a` is to stand after box `b` on an axis: both are there, and the
/// lower corner of `a` is greater than that of `b`.
pub open spec fn stands_after(a: Option<AABB>, b: Option<AABB>, axis: u32) -> bool {
    match (a, b) {
        (Some(a), Some(b)) => order_of(a.min.on_axis(axis), b.min.on_axis(axis))
            == Ordering::Greater,
        _ => false,
    }
}

/// Whether box `a` is to stand after box `b` on an axis.
pub fn comes_after(a: &Option<AABB>, b: &Option<AABB>, axis: u32) -> (r: bool)
    ensures
        r == stands_after(*a, *b, axis),
{
    match (a, b) {
        (Some(a), Some(b)) => match box_compare(a, b, axis) {
            Ordering::Greater => true,
            _ => false,
        },
        _ => false,
    }
}

/// The box is there and the coordinates of its lower corner are numbers.
pub open spec fn keyed(aabb: Option<AABB>) -> bool {
    match aabb {
        Some(b) => b.min.is_numeric(),
        None => false,
    }
}

/// Between keyed boxes, one stands after the other exactly when its lower
/// corner is the greater on the axis.
pub proof fn lemma_stands_after(a: Option<AABB>, b: Option<AABB>, axis: u32)
    requires
        keyed(a),
        keyed(b),
    ensures
        stands_after(a, b, axis) <==> b.unwrap().min.on_axis(axis).lt_spec(
            a.unwrap().min.on_axis(axis),
        ),
        !stands_after(a, b, axis) <==> a.unwrap().min.on_axis(axis).le_spec(
            b.unwrap().min.on_axis(axis),
        ),
{
}

/// Draws one of the three axes. This is `Rng::gen_range` of the rand crate,
/// called on the generator of the thread with the bounds 0 and 3: it gives a
/// value from the lower bound up to, and without, the upper bound.
#[verifier::external_body]
fn random_axis() -> (axis: u32)
    ensures
        axis < 3,
{
    rand::thread_rng().gen_range(0, 3)
}

/// A shape with the box that it gave.
pub struct Entry<H> {
    pub shape: H,
    pub aabb: Option<AABB>,
}

/// The shapes of a run of entries.
pub open spec fn shapes_of<H>(entries: Seq<Entry<H>>) -> Seq<H> {
    entries.map_values(|e: Entry<H>| e.shape)
}

/// Every entry is keyed.
pub open spec fn all_keyed<H>(entries: Seq<Entry<H>>) -> bool {
    forall|i: int| 0 <= i < entries.len() ==> keyed(#[trigger] entries[i].aabb)
}

/// No entry is to stand after a later one.
pub open spec fn sorted_on<H>(entries: Seq<Entry<H>>, axis: u32) -> bool {
    forall|i: int, j: int|
        0 <= i < j < entries.len() ==> !stands_after(
            #[trigger] entries[i].aabb,
            #[trigger] entries[j].aabb,
            axis,
        )
}

/// `passed` is an outcome of the test at the door of a node: the slab test
/// of its box, where it has one, and a pass where it has none.
pub open spec fn entered<F: Fn(AABB, Ray) -> Slabs>(
    crossings: &F,
    aabb: Option<AABB>,
    ray: Ray,
    tmin: Scalar,
    tmax: Scalar,
    passed: bool,
) -> bool {
    match aabb {
        Some(aabb) => box_tested(crossings, aabb, ray, tmin, tmax, passed),
        None => passed,
    }
}

/// No box on the left is to stand after a box on the right.
pub open spec fn split_on<H>(left: Seq<Entry<H>>, right: Seq<Entry<H>>, axis: u32) -> bool {
    forall|i: int, j: int|
        0 <= i < left.len() && 0 <= j < right.len() ==> !stands_after(
            #[trigger] left[i].aabb,
            #[trigger] right[j].aabb,
            axis,
        )
}

/// The box of every entry is one that its shape gave.
pub open spec fn all_given<H: Hitable>(entries: Seq<Entry<H>>) -> bool {
    forall|i: int|
        0 <= i < entries.len() ==> gives_box((#[trigger] entries[i]).shape, entries[i].aabb)
}

/// Two runs with the same elements, each as often as in the other, have
/// the same members.
pub proof fn lemma_same_members<A>(a: Seq<A>, b: Seq<A>)
    requires
        a.to_multiset() == b.to_multiset(),
    ensures
        a.len() == b.len(),
        forall|x: A| a.contains(x) <==> b.contains(x),
{
    to_multiset_len(a);
    to_multiset_len(b);
    assert forall|x: A| a.contains(x) <==> b.contains(x) by {
        to_multiset_contains(a, x);
        to_multiset_contains(b, x);
    }
}

/// A node of the hierarchy, with the box around what lies under it.
pub enum BVHNode<H> {
    /// Nothing.
    Empty,
    /// One shape, with the box that it gave.
    Leaf(H, Option<AABB>),
    /// Two subtrees, with the union of their boxes.
    Pair(Box<BVHNode<H>>, Box<BVHNode<H>>, Option<AABB>),
}

impl<H: Hitable> BVHNode<H> {
    /// The box around what lies under the node.
    pub open spec fn aabb(self) -> Option<AABB> {
        match self {
            BVHNode::Empty => None,
            BVHNode::Leaf(_, aabb) => aabb,
            BVHNode::Pair(_, _, aabb) => aabb,
        }
    }

    /// The shapes under the node, from left to right.
    pub open spec fn shapes(self) -> Seq<H>
        decreases self,
    {
        match self {
            BVHNode::Empty => Seq::empty(),
            BVHNode::Leaf(shape, _) => seq![shape],
            BVHNode::Pair(left, right, _) => left.shapes() + right.shapes(),
        }
    }

    /// The shapes under the node with their boxes, from left to right.
    pub open spec fn entries(self) -> Seq<Entry<H>>
        decreases self,
    {
        match self {
            BVHNode::Empty => Seq::empty(),
            BVHNode::Leaf(shape, aabb) => seq![Entry { shape, aabb }],
            BVHNode::Pair(left, right, _) => left.entries() + right.entries(),
        }
    }

    /// The box of a leaf is one that its shape gave, the box of a pair is
    /// the union of the boxes of its two subtrees, and neither subtree of a
    /// pair is empty.
    pub open spec fn wf(self) -> bool
        decreases self,
    {
        match self {
            BVHNode::Empty => true,
            BVHNode::Leaf(shape, aabb) => gives_box(shape, aabb),
            BVHNode::Pair(left, right, aabb) => {
                &&& left.wf()
                &&& right.wf()
                &&& left.shapes().len() > 0
                &&& right.shapes().len() > 0
                &&& aabb == AABB::union_opt(left.aabb(), right.aabb())
            },
        }
    }

    /// Every pair is split by count: its left subtree holds half of its
    /// shapes, rounded down.
    pub open spec fn halved(self) -> bool
        decreases self,
    {
        match self {
            BVHNode::Pair(left, right, _) => {
                &&& left.halved()
                &&& right.halved()
                &&& left.shapes().len() == (left.shapes().len() + right.shapes().len()) / 2
            },
            _ => true,
        }
    }

    /// Every pair is split along an axis, where every shape has a box with
    /// numbers for its lower corner: on one of the three axes, no box on the
    /// left is to stand after a box on the right.
    pub open spec fn separated(self) -> bool
        decreases self,
    {
        match self {
            BVHNode::Pair(left, right, _) => {
                &&& left.separated()
                &&& right.separated()
                &&& all_keyed(self.entries()) ==> exists|axis: u32|
                    axis < 3 && #[trigger] split_on(left.entries(), right.entries(), axis)
            },
            _ => true,
        }
    }

    /// `infos` is an outcome of the search of the node: nothing where the
    /// ray fails the slab test of the node's box in the window; else what
    /// lies inside the box is searched.
    pub open spec fn searched<F: Fn(AABB, Ray) -> Slabs>(
        self,
        crossings: &F,
        ray: Ray,
        tmin: Scalar,
        tmax: Scalar,
        infos: Option<HitInfos<H::Material>>,
    ) -> bool
        decreases self, 1int,
    {
        exists|passed: bool| #[trigger]
            entered(crossings, self.aabb(), ray, tmin, tmax, passed) && if passed {
                self.searched_inside(crossings, ray, tmin, tmax, infos)
            } else {
                infos.is_none()
            }
    }

    /// `infos` is an outcome of the search of what lies inside the box of
    /// the node: nothing for the empty node, what its shape answers for a
    /// leaf, and the nearer of the outcomes of its two subtrees for a pair.
    pub open spec fn searched_inside<F: Fn(AABB, Ray) -> Slabs>(
        self,
        crossings: &F,
        ray: Ray,
        tmin: Scalar,
        tmax: Scalar,
        infos: Option<HitInfos<H::Material>>,
    ) -> bool
        decreases self, 0int,
    {
        match self {
            BVHNode::Empty => infos.is_none(),
            BVHNode::Leaf(shape, _) => answers(shape, ray, tmin, tmax, infos),
            BVHNode::Pair(left, right, _) => exists|
                l: Option<HitInfos<H::Material>>,
                r: Option<HitInfos<H::Material>>,
            |
                {
                    &&& left.searched(crossings, ray, tmin, tmax, l)
                    &&& right.searched(crossings, ray, tmin, tmax, r)
                    &&& infos == #[trigger] nearer_of(l, r)
                },
        }
    }

    /// The box around what lies under the node.
    pub fn bounds(&self) -> (aabb: Option<AABB>)
        ensures
            aabb == self.aabb(),
    {
        match self {
            BVHNode::Empty => None,
            BVHNode::Leaf(_, aabb) => *aabb,
            BVHNode::Pair(_, _, aabb) => *aabb,
        }
    }

    /// Searches the node for the nearest hit of the ray in the window.
    pub fn hit_node<F: Fn(AABB, Ray) -> Slabs>(
        &self,
        ray: Ray,
        tmin: Scalar,
        tmax: Scalar,
        crossings: &F,
    ) -> (infos: Option<HitInfos<H::Material>>)
        requires
            forall|aabb: AABB, ray: Ray| #[trigger] crossings.requires((aabb, ray)),
        ensures
            self.searched(crossings, ray, tmin, tmax, infos),
            self is Empty ==> infos.is_none(),
        decreases self,
    {
        let mut passed = true;
        if let Some(aabb) = self.bounds() {
            passed = aabb.hit(ray, tmin, tmax, crossings);
        }
        assert(entered(crossings, self.aabb(), ray, tmin, tmax, passed));
        if !passed {
            return None;
        }
        match self {
            BVHNode::Empty => None,
            BVHNode::Leaf(shape, _) => shape.hit(ray, tmin, tmax),
            BVHNode::Pair(left, right, _) => {
                let left_infos = left.hit_node(ray, tmin, tmax, crossings);
                let right_infos = right.hit_node(ray, tmin, tmax, crossings);
                let infos = nearer(left_infos, right_infos);
                assert(self.searched_inside(crossings, ray, tmin, tmax, infos));
                infos
            },
        }
    }
}

/// The shapes and the entries of a node go together.
pub proof fn lemma_node_entries<H: Hitable>(node: BVHNode<H>)
    ensures
        node.shapes() == shapes_of(node.entries()),
    decreases node,
{
    match node {
        BVHNode::Empty => {
            assert(node.shapes() =~= shapes_of(node.entries()));
        },
        BVHNode::Leaf(shape, aabb) => {
            assert(node.shapes() =~= shapes_of(node.entries()));
        },
        BVHNode::Pair(left, right, _) => {
            lemma_node_entries(*left);
            lemma_node_entries(*right);
            assert(node.shapes() =~= shapes_of(node.entries()));
        },
    }
}

/// Builds the node over the given entries: the empty node for none, a leaf
/// for one, and for more a pair over the two halves of the entries as
/// sorted along an axis drawn at random.
fn build<H: Hitable>(entries: Vec<Entry<H>>) -> (node: BVHNode<H>)
    requires
        all_given(entries@),
    ensures
        node.wf(),
        node.halved(),
        node.separated(),
        node.entries().to_multiset() == entries@.to_multiset(),
        node.shapes().to_multiset() == shapes_of(entries@).to_multiset(),
        entries@.len() == 0 ==> node is Empty,
        entries@.len() == 1 ==> node == BVHNode::Leaf(entries@[0].shape, entries@[0].aabb),
        entries@.len() >= 2 ==> node is Pair,
    decreases entries@.len(),
{
    let ghost given = entries@;
    let mut entries = entries;
    let count: usize = entries.len();
    if count == 0 {
        assert(given =~= Seq::empty());
        assert(shapes_of(given) =~= Seq::empty());
        return BVHNode::Empty;
    }
    if count == 1 {
        let entry = entries.pop().unwrap();
        assert(given =~= seq![entry]);
        assert(shapes_of(given) =~= seq![entry.shape]);
        return BVHNode::Leaf(entry.shape, entry.aabb);
    }
    let axis = random_axis();
    let mut entries = sort_on_axis(entries, axis);
    let ghost sorted = entries@;
    let middle: usize = count / 2;
    let right_entries = entries.split_off(middle);
    let ghost left_half = entries@;
    let ghost right_half = right_entries@;
    proof {
        lemma_same_members(sorted, given);
        assert(sorted =~= left_half + right_half);
        assert forall|i: int| 0 <= i < sorted.len() implies gives_box(
            (#[trigger] sorted[i]).shape,
            sorted[i].aabb,
        ) by {
            assert(sorted.contains(sorted[i]));
            assert(given.contains(sorted[i]));
        }
        assert forall|i: int| 0 <= i < left_half.len() implies gives_box(
            (#[trigger] left_half[i]).shape,
            left_half[i].aabb,
        ) by {
            assert(left_half[i] == sorted[i]);
        }
        assert forall|i: int| 0 <= i < right_half.len() implies gives_box(
            (#[trigger] right_half[i]).shape,
            right_half[i].aabb,
        ) by {
            assert(right_half[i] == sorted[middle + i]);
        }
    }
    let left = build(entries);
    let right = build(right_entries);
    let aabb = AABB::surrounding_opt(left.bounds(), right.bounds());
    let ghost node = BVHNode::Pair(Box::new(left), Box::new(right), aabb);
    proof {
        lemma_multiset_commutative(left_half, right_half);
        lemma_multiset_commutative(left.entries(), right.entries());
        lemma_multiset_commutative(shapes_of(left_half), shapes_of(right_half));
        lemma_multiset_commutative(left.shapes(), right.shapes());
        assert(shapes_of(sorted) =~= shapes_of(left_half) + shapes_of(right_half));
        lemma_same_members(left.entries(), left_half);
        lemma_same_members(right.entries(), right_half);
        lemma_node_entries(left);
        lemma_node_entries(right);
        assert(left.shapes().len() == left.entries().len());
        assert(right.shapes().len() == right.entries().len());
        if all_keyed(node.entries()) {
            assert forall|i: int| 0 <= i < given.len() implies keyed(#[trigger] given[i].aabb) by {
                assert(given.contains(given[i]));
                assert(sorted.contains(given[i]));
                let k = choose|k: int| 0 <= k < sorted.len() && sorted[k] == given[i];
                if k < middle {
                    assert(left_half[k] == sorted[k]);
                    assert(left_half.contains(given[i]));
                    assert(left.entries().contains(given[i]));
                    let m = choose|m: int|
                        0 <= m < left.entries().len() && left.entries()[m] == given[i];
                    assert(node.entries()[m] == given[i]);
                } else {
                    assert(right_half[k - middle] == sorted[k]);
                    assert(right_half.contains(given[i]));
                    assert(right.entries().contains(given[i]));
                    let m = choose|m: int|
                        0 <= m < right.entries().len() && right.entries()[m] == given[i];
                    assert(node.entries()[left.entries().len() + m] == given[i]);
                }
            }
            assert(sorted_on(sorted, axis));
            assert forall|i: int, j: int|
                0 <= i < left.entries().len() && 0 <= j < right.entries().len()
                    implies !stands_after(
                #[trigger] left.entries()[i].aabb,
                #[trigger] right.entries()[j].aabb,
                axis,
            ) by {
                assert(left.entries().contains(left.entries()[i]));
                assert(left_half.contains(left.entries()[i]));
                let a = choose|a: int| 0 <= a < left_half.len() && left_half[a] == left.entries()[i];
                assert(right.entries().contains(right.entries()[j]));
                assert(right_half.contains(right.entries()[j]));
                let b = choose|b: int|
                    0 <= b < right_half.len() && right_half[b] == right.entries()[j];
                assert(sorted[a] == left_half[a]);
                assert(sorted[middle + b] == right_half[b]);
            }
            assert(split_on(left.entries(), right.entries(), axis));
        }
    }
    BVHNode::Pair(Box::new(left), Box::new(right), aabb)
}

/// A bounding volume hierarchy over shapes of one type, with the function
/// that computes where a ray crosses the planes of a box.
pub struct BVH<H: Hitable, F: Fn(AABB, Ray) -> Slabs> {
    node: BVHNode<H>,
    crossings: F,
}

impl<H: Hitable, F: Fn(AABB, Ray) -> Slabs> BVH<H, F> {
    #[verifier::type_invariant]
    closed spec fn inv(self) -> bool {
        forall|aabb: AABB, ray: Ray| #[trigger] self.crossings.requires((aabb, ray))
    }

    /// The root of the hierarchy.
    pub closed spec fn node(&self) -> BVHNode<H> {
        self.node
    }

    /// The function that computes where a ray crosses the planes of a box.
    pub closed spec fn crossings(&self) -> F {
        self.crossings
    }

    /// Builds the hierarchy over the given shapes. Each shape is asked for
    /// its box once. No shape is lost or added; the tree is empty for no
    /// shape, a leaf for one, and split by count and along an axis from
    /// there on.
    pub fn new(children: Vec<H>, crossings: F) -> (bvh: BVH<H, F>)
        requires
            forall|aabb: AABB, ray: Ray| #[trigger] crossings.requires((aabb, ray)),
        ensures
            bvh.crossings() == crossings,
            bvh.node().wf(),
            bvh.node().halved(),
            bvh.node().separated(),
            bvh.node().shapes().to_multiset() == children@.to_multiset(),
            children@.len() == 0 ==> bvh.node() is Empty,
            children@.len() == 1 ==> bvh.node() is Leaf,
            children@.len() >= 2 ==> bvh.node() is Pair,
    {
        let mut children = children;
        let ghost given = children@;
        let mut reversed: Vec<H> = Vec::new();
        while children.len() > 0
            invariant
                reversed@.len() + children@.len() == given.len(),
                children@ == given.take(children@.len() as int),
                forall|i: int|
                    0 <= i < reversed@.len() ==> reversed@[i] == given[given.len() - 1 - i],
            decreases children@.len(),
        {
            let ghost before = children@;
            let shape = children.pop().unwrap();
            reversed.push(shape);
            assert(children@ =~= given.take(children@.len() as int));
        }
        let mut entries: Vec<Entry<H>> = Vec::new();
        while reversed.len() > 0
            invariant
                entries@.len() + reversed@.len() == given.len(),
                forall|i: int|
                    0 <= i < reversed@.len() ==> reversed@[i] == given[given.len() - 1 - i],
                shapes_of(entries@) == given.take(entries@.len() as int),
                all_given(entries@),
            decreases reversed@.len(),
        {
            let ghost before = entries@;
            let shape = reversed.pop().unwrap();
            let aabb = shape.bounding_box();
            entries.push(Entry { shape, aabb });
            assert(shapes_of(entries@) =~= given.take(entries@.len() as int));
        }
        assert(shapes_of(entries@) =~= given);
        let node = build(entries);
        BVH { node, crossings }
    }
}

impl<H: Hitable, F: Fn(AABB, Ray) -> Slabs> Hitable for BVH<H, F> {
    type Material = H::Material;

    /// Searches the hierarchy for the nearest hit of the ray in the window.
    fn hit(&self, ray: Ray, tmin: Scalar, tmax: Scalar) -> (infos: Option<HitInfos<H::Material>>)
        ensures
            self.node().searched(&self.crossings(), ray, tmin, tmax, infos),
            self.node() is Empty ==> infos.is_none(),
    {
        proof {
            use_type_invariant(self);
        }
        self.node.hit_node(ray, tmin, tmax, &self.crossings)
    }

    /// The box around all the shapes: none for the empty hierarchy, and
    /// none where a shape has none.
    fn bounding_box(&self) -> (aabb: Option<AABB>)
        ensures
            aabb == self.node().aabb(),
    {
        self.node.bounds()
    }
}

} // verus!
