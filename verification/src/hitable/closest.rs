//! The closest hit among a collection of shapes, and the proof that the
//! scan of a list and the search of a hierarchy both find it.

use vstd::prelude::*;
use crate::math::Scalar;
use crate::ray::Ray;
use crate::hitable::aabb::{
    box_tested,
    lemma_encloses_transitive,
    lemma_union_tight,
    slabs_overlap,
    Slabs,
    Window,
    AABB,
};
use crate::hitable::bvh::{entered, lemma_node_entries, lemma_same_members, BVHNode, Entry};
use crate::hitable::{
    answers,
    end_after,
    nearer_of,
    same_time,
    scan_step,
    scanned,
    time_of,
    HitInfos,
    Hitable,
};

verus! {

/// What an answer in a window that ends at `end` says of an answer in the
/// whole window, for a shape that reports its closest hit: a hit lies in the
/// window asked for, and is a hit in the whole window with the same
/// parameter; and where there is no hit, there is none in the whole window
/// either, or that one lies beyond `end`.
pub open spec fn agrees<M>(
    sub: Option<HitInfos<M>>,
    whole: Option<HitInfos<M>>,
    tmin: Scalar,
    end: Scalar,
) -> bool {
    match sub {
        Some(h) => h.within(tmin, end) && same_time(Some(h.t), time_of(whole)),
        None => match whole {
            Some(g) => !g.t.le_spec(end),
            None => true,
        },
    }
}

/// The shape reports its closest hit, as the interface asks: it answers in
/// the whole window, and what it answers in the whole window or in a window
/// that ends earlier agrees with all that it answers in the whole window.
pub open spec fn faithful<H: Hitable>(shape: H, ray: Ray, tmin: Scalar, tmax: Scalar) -> bool {
    &&& exists|whole: Option<HitInfos<H::Material>>| #[trigger]
        answers(shape, ray, tmin, tmax, whole)
    &&& forall|end: Scalar, sub: Option<HitInfos<H::Material>>, whole: Option<HitInfos<H::Material>>|
        (end == tmax || (tmin.le_spec(end) && end.le_spec(tmax))) && #[trigger] answers(
            shape,
            ray,
            tmin,
            end,
            sub,
        ) && #[trigger] answers(shape, ray, tmin, tmax, whole) ==> agrees(sub, whole, tmin, end)
}

/// Every shape of the run reports its closest hit.
pub open spec fn all_faithful<H: Hitable>(shapes: Seq<H>, ray: Ray, tmin: Scalar, tmax: Scalar) -> bool {
    forall|i: int| 0 <= i < shapes.len() ==> faithful(#[trigger] shapes[i], ray, tmin, tmax)
}

/// The parameter at which a shape is hit in the window, if it is: that of
/// an answer of the shape in the window.
pub open spec fn time_in<H: Hitable>(shape: H, ray: Ray, tmin: Scalar, tmax: Scalar) -> Option<
    Scalar,
> {
    time_of(
        choose|whole: Option<HitInfos<H::Material>>| answers(shape, ray, tmin, tmax, whole),
    )
}

/// What a shape that reports its closest hit answers, in the whole window
/// or in one that ends earlier, agrees with the parameter at which it is hit
/// in the whole window; and that parameter lies in the window.
pub proof fn lemma_time_in<H: Hitable>(
    shape: H,
    ray: Ray,
    tmin: Scalar,
    tmax: Scalar,
    end: Scalar,
    sub: Option<HitInfos<H::Material>>,
)
    requires
        faithful(shape, ray, tmin, tmax),
        end == tmax || (tmin.le_spec(end) && end.le_spec(tmax)),
        answers(shape, ray, tmin, end, sub),
    ensures
        match sub {
            Some(h) => h.within(tmin, end) && same_time(
                Some(h.t),
                time_in(shape, ray, tmin, tmax),
            ),
            None => match time_in(shape, ray, tmin, tmax) {
                Some(t) => !t.le_spec(end),
                None => true,
            },
        },
        match time_in(shape, ray, tmin, tmax) {
            Some(t) => tmin.le_spec(t) && t.le_spec(tmax),
            None => true,
        },
{
    let whole = choose|whole: Option<HitInfos<H::Material>>|
        answers(shape, ray, tmin, tmax, whole);
    assert(answers(shape, ray, tmin, tmax, whole));
    assert(agrees(sub, whole, tmin, end));
    assert(agrees(whole, whole, tmin, tmax));
}

/// The closest hit among shapes that report their closest hits lies in the
/// window.
pub proof fn lemma_closest_in_window<H: Hitable>(
    shapes: Seq<H>,
    ray: Ray,
    tmin: Scalar,
    tmax: Scalar,
    time: Scalar,
)
    requires
        all_faithful(shapes, ray, tmin, tmax),
        is_closest(shapes, ray, tmin, tmax, Some(time)),
    ensures
        tmin.le_spec(time) && time.le_spec(tmax),
{
    let i = choose|i: int|
        0 <= i < shapes.len() && same_time(
            #[trigger] time_in(shapes[i], ray, tmin, tmax),
            Some(time),
        );
    assert(faithful(shapes[i], ray, tmin, tmax));
    let whole = choose|whole: Option<HitInfos<H::Material>>|
        answers(shapes[i], ray, tmin, tmax, whole);
    lemma_time_in(shapes[i], ray, tmin, tmax, tmax, whole);
}

/// Every box that is there has its lower corner at or below its upper
/// corner.
pub open spec fn all_boxes_wf<H>(entries: Seq<Entry<H>>) -> bool {
    forall|i: int|
        0 <= i < entries.len() ==> match (#[trigger] entries[i]).aabb {
            Some(aabb) => aabb.wf(),
            None => true,
        }
}

/// The ray passes every slab test of the box in the window.
pub open spec fn passes<F: Fn(AABB, Ray) -> Slabs>(
    crossings: &F,
    around: AABB,
    ray: Ray,
    tmin: Scalar,
    tmax: Scalar,
) -> bool {
    !box_tested(crossings, around, ray, tmin, tmax, false)
}

/// The box test is sound for the entries: where a shape is hit in the
/// window, the ray passes the slab test of every box that encloses the
/// shape's box.
pub open spec fn boxes_sound<H: Hitable, F: Fn(AABB, Ray) -> Slabs>(
    entries: Seq<Entry<H>>,
    crossings: &F,
    ray: Ray,
    tmin: Scalar,
    tmax: Scalar,
) -> bool {
    forall|i: int, around: AABB|
        0 <= i < entries.len() && (#[trigger] entries[i]).aabb.is_some() && around.encloses(
            entries[i].aabb.unwrap(),
        ) && time_in(entries[i].shape, ray, tmin, tmax).is_some() ==> #[trigger] passes(
            crossings,
            around,
            ray,
            tmin,
            tmax,
        )
}

/// `time` is the parameter of the closest hit among the shapes: none where
/// no shape is hit in the window, and else the parameter of a hit that no
/// other hit comes before.
pub open spec fn is_closest<H: Hitable>(
    shapes: Seq<H>,
    ray: Ray,
    tmin: Scalar,
    tmax: Scalar,
    time: Option<Scalar>,
) -> bool {
    match time {
        None => forall|i: int|
            0 <= i < shapes.len() ==> (#[trigger] time_in(shapes[i], ray, tmin, tmax)).is_none(),
        Some(t) => {
            &&& exists|i: int|
                0 <= i < shapes.len() && same_time(
                    #[trigger] time_in(shapes[i], ray, tmin, tmax),
                    Some(t),
                )
            &&& forall|i: int|
                0 <= i < shapes.len() ==> match #[trigger] time_in(shapes[i], ray, tmin, tmax) {
                    Some(other) => t.le_spec(other),
                    None => true,
                }
        },
    }
}

/// There is at most one closest hit, as far as its parameter goes.
pub proof fn lemma_closest_unique<H: Hitable>(
    shapes: Seq<H>,
    ray: Ray,
    tmin: Scalar,
    tmax: Scalar,
    a: Option<Scalar>,
    b: Option<Scalar>,
)
    requires
        is_closest(shapes, ray, tmin, tmax, a),
        is_closest(shapes, ray, tmin, tmax, b),
    ensures
        same_time(a, b),
{
    match (a, b) {
        (Some(ta), Some(tb)) => {
            let i = choose|i: int|
                0 <= i < shapes.len() && same_time(
                    #[trigger] time_in(shapes[i], ray, tmin, tmax),
                    Some(ta),
                );
            let j = choose|j: int|
                0 <= j < shapes.len() && same_time(
                    #[trigger] time_in(shapes[j], ray, tmin, tmax),
                    Some(tb),
                );
            assert(time_in(shapes[i], ray, tmin, tmax).is_some());
            assert(time_in(shapes[j], ray, tmin, tmax).is_some());
        },
        (Some(ta), None) => {
            let i = choose|i: int|
                0 <= i < shapes.len() && same_time(
                    #[trigger] time_in(shapes[i], ray, tmin, tmax),
                    Some(ta),
                );
            assert(time_in(shapes[i], ray, tmin, tmax).is_none());
        },
        (None, Some(tb)) => {
            let j = choose|j: int|
                0 <= j < shapes.len() && same_time(
                    #[trigger] time_in(shapes[j], ray, tmin, tmax),
                    Some(tb),
                );
            assert(time_in(shapes[j], ray, tmin, tmax).is_none());
        },
        (None, None) => {},
    }
}

/// What is closest among the shapes of one run is closest among the shapes
/// of every run with the same members.
pub proof fn lemma_closest_of_same_members<H: Hitable>(
    a: Seq<H>,
    b: Seq<H>,
    ray: Ray,
    tmin: Scalar,
    tmax: Scalar,
    time: Option<Scalar>,
)
    requires
        forall|x: H| a.contains(x) <==> b.contains(x),
        is_closest(a, ray, tmin, tmax, time),
    ensures
        is_closest(b, ray, tmin, tmax, time),
{
    assert forall|j: int| 0 <= j < b.len() implies exists|i: int|
        0 <= i < a.len() && a[i] == #[trigger] b[j] by {
        assert(b.contains(b[j]));
        assert(a.contains(b[j]));
    }
    match time {
        None => {
            assert forall|j: int| 0 <= j < b.len() implies (#[trigger] time_in(
                b[j],
                ray,
                tmin,
                tmax,
            )).is_none() by {
                let i = choose|i: int| 0 <= i < a.len() && a[i] == b[j];
                assert(time_in(a[i], ray, tmin, tmax).is_none());
            }
        },
        Some(t) => {
            let i = choose|i: int|
                0 <= i < a.len() && same_time(#[trigger] time_in(a[i], ray, tmin, tmax), Some(t));
            assert(a.contains(a[i]));
            assert(b.contains(a[i]));
            let j = choose|j: int| 0 <= j < b.len() && b[j] == a[i];
            assert(same_time(time_in(b[j], ray, tmin, tmax), Some(t)));
            assert forall|j: int| 0 <= j < b.len() implies match #[trigger] time_in(
                b[j],
                ray,
                tmin,
                tmax,
            ) {
                Some(other) => t.le_spec(other),
                None => true,
            } by {
                let i = choose|i: int| 0 <= i < a.len() && a[i] == b[j];
                assert(time_in(a[i], ray, tmin, tmax) == time_in(b[j], ray, tmin, tmax));
            }
        },
    }
}

/// What is closest among the shapes of a run, and what one more shape
/// answers in the window that ends there, give what is closest among them
/// all.
proof fn lemma_closest_with<H: Hitable>(
    shapes: Seq<H>,
    ray: Ray,
    tmin: Scalar,
    tmax: Scalar,
    before: Option<HitInfos<H::Material>>,
    found: Option<HitInfos<H::Material>>,
)
    requires
        shapes.len() > 0,
        faithful(shapes.last(), ray, tmin, tmax),
        is_closest(shapes.drop_last(), ray, tmin, tmax, time_of(before)),
        match before {
            Some(b) => tmin.le_spec(b.t) && b.t.le_spec(tmax),
            None => true,
        },
        answers(shapes.last(), ray, tmin, end_after(before, tmax), found),
    ensures
        is_closest(
            shapes,
            ray,
            tmin,
            tmax,
            time_of(
                match found {
                    Some(h) => Some(h),
                    None => before,
                },
            ),
        ),
        match found {
            Some(h) => tmin.le_spec(h.t) && h.t.le_spec(tmax),
            None => true,
        },
{
    let rest = shapes.drop_last();
    let last = shapes.last();
    let end = end_after(before, tmax);
    let n = shapes.len() - 1;
    lemma_time_in(last, ray, tmin, tmax, end, found);
    assert(shapes[n] == last);
    assert forall|i: int| 0 <= i < rest.len() implies time_in(rest[i], ray, tmin, tmax) == time_in(
        #[trigger] shapes[i],
        ray,
        tmin,
        tmax,
    ) by {
        assert(rest[i] == shapes[i]);
    }
    match found {
        Some(h) => {
            assert(same_time(time_in(shapes[n], ray, tmin, tmax), Some(h.t)));
            assert forall|i: int| 0 <= i < shapes.len() implies match #[trigger] time_in(
                shapes[i],
                ray,
                tmin,
                tmax,
            ) {
                Some(other) => h.t.le_spec(other),
                None => true,
            } by {
                if i < rest.len() {
                    assert(time_in(rest[i], ray, tmin, tmax) == time_in(shapes[i], ray, tmin, tmax));
                    match before {
                        Some(b) => {},
                        None => {
                            assert(time_in(rest[i], ray, tmin, tmax).is_none());
                        },
                    }
                }
            }
        },
        None => {
            match before {
                Some(b) => {
                    let k = choose|k: int|
                        0 <= k < rest.len() && same_time(
                            #[trigger] time_in(rest[k], ray, tmin, tmax),
                            Some(b.t),
                        );
                    assert(same_time(time_in(shapes[k], ray, tmin, tmax), Some(b.t)));
                    assert forall|i: int| 0 <= i < shapes.len() implies match #[trigger] time_in(
                        shapes[i],
                        ray,
                        tmin,
                        tmax,
                    ) {
                        Some(other) => b.t.le_spec(other),
                        None => true,
                    } by {
                        if i < rest.len() {
                            assert(time_in(rest[i], ray, tmin, tmax) == time_in(
                                shapes[i],
                                ray,
                                tmin,
                                tmax,
                            ));
                        }
                    }
                },
                None => {
                    assert forall|i: int| 0 <= i < shapes.len() implies (#[trigger] time_in(
                        shapes[i],
                        ray,
                        tmin,
                        tmax,
                    )).is_none() by {
                        if i < rest.len() {
                            assert(time_in(rest[i], ray, tmin, tmax).is_none());
                        }
                    }
                },
            }
        },
    }
}

/// Every outcome of the scan of a list of shapes that report their closest
/// hits is the closest hit among them, and lies in the window.
pub proof fn lemma_scan_finds_closest<H: Hitable>(
    shapes: Seq<H>,
    ray: Ray,
    tmin: Scalar,
    tmax: Scalar,
    infos: Option<HitInfos<H::Material>>,
)
    requires
        all_faithful(shapes, ray, tmin, tmax),
        scanned(shapes, ray, tmin, tmax, infos),
    ensures
        is_closest(shapes, ray, tmin, tmax, time_of(infos)),
        match infos {
            Some(h) => tmin.le_spec(h.t) && h.t.le_spec(tmax),
            None => true,
        },
    decreases shapes.len(),
{
    if shapes.len() > 0 {
        let rest = shapes.drop_last();
        let before = choose|before: Option<HitInfos<H::Material>>|
            scanned(rest, ray, tmin, tmax, before) && #[trigger] scan_step(
                shapes.last(),
                ray,
                tmin,
                tmax,
                before,
                infos,
            );
        let found = choose|found: Option<HitInfos<H::Material>>| #[trigger]
            answers(shapes.last(), ray, tmin, end_after(before, tmax), found) && infos
                == match found {
                Some(h) => Some(h),
                None => before,
            };
        assert forall|i: int| 0 <= i < rest.len() implies faithful(
            #[trigger] rest[i],
            ray,
            tmin,
            tmax,
        ) by {
            assert(rest[i] == shapes[i]);
        }
        lemma_scan_finds_closest(rest, ray, tmin, tmax, before);
        assert(faithful(shapes[shapes.len() - 1], ray, tmin, tmax));
        lemma_closest_with(shapes, ray, tmin, tmax, before, found);
    }
}

/// The box of a node lies around the box of every shape under it: where
/// the node has a box, so has every shape under it, and the node's box
/// encloses it.
pub proof fn lemma_node_box_encloses<H: Hitable>(node: BVHNode<H>, i: int)
    requires
        node.wf(),
        all_boxes_wf(node.entries()),
        node.aabb().is_some(),
        0 <= i < node.entries().len(),
    ensures
        node.aabb().unwrap().wf(),
        node.entries()[i].aabb.is_some(),
        node.aabb().unwrap().encloses(node.entries()[i].aabb.unwrap()),
    decreases node,
{
    match node {
        BVHNode::Empty => {},
        BVHNode::Leaf(shape, aabb) => {
            assert(node.entries()[0].aabb == aabb);
        },
        BVHNode::Pair(left, right, aabb) => {
            let l = left.entries();
            let r = right.entries();
            lemma_parts_boxes_wf(l, r);
            lemma_node_entries(*left);
            lemma_node_entries(*right);
            lemma_node_box_encloses(*left, 0);
            lemma_node_box_encloses(*right, 0);
            let lb = left.aabb().unwrap();
            let rb = right.aabb().unwrap();
            lemma_union_tight(lb, rb, lb);
            if i < l.len() {
                lemma_node_box_encloses(*left, i);
                lemma_encloses_transitive(aabb.unwrap(), lb, l[i].aabb.unwrap());
            } else {
                lemma_node_box_encloses(*right, i - l.len());
                lemma_encloses_transitive(aabb.unwrap(), rb, r[i - l.len()].aabb.unwrap());
            }
        },
    }
}

/// Where every box of a run is well formed, so is every box of its two
/// parts.
proof fn lemma_parts_boxes_wf<H>(left: Seq<Entry<H>>, right: Seq<Entry<H>>)
    requires
        all_boxes_wf(left + right),
    ensures
        all_boxes_wf(left),
        all_boxes_wf(right),
{
    let whole = left + right;
    assert forall|k: int| 0 <= k < left.len() implies match (#[trigger] left[k]).aabb {
        Some(aabb) => aabb.wf(),
        None => true,
    } by {
        assert(whole[k] == left[k]);
    }
    assert forall|k: int| 0 <= k < right.len() implies match (#[trigger] right[k]).aabb {
        Some(aabb) => aabb.wf(),
        None => true,
    } by {
        assert(whole[left.len() + k] == right[k]);
    }
}

/// Where the box test is sound for a run of entries, it is sound for its
/// two parts.
proof fn lemma_parts_boxes_sound<H: Hitable, F: Fn(AABB, Ray) -> Slabs>(
    left: Seq<Entry<H>>,
    right: Seq<Entry<H>>,
    crossings: &F,
    ray: Ray,
    tmin: Scalar,
    tmax: Scalar,
)
    requires
        boxes_sound(left + right, crossings, ray, tmin, tmax),
    ensures
        boxes_sound(left, crossings, ray, tmin, tmax),
        boxes_sound(right, crossings, ray, tmin, tmax),
{
    let whole = left + right;
    assert forall|i: int, around: AABB|
        0 <= i < left.len() && (#[trigger] left[i]).aabb.is_some() && around.encloses(
            left[i].aabb.unwrap(),
        ) && time_in(left[i].shape, ray, tmin, tmax).is_some() implies #[trigger] passes(
        crossings,
        around,
        ray,
        tmin,
        tmax,
    ) by {
        assert(whole[i] == left[i]);
    }
    assert forall|i: int, around: AABB|
        0 <= i < right.len() && (#[trigger] right[i]).aabb.is_some() && around.encloses(
            right[i].aabb.unwrap(),
        ) && time_in(right[i].shape, ray, tmin, tmax).is_some() implies #[trigger] passes(
        crossings,
        around,
        ray,
        tmin,
        tmax,
    ) by {
        assert(whole[left.len() + i] == right[i]);
    }
}

/// What is closest among the shapes of two runs gives what is closest among
/// the shapes of both: the nearer of the two.
proof fn lemma_closest_of_both<H: Hitable>(
    left: Seq<H>,
    right: Seq<H>,
    ray: Ray,
    tmin: Scalar,
    tmax: Scalar,
    l: Option<HitInfos<H::Material>>,
    r: Option<HitInfos<H::Material>>,
)
    requires
        is_closest(left, ray, tmin, tmax, time_of(l)),
        is_closest(right, ray, tmin, tmax, time_of(r)),
    ensures
        is_closest(left + right, ray, tmin, tmax, time_of(nearer_of(l, r))),
{
    let shapes = left + right;
    let both = time_of(nearer_of(l, r));
    assert forall|i: int| 0 <= i < shapes.len() implies time_in(
        #[trigger] shapes[i],
        ray,
        tmin,
        tmax,
    ) == if i < left.len() {
        time_in(left[i], ray, tmin, tmax)
    } else {
        time_in(right[i - left.len()], ray, tmin, tmax)
    } by {
        if i < left.len() {
            assert(shapes[i] == left[i]);
        } else {
            assert(shapes[i] == right[i - left.len()]);
        }
    }
    if l.is_some() {
        let i = choose|i: int|
            0 <= i < left.len() && same_time(
                #[trigger] time_in(left[i], ray, tmin, tmax),
                time_of(l),
            );
        assert(same_time(time_in(shapes[i], ray, tmin, tmax), time_of(l)));
    }
    if r.is_some() {
        let j = choose|j: int|
            0 <= j < right.len() && same_time(
                #[trigger] time_in(right[j], ray, tmin, tmax),
                time_of(r),
            );
        assert(same_time(time_in(shapes[left.len() + j], ray, tmin, tmax), time_of(r)));
    }
    match both {
        Some(t) => {
            assert forall|i: int| 0 <= i < shapes.len() implies match #[trigger] time_in(
                shapes[i],
                ray,
                tmin,
                tmax,
            ) {
                Some(other) => t.le_spec(other),
                None => true,
            } by {
                if i < left.len() {
                    assert(time_in(left[i], ray, tmin, tmax) == time_in(shapes[i], ray, tmin, tmax));
                } else {
                    assert(time_in(right[i - left.len()], ray, tmin, tmax) == time_in(
                        shapes[i],
                        ray,
                        tmin,
                        tmax,
                    ));
                }
            }
        },
        None => {
            assert forall|i: int| 0 <= i < shapes.len() implies (#[trigger] time_in(
                shapes[i],
                ray,
                tmin,
                tmax,
            )).is_none() by {
                if i < left.len() {
                    assert(time_in(left[i], ray, tmin, tmax).is_none());
                } else {
                    assert(time_in(right[i - left.len()], ray, tmin, tmax).is_none());
                }
            }
        },
    }
}

/// Every outcome of the search of a hierarchy over shapes that report their
/// closest hits is the closest hit among them, and lies in the window,
/// where the box test is sound.
pub proof fn lemma_search_finds_closest<H: Hitable, F: Fn(AABB, Ray) -> Slabs>(
    node: BVHNode<H>,
    crossings: &F,
    ray: Ray,
    tmin: Scalar,
    tmax: Scalar,
    infos: Option<HitInfos<H::Material>>,
)
    requires
        node.wf(),
        all_boxes_wf(node.entries()),
        all_faithful(node.shapes(), ray, tmin, tmax),
        boxes_sound(node.entries(), crossings, ray, tmin, tmax),
        node.searched(crossings, ray, tmin, tmax, infos),
    ensures
        is_closest(node.shapes(), ray, tmin, tmax, time_of(infos)),
        match infos {
            Some(h) => tmin.le_spec(h.t) && h.t.le_spec(tmax),
            None => true,
        },
    decreases node,
{
    lemma_search_finds(node, crossings, ray, tmin, tmax, infos);
    match infos {
        Some(h) => {
            lemma_closest_in_window(node.shapes(), ray, tmin, tmax, h.t);
        },
        None => {},
    }
}

/// Every outcome of the search of a hierarchy is the closest hit among its
/// shapes.
proof fn lemma_search_finds<H: Hitable, F: Fn(AABB, Ray) -> Slabs>(
    node: BVHNode<H>,
    crossings: &F,
    ray: Ray,
    tmin: Scalar,
    tmax: Scalar,
    infos: Option<HitInfos<H::Material>>,
)
    requires
        node.wf(),
        all_boxes_wf(node.entries()),
        all_faithful(node.shapes(), ray, tmin, tmax),
        boxes_sound(node.entries(), crossings, ray, tmin, tmax),
        node.searched(crossings, ray, tmin, tmax, infos),
    ensures
        is_closest(node.shapes(), ray, tmin, tmax, time_of(infos)),
    decreases node,
{
    let shapes = node.shapes();
    let entries = node.entries();
    lemma_node_entries(node);
    let passed = choose|passed: bool| #[trigger]
        entered(crossings, node.aabb(), ray, tmin, tmax, passed) && if passed {
            node.searched_inside(crossings, ray, tmin, tmax, infos)
        } else {
            infos.is_none()
        };
    if !passed {
        let around = node.aabb().unwrap();
        assert(box_tested(crossings, around, ray, tmin, tmax, false));
        assert forall|i: int| 0 <= i < shapes.len() implies (#[trigger] time_in(
            shapes[i],
            ray,
            tmin,
            tmax,
        )).is_none() by {
            lemma_node_box_encloses(node, i);
            assert(entries[i].shape == shapes[i]);
            if time_in(entries[i].shape, ray, tmin, tmax).is_some() {
                assert(passes(crossings, around, ray, tmin, tmax));
            }
        }
    } else {
        match node {
            BVHNode::Empty => {},
            BVHNode::Leaf(shape, _) => {
                assert(shapes[0] == shape);
                assert(faithful(shapes[0], ray, tmin, tmax));
                lemma_time_in(shape, ray, tmin, tmax, tmax, infos);
                match infos {
                    Some(h) => {
                        assert(same_time(time_in(shapes[0], ray, tmin, tmax), Some(h.t)));
                    },
                    None => {},
                }
            },
            BVHNode::Pair(left, right, _) => {
                let ls = left.shapes();
                let rs = right.shapes();
                assert forall|i: int| 0 <= i < ls.len() implies faithful(
                    #[trigger] ls[i],
                    ray,
                    tmin,
                    tmax,
                ) by {
                    assert(shapes[i] == ls[i]);
                }
                assert forall|i: int| 0 <= i < rs.len() implies faithful(
                    #[trigger] rs[i],
                    ray,
                    tmin,
                    tmax,
                ) by {
                    assert(shapes[ls.len() + i] == rs[i]);
                }
                lemma_parts_boxes_wf(left.entries(), right.entries());
                lemma_parts_boxes_sound(left.entries(), right.entries(), crossings, ray, tmin, tmax);
                let (l, r) = choose|
                    l: Option<HitInfos<H::Material>>,
                    r: Option<HitInfos<H::Material>>,
                |
                    {
                        &&& left.searched(crossings, ray, tmin, tmax, l)
                        &&& right.searched(crossings, ray, tmin, tmax, r)
                        &&& infos == #[trigger] nearer_of(l, r)
                    };
                lemma_search_finds(*left, crossings, ray, tmin, tmax, l);
                lemma_search_finds(*right, crossings, ray, tmin, tmax, r);
                lemma_closest_of_both(ls, rs, ray, tmin, tmax, l, r);
            },
        }
    }
}

/// The search of a hierarchy and the scan of a list agree wherever they
/// hold the same shapes, whatever the shape of the tree: both find no hit,
/// or both find a hit and the two hits have the same parameter.
///
/// This holds for shapes that report their closest hit in the window, with
/// boxes whose lower corner is at or below the upper corner, and a box test
/// that passes whenever a shape inside the box is hit.
pub proof fn lemma_search_agrees_with_scan<H: Hitable, F: Fn(AABB, Ray) -> Slabs>(
    node: BVHNode<H>,
    shapes: Seq<H>,
    crossings: &F,
    ray: Ray,
    tmin: Scalar,
    tmax: Scalar,
    from_search: Option<HitInfos<H::Material>>,
    from_scan: Option<HitInfos<H::Material>>,
)
    requires
        node.wf(),
        node.shapes().to_multiset() == shapes.to_multiset(),
        all_boxes_wf(node.entries()),
        all_faithful(shapes, ray, tmin, tmax),
        boxes_sound(node.entries(), crossings, ray, tmin, tmax),
        node.searched(crossings, ray, tmin, tmax, from_search),
        scanned(shapes, ray, tmin, tmax, from_scan),
    ensures
        same_time(time_of(from_search), time_of(from_scan)),
{
    let under = node.shapes();
    lemma_same_members(under, shapes);
    assert forall|i: int| 0 <= i < under.len() implies faithful(
        #[trigger] under[i],
        ray,
        tmin,
        tmax,
    ) by {
        assert(under.contains(under[i]));
        assert(shapes.contains(under[i]));
        let k = choose|k: int| 0 <= k < shapes.len() && shapes[k] == under[i];
        assert(faithful(shapes[k], ray, tmin, tmax));
    }
    lemma_search_finds_closest(node, crossings, ray, tmin, tmax, from_search);
    lemma_scan_finds_closest(shapes, ray, tmin, tmax, from_scan);
    lemma_closest_of_same_members(under, shapes, ray, tmin, tmax, time_of(from_search));
    lemma_closest_unique(shapes, ray, tmin, tmax, time_of(from_search), time_of(from_scan));
}

} // verus!
