//! Bounding boxes and the hierarchy built over them.

pub mod morton_code;

use crate::bounding_boxes::morton_code::{find_split, morton_code};
use crate::fast_random::SplitMix64;
use crate::hittable::hittable_list::HittableList;
use crate::hittable::{Hit, HitRecord, Hittable};
use crate::ray::Ray;
use crate::scalar::Scalar;
use crate::vec3::{Point3, Vec3};
use vstd::prelude::*;
use vstd::seq_lib::{to_multiset_contains, to_multiset_insert, to_multiset_len, to_multiset_remove};

verus! {

/// An axis-aligned box, by its two extreme corners.
#[derive(Clone, Copy, Debug)]
pub struct BoundingBox {
    pub minimum: Point3,
    pub maximum: Point3,
}

/// The times at which a ray crosses the six planes of a box.
#[derive(Clone, Copy, Debug)]
pub struct SlabTimes {
    /// The reciprocal of the ray's direction.
    pub inverse_direction: Vec3,
    /// On each axis, the time at which the ray is in the plane through the
    /// box's minimum.
    pub at_minimum: Vec3,
    /// On each axis, the time at which the ray is in the plane through the
    /// box's maximum.
    pub at_maximum: Vec3,
}

impl SlabTimes {
    /// On one axis: whether the ray is inside the slab at some time strictly
    /// between the bounds. The ray enters through the minimum plane unless it
    /// runs down the axis; the entry is not before `t_min`, the exit not after
    /// `t_max`, and the exit must come strictly after the entry.
    pub open spec fn axis_open(
        inverse: Scalar,
        at_minimum: Scalar,
        at_maximum: Scalar,
        t_min: Scalar,
        t_max: Scalar,
    ) -> bool {
        let down = inverse.spec_lt(Scalar { bits: 0 });
        let entry = if down {
            at_maximum
        } else {
            at_minimum
        };
        let exit = if down {
            at_minimum
        } else {
            at_maximum
        };
        entry.spec_max(t_min).spec_lt(exit.spec_min(t_max))
    }

    /// Whether the ray is inside all three slabs, each taken by itself, at
    /// some time strictly between the bounds.
    pub open spec fn spec_overlap(self, t_min: Scalar, t_max: Scalar) -> bool {
        &&& Self::axis_open(
            self.inverse_direction.x,
            self.at_minimum.x,
            self.at_maximum.x,
            t_min,
            t_max,
        )
        &&& Self::axis_open(
            self.inverse_direction.y,
            self.at_minimum.y,
            self.at_maximum.y,
            t_min,
            t_max,
        )
        &&& Self::axis_open(
            self.inverse_direction.z,
            self.at_minimum.z,
            self.at_maximum.z,
            t_min,
            t_max,
        )
    }

    /// The rank of an entry time as a lower bound: a time that is no number
    /// bounds nothing, as the earliest of all times does.
    pub open spec fn from_rank(entry: Scalar) -> int {
        if entry.nan() {
            -(crate::scalar::INFINITY_BITS as int)
        } else {
            entry.rank()
        }
    }

    /// The rank of an exit time as an upper bound: a time that is no number
    /// bounds nothing, as the latest of all times does.
    pub open spec fn until_rank(exit: Scalar) -> int {
        if exit.nan() {
            crate::scalar::INFINITY_BITS as int
        } else {
            exit.rank()
        }
    }

    /// On one axis: whether the second slab is entered no later and left no
    /// earlier than the first, by a ray that runs the same way through both.
    pub open spec fn axis_widened(
        inverse: Scalar,
        at_minimum: Scalar,
        at_maximum: Scalar,
        wide_inverse: Scalar,
        wide_at_minimum: Scalar,
        wide_at_maximum: Scalar,
    ) -> bool {
        let zero = Scalar { bits: 0 };
        let down = inverse.spec_lt(zero);
        &&& down == wide_inverse.spec_lt(zero)
        &&& if down {
            &&& Self::from_rank(wide_at_maximum) <= Self::from_rank(at_maximum)
            &&& Self::until_rank(at_minimum) <= Self::until_rank(wide_at_minimum)
        } else {
            &&& Self::from_rank(wide_at_minimum) <= Self::from_rank(at_minimum)
            &&& Self::until_rank(at_maximum) <= Self::until_rank(wide_at_maximum)
        }
    }

    /// Whether on every axis the slab of `wide` is entered no later and left
    /// no earlier than the slab of `self`.
    pub open spec fn widened_to(self, wide: SlabTimes) -> bool {
        &&& Self::axis_widened(
            self.inverse_direction.x,
            self.at_minimum.x,
            self.at_maximum.x,
            wide.inverse_direction.x,
            wide.at_minimum.x,
            wide.at_maximum.x,
        )
        &&& Self::axis_widened(
            self.inverse_direction.y,
            self.at_minimum.y,
            self.at_maximum.y,
            wide.inverse_direction.y,
            wide.at_minimum.y,
            wide.at_maximum.y,
        )
        &&& Self::axis_widened(
            self.inverse_direction.z,
            self.at_minimum.z,
            self.at_maximum.z,
            wide.inverse_direction.z,
            wide.at_minimum.z,
            wide.at_maximum.z,
        )
    }

    /// The slab test: see [`SlabTimes::spec_overlap`].
    pub fn overlap(&self, t_min: Scalar, t_max: Scalar) -> (r: bool)
        ensures
            r == self.spec_overlap(t_min, t_max),
    {
        let zero = Scalar::zero();
        let mut t0 = self.at_minimum;
        let mut t1 = self.at_maximum;
        if self.inverse_direction.x.lt(zero) {
            let kept = t0.x;
            t0.x = t1.x;
            t1.x = kept;
        }
        if self.inverse_direction.y.lt(zero) {
            let kept = t0.y;
            t0.y = t1.y;
            t1.y = kept;
        }
        if self.inverse_direction.z.lt(zero) {
            let kept = t0.z;
            t0.z = t1.z;
            t1.z = kept;
        }
        let entry = t0.max(Vec3::splat(t_min));
        let exit = t1.min(Vec3::splat(t_max));
        exit.x.gt(entry.x) && exit.y.gt(entry.y) && exit.z.gt(entry.z)
    }
}

impl BoundingBox {
    /// Whether no coordinate of the corners is a NaN.
    pub open spec fn is_number(self) -> bool {
        self.minimum.is_number() && self.maximum.is_number()
    }

    /// Whether the corners are numbers and the minimum is not above the
    /// maximum on any axis.
    pub open spec fn valid(self) -> bool {
        &&& self.is_number()
        &&& self.low(0) <= self.high(0)
        &&& self.low(1) <= self.high(1)
        &&& self.low(2) <= self.high(2)
    }

    /// Whether the box reaches at least as far as `other` on every side.
    pub open spec fn encloses(self, other: BoundingBox) -> bool {
        &&& self.low(0) <= other.low(0) && other.high(0) <= self.high(0)
        &&& self.low(1) <= other.low(1) && other.high(1) <= self.high(1)
        &&& self.low(2) <= other.low(2) && other.high(2) <= self.high(2)
    }

    /// The smallest box that holds both.
    pub open spec fn spec_join(self, other: BoundingBox) -> BoundingBox {
        BoundingBox {
            minimum: self.minimum.spec_min(other.minimum),
            maximum: self.maximum.spec_max(other.maximum),
        }
    }

    /// The rank of the box's lower end on an axis (0 for x, 1 for y, else z).
    pub open spec fn low(self, axis: int) -> int {
        if axis == 0 {
            self.minimum.x.rank()
        } else if axis == 1 {
            self.minimum.y.rank()
        } else {
            self.minimum.z.rank()
        }
    }

    /// The rank of the box's upper end on an axis (0 for x, 1 for y, else z).
    pub open spec fn high(self, axis: int) -> int {
        if axis == 0 {
            self.maximum.x.rank()
        } else if axis == 1 {
            self.maximum.y.rank()
        } else {
            self.maximum.z.rank()
        }
    }

    /// Whether on one axis the box's lower end is the least of the lower ends
    /// of `boxes`, and its upper end the greatest of their upper ends.
    pub open spec fn spans(self, boxes: Seq<BoundingBox>, axis: int) -> bool {
        &&& forall|i: int|
            0 <= i < boxes.len() ==> self.low(axis) <= (#[trigger] boxes[i]).low(axis)
        &&& forall|i: int|
            0 <= i < boxes.len() ==> self.high(axis) >= (#[trigger] boxes[i]).high(axis)
        &&& exists|i: int| 0 <= i < boxes.len() && self.low(axis) == (#[trigger] boxes[i]).low(axis)
        &&& exists|i: int|
            0 <= i < boxes.len() && self.high(axis) == (#[trigger] boxes[i]).high(axis)
    }

    /// Whether the box is the union of `boxes`: the smallest box that holds
    /// them all.
    pub open spec fn is_union_of(self, boxes: Seq<BoundingBox>) -> bool {
        self.spans(boxes, 0) && self.spans(boxes, 1) && self.spans(boxes, 2)
    }

    /// The smallest box that holds both: the union of two boxes of numbers
    /// encloses both, and the union of two valid boxes is valid.
    pub fn join(&self, other: &Self) -> (r: Self)
        ensures
            r == self.spec_join(*other),
            self.is_number() && other.is_number() ==> r.is_number() && r.encloses(*self)
                && r.encloses(*other),
            self.valid() && other.valid() ==> r.valid(),
    {
        BoundingBox {
            minimum: self.minimum.min(other.minimum),
            maximum: self.maximum.max(other.maximum),
        }
    }

    /// Whether `ray` crosses the box at a time strictly between `t_min` and
    /// `t_max`: the slab test on the crossing times that the arithmetic of `H`
    /// gives.
    pub fn hit<H: Hittable>(&self, ray: &Ray, t_min: Scalar, t_max: Scalar) -> (r: bool)
        ensures
            r == H::slab_model(*self, *ray).spec_overlap(t_min, t_max),
    {
        let slabs = H::slab_times(self, ray);
        slabs.overlap(t_min, t_max)
    }
}

/// The slab test is monotone: a ray that is inside three slabs within the
/// bounds is inside any three slabs that are entered no later and left no
/// earlier.
pub proof fn law_wider_slabs_are_crossed(
    narrow: SlabTimes,
    wide: SlabTimes,
    t_min: Scalar,
    t_max: Scalar,
)
    requires
        !t_min.nan(),
        !t_max.nan(),
        narrow.widened_to(wide),
        narrow.spec_overlap(t_min, t_max),
    ensures
        wide.spec_overlap(t_min, t_max),
{
}

/// Why no hierarchy was built.
#[derive(Clone, Copy, Debug, PartialEq, Eq)]
pub enum BuildError {
    /// The scene holds no object.
    EmptyScene,
    /// The number of centres differs from the number of objects.
    CentersMismatch,
}

/// Where a run of keyed objects is parted, and whether the boundary that
/// [`find_split`] found was given up for the midpoint.
#[derive(Clone, Copy, Debug, PartialEq, Eq)]
pub struct Split {
    pub at: usize,
    pub degenerate: bool,
}

/// Where a run of three or more keyed objects is parted: at the boundary that
/// [`find_split`] finds, unless that is the last index of the run (or the
/// first). Then the split is degenerate, and the run is parted at its
/// midpoint.
pub fn choose_split<A, B>(list: &[(A, B, u128)]) -> (split: Split)
    requires
        list@.len() >= 3,
    ensures
        parts(morton_code::codes(list@), split.at as int),
        flags(morton_code::codes(list@), split.degenerate),
        split.degenerate ==> split.at == list@.len() / 2,
{
    let n: usize = list.len();
    let middle: usize = find_split(list);
    let ghost keys = morton_code::codes(list@);
    assert(keys[0] == list@[0].2 && keys[n - 1] == list@[n - 1].2);
    if middle == 0 || middle >= n - 1 {
        Split { at: n / 2, degenerate: true }
    } else {
        proof {
            if list@[0].2 != list@[n - 1].2 && morton_code::ascending(keys) {
                assert(morton_code::common_prefix(keys[0], keys[middle as int])
                    <= morton_code::common_prefix(keys[0], keys[n - 1]));
            }
        }
        Split { at: middle, degenerate: false }
    }
}

/// What a node of the hierarchy holds below its box.
enum SubHierarchy<'a, H: Hittable> {
    Object(&'a H),
    SubHierarchies {
        left: Box<BoundingVolumeHierarchy<'a, H>>,
        right: Box<BoundingVolumeHierarchy<'a, H>>,
    },
}

/// A binary tree over the objects of a scene: a leaf is one object with its
/// box, an inner node two subtrees with the union of their boxes.
pub struct BoundingVolumeHierarchy<'a, H: Hittable> {
    bounding_box: BoundingBox,
    sub_hierarchy: SubHierarchy<'a, H>,
    /// Whether the run below this node was parted at its midpoint because its
    /// boundary was degenerate.
    degenerate: bool,
}

/// Whether `at` is where [`choose_split`] parts a run with these keys.
pub open spec fn parts(keys: Seq<u128>, at: int) -> bool {
    &&& 0 < at < keys.len() - 1
    &&& keys[0] == keys[keys.len() - 1] ==> at == keys.len() / 2
    &&& keys[0] != keys[keys.len() - 1] && morton_code::ascending(keys)
        ==> if morton_code::is_boundary(keys, keys.len() - 1) {
        at == keys.len() / 2
    } else {
        morton_code::is_boundary(keys, at)
    }
}

/// Whether `degenerate` is the flag that [`choose_split`] raises, or does not
/// raise, on a run with these keys; a run of one or two keys is not parted by
/// it and raises none.
pub open spec fn flags(keys: Seq<u128>, degenerate: bool) -> bool {
    &&& keys.len() <= 2 ==> !degenerate
    &&& keys.len() > 2 && keys[0] == keys[keys.len() - 1] ==> !degenerate
    &&& keys.len() > 2 && keys[0] != keys[keys.len() - 1] && morton_code::ascending(keys) ==> (
    degenerate <==> morton_code::is_boundary(keys, keys.len() - 1))
}

/// The objects of a scene as they go into the sort: each with its number in
/// the scene, its box, and the Morton key of its centre.
pub open spec fn keyed<H: Hittable>(objects: Seq<H>, centers: Seq<Vec3>) -> Seq<
    (usize, BoundingBox, u128),
> {
    Seq::new(
        objects.len(),
        |i: int|
            (
                i as usize,
                objects[i].box_model(),
                morton_code::interleaved(
                    morton_code::cell(centers[i].x),
                    morton_code::cell(centers[i].y),
                    morton_code::cell(centers[i].z),
                ) as u128,
            ),
    )
}

/// The objects that a run of keyed items names, in the order of the run.
pub open spec fn objects_of<H>(objects: Seq<H>, run: Seq<(usize, BoundingBox, u128)>) -> Seq<H> {
    Seq::new(run.len(), |i: int| objects[run[i].0 as int])
}

/// Whether each item of a run names an object of the scene and carries the
/// box of that object.
pub open spec fn names_objects<H: Hittable>(
    objects: Seq<H>,
    run: Seq<(usize, BoundingBox, u128)>,
) -> bool {
    forall|i: int|
        0 <= i < run.len() ==> (#[trigger] run[i]).0 < objects.len() && run[i].1
            == objects[run[i].0 as int].box_model()
}

/// The boxes of a sequence of objects.
pub open spec fn boxes_of<H: Hittable>(objects: Seq<H>) -> Seq<BoundingBox> {
    Seq::new(objects.len(), |i: int| objects[i].box_model())
}

/// Whether the box of every object has numbers for its corners.
pub open spec fn boxes_are_numbers<H: Hittable>(objects: Seq<H>) -> bool {
    forall|i: int|
        0 <= i < objects.len() ==> (#[trigger] objects[i]).box_model().is_number()
}

/// Two arrangements of the same items stay arrangements of the same items
/// when each item is replaced by what `f` makes of it.
proof fn lemma_map_keeps_multiset<A, B>(a: Seq<A>, b: Seq<A>, f: spec_fn(A) -> B)
    requires
        a.to_multiset() == b.to_multiset(),
    ensures
        a.map_values(f).to_multiset() == b.map_values(f).to_multiset(),
    decreases a.len(),
{
    to_multiset_len(a);
    to_multiset_len(b);
    if a.len() == 0 {
        assert(a.map_values(f) =~= b.map_values(f));
    } else {
        let x = a[0];
        assert(a.contains(x));
        to_multiset_contains(a, x);
        to_multiset_contains(b, x);
        let j = choose|j: int| 0 <= j < b.len() && b[j] == x;
        let a_rest = a.remove(0);
        let b_rest = b.remove(j);
        to_multiset_remove(a, 0);
        to_multiset_remove(b, j);
        lemma_map_keeps_multiset(a_rest, b_rest, f);
        to_multiset_insert(a_rest.map_values(f), 0, f(x));
        to_multiset_insert(b_rest.map_values(f), j, f(x));
        assert(a.map_values(f) =~= a_rest.map_values(f).insert(0, f(x)));
        assert(b.map_values(f) =~= b_rest.map_values(f).insert(j, f(x)));
    }
}

/// On one axis, the union of two boxes spans the boxes that either spans.
proof fn lemma_join_spans(
    left: BoundingBox,
    right: BoundingBox,
    left_boxes: Seq<BoundingBox>,
    right_boxes: Seq<BoundingBox>,
    axis: int,
)
    requires
        0 <= axis < 3,
        left.spans(left_boxes, axis),
        right.spans(right_boxes, axis),
        left.is_number(),
        right.is_number(),
    ensures
        left.spec_join(right).spans(left_boxes + right_boxes, axis),
{
    let joined = left.spec_join(right);
    let boxes = left_boxes + right_boxes;
    let n = left_boxes.len() as int;
    assert forall|i: int| 0 <= i < boxes.len() implies joined.low(axis) <= (
    #[trigger] boxes[i]).low(axis) && joined.high(axis) >= boxes[i].high(axis) by {
        if i < n {
            assert(boxes[i] == left_boxes[i]);
        } else {
            assert(boxes[i] == right_boxes[i - n]);
        }
    }
    let low_left = choose|i: int|
        0 <= i < left_boxes.len() && left.low(axis) == (#[trigger] left_boxes[i]).low(axis);
    let low_right = choose|i: int|
        0 <= i < right_boxes.len() && right.low(axis) == (#[trigger] right_boxes[i]).low(axis);
    let high_left = choose|i: int|
        0 <= i < left_boxes.len() && left.high(axis) == (#[trigger] left_boxes[i]).high(axis);
    let high_right = choose|i: int|
        0 <= i < right_boxes.len() && right.high(axis) == (#[trigger] right_boxes[i]).high(axis);
    assert(boxes[low_left] == left_boxes[low_left]);
    assert(boxes[n + low_right] == right_boxes[low_right]);
    assert(boxes[high_left] == left_boxes[high_left]);
    assert(boxes[n + high_right] == right_boxes[high_right]);
    if joined.low(axis) == left.low(axis) {
        assert(0 <= low_left < boxes.len() && joined.low(axis) == boxes[low_left].low(axis));
    } else {
        assert(0 <= n + low_right < boxes.len() && joined.low(axis) == boxes[n
            + low_right].low(axis));
    }
    if joined.high(axis) == left.high(axis) {
        assert(0 <= high_left < boxes.len() && joined.high(axis) == boxes[high_left].high(axis));
    } else {
        assert(0 <= n + high_right < boxes.len() && joined.high(axis) == boxes[n
            + high_right].high(axis));
    }
}

/// On one axis, a box that spans the boxes of some objects spans the boxes of
/// the same objects in any other order.
proof fn lemma_spans_in_any_order<H: Hittable>(bounds: BoundingBox, a: Seq<H>, b: Seq<H>, axis: int)
    requires
        bounds.spans(boxes_of(a), axis),
        a.to_multiset() == b.to_multiset(),
    ensures
        bounds.spans(boxes_of(b), axis),
{
    let a_boxes = boxes_of(a);
    let b_boxes = boxes_of(b);
    assert forall|i: int| 0 <= i < b_boxes.len() implies bounds.low(axis) <= (
    #[trigger] b_boxes[i]).low(axis) && bounds.high(axis) >= b_boxes[i].high(axis) by {
        assert(b.contains(b[i]));
        to_multiset_contains(b, b[i]);
        to_multiset_contains(a, b[i]);
        let j = choose|j: int| 0 <= j < a.len() && a[j] == b[i];
        assert(a_boxes[j] == b_boxes[i]);
    }
    let low = choose|i: int|
        0 <= i < a_boxes.len() && bounds.low(axis) == (#[trigger] a_boxes[i]).low(axis);
    assert(a.contains(a[low]));
    to_multiset_contains(a, a[low]);
    to_multiset_contains(b, a[low]);
    let low_in_b = choose|j: int| 0 <= j < b.len() && b[j] == a[low];
    assert(b_boxes[low_in_b] == a_boxes[low]);
    let high = choose|i: int|
        0 <= i < a_boxes.len() && bounds.high(axis) == (#[trigger] a_boxes[i]).high(axis);
    assert(a.contains(a[high]));
    to_multiset_contains(a, a[high]);
    to_multiset_contains(b, a[high]);
    let high_in_b = choose|j: int| 0 <= j < b.len() && b[j] == a[high];
    assert(b_boxes[high_in_b] == a_boxes[high]);
}

/// `slice::sort_unstable_by_key` of std, with the key of each item as its
/// sort key: it reorders the items in place so that their keys ascend, and
/// neither adds nor drops an item.
#[verifier::external_body]
fn sort_by_code(items: &mut Vec<(usize, BoundingBox, u128)>)
    ensures
        final(items)@.to_multiset() == old(items)@.to_multiset(),
        morton_code::ascending(morton_code::codes(final(items)@)),
{
    items.sort_unstable_by_key(|item| item.2);
}

impl<'a, H: Hittable> BoundingVolumeHierarchy<'a, H> {
    /// The objects at the leaves, from left to right.
    pub closed spec fn leaves(&self) -> Seq<H>
        decreases self,
    {
        match self.sub_hierarchy {
            SubHierarchy::Object(object) => seq![*object],
            SubHierarchy::SubHierarchies { left, right } => left.leaves() + right.leaves(),
        }
    }

    /// The box of the root.
    pub closed spec fn bounds(&self) -> BoundingBox {
        self.bounding_box
    }

    /// The number of nodes on the longest way from the root to a leaf.
    pub closed spec fn depth(&self) -> nat
        decreases self,
    {
        match self.sub_hierarchy {
            SubHierarchy::Object(_) => 1,
            SubHierarchy::SubHierarchies { left, right } => if left.depth() >= right.depth() {
                1 + left.depth()
            } else {
                1 + right.depth()
            },
        }
    }

    /// Whether every leaf has the box of its object and every inner node the
    /// union of the boxes of its two subtrees.
    pub closed spec fn boxed(&self) -> bool
        decreases self,
    {
        match self.sub_hierarchy {
            SubHierarchy::Object(object) => self.bounding_box == object.box_model(),
            SubHierarchy::SubHierarchies { left, right } => {
                &&& left.boxed()
                &&& right.boxed()
                &&& self.bounding_box == left.bounding_box.spec_join(right.bounding_box)
            },
        }
    }

    /// The number of nodes at which the run was parted at its midpoint
    /// because its boundary was degenerate.
    pub closed spec fn fallbacks(&self) -> nat
        decreases self,
    {
        match self.sub_hierarchy {
            SubHierarchy::Object(_) => 0,
            SubHierarchy::SubHierarchies { left, right } => left.fallbacks() + right.fallbacks()
                + if self.degenerate {
                1nat
            } else {
                0nat
            },
        }
    }

    /// Whether the tree parts a run with these keys as [`choose_split`] does:
    /// a run of one key is a leaf, a run of two a node over two leaves, and a
    /// longer run a node whose left subtree takes the keys before the split,
    /// and which is marked where that split was degenerate.
    pub closed spec fn parted(&self, keys: Seq<u128>) -> bool
        decreases self,
    {
        match self.sub_hierarchy {
            SubHierarchy::Object(_) => keys.len() == 1 && !self.degenerate,
            SubHierarchy::SubHierarchies { left, right } => {
                let at = left.leaves().len() as int;
                &&& keys.len() == self.leaves().len()
                &&& keys.len() > 2 ==> parts(keys, at)
                &&& flags(keys, self.degenerate)
                &&& left.parted(keys.subrange(0, at))
                &&& right.parted(keys.subrange(at, keys.len() as int))
            },
        }
    }

    /// The nodes of the tree, each before its subtrees and the left subtree
    /// before the right: of each node its box, and whether it is a leaf.
    pub closed spec fn preorder(&self) -> Seq<(BoundingBox, bool)>
        decreases self,
    {
        match self.sub_hierarchy {
            SubHierarchy::Object(_) => seq![(self.bounding_box, true)],
            SubHierarchy::SubHierarchies { left, right } => seq![(self.bounding_box, false)]
                + left.preorder() + right.preorder(),
        }
    }

    /// What a hierarchy is by construction: boxed, and with no more leaves
    /// than can be counted.
    #[verifier::type_invariant]
    pub closed spec fn wf(&self) -> bool {
        self.boxed() && self.leaves().len() <= usize::MAX
    }

    /// What [`Hittable::hit`] returns on the hierarchy: nothing where the ray
    /// misses the box of the node. At a leaf, what the object returns. At an
    /// inner node, the hit in the right subtree no later than the hit in the
    /// left one, else the hit in the left subtree, else the hit in the right
    /// subtree within the bounds.
    pub closed spec fn traversal(&self, ray: Ray, t_min: Scalar, t_max: Scalar, rng: u64) -> (
        Hit<H::Material>,
        u64,
    )
        decreases self,
    {
        if !H::slab_model(self.bounding_box, ray).spec_overlap(t_min, t_max) {
            (None, rng)
        } else {
            match self.sub_hierarchy {
                SubHierarchy::Object(object) => object.hit_model(ray, t_min, t_max, rng),
                SubHierarchy::SubHierarchies { left, right } => {
                    let (left_hit, after_left) = left.traversal(ray, t_min, t_max, rng);
                    match left_hit {
                        Some(left_record) => {
                            let (right_hit, after_right) = right.traversal(
                                ray,
                                t_min,
                                left_record.time,
                                after_left,
                            );
                            match right_hit {
                                Some(_) => (right_hit, after_right),
                                None => (left_hit, after_right),
                            }
                        },
                        None => right.traversal(ray, t_min, t_max, after_left),
                    }
                },
            }
        }
    }

    proof fn lemma_depth_within_leaves(&self)
        ensures
            1 <= self.depth() <= self.leaves().len(),
        decreases self,
    {
        match self.sub_hierarchy {
            SubHierarchy::Object(_) => {},
            SubHierarchy::SubHierarchies { left, right } => {
                left.lemma_depth_within_leaves();
                right.lemma_depth_within_leaves();
            },
        }
    }

    fn leaf(object: &'a H, bounding_box: BoundingBox) -> (tree: Self)
        requires
            bounding_box == object.box_model(),
        ensures
            tree.leaves() == seq![*object],
            tree.bounds() == bounding_box,
            tree.wf(),
            forall|keys: Seq<u128>| keys.len() == 1 ==> tree.parted(keys),
    {
        BoundingVolumeHierarchy {
            bounding_box,
            sub_hierarchy: SubHierarchy::Object(object),
            degenerate: false,
        }
    }

    fn node(left: Self, right: Self, degenerate: bool, Ghost(keys): Ghost<Seq<u128>>) -> (tree:
        Self)
        requires
            left.wf(),
            right.wf(),
            keys.len() == left.leaves().len() + right.leaves().len(),
            keys.len() <= usize::MAX,
            keys.len() > 2 ==> parts(keys, left.leaves().len() as int),
            flags(keys, degenerate),
            left.parted(keys.subrange(0, left.leaves().len() as int)),
            right.parted(keys.subrange(left.leaves().len() as int, keys.len() as int)),
        ensures
            tree.leaves() == left.leaves() + right.leaves(),
            tree.bounds() == left.bounds().spec_join(right.bounds()),
            tree.wf(),
            tree.parted(keys),
    {
        let bounding_box = left.bounding_box.join(&right.bounding_box);
        BoundingVolumeHierarchy {
            bounding_box,
            sub_hierarchy: SubHierarchy::SubHierarchies {
                left: Box::new(left),
                right: Box::new(right),
            },
            degenerate,
        }
    }

    /// The hierarchy over a run of keyed objects: one object is a leaf, two
    /// are a node over two leaves, and a longer run is parted by
    /// [`choose_split`] into two runs, each built the same way.
    fn from_list(objects: &'a [H], list: &[(usize, BoundingBox, u128)]) -> (tree: Self)
        requires
            list@.len() > 0,
            names_objects(objects@, list@),
        ensures
            tree.leaves() == objects_of(objects@, list@),
            tree.parted(morton_code::codes(list@)),
            tree.wf(),
        decreases list@.len(),
    {
        let n: usize = list.len();
        let ghost keys = morton_code::codes(list@);
        if n == 1 {
            let tree = Self::leaf(&objects[list[0].0], list[0].1);
            assert(tree.leaves() =~= objects_of(objects@, list@));
            tree
        } else if n == 2 {
            let left = Self::leaf(&objects[list[0].0], list[0].1);
            let right = Self::leaf(&objects[list[1].0], list[1].1);
            proof {
                assert(keys.subrange(0, 1).len() == 1 && keys.subrange(1, 2).len() == 1);
                assert(left.parted(keys.subrange(0, 1)));
                assert(right.parted(keys.subrange(1, 2)));
            }
            let tree = Self::node(left, right, false, Ghost(keys));
            assert(tree.leaves() =~= objects_of(objects@, list@));
            tree
        } else {
            let split = choose_split(list);
            let (head, tail) = list.split_at(split.at);
            let left = Self::from_list(objects, head);
            let right = Self::from_list(objects, tail);
            proof {
                assert(morton_code::codes(head@) =~= keys.subrange(0, split.at as int));
                assert(morton_code::codes(tail@) =~= keys.subrange(split.at as int, n as int));
            }
            let tree = Self::node(left, right, split.degenerate, Ghost(keys));
            assert(tree.leaves() =~= objects_of(objects@, list@));
            tree
        }
    }

    /// The box of the root is the union of the boxes of the leaves.
    proof fn lemma_bounds_are_union(&self)
        requires
            self.boxed(),
            boxes_are_numbers(self.leaves()),
        ensures
            self.bounding_box.is_union_of(boxes_of(self.leaves())),
            self.bounding_box.is_number(),
        decreases self,
    {
        match self.sub_hierarchy {
            SubHierarchy::Object(object) => {
                let boxes = boxes_of(self.leaves());
                assert(self.leaves()[0] == *object);
                assert(boxes[0] == self.bounding_box);
            },
            SubHierarchy::SubHierarchies { left, right } => {
                let n = left.leaves().len() as int;
                assert forall|i: int| 0 <= i < left.leaves().len() implies (
                #[trigger] left.leaves()[i]).box_model().is_number() by {
                    assert(left.leaves()[i] == self.leaves()[i]);
                }
                assert forall|i: int| 0 <= i < right.leaves().len() implies (
                #[trigger] right.leaves()[i]).box_model().is_number() by {
                    assert(right.leaves()[i] == self.leaves()[n + i]);
                }
                left.lemma_bounds_are_union();
                right.lemma_bounds_are_union();
                assert(boxes_of(self.leaves()) =~= boxes_of(left.leaves()) + boxes_of(
                    right.leaves(),
                ));
                lemma_join_spans(
                    left.bounding_box,
                    right.bounding_box,
                    boxes_of(left.leaves()),
                    boxes_of(right.leaves()),
                    0,
                );
                lemma_join_spans(
                    left.bounding_box,
                    right.bounding_box,
                    boxes_of(left.leaves()),
                    boxes_of(right.leaves()),
                    1,
                );
                lemma_join_spans(
                    left.bounding_box,
                    right.bounding_box,
                    boxes_of(left.leaves()),
                    boxes_of(right.leaves()),
                    2,
                );
            },
        }
    }

    /// The hierarchy over the objects of a scene.
    ///
    /// `centers` holds for each object, in the order of the scene, the centre
    /// of its box, scaled into the unit cube. The objects are keyed by the
    /// Morton keys of these centres and sorted by key, and the sorted run is
    /// parted into a tree.
    ///
    /// A scene without objects has no hierarchy, nor has one whose centres are
    /// not as many as its objects. Otherwise the leaves of the tree are the
    /// objects of the scene, each once, in some order in which their keys
    /// ascend; the tree is parted as [`choose_split`] parts that run; and,
    /// where the boxes hold numbers, the box of the root is the union of the
    /// boxes of all objects.
    pub fn build(world: &'a HittableList<H>, centers: &Vec<Vec3>) -> (r: Result<Self, BuildError>)
        ensures
            r == Err::<Self, BuildError>(BuildError::EmptyScene) <==> world@.len() == 0,
            r == Err::<Self, BuildError>(BuildError::CentersMismatch) <==> world@.len() != 0
                && centers@.len() != world@.len(),
            r is Ok ==> {
                let tree = r->Ok_0;
                &&& tree.wf()
                &&& tree.leaves().len() == world@.len()
                &&& tree.leaves().to_multiset() == world@.to_multiset()
                &&& exists|run: Seq<(usize, BoundingBox, u128)>|
                    {
                        &&& #[trigger] run.to_multiset() == keyed(world@, centers@).to_multiset()
                        &&& morton_code::ascending(morton_code::codes(run))
                        &&& tree.leaves() == objects_of(world@, run)
                        &&& tree.parted(morton_code::codes(run))
                    }
                &&& boxes_are_numbers(world@) ==> tree.bounds().is_union_of(boxes_of(world@))
            },
    {
        let n: usize = world.len();
        if n == 0 {
            return Err(BuildError::EmptyScene);
        }
        if centers.len() != n {
            return Err(BuildError::CentersMismatch);
        }
        let mut items: Vec<(usize, BoundingBox, u128)> = Vec::new();
        let mut i: usize = 0;
        while i < n
            invariant
                0 <= i <= n,
                n == world@.len(),
                n == centers@.len(),
                items@ == keyed(world@, centers@).subrange(0, i as int),
            decreases n - i,
        {
            let bounding_box = world.objects[i].bounding_box();
            let code = morton_code(centers[i]);
            items.push((i, bounding_box, code));
            assert(items@ =~= keyed(world@, centers@).subrange(0, i + 1));
            i += 1;
        }
        let ghost unsorted = keyed(world@, centers@);
        assert(items@ =~= unsorted);
        sort_by_code(&mut items);
        let ghost run = items@;
        proof {
            to_multiset_len(run);
            to_multiset_len(unsorted);
            assert forall|k: int| 0 <= k < run.len() implies (#[trigger] run[k]).0 < world@.len()
                && run[k].1 == world@[run[k].0 as int].box_model() by {
                assert(run.contains(run[k]));
                to_multiset_contains(run, run[k]);
                to_multiset_contains(unsorted, run[k]);
                let j = choose|j: int| 0 <= j < unsorted.len() && unsorted[j] == run[k];
            }
        }
        let tree = Self::from_list(world.objects.as_slice(), items.as_slice());
        proof {
            let pick = |item: (usize, BoundingBox, u128)| world@[item.0 as int];
            lemma_map_keeps_multiset(run, unsorted, pick);
            assert(run.map_values(pick) =~= tree.leaves());
            assert(unsorted.map_values(pick) =~= world@);
            if boxes_are_numbers(world@) {
                assert forall|k: int| 0 <= k < tree.leaves().len() implies (
                #[trigger] tree.leaves()[k]).box_model().is_number() by {
                    assert(tree.leaves()[k] == world@[run[k].0 as int]);
                }
                tree.lemma_bounds_are_union();
                lemma_spans_in_any_order(tree.bounding_box, tree.leaves(), world@, 0);
                lemma_spans_in_any_order(tree.bounding_box, tree.leaves(), world@, 1);
                lemma_spans_in_any_order(tree.bounding_box, tree.leaves(), world@, 2);
            }
        }
        Ok(tree)
    }

    proof fn lemma_fallbacks_within_leaves(&self)
        ensures
            self.fallbacks() < self.leaves().len(),
        decreases self,
    {
        match self.sub_hierarchy {
            SubHierarchy::Object(_) => {},
            SubHierarchy::SubHierarchies { left, right } => {
                left.lemma_fallbacks_within_leaves();
                right.lemma_fallbacks_within_leaves();
            },
        }
    }

    /// The number of degenerate splits met while the tree was built: the
    /// nodes at which a run was parted at its midpoint instead of its
    /// boundary.
    pub fn degenerate_splits(&self) -> (n: usize)
        ensures
            n == self.fallbacks(),
        decreases self,
    {
        proof {
            use_type_invariant(self);
            self.lemma_fallbacks_within_leaves();
        }
        match &self.sub_hierarchy {
            SubHierarchy::Object(_) => 0,
            SubHierarchy::SubHierarchies { left, right } => {
                proof {
                    left.lemma_fallbacks_within_leaves();
                    right.lemma_fallbacks_within_leaves();
                }
                let below: usize = left.degenerate_splits() + right.degenerate_splits();
                if self.degenerate {
                    below + 1
                } else {
                    below
                }
            },
        }
    }

    /// The depth of the tree and the number of its leaves.
    pub fn depth_and_num_nodes(&self) -> (r: (usize, usize))
        ensures
            r.0 == self.depth(),
            r.1 == self.leaves().len(),
        decreases self,
    {
        proof {
            use_type_invariant(self);
            self.lemma_depth_within_leaves();
        }
        match &self.sub_hierarchy {
            SubHierarchy::Object(_) => (1, 1),
            SubHierarchy::SubHierarchies { left, right } => {
                proof {
                    left.lemma_depth_within_leaves();
                    right.lemma_depth_within_leaves();
                }
                let (depth_left, nodes_left) = left.depth_and_num_nodes();
                let (depth_right, nodes_right) = right.depth_and_num_nodes();
                let deeper: usize = if depth_left >= depth_right {
                    depth_left
                } else {
                    depth_right
                };
                (1 + deeper, nodes_left + nodes_right)
            },
        }
    }

    fn list_nodes(&self, nodes: &mut Vec<(BoundingBox, bool)>)
        ensures
            final(nodes)@ == old(nodes)@ + self.preorder(),
        decreases self,
    {
        match &self.sub_hierarchy {
            SubHierarchy::Object(_) => {
                nodes.push((self.bounding_box, true));
                assert(nodes@ =~= old(nodes)@ + self.preorder());
            },
            SubHierarchy::SubHierarchies { left, right } => {
                nodes.push((self.bounding_box, false));
                left.list_nodes(nodes);
                right.list_nodes(nodes);
                assert(nodes@ =~= old(nodes)@ + self.preorder());
            },
        }
    }

    /// The shape of the tree, for display: its nodes in [preorder](Self::preorder).
    pub fn outline(&self) -> (nodes: Vec<(BoundingBox, bool)>)
        ensures
            nodes@ == self.preorder(),
    {
        let mut nodes: Vec<(BoundingBox, bool)> = Vec::new();
        self.list_nodes(&mut nodes);
        assert(nodes@ =~= self.preorder());
        nodes
    }

    fn traverse(&self, ray: &Ray, t_min: Scalar, t_max: Scalar, rng: &mut SplitMix64) -> (r: Hit<
        H::Material,
    >)
        ensures
            (r, final(rng)@) == self.traversal(*ray, t_min, t_max, old(rng)@),
        decreases self,
    {
        if self.bounding_box.hit::<H>(ray, t_min, t_max) {
            match &self.sub_hierarchy {
                SubHierarchy::Object(object) => object.hit(ray, t_min, t_max, rng),
                SubHierarchy::SubHierarchies { left, right } => {
                    let left_hit = left.traverse(ray, t_min, t_max, rng);
                    match left_hit {
                        Some(left_record) => {
                            let right_hit = right.traverse(ray, t_min, left_record.time, rng);
                            match right_hit {
                                Some(right_record) => Some(right_record),
                                None => Some(left_record),
                            }
                        },
                        None => right.traverse(ray, t_min, t_max, rng),
                    }
                },
            }
        } else {
            None
        }
    }
}

impl<'a, H: Hittable> Hittable for BoundingVolumeHierarchy<'a, H> {
    type Material = H::Material;

    closed spec fn hit_model(&self, ray: Ray, t_min: Scalar, t_max: Scalar, rng: u64) -> (
        Hit<H::Material>,
        u64,
    ) {
        self.traversal(ray, t_min, t_max, rng)
    }

    closed spec fn box_model(&self) -> BoundingBox {
        self.bounding_box
    }

    open spec fn slab_model(bounds: BoundingBox, ray: Ray) -> SlabTimes {
        H::slab_model(bounds, ray)
    }

    /// The nearest hit among the objects of the hierarchy: a subtree is
    /// searched only where the ray crosses its box, and the second subtree
    /// only for a hit no later than the one found in the first.
    fn hit(&self, ray: &Ray, t_min: Scalar, t_max: Scalar, rng: &mut SplitMix64) -> (r: Hit<
        H::Material,
    >)
        ensures
            (r, final(rng)@) == self.traversal(*ray, t_min, t_max, old(rng)@),
    {
        self.traverse(ray, t_min, t_max, rng)
    }

    /// The box of the root.
    fn bounding_box(&self) -> (r: BoundingBox)
        ensures
            r == self.bounds(),
    {
        self.bounding_box
    }

    fn slab_times(bounds: &BoundingBox, ray: &Ray) -> (r: SlabTimes) {
        H::slab_times(bounds, ray)
    }
}

/// The hit of an object on a ray when no upper bound is set on its time.
pub open spec fn first_hit<H: Hittable>(object: H, ray: Ray, t_min: Scalar) -> Hit<H::Material> {
    object.hit_model(ray, t_min, Scalar { bits: crate::scalar::INFINITY_BITS }, 0).0
}

/// A hit, if its time is not after `t_max`.
pub open spec fn within<M>(hit: Hit<M>, t_max: Scalar) -> Hit<M> {
    match hit {
        Some(record) => if record.time.spec_le(t_max) {
            hit
        } else {
            None
        },
        None => None,
    }
}

/// Whether an object answers a ray steadily: it leaves the generator alone,
/// and under every upper bound it reports its first hit, unless that comes
/// after the bound.
pub open spec fn steady<H: Hittable>(object: H, ray: Ray, t_min: Scalar) -> bool {
    &&& forall|t_max: Scalar, rng: u64|
        !t_max.nan() ==> #[trigger] object.hit_model(ray, t_min, t_max, rng) == (
            within(first_hit(object, ray, t_min), t_max),
            rng,
        )
    &&& first_hit(object, ray, t_min) is Some ==> !first_hit(object, ray, t_min)->0.time.nan()
}

/// Whether the box of an object holds the object, as far as a ray can tell:
/// where the ray hits the object within a bound, it crosses the box within the
/// same bound.
pub open spec fn box_holds<H: Hittable>(object: H, ray: Ray, t_min: Scalar) -> bool {
    forall|t_max: Scalar|
        !t_max.nan() && (#[trigger] within(first_hit(object, ray, t_min), t_max)) is Some
            ==> H::slab_model(object.box_model(), ray).spec_overlap(t_min, t_max)
}

/// Whether the slabs of a box widen as the box grows: the slabs of the union
/// of two boxes of numbers are entered no later and left no earlier than the
/// slabs of either box.
pub open spec fn slabs_widen_with_boxes<H: Hittable>(ray: Ray) -> bool {
    forall|a: BoundingBox, b: BoundingBox|
        a.is_number() && b.is_number() ==> {
            &&& H::slab_model(a, ray).widened_to(#[trigger] H::slab_model(a.spec_join(b), ray))
            &&& H::slab_model(b, ray).widened_to(H::slab_model(a.spec_join(b), ray))
        }
}

/// Whether the objects of a scene fit the search of a hierarchy by a ray: the
/// search starts at a time that is a number, each object is [`steady`], each
/// box is of numbers and [holds](box_holds) its object, and
/// [the slabs widen with the boxes](slabs_widen_with_boxes).
pub open spec fn searchable<H: Hittable>(objects: Seq<H>, ray: Ray, t_min: Scalar) -> bool {
    &&& !t_min.nan()
    &&& boxes_are_numbers(objects)
    &&& slabs_widen_with_boxes::<H>(ray)
    &&& forall|i: int|
        0 <= i < objects.len() ==> steady(#[trigger] objects[i], ray, t_min) && box_holds(
            objects[i],
            ray,
            t_min,
        )
}

/// Whether a ray that crosses a box within bounds crosses every union of that
/// box with another.
spec fn unions_are_crossed<H: Hittable>(ray: Ray, t_min: Scalar) -> bool {
    forall|a: BoundingBox, b: BoundingBox, t_max: Scalar|
        a.is_number() && b.is_number() && !t_max.nan() && (H::slab_model(a, ray).spec_overlap(
            t_min,
            t_max,
        ) || H::slab_model(b, ray).spec_overlap(t_min, t_max)) ==> #[trigger] H::slab_model(
            a.spec_join(b),
            ray,
        ).spec_overlap(t_min, t_max)
}

/// What is [`searchable`], with the crossing of unions in place of the
/// widening of slabs from which it follows.
spec fn crossable<H: Hittable>(objects: Seq<H>, ray: Ray, t_min: Scalar) -> bool {
    &&& boxes_are_numbers(objects)
    &&& unions_are_crossed::<H>(ray, t_min)
    &&& forall|i: int|
        0 <= i < objects.len() ==> steady(#[trigger] objects[i], ray, t_min) && box_holds(
            objects[i],
            ray,
            t_min,
        )
}

proof fn lemma_searchable_is_crossable<H: Hittable>(objects: Seq<H>, ray: Ray, t_min: Scalar)
    requires
        searchable(objects, ray, t_min),
    ensures
        crossable(objects, ray, t_min),
{
    assert forall|a: BoundingBox, b: BoundingBox, t_max: Scalar|
        a.is_number() && b.is_number() && !t_max.nan() && (H::slab_model(a, ray).spec_overlap(
            t_min,
            t_max,
        ) || H::slab_model(b, ray).spec_overlap(t_min, t_max)) implies #[trigger] H::slab_model(
        a.spec_join(b),
        ray,
    ).spec_overlap(t_min, t_max) by {
        let wide = H::slab_model(a.spec_join(b), ray);
        if H::slab_model(a, ray).spec_overlap(t_min, t_max) {
            law_wider_slabs_are_crossed(H::slab_model(a, ray), wide, t_min, t_max);
        } else {
            law_wider_slabs_are_crossed(H::slab_model(b, ray), wide, t_min, t_max);
        }
    }
}

/// Whether `hit` is the nearest hit of the ray on the objects within the
/// bound: the first hit of one of them, and none of them is hit sooner; or
/// nothing, where none of them is hit within the bound.
pub open spec fn is_nearest<H: Hittable>(
    hit: Hit<H::Material>,
    objects: Seq<H>,
    ray: Ray,
    t_min: Scalar,
    t_max: Scalar,
) -> bool {
    match hit {
        Some(record) => {
            &&& exists|i: int|
                0 <= i < objects.len() && within(first_hit(#[trigger] objects[i], ray, t_min), t_max)
                    == hit
            &&& forall|i: int|
                0 <= i < objects.len() && within(
                    first_hit(#[trigger] objects[i], ray, t_min),
                    t_max,
                ) is Some ==> record.time.rank() <= first_hit(objects[i], ray, t_min)->0.time.rank()
        },
        None => forall|i: int|
            0 <= i < objects.len() ==> within(first_hit(#[trigger] objects[i], ray, t_min), t_max)
                is None,
    }
}

/// Whether two objects hit by the ray at the same time are hit at the same
/// point.
pub open spec fn points_follow_times<H: Hittable>(objects: Seq<H>, ray: Ray, t_min: Scalar) -> bool {
    forall|i: int, j: int|
        0 <= i < objects.len() && 0 <= j < objects.len() && first_hit(
            #[trigger] objects[i],
            ray,
            t_min,
        ) is Some && first_hit(#[trigger] objects[j], ray, t_min) is Some && first_hit(
            objects[i],
            ray,
            t_min,
        )->0.time.rank() == first_hit(objects[j], ray, t_min)->0.time.rank() ==> first_hit(
            objects[i],
            ray,
            t_min,
        )->0.point == first_hit(objects[j], ray, t_min)->0.point
}

impl<'a, H: Hittable> BoundingVolumeHierarchy<'a, H> {
    /// A ray that hits a leaf within a bound crosses the box of the root
    /// within that bound.
    proof fn lemma_root_is_crossed(&self, ray: Ray, t_min: Scalar, t_max: Scalar, leaf: int)
        requires
            self.boxed(),
            crossable(self.leaves(), ray, t_min),
            !t_max.nan(),
            0 <= leaf < self.leaves().len(),
            within(first_hit(self.leaves()[leaf], ray, t_min), t_max) is Some,
        ensures
            H::slab_model(self.bounding_box, ray).spec_overlap(t_min, t_max),
        decreases self,
    {
        match self.sub_hierarchy {
            SubHierarchy::Object(object) => {
                assert(self.leaves()[leaf] == *object);
                assert(box_holds(self.leaves()[leaf], ray, t_min));
            },
            SubHierarchy::SubHierarchies { left, right } => {
                let n = left.leaves().len() as int;
                self.lemma_subtrees_crossable(ray, t_min);
                left.lemma_bounds_are_union();
                right.lemma_bounds_are_union();
                if leaf < n {
                    assert(left.leaves()[leaf] == self.leaves()[leaf]);
                    left.lemma_root_is_crossed(ray, t_min, t_max, leaf);
                } else {
                    assert(right.leaves()[leaf - n] == self.leaves()[leaf]);
                    right.lemma_root_is_crossed(ray, t_min, t_max, leaf - n);
                }
            },
        }
    }

    /// What fits the search of a tree fits the search of its subtrees.
    proof fn lemma_subtrees_crossable(&self, ray: Ray, t_min: Scalar)
        requires
            crossable(self.leaves(), ray, t_min),
        ensures
            match self.sub_hierarchy {
                SubHierarchy::Object(_) => true,
                SubHierarchy::SubHierarchies { left, right } => crossable(
                    left.leaves(),
                    ray,
                    t_min,
                ) && crossable(right.leaves(), ray, t_min),
            },
    {
        match self.sub_hierarchy {
            SubHierarchy::Object(_) => {},
            SubHierarchy::SubHierarchies { left, right } => {
                let n = left.leaves().len() as int;
                assert forall|i: int| 0 <= i < left.leaves().len() implies steady(
                    #[trigger] left.leaves()[i],
                    ray,
                    t_min,
                ) && box_holds(left.leaves()[i], ray, t_min)
                    && left.leaves()[i].box_model().is_number() by {
                    assert(left.leaves()[i] == self.leaves()[i]);
                }
                assert forall|i: int| 0 <= i < right.leaves().len() implies steady(
                    #[trigger] right.leaves()[i],
                    ray,
                    t_min,
                ) && box_holds(right.leaves()[i], ray, t_min)
                    && right.leaves()[i].box_model().is_number() by {
                    assert(right.leaves()[i] == self.leaves()[n + i]);
                }
            },
        }
    }

    /// The search of a tree leaves the generator alone and returns the
    /// nearest hit on its leaves.
    proof fn lemma_traversal_is_nearest(&self, ray: Ray, t_min: Scalar, t_max: Scalar, rng: u64)
        requires
            self.boxed(),
            crossable(self.leaves(), ray, t_min),
            !t_max.nan(),
        ensures
            self.traversal(ray, t_min, t_max, rng).1 == rng,
            is_nearest(self.traversal(ray, t_min, t_max, rng).0, self.leaves(), ray, t_min, t_max),
        decreases self,
    {
        let leaves = self.leaves();
        if !H::slab_model(self.bounding_box, ray).spec_overlap(t_min, t_max) {
            assert forall|i: int| 0 <= i < leaves.len() implies within(
                first_hit(#[trigger] leaves[i], ray, t_min),
                t_max,
            ) is None by {
                if within(first_hit(leaves[i], ray, t_min), t_max) is Some {
                    self.lemma_root_is_crossed(ray, t_min, t_max, i);
                }
            }
        } else {
            match self.sub_hierarchy {
                SubHierarchy::Object(object) => {
                    assert(leaves[0] == *object);
                    assert(steady(leaves[0], ray, t_min));
                },
                SubHierarchy::SubHierarchies { left, right } => {
                    let n = left.leaves().len() as int;
                    self.lemma_subtrees_crossable(ray, t_min);
                    left.lemma_traversal_is_nearest(ray, t_min, t_max, rng);
                    let left_hit = left.traversal(ray, t_min, t_max, rng).0;
                    assert forall|i: int| 0 <= i < leaves.len() implies (if i < n {
                        #[trigger] leaves[i] == left.leaves()[i]
                    } else {
                        leaves[i] == right.leaves()[i - n]
                    }) by {}
                    match left_hit {
                        Some(left_record) => {
                            let found_left = choose|i: int|
                                0 <= i < left.leaves().len() && within(
                                    first_hit(#[trigger] left.leaves()[i], ray, t_min),
                                    t_max,
                                ) == left_hit;
                            assert(leaves[found_left] == left.leaves()[found_left]);
                            assert(steady(leaves[found_left], ray, t_min));
                            right.lemma_traversal_is_nearest(ray, t_min, left_record.time, rng);
                            let right_hit = right.traversal(ray, t_min, left_record.time, rng).0;
                            match right_hit {
                                Some(right_record) => {
                                    let found_right = choose|i: int|
                                        0 <= i < right.leaves().len() && within(
                                            first_hit(#[trigger] right.leaves()[i], ray, t_min),
                                            left_record.time,
                                        ) == right_hit;
                                    assert(leaves[n + found_right] == right.leaves()[found_right]);
                                    assert(within(
                                        first_hit(leaves[n + found_right], ray, t_min),
                                        t_max,
                                    ) == right_hit);
                                    assert forall|i: int|
                                        0 <= i < leaves.len() && within(
                                            first_hit(#[trigger] leaves[i], ray, t_min),
                                            t_max,
                                        ) is Some implies right_record.time.rank() <= first_hit(
                                        leaves[i],
                                        ray,
                                        t_min,
                                    )->0.time.rank() by {
                                        if i < n {
                                            assert(leaves[i] == left.leaves()[i]);
                                        } else {
                                            assert(leaves[i] == right.leaves()[i - n]);
                                            assert(steady(leaves[i], ray, t_min));
                                        }
                                    }
                                },
                                None => {
                                    assert(within(first_hit(leaves[found_left], ray, t_min), t_max)
                                        == left_hit);
                                    assert forall|i: int|
                                        0 <= i < leaves.len() && within(
                                            first_hit(#[trigger] leaves[i], ray, t_min),
                                            t_max,
                                        ) is Some implies left_record.time.rank() <= first_hit(
                                        leaves[i],
                                        ray,
                                        t_min,
                                    )->0.time.rank() by {
                                        if i < n {
                                            assert(leaves[i] == left.leaves()[i]);
                                        } else {
                                            assert(leaves[i] == right.leaves()[i - n]);
                                            assert(steady(leaves[i], ray, t_min));
                                        }
                                    }
                                },
                            }
                        },
                        None => {
                            right.lemma_traversal_is_nearest(ray, t_min, t_max, rng);
                            let right_hit = right.traversal(ray, t_min, t_max, rng).0;
                            match right_hit {
                                Some(right_record) => {
                                    let found_right = choose|i: int|
                                        0 <= i < right.leaves().len() && within(
                                            first_hit(#[trigger] right.leaves()[i], ray, t_min),
                                            t_max,
                                        ) == right_hit;
                                    assert(leaves[n + found_right] == right.leaves()[found_right]);
                                    assert forall|i: int|
                                        0 <= i < leaves.len() && within(
                                            first_hit(#[trigger] leaves[i], ray, t_min),
                                            t_max,
                                        ) is Some implies right_record.time.rank() <= first_hit(
                                        leaves[i],
                                        ray,
                                        t_min,
                                    )->0.time.rank() by {
                                        if i < n {
                                            assert(leaves[i] == left.leaves()[i]);
                                        } else {
                                            assert(leaves[i] == right.leaves()[i - n]);
                                        }
                                    }
                                },
                                None => {
                                    assert forall|i: int| 0 <= i < leaves.len() implies within(
                                        first_hit(#[trigger] leaves[i], ray, t_min),
                                        t_max,
                                    ) is None by {
                                        if i < n {
                                            assert(leaves[i] == left.leaves()[i]);
                                        } else {
                                            assert(leaves[i] == right.leaves()[i - n]);
                                        }
                                    }
                                },
                            }
                        },
                    }
                },
            }
        }
    }
}

/// In every hierarchy, the box of the root is the union of the boxes of the
/// objects at the leaves, where these are boxes of numbers.
pub proof fn law_root_box_is_the_union<'a, H: Hittable>(tree: BoundingVolumeHierarchy<'a, H>)
    requires
        tree.wf(),
        boxes_are_numbers(tree.leaves()),
    ensures
        tree.bounds().is_union_of(boxes_of(tree.leaves())),
        tree.bounds().is_number(),
{
    tree.lemma_bounds_are_union();
}

/// Joining the boxes of the objects from number `from` on to the union of the
/// boxes before them gives the union of all.
proof fn lemma_joined_boxes_are_union<H: Hittable>(objects: Seq<H>, from: int, so_far: BoundingBox)
    requires
        0 < from <= objects.len(),
        boxes_are_numbers(objects),
        so_far.is_number(),
        so_far.is_union_of(boxes_of(objects.subrange(0, from))),
    ensures
        crate::hittable::hittable_list::joined_boxes(objects, from, so_far).is_union_of(
            boxes_of(objects),
        ),
    decreases objects.len() - from,
{
    if from == objects.len() {
        assert(objects.subrange(0, from) =~= objects);
    } else {
        let next = objects[from].box_model();
        let before = boxes_of(objects.subrange(0, from));
        assert(next.is_number());
        assert(seq![next][0] == next);
        assert(next.spans(seq![next], 0) && next.spans(seq![next], 1) && next.spans(seq![next], 2));
        lemma_join_spans(so_far, next, before, seq![next], 0);
        lemma_join_spans(so_far, next, before, seq![next], 1);
        lemma_join_spans(so_far, next, before, seq![next], 2);
        assert(boxes_of(objects.subrange(0, from + 1)) =~= before + seq![next]);
        lemma_joined_boxes_are_union(objects, from + 1, so_far.spec_join(next));
    }
}

/// The box of a list with objects is the union of the boxes of its objects,
/// where these are boxes of numbers; so it reaches as far on every side as the
/// box of the root of any hierarchy over the same objects.
pub proof fn law_list_box_is_the_union<'a, H: Hittable>(
    world: HittableList<H>,
    tree: BoundingVolumeHierarchy<'a, H>,
)
    requires
        world@.len() > 0,
        boxes_are_numbers(world@),
        tree.wf(),
        tree.leaves().to_multiset() == world@.to_multiset(),
    ensures
        world.box_model().is_union_of(boxes_of(world@)),
        tree.bounds().is_union_of(boxes_of(world@)),
        forall|axis: int|
            0 <= axis < 3 ==> world.box_model().low(axis) == tree.bounds().low(axis)
                && world.box_model().high(axis) == tree.bounds().high(axis),
{
    let objects = world@;
    let first = objects[0].box_model();
    let only = boxes_of(objects.subrange(0, 1));
    assert(only[0] == first);
    assert(first.spans(only, 0) && first.spans(only, 1) && first.spans(only, 2));
    lemma_joined_boxes_are_union(objects, 1, first);
    assert forall|k: int| 0 <= k < tree.leaves().len() implies (
    #[trigger] tree.leaves()[k]).box_model().is_number() by {
        assert(tree.leaves().contains(tree.leaves()[k]));
        to_multiset_contains(tree.leaves(), tree.leaves()[k]);
        to_multiset_contains(objects, tree.leaves()[k]);
        let j = choose|j: int| 0 <= j < objects.len() && objects[j] == tree.leaves()[k];
    }
    tree.lemma_bounds_are_union();
    lemma_spans_in_any_order(tree.bounding_box, tree.leaves(), objects, 0);
    lemma_spans_in_any_order(tree.bounding_box, tree.leaves(), objects, 1);
    lemma_spans_in_any_order(tree.bounding_box, tree.leaves(), objects, 2);
    let flat = world.box_model();
    let root = tree.bounds();
    let boxes = boxes_of(objects);
    assert forall|axis: int| 0 <= axis < 3 implies flat.low(axis) == root.low(axis) && flat.high(
        axis,
    ) == root.high(axis) by {
        assert(flat.spans(boxes, axis) && root.spans(boxes, axis));
        let a = choose|i: int|
            0 <= i < boxes.len() && flat.low(axis) == (#[trigger] boxes[i]).low(axis);
        let b = choose|i: int|
            0 <= i < boxes.len() && root.low(axis) == (#[trigger] boxes[i]).low(axis);
        let c = choose|i: int|
            0 <= i < boxes.len() && flat.high(axis) == (#[trigger] boxes[i]).high(axis);
        let d = choose|i: int|
            0 <= i < boxes.len() && root.high(axis) == (#[trigger] boxes[i]).high(axis);
        assert(root.low(axis) <= boxes[a].low(axis) && flat.low(axis) <= boxes[b].low(axis));
        assert(root.high(axis) >= boxes[c].high(axis) && flat.high(axis) >= boxes[d].high(axis));
    }
}

/// The search of a list from its object number `from` on leaves the generator
/// alone and ends with the nearest hit on the whole list, where the hit found
/// so far is the nearest on the objects before `from`.
proof fn lemma_scan_is_nearest<H: Hittable>(
    objects: Seq<H>,
    from: int,
    ray: Ray,
    t_min: Scalar,
    t_max: Scalar,
    closest: Scalar,
    found: Hit<H::Material>,
    rng: u64,
)
    requires
        0 <= from <= objects.len(),
        !t_max.nan(),
        forall|i: int| 0 <= i < objects.len() ==> steady(#[trigger] objects[i], ray, t_min),
        is_nearest(found, objects.subrange(0, from), ray, t_min, t_max),
        match found {
            Some(record) => closest == record.time,
            None => closest == t_max,
        },
    ensures
        crate::hittable::hittable_list::scan(objects, from, ray, t_min, closest, found, rng).1
            == rng,
        is_nearest(
            crate::hittable::hittable_list::scan(objects, from, ray, t_min, closest, found, rng).0,
            objects,
            ray,
            t_min,
            t_max,
        ),
    decreases objects.len() - from,
{
    let before = objects.subrange(0, from);
    if from == objects.len() {
        assert(before =~= objects);
    } else {
        let object = objects[from];
        let up_to = objects.subrange(0, from + 1);
        assert(steady(object, ray, t_min));
        assert forall|i: int| 0 <= i < up_to.len() implies (if i < from {
            #[trigger] up_to[i] == before[i]
        } else {
            up_to[i] == object
        }) by {}
        match found {
            Some(record) => {
                let earlier = choose|i: int|
                    0 <= i < before.len() && within(first_hit(#[trigger] before[i], ray, t_min), t_max)
                        == found;
                assert(up_to[earlier] == before[earlier]);
                assert(!closest.nan());
            },
            None => {},
        }
        let (hit, next) = object.hit_model(ray, t_min, closest, rng);
        assert(hit == within(first_hit(object, ray, t_min), closest) && next == rng);
        match hit {
            Some(record) => {
                assert(up_to[from] == object);
                assert(within(first_hit(up_to[from], ray, t_min), t_max) == hit);
                assert forall|i: int|
                    0 <= i < up_to.len() && within(first_hit(#[trigger] up_to[i], ray, t_min), t_max)
                        is Some implies record.time.rank() <= first_hit(up_to[i], ray, t_min)->0.time.rank() by {
                    if i < from {
                        assert(up_to[i] == before[i]);
                    }
                }
                lemma_scan_is_nearest(objects, from + 1, ray, t_min, t_max, record.time, hit, rng);
            },
            None => {
                match found {
                    Some(record) => {
                        assert forall|i: int|
                            0 <= i < up_to.len() && within(
                                first_hit(#[trigger] up_to[i], ray, t_min),
                                t_max,
                            ) is Some implies record.time.rank() <= first_hit(
                            up_to[i],
                            ray,
                            t_min,
                        )->0.time.rank() by {
                            if i < from {
                                assert(up_to[i] == before[i]);
                            }
                        }
                    },
                    None => {
                        assert forall|i: int| 0 <= i < up_to.len() implies within(
                            first_hit(#[trigger] up_to[i], ray, t_min),
                            t_max,
                        ) is None by {
                            if i < from {
                                assert(up_to[i] == before[i]);
                            }
                        }
                    },
                }
                lemma_scan_is_nearest(objects, from + 1, ray, t_min, t_max, closest, found, rng);
            },
        }
    }
}

/// The nearest hit on some objects is the nearest hit on the same objects in
/// any other order.
proof fn lemma_nearest_in_any_order<H: Hittable>(
    hit: Hit<H::Material>,
    a: Seq<H>,
    b: Seq<H>,
    ray: Ray,
    t_min: Scalar,
    t_max: Scalar,
)
    requires
        is_nearest(hit, a, ray, t_min, t_max),
        a.to_multiset() == b.to_multiset(),
    ensures
        is_nearest(hit, b, ray, t_min, t_max),
{
    assert forall|i: int| 0 <= i < b.len() implies exists|j: int|
        0 <= j < a.len() && #[trigger] a[j] == #[trigger] b[i] by {
        assert(b.contains(b[i]));
        to_multiset_contains(b, b[i]);
        to_multiset_contains(a, b[i]);
    }
    match hit {
        Some(record) => {
            let found = choose|i: int|
                0 <= i < a.len() && within(first_hit(#[trigger] a[i], ray, t_min), t_max) == hit;
            assert(a.contains(a[found]));
            to_multiset_contains(a, a[found]);
            to_multiset_contains(b, a[found]);
            let found_in_b = choose|j: int| 0 <= j < b.len() && b[j] == a[found];
            assert(within(first_hit(b[found_in_b], ray, t_min), t_max) == hit);
            assert forall|i: int|
                0 <= i < b.len() && within(first_hit(#[trigger] b[i], ray, t_min), t_max)
                    is Some implies record.time.rank() <= first_hit(b[i], ray, t_min)->0.time.rank() by {
                let j = choose|j: int| 0 <= j < a.len() && #[trigger] a[j] == b[i];
                assert(within(first_hit(a[j], ray, t_min), t_max) is Some);
            }
        },
        None => {
            assert forall|i: int| 0 <= i < b.len() implies within(
                first_hit(#[trigger] b[i], ray, t_min),
                t_max,
            ) is None by {
                let j = choose|j: int| 0 <= j < a.len() && #[trigger] a[j] == b[i];
                assert(within(first_hit(a[j], ray, t_min), t_max) is None);
            }
        },
    }
}

/// What fits the search of some objects fits the search of the same objects
/// in any other order.
proof fn lemma_crossable_in_any_order<H: Hittable>(a: Seq<H>, b: Seq<H>, ray: Ray, t_min: Scalar)
    requires
        crossable(a, ray, t_min),
        a.to_multiset() == b.to_multiset(),
    ensures
        crossable(b, ray, t_min),
{
    assert forall|i: int| 0 <= i < b.len() implies steady(#[trigger] b[i], ray, t_min) && box_holds(
        b[i],
        ray,
        t_min,
    ) && b[i].box_model().is_number() by {
        assert(b.contains(b[i]));
        to_multiset_contains(b, b[i]);
        to_multiset_contains(a, b[i]);
        let j = choose|j: int| 0 <= j < a.len() && a[j] == b[i];
        assert(steady(a[j], ray, t_min));
    }
}

/// The search of a hierarchy finds what the search of the plain list finds.
///
/// Take a hierarchy over the objects of a list, and a ray for which the
/// objects are [`searchable`]. Then both searches leave the generator alone;
/// each returns the nearest hit of the ray on the objects within the bounds,
/// or nothing where there is none; the two hits are at the same time; and
/// where objects hit at the same time are hit at the same point, the two hits
/// are at the same point.
pub proof fn law_hierarchy_finds_what_the_list_finds<'a, H: Hittable>(
    tree: BoundingVolumeHierarchy<'a, H>,
    world: HittableList<H>,
    ray: Ray,
    t_min: Scalar,
    t_max: Scalar,
    rng: u64,
)
    requires
        tree.wf(),
        tree.leaves().to_multiset() == world@.to_multiset(),
        searchable(world@, ray, t_min),
        !t_max.nan(),
    ensures
        ({
            let in_tree = tree.hit_model(ray, t_min, t_max, rng);
            let in_list = world.hit_model(ray, t_min, t_max, rng);
            &&& in_tree.1 == rng
            &&& in_list.1 == rng
            &&& is_nearest(in_tree.0, world@, ray, t_min, t_max)
            &&& is_nearest(in_list.0, world@, ray, t_min, t_max)
            &&& in_tree.0 is Some <==> in_list.0 is Some
            &&& in_tree.0 is Some ==> in_tree.0->0.time.rank() == in_list.0->0.time.rank()
            &&& in_tree.0 is Some && points_follow_times(world@, ray, t_min) ==> in_tree.0->0.point
                == in_list.0->0.point
        }),
{
    let objects = world@;
    lemma_searchable_is_crossable(objects, ray, t_min);
    lemma_crossable_in_any_order(objects, tree.leaves(), ray, t_min);
    tree.lemma_traversal_is_nearest(ray, t_min, t_max, rng);
    let in_tree = tree.traversal(ray, t_min, t_max, rng).0;
    lemma_nearest_in_any_order(in_tree, tree.leaves(), objects, ray, t_min, t_max);
    assert(objects.subrange(0, 0) =~= Seq::<H>::empty());
    lemma_scan_is_nearest(objects, 0, ray, t_min, t_max, t_max, None, rng);
    let in_list = crate::hittable::hittable_list::scan(objects, 0, ray, t_min, t_max, None, rng).0;
    match in_tree {
        Some(tree_record) => {
            let i = choose|i: int|
                0 <= i < objects.len() && within(first_hit(#[trigger] objects[i], ray, t_min), t_max)
                    == in_tree;
            match in_list {
                Some(list_record) => {
                    let j = choose|j: int|
                        0 <= j < objects.len() && within(
                            first_hit(#[trigger] objects[j], ray, t_min),
                            t_max,
                        ) == in_list;
                    assert(within(first_hit(objects[i], ray, t_min), t_max) is Some);
                    assert(within(first_hit(objects[j], ray, t_min), t_max) is Some);
                },
                None => {
                    assert(within(first_hit(objects[i], ray, t_min), t_max) is None);
                },
            }
        },
        None => {
            match in_list {
                Some(list_record) => {
                    let j = choose|j: int|
                        0 <= j < objects.len() && within(
                            first_hit(#[trigger] objects[j], ray, t_min),
                            t_max,
                        ) == in_list;
                    assert(within(first_hit(objects[j], ray, t_min), t_max) is None);
                },
                None => {},
            }
        },
    }
}

} // verus!
