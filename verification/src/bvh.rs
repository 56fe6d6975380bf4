//! The bounding-volume hierarchy: a binary tree of nested boxes over the objects of a scene,
//! which answers nearest-hit queries without testing every object.

use vstd::arithmetic::power2::{lemma2_to64, lemma_pow2_strictly_increases, lemma_pow2_unfold, pow2};
use vstd::prelude::*;
use vstd::seq_lib::*;
use crate::aabb::Aabb;
use crate::hittable::{
    all_behave,
    behaves,
    cut,
    hits_within,
    is_closest_hit,
    lemma_closest_hit_permuted,
    reports_nearest,
    Boundable,
    HitRecord,
};
use crate::order::{
    keys_of,
    lemma_lists_all,
    lemma_reorder_permutes,
    lemma_stable_order,
    reorder,
    reversed,
    stable_order,
    stable_sort,
    Keyed,
};
use crate::ray::Ray;

verus! {

/// Why a hierarchy could not be built.
#[derive(Clone, Copy, Debug, PartialEq, Eq, Structural)]
pub enum BuildError {
    /// The list of objects was empty.
    EmptyScene,
    /// One of the objects has no bounding box.
    MissingBoundingBox,
}

enum BVHNode<T> {
    Branch { left: Box<BVH<T>>, right: Box<BVH<T>> },
    Leaf(T),
}

/// A node of the hierarchy with the box that bounds everything below it.
pub struct BVH<T> {
    tree: BVHNode<T>,
    bbox: Aabb,
}

/// The boxes of a tree, level by level: what is left of a hierarchy without its objects.
pub enum Outline {
    Leaf(Aabb),
    Branch(Box<Outline>, Box<Outline>, Aabb),
}

impl Outline {
    /// The box at the root.
    pub open spec fn bounds(self) -> Aabb {
        match self {
            Outline::Leaf(bbox) => bbox,
            Outline::Branch(_, _, bbox) => bbox,
        }
    }
}

/// The boxes that the objects report for a time interval.
pub open spec fn boxes_of<T: Boundable>(objects: Seq<T>, time0: i64, time1: i64) -> Seq<Aabb> {
    Seq::new(objects.len(), |i: int| objects[i].spec_bounding_box(time0, time1).unwrap())
}

/// Whether every object reports a box for the time interval.
pub open spec fn all_bounded<T: Boundable>(objects: Seq<T>, time0: i64, time1: i64) -> bool {
    forall|i: int|
        0 <= i < objects.len() ==> (#[trigger] objects[i]).spec_bounding_box(time0, time1) is Some
}

/// The smallest box that holds all the boxes.
pub open spec fn hull(boxes: Seq<Aabb>) -> Aabb
    decreases boxes.len(),
{
    if boxes.len() <= 1 {
        boxes[0]
    } else {
        hull(boxes.drop_last()).union(boxes.last())
    }
}

/// The length of a box along an axis.
pub open spec fn extent(bbox: Aabb, axis: int) -> int {
    bbox.hi(axis) - bbox.lo(axis)
}

/// The axis along which a box is longest; the first of them where several are.
pub open spec fn widest_axis(bbox: Aabb) -> int {
    if extent(bbox, 0) >= extent(bbox, 1) && extent(bbox, 0) >= extent(bbox, 2) {
        0
    } else if extent(bbox, 1) >= extent(bbox, 2) {
        1
    } else {
        2
    }
}

/// For each box the sum of its least and greatest coordinate on an axis: twice its centre.
pub open spec fn centroid_keys(boxes: Seq<Aabb>, axis: int) -> Seq<int> {
    Seq::new(boxes.len(), |i: int| boxes[i].lo(axis) + boxes[i].hi(axis))
}

/// The order in which a node lines its objects up before it splits them: along the widest
/// axis of their hull by centre, objects with the same centre in the order they came in.
pub open spec fn split_order(boxes: Seq<Aabb>) -> Seq<int> {
    stable_order(centroid_keys(boxes, widest_axis(hull(boxes))))
}

/// The boxes of the hierarchy over objects with these boxes. One box makes a leaf. More are
/// lined up in `split_order` and split at the midpoint: the first half, rounded down, goes
/// left, the rest right, and the node's box is the union of its children's.
pub open spec fn outline_of(boxes: Seq<Aabb>) -> Outline
    decreases boxes.len(),
{
    if boxes.len() <= 1 {
        Outline::Leaf(boxes[0])
    } else {
        let sorted = reorder(boxes, split_order(boxes));
        let mid = boxes.len() as int / 2;
        let left = outline_of(sorted.subrange(0, mid));
        let right = outline_of(sorted.subrange(mid, sorted.len() as int));
        Outline::Branch(Box::new(left), Box::new(right), left.bounds().union(right.bounds()))
    }
}

/// The objects in the order of the leaves of the hierarchy over them, from left to right.
pub open spec fn leaf_order<T>(objects: Seq<T>, boxes: Seq<Aabb>) -> Seq<T>
    decreases boxes.len(),
{
    if boxes.len() <= 1 {
        objects.subrange(0, 1)
    } else {
        let order = split_order(boxes);
        let sorted = reorder(boxes, order);
        let lined = reorder(objects, order);
        let mid = boxes.len() as int / 2;
        leaf_order(lined.subrange(0, mid), sorted.subrange(0, mid)) + leaf_order(
            lined.subrange(mid, lined.len() as int),
            sorted.subrange(mid, sorted.len() as int),
        )
    }
}

impl BuildError {
    /// The error in words.
    pub fn message(&self) -> (text: String)
        ensures
            text@ == (match *self {
                BuildError::EmptyScene => "no elements in scene"@,
                BuildError::MissingBoundingBox => "no bounding box in bvh node"@,
            }),
    {
        match self {
            BuildError::EmptyScene => "no elements in scene".to_string(),
            BuildError::MissingBoundingBox => "no bounding box in bvh node".to_string(),
        }
    }
}

/// The hull of the boxes.
fn hull_of(boxes: &Vec<Aabb>) -> (all: Aabb)
    requires
        boxes.len() >= 1,
    ensures
        all == hull(boxes@),
{
    let mut all = boxes[0];
    let mut i: usize = 1;
    assert(boxes@.subrange(0, 1).len() == 1);
    while i < boxes.len()
        invariant
            1 <= i <= boxes.len(),
            all == hull(boxes@.subrange(0, i as int)),
        decreases boxes.len() - i,
    {
        assert(boxes@.subrange(0, i + 1).drop_last() =~= boxes@.subrange(0, i as int));
        all = Aabb::surrounding_box(&all, &boxes[i]);
        i += 1;
    }
    assert(boxes@.subrange(0, i as int) =~= boxes@);
    all
}

/// The axis along which the box is longest.
fn widest_axis_of(bbox: &Aabb) -> (axis: usize)
    ensures
        axis == widest_axis(*bbox),
        axis < 3,
{
    let ex: i128 = bbox.max.x as i128 - bbox.min.x as i128;
    let ey: i128 = bbox.max.y as i128 - bbox.min.y as i128;
    let ez: i128 = bbox.max.z as i128 - bbox.min.z as i128;
    if ex >= ey && ex >= ez {
        0
    } else if ey >= ez {
        1
    } else {
        2
    }
}

/// Lines objects and their boxes up by centre along an axis, keeping the order of those with
/// the same centre.
fn sort_by_centroid<T>(objects: Vec<T>, boxes: Vec<Aabb>, axis: usize) -> (sorted: (
    Vec<T>,
    Vec<Aabb>,
))
    requires
        objects.len() == boxes.len(),
        axis < 3,
    ensures
        sorted.0@ == reorder(objects@, stable_order(centroid_keys(boxes@, axis as int))),
        sorted.1@ == reorder(boxes@, stable_order(centroid_keys(boxes@, axis as int))),
{
    let ghost keys = centroid_keys(boxes@, axis as int);
    let ghost objects0 = objects@;
    let ghost boxes0 = boxes@;
    let ghost n = objects0.len() as int;
    let mut objects = objects;
    let mut boxes = boxes;
    // pair every object with its box and its key, the last object first
    let mut backwards: Vec<Keyed<(T, Aabb)>> = Vec::new();
    while objects.len() > 0
        invariant
            n == objects0.len(),
            n == boxes0.len(),
            keys == centroid_keys(boxes0, axis as int),
            axis < 3,
            objects.len() == boxes.len(),
            objects.len() <= n,
            objects@ == objects0.subrange(0, objects.len() as int),
            boxes@ == boxes0.subrange(0, boxes.len() as int),
            backwards.len() == n - objects.len(),
            forall|i: int|
                0 <= i < backwards.len() ==> {
                    &&& (#[trigger] backwards[i]).key == keys[n - 1 - i]
                    &&& backwards[i].item.0 == objects0[n - 1 - i]
                    &&& backwards[i].item.1 == boxes0[n - 1 - i]
                },
        decreases objects.len(),
    {
        let object = objects.pop().unwrap();
        let bbox = boxes.pop().unwrap();
        let key: i128 = bbox.min.axis(axis) as i128 + bbox.max.axis(axis) as i128;
        backwards.push(Keyed { key, item: (object, bbox) });
    }
    let paired = reversed(backwards);
    let ghost paired0 = paired@;
    assert(keys_of(paired0) =~= keys);
    let ghost order = stable_order(keys);
    proof {
        lemma_stable_order(keys);
    }
    let mut lined = stable_sort(paired);
    // part the objects from the boxes again, the last pair first
    let mut objects_backwards: Vec<T> = Vec::new();
    let mut boxes_backwards: Vec<Aabb> = Vec::new();
    while lined.len() > 0
        invariant
            n == objects0.len(),
            n == boxes0.len(),
            order.len() == n,
            lined.len() <= n,
            forall|i: int| 0 <= i < n ==> 0 <= #[trigger] order[i] < n,
            forall|i: int|
                0 <= i < lined.len() ==> {
                    &&& (#[trigger] lined[i]).item.0 == objects0[order[i]]
                    &&& lined[i].item.1 == boxes0[order[i]]
                },
            objects_backwards.len() == n - lined.len(),
            boxes_backwards.len() == n - lined.len(),
            forall|i: int|
                0 <= i < objects_backwards.len() ==> #[trigger] objects_backwards[i]
                    == objects0[order[n - 1 - i]],
            forall|i: int|
                0 <= i < boxes_backwards.len() ==> #[trigger] boxes_backwards[i]
                    == boxes0[order[n - 1 - i]],
        decreases lined.len(),
    {
        let pair = lined.pop().unwrap();
        let Keyed { key: _, item } = pair;
        objects_backwards.push(item.0);
        boxes_backwards.push(item.1);
    }
    let out_objects = reversed(objects_backwards);
    let out_boxes = reversed(boxes_backwards);
    assert(out_objects@ =~= reorder(objects0, order));
    assert(out_boxes@ =~= reorder(boxes0, order));
    (out_objects, out_boxes)
}

impl<T> BVH<T> {
    /// The box that bounds everything below this node.
    pub closed spec fn bounds(self) -> Aabb {
        self.bbox
    }

    /// Whether this node holds an object rather than two children.
    pub closed spec fn is_leaf(self) -> bool {
        self.tree is Leaf
    }

    /// The object of a leaf.
    pub closed spec fn object(self) -> T {
        self.tree->0
    }

    /// The left child of a node that is no leaf.
    pub closed spec fn left(self) -> BVH<T> {
        *self.tree->left
    }

    /// The right child of a node that is no leaf.
    pub closed spec fn right(self) -> BVH<T> {
        *self.tree->right
    }

    /// The objects at the leaves, from left to right.
    pub closed spec fn leaves(self) -> Seq<T>
        decreases self,
    {
        match self.tree {
            BVHNode::Leaf(object) => seq![object],
            BVHNode::Branch { left, right } => left.leaves() + right.leaves(),
        }
    }

    /// The boxes of the tree, level by level.
    pub closed spec fn outline(self) -> Outline
        decreases self,
    {
        match self.tree {
            BVHNode::Leaf(_) => Outline::Leaf(self.bbox),
            BVHNode::Branch { left, right } => Outline::Branch(
                Box::new(left.outline()),
                Box::new(right.outline()),
                self.bbox,
            ),
        }
    }

    /// Whether `node` is this node or lies below it.
    pub closed spec fn has_node(self, node: BVH<T>) -> bool
        decreases self,
    {
        self == node || match self.tree {
            BVHNode::Leaf(_) => false,
            BVHNode::Branch { left, right } => left.has_node(node) || right.has_node(node),
        }
    }

    /// Whether the box of every node that is no leaf is the union of its children's boxes.
    pub closed spec fn boxes_nest(self) -> bool
        decreases self,
    {
        match self.tree {
            BVHNode::Leaf(_) => true,
            BVHNode::Branch { left, right } => {
                &&& self.bbox == left.bbox.union(right.bbox)
                &&& left.boxes_nest()
                &&& right.boxes_nest()
            },
        }
    }

    /// The number of steps from this node down to its deepest leaf.
    pub closed spec fn height(self) -> nat
        decreases self,
    {
        match self.tree {
            BVHNode::Leaf(_) => 0,
            BVHNode::Branch { left, right } => if left.height() >= right.height() {
                1 + left.height()
            } else {
                1 + right.height()
            },
        }
    }

    /// The number of nodes, this one and all below it.
    pub closed spec fn node_count(self) -> nat
        decreases self,
    {
        match self.tree {
            BVHNode::Leaf(_) => 1,
            BVHNode::Branch { left, right } => 1 + left.node_count() + right.node_count(),
        }
    }

    /// The hierarchy over the objects with their boxes.
    pub closed spec fn built(objects: Seq<T>, boxes: Seq<Aabb>) -> BVH<T>
        decreases boxes.len(),
    {
        if boxes.len() <= 1 {
            BVH { tree: BVHNode::Leaf(objects[0]), bbox: boxes[0] }
        } else {
            let order = split_order(boxes);
            let sorted = reorder(boxes, order);
            let lined = reorder(objects, order);
            let mid = boxes.len() as int / 2;
            let left = Self::built(lined.subrange(0, mid), sorted.subrange(0, mid));
            let right = Self::built(
                lined.subrange(mid, lined.len() as int),
                sorted.subrange(mid, sorted.len() as int),
            );
            BVH {
                tree: BVHNode::Branch { left: Box::new(left), right: Box::new(right) },
                bbox: left.bbox.union(right.bbox),
            }
        }
    }

    /// The box that bounds everything below this node.
    pub fn bbox(&self) -> (bbox: Aabb)
        ensures
            bbox == self.bounds(),
    {
        self.bbox
    }

    /// The object of this node, where it is a leaf.
    pub fn leaf(&self) -> (object: Option<&T>)
        ensures
            object is Some <==> self.is_leaf(),
            object matches Some(o) ==> *o == self.object(),
    {
        match &self.tree {
            BVHNode::Leaf(object) => Some(object),
            BVHNode::Branch { .. } => None,
        }
    }

    /// The left and the right child of this node, where it is no leaf.
    pub fn children(&self) -> (pair: Option<(&BVH<T>, &BVH<T>)>)
        ensures
            pair is Some <==> !self.is_leaf(),
            pair matches Some((left, right)) ==> *left == self.left() && *right == self.right(),
    {
        match &self.tree {
            BVHNode::Leaf(_) => None,
            BVHNode::Branch { left, right } => Some((&**left, &**right)),
        }
    }

    /// The hierarchy over objects whose boxes are known.
    fn build(objects: Vec<T>, boxes: Vec<Aabb>) -> (node: BVH<T>)
        requires
            objects.len() == boxes.len(),
            objects.len() >= 1,
        ensures
            node == Self::built(objects@, boxes@),
        decreases boxes.len(),
    {
        let len = objects.len();
        let mut objects = objects;
        let mut boxes = boxes;
        if len == 1 {
            let leaf = objects.pop().unwrap();
            let bbox = boxes.pop().unwrap();
            BVH { tree: BVHNode::Leaf(leaf), bbox }
        } else {
            let all = hull_of(&boxes);
            let axis = widest_axis_of(&all);
            let (mut left_objects, mut left_boxes) = sort_by_centroid(objects, boxes, axis);
            let right_objects = left_objects.split_off(len / 2);
            let right_boxes = left_boxes.split_off(len / 2);
            let right = Self::build(right_objects, right_boxes);
            let left = Self::build(left_objects, left_boxes);
            let bbox = Aabb::surrounding_box(&left.bbox, &right.bbox);
            BVH { tree: BVHNode::Branch { left: Box::new(left), right: Box::new(right) }, bbox }
        }
    }
}

impl<T: Boundable> BVH<T> {
    /// Whether the box of every leaf is the box that its object reports for the time
    /// interval, and the box of every other node the union of its children's boxes.
    pub closed spec fn well_formed(self, time0: i64, time1: i64) -> bool
        decreases self,
    {
        match self.tree {
            BVHNode::Leaf(object) => object.spec_bounding_box(time0, time1) == Some(self.bbox),
            BVHNode::Branch { left, right } => {
                &&& self.bbox == left.bbox.union(right.bbox)
                &&& left.well_formed(time0, time1)
                &&& right.well_formed(time0, time1)
            },
        }
    }

    /// Builds the hierarchy over the objects, with the boxes that they report for the time
    /// interval. An empty list and an object without a box are refused.
    ///
    /// The hierarchy is `built`: its boxes are those of `outline_of`, its leaves hold the
    /// objects, each once, in `leaf_order`, every box holds the boxes below it, and its
    /// height is the logarithm of the number of objects.
    pub fn new(hitable: Vec<T>, time0: i64, time1: i64) -> (result: Result<BVH<T>, BuildError>)
        ensures
            match result {
                Ok(tree) => {
                    &&& hitable.len() > 0
                    &&& all_bounded(hitable@, time0, time1)
                    &&& tree == Self::built(hitable@, boxes_of(hitable@, time0, time1))
                    &&& tree.outline() == outline_of(boxes_of(hitable@, time0, time1))
                    &&& tree.leaves() == leaf_order(hitable@, boxes_of(hitable@, time0, time1))
                    &&& tree.leaves().to_multiset() == hitable@.to_multiset()
                    &&& tree.boxes_nest()
                    &&& tree.well_formed(time0, time1)
                    &&& forall|node: BVH<T>| #[trigger]
                        tree.has_node(node) ==> tree.bounds().contains(node.bounds())
                    &&& tree.node_count() == 2 * hitable.len() - 1
                    &&& hitable.len() <= pow2(tree.height()) < 2 * hitable.len()
                },
                Err(BuildError::EmptyScene) => hitable.len() == 0,
                Err(BuildError::MissingBoundingBox) => hitable.len() > 0 && !all_bounded(
                    hitable@,
                    time0,
                    time1,
                ),
            },
    {
        if hitable.len() == 0 {
            return Err(BuildError::EmptyScene);
        }
        let mut boxes: Vec<Aabb> = Vec::new();
        let mut i: usize = 0;
        while i < hitable.len()
            invariant
                i <= hitable.len(),
                boxes.len() == i,
                forall|j: int|
                    0 <= j < i ==> (#[trigger] hitable@[j]).spec_bounding_box(time0, time1)
                        == Some(boxes@[j]),
            decreases hitable.len() - i,
        {
            match hitable[i].bounding_box(time0, time1) {
                Some(bbox) => {
                    boxes.push(bbox);
                },
                None => {
                    return Err(BuildError::MissingBoundingBox);
                },
            }
            i += 1;
        }
        proof {
            assert(boxes@ =~= boxes_of(hitable@, time0, time1));
            Self::lemma_built(hitable@, boxes@);
            Self::lemma_built_well_formed(hitable@, boxes@, time0, time1);
            Self::lemma_built_is_balanced(hitable@, boxes@);
            let tree = Self::built(hitable@, boxes@);
            assert forall|node: BVH<T>| #[trigger]
                tree.has_node(node) implies tree.bounds().contains(node.bounds()) by {
                tree.lemma_containment(node);
            }
        }
        Ok(Self::build(hitable, boxes))
    }

    /// The hierarchy over objects that report these boxes is well formed.
    proof fn lemma_built_well_formed(objects: Seq<T>, boxes: Seq<Aabb>, time0: i64, time1: i64)
        requires
            objects.len() == boxes.len(),
            objects.len() >= 1,
            forall|i: int|
                0 <= i < objects.len() ==> (#[trigger] objects[i]).spec_bounding_box(time0, time1)
                    == Some(boxes[i]),
        ensures
            Self::built(objects, boxes).well_formed(time0, time1),
        decreases boxes.len(),
    {
        if boxes.len() > 1 {
            let order = split_order(boxes);
            lemma_stable_order(centroid_keys(boxes, widest_axis(hull(boxes))));
            let sorted = reorder(boxes, order);
            let lined = reorder(objects, order);
            let mid = boxes.len() as int / 2;
            Self::lemma_built_well_formed(
                lined.subrange(0, mid),
                sorted.subrange(0, mid),
                time0,
                time1,
            );
            Self::lemma_built_well_formed(
                lined.subrange(mid, lined.len() as int),
                sorted.subrange(mid, sorted.len() as int),
                time0,
                time1,
            );
        }
    }
}

impl<T> BVH<T> {
    /// What `built` builds: a tree with the boxes of `outline_of`, with the objects at its
    /// leaves in `leaf_order`, each as often as it was given, and with nested boxes.
    pub proof fn lemma_built(objects: Seq<T>, boxes: Seq<Aabb>)
        requires
            objects.len() == boxes.len(),
            objects.len() >= 1,
        ensures
            Self::built(objects, boxes).outline() == outline_of(boxes),
            Self::built(objects, boxes).outline().bounds() == Self::built(objects, boxes).bounds(),
            Self::built(objects, boxes).leaves() == leaf_order(objects, boxes),
            Self::built(objects, boxes).leaves().to_multiset() == objects.to_multiset(),
            Self::built(objects, boxes).boxes_nest(),
        decreases boxes.len(),
    {
        broadcast use group_to_multiset_ensures;

        if boxes.len() > 1 {
            let keys = centroid_keys(boxes, widest_axis(hull(boxes)));
            let order = split_order(boxes);
            let sorted = reorder(boxes, order);
            let lined = reorder(objects, order);
            let mid = boxes.len() as int / 2;
            let n = boxes.len() as int;
            Self::lemma_built(lined.subrange(0, mid), sorted.subrange(0, mid));
            Self::lemma_built(lined.subrange(mid, n), sorted.subrange(mid, n));
            lemma_reorder_permutes(objects, keys);
            let left = Self::built(lined.subrange(0, mid), sorted.subrange(0, mid));
            let right = Self::built(lined.subrange(mid, n), sorted.subrange(mid, n));
            assert(lined =~= lined.subrange(0, mid) + lined.subrange(mid, n));
            lemma_multiset_commutative(lined.subrange(0, mid), lined.subrange(mid, n));
            lemma_multiset_commutative(left.leaves(), right.leaves());
        } else {
            assert(objects.subrange(0, 1) =~= seq![objects[0]]);
            assert(objects =~= seq![objects[0]]);
        }
    }

    /// How `built` builds. Over one object it is a leaf with that object and its box. Over
    /// more it is no leaf: the objects are lined up in `split_order` of their boxes, the left
    /// child is built over the first half of them, rounded down, and the right child over
    /// the rest.
    pub proof fn lemma_built_unfolds(objects: Seq<T>, boxes: Seq<Aabb>)
        requires
            objects.len() == boxes.len(),
            objects.len() >= 1,
        ensures
            boxes.len() == 1 ==> {
                &&& Self::built(objects, boxes).is_leaf()
                &&& Self::built(objects, boxes).object() == objects[0]
                &&& Self::built(objects, boxes).bounds() == boxes[0]
            },
            boxes.len() > 1 ==> {
                let lined = reorder(objects, split_order(boxes));
                let sorted = reorder(boxes, split_order(boxes));
                let mid = boxes.len() as int / 2;
                let len = boxes.len() as int;
                &&& !Self::built(objects, boxes).is_leaf()
                &&& Self::built(objects, boxes).left() == Self::built(
                    lined.subrange(0, mid),
                    sorted.subrange(0, mid),
                )
                &&& Self::built(objects, boxes).right() == Self::built(
                    lined.subrange(mid, len),
                    sorted.subrange(mid, len),
                )
                &&& Self::built(objects, boxes).bounds() == Self::built(
                    objects,
                    boxes,
                ).left().bounds().union(Self::built(objects, boxes).right().bounds())
            },
    {
    }

    /// Balance: the hierarchy over `n` objects has `2 n - 1` nodes, and its height is the
    /// least `h` with `n <= 2^h`.
    pub proof fn lemma_built_is_balanced(objects: Seq<T>, boxes: Seq<Aabb>)
        requires
            objects.len() == boxes.len(),
            objects.len() >= 1,
        ensures
            Self::built(objects, boxes).node_count() == 2 * boxes.len() - 1,
            boxes.len() <= pow2(Self::built(objects, boxes).height()),
            pow2(Self::built(objects, boxes).height()) < 2 * boxes.len(),
        decreases boxes.len(),
    {
        let tree = Self::built(objects, boxes);
        if boxes.len() > 1 {
            let order = split_order(boxes);
            let sorted = reorder(boxes, order);
            let lined = reorder(objects, order);
            let mid = boxes.len() as int / 2;
            let n = boxes.len() as int;
            let left = Self::built(lined.subrange(0, mid), sorted.subrange(0, mid));
            let right = Self::built(lined.subrange(mid, n), sorted.subrange(mid, n));
            Self::lemma_built_is_balanced(lined.subrange(0, mid), sorted.subrange(0, mid));
            Self::lemma_built_is_balanced(lined.subrange(mid, n), sorted.subrange(mid, n));
            let hl = left.height();
            let hr = right.height();
            lemma_pow2_unfold((1 + hl) as nat);
            lemma_pow2_unfold((1 + hr) as nat);
            // the right half is the larger one, and no shallower than the left
            if hl > hr {
                lemma_pow2_unfold(hr + 1);
                if hl > hr + 1 {
                    lemma_pow2_strictly_increases(hr + 1, hl);
                }
                assert(pow2(hl) >= 2 * pow2(hr));
            }
            assert(tree.height() == 1 + hr);
            // an odd n is no power of two
            if n % 2 == 1 && hr > 0 {
                lemma_pow2_unfold(hr);
            }
        } else {
            lemma2_to64();
        }
    }

    /// Over boxes that are well formed, the box of every node is well formed.
    pub proof fn lemma_built_boxes_well_formed(objects: Seq<T>, boxes: Seq<Aabb>, node: BVH<T>)
        requires
            objects.len() == boxes.len(),
            objects.len() >= 1,
            forall|i: int| 0 <= i < boxes.len() ==> (#[trigger] boxes[i]).well_formed(),
            Self::built(objects, boxes).has_node(node),
        ensures
            node.bounds().well_formed(),
        decreases boxes.len(),
    {
        let tree = Self::built(objects, boxes);
        if boxes.len() > 1 {
            let keys = centroid_keys(boxes, widest_axis(hull(boxes)));
            let order = split_order(boxes);
            lemma_stable_order(keys);
            let sorted = reorder(boxes, order);
            let lined = reorder(objects, order);
            let mid = boxes.len() as int / 2;
            let n = boxes.len() as int;
            let left = Self::built(lined.subrange(0, mid), sorted.subrange(0, mid));
            let right = Self::built(lined.subrange(mid, n), sorted.subrange(mid, n));
            if node == tree {
                assert(left.has_node(left));
                assert(right.has_node(right));
                Self::lemma_built_boxes_well_formed(
                    lined.subrange(0, mid),
                    sorted.subrange(0, mid),
                    left,
                );
                Self::lemma_built_boxes_well_formed(
                    lined.subrange(mid, n),
                    sorted.subrange(mid, n),
                    right,
                );
                assert forall|axis: int| 0 <= axis < 3 implies tree.bbox.lo(axis) <= tree.bbox.hi(
                    axis,
                ) by {
                    assert(left.bbox.lo(axis) <= left.bbox.hi(axis));
                    assert(right.bbox.lo(axis) <= right.bbox.hi(axis));
                }
            } else if left.has_node(node) {
                Self::lemma_built_boxes_well_formed(
                    lined.subrange(0, mid),
                    sorted.subrange(0, mid),
                    node,
                );
            } else {
                Self::lemma_built_boxes_well_formed(
                    lined.subrange(mid, n),
                    sorted.subrange(mid, n),
                    node,
                );
            }
        }
    }

    /// Determinism: the boxes of the hierarchy, level by level, depend on nothing but the
    /// boxes that it was built over, in the order in which they were given.
    pub proof fn lemma_build_is_determined(a: Seq<T>, b: Seq<T>, boxes: Seq<Aabb>)
        requires
            a.len() == boxes.len(),
            b.len() == boxes.len(),
            boxes.len() >= 1,
        ensures
            Self::built(a, boxes).outline() == Self::built(b, boxes).outline(),
            Self::built(a, boxes).bounds() == Self::built(b, boxes).bounds(),
    {
        Self::lemma_built(a, boxes);
        Self::lemma_built(b, boxes);
    }

    /// The box at the root holds the box of every object that the hierarchy was built over.
    pub proof fn lemma_root_bounds_all(objects: Seq<T>, boxes: Seq<Aabb>, i: int)
        requires
            objects.len() == boxes.len(),
            0 <= i < boxes.len(),
        ensures
            Self::built(objects, boxes).bounds().contains(boxes[i]),
        decreases boxes.len(),
    {
        if boxes.len() > 1 {
            let keys = centroid_keys(boxes, widest_axis(hull(boxes)));
            let order = split_order(boxes);
            lemma_stable_order(keys);
            lemma_lists_all(keys, order);
            assert(order.contains(i));
            let p = choose|p: int| 0 <= p < order.len() && order[p] == i;
            let sorted = reorder(boxes, order);
            let lined = reorder(objects, order);
            let mid = boxes.len() as int / 2;
            let n = boxes.len() as int;
            let left = Self::built(lined.subrange(0, mid), sorted.subrange(0, mid));
            let right = Self::built(lined.subrange(mid, n), sorted.subrange(mid, n));
            let root = Self::built(objects, boxes);
            Aabb::lemma_union_is_least(left.bbox, right.bbox, root.bbox);
            if p < mid {
                Self::lemma_root_bounds_all(lined.subrange(0, mid), sorted.subrange(0, mid), p);
                Aabb::lemma_contains_transitive(root.bbox, left.bbox, boxes[i]);
            } else {
                Self::lemma_root_bounds_all(
                    lined.subrange(mid, n),
                    sorted.subrange(mid, n),
                    p - mid,
                );
                Aabb::lemma_contains_transitive(root.bbox, right.bbox, boxes[i]);
            }
        } else {
            assert(boxes[0].contains(boxes[0]));
        }
    }

    /// Containment: the box of a node holds the box of every node below it.
    pub proof fn lemma_containment(self, node: BVH<T>)
        requires
            self.boxes_nest(),
            self.has_node(node),
        ensures
            self.bounds().contains(node.bounds()),
        decreases self,
    {
        if self == node {
            assert(self.bounds().contains(self.bounds()));
        } else {
            match self.tree {
                BVHNode::Leaf(_) => {},
                BVHNode::Branch { left, right } => {
                    Aabb::lemma_union_is_least(left.bbox, right.bbox, self.bbox);
                    if left.has_node(node) {
                        left.lemma_containment(node);
                        Aabb::lemma_contains_transitive(self.bbox, left.bbox, node.bbox);
                    } else {
                        right.lemma_containment(node);
                        Aabb::lemma_contains_transitive(self.bbox, right.bbox, node.bbox);
                    }
                },
            }
        }
    }

    /// A node that is no leaf has its children below it, and whatever lies below a child
    /// lies below the node.
    pub proof fn lemma_children(self, node: BVH<T>)
        requires
            !self.is_leaf(),
        ensures
            self.has_node(self),
            self.has_node(self.left()),
            self.has_node(self.right()),
            self.left().has_node(node) || self.right().has_node(node) ==> self.has_node(node),
            self.leaves() == self.left().leaves() + self.right().leaves(),
            self.boxes_nest() ==> self.left().boxes_nest() && self.right().boxes_nest()
                && self.bounds() == self.left().bounds().union(self.right().bounds()),
    {
        assert(self.left().has_node(self.left()));
        assert(self.right().has_node(self.right()));
    }
}

/// The upper bound that is left for the right child once the left child has answered.
pub open spec fn shrunk<M>(left: Option<HitRecord<M>>, t_max: i64) -> i64 {
    match left {
        Some(h) => h.t,
        None => t_max,
    }
}

impl<T: Boundable> Boundable for BVH<T> {
    type Material = T::Material;

    /// The cached box of the root, whatever the time interval.
    open spec fn spec_bounding_box(&self, time0: i64, time1: i64) -> Option<Aabb> {
        Some(self.bounds())
    }

    /// Nothing where the ray misses the node's box. A leaf asks its object. Any other node
    /// asks its left child, then its right child for a hit before the one that the left
    /// child found, and prefers the right child's answer.
    open spec fn spec_hit(&self, ray: Ray, t_min: i64, t_max: i64) -> Option<
        HitRecord<T::Material>,
    >
        decreases self,
    {
        if !self.bounds().crossed_by(ray, t_min as int, t_max as int) {
            None
        } else if self.is_leaf() {
            self.object().spec_hit(ray, t_min, t_max)
        } else {
            let left = self.left().spec_hit(ray, t_min, t_max);
            let right = self.right().spec_hit(ray, t_min, shrunk(left, t_max));
            if right is Some {
                right
            } else {
                left
            }
        }
    }

    fn bounding_box(&self, _time0: i64, _time1: i64) -> (bbox: Option<Aabb>) {
        Some(self.bbox)
    }

    /// The nearest hit of the ray below this node. Where the objects at the leaves behave
    /// for the ray, the answer is a closest hit among the hits that they report one by one.
    fn hit(&self, ray: &Ray, t_min: i64, t_max: i64) -> (found: Option<HitRecord<T::Material>>)
        ensures
            forall|time0: i64, time1: i64|
                #![trigger self.well_formed(time0, time1)]
                self.well_formed(time0, time1) && all_behave(
                    self.leaves(),
                    *ray,
                    t_min,
                    time0,
                    time1,
                ) ==> is_closest_hit(self.leaves(), *ray, t_min, t_max, found),
        decreases self,
    {
        proof {
            assert forall|time0: i64, time1: i64|
                #![trigger self.well_formed(time0, time1)]
                self.well_formed(time0, time1) && all_behave(
                    self.leaves(),
                    *ray,
                    t_min,
                    time0,
                    time1,
                ) implies is_closest_hit(
                self.leaves(),
                *ray,
                t_min,
                t_max,
                self.spec_hit(*ray, t_min, t_max),
            ) by {
                self.lemma_hit_is_closest(*ray, t_min, t_max, time0, time1);
            }
        }
        if self.bbox.hit(ray, t_min, t_max) {
            match &self.tree {
                BVHNode::Leaf(leaf) => leaf.hit(ray, t_min, t_max),
                BVHNode::Branch { left, right } => {
                    let left = left.hit(ray, t_min, t_max);
                    let bound = match &left {
                        Some(l) => l.t,
                        None => t_max,
                    };
                    let right = right.hit(ray, t_min, bound);
                    if right.is_some() {
                        right
                    } else {
                        left
                    }
                },
            }
        } else {
            None
        }
    }
}

impl<T: Boundable> BVH<T> {
    /// Every hit that a leaf's object reports lies inside the box of the node.
    proof fn lemma_leaves_within(self, ray: Ray, t_min: i64, time0: i64, time1: i64)
        requires
            self.well_formed(time0, time1),
            all_behave(self.leaves(), ray, t_min, time0, time1),
        ensures
            forall|i: int|
                0 <= i < self.leaves().len() ==> hits_within(
                    #[trigger] self.leaves()[i],
                    self.bounds(),
                    ray,
                    t_min,
                ),
        decreases self,
    {
        match self.tree {
            BVHNode::Leaf(object) => {
                assert(behaves(self.leaves()[0], ray, t_min, time0, time1));
            },
            BVHNode::Branch { left, right } => {
                let all = self.leaves();
                let l = left.leaves();
                let r = right.leaves();
                assert forall|i: int| 0 <= i < l.len() implies behaves(
                    #[trigger] l[i],
                    ray,
                    t_min,
                    time0,
                    time1,
                ) by {
                    assert(all[i] == l[i]);
                }
                assert forall|i: int| 0 <= i < r.len() implies behaves(
                    #[trigger] r[i],
                    ray,
                    t_min,
                    time0,
                    time1,
                ) by {
                    assert(all[i + l.len()] == r[i]);
                }
                left.lemma_leaves_within(ray, t_min, time0, time1);
                right.lemma_leaves_within(ray, t_min, time0, time1);
                Aabb::lemma_union_is_least(left.bbox, right.bbox, self.bbox);
                assert forall|i: int| 0 <= i < all.len() implies hits_within(
                    #[trigger] all[i],
                    self.bounds(),
                    ray,
                    t_min,
                ) by {
                    let inner = if i < l.len() {
                        left.bbox
                    } else {
                        right.bbox
                    };
                    if i < l.len() {
                        assert(all[i] == l[i]);
                    } else {
                        assert(all[i] == r[i - l.len()]);
                    }
                    assert(hits_within(all[i], inner, ray, t_min));
                    assert forall|t_max: i64| #[trigger]
                        all[i].spec_hit(ray, t_min, t_max) is Some implies self.bbox.holds(
                        ray,
                        all[i].spec_hit(ray, t_min, t_max).unwrap().t as int,
                    ) by {
                        let h = all[i].spec_hit(ray, t_min, t_max).unwrap();
                        Aabb::lemma_holds_grows(inner, self.bbox, ray, h.t as int);
                    }
                }
            },
        }
    }

    /// Correctness of the query on the leaves: where the objects at the leaves behave for a
    /// ray, what the hierarchy answers is a closest hit among the hits that they report one by
    /// one.
    pub proof fn lemma_hit_is_closest(
        self,
        ray: Ray,
        t_min: i64,
        t_max: i64,
        time0: i64,
        time1: i64,
    )
        requires
            self.well_formed(time0, time1),
            all_behave(self.leaves(), ray, t_min, time0, time1),
        ensures
            is_closest_hit(self.leaves(), ray, t_min, t_max, self.spec_hit(ray, t_min, t_max)),
        decreases self,
    {
        let all = self.leaves();
        let found = self.spec_hit(ray, t_min, t_max);
        if !self.bounds().crossed_by(ray, t_min as int, t_max as int) {
            self.lemma_leaves_within(ray, t_min, time0, time1);
            assert forall|i: int| 0 <= i < all.len() implies #[trigger] all[i].spec_hit(
                ray,
                t_min,
                t_max,
            ) is None by {
                let answer = all[i].spec_hit(ray, t_min, t_max);
                assert(behaves(all[i], ray, t_min, time0, time1));
                assert(hits_within(all[i], self.bounds(), ray, t_min));
                if let Some(h) = answer {
                    assert(answer == cut(all[i].spec_hit(ray, t_min, i64::MAX), t_max));
                    assert(self.bounds().holds(ray, h.t as int));
                    assert(t_min < h.t < t_max);
                }
            }
        } else {
            match self.tree {
                BVHNode::Leaf(object) => {
                    assert(all[0].spec_hit(ray, t_min, t_max) == found);
                },
                BVHNode::Branch { left, right } => {
                    let l = left.leaves();
                    let r = right.leaves();
                    assert forall|i: int| 0 <= i < l.len() implies behaves(
                        #[trigger] l[i],
                        ray,
                        t_min,
                        time0,
                        time1,
                    ) by {
                        assert(all[i] == l[i]);
                    }
                    assert forall|i: int| 0 <= i < r.len() implies behaves(
                        #[trigger] r[i],
                        ray,
                        t_min,
                        time0,
                        time1,
                    ) by {
                        assert(all[i + l.len()] == r[i]);
                    }
                    let near = left.spec_hit(ray, t_min, t_max);
                    let bound = shrunk(near, t_max);
                    let far = right.spec_hit(ray, t_min, bound);
                    left.lemma_hit_is_closest(ray, t_min, t_max, time0, time1);
                    right.lemma_hit_is_closest(ray, t_min, bound, time0, time1);
                    assert(found == if far is Some { far } else { near });
                    Self::lemma_join(l, r, ray, t_min, t_max, near, far, time0, time1);
                },
            }
        }
    }

    /// The step of the query at a node with two children: from a closest hit on the left and
    /// a closest hit on the right before it, the one on the right if there is one, else the
    /// one on the left, is a closest hit of both together.
    proof fn lemma_join(
        l: Seq<T>,
        r: Seq<T>,
        ray: Ray,
        t_min: i64,
        t_max: i64,
        near: Option<HitRecord<T::Material>>,
        far: Option<HitRecord<T::Material>>,
        time0: i64,
        time1: i64,
    )
        requires
            all_behave(l, ray, t_min, time0, time1),
            all_behave(r, ray, t_min, time0, time1),
            is_closest_hit(l, ray, t_min, t_max, near),
            is_closest_hit(r, ray, t_min, shrunk(near, t_max), far),
        ensures
            is_closest_hit(l + r, ray, t_min, t_max, if far is Some { far } else { near }),
    {
        let all = l + r;
        let bound = shrunk(near, t_max);
        let found = if far is Some { far } else { near };
        // every answer is the object's first hit, cut at the upper bound
        assert forall|i: int, upper: i64| 0 <= i < all.len() implies #[trigger] all[i].spec_hit(
            ray,
            t_min,
            upper,
        ) == cut(all[i].spec_hit(ray, t_min, i64::MAX), upper) by {
            if i < l.len() {
                assert(all[i] == l[i]);
                assert(behaves(l[i], ray, t_min, time0, time1));
            } else {
                assert(all[i] == r[i - l.len()]);
                assert(behaves(r[i - l.len()], ray, t_min, time0, time1));
            }
        }
        if let Some(h) = near {
            let i = choose|i: int|
                0 <= i < l.len() && #[trigger] l[i].spec_hit(ray, t_min, t_max) == near;
            assert(all[i] == l[i]);
            assert(l[i].spec_hit(ray, t_min, t_max) == cut(
                l[i].spec_hit(ray, t_min, i64::MAX),
                t_max,
            ));
            assert(h.t < t_max);
        }
        assert(bound <= t_max);
        match found {
            Some(h) => {
                if far is Some {
                    let j = choose|j: int|
                        0 <= j < r.len() && #[trigger] r[j].spec_hit(ray, t_min, bound) == far;
                    assert(all[j + l.len()] == r[j]);
                    assert(all[j + l.len()].spec_hit(ray, t_min, bound) == far);
                    assert(all[j + l.len()].spec_hit(ray, t_min, t_max) == found);
                } else {
                    let i = choose|i: int|
                        0 <= i < l.len() && #[trigger] l[i].spec_hit(ray, t_min, t_max) == near;
                    assert(all[i] == l[i]);
                    assert(all[i].spec_hit(ray, t_min, t_max) == found);
                }
                assert forall|k: int| 0 <= k < all.len() implies (#[trigger] all[k].spec_hit(
                    ray,
                    t_min,
                    t_max,
                ) matches Some(g) ==> h.t <= g.t) by {
                    if let Some(g) = all[k].spec_hit(ray, t_min, t_max) {
                        if k < l.len() {
                            assert(all[k] == l[k]);
                            assert(l[k].spec_hit(ray, t_min, t_max) is Some);
                        } else {
                            assert(all[k] == r[k - l.len()]);
                            let before = r[k - l.len()].spec_hit(ray, t_min, bound);
                            assert(before == cut(all[k].spec_hit(ray, t_min, i64::MAX), bound));
                        }
                    }
                }
            },
            None => {
                assert forall|k: int| 0 <= k < all.len() implies #[trigger] all[k].spec_hit(
                    ray,
                    t_min,
                    t_max,
                ) is None by {
                    if k < l.len() {
                        assert(all[k] == l[k]);
                    } else {
                        assert(all[k] == r[k - l.len()]);
                        assert(r[k - l.len()].spec_hit(ray, t_min, bound) is None);
                    }
                }
            },
        }
    }

    /// The nearer of two first hits; the left one where both are equally near.
    pub open spec fn nearer(
        left: Option<HitRecord<T::Material>>,
        right: Option<HitRecord<T::Material>>,
    ) -> Option<HitRecord<T::Material>> {
        match (left, right) {
            (Some(l), Some(r)) => if r.t < l.t {
                right
            } else {
                left
            },
            (None, _) => right,
            (_, None) => left,
        }
    }

    /// Nesting: a hierarchy over objects that behave for a ray behaves for it itself, so that
    /// it can stand as an object in another hierarchy.
    pub proof fn lemma_hierarchy_behaves(
        self,
        ray: Ray,
        t_min: i64,
        time0: i64,
        time1: i64,
        outer0: i64,
        outer1: i64,
    )
        requires
            self.well_formed(time0, time1),
            all_behave(self.leaves(), ray, t_min, time0, time1),
        ensures
            behaves(self, ray, t_min, outer0, outer1),
        decreases self,
    {
        self.lemma_first_hit(ray, t_min, time0, time1);
        assert forall|t_max: i64| #[trigger]
            self.spec_hit(ray, t_min, t_max) is Some implies self.bounds().holds(
            ray,
            self.spec_hit(ray, t_min, t_max).unwrap().t as int,
        ) by {
            assert(self.spec_hit(ray, t_min, t_max) == cut(
                self.spec_hit(ray, t_min, i64::MAX),
                t_max,
            ));
        }
    }

    /// For every upper bound the hierarchy answers with its first hit past the lower bound,
    /// cut at the upper bound; and the first hit lies past the lower bound and inside the
    /// box of the root.
    proof fn lemma_first_hit(self, ray: Ray, t_min: i64, time0: i64, time1: i64)
        requires
            self.well_formed(time0, time1),
            all_behave(self.leaves(), ray, t_min, time0, time1),
        ensures
            reports_nearest(self, ray, t_min),
            self.spec_hit(ray, t_min, i64::MAX) matches Some(h) ==> self.bounds().holds(
                ray,
                h.t as int,
            ) && h.t < i64::MAX,
        decreases self,
    {
        let first = self.spec_hit(ray, t_min, i64::MAX);
        match self.tree {
            BVHNode::Leaf(object) => {
                assert(self.leaves()[0] == object);
                assert(behaves(object, ray, t_min, time0, time1));
                let own = object.spec_hit(ray, t_min, i64::MAX);
                assert(own == cut(own, i64::MAX));
                if let Some(h) = own {
                    assert(self.bbox.holds(ray, h.t as int));
                    assert(first == own);
                }
                assert forall|t_max: i64| #[trigger]
                    self.spec_hit(ray, t_min, t_max) == cut(first, t_max) by {
                    assert(object.spec_hit(ray, t_min, t_max) == cut(own, t_max));
                    if let Some(h) = own {
                        if h.t < t_max {
                            assert(self.bbox.holds(ray, h.t as int));
                        }
                    }
                }
            },
            BVHNode::Branch { left, right } => {
                let all = self.leaves();
                let l = left.leaves();
                let r = right.leaves();
                assert forall|i: int| 0 <= i < l.len() implies behaves(
                    #[trigger] l[i],
                    ray,
                    t_min,
                    time0,
                    time1,
                ) by {
                    assert(all[i] == l[i]);
                }
                assert forall|i: int| 0 <= i < r.len() implies behaves(
                    #[trigger] r[i],
                    ray,
                    t_min,
                    time0,
                    time1,
                ) by {
                    assert(all[i + l.len()] == r[i]);
                }
                left.lemma_first_hit(ray, t_min, time0, time1);
                right.lemma_first_hit(ray, t_min, time0, time1);
                let lf = left.spec_hit(ray, t_min, i64::MAX);
                let rf = right.spec_hit(ray, t_min, i64::MAX);
                let best = Self::nearer(lf, rf);
                Aabb::lemma_union_is_least(left.bbox, right.bbox, self.bbox);
                if let Some(h) = lf {
                    Aabb::lemma_holds_grows(left.bbox, self.bbox, ray, h.t as int);
                }
                if let Some(h) = rf {
                    Aabb::lemma_holds_grows(right.bbox, self.bbox, ray, h.t as int);
                }
                assert forall|t_max: i64| #[trigger]
                    self.spec_hit(ray, t_min, t_max) == cut(best, t_max) by {
                    let near = left.spec_hit(ray, t_min, t_max);
                    assert(near == cut(lf, t_max));
                    let bound = shrunk(near, t_max);
                    assert(right.spec_hit(ray, t_min, bound) == cut(rf, bound));
                    if let Some(h) = cut(best, t_max) {
                        assert(self.bbox.holds(ray, h.t as int));
                        assert(t_min < h.t < t_max);
                    }
                }
                assert(first == cut(best, i64::MAX));
            },
        }
    }

    /// Correctness of the query: where the objects of a scene behave for a ray, the hierarchy
    /// over them answers with a closest hit among the hits that they report when every one of
    /// them is tested by itself.
    pub proof fn lemma_query_is_exhaustive(
        objects: Seq<T>,
        ray: Ray,
        t_min: i64,
        t_max: i64,
        time0: i64,
        time1: i64,
    )
        requires
            objects.len() > 0,
            all_bounded(objects, time0, time1),
            all_behave(objects, ray, t_min, time0, time1),
        ensures
            is_closest_hit(
                objects,
                ray,
                t_min,
                t_max,
                Self::built(objects, boxes_of(objects, time0, time1)).spec_hit(ray, t_min, t_max),
            ),
    {
        broadcast use group_to_multiset_ensures;

        let boxes = boxes_of(objects, time0, time1);
        let tree = Self::built(objects, boxes);
        Self::lemma_built(objects, boxes);
        Self::lemma_built_well_formed(objects, boxes, time0, time1);
        let leaves = tree.leaves();
        assert forall|i: int| 0 <= i < leaves.len() implies behaves(
            #[trigger] leaves[i],
            ray,
            t_min,
            time0,
            time1,
        ) by {
            assert(leaves.contains(leaves[i]));
            to_multiset_contains(leaves, leaves[i]);
            to_multiset_contains(objects, leaves[i]);
            let j = choose|j: int| 0 <= j < objects.len() && objects[j] == leaves[i];
            assert(behaves(objects[j], ray, t_min, time0, time1));
        }
        tree.lemma_hit_is_closest(ray, t_min, t_max, time0, time1);
        lemma_closest_hit_permuted(
            leaves,
            objects,
            ray,
            t_min,
            t_max,
            tree.spec_hit(ray, t_min, t_max),
        );
    }
}

} // verus!
