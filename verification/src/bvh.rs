use vstd::prelude::*;

use crate::geometry::{split_axis, Vec3};
use crate::objects::{Hitable, HitableDirection, HitableList};

verus! {

/// Whether a ray meets a box: `Absent` stands for a child that does not exist.
#[derive(Clone, Copy, Debug, PartialEq, Eq, Structural)]
pub enum Hits {
    Hit,
    Miss,
    Absent,
}

/// Where a ray goes next from a node of the hierarchy.
#[derive(Clone, Copy, Debug, PartialEq, Eq, Structural)]
pub enum HitDirection {
    Left,
    Right,
    Miss,
    End,
    Absent,
}

/// The arithmetic of the space the boxes live in.
///
/// Each answer is a function of the space and the arguments alone:
/// `default_min`, `default_max`, `midpoint` and `same_point` answer as
/// `lower_default`, `upper_default`, `mid` and `same` state. Implementors
/// promise this; nothing here checks it, and nothing is assumed of what the
/// answers are.
pub trait Space<T> {
    /// The answer of `default_min`.
    spec fn lower_default(&self) -> Vec3<T>;

    /// The answer of `default_max`.
    spec fn upper_default(&self) -> Vec3<T>;

    /// The answer of `midpoint` for these points.
    spec fn mid(&self, a: Vec3<T>, b: Vec3<T>) -> Vec3<T>;

    /// The answer of `same_point` for these points.
    spec fn same(&self, a: Vec3<T>, b: Vec3<T>) -> bool;

    /// The lower corner used when the caller gives none.
    fn default_min(&self) -> (r: Vec3<T>)
        ensures
            r == self.lower_default(),
    ;

    /// The upper corner used when the caller gives none.
    fn default_max(&self) -> (r: Vec3<T>)
        ensures
            r == self.upper_default(),
    ;

    /// The point halfway between `a` and `b`.
    fn midpoint(&self, a: Vec3<T>, b: Vec3<T>) -> (r: Vec3<T>)
        ensures
            r == self.mid(a, b),
    ;

    /// Whether `a` and `b` are the same point.
    fn same_point(&self, a: Vec3<T>, b: Vec3<T>) -> (r: bool)
        ensures
            r == self.same(a, b),
    ;
}

/// One step of a ray's walk down the tree, as reported to the ray.
pub enum WalkStep<T> {
    /// How the ray met the box of the node it is at.
    Node(Hits),
    /// How the ray met the box of the node's left child.
    Left(Hits),
    /// How the ray met the box of the node's right child.
    Right(Hits),
    /// Where the ray goes from the node.
    Went(HitDirection),
    /// The ray ended at the leaf with this box, holding this many objects.
    End { min: Vec3<T>, max: Vec3<T>, held: Option<usize> },
}

/// What the hierarchy asks of a ray on its way down the tree.
///
/// Each answer is a function of the ray and the arguments alone:
/// `hits_box` answers as `meets_box` and `left_is_closer` as
/// `prefers_left`. Implementors promise this; nothing here checks it, and
/// nothing is assumed of what the answers are.
pub trait BoxProbe<T> {
    /// The answer of `hits_box` for these arguments.
    spec fn meets_box(&self, min: Vec3<T>, max: Vec3<T>, t_min: T, t_max: T) -> bool;

    /// The answer of `left_is_closer` for these arguments.
    spec fn prefers_left(&self, t: T, left: (Vec3<T>, Vec3<T>), right: (Vec3<T>, Vec3<T>)) -> bool;

    /// Whether the ray meets the box from `min` to `max` for a parameter
    /// between `t_min` and `t_max`.
    fn hits_box(&self, min: Vec3<T>, max: Vec3<T>, t_min: T, t_max: T) -> (r: bool)
        ensures
            r == self.meets_box(min, max, t_min, t_max),
    ;

    /// Whether the point of the ray at parameter `t` is closer to the
    /// `left` box than to the `right` one (each given as `(min, max)`).
    fn left_is_closer(&self, t: T, left: (Vec3<T>, Vec3<T>), right: (Vec3<T>, Vec3<T>)) -> (r:
        bool)
        ensures
            r == self.prefers_left(t, left, right),
    ;

    /// Takes a report of a step of the walk; what it does has no bearing
    /// on the walk. By default it does nothing.
    fn trace(&self, step: WalkStep<T>) {
    }
}

/// One line of the tree diagram of a hierarchy: the drawing that leads up
/// to the node, its box, how many objects lie below it, and, at a leaf, how
/// many it holds.
pub struct OutlineRow<T> {
    pub lead: String,
    pub min: Vec3<T>,
    pub max: Vec3<T>,
    pub hitable_count: usize,
    pub leaf_len: Option<usize>,
}

/// An [`OutlineRow`] as plain values.
pub type RowView<T> = (Seq<char>, Vec3<T>, Vec3<T>, usize, Option<usize>);

impl<T> OutlineRow<T> {
    /// The row as plain values.
    pub open spec fn view(self) -> RowView<T> {
        (self.lead@, self.min, self.max, self.hitable_count, self.leaf_len)
    }
}

/// The rows as plain values.
pub open spec fn rows_view<T>(rows: Seq<OutlineRow<T>>) -> Seq<RowView<T>> {
    rows.map_values(|r: OutlineRow<T>| r@)
}

/// Why a hierarchy could not be built over a list of objects.
pub enum BuildError<H> {
    /// `item` met neither half of the box being split at `depth`.
    Unplaced { depth: i32, item: H },
    /// `item` met both halves of the box being split at `depth`, and its
    /// `closer` named neither.
    Undecided { depth: i32, item: H },
}

impl<H> BuildError<H> {
    /// The object that could not be placed.
    pub open spec fn item(self) -> H {
        match self {
            BuildError::Unplaced { item, .. } => item,
            BuildError::Undecided { item, .. } => item,
        }
    }

    /// The depth of the box that was being split.
    pub open spec fn depth(self) -> i32 {
        match self {
            BuildError::Unplaced { depth, .. } => depth,
            BuildError::Undecided { depth, .. } => depth,
        }
    }
}

/// A node of the bounding-volume hierarchy: the box from `min` to `max`,
/// either halved into two children or, at a leaf, holding its objects.
pub struct Node<T, H> {
    pub min: Vec3<T>,
    pub max: Vec3<T>,
    pub left: Option<Box<Node<T, H>>>,
    pub right: Option<Box<Node<T, H>>>,
    pub hitlist: Option<HitableList<H>>,
    pub hitable_count: usize,
}

/// The corners that halve the box from `min` to `max` at `mid`, along the
/// axis chosen for `depth`: the upper corner of the lower half, and the
/// lower corner of the upper half.
pub open spec fn split_corners<T>(min: Vec3<T>, max: Vec3<T>, mid: Vec3<T>, depth: int) -> (
    Vec3<T>,
    Vec3<T>,
) {
    let axis = split_axis(depth);
    (max.with_coord(axis, mid.coord(axis)), min.with_coord(axis, mid.coord(axis)))
}

/// The elements of `s` whose entry in `sides` equals `keep`, in order.
pub open spec fn select<H>(s: Seq<H>, sides: Seq<bool>, keep: bool) -> Seq<H>
    decreases s.len(),
{
    if s.len() == 0 {
        Seq::empty()
    } else {
        let rest = select(s.drop_last(), sides.drop_last(), keep);
        if sides.last() == keep {
            rest.push(s.last())
        } else {
            rest
        }
    }
}

/// Splitting a sequence in two by `sides` loses and adds nothing.
pub proof fn lemma_select_multiset<H>(s: Seq<H>, sides: Seq<bool>)
    requires
        sides.len() == s.len(),
    ensures
        select(s, sides, true).to_multiset().add(select(s, sides, false).to_multiset())
            =~= s.to_multiset(),
    decreases s.len(),
{
    broadcast use vstd::seq_lib::group_to_multiset_ensures;
    broadcast use vstd::multiset::group_multiset_axioms;

    if s.len() > 0 {
        lemma_select_multiset(s.drop_last(), sides.drop_last());
        assert(s =~= s.drop_last().push(s.last()));
    }
}

/// Where a ray goes from an inner node, given how it meets the left and
/// right children and, when it meets both, whether the left one is closer.
pub open spec fn spec_resolve(left: Hits, right: Hits, left_closer: bool) -> HitDirection {
    match (left, right) {
        (Hits::Hit, Hits::Hit) => if left_closer {
            HitDirection::Left
        } else {
            HitDirection::Right
        },
        (Hits::Hit, _) => HitDirection::Left,
        (_, Hits::Hit) => HitDirection::Right,
        _ => HitDirection::Miss,
    }
}

/// Where a ray goes from an inner node, given how it meets the left and
/// right children (`Absent` for a missing child; at least one exists) and,
/// when it meets both, whether the left one is closer.
pub fn resolve(left: Hits, right: Hits, left_closer: bool) -> (r: HitDirection)
    requires
        !(left == Hits::Absent && right == Hits::Absent),
    ensures
        r == spec_resolve(left, right, left_closer),
{
    match (left, right) {
        (Hits::Miss, Hits::Miss) => HitDirection::Miss,
        (Hits::Absent, Hits::Miss) => HitDirection::Miss,
        (Hits::Miss, Hits::Absent) => HitDirection::Miss,
        (Hits::Absent, Hits::Absent) => HitDirection::Miss,
        (Hits::Hit, Hits::Miss) | (Hits::Hit, Hits::Absent) => HitDirection::Left,
        (Hits::Absent, Hits::Hit) | (Hits::Miss, Hits::Hit) => HitDirection::Right,
        (Hits::Hit, Hits::Hit) => {
            if left_closer {
                HitDirection::Left
            } else {
                HitDirection::Right
            }
        },
    }
}

/// Whether `dst` is, element by element, a clone of `src`.
pub open spec fn clones_of<H: Clone>(src: Seq<H>, dst: Seq<H>) -> bool {
    &&& src.len() == dst.len()
    &&& forall|i: int| 0 <= i < src.len() ==> cloned(#[trigger] src[i], dst[i])
}

/// The depth a hierarchy is built from when the caller gives `depth`.
pub open spec fn start_depth(depth: Option<i32>) -> int {
    match depth {
        Some(d) => d as int,
        None => 1,
    }
}

/// The root corner the hierarchy uses: `given`, or else `default`.
pub open spec fn corner_or<T>(given: Option<Vec3<T>>, default: Vec3<T>) -> Vec3<T> {
    match given {
        Some(c) => c,
        None => default,
    }
}

/// The half an object goes to between the boxes `left` and `right`: the
/// one it meets, the one its `closer` names when it meets both, and `Miss`
/// when it meets neither (or meets both and `closer` names neither).
pub open spec fn side_of<T, H: Hitable<T>>(
    x: H,
    left: (Vec3<T>, Vec3<T>),
    right: (Vec3<T>, Vec3<T>),
) -> HitableDirection {
    let in_left = x.overlaps(left.0, left.1);
    let in_right = x.overlaps(right.0, right.1);
    if in_left && in_right {
        x.prefers(left, right)
    } else if in_left {
        HitableDirection::Left
    } else if in_right {
        HitableDirection::Right
    } else {
        HitableDirection::Miss
    }
}

/// For each object of `list`, whether it goes to the left box.
pub open spec fn sides_of<T, H: Hitable<T>>(
    list: Seq<H>,
    left: (Vec3<T>, Vec3<T>),
    right: (Vec3<T>, Vec3<T>),
) -> Seq<bool> {
    Seq::new(list.len(), |i: int| side_of(list[i], left, right) == HitableDirection::Left)
}

/// Whether every object of `list` goes to one of the two boxes.
pub open spec fn all_placed<T, H: Hitable<T>>(
    list: Seq<H>,
    left: (Vec3<T>, Vec3<T>),
    right: (Vec3<T>, Vec3<T>),
) -> bool {
    forall|i: int| 0 <= i < list.len() ==> side_of(#[trigger] list[i], left, right)
        != HitableDirection::Miss
}

/// Whether a box from `min` to `max` at `depth` holding `count` objects is
/// halved: it holds more than one object, lies above depth 20, and its
/// corners are not the same point.
pub open spec fn splits<T, G: Space<T>>(
    count: int,
    min: Vec3<T>,
    max: Vec3<T>,
    depth: int,
    space: G,
) -> bool {
    count > 1 && depth < 20 && !space.same(min, max)
}

/// The two halves, each `(min, max)`, of the box from `min` to `max` at
/// `depth`: cut at the space's midpoint along the axis chosen for `depth`.
pub open spec fn halves<T, G: Space<T>>(min: Vec3<T>, max: Vec3<T>, depth: int, space: G) -> (
    (Vec3<T>, Vec3<T>),
    (Vec3<T>, Vec3<T>),
) {
    let corners = split_corners(min, max, space.mid(min, max), depth);
    ((min, corners.0), (corners.1, max))
}

/// The position of the first object of `list`, from position `from` on,
/// that goes to neither box; the length of `list` when there is none.
pub open spec fn first_miss_from<T, H: Hitable<T>>(
    list: Seq<H>,
    left: (Vec3<T>, Vec3<T>),
    right: (Vec3<T>, Vec3<T>),
    from: int,
) -> int
    decreases list.len() - from,
{
    if from >= list.len() {
        list.len() as int
    } else if side_of(list[from], left, right) == HitableDirection::Miss {
        from
    } else {
        first_miss_from(list, left, right, from + 1)
    }
}

/// The position of the first object of `list` that goes to neither box.
pub open spec fn first_miss<T, H: Hitable<T>>(
    list: Seq<H>,
    left: (Vec3<T>, Vec3<T>),
    right: (Vec3<T>, Vec3<T>),
) -> int {
    first_miss_from(list, left, right, 0)
}

/// The first object at position `k` or later that goes to neither box is
/// at `k` when the objects from `from` up to `k` all go to a box.
pub proof fn lemma_first_miss<T, H: Hitable<T>>(
    list: Seq<H>,
    left: (Vec3<T>, Vec3<T>),
    right: (Vec3<T>, Vec3<T>),
    from: int,
    k: int,
)
    requires
        0 <= from <= k < list.len(),
        side_of(list[k], left, right) == HitableDirection::Miss,
        forall|j: int|
            from <= j < k ==> side_of(#[trigger] list[j], left, right) != HitableDirection::Miss,
    ensures
        first_miss_from(list, left, right, from) == k,
    decreases k - from,
{
    if from < k {
        lemma_first_miss(list, left, right, from + 1, k);
    }
}

/// How building over `list` in the box from `min` to `max` at `depth`
/// fails, if it does: at the first box, in the order the build visits them
/// (a box, then its lower half, then its upper half), where some object
/// goes to neither half, the first such object in order, whether it meets
/// neither half (rather than meeting both with `closer` naming neither),
/// and that box's depth.
pub open spec fn build_failure<T, H: Hitable<T>, G: Space<T>>(
    list: Seq<H>,
    min: Vec3<T>,
    max: Vec3<T>,
    depth: int,
    space: G,
) -> Option<(H, bool, int)>
    decreases 20 - depth,
{
    if list.len() > 1 && depth < 20 && !space.same(min, max) {
        let (l, r) = halves(min, max, depth, space);
        if !all_placed(list, l, r) {
            let x = list[first_miss(list, l, r)];
            Some((x, !x.overlaps(l.0, l.1) && !x.overlaps(r.0, r.1), depth))
        } else {
            let sides = sides_of(list, l, r);
            match build_failure(select(list, sides, true), l.0, l.1, depth + 1, space) {
                Some(f) => Some(f),
                None => build_failure(select(list, sides, false), r.0, r.1, depth + 1, space),
            }
        }
    } else {
        None
    }
}

/// Whether building over `list` in the box from `min` to `max` at `depth`
/// succeeds: at every box that is halved, every object goes to a half.
pub open spec fn buildable<T, H: Hitable<T>, G: Space<T>>(
    list: Seq<H>,
    min: Vec3<T>,
    max: Vec3<T>,
    depth: int,
    space: G,
) -> bool
    decreases 20 - depth,
{
    if list.len() > 1 && depth < 20 && !space.same(min, max) {
        let (l, r) = halves(min, max, depth, space);
        let sides = sides_of(list, l, r);
        &&& all_placed(list, l, r)
        &&& buildable(select(list, sides, true), l.0, l.1, depth + 1, space)
        &&& buildable(select(list, sides, false), r.0, r.1, depth + 1, space)
    } else {
        true
    }
}

impl<T, H> Node<T, H> {
    /// The objects held in the subtree, leaf by leaf from left to right.
    pub open spec fn items(self) -> Seq<H>
        decreases self,
    {
        let own = match self.hitlist {
            Some(l) => l.list@,
            None => Seq::empty(),
        };
        own + Self::child_items(self.left) + Self::child_items(self.right)
    }

    /// The objects held below an optional child.
    pub open spec fn child_items(child: Option<Box<Node<T, H>>>) -> Seq<H>
        decreases child,
    {
        match child {
            Some(n) => n.items(),
            None => Seq::empty(),
        }
    }

    /// Whether the node is a leaf without children holding exactly `items`.
    pub open spec fn is_leaf_holding(self, items: Seq<H>) -> bool {
        &&& self.hitlist matches Some(l) && l@ == items
        &&& self.left is None
        &&& self.right is None
    }

    /// Whether some leaf of the subtree holds exactly `items`.
    pub open spec fn has_leaf(self, items: Seq<H>) -> bool
        decreases self,
    {
        ||| self.hitlist matches Some(l) && l@ == items
        ||| Self::child_has_leaf(self.left, items)
        ||| Self::child_has_leaf(self.right, items)
    }

    /// Whether some leaf below an optional child holds exactly `items`.
    pub open spec fn child_has_leaf(child: Option<Box<Node<T, H>>>, items: Seq<H>) -> bool
        decreases child,
    {
        match child {
            Some(n) => n.has_leaf(items),
            None => false,
        }
    }

    /// The number of objects a leaf holds.
    pub open spec fn leaf_len(self) -> Option<usize> {
        match self.hitlist {
            Some(l) => Some(l.list@.len() as usize),
            None => None,
        }
    }

    /// The tree diagram of the subtree, one row per node in preorder: a
    /// node's row starts with `prefix` and a branch (`  └── ` for the last
    /// child of its parent, `  ├── ` otherwise); its children's prefixes
    /// extend `prefix` with `      ` below a last child and `  │   ` below
    /// any other. A left child is the last one when there is no right child.
    pub open spec fn outline_spec(self, prefix: Seq<char>, tail: bool) -> Seq<RowView<T>>
        decreases self,
    {
        let lead = prefix + if tail {
            "  └── "@
        } else {
            "  ├── "@
        };
        let child_prefix = prefix + if tail {
            "      "@
        } else {
            "  │   "@
        };
        seq![(lead, self.min, self.max, self.hitable_count, self.leaf_len())]
            + Self::child_outline(self.left, child_prefix, self.right is None)
            + Self::child_outline(self.right, child_prefix, true)
    }

    /// The tree diagram below an optional child.
    pub open spec fn child_outline(
        child: Option<Box<Node<T, H>>>,
        prefix: Seq<char>,
        tail: bool,
    ) -> Seq<RowView<T>>
        decreases child,
    {
        match child {
            Some(n) => n.outline_spec(prefix, tail),
            None => Seq::empty(),
        }
    }

    /// The number of levels of the subtree.
    pub open spec fn height(self) -> nat
        decreases self,
    {
        let l = Self::child_height(self.left);
        let r = Self::child_height(self.right);
        1 + if l >= r {
            l
        } else {
            r
        }
    }

    /// The number of levels below an optional child.
    pub open spec fn child_height(child: Option<Box<Node<T, H>>>) -> nat
        decreases child,
    {
        match child {
            Some(n) => n.height(),
            None => 0,
        }
    }

    /// How `ray` meets the node's box: `Hit` or `Miss`.
    pub open spec fn box_hits<R: BoxProbe<T>>(self, ray: R, t_min: T, t_max: T) -> Hits {
        if ray.meets_box(self.min, self.max, t_min, t_max) {
            Hits::Hit
        } else {
            Hits::Miss
        }
    }

    /// How `ray` meets an optional child's box: `Absent` for no child.
    pub open spec fn child_hits<R: BoxProbe<T>>(
        child: Option<Box<Node<T, H>>>,
        ray: R,
        t_min: T,
        t_max: T,
    ) -> Hits {
        match child {
            Some(n) => n.box_hits(ray, t_min, t_max),
            None => Hits::Absent,
        }
    }

    /// Whether `ray` prefers the left child to the right one, when both exist.
    pub open spec fn ray_prefers_left<R: BoxProbe<T>>(self, ray: R, t_min: T) -> bool {
        match (self.left, self.right) {
            (Some(l), Some(r)) => ray.prefers_left(t_min, (l.min, l.max), (r.min, r.max)),
            _ => false,
        }
    }

    /// Where `ray` goes from this node: `Miss` when it misses the node's
    /// box, `End` at a leaf whose box it meets, and otherwise as
    /// [`spec_resolve`] decides from how it meets the children.
    pub open spec fn spec_hits<R: BoxProbe<T>>(self, ray: R, t_min: T, t_max: T) -> HitDirection {
        if !ray.meets_box(self.min, self.max, t_min, t_max) {
            HitDirection::Miss
        } else if self.left is None && self.right is None {
            HitDirection::End
        } else {
            spec_resolve(
                Self::child_hits(self.left, ray, t_min, t_max),
                Self::child_hits(self.right, ray, t_min, t_max),
                self.ray_prefers_left(ray, t_min),
            )
        }
    }

    /// The objects `ray` reaches from this node: those of the leaf where
    /// [`Node::spec_hits`] ends, followed down the tree, and none when it
    /// misses on the way.
    pub open spec fn reached<R: BoxProbe<T>>(self, ray: R, t_min: T, t_max: T) -> Seq<H>
        decreases self,
    {
        match self.spec_hits(ray, t_min, t_max) {
            HitDirection::Left => Self::child_reached(self.left, ray, t_min, t_max),
            HitDirection::Right => Self::child_reached(self.right, ray, t_min, t_max),
            HitDirection::End => match self.hitlist {
                Some(l) => l.list@,
                None => Seq::empty(),
            },
            _ => Seq::empty(),
        }
    }

    /// The objects `ray` reaches from an optional child.
    pub open spec fn child_reached<R: BoxProbe<T>>(
        child: Option<Box<Node<T, H>>>,
        ray: R,
        t_min: T,
        t_max: T,
    ) -> Seq<H>
        decreases child,
    {
        match child {
            Some(n) => n.reached(ray, t_min, t_max),
            None => Seq::empty(),
        }
    }

    /// Whether the subtree is what building over `list` in the box from
    /// `min` to `max` at `depth` gives: the node has that box and counts the
    /// objects; a box that [`splits`] has no objects of its own and its
    /// [`halves`] as children's boxes, the left one over the objects that
    /// go left ([`side_of`]) and the right one over the others, each in
    /// their order, and a child exactly when it has objects; any other box
    /// is a leaf holding `list`.
    pub open spec fn built_from<G: Space<T>>(
        self,
        list: Seq<H>,
        min: Vec3<T>,
        max: Vec3<T>,
        depth: int,
        space: G,
    ) -> bool where H: Hitable<T>
        decreases self,
    {
        &&& self.min == min
        &&& self.max == max
        &&& self.hitable_count == list.len()
        &&& if splits(list.len() as int, min, max, depth, space) {
            let (l, r) = halves(min, max, depth, space);
            let sides = sides_of(list, l, r);
            &&& self.hitlist is None
            &&& Self::child_built_from(
                self.left,
                select(list, sides, true),
                l.0,
                l.1,
                depth + 1,
                space,
            )
            &&& Self::child_built_from(
                self.right,
                select(list, sides, false),
                r.0,
                r.1,
                depth + 1,
                space,
            )
        } else {
            self.is_leaf_holding(list)
        }
    }

    /// An optional child built over `list`: absent exactly when `list` is
    /// empty.
    pub open spec fn child_built_from<G: Space<T>>(
        child: Option<Box<Node<T, H>>>,
        list: Seq<H>,
        min: Vec3<T>,
        max: Vec3<T>,
        depth: int,
        space: G,
    ) -> bool where H: Hitable<T>
        decreases child,
    {
        match child {
            Some(n) => list.len() > 0 && n.built_from(list, min, max, depth, space),
            None => list.len() == 0,
        }
    }

    /// Whether `ray` meets the box of an optional child between `t_min` and
    /// `t_max`; never for an absent child.
    pub open spec fn child_met<R: BoxProbe<T>>(
        child: Option<Box<Node<T, H>>>,
        ray: R,
        t_min: T,
        t_max: T,
    ) -> bool {
        match child {
            Some(n) => ray.meets_box(n.min, n.max, t_min, t_max),
            None => false,
        }
    }

    /// Whether `ray`, over the range from `t_min` to `t_max`, is led from this
    /// node to a leaf holding `items`: it meets the box of every node on the
    /// way, and at each inner node it goes to a child whose box it meets,
    /// when it meets the other child's box too only if it prefers that child.
    pub open spec fn ray_path_to<R: BoxProbe<T>>(self, items: Seq<H>, ray: R, t_min: T, t_max: T) -> bool
        decreases self,
    {
        &&& ray.meets_box(self.min, self.max, t_min, t_max)
        &&& {
            let both_met = Self::child_met(self.left, ray, t_min, t_max) && Self::child_met(
                self.right,
                ray,
                t_min,
                t_max,
            );
            let left_preferred = match (self.left, self.right) {
                (Some(l), Some(r)) => ray.prefers_left(t_min, (l.min, l.max), (r.min, r.max)),
                _ => false,
            };
            ||| self.is_leaf_holding(items)
            ||| Self::child_path_to(self.left, items, ray, t_min, t_max) && (!both_met
                || left_preferred)
            ||| Self::child_path_to(self.right, items, ray, t_min, t_max) && (!both_met
                || !left_preferred)
        }
    }

    /// Whether `ray` is led from an optional child to a leaf holding `items`.
    pub open spec fn child_path_to<R: BoxProbe<T>>(
        child: Option<Box<Node<T, H>>>,
        items: Seq<H>,
        ray: R,
        t_min: T,
        t_max: T,
    ) -> bool
        decreases child,
    {
        match child {
            Some(n) => n.ray_path_to(items, ray, t_min, t_max),
            None => false,
        }
    }

    /// The boxes, counts and leaf sizes of the subtree's nodes in preorder.
    pub open spec fn preorder(self) -> Seq<(Vec3<T>, Vec3<T>, usize, Option<usize>)>
        decreases self,
    {
        seq![(self.min, self.max, self.hitable_count, self.leaf_len())] + Self::child_preorder(
            self.left,
        ) + Self::child_preorder(self.right)
    }

    /// The preorder of an optional child.
    pub open spec fn child_preorder(child: Option<Box<Node<T, H>>>) -> Seq<
        (Vec3<T>, Vec3<T>, usize, Option<usize>),
    >
        decreases child,
    {
        match child {
            Some(n) => n.preorder(),
            None => Seq::empty(),
        }
    }

    /// Whether the node is a leaf, that is, holds its objects itself.
    pub open spec fn is_leaf(self) -> bool {
        self.hitlist is Some
    }

    /// The children's boxes halve this box along the axis chosen for `depth`.
    pub open spec fn children_split(self, depth: int) -> bool {
        let axis = split_axis(depth);
        &&& (self.left matches Some(l) ==> l.min == self.min && l.max.with_coord(
            axis,
            self.max.coord(axis),
        ) == self.max)
        &&& (self.right matches Some(r) ==> r.max == self.max && r.min.with_coord(
            axis,
            self.min.coord(axis),
        ) == self.min)
        &&& (self.left matches Some(l) ==> self.right matches Some(r) ==> l.max.coord(axis)
            == r.min.coord(axis))
    }

    /// The shape that building a hierarchy from depth `depth` produces: a
    /// leaf holds its objects and has no children; an inner node sits above
    /// depth 20, holds more than one object, has at least one child, and its
    /// children are non-empty and halve its box; every node counts the
    /// objects below it.
    pub open spec fn well_formed(self, depth: int) -> bool
        decreases self,
    {
        &&& self.hitable_count == self.items().len()
        &&& match self.hitlist {
            Some(_) => self.left is None && self.right is None,
            None => {
                &&& self.left is Some || self.right is Some
                &&& depth < 20
                &&& self.hitable_count > 1
                &&& self.children_split(depth)
                &&& Self::child_well_formed(self.left, depth + 1)
                &&& Self::child_well_formed(self.right, depth + 1)
            },
        }
    }

    /// An absent child, or a non-empty well-formed one.
    pub open spec fn child_well_formed(child: Option<Box<Node<T, H>>>, depth: int) -> bool
        decreases child,
    {
        match child {
            Some(n) => n.well_formed(depth) && n.items().len() > 0,
            None => true,
        }
    }
}

impl<T: Copy, H> Node<T, H> {
    /// The corners that halve `node`'s box at `mid` along the axis chosen
    /// for `depth`.
    pub fn min_values(node: &Node<T, H>, mid: &Vec3<T>, depth: i32) -> (r: (Vec3<T>, Vec3<T>))
        ensures
            r == split_corners(node.min, node.max, *mid, depth as int),
    {
        let mut min_mid = Vec3::new(node.max.x, node.max.y, node.max.z);
        let mut max_mid = Vec3::new(node.min.x, node.min.y, node.min.z);
        let rem: i32 = depth % 3;
        if rem == 1 {
            min_mid.x = mid.x;
            max_mid.x = mid.x;
        } else if rem == 0 {
            min_mid.y = mid.y;
            max_mid.y = mid.y;
        } else {
            min_mid.z = mid.z;
            max_mid.z = mid.z;
        }
        (min_mid, max_mid)
    }

    /// The node's box, as `(min, max)`.
    fn bounding_box(&self, _t0: T, _t1: T) -> (r: (Vec3<T>, Vec3<T>))
        ensures
            r == (self.min, self.max),
    {
        let one = self.min;
        let two = self.max;
        (one, two)
    }

    /// Whether `ray` meets the node's box between `t_min` and `t_max`.
    fn in_bounding_box<R: BoxProbe<T>>(&self, ray: &R, t_min: T, t_max: T) -> (r: Hits)
        ensures
            r == self.box_hits(*ray, t_min, t_max),
    {
        if ray.hits_box(self.min, self.max, t_min, t_max) {
            Hits::Hit
        } else {
            Hits::Miss
        }
    }

    /// Where `ray` goes from this node: `Miss` when it misses the node's
    /// box, `End` at a leaf whose box it meets, and otherwise the child it
    /// meets, the closer one when it meets both (see [`resolve`]).
    pub fn hits<R: BoxProbe<T>>(&self, ray: &R, t_min: T, t_max: T) -> (r: HitDirection)
        ensures
            r == self.spec_hits(*ray, t_min, t_max),
            r != HitDirection::Absent,
            r == HitDirection::End <==> (r != HitDirection::Miss && self.left is None
                && self.right is None),
            r == HitDirection::Left ==> self.left is Some,
            r == HitDirection::Right ==> self.right is Some,
            (self.left is None && self.right is None) ==> (r == HitDirection::End || r
                == HitDirection::Miss),
            (self.left is Some || self.right is Some) && r != HitDirection::Miss ==> exists|
                hl: Hits,
                hr: Hits,
                c: bool,
            |
                #![trigger spec_resolve(hl, hr, c)]
                (hl == Hits::Absent <==> self.left is None) && (hr == Hits::Absent
                    <==> self.right is None) && r == spec_resolve(hl, hr, c),
    {
        let result = self.in_bounding_box(ray, t_min, t_max);
        ray.trace(WalkStep::Node(result));
        match result {
            Hits::Hit => {
                if self.left.is_none() && self.right.is_none() {
                    HitDirection::End
                } else {
                    let hl = match &self.left {
                        Some(n) => n.in_bounding_box(ray, t_min, t_max),
                        None => Hits::Absent,
                    };
                    ray.trace(WalkStep::Left(hl));
                    let hr = match &self.right {
                        Some(n) => n.in_bounding_box(ray, t_min, t_max),
                        None => Hits::Absent,
                    };
                    ray.trace(WalkStep::Right(hr));
                    let left_closer = if hl == Hits::Hit && hr == Hits::Hit {
                        match (&self.left, &self.right) {
                            (Some(l), Some(r)) => ray.left_is_closer(
                                t_min,
                                l.bounding_box(t_min, t_max),
                                r.bounding_box(t_min, t_max),
                            ),
                            _ => false,
                        }
                    } else {
                        false
                    };
                    resolve(hl, hr, left_closer)
                }
            },
            _ => HitDirection::Miss,
        }
    }

    /// The objects `ray` reaches: clones of the objects of the leaf it ends
    /// at, or none when it misses on the way down.
    pub fn find_hit<R: BoxProbe<T>>(&self, ray: &R, t_min: T, t_max: T) -> (r: HitableList<H>) where
        H: Clone,

        ensures
            clones_of(self.reached(*ray, t_min, t_max), r@),
            r@.len() == 0 || exists|s: Seq<H>| #[trigger] self.has_leaf(s) && clones_of(s, r@),
        decreases self,
    {
        let results = self.hits(ray, t_min, t_max);
        ray.trace(WalkStep::Went(results));
        match results {
            HitDirection::Left => match &self.left {
                Some(n) => {
                    let found = n.find_hit(ray, t_min, t_max);
                    proof {
                        if found@.len() != 0 {
                            let s = choose|s: Seq<H>| #[trigger] n.has_leaf(s) && clones_of(s, found@);
                            assert(self.has_leaf(s));
                        }
                    }
                    found
                },
                None => HitableList::new(),
            },
            HitDirection::Right => match &self.right {
                Some(n) => {
                    let found = n.find_hit(ray, t_min, t_max);
                    proof {
                        if found@.len() != 0 {
                            let s = choose|s: Seq<H>| #[trigger] n.has_leaf(s) && clones_of(s, found@);
                            assert(self.has_leaf(s));
                        }
                    }
                    found
                },
                None => HitableList::new(),
            },
            HitDirection::Miss | HitDirection::Absent => HitableList::new(),
            HitDirection::End => {
                let held = match &self.hitlist {
                    Some(l) => Some(l.list.len()),
                    None => None,
                };
                ray.trace(WalkStep::End { min: self.min, max: self.max, held });
                let mut hit_list = HitableList::new();
                if let Some(leaf) = &self.hitlist {
                    let n = leaf.list.len();
                    for i in 0..n
                        invariant
                            n == leaf@.len(),
                            hit_list@.len() == i,
                            forall|j: int| 0 <= j < i ==> cloned(#[trigger] leaf@[j], hit_list@[j]),
                    {
                        hit_list.push(leaf.list[i].clone());
                    }
                    assert(self.has_leaf(leaf@));
                }
                hit_list
            },
        }
    }

    /// The rows of the tree diagram of this subtree, for the node's own row
    /// to start with `prefix` and to be drawn as a last child when
    /// `is_tail` is given.
    pub fn outline(&self, prefix: String, is_tail: Option<()>) -> (rows: Vec<OutlineRow<T>>)
        ensures
            rows_view(rows@) == self.outline_spec(prefix@, is_tail is Some),
        decreases self,
    {
        let tail = if is_tail.is_some() {
            "  └── "
        } else {
            "  ├── "
        };
        let lead = prefix.clone().concat(tail);
        let leaf_len = match &self.hitlist {
            Some(c) => Some(c.list.len()),
            None => None,
        };
        let mut rows: Vec<OutlineRow<T>> = Vec::new();
        rows.push(
            OutlineRow {
                lead,
                min: self.min,
                max: self.max,
                hitable_count: self.hitable_count,
                leaf_len,
            },
        );
        let ghost own = rows_view(rows@);
        let branch = if is_tail.is_some() {
            "      "
        } else {
            "  │   "
        };
        let mut left_rows: Vec<OutlineRow<T>> = match &self.left {
            Some(n) => {
                let child_tail = prefix.clone().concat(branch);
                let left_tail = if self.right.is_some() {
                    None
                } else {
                    Some(())
                };
                n.outline(child_tail, left_tail)
            },
            None => Vec::new(),
        };
        let mut right_rows: Vec<OutlineRow<T>> = match &self.right {
            Some(n) => {
                let child_tail = prefix.clone().concat(branch);
                n.outline(child_tail, Some(()))
            },
            None => Vec::new(),
        };
        let ghost l = rows_view(left_rows@);
        let ghost r = rows_view(right_rows@);
        rows.append(&mut left_rows);
        rows.append(&mut right_rows);
        proof {
            let child_prefix = prefix@ + branch@;
            assert(l =~= Self::child_outline(self.left, child_prefix, self.right is None));
            assert(r =~= Self::child_outline(self.right, child_prefix, true));
            assert(rows_view(rows@) =~= own + l + r);
        }
        rows
    }

    /// Builds the hierarchy over `list`: its root box runs from `min` to
    /// `max` (the space's default corners where they are not given) and sits
    /// at depth `depth` (1 where it is not given). A box holding more than
    /// one object, above depth 20 and not reduced to a point, is halved at
    /// its midpoint along the axis chosen for its depth; each object goes to
    /// the half it meets, or to the half its `closer` names when it meets
    /// both. Every other box becomes a leaf holding its objects.
    pub fn new<G: Space<T>>(
        list: Vec<H>,
        min: Option<Vec3<T>>,
        max: Option<Vec3<T>>,
        depth: Option<i32>,
        space: &G,
    ) -> (r: Result<Node<T, H>, BuildError<H>>) where H: Hitable<T>
        ensures
            r is Ok <==> buildable(
                list@,
                corner_or(min, space.lower_default()),
                corner_or(max, space.upper_default()),
                start_depth(depth),
                *space,
            ),
            r matches Ok(node) ==> {
                &&& node.built_from(
                    list@,
                    corner_or(min, space.lower_default()),
                    corner_or(max, space.upper_default()),
                    start_depth(depth),
                    *space,
                )
                &&& node.well_formed(start_depth(depth))
                &&& node.items().to_multiset() == list@.to_multiset()
                &&& node.hitable_count == list@.len()
                &&& node.min == corner_or(min, space.lower_default())
                &&& node.max == corner_or(max, space.upper_default())
            },
            !splits(
                list@.len() as int,
                corner_or(min, space.lower_default()),
                corner_or(max, space.upper_default()),
                start_depth(depth),
                *space,
            ) ==> (r matches Ok(node) && node.is_leaf_holding(list@)),
            r matches Err(e) ==> list@.to_multiset().contains(e.item()) && start_depth(depth)
                <= e.depth() < 20,
            r matches Err(e) ==> build_failure(
                list@,
                corner_or(min, space.lower_default()),
                corner_or(max, space.upper_default()),
                start_depth(depth),
                *space,
            ) == Some((e.item(), e is Unplaced, e.depth() as int)),
    {
        let real_depth = match depth {
            Some(d) => d,
            None => 1,
        };
        let real_min = match min {
            Some(m) => m,
            None => space.default_min(),
        };
        let real_max = match max {
            Some(m) => m,
            None => space.default_max(),
        };
        Self::build(list, real_min, real_max, real_depth, space)
    }

    /// Builds the hierarchy over `list` for the box from `min` to `max`,
    /// whose node sits at depth `depth`.
    fn build<G: Space<T>>(list: Vec<H>, min: Vec3<T>, max: Vec3<T>, depth: i32, space: &G) -> (r:
        Result<Node<T, H>, BuildError<H>>) where H: Hitable<T>
        ensures
            r is Ok <==> buildable(list@, min, max, depth as int, *space),
            r matches Ok(node) ==> {
                &&& node.built_from(list@, min, max, depth as int, *space)
                &&& node.well_formed(depth as int)
                &&& node.items().to_multiset() == list@.to_multiset()
                &&& node.hitable_count == list@.len()
                &&& node.min == min
                &&& node.max == max
            },
            !splits(list@.len() as int, min, max, depth as int, *space) ==> (r matches Ok(node)
                && node.is_leaf_holding(list@)),
            r matches Err(e) ==> list@.to_multiset().contains(e.item()) && depth <= e.depth() < 20,
            r is Ok <==> build_failure(list@, min, max, depth as int, *space) is None,
            r matches Err(e) ==> build_failure(list@, min, max, depth as int, *space) == Some(
                (e.item(), e is Unplaced, e.depth() as int),
            ),
        decreases 20 - depth,
    {
        broadcast use vstd::seq_lib::group_to_multiset_ensures;
        broadcast use vstd::multiset::group_multiset_axioms;

        let mut head = Node {
            min,
            max,
            left: None,
            right: None,
            hitlist: None,
            hitable_count: list.len(),
        };
        if list.len() > 1 && depth < 20 && !space.same_point(head.min, head.max) {
            let ghost all = list@;
            let mid = space.midpoint(head.min, head.max);
            let (min_mid, max_mid) = Self::min_values(&head, &mid, depth);
            let ghost boxes = halves(min, max, depth as int, *space);
            assert(boxes == ((head.min, min_mid), (max_mid, head.max)));
            let (left, right) = match Self::partition(
                list,
                (head.min, min_mid),
                (max_mid, head.max),
                depth,
            ) {
                Ok(parts) => parts,
                Err(e) => {
                    assert(!buildable(all, min, max, depth as int, *space));
                    return Err(e);
                },
            };
            proof {
                let sides = sides_of(all, (head.min, min_mid), (max_mid, head.max));
                lemma_select_multiset(all, sides);
                assert(left@.to_multiset().add(right@.to_multiset()) =~= all.to_multiset());
                assert(left@.len() + right@.len() == all.len()) by {
                    assert(left@.to_multiset().len() == left@.len());
                    assert(right@.to_multiset().len() == right@.len());
                    assert(all.to_multiset().len() == all.len());
                }
            }
            let ghost left_items = left@;
            let ghost right_items = right@;
            if left.len() > 0 {
                match Self::build(left, head.min, min_mid, depth + 1, space) {
                    Ok(node) => {
                        head.left = Some(Box::new(node));
                    },
                    Err(e) => {
                        assert(!buildable(all, min, max, depth as int, *space));
                        return Err(e);
                    },
                }
            }
            if right.len() > 0 {
                match Self::build(right, max_mid, head.max, depth + 1, space) {
                    Ok(node) => {
                        head.right = Some(Box::new(node));
                    },
                    Err(e) => {
                        assert(!buildable(all, min, max, depth as int, *space));
                        return Err(e);
                    },
                }
            }
            proof {
                if left_items.len() == 0 {
                    assert(left_items =~= Seq::<H>::empty());
                }
                if right_items.len() == 0 {
                    assert(right_items =~= Seq::<H>::empty());
                }
                vstd::seq_lib::lemma_multiset_commutative(
                    Self::child_items(head.left),
                    Self::child_items(head.right),
                );
                assert(Self::child_items(head.left).to_multiset() =~= left_items.to_multiset());
                assert(Self::child_items(head.right).to_multiset() =~= right_items.to_multiset());
                assert(head.items() =~= Self::child_items(head.left) + Self::child_items(head.right));
                assert(head.items().to_multiset() =~= all.to_multiset());
                assert(head.items().len() == all.len()) by {
                    assert(head.items().to_multiset().len() == head.items().len());
                }
                assert(head.children_split(depth as int));
                assert(Self::child_well_formed(head.left, depth + 1));
                assert(Self::child_well_formed(head.right, depth + 1));
                assert(head.well_formed(depth as int));
                assert(buildable(left_items, head.min, min_mid, depth + 1, *space));
                assert(buildable(right_items, max_mid, head.max, depth + 1, *space));
                assert(buildable(all, min, max, depth as int, *space));
                assert(head.built_from(all, min, max, depth as int, *space));
            }
        } else {
            head.hitlist = Some(HitableList { list });
            proof {
                assert(head.items() =~= head.hitlist.unwrap().list@);
            }
        }
        Ok(head)
    }

    /// Sorts `list` between the boxes `left` and `right` (each `(min, max)`),
    /// keeping the order of the objects on each side.
    fn partition(
        list: Vec<H>,
        left: (Vec3<T>, Vec3<T>),
        right: (Vec3<T>, Vec3<T>),
        depth: i32,
    ) -> (r: Result<(Vec<H>, Vec<H>), BuildError<H>>) where H: Hitable<T>
        ensures
            r is Ok <==> all_placed(list@, left, right),
            r matches Ok((l, rr)) ==> {
                &&& l@ == select(list@, sides_of(list@, left, right), true)
                &&& rr@ == select(list@, sides_of(list@, left, right), false)
            },
            r matches Err(e) ==> {
                &&& list@.contains(e.item())
                &&& e.depth() == depth
                &&& first_miss(list@, left, right) < list@.len()
                &&& list@[first_miss(list@, left, right)] == e.item()
                &&& (e is Unplaced <==> !e.item().overlaps(left.0, left.1) && !e.item().overlaps(
                    right.0,
                    right.1,
                ))
            },
    {
        let ghost orig = list@;
        let mut lefts: Vec<H> = Vec::new();
        let mut rights: Vec<H> = Vec::new();
        let ghost mut sides: Seq<bool> = Seq::empty();
        let ghost all_sides = sides_of(orig, left, right);
        for item in it: list.into_iter()
            invariant
                it.seq() == orig,
                all_sides == sides_of(orig, left, right),
                sides == all_sides.take(it.index() as int),
                forall|j: int|
                    0 <= j < it.index() ==> side_of(#[trigger] orig[j], left, right)
                        != HitableDirection::Miss,
                lefts@ == select(orig.take(it.index() as int), sides, true),
                rights@ == select(orig.take(it.index() as int), sides, false),
        {
            let ghost k = it.index();
            proof {
                assert(item == orig[k as int]);
            }
            let in_left = item.overlaps_bounding_box(left.0, left.1);
            let in_right = item.overlaps_bounding_box(right.0, right.1);
            let to_left = if in_left && in_right {
                match item.closer(left, right) {
                    HitableDirection::Left => true,
                    HitableDirection::Right => false,
                    HitableDirection::Miss => {
                        proof {
                            assert(orig.contains(item));
                            lemma_first_miss(orig, left, right, 0, k as int);
                        }
                        return Err(BuildError::Undecided { depth, item });
                    },
                }
            } else if in_left {
                true
            } else if in_right {
                false
            } else {
                proof {
                    assert(orig.contains(item));
                    lemma_first_miss(orig, left, right, 0, k as int);
                }
                return Err(BuildError::Unplaced { depth, item });
            };
            let ghost before = sides;
            proof {
                assert(to_left == all_sides[k as int]);
                assert(orig.take(k + 1).drop_last() =~= orig.take(k as int));
                sides = sides.push(to_left);
                assert(sides =~= all_sides.take(k + 1));
                assert(sides.drop_last() =~= before);
                assert(orig.take(k + 1).last() == item);
            }
            if to_left {
                lefts.push(item);
            } else {
                rights.push(item);
            }
            assert(lefts@ == select(orig.take(k + 1), sides, true));
            assert(rights@ == select(orig.take(k + 1), sides, false));
        }
        proof {
            assert(orig.take(orig.len() as int) =~= orig);
            assert(sides =~= all_sides);
        }
        Ok((lefts, rights))
    }
}

/// A hierarchy built from depth `depth` reaches no deeper than depth 20:
/// it has at most `21 - depth` levels, and a single one from depth 20 on.
pub proof fn lemma_height_bound<T, H>(node: Node<T, H>, depth: int)
    requires
        node.well_formed(depth),
    ensures
        node.height() <= if depth >= 20 {
            1
        } else {
            21 - depth
        },
    decreases node,
{
    if let Some(l) = node.left {
        lemma_height_bound(*l, depth + 1);
    }
    if let Some(r) = node.right {
        lemma_height_bound(*r, depth + 1);
    }
}

/// Every object held by a leaf of a hierarchy is among the objects of the
/// hierarchy, so what a ray finds was put into the tree.
pub proof fn lemma_leaf_items_in_tree<T, H>(node: Node<T, H>, items: Seq<H>)
    requires
        node.has_leaf(items),
    ensures
        forall|i: int| 0 <= i < items.len() ==> node.items().contains(#[trigger] items[i]),
    decreases node,
{
    let own = match node.hitlist {
        Some(l) => l.list@,
        None => Seq::empty(),
    };
    let ls = Node::<T, H>::child_items(node.left);
    let rs = Node::<T, H>::child_items(node.right);
    assert(node.items() == own + ls + rs);
    if node.hitlist matches Some(l) && l@ == items {
        assert forall|i: int| 0 <= i < items.len() implies node.items().contains(
            #[trigger] items[i],
        ) by {
            assert(node.items()[i] == items[i]);
        }
    } else if Node::<T, H>::child_has_leaf(node.left, items) {
        let l = node.left.unwrap();
        lemma_leaf_items_in_tree(*l, items);
        assert forall|i: int| 0 <= i < items.len() implies node.items().contains(
            #[trigger] items[i],
        ) by {
            let j = choose|j: int| 0 <= j < ls.len() && ls[j] == items[i];
            assert(node.items()[own.len() + j] == items[i]);
        }
    } else {
        let r = node.right.unwrap();
        lemma_leaf_items_in_tree(*r, items);
        assert forall|i: int| 0 <= i < items.len() implies node.items().contains(
            #[trigger] items[i],
        ) by {
            let j = choose|j: int| 0 <= j < rs.len() && rs[j] == items[i];
            assert(node.items()[own.len() + ls.len() + j] == items[i]);
        }
    }
}

/// Whether `x` is a clone of some element of `list`.
pub open spec fn clone_of_some<H: Clone>(list: Seq<H>, x: H) -> bool {
    exists|j: int| 0 <= j < list.len() && #[trigger] cloned(list[j], x)
}

/// What a ray finds in a hierarchy built over `list` are clones of objects
/// of `list`: for a tree holding the objects of `list`, every element of a
/// clone of one of its leaves is a clone of some element of `list`.
pub proof fn lemma_found_objects_were_given<T, H: Clone>(
    node: Node<T, H>,
    list: Seq<H>,
    leaf: Seq<H>,
    found: Seq<H>,
)
    requires
        node.items().to_multiset() == list.to_multiset(),
        node.has_leaf(leaf),
        clones_of(leaf, found),
    ensures
        forall|i: int| 0 <= i < found.len() ==> clone_of_some(list, #[trigger] found[i]),
{
    broadcast use vstd::seq_lib::group_to_multiset_ensures;

    lemma_leaf_items_in_tree(node, leaf);
    assert forall|i: int| 0 <= i < found.len() implies clone_of_some(list, #[trigger] found[i]) by {
        let x = leaf[i];
        assert(node.items().contains(x));
        assert(node.items().to_multiset().count(x) > 0);
        assert(list.contains(x));
        let j = choose|j: int| 0 <= j < list.len() && list[j] == x;
        assert(cloned(list[j], found[i]));
    }
}

/// Where a ray goes from a node, in terms of the ray's own answers for the
/// caller's range from `t_min` to `t_max`: nowhere when it misses the node's
/// box; to the end at a leaf whose box it meets; otherwise to the child
/// whose box it meets, to the one it prefers when it meets both, and
/// nowhere when it meets neither.
pub proof fn lemma_hits_follow_the_ray<T, H, R: BoxProbe<T>>(
    node: Node<T, H>,
    ray: R,
    t_min: T,
    t_max: T,
)
    ensures
        ({
            let met = ray.meets_box(node.min, node.max, t_min, t_max);
            let lm = Node::<T, H>::child_met(node.left, ray, t_min, t_max);
            let rm = Node::<T, H>::child_met(node.right, ray, t_min, t_max);
            let d = node.spec_hits(ray, t_min, t_max);
            &&& !met ==> d == HitDirection::Miss
            &&& met && node.left is None && node.right is None ==> d == HitDirection::End
            &&& met && (node.left is Some || node.right is Some) ==> {
                &&& lm && !rm ==> d == HitDirection::Left
                &&& rm && !lm ==> d == HitDirection::Right
                &&& !lm && !rm ==> d == HitDirection::Miss
                &&& lm && rm ==> (d == HitDirection::Left <==> ray.prefers_left(
                    t_min,
                    (node.left->Some_0.min, node.left->Some_0.max),
                    (node.right->Some_0.min, node.right->Some_0.max),
                ))
                &&& lm && rm ==> (d == HitDirection::Left || d == HitDirection::Right)
            }
        }),
{
}

/// A ray that is led to a leaf over the range from `t_min` to `t_max` (see
/// [`Node::ray_path_to`]) reaches exactly that leaf's objects, so `find_hit`
/// gives clones of them.
pub proof fn lemma_ray_reaches_its_leaf<T, H, R: BoxProbe<T>>(
    node: Node<T, H>,
    items: Seq<H>,
    ray: R,
    t_min: T,
    t_max: T,
)
    requires
        node.ray_path_to(items, ray, t_min, t_max),
    ensures
        node.reached(ray, t_min, t_max) == items,
    decreases node,
{
    lemma_hits_follow_the_ray(node, ray, t_min, t_max);
    if node.is_leaf_holding(items) {
    } else if Node::<T, H>::child_path_to(node.left, items, ray, t_min, t_max) {
        let l = node.left->Some_0;
        lemma_ray_reaches_its_leaf(*l, items, ray, t_min, t_max);
        assert(Node::<T, H>::child_met(node.left, ray, t_min, t_max));
        if Node::<T, H>::child_path_to(node.right, items, ray, t_min, t_max) {
            let r = node.right->Some_0;
            lemma_ray_reaches_its_leaf(*r, items, ray, t_min, t_max);
        }
    } else {
        assert(Node::<T, H>::child_path_to(node.right, items, ray, t_min, t_max));
        let r = node.right->Some_0;
        assert(r.ray_path_to(items, ray, t_min, t_max));
        lemma_ray_reaches_its_leaf(*r, items, ray, t_min, t_max);
        assert(Node::<T, H>::child_met(node.right, ray, t_min, t_max));
    }
}

/// An element of `s` whose entry in `sides` is `keep` is among those that
/// `select` keeps.
pub proof fn lemma_select_contains<H>(s: Seq<H>, sides: Seq<bool>, keep: bool, i: int)
    requires
        sides.len() == s.len(),
        0 <= i < s.len(),
        sides[i] == keep,
    ensures
        select(s, sides, keep).contains(s[i]),
    decreases s.len(),
{
    let rest = select(s.drop_last(), sides.drop_last(), keep);
    if i == s.len() - 1 {
        assert(select(s, sides, keep) == rest.push(s.last()));
        assert(rest.push(s.last())[rest.len() as int] == s[i]);
    } else {
        lemma_select_contains(s.drop_last(), sides.drop_last(), keep, i);
        assert(s.drop_last()[i] == s[i]);
        let j = choose|j: int| 0 <= j < rest.len() && rest[j] == s[i];
        if sides.last() == keep {
            assert(rest.push(s.last())[j] == s[i]);
        }
    }
}

/// A tree built over `list` holds exactly the objects of `list`.
pub proof fn lemma_built_items<T, H: Hitable<T>, G: Space<T>>(
    node: Node<T, H>,
    list: Seq<H>,
    min: Vec3<T>,
    max: Vec3<T>,
    depth: int,
    space: G,
)
    requires
        node.built_from(list, min, max, depth, space),
    ensures
        node.items().to_multiset() == list.to_multiset(),
    decreases node,
{
    broadcast use vstd::seq_lib::group_to_multiset_ensures;
    broadcast use vstd::multiset::group_multiset_axioms;

    if splits(list.len() as int, min, max, depth, space) {
        let (l, r) = halves(min, max, depth, space);
        let sides = sides_of(list, l, r);
        let ls = select(list, sides, true);
        let rs = select(list, sides, false);
        match node.left {
            Some(n) => lemma_built_items(*n, ls, l.0, l.1, depth + 1, space),
            None => assert(ls =~= Seq::<H>::empty()),
        }
        match node.right {
            Some(n) => lemma_built_items(*n, rs, r.0, r.1, depth + 1, space),
            None => assert(rs =~= Seq::<H>::empty()),
        }
        lemma_select_multiset(list, sides);
        vstd::seq_lib::lemma_multiset_commutative(
            Node::<T, H>::child_items(node.left),
            Node::<T, H>::child_items(node.right),
        );
        assert(node.items() =~= Node::<T, H>::child_items(node.left) + Node::<T, H>::child_items(
            node.right,
        ));
    } else {
        assert(node.items() =~= list);
    }
}

/// At a box that is halved, an object goes below the half it meets, and
/// when it meets both halves, below the one its `closer` names: below the
/// left child when it meets the lower half and, if it meets the upper half
/// too, names the left one; below the right child likewise.
pub proof fn lemma_objects_go_to_the_half_they_meet<T, H: Hitable<T>, G: Space<T>>(
    node: Node<T, H>,
    list: Seq<H>,
    min: Vec3<T>,
    max: Vec3<T>,
    depth: int,
    space: G,
    i: int,
)
    requires
        node.built_from(list, min, max, depth, space),
        splits(list.len() as int, min, max, depth, space),
        0 <= i < list.len(),
    ensures
        ({
            let (l, r) = halves(min, max, depth, space);
            let x = list[i];
            let in_l = x.overlaps(l.0, l.1);
            let in_r = x.overlaps(r.0, r.1);
            &&& in_l && (!in_r || x.prefers(l, r) == HitableDirection::Left)
                ==> Node::<T, H>::child_items(node.left).contains(x)
            &&& in_r && (!in_l || x.prefers(l, r) == HitableDirection::Right)
                ==> Node::<T, H>::child_items(node.right).contains(x)
        }),
{
    broadcast use vstd::seq_lib::group_to_multiset_ensures;

    let (l, r) = halves(min, max, depth, space);
    let sides = sides_of(list, l, r);
    let ls = select(list, sides, true);
    let rs = select(list, sides, false);
    let x = list[i];
    if side_of(x, l, r) == HitableDirection::Left {
        lemma_select_contains(list, sides, true, i);
        let n = node.left->Some_0;
        lemma_built_items(*n, ls, l.0, l.1, depth + 1, space);
        assert(ls.to_multiset().count(x) > 0);
        assert(n.items().to_multiset().count(x) > 0);
    }
    if side_of(x, l, r) == HitableDirection::Right {
        lemma_select_contains(list, sides, false, i);
        let n = node.right->Some_0;
        lemma_built_items(*n, rs, r.0, r.1, depth + 1, space);
        assert(rs.to_multiset().count(x) > 0);
        assert(n.items().to_multiset().count(x) > 0);
    }
}

/// Each row of the tree diagram carries its own node: the rows, whatever
/// the prefix and the drawing of the first branch, give the boxes, counts
/// and leaf sizes of the nodes in preorder.
pub proof fn lemma_outline_rows_are_the_nodes<T, H>(node: Node<T, H>, prefix: Seq<char>, tail: bool)
    ensures
        node.outline_spec(prefix, tail).len() == node.preorder().len(),
        forall|i: int|
            0 <= i < node.preorder().len() ==> {
                let row = #[trigger] node.outline_spec(prefix, tail)[i];
                (row.1, row.2, row.3, row.4) == node.preorder()[i]
            },
    decreases node,
{
    let child_prefix = prefix + if tail {
        "      "@
    } else {
        "  │   "@
    };
    if let Some(l) = node.left {
        lemma_outline_rows_are_the_nodes(*l, child_prefix, node.right is None);
    }
    if let Some(r) = node.right {
        lemma_outline_rows_are_the_nodes(*r, child_prefix, true);
    }
    let o = node.outline_spec(prefix, tail);
    let p = node.preorder();
    let ol = Node::<T, H>::child_outline(node.left, child_prefix, node.right is None);
    let orr = Node::<T, H>::child_outline(node.right, child_prefix, true);
    let pl = Node::<T, H>::child_preorder(node.left);
    let pr = Node::<T, H>::child_preorder(node.right);
    assert(ol.len() == pl.len());
    assert(orr.len() == pr.len());
    assert forall|i: int| 0 <= i < p.len() implies {
        let row = #[trigger] o[i];
        (row.1, row.2, row.3, row.4) == p[i]
    } by {
        if i == 0 {
        } else if i < 1 + ol.len() {
            assert(o[i] == ol[i - 1]);
            assert(p[i] == pl[i - 1]);
        } else {
            assert(o[i] == orr[i - 1 - ol.len()]);
            assert(p[i] == pr[i - 1 - pl.len()]);
        }
    }
}

} // verus!
