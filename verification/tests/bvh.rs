use raytracer::bvh::{resolve, BoxProbe, BuildError, HitDirection, Hits, Node, Space, WalkStep};
use std::cell::RefCell;
use raytracer::geometry::Vec3;
use raytracer::objects::{HitRecord, Hitable, HitableDirection, HitableList};

struct Cube;

impl Space<f32> for Cube {
    fn lower_default(&self) -> Vec3<f32> {
        Vec3::new(-16.0, -16.0, -16.0)
    }
    fn upper_default(&self) -> Vec3<f32> {
        Vec3::new(16.0, 16.0, 16.0)
    }
    fn mid(&self, a: Vec3<f32>, b: Vec3<f32>) -> Vec3<f32> {
        Vec3::new((a.x + b.x) / 2.0, (a.y + b.y) / 2.0, (a.z + b.z) / 2.0)
    }
    fn same(&self, a: Vec3<f32>, b: Vec3<f32>) -> bool {
        a == b
    }
    fn default_min(&self) -> Vec3<f32> {
        self.lower_default()
    }
    fn default_max(&self) -> Vec3<f32> {
        self.upper_default()
    }
    fn midpoint(&self, a: Vec3<f32>, b: Vec3<f32>) -> Vec3<f32> {
        self.mid(a, b)
    }
    fn same_point(&self, a: Vec3<f32>, b: Vec3<f32>) -> bool {
        self.same(a, b)
    }
}

#[derive(Clone, Debug, PartialEq)]
struct Ball {
    id: u32,
    center: Vec3<f32>,
    radius: f32,
    prefer: HitableDirection,
}

fn ball(id: u32, x: f32, y: f32, z: f32, radius: f32) -> Ball {
    Ball { id, center: Vec3::new(x, y, z), radius, prefer: HitableDirection::Left }
}

impl Hitable<f32> for Ball {
    /// A beam along the x axis, starting at this x.
    type Ray = f32;
    type Vector = Vec3<f32>;
    type Material = u32;

    fn hit_answer(&self, ray: f32, t_min: f32, t_max: f32) -> Option<HitRecord<f32, Vec3<f32>>> {
        let t = self.center.x - self.radius - ray;
        if self.center.y.abs() <= self.radius && self.center.z.abs() <= self.radius && t_min < t && t < t_max {
            Some(HitRecord::new(t, Vec3::new(ray + t, 0.0, 0.0), Vec3::new(-1.0, 0.0, 0.0)))
        } else {
            None
        }
    }
    fn material_answer(&self) -> u32 {
        self.id
    }
    fn hit(&self, ray: &f32, t_min: &f32, t_max: &f32) -> Option<HitRecord<f32, Vec3<f32>>> {
        self.hit_answer(*ray, *t_min, *t_max)
    }
    fn material(&self) -> u32 {
        self.material_answer()
    }
    fn overlaps(&self, min: Vec3<f32>, max: Vec3<f32>) -> bool {
        let lo = Vec3::new(self.center.x - self.radius, self.center.y - self.radius, self.center.z - self.radius);
        let hi = Vec3::new(self.center.x + self.radius, self.center.y + self.radius, self.center.z + self.radius);
        lo.x <= max.x && min.x <= hi.x && lo.y <= max.y && min.y <= hi.y && lo.z <= max.z && min.z <= hi.z
    }
    fn prefers(&self, _left: (Vec3<f32>, Vec3<f32>), _right: (Vec3<f32>, Vec3<f32>)) -> HitableDirection {
        self.prefer
    }
    fn overlaps_bounding_box(&self, min: Vec3<f32>, max: Vec3<f32>) -> bool {
        self.overlaps(min, max)
    }
    fn closer(&self, left: (Vec3<f32>, Vec3<f32>), right: (Vec3<f32>, Vec3<f32>)) -> HitableDirection {
        self.prefers(left, right)
    }
}

/// A probe that meets exactly the boxes containing a fixed point.
struct PointProbe {
    at: Vec3<f32>,
    prefer_left: bool,
}

impl BoxProbe<f32> for PointProbe {
    fn meets_box(&self, min: Vec3<f32>, max: Vec3<f32>, _t_min: f32, _t_max: f32) -> bool {
        min.x <= self.at.x && self.at.x <= max.x && min.y <= self.at.y && self.at.y <= max.y
            && min.z <= self.at.z && self.at.z <= max.z
    }
    fn prefers_left(&self, _t: f32, _l: (Vec3<f32>, Vec3<f32>), _r: (Vec3<f32>, Vec3<f32>)) -> bool {
        self.prefer_left
    }
    fn hits_box(&self, min: Vec3<f32>, max: Vec3<f32>, t_min: f32, t_max: f32) -> bool {
        self.meets_box(min, max, t_min, t_max)
    }
    fn left_is_closer(&self, t: f32, l: (Vec3<f32>, Vec3<f32>), r: (Vec3<f32>, Vec3<f32>)) -> bool {
        self.prefers_left(t, l, r)
    }
}

fn ids(list: &HitableList<Ball>) -> Vec<u32> {
    list.list.iter().map(|b| b.id).collect()
}

fn leaf_ids(node: &Node<f32, Ball>) -> Vec<u32> {
    let mut out = Vec::new();
    if let Some(l) = &node.hitlist {
        out.extend(ids(l));
    }
    if let Some(n) = &node.left {
        out.extend(leaf_ids(n));
    }
    if let Some(n) = &node.right {
        out.extend(leaf_ids(n));
    }
    out
}

fn unwrap_node(r: Result<Node<f32, Ball>, BuildError<Ball>>) -> Node<f32, Ball> {
    match r {
        Ok(n) => n,
        Err(_) => panic!("build failed"),
    }
}

#[test]
fn min_values_splits_along_depth_axis() {
    let node = unwrap_node(Node::new(Vec::new(), Some(Vec3::new(0.0, 0.0, 0.0)), Some(Vec3::new(8.0, 6.0, 4.0)), None, &Cube));
    let mid = Vec3::new(4.0, 3.0, 2.0);
    assert_eq!(Node::min_values(&node, &mid, 1), (Vec3::new(4.0, 6.0, 4.0), Vec3::new(4.0, 0.0, 0.0)));
    assert_eq!(Node::min_values(&node, &mid, 4), (Vec3::new(4.0, 6.0, 4.0), Vec3::new(4.0, 0.0, 0.0)));
    assert_eq!(Node::min_values(&node, &mid, 0), (Vec3::new(8.0, 3.0, 4.0), Vec3::new(0.0, 3.0, 0.0)));
    assert_eq!(Node::min_values(&node, &mid, 3), (Vec3::new(8.0, 3.0, 4.0), Vec3::new(0.0, 3.0, 0.0)));
    assert_eq!(Node::min_values(&node, &mid, -3), (Vec3::new(8.0, 3.0, 4.0), Vec3::new(0.0, 3.0, 0.0)));
    assert_eq!(Node::min_values(&node, &mid, 2), (Vec3::new(8.0, 6.0, 2.0), Vec3::new(0.0, 0.0, 2.0)));
    assert_eq!(Node::min_values(&node, &mid, -1), (Vec3::new(8.0, 6.0, 2.0), Vec3::new(0.0, 0.0, 2.0)));
    assert_eq!(Node::min_values(&node, &mid, -2), (Vec3::new(8.0, 6.0, 2.0), Vec3::new(0.0, 0.0, 2.0)));
}

#[test]
fn resolve_follows_the_child_the_ray_meets() {
    assert_eq!(resolve(Hits::Miss, Hits::Miss, true), HitDirection::Miss);
    assert_eq!(resolve(Hits::Absent, Hits::Miss, true), HitDirection::Miss);
    assert_eq!(resolve(Hits::Miss, Hits::Absent, true), HitDirection::Miss);
    assert_eq!(resolve(Hits::Hit, Hits::Miss, false), HitDirection::Left);
    assert_eq!(resolve(Hits::Hit, Hits::Absent, false), HitDirection::Left);
    assert_eq!(resolve(Hits::Absent, Hits::Hit, true), HitDirection::Right);
    assert_eq!(resolve(Hits::Miss, Hits::Hit, true), HitDirection::Right);
    assert_eq!(resolve(Hits::Hit, Hits::Hit, true), HitDirection::Left);
    assert_eq!(resolve(Hits::Hit, Hits::Hit, false), HitDirection::Right);
}

#[test]
fn empty_and_single_lists_become_leaves() {
    let empty = unwrap_node(Node::new(Vec::new(), None, None, None, &Cube));
    assert_eq!(empty.hitable_count, 0);
    assert!(empty.left.is_none() && empty.right.is_none());
    assert_eq!(ids(empty.hitlist.as_ref().unwrap()), Vec::<u32>::new());
    assert_eq!(empty.min, Vec3::new(-16.0, -16.0, -16.0));
    assert_eq!(empty.max, Vec3::new(16.0, 16.0, 16.0));

    let single = unwrap_node(Node::new(vec![ball(7, 100.0, 0.0, 0.0, 1.0)], None, None, None, &Cube));
    assert_eq!(single.hitable_count, 1);
    assert_eq!(ids(single.hitlist.as_ref().unwrap()), vec![7]);
}

#[test]
fn depth_twenty_stops_splitting() {
    let list = vec![ball(1, -8.0, 0.0, 0.0, 1.0), ball(2, 8.0, 0.0, 0.0, 1.0)];
    let node = unwrap_node(Node::new(list, None, None, Some(20), &Cube));
    assert_eq!(node.min, Vec3::new(-16.0, -16.0, -16.0));
    assert_eq!(node.max, Vec3::new(16.0, 16.0, 16.0));
    assert_eq!(node.hitable_count, 2);
    assert!(node.left.is_none() && node.right.is_none());
    assert_eq!(ids(node.hitlist.as_ref().unwrap()), vec![1, 2]);
}

#[test]
fn degenerate_box_stops_splitting() {
    let p = Vec3::new(1.0, 1.0, 1.0);
    let list = vec![ball(1, 1.0, 1.0, 1.0, 1.0), ball(2, 1.0, 1.0, 1.0, 1.0)];
    let node = unwrap_node(Node::new(list, Some(p), Some(p), None, &Cube));
    assert_eq!(ids(node.hitlist.as_ref().unwrap()), vec![1, 2]);
}

#[test]
fn two_far_objects_are_split_along_x() {
    let list = vec![ball(1, -8.0, 0.0, 0.0, 1.0), ball(2, 8.0, 0.0, 0.0, 1.0)];
    let node = unwrap_node(Node::new(list, None, None, None, &Cube));
    assert!(node.hitlist.is_none());
    assert_eq!(node.hitable_count, 2);
    let left = node.left.as_ref().unwrap();
    let right = node.right.as_ref().unwrap();
    assert_eq!(left.min, Vec3::new(-16.0, -16.0, -16.0));
    assert_eq!(left.max, Vec3::new(0.0, 16.0, 16.0));
    assert_eq!(right.min, Vec3::new(0.0, -16.0, -16.0));
    assert_eq!(right.max, Vec3::new(16.0, 16.0, 16.0));
    assert_eq!(ids(left.hitlist.as_ref().unwrap()), vec![1]);
    assert_eq!(ids(right.hitlist.as_ref().unwrap()), vec![2]);
    assert_eq!(left.hitable_count, 1);
    assert_eq!(right.hitable_count, 1);
}

#[test]
fn every_object_lands_in_exactly_one_leaf() {
    let mut list = Vec::new();
    let mut id = 0;
    for a in -3..3 {
        for b in -3..3 {
            list.push(ball(id, a as f32 * 2.0 + 0.5, 0.5, b as f32 * 2.0 + 0.5, 0.2));
            id += 1;
        }
    }
    let node = unwrap_node(Node::new(list, None, None, None, &Cube));
    assert_eq!(node.hitable_count, 36);
    let mut found = leaf_ids(&node);
    found.sort();
    assert_eq!(found, (0..36).collect::<Vec<u32>>());
}

#[test]
fn objects_meeting_both_halves_follow_closer() {
    let mut straddle = ball(1, 0.0, 0.0, 0.0, 1.0);
    straddle.prefer = HitableDirection::Right;
    let list = vec![ball(0, -8.0, 0.0, 0.0, 1.0), straddle, ball(2, -9.0, 0.0, 0.0, 1.0)];
    let node = unwrap_node(Node::new(list, None, None, None, &Cube));
    let left = node.left.as_ref().unwrap();
    let right = node.right.as_ref().unwrap();
    let mut in_left = leaf_ids(left);
    in_left.sort();
    assert_eq!(in_left, vec![0, 2]);
    assert_eq!(ids(right.hitlist.as_ref().unwrap()), vec![1]);
}

#[test]
fn object_outside_the_box_is_unplaced() {
    let list = vec![ball(0, -8.0, 0.0, 0.0, 1.0), ball(1, 100.0, 0.0, 0.0, 1.0)];
    match Node::new(list, None, None, None, &Cube) {
        Err(BuildError::Unplaced { depth, item }) => {
            assert_eq!(depth, 1);
            assert_eq!(item.id, 1);
        }
        _ => panic!("expected Unplaced"),
    }
}

#[test]
fn undecided_object_is_reported() {
    let mut straddle = ball(1, 0.0, 0.0, 0.0, 1.0);
    straddle.prefer = HitableDirection::Miss;
    let list = vec![ball(0, -8.0, 0.0, 0.0, 1.0), straddle];
    match Node::new(list, None, None, Some(3), &Cube) {
        Err(BuildError::Undecided { depth, item }) => {
            assert_eq!(depth, 3);
            assert_eq!(item.id, 1);
        }
        _ => panic!("expected Undecided"),
    }
}

#[test]
fn deep_trees_stop_at_depth_twenty() {
    fn height(n: &Node<f32, Ball>) -> usize {
        let l = n.left.as_ref().map_or(0, |c| height(c));
        let r = n.right.as_ref().map_or(0, |c| height(c));
        1 + l.max(r)
    }
    // Two objects that stay together through every split.
    let list = vec![ball(0, 0.001, 0.001, 0.001, 0.0001), ball(1, 0.0011, 0.0011, 0.0011, 0.0001)];
    let node = unwrap_node(Node::new(list, None, None, None, &Cube));
    assert!(height(&node) <= 20);
    assert_eq!(leaf_ids(&node), vec![0, 1]);
}

#[test]
fn hits_and_find_hit_follow_the_probe() {
    let list = vec![ball(1, -8.0, 0.0, 0.0, 1.0), ball(2, 8.0, 0.0, 0.0, 1.0)];
    let node = unwrap_node(Node::new(list, None, None, None, &Cube));
    let right_probe = PointProbe { at: Vec3::new(8.0, 0.0, 0.0), prefer_left: true };
    assert_eq!(node.hits(&right_probe, 0.0, 1.0), HitDirection::Right);
    assert_eq!(ids(&node.find_hit(&right_probe, 0.0, 1.0)), vec![2]);

    let left_probe = PointProbe { at: Vec3::new(-8.0, 0.0, 0.0), prefer_left: false };
    assert_eq!(node.hits(&left_probe, 0.0, 1.0), HitDirection::Left);
    assert_eq!(ids(&node.find_hit(&left_probe, 0.0, 1.0)), vec![1]);

    // On the splitting plane both children are met: the probe decides.
    let plane_left = PointProbe { at: Vec3::new(0.0, 0.0, 0.0), prefer_left: true };
    assert_eq!(node.hits(&plane_left, 0.0, 1.0), HitDirection::Left);
    let plane_right = PointProbe { at: Vec3::new(0.0, 0.0, 0.0), prefer_left: false };
    assert_eq!(node.hits(&plane_right, 0.0, 1.0), HitDirection::Right);

    let outside = PointProbe { at: Vec3::new(50.0, 0.0, 0.0), prefer_left: true };
    assert_eq!(node.hits(&outside, 0.0, 1.0), HitDirection::Miss);
    assert_eq!(node.find_hit(&outside, 0.0, 1.0).len(), 0);

    let leaf = node.left.as_ref().unwrap();
    assert_eq!(leaf.hits(&left_probe, 0.0, 1.0), HitDirection::End);
    assert_eq!(leaf.hits(&right_probe, 0.0, 1.0), HitDirection::Miss);
}

#[test]
fn outline_draws_the_tree() {
    let list = vec![ball(1, -8.0, 0.0, 0.0, 1.0), ball(2, 8.0, 0.0, 0.0, 1.0)];
    let node = unwrap_node(Node::new(list, None, None, None, &Cube));
    let rows = node.outline("  ".to_string(), None);
    assert_eq!(rows.len(), 3);
    assert_eq!(rows[0].lead, "    ├── ");
    assert_eq!(rows[0].hitable_count, 2);
    assert_eq!(rows[0].leaf_len, None);
    assert_eq!(rows[1].lead, "    │     ├── ");
    assert_eq!(rows[1].leaf_len, Some(1));
    assert_eq!(rows[1].max, Vec3::new(0.0, 16.0, 16.0));
    assert_eq!(rows[2].lead, "    │     └── ");
    assert_eq!(rows[2].leaf_len, Some(1));

    let rows = node.outline(String::new(), Some(()));
    assert_eq!(rows[0].lead, "  └── ");
    assert_eq!(rows[1].lead, "        ├── ");
    assert_eq!(rows[2].lead, "        └── ");
}

#[test]
fn lone_left_child_is_drawn_last() {
    let list = vec![ball(1, -8.0, 0.0, 0.0, 1.0), ball(2, -9.0, 0.0, 0.0, 1.0)];
    let node = unwrap_node(Node::new(list, None, None, Some(19), &Cube));
    assert!(node.right.is_none());
    let rows = node.outline(String::new(), None);
    assert_eq!(rows.len(), 2);
    assert_eq!(rows[1].lead, "  │     └── ");
}

fn check_counts_and_boxes(node: &Node<f32, Ball>, depth: i32) {
    assert_eq!(node.hitable_count, leaf_ids(node).len());
    if node.hitlist.is_some() {
        assert!(node.left.is_none() && node.right.is_none());
        return;
    }
    assert!(depth < 20);
    assert!(node.hitable_count > 1);
    let mid = Cube.midpoint(node.min, node.max);
    let (min_mid, max_mid) = Node::min_values(node, &mid, depth);
    if let Some(l) = &node.left {
        assert_eq!((l.min, l.max), (node.min, min_mid));
        assert!(l.hitable_count > 0);
        check_counts_and_boxes(l, depth + 1);
    }
    if let Some(r) = &node.right {
        assert_eq!((r.min, r.max), (max_mid, node.max));
        assert!(r.hitable_count > 0);
        check_counts_and_boxes(r, depth + 1);
    }
}

#[test]
fn every_node_counts_its_objects_and_halves_its_box() {
    let mut list = Vec::new();
    for i in 0..40u32 {
        let t = i as f32;
        list.push(ball(i, (t * 7.3) % 30.0 - 15.0, (t * 3.1) % 30.0 - 15.0, (t * 5.7) % 30.0 - 15.0, 0.3));
    }
    let node = unwrap_node(Node::new(list, None, None, None, &Cube));
    assert_eq!(node.hitable_count, 40);
    check_counts_and_boxes(&node, 1);
}

#[test]
fn lone_child_is_followed_when_met() {
    let list = vec![ball(1, -8.0, 0.0, 0.0, 1.0), ball(2, -9.0, 0.0, 0.0, 1.0)];
    let node = unwrap_node(Node::new(list, None, None, Some(19), &Cube));
    let inside = PointProbe { at: Vec3::new(-8.0, 0.0, 0.0), prefer_left: false };
    assert_eq!(node.hits(&inside, 0.0, 1.0), HitDirection::Left);
    assert_eq!(ids(&node.find_hit(&inside, 0.0, 1.0)), vec![1, 2]);
    // In the root box but not in its only child's.
    let empty_half = PointProbe { at: Vec3::new(8.0, 0.0, 0.0), prefer_left: true };
    assert_eq!(node.hits(&empty_half, 0.0, 1.0), HitDirection::Miss);
    assert_eq!(node.find_hit(&empty_half, 0.0, 1.0).len(), 0);
}

#[test]
fn given_corners_and_depth_are_used() {
    let list = vec![ball(1, 1.0, 1.0, 1.0, 0.5), ball(2, 3.0, 3.0, 3.0, 0.5)];
    let node = unwrap_node(Node::new(list, Some(Vec3::new(0.0, 0.0, 0.0)), Some(Vec3::new(4.0, 4.0, 4.0)), Some(3), &Cube));
    assert_eq!(node.min, Vec3::new(0.0, 0.0, 0.0));
    assert_eq!(node.max, Vec3::new(4.0, 4.0, 4.0));
    // Depth 3 halves along y.
    let left = node.left.as_ref().unwrap();
    assert_eq!(left.max, Vec3::new(4.0, 2.0, 4.0));
    let right = node.right.as_ref().unwrap();
    assert_eq!(right.min, Vec3::new(0.0, 2.0, 0.0));
    assert_eq!(leaf_ids(left), vec![1]);
    assert_eq!(leaf_ids(right), vec![2]);
}

#[test]
fn failure_below_the_root_is_reported_with_its_depth() {
    let mut undecided = ball(1, -4.0, 0.0, 0.0, 1.0);
    undecided.prefer = HitableDirection::Miss;
    let list = vec![ball(0, -8.0, 0.0, 0.0, 1.0), undecided, ball(2, 8.0, 0.0, 0.0, 1.0)];
    match Node::new(list, None, None, None, &Cube) {
        Err(BuildError::Undecided { depth, item }) => {
            assert_eq!(depth, 2);
            assert_eq!(item.id, 1);
        }
        _ => panic!("expected Undecided at depth 2"),
    }
}

/// A probe that records the steps of its walk.
struct Recorder {
    inner: PointProbe,
    steps: RefCell<Vec<String>>,
}

impl BoxProbe<f32> for Recorder {
    fn meets_box(&self, min: Vec3<f32>, max: Vec3<f32>, t_min: f32, t_max: f32) -> bool {
        self.inner.meets_box(min, max, t_min, t_max)
    }
    fn prefers_left(&self, t: f32, l: (Vec3<f32>, Vec3<f32>), r: (Vec3<f32>, Vec3<f32>)) -> bool {
        self.inner.prefers_left(t, l, r)
    }
    fn hits_box(&self, min: Vec3<f32>, max: Vec3<f32>, t_min: f32, t_max: f32) -> bool {
        self.meets_box(min, max, t_min, t_max)
    }
    fn left_is_closer(&self, t: f32, l: (Vec3<f32>, Vec3<f32>), r: (Vec3<f32>, Vec3<f32>)) -> bool {
        self.prefers_left(t, l, r)
    }
    fn trace(&self, step: WalkStep<f32>) {
        let line = match step {
            WalkStep::Node(h) => format!("node {:?}", h),
            WalkStep::Left(h) => format!("left {:?}", h),
            WalkStep::Right(h) => format!("right {:?}", h),
            WalkStep::Went(d) => format!("went {:?}", d),
            WalkStep::End { held, .. } => format!("end {:?}", held),
        };
        self.steps.borrow_mut().push(line);
    }
}

#[test]
fn the_walk_is_reported_step_by_step() {
    let list = vec![ball(1, -8.0, 0.0, 0.0, 1.0), ball(2, 8.0, 0.0, 0.0, 1.0)];
    let node = unwrap_node(Node::new(list, None, None, None, &Cube));
    let probe = Recorder {
        inner: PointProbe { at: Vec3::new(8.0, 0.0, 0.0), prefer_left: true },
        steps: RefCell::new(Vec::new()),
    };
    assert_eq!(ids(&node.find_hit(&probe, 0.0, 1.0)), vec![2]);
    assert_eq!(
        probe.steps.into_inner(),
        vec!["node Hit", "left Miss", "right Hit", "went Right", "node Hit", "went End", "end Some(1)"]
    );
}

#[test]
fn list_hit_finds_the_nearest_object() {
    let mut list = HitableList::new();
    assert!(list.hit(&0.0, &0.001, &f32::MAX).is_none());
    list.push(ball(1, 5.0, 0.0, 0.0, 1.0));
    list.push(ball(2, 3.0, 0.0, 0.0, 1.0));
    list.push(ball(3, 10.0, 5.0, 0.0, 1.0));
    list.push(ball(4, 3.0, 0.0, 0.0, 1.0));
    let (rec, id) = list.hit(&0.0, &0.001, &f32::MAX).unwrap();
    assert_eq!(id, 2);
    assert_eq!(rec.t, 2.0);
    assert_eq!(rec.p, Vec3::new(2.0, 0.0, 0.0));
    // Only hits below `t_max` count.
    assert!(list.hit(&0.0, &0.001, &1.5).is_none());
    // A later object nearer than the earlier ones wins.
    let (_, id) = list.hit(&2.5, &0.001, &f32::MAX).unwrap();
    assert_eq!(id, 1);
}
