use vstd::prelude::*;

use crate::geometry::Vec3;

verus! {

/// Which of two boxes an object or a point belongs to.
#[derive(Clone, Copy, Debug, PartialEq, Eq, Structural)]
pub enum HitableDirection {
    Left,
    Right,
    Miss,
}

/// Where a ray meets an object: at parameter `t`, at point `p`, where the
/// surface has normal `normal`.
pub struct HitRecord<T, V> {
    pub t: T,
    pub p: V,
    pub normal: V,
}

impl<T, V> HitRecord<T, V> {
    /// A record of a hit at `t`, at point `p`, with normal `normal`.
    pub fn new(t: T, p: V, normal: V) -> (r: Self)
        ensures
            r == (HitRecord { t, p, normal }),
    {
        HitRecord { p, t, normal }
    }
}

/// What the hierarchy and the lists ask of the objects of a scene.
///
/// Each answer is a function of the object and the arguments alone:
/// `overlaps_bounding_box` answers as `overlaps`, `closer` as `prefers`,
/// `hit` as `hit_answer` and `material` as `material_answer`. Implementors
/// promise this; nothing here checks it, and nothing is assumed of what the
/// answers are.
pub trait Hitable<T> {
    /// The rays the object is hit by.
    type Ray;

    /// The vectors of the points and normals of its hit records.
    type Vector;

    /// What it reports as its material.
    type Material;

    /// The answer of `hit` for this ray and range of parameters.
    spec fn hit_answer(&self, ray: Self::Ray, t_min: T, t_max: T) -> Option<
        HitRecord<T, Self::Vector>,
    >;

    /// The answer of `material`.
    spec fn material_answer(&self) -> Self::Material;

    /// Where `ray` first meets the object for a parameter strictly between
    /// `t_min` and `t_max`, if it does.
    fn hit(&self, ray: &Self::Ray, t_min: &T, t_max: &T) -> (r: Option<HitRecord<T, Self::Vector>>)
        ensures
            r == self.hit_answer(*ray, *t_min, *t_max),
    ;

    /// The object's material.
    fn material(&self) -> (r: Self::Material)
        ensures
            r == self.material_answer(),
    ;

    /// The answer of `overlaps_bounding_box` for these corners.
    spec fn overlaps(&self, min: Vec3<T>, max: Vec3<T>) -> bool;

    /// The answer of `closer` for these boxes.
    spec fn prefers(&self, left: (Vec3<T>, Vec3<T>), right: (Vec3<T>, Vec3<T>)) -> HitableDirection;

    /// Whether the object's bounding box meets the box from `min` to `max`.
    fn overlaps_bounding_box(&self, min: Vec3<T>, max: Vec3<T>) -> (r: bool)
        ensures
            r == self.overlaps(min, max),
    ;

    /// Which of two boxes, each given as `(min, max)`, the object should go
    /// to when it meets both.
    fn closer(&self, left: (Vec3<T>, Vec3<T>), right: (Vec3<T>, Vec3<T>)) -> (r: HitableDirection)
        ensures
            r == self.prefers(left, right),
    ;
}

/// What a scan of the first `n` objects of `list` for the nearest hit of
/// `ray` leaves: the bound that the next object is asked with, and the last
/// hit found with its object's material. Each object is asked for hits
/// between `t_min` and the bound, which starts at `t_max` and becomes the
/// parameter of each hit found.
pub open spec fn scan<T, H: Hitable<T>>(
    list: Seq<H>,
    ray: H::Ray,
    t_min: T,
    t_max: T,
    n: int,
) -> (T, Option<(HitRecord<T, H::Vector>, H::Material)>)
    decreases n,
{
    if n <= 0 {
        (t_max, None)
    } else {
        let (bound, last) = scan(list, ray, t_min, t_max, n - 1);
        match list[n - 1].hit_answer(ray, t_min, bound) {
            Some(rec) => (rec.t, Some((rec, list[n - 1].material_answer()))),
            None => (bound, last),
        }
    }
}

/// An ordered collection of objects.
pub struct HitableList<H> {
    pub list: Vec<H>,
}

impl<H> HitableList<H> {
    /// The objects, in the order they were pushed.
    pub open spec fn view(&self) -> Seq<H> {
        self.list@
    }

    /// An empty collection.
    pub fn new() -> (r: Self)
        ensures
            r@ == Seq::<H>::empty(),
    {
        let list = Vec::new();
        HitableList { list }
    }

    /// The number of objects held.
    pub fn len(&self) -> (r: usize)
        ensures
            r == self@.len(),
    {
        self.list.len()
    }

    /// The hit of `ray` nearest along it among the objects, for a parameter
    /// between `t_min` and `t_max`, with its object's material: the last hit
    /// found when each object in turn is asked for hits below the parameter
    /// of the last one found (see [`scan`]); none when no object is hit.
    pub fn hit<T: Copy>(&self, ray: &H::Ray, t_min: &T, t_max: &T) -> (r: Option<
        (HitRecord<T, H::Vector>, H::Material),
    >) where H: Hitable<T>
        ensures
            r == scan(self@, *ray, *t_min, *t_max, self@.len() as int).1,
    {
        if self.list.len() > 0 {
            let mut closest_so_far = *t_max;
            let mut last_hit: Option<(HitRecord<T, H::Vector>, H::Material)> = None;
            let n = self.list.len();
            for i in 0..n
                invariant
                    n == self@.len(),
                    (closest_so_far, last_hit) == scan(self@, *ray, *t_min, *t_max, i as int),
            {
                let object = &self.list[i];
                if let Some(record) = object.hit(ray, t_min, &closest_so_far) {
                    closest_so_far = record.t;
                    last_hit = Some((record, object.material()));
                }
            }
            last_hit
        } else {
            None
        }
    }

    /// Appends `sphere` after the objects already held.
    pub fn push(&mut self, sphere: H)
        ensures
            final(self)@ == old(self)@.push(sphere),
    {
        self.list.push(sphere);
    }
}

/// Whether some object of `list` reports a hit of `ray` between `t_min` and
/// `t_max`.
pub open spec fn some_hit<T, H: Hitable<T>>(list: Seq<H>, ray: H::Ray, t_min: T, t_max: T) -> bool {
    exists|i: int| 0 <= i < list.len() && (#[trigger] list[i]).hit_answer(ray, t_min, t_max) is Some
}

/// The nearest-hit search finds a hit exactly when some object of the list,
/// the last one included, reports a hit of the ray between `t_min` and
/// `t_max`: scanning the first `n` objects finds one exactly when one of
/// them reports a hit for the whole range.
pub proof fn lemma_scan_finds_a_hit<T, H: Hitable<T>>(
    list: Seq<H>,
    ray: H::Ray,
    t_min: T,
    t_max: T,
    n: int,
)
    requires
        0 <= n <= list.len(),
    ensures
        scan(list, ray, t_min, t_max, n).1 is Some <==> some_hit(list.take(n), ray, t_min, t_max),
        scan(list, ray, t_min, t_max, n).1 is None ==> scan(list, ray, t_min, t_max, n).0 == t_max,
    decreases n,
{
    if n > 0 {
        lemma_scan_finds_a_hit(list, ray, t_min, t_max, n - 1);
        let prefix = list.take(n - 1);
        let whole = list.take(n);
        if some_hit(prefix, ray, t_min, t_max) {
            let i = choose|i: int|
                0 <= i < prefix.len() && (#[trigger] prefix[i]).hit_answer(ray, t_min, t_max) is Some;
            assert(whole[i] == prefix[i]);
        }
        if some_hit(whole, ray, t_min, t_max) {
            let i = choose|i: int|
                0 <= i < whole.len() && (#[trigger] whole[i]).hit_answer(ray, t_min, t_max) is Some;
            if i < n - 1 {
                assert(prefix[i] == whole[i]);
            }
        }
        assert(whole[n - 1] == list[n - 1]);
    }
}

/// A list's `hit` reports a hit exactly when some object of the list
/// reports a hit of the ray between `t_min` and `t_max`.
pub proof fn lemma_hit_iff_some_object_hits<T, H: Hitable<T>>(
    list: HitableList<H>,
    ray: H::Ray,
    t_min: T,
    t_max: T,
)
    ensures
        scan(list@, ray, t_min, t_max, list@.len() as int).1 is Some <==> some_hit(
            list@,
            ray,
            t_min,
            t_max,
        ),
{
    lemma_scan_finds_a_hit(list@, ray, t_min, t_max, list@.len() as int);
    assert(list@.take(list@.len() as int) =~= list@);
}

/// Whether `lt` is a strict order: irreflexive and transitive.
pub open spec fn strict_order<T>(lt: spec_fn(T, T) -> bool) -> bool {
    &&& forall|a: T| !#[trigger] lt(a, a)
    &&& forall|a: T, b: T, c: T| #[trigger] lt(a, b) && #[trigger] lt(b, c) ==> lt(a, c)
}

/// Whether the objects of `list` answer hits of `ray` consistently with the
/// order `lt` on parameters: a hit found below a bound lies below it, and
/// narrowing the bound to anything still above a hit found leaves that hit
/// the answer.
pub open spec fn consistent_hits<T, H: Hitable<T>>(
    list: Seq<H>,
    ray: H::Ray,
    t_min: T,
    lt: spec_fn(T, T) -> bool,
) -> bool {
    forall|i: int, b: T|
        #![trigger list[i].hit_answer(ray, t_min, b)]
        0 <= i < list.len() && list[i].hit_answer(ray, t_min, b) is Some ==> {
            let rec = list[i].hit_answer(ray, t_min, b)->Some_0;
            &&& lt(rec.t, b)
            &&& forall|c: T|
                lt(rec.t, c) && !lt(b, c) ==> #[trigger] list[i].hit_answer(ray, t_min, c)
                    == Some(rec)
        }
}

/// The nearest-hit search finds the nearest hit: for objects that answer
/// hits consistently with a strict order on parameters, the hit that scanning
/// the first `n` objects keeps lies no further along the ray than any hit
/// that one of them reports for the whole range, and the bound it leaves is
/// that hit's parameter, below `t_max`.
pub proof fn lemma_scan_is_nearest<T, H: Hitable<T>>(
    list: Seq<H>,
    ray: H::Ray,
    t_min: T,
    t_max: T,
    lt: spec_fn(T, T) -> bool,
    n: int,
)
    requires
        0 <= n <= list.len(),
        strict_order(lt),
        consistent_hits(list, ray, t_min, lt),
    ensures
        ({
            let (bound, last) = scan(list, ray, t_min, t_max, n);
            &&& !lt(t_max, bound)
            &&& (last matches Some(found) ==> found.0.t == bound)
            &&& (last is None ==> bound == t_max)
            &&& forall|i: int|
                #![trigger list[i].hit_answer(ray, t_min, t_max)]
                0 <= i < n && list[i].hit_answer(ray, t_min, t_max) is Some ==> {
                    &&& last is Some
                    &&& !lt(list[i].hit_answer(ray, t_min, t_max)->Some_0.t, bound)
                }
        }),
    decreases n,
{
    if n > 0 {
        lemma_scan_is_nearest(list, ray, t_min, t_max, lt, n - 1);
        let (bound, last) = scan(list, ray, t_min, t_max, n - 1);
        let x = list[n - 1];
        let a = x.hit_answer(ray, t_min, bound);
        let f = x.hit_answer(ray, t_min, t_max);
        if let Some(rec) = a {
            assert(lt(rec.t, bound));
            if lt(t_max, rec.t) {
                assert(lt(t_max, bound));
            }
            assert forall|i: int|
                #![trigger list[i].hit_answer(ray, t_min, t_max)]
                0 <= i < n && list[i].hit_answer(ray, t_min, t_max) is Some implies !lt(
                list[i].hit_answer(ray, t_min, t_max)->Some_0.t,
                rec.t,
            ) by {
                let ti = list[i].hit_answer(ray, t_min, t_max)->Some_0.t;
                if i < n - 1 {
                    if lt(ti, rec.t) {
                        assert(lt(ti, bound));
                    }
                } else {
                    let frec = f->Some_0;
                    assert(lt(frec.t, t_max));
                    if lt(frec.t, bound) {
                        assert(x.hit_answer(ray, t_min, bound) == Some(frec));
                    } else if lt(ti, rec.t) {
                        assert(lt(ti, bound));
                    }
                }
            }
        } else {
            if let Some(frec) = f {
                assert(lt(frec.t, t_max));
                if lt(frec.t, bound) {
                    assert(x.hit_answer(ray, t_min, bound) == Some(frec));
                }
                if last is None {
                    assert(bound == t_max);
                }
            }
        }
    }
}

/// A list's `hit` gives the nearest hit: for objects that answer hits
/// consistently with a strict order on parameters, when any object reports
/// a hit of the ray between `t_min` and `t_max`, the list reports a hit
/// whose parameter is not above that object's.
pub proof fn lemma_hit_is_nearest<T, H: Hitable<T>>(
    list: HitableList<H>,
    ray: H::Ray,
    t_min: T,
    t_max: T,
    lt: spec_fn(T, T) -> bool,
    i: int,
)
    requires
        strict_order(lt),
        consistent_hits(list@, ray, t_min, lt),
        0 <= i < list@.len(),
        list@[i].hit_answer(ray, t_min, t_max) is Some,
    ensures
        scan(list@, ray, t_min, t_max, list@.len() as int).1 matches Some(found) && !lt(
            list@[i].hit_answer(ray, t_min, t_max)->Some_0.t,
            found.0.t,
        ),
{
    lemma_scan_is_nearest(list@, ray, t_min, t_max, lt, list@.len() as int);
}

} // verus!
