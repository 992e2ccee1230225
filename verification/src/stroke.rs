//! Strokes: path data, replicated properties and the stroke store.

use crate::float::F32;
use crate::rga::StrokeId;
use crate::simplify;
use crate::types::OpId;
use std::collections::hash_map::Entry;
use std::collections::HashMap;
use vstd::prelude::*;

verus! {

/// A point of a stroke: coordinates and stylus pressure.
#[derive(Debug, Clone, Copy, PartialEq, Eq, Structural)]
pub struct StrokePoint {
    pub x: F32,
    pub y: F32,
    /// 0.0 to 1.0; 1.0 for mouse and touch.
    pub pressure: F32,
}

impl StrokePoint {
    pub fn new(x: F32, y: F32, pressure: F32) -> (point: Self)
        ensures
            point == (StrokePoint { x, y, pressure }),
    {
        StrokePoint { x, y, pressure }
    }

    /// A point of full pressure.
    pub fn basic(x: F32, y: F32) -> (point: Self)
        ensures
            point == (StrokePoint { x, y, pressure: F32::one() }),
    {
        StrokePoint { x, y, pressure: F32::one() }
    }
}

/// Axis-aligned bounding box, without padding. Derived from the points, never
/// sent.
#[derive(Debug, Clone, Copy, PartialEq, Eq, Structural)]
pub struct Aabb {
    pub min_x: F32,
    pub min_y: F32,
    pub max_x: F32,
    pub max_y: F32,
}

/// The lesser of a bound and a value; a value that is not a number is ignored.
pub open spec fn lower(bound: F32, value: F32) -> F32 {
    if value.below(bound) {
        value
    } else {
        bound
    }
}

/// The greater of a bound and a value; a value that is not a number is ignored.
pub open spec fn upper(bound: F32, value: F32) -> F32 {
    if bound.below(value) {
        value
    } else {
        bound
    }
}

/// The box around the points, starting from an inverted box.
pub open spec fn box_around(points: Seq<StrokePoint>) -> Aabb
    decreases points.len(),
{
    if points.len() == 0 {
        Aabb {
            min_x: F32::infinity(),
            min_y: F32::infinity(),
            max_x: F32::neg_infinity(),
            max_y: F32::neg_infinity(),
        }
    } else {
        let b = box_around(points.drop_last());
        let p = points.last();
        Aabb {
            min_x: lower(b.min_x, p.x),
            min_y: lower(b.min_y, p.y),
            max_x: upper(b.max_x, p.x),
            max_y: upper(b.max_y, p.y),
        }
    }
}

/// The bounds of a stroke: the box around its points, or everything where it
/// has none.
pub open spec fn bounds_of(points: Seq<StrokePoint>) -> Aabb {
    if points.len() == 0 {
        Aabb::infinite()
    } else {
        box_around(points)
    }
}

/// Whether two boxes overlap; they do where they touch.
pub open spec fn overlap(a: Aabb, b: Aabb) -> bool {
    &&& a.min_x.below(b.max_x) || a.min_x.equals(b.max_x)
    &&& b.min_x.below(a.max_x) || b.min_x.equals(a.max_x)
    &&& a.min_y.below(b.max_y) || a.min_y.equals(b.max_y)
    &&& b.min_y.below(a.max_y) || b.min_y.equals(a.max_y)
}

/// Whether a function of two numbers can be called on all numbers, and always
/// gives the same for the same numbers.
pub open spec fn computes<F: Fn(F32, F32) -> F32>(f: F) -> bool {
    &&& forall|x: F32, y: F32| #[trigger] call_requires(f, (x, y))
    &&& forall|x: F32, y: F32, r: F32, s: F32| #[trigger]
        call_ensures(f, (x, y), r) && #[trigger] call_ensures(f, (x, y), s) ==> r == s
}

/// What a function of two numbers gives.
pub open spec fn result_of<F: Fn(F32, F32) -> F32>(f: F, x: F32, y: F32) -> F32 {
    choose|r: F32| call_ensures(f, (x, y), r)
}

/// Whether a function that transforms points can be called on all points, and
/// always gives the same for the same point.
pub open spec fn places<P: Fn(Transform2D, F32, F32) -> (F32, F32)>(place: P) -> bool {
    &&& forall|t: Transform2D, x: F32, y: F32| #[trigger] call_requires(place, (t, x, y))
    &&& forall|t: Transform2D, x: F32, y: F32, r: (F32, F32), s: (F32, F32)| #[trigger]
        call_ensures(place, (t, x, y), r) && #[trigger] call_ensures(place, (t, x, y), s) ==> r == s
}

/// Where a point goes.
pub open spec fn place_of<P: Fn(Transform2D, F32, F32) -> (F32, F32)>(
    place: P,
    t: Transform2D,
    x: F32,
    y: F32,
) -> StrokePoint {
    let r = choose|r: (F32, F32)| call_ensures(place, (t, x, y), r);
    StrokePoint { x: r.0, y: r.1, pressure: F32::zero() }
}

/// A box with each side moved out.
pub open spec fn expanded_box<A: Fn(F32, F32) -> F32, S: Fn(F32, F32) -> F32>(
    b: Aabb,
    padding: F32,
    add: A,
    sub: S,
) -> Aabb {
    Aabb {
        min_x: result_of(sub, b.min_x, padding),
        min_y: result_of(sub, b.min_y, padding),
        max_x: result_of(add, b.max_x, padding),
        max_y: result_of(add, b.max_y, padding),
    }
}

/// The box around the transformed corners of a box. The identity leaves every
/// box as it is, and every transform leaves the one that holds everything.
pub open spec fn transformed_box<P: Fn(Transform2D, F32, F32) -> (F32, F32)>(
    b: Aabb,
    t: Transform2D,
    place: P,
) -> Aabb {
    if in_place(t) || b == Aabb::infinite() {
        b
    } else {
        box_around(
            seq![
                place_of(place, t, b.min_x, b.min_y),
                place_of(place, t, b.max_x, b.min_y),
                place_of(place, t, b.min_x, b.max_y),
                place_of(place, t, b.max_x, b.max_y),
            ],
        )
    }
}

fn compute<F: Fn(F32, F32) -> F32>(f: &F, x: F32, y: F32) -> (r: F32)
    requires
        computes(*f),
    ensures
        r == result_of(*f, x, y),
{
    let r = f(x, y);
    proof {
        assert(call_ensures(*f, (x, y), result_of(*f, x, y)));
    }
    r
}

fn place_corner<P: Fn(Transform2D, F32, F32) -> (F32, F32)>(place: &P, t: Transform2D, x: F32, y: F32) -> (p:
    StrokePoint)
    requires
        places(*place),
    ensures
        p == place_of(*place, t, x, y),
{
    let (px, py): (F32, F32) = place(t, x, y);
    proof {
        let r = choose|r: (F32, F32)| call_ensures(*place, (t, x, y), r);
        assert(call_ensures(*place, (t, x, y), (px, py)));
        assert(call_ensures(*place, (t, x, y), r));
    }
    StrokePoint { x: px, y: py, pressure: F32::zero() }
}

impl Aabb {
    /// The box with each side moved out by `padding`, to account for the width
    /// of a stroke. The sums and differences are those of the given functions.
    pub fn expanded<A: Fn(F32, F32) -> F32, S: Fn(F32, F32) -> F32>(self, padding: F32, add: &A, sub: &S) -> (grown:
        Aabb)
        requires
            computes(*add),
            computes(*sub),
        ensures
            grown == expanded_box(self, padding, *add, *sub),
    {
        Aabb {
            min_x: compute(sub, self.min_x, padding),
            min_y: compute(sub, self.min_y, padding),
            max_x: compute(add, self.max_x, padding),
            max_y: compute(add, self.max_y, padding),
        }
    }

    /// The box around the four corners of this box, each transformed by the
    /// given function. The identity leaves every box as it is, and every
    /// transform leaves the one that holds everything.
    pub fn transform<P: Fn(Transform2D, F32, F32) -> (F32, F32)>(&self, t: &Transform2D, place: &P) -> (moved: Aabb)
        requires
            places(*place),
        ensures
            moved == transformed_box(*self, *t, *place),
    {
        if t.is_identity() || *self == Aabb::infinite() {
            return *self;
        }
        let mut corners: Vec<StrokePoint> = Vec::new();
        corners.push(place_corner(place, *t, self.min_x, self.min_y));
        corners.push(place_corner(place, *t, self.max_x, self.min_y));
        corners.push(place_corner(place, *t, self.min_x, self.max_y));
        corners.push(place_corner(place, *t, self.max_x, self.max_y));
        proof {
            assert(corners@ =~= seq![
                place_of(*place, *t, self.min_x, self.min_y),
                place_of(*place, *t, self.max_x, self.min_y),
                place_of(*place, *t, self.min_x, self.max_y),
                place_of(*place, *t, self.max_x, self.max_y),
            ]);
        }
        Aabb::from_points(corners.as_slice())
    }

    /// The box that intersects everything, so that strokes without points are
    /// never culled.
    #[verifier::allow_in_spec]
    pub fn infinite() -> Aabb
        returns
            (Aabb {
                min_x: F32::neg_infinity(),
                min_y: F32::neg_infinity(),
                max_x: F32::infinity(),
                max_y: F32::infinity(),
            }),
    {
        Aabb {
            min_x: F32::neg_infinity(),
            min_y: F32::neg_infinity(),
            max_x: F32::infinity(),
            max_y: F32::infinity(),
        }
    }

    /// The tight box around the points; [`Aabb::infinite`] for none.
    pub fn from_points(points: &[StrokePoint]) -> (bounds: Self)
        ensures
            bounds == bounds_of(points@),
    {
        if points.len() == 0 {
            return Aabb::infinite();
        }
        let mut b = Aabb {
            min_x: F32::infinity(),
            min_y: F32::infinity(),
            max_x: F32::neg_infinity(),
            max_y: F32::neg_infinity(),
        };
        let mut i: usize = 0;
        while i < points.len()
            invariant
                i <= points@.len(),
                b == box_around(points@.take(i as int)),
            decreases points@.len() - i,
        {
            proof {
                assert(points@.take(i + 1).drop_last() =~= points@.take(i as int));
            }
            let p = points[i];
            if p.x.less(b.min_x) {
                b.min_x = p.x;
            }
            if p.y.less(b.min_y) {
                b.min_y = p.y;
            }
            if b.max_x.less(p.x) {
                b.max_x = p.x;
            }
            if b.max_y.less(p.y) {
                b.max_y = p.y;
            }
            i += 1;
        }
        proof {
            assert(points@.take(points@.len() as int) =~= points@);
        }
        b
    }

    /// Whether two boxes overlap; they do where they touch.
    pub fn intersects(&self, other: &Aabb) -> (yes: bool)
        ensures
            yes == overlap(*self, *other),
    {
        self.min_x.at_most(other.max_x) && other.min_x.at_most(self.max_x) && self.min_y.at_most(other.max_y)
            && other.min_y.at_most(self.max_y)
    }
}

/// The tool that drew a stroke.
#[derive(Debug, Clone, Copy, PartialEq, Eq, Structural)]
pub enum ToolKind {
    Pen,
    Eraser,
    Marker,
    Laser,
    Shape,
    Arrow,
}

impl ToolKind {
    /// The code of the tool on the wire.
    pub open spec fn code(self) -> u8 {
        match self {
            ToolKind::Pen => 0,
            ToolKind::Eraser => 1,
            ToolKind::Marker => 2,
            ToolKind::Laser => 3,
            ToolKind::Shape => 4,
            ToolKind::Arrow => 5,
        }
    }

    /// The tool with the given code; an unknown code stands for the pen.
    pub open spec fn of_code(v: u8) -> ToolKind {
        if v == 1 {
            ToolKind::Eraser
        } else if v == 2 {
            ToolKind::Marker
        } else if v == 3 {
            ToolKind::Laser
        } else if v == 4 {
            ToolKind::Shape
        } else if v == 5 {
            ToolKind::Arrow
        } else {
            ToolKind::Pen
        }
    }

    pub fn from_u8(v: u8) -> (tool: Self)
        ensures
            tool == ToolKind::of_code(v),
    {
        match v {
            0 => ToolKind::Pen,
            1 => ToolKind::Eraser,
            2 => ToolKind::Marker,
            3 => ToolKind::Laser,
            4 => ToolKind::Shape,
            5 => ToolKind::Arrow,
            _ => ToolKind::Pen,
        }
    }

    pub fn to_u8(self) -> (v: u8)
        ensures
            v == self.code(),
    {
        match self {
            ToolKind::Pen => 0,
            ToolKind::Eraser => 1,
            ToolKind::Marker => 2,
            ToolKind::Laser => 3,
            ToolKind::Shape => 4,
            ToolKind::Arrow => 5,
        }
    }
}

/// The code of a tool stands for that tool.
pub proof fn law_tool_code_round_trip(tool: ToolKind)
    ensures
        ToolKind::of_code(tool.code()) == tool,
{
}

/// The path of a stroke. Its points do not change once it is drawn, but for
/// simplification.
#[derive(Debug)]
pub struct StrokeData {
    pub points: Vec<StrokePoint>,
    pub tool: ToolKind,
    /// The box around the points.
    pub bounds: Aabb,
}

/// The contents of a [`StrokeData`].
#[verifier::ext_equal]
pub struct StrokeDataView {
    pub points: Seq<StrokePoint>,
    pub tool: ToolKind,
    pub bounds: Aabb,
}

/// A freshly made stroke path.
pub open spec fn stroke_data(points: Seq<StrokePoint>, tool: ToolKind) -> StrokeDataView {
    StrokeDataView { points, tool, bounds: bounds_of(points) }
}

impl View for StrokeData {
    type V = StrokeDataView;

    open spec fn view(&self) -> StrokeDataView {
        StrokeDataView { points: self.points@, tool: self.tool, bounds: self.bounds }
    }
}

impl Clone for StrokeData {
    fn clone(&self) -> (copy: Self)
        ensures
            copy@ == self@,
    {
        let points = self.points.clone();
        proof {
            assert(points@ =~= self.points@);
        }
        StrokeData { points, tool: self.tool, bounds: self.bounds }
    }
}

impl StrokeData {
    /// A stroke path with its bounds.
    pub fn new(points: Vec<StrokePoint>, tool: ToolKind) -> (data: Self)
        ensures
            data@ == stroke_data(points@, tool),
    {
        let bounds = Aabb::from_points(points.as_slice());
        StrokeData { points, tool, bounds }
    }

    /// Drops the points that the Ramer-Douglas-Peucker walk finds dispensable
    /// at the tolerance `epsilon`, and says how many. `distance` gives the
    /// distance of its first argument from the segment between the others.
    ///
    /// A negative tolerance is admissible as long as the walk ends, see
    /// [`simplify::halts`].
    pub fn simplify<D: Fn(StrokePoint, StrokePoint, StrokePoint) -> F32>(
        &mut self,
        epsilon: F32,
        distance: &D,
    ) -> (removed: usize)
        requires
            simplify::well_defined(*distance),
            simplify::halts(old(self)@.points, simplify::measure(*distance), epsilon),
        ensures
            final(self)@ == simplify::simplified_data(old(self)@, simplify::measure(*distance), epsilon),
            removed == old(self)@.points.len() - final(self)@.points.len(),
    {
        let original: usize = self.points.len();
        if original <= 2 {
            proof {
                simplify::lemma_short(self@.points, simplify::measure(*distance), epsilon);
            }
            return 0;
        }
        let ghost d = simplify::measure(*distance);
        let kept = simplify::rdp_indices(self.points.as_slice(), epsilon, distance);
        proof {
            simplify::lemma_kept_bound(self@.points, d, epsilon, original as int);
            if kept.len() == original {
                simplify::lemma_all_kept(self@.points, d, epsilon);
            }
        }
        if kept.len() == original {
            return 0;
        }
        let mut points: Vec<StrokePoint> = Vec::new();
        let mut i: usize = 0;
        while i < kept.len()
            invariant
                i <= kept@.len(),
                kept@ == simplify::kept(self@.points, d, epsilon),
                points@.len() == i,
                forall|k: int| 0 <= k < kept@.len() ==> (#[trigger] kept@[k]) < self@.points.len(),
                forall|k: int| 0 <= k < i ==> #[trigger] points@[k] == self@.points[kept@[k] as int],
            decreases kept@.len() - i,
        {
            points.push(self.points[kept[i]]);
            i += 1;
        }
        proof {
            assert(points@ =~= simplify::simplified(self@.points, d, epsilon));
        }
        self.bounds = Aabb::from_points(points.as_slice());
        self.points = points;
        original - kept.len()
    }
}

/// A last-writer-wins register.
#[derive(Debug, Clone, Copy, PartialEq, Eq, Structural)]
pub struct LwwRegister<T> {
    pub value: T,
    pub timestamp: OpId,
}

/// The register after a write: the later operation wins, and a tie changes
/// nothing.
pub open spec fn written<T>(register: LwwRegister<T>, value: T, timestamp: OpId) -> LwwRegister<T> {
    if timestamp.rank() > register.timestamp.rank() {
        LwwRegister { value, timestamp }
    } else {
        register
    }
}

impl<T> LwwRegister<T> {
    pub fn new(value: T, timestamp: OpId) -> (register: Self)
        ensures
            register == (LwwRegister { value, timestamp }),
    {
        LwwRegister { value, timestamp }
    }

    /// Writes `value` if `timestamp` is later than what the register holds,
    /// and says whether it was.
    pub fn apply(&mut self, value: T, timestamp: OpId) -> (changed: bool)
        ensures
            *final(self) == written(*old(self), value, timestamp),
            changed == (timestamp.rank() > old(self).timestamp.rank()),
    {
        if timestamp > self.timestamp {
            self.value = value;
            self.timestamp = timestamp;
            true
        } else {
            false
        }
    }
}

/// Two writes by different operations leave the same register in either order.
pub proof fn law_writes_commute<T>(register: LwwRegister<T>, v: T, s: OpId, w: T, t: OpId)
    requires
        s != t,
    ensures
        written(written(register, v, s), w, t) == written(written(register, w, t), v, s),
{
    crate::types::lemma_rank_injective(s, t);
}

/// Writing twice is writing once.
pub proof fn law_write_is_idempotent<T>(register: LwwRegister<T>, v: T, t: OpId)
    ensures
        written(written(register, v, t), v, t) == written(register, v, t),
{
}

/// Affine transform `[a, b, c, d, tx, ty]`, as in the CSS `matrix()`.
#[derive(Debug, Clone, Copy, PartialEq, Eq, Structural)]
pub struct Transform2D {
    pub a: F32,
    pub b: F32,
    pub c: F32,
    pub d: F32,
    pub tx: F32,
    pub ty: F32,
}

/// Whether the entries are those of the identity, as numbers.
pub open spec fn in_place(t: Transform2D) -> bool {
    t.a.equals(F32::one()) && t.b.equals(F32::zero()) && t.c.equals(F32::zero()) && t.d.equals(F32::one())
        && t.tx.equals(F32::zero()) && t.ty.equals(F32::zero())
}

impl Transform2D {
    /// The identity matrix.
    #[verifier::allow_in_spec]
    pub fn identity() -> Transform2D
        returns
            (Transform2D {
                a: F32::one(),
                b: F32::zero(),
                c: F32::zero(),
                d: F32::one(),
                tx: F32::zero(),
                ty: F32::zero(),
            }),
    {
        Transform2D {
            a: F32::one(),
            b: F32::zero(),
            c: F32::zero(),
            d: F32::one(),
            tx: F32::zero(),
            ty: F32::zero(),
        }
    }

    /// Whether the entries are those of the identity, as numbers.
    pub fn is_identity(&self) -> (yes: bool)
        ensures
            yes == in_place(*self),
    {
        self.a.same(F32::one()) && self.b.same(F32::zero()) && self.c.same(F32::zero()) && self.d.same(F32::one())
            && self.tx.same(F32::zero()) && self.ty.same(F32::zero())
    }
}

impl Default for Transform2D {
    fn default() -> (transform: Self)
        ensures
            transform == Transform2D::identity(),
    {
        Transform2D::identity()
    }
}

/// The replicated properties of a stroke. Each is a register of its own, so
/// concurrent changes of different properties are all kept.
#[derive(Debug, Clone, Copy, PartialEq, Eq, Structural)]
pub struct StrokeProperties {
    /// Packed as `0xRRGGBBAA`.
    pub color: LwwRegister<u32>,
    pub stroke_width: LwwRegister<F32>,
    /// 0.0 to 1.0.
    pub opacity: LwwRegister<F32>,
    pub transform: LwwRegister<Transform2D>,
}

/// Properties as they are first drawn, all written by `id`.
pub open spec fn drawn(color: u32, stroke_width: F32, opacity: F32, id: OpId) -> StrokeProperties {
    StrokeProperties {
        color: LwwRegister { value: color, timestamp: id },
        stroke_width: LwwRegister { value: stroke_width, timestamp: id },
        opacity: LwwRegister { value: opacity, timestamp: id },
        transform: LwwRegister { value: Transform2D::identity(), timestamp: id },
    }
}

impl StrokeProperties {
    pub fn new(color: u32, stroke_width: F32, opacity: F32, id: OpId) -> (properties: Self)
        ensures
            properties == drawn(color, stroke_width, opacity, id),
    {
        StrokeProperties {
            color: LwwRegister::new(color, id),
            stroke_width: LwwRegister::new(stroke_width, id),
            opacity: LwwRegister::new(opacity, id),
            transform: LwwRegister::new(Transform2D::identity(), id),
        }
    }
}

/// What the store holds of a stroke.
#[verifier::ext_equal]
pub struct StrokeView {
    pub data: StrokeDataView,
    pub properties: StrokeProperties,
}

/// The strokes by identifier, apart from their order.
#[derive(Debug)]
pub struct StrokeStore {
    /// Keyed by [`OpId::key`].
    pub strokes: HashMap<u128, (StrokeData, StrokeProperties)>,
}

impl View for StrokeStore {
    type V = Map<OpId, StrokeView>;

    open spec fn view(&self) -> Map<OpId, StrokeView> {
        Map::new(
            |id: OpId| self.strokes@.contains_key(id.rank() as u128),
            |id: OpId|
                StrokeView {
                    data: self.strokes@[id.rank() as u128].0@,
                    properties: self.strokes@[id.rank() as u128].1,
                },
        )
    }
}

impl StrokeStore {
    pub fn new() -> (store: Self)
        ensures
            store@ == Map::<OpId, StrokeView>::empty(),
    {
        let store = StrokeStore { strokes: HashMap::new() };
        proof {
            assert(store@ =~= Map::<OpId, StrokeView>::empty());
        }
        store
    }

    pub fn insert(&mut self, id: StrokeId, data: StrokeData, props: StrokeProperties)
        ensures
            final(self)@ == old(self)@.insert(id, (StrokeView { data: data@, properties: props })),
    {
        let ghost view = StrokeView { data: data@, properties: props };
        self.strokes.insert(id.key(), (data, props));
        proof {
            assert forall|other: OpId| #[trigger] other.rank() == id.rank() implies other == id by {
                crate::types::lemma_rank_injective(other, id);
            }
            assert(self@ =~= old(self)@.insert(id, view));
        }
    }

    pub fn get(&self, id: &StrokeId) -> (stroke: Option<(&StrokeData, &StrokeProperties)>)
        ensures
            match stroke {
                Some((data, props)) => self@.contains_key(*id) && self@[*id] == (StrokeView {
                    data: data@,
                    properties: *props,
                }),
                None => !self@.contains_key(*id),
            },
    {
        match self.strokes.get(&id.key()) {
            Some(stroke) => Some((&stroke.0, &stroke.1)),
            None => None,
        }
    }

    /// The path of a stroke, and its properties to be changed in place.
    pub fn get_mut(&mut self, id: &StrokeId) -> (stroke: Option<(&StrokeData, &mut StrokeProperties)>)
        ensures
            match stroke {
                Some((d, p)) => old(self)@.contains_key(*id) && d@ == old(self)@[*id].data && *p
                    == old(self)@[*id].properties && final(self)@ == old(self)@.insert(
                    *id,
                    (StrokeView { properties: *final(p), ..old(self)@[*id] }),
                ),
                None => !old(self)@.contains_key(*id) && final(self)@ == old(self)@,
            },
    {
        proof {
            assert forall|other: OpId| #[trigger] other.rank() == id.rank() implies other == *id by {
                crate::types::lemma_rank_injective(other, *id);
            }
        }
        match self.strokes.entry(id.key()) {
            Entry::Occupied(found) => {
                let stroke = found.into_mut();
                Some((&stroke.0, &mut stroke.1))
            },
            Entry::Vacant(_) => None,
        }
    }

    /// The path of a stroke, to be simplified in place.
    pub fn get_data_mut(&mut self, id: &StrokeId) -> (data: Option<&mut StrokeData>)
        ensures
            match data {
                Some(d) => old(self)@.contains_key(*id) && d@ == old(self)@[*id].data && final(self)@
                    == old(self)@.insert(*id, (StrokeView { data: final(d)@, ..old(self)@[*id] })),
                None => !old(self)@.contains_key(*id) && final(self)@ == old(self)@,
            },
    {
        match self.strokes.entry(id.key()) {
            Entry::Occupied(found) => Some(&mut found.into_mut().0),
            Entry::Vacant(_) => None,
        }
    }

    pub fn remove(&mut self, id: &StrokeId) -> (stroke: Option<(StrokeData, StrokeProperties)>)
        ensures
            final(self)@ == old(self)@.remove(*id),
            match stroke {
                Some((data, props)) => old(self)@.contains_key(*id) && old(self)@[*id] == (StrokeView {
                    data: data@,
                    properties: props,
                }),
                None => !old(self)@.contains_key(*id),
            },
    {
        let stroke = self.strokes.remove(&id.key());
        proof {
            assert forall|other: OpId| #[trigger] other.rank() == id.rank() implies other == *id by {
                crate::types::lemma_rank_injective(other, *id);
            }
            assert(self@ =~= old(self)@.remove(*id));
        }
        stroke
    }

    pub fn contains(&self, id: &StrokeId) -> (yes: bool)
        ensures
            yes == self@.contains_key(*id),
    {
        self.strokes.contains_key(&id.key())
    }
}

impl Default for StrokeStore {
    fn default() -> (store: Self)
        ensures
            store@ == Map::<OpId, StrokeView>::empty(),
    {
        StrokeStore::new()
    }
}

/// No point lies outside the bounds of its stroke.
pub proof fn law_bounds_hold_every_point(points: Seq<StrokePoint>, i: int)
    requires
        0 <= i < points.len(),
    ensures
        !points[i].x.below(bounds_of(points).min_x),
        !bounds_of(points).max_x.below(points[i].x),
        !points[i].y.below(bounds_of(points).min_y),
        !bounds_of(points).max_y.below(points[i].y),
{
    lemma_box_holds(points, i);
}

/// The sides of the box around points are numbers.
pub proof fn law_bounds_are_numbers(points: Seq<StrokePoint>)
    ensures
        !bounds_of(points).min_x.nan() && !bounds_of(points).min_y.nan(),
        !bounds_of(points).max_x.nan() && !bounds_of(points).max_y.nan(),
{
    lemma_box_is_numeric(points);
}

proof fn lemma_box_is_numeric(points: Seq<StrokePoint>)
    ensures
        !box_around(points).min_x.nan(),
        !box_around(points).min_y.nan(),
        !box_around(points).max_x.nan(),
        !box_around(points).max_y.nan(),
    decreases points.len(),
{
    if points.len() > 0 {
        lemma_box_is_numeric(points.drop_last());
    }
}

proof fn lemma_box_holds(points: Seq<StrokePoint>, i: int)
    requires
        0 <= i < points.len(),
    ensures
        !points[i].x.below(box_around(points).min_x),
        !box_around(points).max_x.below(points[i].x),
        !points[i].y.below(box_around(points).min_y),
        !box_around(points).max_y.below(points[i].y),
    decreases points.len(),
{
    if i < points.len() - 1 {
        assert(points.drop_last()[i] == points[i]);
        lemma_box_holds(points.drop_last(), i);
    }
    lemma_box_is_numeric(points.drop_last());
}

/// Whether a point lies in a box, on its edge included.
pub open spec fn inside(p: StrokePoint, b: Aabb) -> bool {
    &&& b.min_x.below(p.x) || b.min_x.equals(p.x)
    &&& p.x.below(b.max_x) || p.x.equals(b.max_x)
    &&& b.min_y.below(p.y) || b.min_y.equals(p.y)
    &&& p.y.below(b.max_y) || p.y.equals(b.max_y)
}

/// A stroke with a point in the viewport is not culled.
pub proof fn law_strokes_in_view_are_not_culled(points: Seq<StrokePoint>, i: int, viewport: Aabb)
    requires
        0 <= i < points.len(),
        inside(points[i], viewport),
    ensures
        overlap(bounds_of(points), viewport),
{
    lemma_box_holds(points, i);
    lemma_box_is_numeric(points);
}

/// A stroke without points is never culled, however it is transformed.
pub proof fn law_empty_strokes_are_not_culled<P: Fn(Transform2D, F32, F32) -> (F32, F32)>(
    t: Transform2D,
    place: P,
    viewport: Aabb,
)
    requires
        !viewport.min_x.nan() && !viewport.min_y.nan() && !viewport.max_x.nan() && !viewport.max_y.nan(),
    ensures
        transformed_box(bounds_of(seq![]), t, place) == Aabb::infinite(),
        overlap(transformed_box(bounds_of(seq![]), t, place), viewport),
{
}

/// Each side of the bounds of a stroke is touched by one of its points, where
/// all of them are numbers.
pub proof fn law_bounds_are_touched(points: Seq<StrokePoint>)
    requires
        points.len() > 0,
        forall|i: int| 0 <= i < points.len() ==> !(#[trigger] points[i]).x.nan() && !points[i].y.nan(),
    ensures
        exists|i: int| 0 <= i < points.len() && (#[trigger] points[i]).x == bounds_of(points).min_x,
        exists|i: int| 0 <= i < points.len() && (#[trigger] points[i]).x == bounds_of(points).max_x,
        exists|i: int| 0 <= i < points.len() && (#[trigger] points[i]).y == bounds_of(points).min_y,
        exists|i: int| 0 <= i < points.len() && (#[trigger] points[i]).y == bounds_of(points).max_y,
{
    lemma_box_touched(points);
}

proof fn lemma_box_touched(points: Seq<StrokePoint>)
    requires
        points.len() > 0,
        forall|i: int| 0 <= i < points.len() ==> !(#[trigger] points[i]).x.nan() && !points[i].y.nan(),
    ensures
        exists|i: int| 0 <= i < points.len() && (#[trigger] points[i]).x == box_around(points).min_x,
        exists|i: int| 0 <= i < points.len() && (#[trigger] points[i]).x == box_around(points).max_x,
        exists|i: int| 0 <= i < points.len() && (#[trigger] points[i]).y == box_around(points).min_y,
        exists|i: int| 0 <= i < points.len() && (#[trigger] points[i]).y == box_around(points).max_y,
    decreases points.len(),
{
    let less = points.drop_last();
    let b = box_around(less);
    let n = points.len() - 1;
    assert(points[n] == points.last());
    if less.len() > 0 {
        assert forall|i: int| 0 <= i < less.len() implies !(#[trigger] less[i]).x.nan() && !less[i].y.nan() by {
            assert(less[i] == points[i]);
        }
        lemma_box_touched(less);
        let i = choose|i: int| 0 <= i < less.len() && (#[trigger] less[i]).x == b.min_x;
        assert(points[i].x == b.min_x);
        let i = choose|i: int| 0 <= i < less.len() && (#[trigger] less[i]).x == b.max_x;
        assert(points[i].x == b.max_x);
        let i = choose|i: int| 0 <= i < less.len() && (#[trigger] less[i]).y == b.min_y;
        assert(points[i].y == b.min_y);
        let i = choose|i: int| 0 <= i < less.len() && (#[trigger] less[i]).y == b.max_y;
        assert(points[i].y == b.max_y);
    }
}

/// The transformed box holds the image of each of the four corners of the box:
/// none lies outside it.
pub proof fn law_transformed_boxes_hold_every_corner<P: Fn(Transform2D, F32, F32) -> (F32, F32)>(
    b: Aabb,
    t: Transform2D,
    place: P,
    x: F32,
    y: F32,
    image: (F32, F32),
)
    requires
        places(place),
        !(t.a.equals(F32::one()) && t.b.equals(F32::zero()) && t.c.equals(F32::zero()) && t.d.equals(F32::one())
            && t.tx.equals(F32::zero()) && t.ty.equals(F32::zero())),
        b != Aabb::infinite(),
        x == b.min_x || x == b.max_x,
        y == b.min_y || y == b.max_y,
        call_ensures(place, (t, x, y), image),
    ensures
        !image.0.below(transformed_box(b, t, place).min_x),
        !transformed_box(b, t, place).max_x.below(image.0),
        !image.1.below(transformed_box(b, t, place).min_y),
        !transformed_box(b, t, place).max_y.below(image.1),
        !transformed_box(b, t, place).min_x.nan(),
        !transformed_box(b, t, place).max_x.nan(),
        !transformed_box(b, t, place).min_y.nan(),
        !transformed_box(b, t, place).max_y.nan(),
{
    let corners = seq![
        place_of(place, t, b.min_x, b.min_y),
        place_of(place, t, b.max_x, b.min_y),
        place_of(place, t, b.min_x, b.max_y),
        place_of(place, t, b.max_x, b.max_y),
    ];
    let i: int = if y == b.min_y {
        if x == b.min_x {
            0
        } else {
            1
        }
    } else if x == b.min_x {
        2
    } else {
        3
    };
    lemma_place_of(place, t, x, y, image);
    assert(corners[i] == place_of(place, t, x, y));
    lemma_box_holds(corners, i);
    lemma_box_is_numeric(corners);
}

proof fn lemma_place_of<P: Fn(Transform2D, F32, F32) -> (F32, F32)>(
    place: P,
    t: Transform2D,
    x: F32,
    y: F32,
    image: (F32, F32),
)
    requires
        places(place),
        call_ensures(place, (t, x, y), image),
    ensures
        place_of(place, t, x, y).x == image.0,
        place_of(place, t, x, y).y == image.1,
{
    let r = choose|r: (F32, F32)| call_ensures(place, (t, x, y), r);
    assert(call_ensures(place, (t, x, y), r));
}

/// Each side of a transformed box is touched by the image of one of the four
/// corners of the box, where all four images are numbers.
pub proof fn law_transformed_boxes_are_touched<P: Fn(Transform2D, F32, F32) -> (F32, F32)>(
    b: Aabb,
    t: Transform2D,
    place: P,
    p: (F32, F32),
    q: (F32, F32),
    r: (F32, F32),
    s: (F32, F32),
)
    requires
        places(place),
        !(t.a.equals(F32::one()) && t.b.equals(F32::zero()) && t.c.equals(F32::zero()) && t.d.equals(F32::one())
            && t.tx.equals(F32::zero()) && t.ty.equals(F32::zero())),
        b != Aabb::infinite(),
        call_ensures(place, (t, b.min_x, b.min_y), p),
        call_ensures(place, (t, b.max_x, b.min_y), q),
        call_ensures(place, (t, b.min_x, b.max_y), r),
        call_ensures(place, (t, b.max_x, b.max_y), s),
        !p.0.nan() && !q.0.nan() && !r.0.nan() && !s.0.nan(),
        !p.1.nan() && !q.1.nan() && !r.1.nan() && !s.1.nan(),
    ensures
        ({
            let m = transformed_box(b, t, place);
            &&& m.min_x == p.0 || m.min_x == q.0 || m.min_x == r.0 || m.min_x == s.0
            &&& m.max_x == p.0 || m.max_x == q.0 || m.max_x == r.0 || m.max_x == s.0
            &&& m.min_y == p.1 || m.min_y == q.1 || m.min_y == r.1 || m.min_y == s.1
            &&& m.max_y == p.1 || m.max_y == q.1 || m.max_y == r.1 || m.max_y == s.1
        }),
{
    let corners = seq![
        place_of(place, t, b.min_x, b.min_y),
        place_of(place, t, b.max_x, b.min_y),
        place_of(place, t, b.min_x, b.max_y),
        place_of(place, t, b.max_x, b.max_y),
    ];
    lemma_place_of(place, t, b.min_x, b.min_y, p);
    lemma_place_of(place, t, b.max_x, b.min_y, q);
    lemma_place_of(place, t, b.min_x, b.max_y, r);
    lemma_place_of(place, t, b.max_x, b.max_y, s);
    lemma_box_touched(corners);
}

/// The identity moves no box.
pub proof fn law_identity_moves_nothing<P: Fn(Transform2D, F32, F32) -> (F32, F32)>(
    b: Aabb,
    t: Transform2D,
    place: P,
)
    requires
        t.a.bits == 0x3f80_0000 && t.d.bits == 0x3f80_0000,
        t.b.bits % 0x8000_0000 == 0 && t.c.bits % 0x8000_0000 == 0,
        t.tx.bits % 0x8000_0000 == 0 && t.ty.bits % 0x8000_0000 == 0,
    ensures
        in_place(t),
        transformed_box(b, t, place) == b,
{
}

/// Only the identity is taken for the identity: the entries are 1 and 0, the
/// latter of either sign.
pub proof fn law_only_the_identity_is_in_place(t: Transform2D)
    requires
        in_place(t),
    ensures
        t.a.bits == 0x3f80_0000 && t.d.bits == 0x3f80_0000,
        t.b.bits % 0x8000_0000 == 0 && t.c.bits % 0x8000_0000 == 0,
        t.tx.bits % 0x8000_0000 == 0 && t.ty.bits % 0x8000_0000 == 0,
{
}

/// Two boxes overlap exactly where they share a point.
pub proof fn law_boxes_overlap_in_a_point(a: Aabb, b: Aabb)
    requires
        a.min_x.below(a.max_x) || a.min_x.equals(a.max_x),
        a.min_y.below(a.max_y) || a.min_y.equals(a.max_y),
        b.min_x.below(b.max_x) || b.min_x.equals(b.max_x),
        b.min_y.below(b.max_y) || b.min_y.equals(b.max_y),
    ensures
        overlap(a, b) <==> exists|x: F32, y: F32|
            {
                &&& !(#[trigger] x.nan())
                &&& !(#[trigger] y.nan())
                &&& a.min_x.order() <= x.order() <= a.max_x.order()
                &&& b.min_x.order() <= x.order() <= b.max_x.order()
                &&& a.min_y.order() <= y.order() <= a.max_y.order()
                &&& b.min_y.order() <= y.order() <= b.max_y.order()
            },
{
    if overlap(a, b) {
        let x = upper(a.min_x, b.min_x);
        let y = upper(a.min_y, b.min_y);
        assert(!x.nan() && !y.nan());
    }
}

/// A box with a margin has each side moved out by the margin, as the given sums
/// and differences have it.
pub proof fn law_margins_are_on_all_sides<A: Fn(F32, F32) -> F32, S: Fn(F32, F32) -> F32>(
    b: Aabb,
    padding: F32,
    add: A,
    sub: S,
    left: F32,
    top: F32,
    right: F32,
    bottom: F32,
)
    requires
        computes(add),
        computes(sub),
        call_ensures(sub, (b.min_x, padding), left),
        call_ensures(sub, (b.min_y, padding), top),
        call_ensures(add, (b.max_x, padding), right),
        call_ensures(add, (b.max_y, padding), bottom),
    ensures
        expanded_box(b, padding, add, sub) == (Aabb { min_x: left, min_y: top, max_x: right, max_y: bottom }),
{
    assert(call_ensures(sub, (b.min_x, padding), result_of(sub, b.min_x, padding)));
    assert(call_ensures(sub, (b.min_y, padding), result_of(sub, b.min_y, padding)));
    assert(call_ensures(add, (b.max_x, padding), result_of(add, b.max_x, padding)));
    assert(call_ensures(add, (b.max_y, padding), result_of(add, b.max_y, padding)));
}

/// A write is taken over where its operation has the higher time, or the same
/// time and the higher actor; otherwise the register stays as it is.
pub proof fn law_later_write_wins<T>(register: LwwRegister<T>, value: T, id: OpId)
    ensures
        ({
            let held = register.timestamp;
            if id.lamport.0 > held.lamport.0 || (id.lamport == held.lamport && id.actor.0 > held.actor.0) {
                written(register, value, id).value == value && written(register, value, id).timestamp == id
            } else {
                written(register, value, id) == register
            }
        }),
{
    crate::types::law_identifiers_are_ordered(id, register.timestamp);
    crate::types::law_identifiers_are_ordered(register.timestamp, id);
}

/// A stroke is first drawn in the given colour, width and opacity, in place,
/// and all of that is as old as the given operation.
pub proof fn law_strokes_are_drawn_as_given(color: u32, stroke_width: F32, opacity: F32, id: OpId)
    ensures
        ({
            let p = drawn(color, stroke_width, opacity, id);
            &&& p.color.value == color && p.stroke_width.value == stroke_width && p.opacity.value == opacity
            &&& p.transform.value.a.bits == 0x3f80_0000 && p.transform.value.d.bits == 0x3f80_0000
            &&& p.transform.value.b.bits == 0 && p.transform.value.c.bits == 0
            &&& p.transform.value.tx.bits == 0 && p.transform.value.ty.bits == 0
            &&& p.color.timestamp == id && p.stroke_width.timestamp == id && p.opacity.timestamp == id
            &&& p.transform.timestamp == id
        }),
{
}

/// The tools are numbered from 0 in the order of their names here, and every
/// number above stands for the pen.
pub proof fn law_tools_are_numbered(v: u8)
    ensures
        ToolKind::Pen.code() == 0 && ToolKind::Eraser.code() == 1 && ToolKind::Marker.code() == 2,
        ToolKind::Laser.code() == 3 && ToolKind::Shape.code() == 4 && ToolKind::Arrow.code() == 5,
        v <= 5 ==> ToolKind::of_code(v).code() == v,
        v > 5 ==> ToolKind::of_code(v) == ToolKind::Pen,
{
}

} // verus!
