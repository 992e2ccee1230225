//! Strokes: paths, boxes, registers and simplification.

use vectis_crdt::float::F32;
use vectis_crdt::stroke::{
    Aabb, LwwRegister, StrokeData, StrokePoint, StrokeProperties, StrokeStore, ToolKind, Transform2D,
};
use vectis_crdt::types::{ActorId, LamportTs, OpId};

fn f(x: f32) -> F32 {
    F32 { bits: x.to_bits() }
}

fn g(x: F32) -> f32 {
    f32::from_bits(x.bits)
}

fn at(x: f32, y: f32) -> StrokePoint {
    StrokePoint::basic(f(x), f(y))
}

fn bounds(min_x: f32, min_y: f32, max_x: f32, max_y: f32) -> Aabb {
    Aabb { min_x: f(min_x), min_y: f(min_y), max_x: f(max_x), max_y: f(max_y) }
}

fn perp_dist(p: StrokePoint, a: StrokePoint, b: StrokePoint) -> F32 {
    let dx = g(b.x) - g(a.x);
    let dy = g(b.y) - g(a.y);
    let len_sq = dx * dx + dy * dy;
    if len_sq < 1e-10 {
        let ex = g(p.x) - g(a.x);
        let ey = g(p.y) - g(a.y);
        return f((ex * ex + ey * ey).sqrt());
    }
    let cross = (dx * (g(a.y) - g(p.y)) - dy * (g(a.x) - g(p.x))).abs();
    f(cross / len_sq.sqrt())
}

fn add(a: F32, b: F32) -> F32 {
    f(g(a) + g(b))
}

fn sub(a: F32, b: F32) -> F32 {
    f(g(a) - g(b))
}

fn place(t: Transform2D, x: F32, y: F32) -> (F32, F32) {
    let (x, y) = (g(x), g(y));
    (f(g(t.a) * x + g(t.c) * y + g(t.tx)), f(g(t.b) * x + g(t.d) * y + g(t.ty)))
}

fn id(lamport: u64, actor: u64) -> OpId {
    OpId { lamport: LamportTs(lamport), actor: ActorId(actor) }
}

#[test]
fn lww_register_apply() {
    let id_a = id(1, 1);
    let id_b = id(2, 1);
    let id_c = id(1, 1);

    let mut reg = LwwRegister::new(10u32, id_a);
    assert!(reg.apply(20, id_b));
    assert_eq!(reg.value, 20);
    assert!(!reg.apply(5, id_c));
    assert_eq!(reg.value, 20);
}

#[test]
fn transform2d_default_is_identity() {
    let t = Transform2D::default();
    assert!(t.is_identity());
    let t2 = Transform2D { a: f(1.0), b: f(0.0), c: f(0.0), d: f(1.0), tx: f(1.0), ty: f(0.0) };
    assert!(!t2.is_identity());
}

#[test]
fn aabb_from_points() {
    let pts = vec![at(0.0, 0.0), at(10.0, 5.0), at(-2.0, 8.0)];
    let b = Aabb::from_points(&pts);
    assert_eq!(g(b.min_x), -2.0);
    assert_eq!(g(b.min_y), 0.0);
    assert_eq!(g(b.max_x), 10.0);
    assert_eq!(g(b.max_y), 8.0);
}

#[test]
fn aabb_intersects() {
    let a = bounds(0.0, 0.0, 10.0, 10.0);
    let b = bounds(5.0, 5.0, 15.0, 15.0);
    let c = bounds(20.0, 20.0, 30.0, 30.0);
    assert!(a.intersects(&b));
    assert!(b.intersects(&a));
    assert!(!a.intersects(&c));
}

#[test]
fn aabb_expanded() {
    let a = bounds(0.0, 0.0, 10.0, 10.0);
    let e = a.expanded(f(2.0), &add, &sub);
    assert_eq!(g(e.min_x), -2.0);
    assert_eq!(g(e.max_x), 12.0);
}

#[test]
fn aabb_transform_identity_leaves_bounds_unchanged() {
    let a = bounds(1.0, 2.0, 5.0, 6.0);
    let t = Transform2D::default();
    let b = a.transform(&t, &place);
    assert!((g(b.min_x) - 1.0).abs() < 1e-5);
    assert!((g(b.min_y) - 2.0).abs() < 1e-5);
    assert!((g(b.max_x) - 5.0).abs() < 1e-5);
    assert!((g(b.max_y) - 6.0).abs() < 1e-5);
}

#[test]
fn aabb_transform_translation() {
    let a = bounds(0.0, 0.0, 10.0, 10.0);
    let t = Transform2D { a: f(1.0), b: f(0.0), c: f(0.0), d: f(1.0), tx: f(5.0), ty: f(-3.0) };
    let b = a.transform(&t, &place);
    assert!((g(b.min_x) - 5.0).abs() < 1e-5);
    assert!((g(b.min_y) - (-3.0)).abs() < 1e-5);
    assert!((g(b.max_x) - 15.0).abs() < 1e-5);
    assert!((g(b.max_y) - 7.0).abs() < 1e-5);
}

#[test]
fn rdp_straight_line_simplified_to_endpoints() {
    let pts: Vec<StrokePoint> = (0..100).map(|i| at(i as f32, i as f32)).collect();
    let mut data = StrokeData::new(pts, ToolKind::Pen);
    let removed = data.simplify(f(0.5), &perp_dist);
    assert_eq!(data.points.len(), 2, "straight line → 2 points");
    assert_eq!(removed, 98);
}

#[test]
fn rdp_curve_keeps_shape() {
    let pts: Vec<StrokePoint> = (0..=360)
        .map(|i| {
            let t = (i as f32).to_radians();
            at(i as f32, t.sin() * 100.0)
        })
        .collect();
    let n = pts.len();
    let mut data = StrokeData::new(pts, ToolKind::Pen);
    let removed = data.simplify(f(1.0), &perp_dist);
    assert!(data.points.len() < n / 2, "should reduce significantly");
    assert!(data.points.len() > 2, "should retain shape");
    assert_eq!(data.points.len() + removed, n);
}

#[test]
fn rdp_two_points_unchanged() {
    let pts = vec![at(0.0, 0.0), at(10.0, 10.0)];
    let mut data = StrokeData::new(pts, ToolKind::Pen);
    assert_eq!(data.simplify(f(0.5), &perp_dist), 0);
    assert_eq!(data.points.len(), 2);
}

#[test]
fn stroke_data_bounds_computed_on_new() {
    let data = StrokeData::new(vec![at(3.0, 7.0), at(9.0, 2.0)], ToolKind::Pen);
    assert_eq!(g(data.bounds.min_x), 3.0);
    assert_eq!(g(data.bounds.min_y), 2.0);
    assert_eq!(g(data.bounds.max_x), 9.0);
    assert_eq!(g(data.bounds.max_y), 7.0);
}

#[test]
fn simplify_recomputes_bounds() {
    let pts: Vec<StrokePoint> = (0..=10).map(|i| at(i as f32, i as f32)).collect();
    let mut data = StrokeData::new(pts, ToolKind::Pen);
    let removed = data.simplify(f(0.1), &perp_dist);
    assert!(removed > 0);
    assert!((g(data.bounds.min_x) - 0.0).abs() < 1e-5);
    assert!((g(data.bounds.max_x) - 10.0).abs() < 1e-5);
}

#[test]
fn comparisons_are_those_of_numbers() {
    let values = [
        f32::NEG_INFINITY,
        -1.5,
        -0.0,
        0.0,
        f32::MIN_POSITIVE,
        0.5,
        1.0,
        f32::MAX,
        f32::INFINITY,
        f32::NAN,
        -f32::NAN,
    ];
    for a in values {
        for b in values {
            assert_eq!(f(a).less(f(b)), a < b);
            assert_eq!(f(a).at_most(f(b)), a <= b);
            assert_eq!(f(a).same(f(b)), a == b);
        }
        assert_eq!(f(a).is_nan(), a.is_nan());
    }
    assert_eq!(g(F32::zero()), 0.0);
    assert_eq!(g(F32::half()), 0.5);
    assert_eq!(g(F32::one()), 1.0);
    assert_eq!(g(F32::infinity()), f32::INFINITY);
    assert_eq!(g(F32::neg_infinity()), f32::NEG_INFINITY);
}

#[test]
fn empty_strokes_are_never_culled() {
    let b = Aabb::from_points(&[]);
    assert_eq!(b, Aabb::infinite());
    assert!(b.intersects(&bounds(1e9, 1e9, 2e9, 2e9)));
}

#[test]
fn boxes_that_touch_overlap() {
    let a = bounds(0.0, 0.0, 1.0, 1.0);
    assert!(a.intersects(&bounds(1.0, 1.0, 2.0, 2.0)));
    assert!(!a.intersects(&bounds(1.5, 0.0, 2.0, 1.0)));
    assert!(!a.intersects(&bounds(0.0, -2.0, 1.0, -0.5)));
}

#[test]
fn points_that_are_no_numbers_do_not_move_the_bounds() {
    let b = Aabb::from_points(&[at(1.0, 2.0), at(f32::NAN, 9.0)]);
    assert_eq!(g(b.min_x), 1.0);
    assert_eq!(g(b.max_x), 1.0);
    assert_eq!(g(b.max_y), 9.0);
}

#[test]
fn a_point_in_view_keeps_its_stroke_in_view() {
    let pts = vec![at(-5.0, -5.0), at(3.0, 4.0), at(50.0, 1.0)];
    assert!(Aabb::from_points(&pts).intersects(&bounds(2.0, 3.0, 4.0, 5.0)));
}

#[test]
fn rotation_keeps_all_corners() {
    let t = Transform2D { a: f(0.0), b: f(1.0), c: f(-1.0), d: f(0.0), tx: f(0.0), ty: f(0.0) };
    let b = bounds(0.0, 0.0, 4.0, 2.0).transform(&t, &place);
    assert_eq!((g(b.min_x), g(b.min_y), g(b.max_x), g(b.max_y)), (-2.0, 0.0, 0.0, 4.0));
}

#[test]
fn corner_of_a_path_stays() {
    let mut data = StrokeData::new(
        vec![at(0.0, 0.0), at(1.0, 0.1), at(5.0, 5.0), at(9.0, 0.1), at(10.0, 0.0)],
        ToolKind::Pen,
    );
    assert_eq!(data.simplify(f(2.0), &perp_dist), 2);
    assert_eq!(data.points, vec![at(0.0, 0.0), at(5.0, 5.0), at(10.0, 0.0)]);
}

#[test]
fn ends_stay_where_everything_else_goes() {
    let mut data = StrokeData::new(vec![at(2.0, 0.0), at(1.0, 0.0), at(3.0, 0.0), at(7.0, 0.0)], ToolKind::Pen);
    data.simplify(f(100.0), &perp_dist);
    assert_eq!(data.points, vec![at(2.0, 0.0), at(7.0, 0.0)]);
}

#[test]
fn tool_codes() {
    let tools = [
        ToolKind::Pen,
        ToolKind::Eraser,
        ToolKind::Marker,
        ToolKind::Laser,
        ToolKind::Shape,
        ToolKind::Arrow,
    ];
    for (i, tool) in tools.iter().enumerate() {
        assert_eq!(tool.to_u8(), i as u8);
        assert_eq!(ToolKind::from_u8(i as u8), *tool);
    }
    assert_eq!(ToolKind::from_u8(200), ToolKind::Pen);
}

#[test]
fn writes_commute_and_repeat_harmlessly() {
    let writes = [(1u32, id(3, 1)), (2, id(3, 2)), (3, id(2, 9))];
    let mut forward = LwwRegister::new(0u32, OpId::zero());
    let mut backward = LwwRegister::new(0u32, OpId::zero());
    for (v, t) in writes {
        forward.apply(v, t);
        forward.apply(v, t);
    }
    for (v, t) in writes.iter().rev() {
        backward.apply(*v, *t);
    }
    assert_eq!(forward.value, 2);
    assert_eq!(backward.value, 2);
    assert_eq!(forward.timestamp, backward.timestamp);
}

#[test]
fn store_keeps_strokes_by_identifier() {
    let mut store = StrokeStore::new();
    let props = StrokeProperties::new(7, f(2.0), f(1.0), OpId::zero());
    store.insert(id(1, 1), StrokeData::new(vec![at(1.0, 1.0)], ToolKind::Marker), props);
    assert!(store.contains(&id(1, 1)));
    assert!(!store.contains(&id(1, 2)));
    assert_eq!(store.get(&id(1, 1)).unwrap().0.tool, ToolKind::Marker);
    store.get_mut(&id(1, 1)).unwrap().1.color.apply(9, id(2, 1));
    assert_eq!(store.get(&id(1, 1)).unwrap().1.color.value, 9);
    assert!(store.get(&id(2, 1)).is_none());
    assert!(store.remove(&id(1, 1)).is_some());
    assert!(!store.contains(&id(1, 1)));
}

#[test]
fn the_box_around_everything_stays() {
    let everything = Aabb::infinite();
    let t = Transform2D { a: f(2.0), b: f(0.5), c: f(0.0), d: f(1.0), tx: f(5.0), ty: f(-3.0) };
    for moved in [everything.transform(&Transform2D::default(), &place), everything.transform(&t, &place)] {
        assert_eq!(moved, everything);
        assert!(moved.intersects(&bounds(0.0, 0.0, 1.0, 1.0)));
    }
}
