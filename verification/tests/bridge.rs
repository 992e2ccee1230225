//! The document as a browser host sees it.

use vectis_crdt::awareness::{encode_cursor, CursorState};
use vectis_crdt::bridge::{vectis_encode_op_id, vectis_op_count, WasmDocument};
use vectis_crdt::encoding::{decode_op_id, encode_op_id};
use vectis_crdt::float::{F32, F64};
use vectis_crdt::stroke::{Aabb, StrokePoint, ToolKind, Transform2D};
use vectis_crdt::types::{ActorId, LamportTs, OpId};

fn f(x: f32) -> F32 {
    F32 { bits: x.to_bits() }
}

fn g(x: F32) -> f32 {
    f32::from_bits(x.bits)
}

fn perp_dist(p: StrokePoint, a: StrokePoint, b: StrokePoint) -> F32 {
    let dx = g(b.x) - g(a.x);
    let dy = g(b.y) - g(a.y);
    let len_sq = dx * dx + dy * dy;
    if len_sq < 1e-10 {
        let ex = g(p.x) - g(a.x);
        let ey = g(p.y) - g(a.y);
        return f((ex * ex + ey * ey).sqrt());
    }
    let cross = (dx * (g(a.y) - g(p.y)) - dy * (g(a.x) - g(p.x))).abs();
    f(cross / len_sq.sqrt())
}

fn divide(a: usize, b: usize) -> F64 {
    F64 { bits: (a as f64 / b as f64).to_bits() }
}

fn plus(a: F32, b: F32) -> F32 {
    f(g(a) + g(b))
}

fn minus(a: F32, b: F32) -> F32 {
    f(g(a) - g(b))
}

fn place(t: Transform2D, x: F32, y: F32) -> (F32, F32) {
    (
        f(g(t.a) * g(x) + g(t.c) * g(y) + g(t.tx)),
        f(g(t.b) * g(x) + g(t.d) * g(y) + g(t.ty)),
    )
}

fn floats(list: &[f32]) -> Vec<F32> {
    list.iter().map(|x| f(*x)).collect()
}

fn draw(doc: &mut WasmDocument, list: &[f32]) -> Vec<u8> {
    doc.insert_stroke(&floats(list), ToolKind::Pen as u8, 0x11223344, f(2.0), f(0.5), &perp_dist)
}

fn le(x: f32) -> [u8; 4] {
    x.to_le_bytes()
}

#[test]
fn strokes_are_drawn_and_read() {
    let mut doc = WasmDocument::new(7);
    assert_eq!((doc.actor_id(), doc.lamport()), (7, 0));
    let id = draw(&mut doc, &[0.0, 1.0, 0.5, 4.0, 9.0, 0.25, 77.0]);
    assert_eq!(id, vectis_encode_op_id(1, 7));
    assert_eq!(doc.lamport(), 1);
    assert_eq!(doc.get_visible_stroke_ids(), id);
    assert_eq!(doc.get_stroke_point_count(&id), 2);
    let mut points = Vec::new();
    for x in [0.0, 1.0, 0.5, 4.0, 9.0, 0.25] {
        points.extend(le(x));
    }
    let owned = doc.get_stroke_data_owned(&id);
    assert_eq!(owned[..16], id[..]);
    assert_eq!(owned[57..], points[..]);
    let mut bounds = Vec::new();
    for x in [0.0, 1.0, 4.0, 9.0] {
        bounds.extend(le(x));
    }
    assert_eq!(doc.get_stroke_bounds(&id), bounds);
    let other = vectis_encode_op_id(9, 9);
    assert!(doc.get_stroke_data_owned(&other).is_empty());
    assert!(doc.get_stroke_bounds(&other).is_empty());
    assert_eq!(doc.get_stroke_point_count(&other), 0);
}

#[test]
fn records_are_laid_out_in_a_fixed_order() {
    let mut doc = WasmDocument::new(7);
    let id = draw(&mut doc, &[1.0, 2.0, 0.5]);
    doc.build_render_data();
    let mut expected = id.clone();
    expected.extend([1, 0, 0, 0, 0]);
    expected.extend(0x11223344u32.to_le_bytes());
    for x in [2.0, 0.5, 1.0, 0.0, 0.0, 1.0, 0.0, 0.0, 1.0, 2.0, 0.5] {
        expected.extend(le(x));
    }
    assert_eq!(doc.render_buf, expected);
    assert_eq!(doc.get_render_data_len(), expected.len());
}

#[test]
fn only_strokes_in_view_are_rendered() {
    let mut doc = WasmDocument::new(7);
    let near = draw(&mut doc, &[0.0, 0.0, 1.0, 10.0, 10.0, 1.0]);
    let far = draw(&mut doc, &[100.0, 100.0, 1.0, 110.0, 110.0, 1.0]);
    let window = Aabb { min_x: f(0.0), min_y: f(0.0), max_x: f(50.0), max_y: f(50.0) };
    doc.build_render_data_viewport(window, f(2.0), &plus, &minus, &place);
    assert_eq!(doc.render_buf[..16], near[..]);
    let one = doc.get_render_data_len();
    doc.build_render_data_viewport(window, f(51.0), &plus, &minus, &place);
    assert_eq!(doc.get_render_data_len(), 2 * one);
    // Moved into view.
    let mut moved = Vec::new();
    for x in [1.0, 0.0, 0.0, 1.0, -90.0, -90.0] {
        moved.extend(le(x));
    }
    assert!(doc.update_stroke_property(&far, 3, &moved));
    doc.build_render_data_viewport(window, f(2.0), &plus, &minus, &place);
    assert_eq!(doc.get_render_data_len(), 2 * one);
}

#[test]
fn properties_go_by_key() {
    let mut doc = WasmDocument::new(7);
    let id = draw(&mut doc, &[1.0, 2.0, 0.5]);
    assert!(doc.update_stroke_property(&id, 0, &[1, 2, 3, 4]));
    assert!(doc.update_stroke_property(&id, 1, &le(6.0)));
    assert!(doc.update_stroke_property(&id, 2, &le(0.75)));
    assert!(!doc.update_stroke_property(&id, 0, &[1, 2, 3]));
    assert!(!doc.update_stroke_property(&id, 3, &[0; 23]));
    assert!(!doc.update_stroke_property(&id, 4, &[0; 24]));
    assert!(!doc.update_stroke_property(&vectis_encode_op_id(9, 9), 0, &[1, 2, 3, 4]));
    let (_, props) = doc.inner.get_stroke(&decode_op_id(&id)).unwrap();
    assert_eq!(props.color.value, 0x04030201);
    assert_eq!(g(props.stroke_width.value), 6.0);
    assert_eq!(g(props.opacity.value), 0.75);
}

#[test]
fn updates_travel_between_hosts() {
    let mut a = WasmDocument::new(1);
    let mut b = WasmDocument::new(2);
    let first = draw(&mut a, &[1.0, 2.0, 0.5]);
    let early = a.encode_pending_update();
    let second = draw(&mut a, &[3.0, 4.0, 0.5]);
    let late = a.encode_pending_update();
    assert!(a.encode_pending_update().is_empty());
    assert_eq!(vectis_op_count(&early), 1);
    assert!(b.apply_update(&late).is_empty());
    assert_eq!(b.causal_buffer_len(), 1);
    b.apply_update(&early);
    assert_eq!(b.causal_buffer_len(), 0);
    assert_eq!(b.get_visible_stroke_ids(), [first, second].concat());
    assert_eq!(a.encode_state_vector(), b.encode_state_vector());
    assert!(b.apply_update(&[9, 9, 9]).is_empty());
    let copy = WasmDocument::from_snapshot(3, &a.encode_snapshot()).ok().unwrap();
    assert_eq!(copy.get_visible_stroke_ids(), a.get_visible_stroke_ids());
    assert_eq!(copy.actor_id(), 3);
    assert_eq!(WasmDocument::from_snapshot(3, &[]).err().unwrap(), "decoding error: empty snapshot");
}

#[test]
fn deletion_undo_and_collection_are_told() {
    let mut doc = WasmDocument::new(1);
    let a = draw(&mut doc, &[1.0, 2.0, 0.5]);
    let b = draw(&mut doc, &[1.0, 2.0, 0.5]);
    assert_eq!(doc.undo_depth(), 2);
    assert!(doc.delete_stroke(&a));
    assert!(!doc.delete_stroke(&a));
    assert_eq!(doc.undo(), b);
    assert!(doc.undo().is_empty());
    assert_eq!(
        doc.stats("1.000"),
        "{\"total_items\":2,\"visible\":0,\"tombstones\":2,\"tombstone_ratio\":1.000,\"gc_gen\":0,\
         \"pending_ops\":4,\"causal_buffer\":0,\"awareness_peers\":0}"
    );
    assert_eq!(doc.update_min_version_and_gc(&[0], &divide).unwrap(),
        "{\"removed\":0,\"freed\":0,\"gen\":1,\"partial\":false}");
    let seen = doc.encode_state_vector();
    let told = doc.update_min_version_and_gc(&seen, &divide).unwrap();
    assert_eq!(told, "{\"removed\":2,\"freed\":616,\"gen\":2,\"partial\":false}");
    assert_eq!(doc.update_min_version_and_gc(&seen, &divide), None);
}

#[test]
fn cursors_are_kept_and_dropped() {
    let mut doc = WasmDocument::new(1);
    let mine = doc.encode_local_cursor(f(1.0), f(2.0), 50, 9);
    assert_eq!(mine, encode_cursor(&CursorState::new(ActorId(1), f(1.0), f(2.0), 50, 9)));
    let other = encode_cursor(&CursorState::new(ActorId(2), f(1.0), f(2.0), 100, 9));
    let third = encode_cursor(&CursorState::new(ActorId(3), f(1.0), f(2.0), 5000, 9));
    assert!(doc.apply_cursor_update(&other));
    assert!(doc.apply_cursor_update(&third));
    assert!(!doc.apply_cursor_update(&other[..27]));
    let older = encode_cursor(&CursorState::new(ActorId(2), f(7.0), f(2.0), 99, 9));
    assert!(!doc.apply_cursor_update(&older));
    assert!(!doc.apply_cursor_update(&other));
    let all = doc.get_all_cursors();
    assert!(all == [other.clone(), third.clone()].concat() || all == [third.clone(), other.clone()].concat());
    doc.set_cursor_ttl(1000);
    assert_eq!(doc.evict_stale_cursors(5500), 1);
    assert_eq!(doc.get_all_cursors(), third);
    doc.remove_cursor(3);
    assert!(doc.get_all_cursors().is_empty());
}

#[test]
fn paths_are_simplified_on_request() {
    let mut doc = WasmDocument::new(1);
    doc.set_simplify_epsilon(f(0.0));
    let id = draw(&mut doc, &[0.0, 0.0, 1.0, 1.0, 0.0, 1.0, 2.0, 0.0, 1.0]);
    assert_eq!(doc.get_stroke_point_count(&id), 3);
    assert_eq!(doc.simplify_stroke(&id, f(0.5), &perp_dist), 1);
    assert_eq!(doc.get_stroke_point_count(&id), 2);
    assert_eq!(doc.simplify_stroke(&vectis_encode_op_id(9, 9), f(0.5), &perp_dist), 0);
}

#[test]
fn helpers_of_the_bridge() {
    let id = OpId { lamport: LamportTs(3), actor: ActorId(4) };
    assert_eq!(vectis_encode_op_id(3, 4), encode_op_id(&id));
    assert_eq!(vectis_op_count(&[]), 0);
    assert_eq!(vectis_op_count(&[0]), 0);
    assert_eq!(vectis_op_count(&[1, 9]), 0);
}
