//! The document as a Python host sees it.

use vectis_crdt::encoding::encode_op_id;
use vectis_crdt::float::F32;
use vectis_crdt::python::PyDocument;
use vectis_crdt::stroke::StrokePoint;
use vectis_crdt::types::{ActorId, LamportTs, OpId};

fn f(x: f32) -> F32 {
    F32 { bits: x.to_bits() }
}

fn g(x: F32) -> f32 {
    f32::from_bits(x.bits)
}

fn perp_dist(p: StrokePoint, a: StrokePoint, b: StrokePoint) -> F32 {
    let dx = g(b.x) - g(a.x);
    let dy = g(b.y) - g(a.y);
    let len_sq = dx * dx + dy * dy;
    if len_sq < 1e-10 {
        let ex = g(p.x) - g(a.x);
        let ey = g(p.y) - g(a.y);
        return f((ex * ex + ey * ey).sqrt());
    }
    let cross = (dx * (g(a.y) - g(p.y)) - dy * (g(a.x) - g(p.x))).abs();
    f(cross / len_sq.sqrt())
}

fn document(actor: u64) -> PyDocument {
    PyDocument::new(actor).ok().unwrap()
}

fn draw(doc: &mut PyDocument, list: &[(f32, f32, f32)]) -> Vec<u8> {
    let points = list.iter().map(|p| (f(p.0), f(p.1), f(p.2))).collect();
    doc.insert_stroke(&points, 2, 7, f(1.5), f(0.5), &perp_dist).ok().unwrap()
}

fn identifier(lamport: u64, actor: u64) -> Vec<u8> {
    encode_op_id(&OpId { lamport: LamportTs(lamport), actor: ActorId(actor) })
}

#[test]
fn actor_zero_is_refused() {
    assert_eq!(PyDocument::new(0).err().unwrap(), "actor_id 0 is reserved");
    assert_eq!(document(5).actor_id(), 5);
}

#[test]
fn a_stroke_needs_points() {
    let mut doc = document(1);
    let refused = doc.insert_stroke(&vec![], 0, 0, f(1.0), f(1.0), &perp_dist);
    assert_eq!(refused.err().unwrap(), "points must not be empty");
    assert_eq!(doc.visible_stroke_ids().len(), 0);
    assert_eq!(draw(&mut doc, &[(0.0, 0.0, 1.0)]), identifier(1, 1));
    assert_eq!(doc.visible_stroke_ids(), vec![identifier(1, 1)]);
}

#[test]
fn identifiers_have_sixteen_bytes() {
    let mut doc = document(1);
    let said = "stroke_id must be exactly 16 bytes, got 3";
    assert_eq!(doc.delete_stroke(&[1, 2, 3]).err().unwrap(), said);
    assert_eq!(doc.update_color(&[1, 2, 3], 1).err().unwrap(), said);
    assert_eq!(doc.update_stroke_width(&[1, 2, 3], f(1.0)).err().unwrap(), said);
    assert_eq!(doc.update_opacity(&[1, 2, 3], f(1.0)).err().unwrap(), said);
    assert_eq!(doc.simplify_stroke(&[1, 2, 3], f(1.0), &perp_dist).err().unwrap(), said);
    assert_eq!(doc.delete_stroke(&identifier(8, 8)), Ok(false));
}

#[test]
fn changes_reach_the_other_side() {
    let mut a = document(1);
    let mut b = document(2);
    let id = draw(&mut a, &[(0.0, 0.0, 1.0), (3.0, 4.0, 1.0)]);
    assert_eq!(a.update_color(&id, 99), Ok(true));
    assert_eq!(a.update_stroke_width(&id, f(9.0)), Ok(true));
    assert_eq!(a.update_opacity(&id, f(0.25)), Ok(true));
    let update = a.encode_pending_update();
    assert!(a.encode_pending_update().is_empty());
    assert_eq!(b.apply_update(&update), Ok(()));
    assert_eq!(b.visible_stroke_ids(), a.visible_stroke_ids());
    assert_eq!(a.encode_state_vector(), b.encode_state_vector());
    let key = OpId { lamport: LamportTs(1), actor: ActorId(1) };
    let (_, props) = b.inner.get_stroke(&key).unwrap();
    assert_eq!(props.color.value, 99);
    assert_eq!(g(props.stroke_width.value), 9.0);
    assert_eq!(g(props.opacity.value), 0.25);
    assert!(b.apply_update(&[7]).is_err());
}

#[test]
fn undo_goes_back_over_own_strokes() {
    let mut doc = document(1);
    let a = draw(&mut doc, &[(0.0, 0.0, 1.0)]);
    let b = draw(&mut doc, &[(0.0, 0.0, 1.0)]);
    assert_eq!(doc.undo_depth(), 2);
    assert_eq!(doc.undo(), Some(b));
    assert_eq!(doc.undo(), Some(a));
    assert_eq!(doc.undo(), None);
    assert_eq!(
        doc.stats("1.0000"),
        "{\"total\":2,\"visible\":0,\"tombstones\":2,\"tombstone_ratio\":1.0000,\"gc_generation\":0,\
         \"pending_ops\":4}"
    );
}

#[test]
fn snapshots_restore() {
    let mut doc = document(1);
    draw(&mut doc, &[(0.0, 0.0, 1.0)]);
    let copy = PyDocument::from_snapshot(9, &doc.encode_snapshot()).ok().unwrap();
    assert_eq!(copy.visible_stroke_ids(), doc.visible_stroke_ids());
    assert_eq!(copy.actor_id(), 9);
    assert_eq!(
        PyDocument::from_snapshot(9, &[2]).err().unwrap(),
        "snapshot version mismatch: expected 1, got 2"
    );
}

#[test]
fn simplifying_tells_how_many_points_are_gone() {
    let mut doc = document(1);
    doc.set_simplify_epsilon(f(0.0));
    let id = draw(&mut doc, &[(0.0, 0.0, 1.0), (1.0, 0.0, 1.0), (2.0, 0.0, 1.0), (3.0, 0.0, 1.0)]);
    assert_eq!(doc.simplify_stroke(&id, f(0.5), &perp_dist), Ok(2));
    assert_eq!(doc.simplify_stroke(&identifier(8, 8), f(0.5), &perp_dist), Ok(0));
}
