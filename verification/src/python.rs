//! A document for a host that reports errors as texts: a scripting language.
//!
//! Identifiers must be exactly sixteen bytes long, and actor 0 is refused.

use crate::document;
use crate::document::{Document, DocumentView};
use crate::encoding;
use crate::float::F32;
use crate::operation;
use crate::operation::PropertyUpdate;
use crate::rga;
use crate::rga::StrokeId;
use crate::simplify;
use crate::snapshot;
use crate::stroke;
use crate::stroke::{StrokeData, StrokePoint, StrokeProperties, ToolKind};
use crate::text;
use crate::types::{ActorId, OpId};
use vstd::prelude::*;

verus! {

/// A document.
pub struct PyDocument {
    pub inner: Document,
}

impl View for PyDocument {
    type V = DocumentView;

    open spec fn view(&self) -> DocumentView {
        self.inner@
    }
}

/// The identifier in sixteen bytes, or what is wrong with them.
pub open spec fn id_of(bytes: Seq<u8>) -> Result<OpId, Seq<char>> {
    if bytes.len() != 16 {
        Err("stroke_id must be exactly 16 bytes, got "@ + text::decimal(bytes.len()))
    } else {
        Ok(encoding::parse_fixed_id(bytes))
    }
}

/// The points of a path.
pub open spec fn path_of(points: Seq<(F32, F32, F32)>) -> Seq<StrokePoint> {
    points.map_values(|p: (F32, F32, F32)| StrokePoint { x: p.0, y: p.1, pressure: p.2 })
}

/// Whether a change of a stroke was answered as it should be.
pub open spec fn answered<T>(
    before: DocumentView,
    after: DocumentView,
    result: Result<T, String>,
    id: Seq<u8>,
    change: spec_fn(OpId) -> (DocumentView, T),
) -> bool {
    match id_of(id) {
        Ok(target) => result matches Ok(value) && (after, value) == change(target),
        Err(e) => result matches Err(message) && message@ == e && after == before,
    }
}

/// What a host is told of the counts; `ratio` is the share of tombstones as it
/// is to be shown.
pub open spec fn stats_json(s: DocumentView, ratio: Seq<char>) -> Seq<char> {
    "{\"total\":"@ + text::decimal(s.items.len()) + ",\"visible\":"@ + text::decimal(rga::visible(s.items).len())
        + ",\"tombstones\":"@ + text::decimal(rga::tombstones(s.items)) + ",\"tombstone_ratio\":"@ + ratio
        + ",\"gc_generation\":"@ + text::decimal(s.gc_generation as nat) + ",\"pending_ops\":"@ + text::decimal(
        s.pending.len(),
    ) + "}"@
}

/// The sixteen bytes of each identifier.
pub open spec fn id_list(ids: Seq<OpId>) -> Seq<Seq<u8>> {
    ids.map_values(|id: OpId| encoding::fixed_id(id))
}

/// The identifier in sixteen bytes.
fn bytes_to_id(bytes: &[u8]) -> (result: Result<StrokeId, String>)
    ensures
        match id_of(bytes@) {
            Ok(id) => result matches Ok(found) && found == id,
            Err(e) => result matches Err(message) && message@ == e,
        },
{
    if bytes.len() != 16 {
        let mut message = String::new();
        message.append("stroke_id must be exactly 16 bytes, got ");
        text::push_decimal(&mut message, bytes.len() as u64);
        proof {
            assert(message@ =~= "stroke_id must be exactly 16 bytes, got "@ + text::decimal(bytes@.len()));
        }
        return Err(message);
    }
    Ok(encoding::decode_op_id(bytes))
}

impl PyDocument {
    pub open spec fn wf(&self) -> bool {
        self.inner.wf()
    }

    /// An empty document of an actor. Actor 0 is reserved.
    pub fn new(actor_id: u64) -> (result: Result<Self, String>)
        ensures
            match result {
                Ok(doc) => actor_id != 0 && doc.wf() && doc@ == document::blank(ActorId(actor_id)),
                Err(message) => actor_id == 0 && message@ == "actor_id 0 is reserved"@,
            },
    {
        if actor_id == 0 {
            return Err("actor_id 0 is reserved".to_string());
        }
        Ok(PyDocument { inner: Document::new(ActorId(actor_id)) })
    }

    /// The document of a snapshot, or why there is none.
    pub fn from_snapshot(actor_id: u64, bytes: &[u8]) -> (result: Result<Self, String>)
        ensures
            match snapshot::parse_snapshot(bytes@, ActorId(actor_id)) {
                Ok(s) => result matches Ok(doc) && doc.wf() && doc@ == s,
                Err(e) => result matches Err(message) && message@ == e.message(),
            },
    {
        match snapshot::decode_snapshot(bytes, ActorId(actor_id)) {
            Ok(doc) => Ok(PyDocument { inner: doc }),
            Err(e) => Err(e.to_string()),
        }
    }

    /// Draws a stroke, and gives its identifier. A path without points is
    /// refused.
    pub fn insert_stroke<D: Fn(StrokePoint, StrokePoint, StrokePoint) -> F32>(
        &mut self,
        points: &Vec<(F32, F32, F32)>,
        tool: u8,
        color: u32,
        stroke_width: F32,
        opacity: F32,
        distance: &D,
    ) -> (result: Result<Vec<u8>, String>)
        requires
            old(self).wf(),
            old(self)@.clock < u64::MAX,
            old(self)@.items.len() < usize::MAX,
            simplify::well_defined(*distance),
        ensures
            final(self).wf(),
            points@.len() == 0 ==> {
                &&& result matches Err(message)
                &&& message@ == "points must not be empty"@
                &&& final(self)@ == old(self)@
            },
            points@.len() > 0 ==> {
                let path = stroke::stroke_data(path_of(points@), ToolKind::of_code(tool));
                &&& result matches Ok(id)
                &&& id@ == encoding::fixed_id(document::next_id(old(self)@))
                &&& final(self)@ == document::inserted(
                    old(self)@,
                    document::tidied(path, simplify::measure(*distance), old(self)@.simplify_epsilon),
                    stroke::drawn(color, stroke_width, opacity, OpId::zero()),
                )
            },
    {
        if points.len() == 0 {
            return Err("points must not be empty".to_string());
        }
        let mut list: Vec<StrokePoint> = Vec::new();
        let mut i: usize = 0;
        while i < points.len()
            invariant
                i <= points@.len(),
                list@.len() == i,
                forall|j: int| 0 <= j < i ==> #[trigger] list@[j] == path_of(points@)[j],
            decreases points@.len() - i,
        {
            let (x, y, pressure): (F32, F32, F32) = points[i];
            list.push(StrokePoint::new(x, y, pressure));
            i += 1;
        }
        proof {
            assert(list@ =~= path_of(points@));
        }
        let data = StrokeData::new(list, ToolKind::from_u8(tool));
        let props = StrokeProperties::new(color, stroke_width, opacity, OpId::zero());
        let id = self.inner.insert_stroke(data, props, distance);
        Ok(encoding::encode_op_id(&id))
    }

    /// Deletes a stroke, and says whether it was there and visible.
    pub fn delete_stroke(&mut self, stroke_id: &[u8]) -> (result: Result<bool, String>)
        requires
            old(self).wf(),
            old(self)@.clock < u64::MAX,
        ensures
            final(self).wf(),
            answered(
                old(self)@,
                final(self)@,
                result,
                stroke_id@,
                |id: OpId| (document::deleted(old(self)@, id), document::deletable(old(self)@, id)),
            ),
    {
        match bytes_to_id(stroke_id) {
            Ok(id) => Ok(self.inner.delete_stroke(id)),
            Err(message) => Err(message),
        }
    }

    /// Changes the colour of a stroke, and says whether it is known.
    pub fn update_color(&mut self, stroke_id: &[u8], color: u32) -> (result: Result<bool, String>)
        requires
            old(self).wf(),
            old(self)@.clock < u64::MAX,
        ensures
            final(self).wf(),
            answered(
                old(self)@,
                final(self)@,
                result,
                stroke_id@,
                |id: OpId|
                    (
                        document::property_changed(old(self)@, id, PropertyUpdate::Color(color)),
                        old(self)@.strokes.contains_key(id),
                    ),
            ),
    {
        match bytes_to_id(stroke_id) {
            Ok(id) => Ok(self.inner.update_color(id, color)),
            Err(message) => Err(message),
        }
    }

    /// Changes the width of a stroke, and says whether it is known.
    pub fn update_stroke_width(&mut self, stroke_id: &[u8], width: F32) -> (result: Result<bool, String>)
        requires
            old(self).wf(),
            old(self)@.clock < u64::MAX,
        ensures
            final(self).wf(),
            answered(
                old(self)@,
                final(self)@,
                result,
                stroke_id@,
                |id: OpId|
                    (
                        document::property_changed(old(self)@, id, PropertyUpdate::StrokeWidth(width)),
                        old(self)@.strokes.contains_key(id),
                    ),
            ),
    {
        match bytes_to_id(stroke_id) {
            Ok(id) => Ok(self.inner.update_stroke_width(id, width)),
            Err(message) => Err(message),
        }
    }

    /// Changes the opacity of a stroke, and says whether it is known.
    pub fn update_opacity(&mut self, stroke_id: &[u8], opacity: F32) -> (result: Result<bool, String>)
        requires
            old(self).wf(),
            old(self)@.clock < u64::MAX,
        ensures
            final(self).wf(),
            answered(
                old(self)@,
                final(self)@,
                result,
                stroke_id@,
                |id: OpId|
                    (
                        document::property_changed(old(self)@, id, PropertyUpdate::Opacity(opacity)),
                        old(self)@.strokes.contains_key(id),
                    ),
            ),
    {
        match bytes_to_id(stroke_id) {
            Ok(id) => Ok(self.inner.update_opacity(id, opacity)),
            Err(message) => Err(message),
        }
    }

    /// Undoes the last stroke drawn here, and gives its identifier.
    pub fn undo(&mut self) -> (undone: Option<Vec<u8>>)
        requires
            old(self).wf(),
            document::undo_fits(old(self)@),
        ensures
            final(self).wf(),
            final(self)@ == document::undone(old(self)@).0,
            match document::undone(old(self)@).1 {
                Some(id) => undone matches Some(bytes) && bytes@ == encoding::fixed_id(id),
                None => undone is None,
            },
    {
        match self.inner.undo_last_stroke() {
            Some(id) => Some(encoding::encode_op_id(&id)),
            None => None,
        }
    }

    /// The number of strokes that undo can go back over.
    pub fn undo_depth(&self) -> (n: usize)
        ensures
            n == self@.undo.len(),
    {
        self.inner.undo_depth()
    }

    /// Applies an update, operation by operation, as it comes.
    pub fn apply_update(&mut self, data: &[u8]) -> (result: Result<(), String>)
        requires
            old(self).wf(),
        ensures
            final(self).wf(),
            match encoding::parse_update(data@) {
                Ok(ops) => result is Ok && final(self)@ == document::applied_all(old(self)@, ops),
                Err(e) => result matches Err(message) && message@ == e.message() && final(self)@ == old(self)@,
            },
    {
        match encoding::decode_update(data) {
            Ok(ops) => {
                self.inner.apply_all(ops);
                Ok(())
            },
            Err(e) => Err(e.to_string()),
        }
    }

    /// Hands over the local operations as an update; nothing where there are
    /// none.
    pub fn encode_pending_update(&mut self) -> (update: Vec<u8>)
        requires
            old(self).wf(),
        ensures
            final(self).wf(),
            final(self)@ == (DocumentView { pending: seq![], ..old(self)@ }),
            update@ == (if old(self)@.pending.len() == 0 {
                Seq::<u8>::empty()
            } else {
                encoding::update_blob(old(self)@.pending)
            }),
    {
        let ops = self.inner.take_pending_ops();
        proof {
            assert(operation::views(ops@).len() == ops@.len());
        }
        if ops.len() == 0 {
            return Vec::new();
        }
        encoding::encode_update(ops.as_slice())
    }

    pub fn encode_state_vector(&self) -> (bytes: Vec<u8>)
        ensures
            bytes@ == encoding::state_vector(self@.version),
    {
        encoding::encode_state_vector(&self.inner.version)
    }

    pub fn encode_snapshot(&self) -> (bytes: Vec<u8>)
        ensures
            bytes@ == snapshot::snapshot_bytes(self@, snapshot::registers(self.inner.metadata.entries@)),
    {
        snapshot::encode_snapshot(&self.inner)
    }

    /// The identifiers of the visible strokes, bottom to top.
    pub fn visible_stroke_ids(&self) -> (list: Vec<Vec<u8>>)
        ensures
            list@.map_values(|b: Vec<u8>| b@) == id_list(document::visible_ids(self@.items)),
    {
        let ids = self.inner.visible_stroke_ids();
        let mut list: Vec<Vec<u8>> = Vec::new();
        let mut i: usize = 0;
        while i < ids.len()
            invariant
                i <= ids@.len(),
                list@.len() == i,
                forall|j: int| 0 <= j < i ==> (#[trigger] list@[j])@ == encoding::fixed_id(ids@[j]),
            decreases ids@.len() - i,
        {
            list.push(encoding::encode_op_id(&ids[i]));
            i += 1;
        }
        proof {
            assert(list@.map_values(|b: Vec<u8>| b@) =~= id_list(ids@));
        }
        list
    }

    /// How far a path may stray when it is simplified. At 0 it is kept as it
    /// is.
    pub fn set_simplify_epsilon(&mut self, epsilon: F32)
        requires
            old(self).wf(),
        ensures
            final(self).wf(),
            final(self)@ == (DocumentView { simplify_epsilon: epsilon, ..old(self)@ }),
    {
        self.inner.simplify_epsilon = epsilon;
    }

    /// Simplifies a stroke, and says how many points are gone.
    pub fn simplify_stroke<D: Fn(StrokePoint, StrokePoint, StrokePoint) -> F32>(
        &mut self,
        stroke_id: &[u8],
        epsilon: F32,
        distance: &D,
    ) -> (result: Result<usize, String>)
        requires
            old(self).wf(),
            simplify::well_defined(*distance),
            ({
                let id = encoding::parse_fixed_id(stroke_id@);
                old(self)@.strokes.contains_key(id) ==> simplify::halts(
                    old(self)@.strokes[id].data.points,
                    simplify::measure(*distance),
                    epsilon,
                )
            }),
        ensures
            final(self).wf(),
            answered(
                old(self)@,
                final(self)@,
                result,
                stroke_id@,
                |id: OpId|
                    {
                        let s = old(self)@;
                        let t = document::resimplified(s, id, simplify::measure(*distance), epsilon);
                        (
                            t,
                            (if s.strokes.contains_key(id) {
                                s.strokes[id].data.points.len() - t.strokes[id].data.points.len()
                            } else {
                                0
                            }) as usize,
                        )
                    },
            ),
    {
        match bytes_to_id(stroke_id) {
            Ok(id) => Ok(self.inner.simplify_stroke(id, epsilon, distance)),
            Err(message) => Err(message),
        }
    }

    pub fn actor_id(&self) -> (id: u64)
        ensures
            id == self@.actor.0,
    {
        self.inner.local_actor.0
    }

    /// Tells of the counts. `ratio` is the share of tombstones as it is to be
    /// shown.
    pub fn stats(&self, ratio: &str) -> (json: String)
        requires
            self.wf(),
        ensures
            json@ == stats_json(self@, ratio@),
    {
        proof {
            rga::lemma_tombstones_visible(self@.items);
        }
        let order = &self.inner.stroke_order;
        let mut json = String::new();
        json.append("{\"total\":");
        text::push_decimal(&mut json, order.total_count as u64);
        json.append(",\"visible\":");
        text::push_decimal(&mut json, (order.total_count - order.tombstone_count) as u64);
        json.append(",\"tombstones\":");
        text::push_decimal(&mut json, order.tombstone_count as u64);
        json.append(",\"tombstone_ratio\":");
        json.append(ratio);
        json.append(",\"gc_generation\":");
        text::push_decimal(&mut json, self.inner.gc_generation);
        json.append(",\"pending_ops\":");
        text::push_decimal(&mut json, self.inner.pending_ops.len() as u64);
        json.append("}");
        proof {
            assert(json@ =~= stats_json(self@, ratio@));
        }
        json
    }
}

/// An identifier has sixteen bytes. With any other number of them nothing
/// changes and an error is given back; with sixteen the change is made to the
/// stroke that they name.
pub proof fn law_identifiers_have_sixteen_bytes<T>(
    before: DocumentView,
    after: DocumentView,
    result: Result<T, String>,
    id: Seq<u8>,
    change: spec_fn(OpId) -> (DocumentView, T),
)
    requires
        answered(before, after, result, id, change),
    ensures
        id.len() != 16 ==> result is Err && after == before,
        id.len() == 16 ==> {
            &&& result is Ok
            &&& encoding::fixed_id(encoding::parse_fixed_id(id)) == id
            &&& (after, result->Ok_0) == change(encoding::parse_fixed_id(id))
        },
{
    if id.len() == 16 {
        crate::round_trip::law_identifier_layout(OpId::zero(), id);
        assert(id.take(16) =~= id);
    }
}

/// Points are handed over as they are, x, y and pressure.
pub proof fn law_points_are_taken_over(points: Seq<(F32, F32, F32)>, i: int)
    ensures
        path_of(points).len() == points.len(),
        0 <= i < points.len() ==> (path_of(points)[i].x, path_of(points)[i].y, path_of(points)[i].pressure)
            == points[i],
{
}

/// The identifiers of strokes are listed in their order, each in the fixed form.
pub proof fn law_identifiers_are_listed(ids: Seq<OpId>, i: int)
    ensures
        id_list(ids).len() == ids.len(),
        0 <= i < ids.len() ==> id_list(ids)[i].len() == 16 && encoding::parse_fixed_id(id_list(ids)[i]) == ids[i],
{
    if 0 <= i < ids.len() {
        crate::round_trip::law_fixed_id_round_trip(ids[i]);
    }
}

/// What is told of a document names its counts: all items, those that are not
/// deleted and those that are, the cycles of collection, and the operations that
/// wait to be sent.
pub proof fn law_counts_are_told(s: DocumentView, ratio: Seq<char>)
    ensures
        stats_json(s, ratio) == "{\"total\":"@ + text::decimal(s.items.len()) + ",\"visible\":"@ + text::decimal(
            s.items.filter(|item: rga::RgaItem| item.state is Active).len(),
        ) + ",\"tombstones\":"@ + text::decimal(s.items.filter(|item: rga::RgaItem| item.state is Tombstone).len())
            + ",\"tombstone_ratio\":"@ + ratio + ",\"gc_generation\":"@ + text::decimal(s.gc_generation as nat)
            + ",\"pending_ops\":"@ + text::decimal(s.pending.len()) + "}"@,
{
    rga::law_items_are_visible_or_deleted(s.items);
}

} // verus!
