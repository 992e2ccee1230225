//! Operations: what replicas exchange and what the op-log keeps.

use crate::float::F32;
use crate::metadata;
use crate::metadata::{MetadataKey, MetadataKeyView, MetadataValue, MetadataValueView};
use crate::rga::StrokeId;
use crate::stroke;
use crate::stroke::{StrokeData, StrokeDataView, StrokeProperties, Transform2D};
use crate::types::OpId;
use vstd::prelude::*;

verus! {

/// A change of one stroke property.
#[derive(Debug, Clone, Copy, PartialEq, Eq, Structural)]
pub enum PropertyUpdate {
    Color(u32),
    StrokeWidth(F32),
    Opacity(F32),
    Transform(Transform2D),
}

/// An operation of one replica.
#[derive(Debug)]
pub enum Operation {
    InsertStroke {
        id: OpId,
        origin_left: OpId,
        origin_right: OpId,
        data: StrokeData,
        properties: StrokeProperties,
    },
    DeleteStroke {
        id: OpId,
        /// The stroke to delete.
        target: StrokeId,
    },
    UpdateProperty { id: OpId, target: StrokeId, update: PropertyUpdate },
    UpdateMetadata {
        id: OpId,
        key: MetadataKey,
        /// `None` deletes the key.
        value: Option<MetadataValue>,
    },
}

/// The contents of an [`Operation`].
#[verifier::ext_equal]
pub enum OperationView {
    InsertStroke {
        id: OpId,
        origin_left: OpId,
        origin_right: OpId,
        data: StrokeDataView,
        properties: StrokeProperties,
    },
    DeleteStroke { id: OpId, target: OpId },
    UpdateProperty { id: OpId, target: OpId, update: PropertyUpdate },
    UpdateMetadata { id: OpId, key: MetadataKeyView, value: Option<MetadataValueView> },
}

impl View for Operation {
    type V = OperationView;

    open spec fn view(&self) -> OperationView {
        match self {
            Operation::InsertStroke { id, origin_left, origin_right, data, properties } => OperationView::InsertStroke {
                id: *id,
                origin_left: *origin_left,
                origin_right: *origin_right,
                data: data@,
                properties: *properties,
            },
            Operation::DeleteStroke { id, target } => OperationView::DeleteStroke { id: *id, target: *target },
            Operation::UpdateProperty { id, target, update } => OperationView::UpdateProperty {
                id: *id,
                target: *target,
                update: *update,
            },
            Operation::UpdateMetadata { id, key, value } => OperationView::UpdateMetadata {
                id: *id,
                key: key@,
                value: metadata::option_view(*value),
            },
        }
    }
}

/// The contents of a list of operations.
pub open spec fn views(ops: Seq<Operation>) -> Seq<OperationView> {
    ops.map_values(|op: Operation| op@)
}

impl OperationView {
    /// The identifier of the operation itself.
    pub open spec fn id(self) -> OpId {
        match self {
            OperationView::InsertStroke { id, .. } => id,
            OperationView::DeleteStroke { id, .. } => id,
            OperationView::UpdateProperty { id, .. } => id,
            OperationView::UpdateMetadata { id, .. } => id,
        }
    }

    /// The stroke that the operation is about, if any.
    pub open spec fn target_stroke(self) -> Option<OpId> {
        match self {
            OperationView::InsertStroke { id, .. } => Some(id),
            OperationView::DeleteStroke { target, .. } => Some(target),
            OperationView::UpdateProperty { target, .. } => Some(target),
            OperationView::UpdateMetadata { .. } => None,
        }
    }
}

impl Operation {
    /// The identifier of the operation itself.
    pub fn id(&self) -> (id: OpId)
        ensures
            id == self@.id(),
    {
        match self {
            Operation::InsertStroke { id, .. } => *id,
            Operation::DeleteStroke { id, .. } => *id,
            Operation::UpdateProperty { id, .. } => *id,
            Operation::UpdateMetadata { id, .. } => *id,
        }
    }

    /// The stroke that the operation is about, if any.
    pub fn target_stroke(&self) -> (target: Option<StrokeId>)
        ensures
            target == self@.target_stroke(),
    {
        match self {
            Operation::InsertStroke { id, .. } => Some(*id),
            Operation::DeleteStroke { target, .. } => Some(*target),
            Operation::UpdateProperty { target, .. } => Some(*target),
            Operation::UpdateMetadata { .. } => None,
        }
    }
}

impl Clone for Operation {
    fn clone(&self) -> (copy: Self)
        ensures
            copy@ == self@,
    {
        match self {
            Operation::InsertStroke { id, origin_left, origin_right, data, properties } => Operation::InsertStroke {
                id: *id,
                origin_left: *origin_left,
                origin_right: *origin_right,
                data: data.clone(),
                properties: *properties,
            },
            Operation::DeleteStroke { id, target } => Operation::DeleteStroke { id: *id, target: *target },
            Operation::UpdateProperty { id, target, update } => Operation::UpdateProperty {
                id: *id,
                target: *target,
                update: *update,
            },
            Operation::UpdateMetadata { id, key, value } => Operation::UpdateMetadata {
                id: *id,
                key: key.clone(),
                value: match value {
                    Some(v) => Some(v.clone()),
                    None => None,
                },
            },
        }
    }
}

/// The properties after an update by the operation `id`.
pub open spec fn updated(properties: StrokeProperties, update: PropertyUpdate, id: OpId) -> StrokeProperties {
    match update {
        PropertyUpdate::Color(v) => StrokeProperties { color: stroke::written(properties.color, v, id), ..properties },
        PropertyUpdate::StrokeWidth(v) => StrokeProperties {
            stroke_width: stroke::written(properties.stroke_width, v, id),
            ..properties
        },
        PropertyUpdate::Opacity(v) => StrokeProperties {
            opacity: stroke::written(properties.opacity, v, id),
            ..properties
        },
        PropertyUpdate::Transform(v) => StrokeProperties {
            transform: stroke::written(properties.transform, v, id),
            ..properties
        },
    }
}

impl PropertyUpdate {
    /// Writes the update into the register that it is for.
    pub fn apply_to(self, properties: &mut StrokeProperties, id: OpId)
        ensures
            *final(properties) == updated(*old(properties), self, id),
    {
        match self {
            PropertyUpdate::Color(v) => {
                properties.color.apply(v, id);
            },
            PropertyUpdate::StrokeWidth(v) => {
                properties.stroke_width.apply(v, id);
            },
            PropertyUpdate::Opacity(v) => {
                properties.opacity.apply(v, id);
            },
            PropertyUpdate::Transform(v) => {
                properties.transform.apply(v, id);
            },
        }
    }
}

/// Every operation carries its own identifier. An insertion is about the stroke
/// that it brings, under that identifier; a deletion and a change of a property
/// are about the stroke that they name; and a change of metadata is about none.
pub proof fn law_operations_name_their_stroke(
    id: OpId,
    other: OpId,
    origin_left: OpId,
    origin_right: OpId,
    data: StrokeDataView,
    properties: StrokeProperties,
    update: PropertyUpdate,
    key: MetadataKeyView,
    value: Option<MetadataValueView>,
)
    ensures
        ({
            let insert = OperationView::InsertStroke { id, origin_left, origin_right, data, properties };
            let delete = OperationView::DeleteStroke { id, target: other };
            let change = OperationView::UpdateProperty { id, target: other, update };
            let describe = OperationView::UpdateMetadata { id, key, value };
            &&& insert.id() == id && delete.id() == id && change.id() == id && describe.id() == id
            &&& insert.target_stroke() == Some(id)
            &&& delete.target_stroke() == Some(other) && change.target_stroke() == Some(other)
            &&& describe.target_stroke() is None
        }),
{
}

} // verus!
