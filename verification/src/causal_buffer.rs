//! The causal buffer: operations that wait for what they depend on.
//!
//! An operation may arrive before those that it builds on. It is then held
//! back, and tried again whenever something has been applied.
//!
//! | Operation        | Ready when                                  |
//! |------------------|---------------------------------------------|
//! | `InsertStroke`   | its left origin is zero or in the array     |
//! | `DeleteStroke`   | its target is in the array                  |
//! | `UpdateProperty` | its target is in the store                  |
//! | `UpdateMetadata` | always                                      |

use crate::document;
use crate::document::{Document, DocumentView};
use crate::error::{VectisError, VectisErrorView, VectisResult};
use crate::operation;
use crate::operation::{Operation, OperationView};
use crate::rga;
use crate::rga::StrokeId;
use crate::types::OpId;
use vstd::prelude::*;

verus! {

/// How many operations a buffer holds back by default.
pub const DEFAULT_MAX_CAPACITY: usize = 10_000;

/// Whether an operation can be applied to the document now.
pub open spec fn ready(s: DocumentView, op: OperationView) -> bool {
    match op {
        OperationView::InsertStroke { origin_left, .. } => origin_left == OpId::zero() || rga::has_id(
            s.items,
            origin_left,
        ),
        OperationView::DeleteStroke { target, .. } => rga::has_id(s.items, target),
        OperationView::UpdateProperty { target, .. } => s.strokes.contains_key(target),
        OperationView::UpdateMetadata { .. } => true,
    }
}

/// Those of the operations that are ready, or those that are not, in order.
pub open spec fn select(s: DocumentView, ops: Seq<OperationView>, want: bool) -> Seq<OperationView>
    decreases ops.len(),
{
    if ops.len() == 0 {
        seq![]
    } else if ready(s, ops.last()) == want {
        select(s, ops.drop_last(), want).push(ops.last())
    } else {
        select(s, ops.drop_last(), want)
    }
}

/// The list with one more stroke, unless it is there already.
pub open spec fn noted(changed: Seq<OpId>, id: Option<OpId>) -> Seq<OpId> {
    match id {
        Some(id) => if changed.contains(id) {
            changed
        } else {
            changed.push(id)
        },
        None => changed,
    }
}

/// The list with the strokes of all the operations.
pub open spec fn noted_all(changed: Seq<OpId>, ops: Seq<OperationView>) -> Seq<OpId>
    decreases ops.len(),
{
    if ops.len() == 0 {
        changed
    } else {
        noted(noted_all(changed, ops.drop_last()), ops.last().target_stroke())
    }
}

/// The operations that come out of a buffer, in the order in which they are
/// applied: all that are ready, then all that have become ready, and so on.
pub open spec fn released(s: DocumentView, waiting: Seq<OperationView>) -> Seq<OperationView>
    decreases waiting.len(),
{
    let now = select(s, waiting, true);
    if now.len() == 0 {
        seq![]
    } else {
        proof {
            lemma_select(s, waiting);
        }
        now + released(document::applied_all(s, now), select(s, waiting, false))
    }
}

/// The operations that stay in a buffer after all that can be has been applied.
pub open spec fn retained(s: DocumentView, waiting: Seq<OperationView>) -> Seq<OperationView>
    decreases waiting.len(),
{
    let now = select(s, waiting, true);
    if now.len() == 0 {
        waiting
    } else {
        proof {
            lemma_select(s, waiting);
        }
        retained(document::applied_all(s, now), select(s, waiting, false))
    }
}

/// Ready and unready operations together are all of them.
pub proof fn lemma_select(s: DocumentView, ops: Seq<OperationView>)
    ensures
        select(s, ops, true).len() + select(s, ops, false).len() == ops.len(),
        select(s, ops, true).to_multiset().add(select(s, ops, false).to_multiset()) == ops.to_multiset(),
        forall|i: int| 0 <= i < select(s, ops, true).len() ==> ready(s, #[trigger] select(s, ops, true)[i]),
        forall|i: int| 0 <= i < select(s, ops, false).len() ==> !ready(s, #[trigger] select(s, ops, false)[i]),
    decreases ops.len(),
{
    broadcast use vstd::seq_lib::group_to_multiset_ensures;

    if ops.len() == 0 {
        assert(select(s, ops, true).to_multiset().add(select(s, ops, false).to_multiset()) =~= ops.to_multiset());
    } else {
        lemma_select(s, ops.drop_last());
        assert(ops.drop_last().push(ops.last()) =~= ops);
        assert(select(s, ops, true).to_multiset().add(select(s, ops, false).to_multiset()) =~= ops.to_multiset());
    }
}

/// Operations that wait for what they depend on.
#[derive(Debug)]
pub struct CausalBuffer {
    pub pending: Vec<Operation>,
    pub max_capacity: usize,
}

impl View for CausalBuffer {
    type V = Seq<OperationView>;

    open spec fn view(&self) -> Seq<OperationView> {
        operation::views(self.pending@)
    }
}

/// Whether `op` can be applied to `doc` now.
pub fn is_causally_ready(op: &Operation, doc: &Document) -> (yes: bool)
    requires
        doc.wf(),
    ensures
        yes == ready(doc@, op@),
{
    match op {
        Operation::InsertStroke { origin_left, .. } => origin_left.is_zero() || doc.stroke_order.contains(*origin_left),
        Operation::DeleteStroke { target, .. } => doc.stroke_order.contains(*target),
        Operation::UpdateProperty { target, .. } => doc.stroke_store.contains(target),
        Operation::UpdateMetadata { .. } => true,
    }
}

impl CausalBuffer {
    pub fn new() -> (buffer: Self)
        ensures
            buffer@ == Seq::<OperationView>::empty(),
            buffer.max_capacity == DEFAULT_MAX_CAPACITY,
    {
        let buffer = CausalBuffer { pending: Vec::new(), max_capacity: DEFAULT_MAX_CAPACITY };
        proof {
            assert(buffer@ =~= Seq::<OperationView>::empty());
        }
        buffer
    }

    pub fn with_capacity(max_capacity: usize) -> (buffer: Self)
        ensures
            buffer@ == Seq::<OperationView>::empty(),
            buffer.max_capacity == max_capacity,
    {
        let buffer = CausalBuffer { pending: Vec::new(), max_capacity };
        proof {
            assert(buffer@ =~= Seq::<OperationView>::empty());
        }
        buffer
    }

    /// The number of operations held back.
    pub fn len(&self) -> (n: usize)
        ensures
            n == self@.len(),
    {
        self.pending.len()
    }

    pub fn is_empty(&self) -> (yes: bool)
        ensures
            yes == (self@.len() == 0),
    {
        self.pending.len() == 0
    }

    /// Takes an operation in, unless the buffer is full.
    pub fn push(&mut self, op: Operation) -> (result: VectisResult<()>)
        ensures
            final(self).max_capacity == old(self).max_capacity,
            old(self)@.len() < old(self).max_capacity ==> result is Ok && final(self)@ == old(self)@.push(op@),
            old(self)@.len() >= old(self).max_capacity ==> {
                &&& result matches Err(e)
                &&& e@ == (VectisErrorView::CausalBufferOverflow { capacity: old(self).max_capacity })
                &&& final(self)@ == old(self)@
            },
    {
        if self.pending.len() >= self.max_capacity {
            return Err(VectisError::CausalBufferOverflow { capacity: self.max_capacity });
        }
        proof {
            assert(operation::views(self.pending@.push(op)) =~= operation::views(self.pending@).push(op@));
        }
        self.pending.push(op);
        Ok(())
    }

    /// Hands over the operations that are ready, in order, and keeps the
    /// others. Applying what comes out may make more of them ready.
    pub fn drain_ready(&mut self, doc: &Document) -> (out: Vec<Operation>)
        requires
            doc.wf(),
        ensures
            operation::views(out@) == select(doc@, old(self)@, true),
            final(self)@ == select(doc@, old(self)@, false),
            final(self).max_capacity == old(self).max_capacity,
    {
        let mut rest: Vec<Operation> = Vec::new();
        std::mem::swap(&mut rest, &mut self.pending);
        let ghost all = operation::views(rest@);
        let mut out: Vec<Operation> = Vec::new();
        let mut keep: Vec<Operation> = Vec::new();
        let ghost mut done: int = 0;
        for op in it: rest
            invariant
                doc.wf(),
                all == operation::views(it.seq()),
                done == it.index(),
                operation::views(out@) == select(doc@, all.take(done), true),
                operation::views(keep@) == select(doc@, all.take(done), false),
        {
            proof {
                assert(all[done] == op@);
                assert(all.take(done + 1).drop_last() =~= all.take(done));
                assert(all.take(done + 1).last() == op@);
                assert(operation::views(out@.push(op)) =~= operation::views(out@).push(op@));
                assert(operation::views(keep@.push(op)) =~= operation::views(keep@).push(op@));
                done = done + 1;
            }
            if is_causally_ready(&op, doc) {
                out.push(op);
            } else {
                keep.push(op);
            }
        }
        proof {
            assert(all.take(all.len() as int) =~= all);
        }
        self.pending = keep;
        out
    }

    /// The identifiers of the operations held back.
    pub fn pending_ids(&self) -> (ids: Vec<OpId>)
        ensures
            ids@ == self@.map_values(|op: OperationView| op.id()),
    {
        let mut ids: Vec<OpId> = Vec::new();
        let mut i: usize = 0;
        while i < self.pending.len()
            invariant
                i <= self.pending@.len(),
                ids@.len() == i,
                forall|j: int| 0 <= j < i ==> #[trigger] ids@[j] == self.pending@[j]@.id(),
            decreases self.pending@.len() - i,
        {
            ids.push(self.pending[i].id());
            i += 1;
        }
        proof {
            assert(ids@ =~= self@.map_values(|op: OperationView| op.id()));
        }
        ids
    }
}

impl Default for CausalBuffer {
    fn default() -> (buffer: Self)
        ensures
            buffer@ == Seq::<OperationView>::empty(),
            buffer.max_capacity == DEFAULT_MAX_CAPACITY,
    {
        CausalBuffer::new()
    }
}

proof fn lemma_noted_concat(changed: Seq<OpId>, a: Seq<OperationView>, b: Seq<OperationView>)
    ensures
        noted_all(noted_all(changed, a), b) == noted_all(changed, a + b),
    decreases b.len(),
{
    if b.len() == 0 {
        assert(a + b =~= a);
    } else {
        lemma_noted_concat(changed, a, b.drop_last());
        assert((a + b).drop_last() =~= a + b.drop_last());
        assert((a + b).last() == b.last());
    }
}

/// Applying two lists one after the other is applying them together.
pub proof fn lemma_applied_concat(s: DocumentView, a: Seq<OperationView>, b: Seq<OperationView>)
    ensures
        document::applied_all(document::applied_all(s, a), b) == document::applied_all(s, a + b),
    decreases b.len(),
{
    if b.len() == 0 {
        assert(a + b =~= a);
    } else {
        lemma_applied_concat(s, a, b.drop_last());
        assert((a + b).drop_last() =~= a + b.drop_last());
        assert((a + b).last() == b.last());
    }
}

fn note(changed: &mut Vec<StrokeId>, stroke: Option<StrokeId>)
    ensures
        final(changed)@ == noted(old(changed)@, stroke),
{
    match stroke {
        Some(id) => {
            let mut i: usize = 0;
            while i < changed.len()
                invariant
                    i <= changed@.len(),
                    changed@ == old(changed)@,
                    stroke == Some(id),
                    forall|j: int| 0 <= j < i ==> changed@[j] != id,
                decreases changed@.len() - i,
            {
                if changed[i] == id {
                    return ;
                }
                i += 1;
            }
            changed.push(id);
        },
        None => {},
    }
}

impl Document {
    /// Applies a batch of remote operations in order, and notes their strokes.
    fn apply_batch(&mut self, ops: Vec<Operation>, changed: &mut Vec<StrokeId>)
        requires
            old(self).wf(),
        ensures
            final(self).wf(),
            final(self)@ == document::applied_all(old(self)@, operation::views(ops@)),
            final(changed)@ == noted_all(old(changed)@, operation::views(ops@)),
    {
        let ghost all = operation::views(ops@);
        let ghost mut done: int = 0;
        for op in it: ops
            invariant
                self.wf(),
                all == operation::views(it.seq()),
                done == it.index(),
                self@ == document::applied_all(old(self)@, all.take(done)),
                changed@ == noted_all(old(changed)@, all.take(done)),
        {
            proof {
                assert(all[done] == op@);
                assert(all.take(done + 1).drop_last() =~= all.take(done));
                assert(all.take(done + 1).last() == op@);
                done = done + 1;
            }
            let id = self.apply_remote(op);
            note(changed, id);
        }
        proof {
            assert(all.take(all.len() as int) =~= all);
        }
    }

    /// Takes a remote operation through the buffer: what is ready is applied,
    /// then what has thereby become ready, until nothing more is. Names the
    /// strokes that the applied operations are about, each once.
    pub fn apply_remote_buffered(&mut self, op: Operation, buffer: &mut CausalBuffer) -> (result: VectisResult<
        Vec<StrokeId>,
    >)
        requires
            old(self).wf(),
        ensures
            final(self).wf(),
            final(buffer).max_capacity == old(buffer).max_capacity,
            old(buffer)@.len() < old(buffer).max_capacity ==> {
                let waiting = old(buffer)@.push(op@);
                &&& final(self)@ == document::applied_all(old(self)@, released(old(self)@, waiting))
                &&& final(buffer)@ == retained(old(self)@, waiting)
                &&& result matches Ok(changed)
                &&& changed@ == noted_all(seq![], released(old(self)@, waiting))
            },
            old(buffer)@.len() >= old(buffer).max_capacity ==> {
                &&& final(self)@ == old(self)@
                &&& final(buffer)@ == old(buffer)@
                &&& result matches Err(e)
                &&& e@ == (VectisErrorView::CausalBufferOverflow { capacity: old(buffer).max_capacity })
            },
    {
        let ghost waiting = old(buffer)@.push(op@);
        match buffer.push(op) {
            Err(e) => {
                return Err(e);
            },
            Ok(_) => {},
        }
        let mut changed: Vec<StrokeId> = Vec::new();
        let ghost mut done: Seq<OperationView> = seq![];
        proof {
            assert(done + released(self@, buffer@) =~= released(old(self)@, waiting));
            assert(changed@ =~= seq![]);
        }
        loop
            invariant
                self.wf(),
                buffer.max_capacity == old(buffer).max_capacity,
                self@ == document::applied_all(old(self)@, done),
                changed@ == noted_all(seq![], done),
                done + released(self@, buffer@) == released(old(self)@, waiting),
                retained(self@, buffer@) == retained(old(self)@, waiting),
            ensures
                self@ == document::applied_all(old(self)@, released(old(self)@, waiting)),
                changed@ == noted_all(seq![], released(old(self)@, waiting)),
                buffer@ == retained(old(self)@, waiting),
            decreases buffer@.len(),
        {
            let ghost s = self@;
            let ghost held = buffer@;
            proof {
                lemma_select(s, held);
            }
            let out = buffer.drain_ready(self);
            let ghost now = operation::views(out@);
            if out.len() == 0 {
                proof {
                    assert(held =~= buffer@) by {
                        lemma_none_selected(s, held);
                    }
                    assert(done + released(s, held) =~= done);
                }
                break ;
            }
            self.apply_batch(out, &mut changed);
            proof {
                lemma_applied_concat(old(self)@, done, now);
                lemma_noted_concat(seq![], done, now);
                assert(done + (now + released(self@, buffer@)) =~= (done + now) + released(self@, buffer@));
                done = done + now;
            }
        }
        Ok(changed)
    }
}

pub proof fn lemma_none_selected(s: DocumentView, ops: Seq<OperationView>)
    requires
        select(s, ops, true).len() == 0,
    ensures
        select(s, ops, false) == ops,
    decreases ops.len(),
{
    if ops.len() > 0 {
        lemma_none_selected(s, ops.drop_last());
        assert(ops.drop_last().push(ops.last()) =~= ops);
    }
}

/// The document and the held operations after operations have arrived one by
/// one, and whether there was room to hold each of them. The first one that
/// finds no room ends it.
pub open spec fn absorbed(
    s: DocumentView,
    held: Seq<OperationView>,
    capacity: usize,
    ops: Seq<OperationView>,
) -> (DocumentView, Seq<OperationView>, bool)
    decreases ops.len(),
{
    if ops.len() == 0 {
        (s, held, true)
    } else {
        let (t, h, ok) = absorbed(s, held, capacity, ops.drop_last());
        if !ok || h.len() >= capacity {
            (t, h, false)
        } else {
            let waiting = h.push(ops.last());
            (
                document::applied_all(t, released(t, waiting)),
                retained(t, waiting),
                true,
            )
        }
    }
}

/// Taking operations in one by one: what the first have left behind stays as
/// it is once one finds no room.
proof fn lemma_absorbed_stops(
    s: DocumentView,
    held: Seq<OperationView>,
    capacity: usize,
    ops: Seq<OperationView>,
    n: int,
)
    requires
        0 <= n <= ops.len(),
        !absorbed(s, held, capacity, ops.take(n)).2,
    ensures
        absorbed(s, held, capacity, ops) == absorbed(s, held, capacity, ops.take(n)),
    decreases ops.len(),
{
    if n == ops.len() {
        assert(ops.take(n) =~= ops);
    } else {
        assert(ops.drop_last().take(n) =~= ops.take(n));
        lemma_absorbed_stops(s, held, capacity, ops.drop_last(), n);
    }
}

impl Document {
    /// Hands operations to the document through the buffer, one by one. The
    /// first that finds no room ends it; those before it have then been taken
    /// in.
    pub fn absorb(&mut self, ops: &Vec<Operation>, buffer: &mut CausalBuffer) -> (result: VectisResult<()>)
        requires
            old(self).wf(),
        ensures
            final(self).wf(),
            final(buffer).max_capacity == old(buffer).max_capacity,
            ({
                let (doc, held, ok) = absorbed(
                    old(self)@,
                    old(buffer)@,
                    old(buffer).max_capacity,
                    operation::views(ops@),
                );
                &&& final(self)@ == doc
                &&& final(buffer)@ == held
                &&& match result {
                    Ok(_) => ok,
                    Err(e) => !ok && e@ == (VectisErrorView::CausalBufferOverflow { capacity: old(buffer).max_capacity }),
                }
            }),
    {
        let ghost list = operation::views(ops@);
        let ghost s = self@;
        let ghost held = buffer@;
        let ghost capacity = buffer.max_capacity;
        let mut i: usize = 0;
        proof {
            assert(list.take(0) =~= seq![]);
        }
        while i < ops.len()
            invariant
                i <= ops@.len(),
                list == operation::views(ops@),
                s == old(self)@,
                held == old(buffer)@,
                capacity == old(buffer).max_capacity,
                capacity == buffer.max_capacity,
                self.wf(),
                (self@, buffer@, true) == absorbed(s, held, capacity, list.take(i as int)),
            decreases ops@.len() - i,
        {
            let op = ops[i].clone();
            proof {
                assert(list.take(i + 1).drop_last() =~= list.take(i as int));
                assert(list.take(i + 1).last() == ops@[i as int]@);
            }
            match self.apply_remote_buffered(op, buffer) {
                Ok(_) => {},
                Err(e) => {
                    proof {
                        lemma_absorbed_stops(s, held, capacity, list, i + 1);
                    }
                    return Err(e);
                },
            }
            i += 1;
        }
        proof {
            assert(list.take(i as int) =~= list);
        }
        Ok(())
    }
}

/// The identifiers after others have been added, each once.
pub open spec fn joined(ids: Seq<OpId>, more: Seq<OpId>) -> Seq<OpId>
    decreases more.len(),
{
    if more.len() == 0 {
        ids
    } else {
        let rest = joined(ids, more.drop_last());
        if rest.contains(more.last()) {
            rest
        } else {
            rest.push(more.last())
        }
    }
}

/// The document, the held operations and the changed strokes after operations
/// have arrived one by one. One that finds no room is dropped.
pub open spec fn taken(
    s: DocumentView,
    held: Seq<OperationView>,
    capacity: usize,
    ops: Seq<OperationView>,
) -> (DocumentView, Seq<OperationView>, Seq<OpId>)
    decreases ops.len(),
{
    if ops.len() == 0 {
        (s, held, seq![])
    } else {
        let (t, h, changed) = taken(s, held, capacity, ops.drop_last());
        if h.len() >= capacity {
            (t, h, changed)
        } else {
            let waiting = h.push(ops.last());
            let now = released(t, waiting);
            (
                document::applied_all(t, now),
                retained(t, waiting),
                joined(changed, noted_all(seq![], now)),
            )
        }
    }
}

/// Adds identifiers to others, each once.
fn join(ids: &mut Vec<StrokeId>, more: &Vec<StrokeId>)
    ensures
        final(ids)@ == joined(old(ids)@, more@),
{
    let ghost first = ids@;
    let mut i: usize = 0;
    proof {
        assert(more@.take(0) =~= seq![]);
    }
    while i < more.len()
        invariant
            i <= more@.len(),
            first == old(ids)@,
            ids@ == joined(first, more@.take(i as int)),
        decreases more@.len() - i,
    {
        let id = more[i];
        proof {
            assert(more@.take(i + 1).drop_last() =~= more@.take(i as int));
            assert(more@.take(i + 1).last() == id);
        }
        if !holds(ids, id) {
            ids.push(id);
        }
        i += 1;
    }
    proof {
        assert(more@.take(i as int) =~= more@);
    }
}

fn holds(ids: &Vec<StrokeId>, id: StrokeId) -> (yes: bool)
    ensures
        yes == ids@.contains(id),
{
    let mut i: usize = 0;
    while i < ids.len()
        invariant
            i <= ids@.len(),
            forall|j: int| 0 <= j < i ==> ids@[j] != id,
        decreases ids@.len() - i,
    {
        if ids[i] == id {
            assert(ids@[i as int] == id);
            return true;
        }
        i += 1;
    }
    false
}

impl Document {
    /// Hands operations to the document through the buffer, one by one, and
    /// names the strokes that changed. One that finds no room is dropped.
    pub fn take_in(&mut self, ops: &Vec<Operation>, buffer: &mut CausalBuffer) -> (changed: Vec<StrokeId>)
        requires
            old(self).wf(),
        ensures
            final(self).wf(),
            final(buffer).max_capacity == old(buffer).max_capacity,
            (final(self)@, final(buffer)@, changed@) == taken(
                old(self)@,
                old(buffer)@,
                old(buffer).max_capacity,
                operation::views(ops@),
            ),
    {
        let ghost list = operation::views(ops@);
        let ghost s = self@;
        let ghost held = buffer@;
        let ghost capacity = buffer.max_capacity;
        let mut changed: Vec<StrokeId> = Vec::new();
        let mut i: usize = 0;
        proof {
            assert(list.take(0) =~= seq![]);
            assert(changed@ =~= seq![]);
        }
        while i < ops.len()
            invariant
                i <= ops@.len(),
                list == operation::views(ops@),
                self.wf(),
                capacity == buffer.max_capacity,
                (self@, buffer@, changed@) == taken(s, held, capacity, list.take(i as int)),
            decreases ops@.len() - i,
        {
            let op = ops[i].clone();
            proof {
                assert(list.take(i + 1).drop_last() =~= list.take(i as int));
                assert(list.take(i + 1).last() == ops@[i as int]@);
            }
            match self.apply_remote_buffered(op, buffer) {
                Ok(ids) => {
                    join(&mut changed, &ids);
                },
                Err(_) => {},
            }
            i += 1;
        }
        proof {
            assert(list.take(i as int) =~= list);
        }
        changed
    }
}

} // verus!
