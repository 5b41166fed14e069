//! The versioned graph store: the current snapshot plus bounded undo/redo
//! stacks of prior snapshots.
//!
//! Every mutating operation first validates its inputs; a failing call leaves
//! the store untouched.  A succeeding call clears the redo stack, pushes the
//! pre-mutation snapshot onto the undo stack (evicting the oldest entry when
//! the stack is at capacity) and then applies the change to `current`.

use vstd::prelude::*;

use crate::coll::{edges_not_touching, node_map_insert, node_map_remove};
use crate::coll::{edge_map_insert, edge_map_remove, edge_map_remove_touching};
use crate::error::GraphError;
use crate::node::{AddonEntityType, AddonSet, DistinctEntityType, EntityNode, NodeView, Relation};
use crate::snapshot::{SnapView, Snapshot};

verus! {

/// How many snapshots the undo stack may hold.
pub const MAX_HISTORY: usize = 100;

#[verifier::external_type_specification]
#[verifier::external_body]
#[verifier::reject_recursive_types(A)]
pub struct ExImVector<A>(im::Vector<A>);

/// The snapshots a history stack holds, oldest first, each abstracted to its
/// mathematical value.
pub uninterp spec fn stack_view(v: im::Vector<Snapshot>) -> Seq<SnapView>;

/// The empty history stack value.
pub open spec fn no_snapshots() -> Seq<SnapView> {
    Seq::empty()
}

/// Relies on `im::Vector::new`: the new vector is empty.
#[verifier::external_body]
fn stack_new() -> (r: im::Vector<Snapshot>)
    ensures
        stack_view(r) == no_snapshots(),
{
    im::Vector::new()
}

/// Relies on `im::Vector::len`: the number of elements.
#[verifier::external_body]
fn stack_len(v: &im::Vector<Snapshot>) -> (r: usize)
    ensures
        r == stack_view(*v).len(),
{
    v.len()
}

/// Relies on `im::Vector::push_back`: the element is appended at the back.
#[verifier::external_body]
fn stack_push_back(v: &mut im::Vector<Snapshot>, s: Snapshot)
    ensures
        stack_view(*final(v)) == stack_view(*old(v)).push(s@),
{
    v.push_back(s);
}

/// Relies on `im::Vector::pop_back`: the last element comes off the back, or
/// `None` when the vector is empty.
#[verifier::external_body]
fn stack_pop_back(v: &mut im::Vector<Snapshot>) -> (r: Option<Snapshot>)
    ensures
        stack_view(*old(v)).len() == 0 ==> r is None && stack_view(*final(v)) == stack_view(
            *old(v),
        ),
        stack_view(*old(v)).len() > 0 ==> (r matches Some(s) && s@ == stack_view(*old(v)).last()
            && stack_view(*final(v)) == stack_view(*old(v)).drop_last()),
{
    v.pop_back()
}

/// Relies on `im::Vector::pop_front`: the first element comes off the front,
/// or `None` when the vector is empty.
#[verifier::external_body]
fn stack_pop_front(v: &mut im::Vector<Snapshot>) -> (r: Option<Snapshot>)
    ensures
        stack_view(*old(v)).len() == 0 ==> r is None && stack_view(*final(v)) == stack_view(
            *old(v),
        ),
        stack_view(*old(v)).len() > 0 ==> r is Some && stack_view(*final(v)) == stack_view(
            *old(v),
        ).skip(1),
{
    v.pop_front()
}

/// Relies on `im::Vector::clear`: afterwards the vector is empty.
#[verifier::external_body]
fn stack_clear(v: &mut im::Vector<Snapshot>)
    ensures
        stack_view(*final(v)) == no_snapshots(),
{
    v.clear();
}

/// The mathematical value of the whole store.
#[verifier::ext_equal]
pub ghost struct StoreView {
    /// The current snapshot.
    pub current: SnapView,
    /// Prior snapshots available to `undo`, oldest first.
    pub undo_stack: Seq<SnapView>,
    /// Snapshots undone and available to `redo`, oldest first.
    pub redo_stack: Seq<SnapView>,
    /// The undo stack's capacity.
    pub max_history: nat,
}

/// One mutating operation on the store, with everything it needs as plain
/// mathematical values.
pub ghost enum MutOp {
    /// Create a node under the next fresh id.
    AddEntity {
        /// The node's text content.
        content: Seq<char>,
        /// The node's primary type.
        distinct_type: DistinctEntityType,
        /// The node's addon types.
        addon_types: AddonSet,
        /// The node's position.
        coor: (i64, i64),
    },
    /// Remove a node and every edge that touches it.
    RemoveEntity {
        /// The id of the node to remove.
        id: u64,
    },
    /// Replace a node's content, primary type and addon types; its position
    /// stays.
    UpdateEntityContent {
        /// The id of the node to update.
        id: u64,
        /// The new text content.
        content: Seq<char>,
        /// The new primary type.
        distinct_type: DistinctEntityType,
        /// The new addon types.
        addon_types: AddonSet,
    },
    /// Move a node.
    UpdateEntityPosition {
        /// The id of the node to move.
        id: u64,
        /// The new position.
        coor: (i64, i64),
    },
    /// Insert an edge; an existing edge under the same ordered pair is
    /// overwritten rather than rejected.
    AddEdge {
        /// The source node id.
        from: u64,
        /// The target node id.
        to: u64,
        /// The relation the edge carries.
        relation: Relation,
    },
    /// Remove an edge.
    RemoveEdge {
        /// The source node id.
        from: u64,
        /// The target node id.
        to: u64,
    },
    /// Replace the relation of an existing edge.
    UpdateEdge {
        /// The source node id.
        from: u64,
        /// The target node id.
        to: u64,
        /// The new relation.
        relation: Relation,
    },
}

/// Whether the operation succeeds on this snapshot.  `AddEntity` always
/// succeeds (the store requires room in the id counter up front); the others
/// fail exactly when the named node or edge is missing.
pub open spec fn op_allowed(s: SnapView, op: MutOp) -> bool {
    match op {
        MutOp::AddEntity { .. } => true,
        MutOp::RemoveEntity { id } => s.nodes.dom().contains(id),
        MutOp::UpdateEntityContent { id, .. } => s.nodes.dom().contains(id),
        MutOp::UpdateEntityPosition { id, .. } => s.nodes.dom().contains(id),
        MutOp::AddEdge { from, to, .. } => s.nodes.dom().contains(from) && s.nodes.dom().contains(
            to,
        ),
        MutOp::RemoveEdge { from, to } => s.edges.dom().contains((from, to)),
        MutOp::UpdateEdge { from, to, .. } => s.edges.dom().contains((from, to)),
    }
}

/// The error a failing operation reports.
pub open spec fn op_error(s: SnapView, op: MutOp) -> GraphError {
    match op {
        MutOp::AddEntity { .. } => arbitrary(),
        MutOp::RemoveEntity { id } => GraphError::EntityNotFound(id),
        MutOp::UpdateEntityContent { id, .. } => GraphError::EntityNotFound(id),
        MutOp::UpdateEntityPosition { id, .. } => GraphError::EntityNotFound(id),
        MutOp::AddEdge { from, to, .. } => if !s.nodes.dom().contains(from) {
            GraphError::EntityNotFound(from)
        } else {
            GraphError::EntityNotFound(to)
        },
        MutOp::RemoveEdge { from, to } => GraphError::EdgeNotFound(from, to),
        MutOp::UpdateEdge { from, to, .. } => GraphError::EdgeNotFound(from, to),
    }
}

/// What a successful operation does to the current snapshot.
pub open spec fn apply_op(s: SnapView, op: MutOp) -> SnapView {
    match op {
        MutOp::AddEntity { content, distinct_type, addon_types, coor } => SnapView {
            nodes: s.nodes.insert(
                s.latest_id,
                NodeView { id: s.latest_id, content, distinct_type, addon_types, coor },
            ),
            latest_id: (s.latest_id + 1) as u64,
            ..s
        },
        MutOp::RemoveEntity { id } => SnapView {
            nodes: s.nodes.remove(id),
            edges: edges_not_touching(s.edges, id),
            ..s
        },
        MutOp::UpdateEntityContent { id, content, distinct_type, addon_types } => SnapView {
            nodes: s.nodes.insert(
                id,
                NodeView { id, content, distinct_type, addon_types, coor: s.nodes[id].coor },
            ),
            ..s
        },
        MutOp::UpdateEntityPosition { id, coor } => SnapView {
            nodes: s.nodes.insert(id, NodeView { coor, ..s.nodes[id] }),
            ..s
        },
        MutOp::AddEdge { from, to, relation } => SnapView {
            edges: s.edges.insert((from, to), relation),
            ..s
        },
        MutOp::RemoveEdge { from, to } => SnapView { edges: s.edges.remove((from, to)), ..s },
        MutOp::UpdateEdge { from, to, relation } => SnapView {
            edges: s.edges.insert((from, to), relation),
            ..s
        },
    }
}

/// The before-mutation protocol: clear the redo stack, evict the oldest undo
/// entry when the stack is at capacity, and push the current snapshot.
pub open spec fn push_history(v: StoreView) -> StoreView {
    let trimmed = if v.undo_stack.len() >= v.max_history && v.undo_stack.len() > 0 {
        v.undo_stack.skip(1)
    } else {
        v.undo_stack
    };
    StoreView { undo_stack: trimmed.push(v.current), redo_stack: Seq::empty(), ..v }
}

/// The store after one mutating call: a failing operation changes nothing, a
/// succeeding one records history and applies its change.
pub open spec fn step(v: StoreView, op: MutOp) -> StoreView {
    if op_allowed(v.current, op) {
        StoreView { current: apply_op(v.current, op), ..push_history(v) }
    } else {
        v
    }
}

/// The store after `undo`: with history available, the latest undo entry
/// becomes current and the old current moves onto the redo stack.
pub open spec fn undo_step(v: StoreView) -> StoreView {
    if v.undo_stack.len() > 0 {
        StoreView {
            current: v.undo_stack.last(),
            undo_stack: v.undo_stack.drop_last(),
            redo_stack: v.redo_stack.push(v.current),
            ..v
        }
    } else {
        v
    }
}

/// The store after `redo`: the mirror image of `undo`.
pub open spec fn redo_step(v: StoreView) -> StoreView {
    if v.redo_stack.len() > 0 {
        StoreView {
            current: v.redo_stack.last(),
            undo_stack: v.undo_stack.push(v.current),
            redo_stack: v.redo_stack.drop_last(),
            ..v
        }
    } else {
        v
    }
}

/// The versioned graph store.
#[derive(Debug)]
pub struct KnowledgeGraph {
    /// The current snapshot.
    pub current: Snapshot,
    /// Prior snapshots available to `undo`, oldest first.
    pub undo_stack: im::Vector<Snapshot>,
    /// Snapshots undone and available to `redo`, oldest first.
    pub redo_stack: im::Vector<Snapshot>,
    /// The undo stack's capacity.
    pub max_history: usize,
}

impl View for KnowledgeGraph {
    type V = StoreView;

    open spec fn view(&self) -> StoreView {
        StoreView {
            current: self.current@,
            undo_stack: stack_view(self.undo_stack),
            redo_stack: stack_view(self.redo_stack),
            max_history: self.max_history as nat,
        }
    }
}

impl Default for KnowledgeGraph {
    /// A store over the empty graph, with empty history.
    fn default() -> (r: Self)
        ensures
            r@.current == SnapView::empty(),
            r@.undo_stack == no_snapshots(),
            r@.redo_stack == no_snapshots(),
            r@.max_history == MAX_HISTORY as nat,
    {
        KnowledgeGraph {
            current: Snapshot::default(),
            undo_stack: stack_new(),
            redo_stack: stack_new(),
            max_history: MAX_HISTORY,
        }
    }
}

impl KnowledgeGraph {
    /// A store over the given snapshot, with empty history.
    pub fn from_snapshot(snapshot: Snapshot) -> (r: Self)
        ensures
            r@.current == snapshot@,
            r@.undo_stack == no_snapshots(),
            r@.redo_stack == no_snapshots(),
            r@.max_history == MAX_HISTORY as nat,
    {
        KnowledgeGraph {
            current: snapshot,
            undo_stack: stack_new(),
            redo_stack: stack_new(),
            max_history: MAX_HISTORY,
        }
    }

    /// The before-mutation protocol; the current snapshot is untouched.
    fn before_mutation(&mut self)
        ensures
            final(self)@ == push_history(old(self)@),
    {
        stack_clear(&mut self.redo_stack);
        if stack_len(&self.undo_stack) >= self.max_history {
            let _ = stack_pop_front(&mut self.undo_stack);
        }
        stack_push_back(&mut self.undo_stack, self.current.clone());
        proof {
            assert(self@ =~= push_history(old(self)@));
        }
    }

    /// Creates a node under the next fresh id and returns that id.  Always
    /// succeeds; the caller must leave room in the id counter.
    pub fn add_entity(
        &mut self,
        content: String,
        distinct_type: DistinctEntityType,
        addon_types: &[AddonEntityType],
        coor: (i64, i64),
    ) -> (id: u64)
        requires
            old(self)@.current.latest_id < u64::MAX,
        ensures
            final(self)@ == step(
                old(self)@,
                (MutOp::AddEntity {
                    content: content@,
                    distinct_type,
                    addon_types: AddonSet::spec_from_seq(addon_types@),
                    coor,
                }),
            ),
            id == old(self)@.current.latest_id,
    {
        self.before_mutation();
        let id = self.current.latest_id;
        self.current.latest_id = id + 1;
        let node = EntityNode::new(id, content, distinct_type, addon_types, coor);
        node_map_insert(&mut self.current.nodes, id, node);
        id
    }

    /// Removes the node with this id together with every edge that starts or
    /// ends at it; fails with `EntityNotFound` when the node is missing.
    pub fn remove_entity(&mut self, id: u64) -> (r: Result<(), GraphError>)
        ensures
            final(self)@ == step(old(self)@, (MutOp::RemoveEntity { id })),
            r is Ok <==> old(self)@.current.nodes.dom().contains(id),
            r matches Err(e) ==> e == GraphError::EntityNotFound(id),
    {
        if !self.current.contains_entity(id) {
            return Err(GraphError::EntityNotFound(id));
        }
        self.before_mutation();
        let _ = node_map_remove(&mut self.current.nodes, id);
        edge_map_remove_touching(&mut self.current.edges, id);
        Ok(())
    }

    /// Replaces the content, primary type and addon types of the node with
    /// this id, leaving its position unchanged; fails with `EntityNotFound`
    /// when the node is missing.
    pub fn update_entity_content(
        &mut self,
        id: u64,
        content: String,
        distinct_type: DistinctEntityType,
        addon_types: &[AddonEntityType],
    ) -> (r: Result<(), GraphError>)
        ensures
            final(self)@ == step(
                old(self)@,
                (MutOp::UpdateEntityContent {
                    id,
                    content: content@,
                    distinct_type,
                    addon_types: AddonSet::spec_from_seq(addon_types@),
                }),
            ),
            r is Ok <==> old(self)@.current.nodes.dom().contains(id),
            r matches Err(e) ==> e == GraphError::EntityNotFound(id),
    {
        let coor = match self.current.get_entity(id) {
            Some(node) => (node.coor.0, node.coor.1),
            None => {
                return Err(GraphError::EntityNotFound(id));
            },
        };
        self.before_mutation();
        let node = EntityNode::new(id, content, distinct_type, addon_types, coor);
        node_map_insert(&mut self.current.nodes, id, node);
        Ok(())
    }

    /// Moves the node with this id; fails with `EntityNotFound` when the node
    /// is missing.
    pub fn update_entity_position(&mut self, id: u64, new_pos: (i64, i64)) -> (r: Result<
        (),
        GraphError,
    >)
        ensures
            final(self)@ == step(old(self)@, (MutOp::UpdateEntityPosition { id, coor: new_pos })),
            r is Ok <==> old(self)@.current.nodes.dom().contains(id),
            r matches Err(e) ==> e == GraphError::EntityNotFound(id),
    {
        let node = match self.current.get_entity(id) {
            Some(node) => node.clone(),
            None => {
                return Err(GraphError::EntityNotFound(id));
            },
        };
        self.before_mutation();
        let mut node = node;
        node.coor = new_pos;
        proof {
            assert(node@ == (NodeView { coor: new_pos, ..old(self)@.current.nodes[id] }));
        }
        node_map_insert(&mut self.current.nodes, id, node);
        Ok(())
    }

    /// Inserts an edge from `from` to `to`; an existing edge under the same
    /// ordered pair is overwritten.  Fails with `EntityNotFound` naming the
    /// first missing endpoint.
    pub fn add_edge(&mut self, from: u64, to: u64, relation: Relation) -> (r: Result<
        (),
        GraphError,
    >)
        ensures
            final(self)@ == step(old(self)@, (MutOp::AddEdge { from, to, relation })),
            r is Ok <==> old(self)@.current.nodes.dom().contains(from)
                && old(self)@.current.nodes.dom().contains(to),
            r matches Err(e) ==> e == op_error(old(self)@.current, (MutOp::AddEdge { from, to, relation })),
    {
        if !self.current.contains_entity(from) {
            return Err(GraphError::EntityNotFound(from));
        }
        if !self.current.contains_entity(to) {
            return Err(GraphError::EntityNotFound(to));
        }
        self.before_mutation();
        edge_map_insert(&mut self.current.edges, (from, to), relation);
        Ok(())
    }

    /// Removes the edge with this ordered `(from, to)` key; fails with
    /// `EdgeNotFound` when it is missing.
    pub fn remove_edge(&mut self, from: u64, to: u64) -> (r: Result<(), GraphError>)
        ensures
            final(self)@ == step(old(self)@, (MutOp::RemoveEdge { from, to })),
            r is Ok <==> old(self)@.current.edges.dom().contains((from, to)),
            r matches Err(e) ==> e == GraphError::EdgeNotFound(from, to),
    {
        if !self.current.contains_edge(from, to) {
            return Err(GraphError::EdgeNotFound(from, to));
        }
        self.before_mutation();
        let _ = edge_map_remove(&mut self.current.edges, (from, to));
        Ok(())
    }

    /// Replaces the relation of the edge with this ordered `(from, to)` key;
    /// fails with `EdgeNotFound` when the edge is missing.
    pub fn update_edge(&mut self, from: u64, to: u64, relation: Relation) -> (r: Result<
        (),
        GraphError,
    >)
        ensures
            final(self)@ == step(old(self)@, (MutOp::UpdateEdge { from, to, relation })),
            r is Ok <==> old(self)@.current.edges.dom().contains((from, to)),
            r matches Err(e) ==> e == GraphError::EdgeNotFound(from, to),
    {
        if !self.current.contains_edge(from, to) {
            return Err(GraphError::EdgeNotFound(from, to));
        }
        self.before_mutation();
        edge_map_insert(&mut self.current.edges, (from, to), relation);
        Ok(())
    }

    /// Undoes the latest recorded mutation; fails with `NothingToUndo` when
    /// no history is recorded.
    pub fn undo(&mut self) -> (r: Result<(), GraphError>)
        ensures
            final(self)@ == undo_step(old(self)@),
            r is Ok <==> old(self)@.undo_stack.len() > 0,
            r matches Err(e) ==> e == GraphError::NothingToUndo,
    {
        match stack_pop_back(&mut self.undo_stack) {
            None => Err(GraphError::NothingToUndo),
            Some(prev) => {
                stack_push_back(&mut self.redo_stack, self.current.clone());
                self.current = prev;
                Ok(())
            },
        }
    }

    /// Redoes the latest undone mutation; fails with `NothingToRedo` when
    /// nothing was undone.
    pub fn redo(&mut self) -> (r: Result<(), GraphError>)
        ensures
            final(self)@ == redo_step(old(self)@),
            r is Ok <==> old(self)@.redo_stack.len() > 0,
            r matches Err(e) ==> e == GraphError::NothingToRedo,
    {
        match stack_pop_back(&mut self.redo_stack) {
            None => Err(GraphError::NothingToRedo),
            Some(next) => {
                stack_push_back(&mut self.undo_stack, self.current.clone());
                self.current = next;
                Ok(())
            },
        }
    }

    /// A read-only view of the current snapshot.
    pub fn current_snapshot(&self) -> (r: &Snapshot)
        ensures
            r@ == self@.current,
    {
        &self.current
    }

    /// How many snapshots the undo stack currently holds.
    pub fn undo_depth(&self) -> (r: usize)
        ensures
            r == self@.undo_stack.len(),
    {
        stack_len(&self.undo_stack)
    }

    /// How many snapshots the redo stack currently holds.
    pub fn redo_depth(&self) -> (r: usize)
        ensures
            r == self@.redo_stack.len(),
    {
        stack_len(&self.redo_stack)
    }
}

/// Undoing right after a successful mutation restores the snapshot from
/// before that mutation, whatever state the store was in: this holds after
/// any sequence of earlier operations.
pub proof fn lemma_undo_restores_previous(v: StoreView, op: MutOp)
    requires
        op_allowed(v.current, op),
    ensures
        step(v, op).undo_stack.len() > 0,
        undo_step(step(v, op)).current == v.current,
{
}

/// Redoing right after an undo restores the snapshot that the undo stepped
/// away from.
pub proof fn lemma_redo_restores_undone(v: StoreView)
    requires
        v.undo_stack.len() > 0,
    ensures
        undo_step(v).redo_stack.len() > 0,
        redo_step(undo_step(v)).current == v.current,
{
}

/// The undo stack never outgrows the configured capacity: any operation —
/// mutation, undo or redo — keeps the combined history within it, and with it
/// the undo stack itself.
pub proof fn lemma_history_bounded(v: StoreView, op: MutOp)
    requires
        v.max_history >= 1,
        v.undo_stack.len() + v.redo_stack.len() <= v.max_history,
    ensures
        step(v, op).undo_stack.len() + step(v, op).redo_stack.len() <= v.max_history,
        step(v, op).undo_stack.len() <= v.max_history,
        undo_step(v).undo_stack.len() + undo_step(v).redo_stack.len() <= v.max_history,
        redo_step(v).undo_stack.len() + redo_step(v).redo_stack.len() <= v.max_history,
{
}

/// A successful mutation clears the redo stack, so a redo right after it
/// fails: there is no branching timeline.
pub proof fn lemma_mutation_clears_redo(v: StoreView, op: MutOp)
    requires
        op_allowed(v.current, op),
    ensures
        step(v, op).redo_stack.len() == 0,
        redo_step(step(v, op)) == step(v, op),
{
}

/// Removing an entity removes exactly the edges that start or end at it: no
/// other edge leaves, and surviving edges keep their relation.
pub proof fn lemma_remove_entity_cascades(s: SnapView, id: u64, k: (u64, u64))
    ensures
        apply_op(s, (MutOp::RemoveEntity { id })).edges.dom().contains(k) <==> (s.edges.dom().contains(k)
            && k.0 != id && k.1 != id),
        apply_op(s, (MutOp::RemoveEntity { id })).edges.dom().contains(k) ==> apply_op(
            s,
            (MutOp::RemoveEntity { id }),
        ).edges[k] == s.edges[k],
{
    let e2 = apply_op(s, (MutOp::RemoveEntity { id })).edges;
    assert(e2 == edges_not_touching(s.edges, id));
    if s.edges.dom().contains(k) && k.0 != id && k.1 != id {
        assert(e2.dom().contains(k));
        assert(e2[k] == s.edges[k]);
    }
}

/// Every node id lies below the id counter.  The store's operations preserve
/// this, which is what makes a fresh id really fresh: ids are never reused,
/// even after deletion.
pub open spec fn ids_below_counter(s: SnapView) -> bool {
    forall|k: u64| #[trigger] s.nodes.dom().contains(k) ==> k < s.latest_id
}

/// A mutation keeps every node id below the id counter; in particular the id
/// `AddEntity` allocates is not in use.
pub proof fn lemma_fresh_ids(s: SnapView, op: MutOp)
    requires
        ids_below_counter(s),
        op_allowed(s, op),
        s.latest_id < u64::MAX,
    ensures
        ids_below_counter(apply_op(s, op)),
        !s.nodes.dom().contains(s.latest_id),
{
    let s2 = apply_op(s, op);
    assert forall|k: u64| #[trigger] s2.nodes.dom().contains(k) implies k < s2.latest_id by {
        match op {
            MutOp::AddEntity { .. } => {
                if k != s.latest_id {
                    assert(s.nodes.dom().contains(k));
                }
            },
            _ => {
                assert(s.nodes.dom().contains(k));
            },
        }
    }
}

/// A successful mutation keeps every node under its own id as key: the key a
/// node is stored under is always the id inside it, which is the premise of
/// the codec round trip.
pub proof fn lemma_well_keyed_preserved(s: SnapView, op: MutOp)
    requires
        s.well_keyed(),
        op_allowed(s, op),
    ensures
        apply_op(s, op).well_keyed(),
{
    let s2 = apply_op(s, op);
    assert forall|k: u64| #[trigger] s2.nodes.dom().contains(k) implies s2.nodes[k].id == k by {
        match op {
            MutOp::AddEntity { .. } => {
                if k != s.latest_id {
                    assert(s.nodes.dom().contains(k));
                }
            },
            MutOp::RemoveEntity { .. } => {
                assert(s.nodes.dom().contains(k));
            },
            MutOp::UpdateEntityContent { id, .. } => {
                if k != id {
                    assert(s.nodes.dom().contains(k));
                }
            },
            MutOp::UpdateEntityPosition { id, .. } => {
                if k != id {
                    assert(s.nodes.dom().contains(k));
                } else {
                    assert(s.nodes.dom().contains(id));
                }
            },
            _ => {
                assert(s.nodes.dom().contains(k));
            },
        }
    }
}

/// The before-mutation protocol in one step: the pre-mutation snapshot is
/// recorded at the back, the redo stack is cleared, the stack stays within
/// its capacity, and only a stack already at capacity loses an entry — its
/// oldest, at the front.
pub proof fn lemma_push_history(v: StoreView)
    requires
        v.max_history >= 1,
        v.undo_stack.len() <= v.max_history,
    ensures
        push_history(v).undo_stack.len() <= v.max_history,
        push_history(v).undo_stack.len() > 0,
        push_history(v).undo_stack.last() == v.current,
        push_history(v).redo_stack.len() == 0,
        v.undo_stack.len() < v.max_history ==> push_history(v).undo_stack == v.undo_stack.push(
            v.current,
        ),
        v.undo_stack.len() == v.max_history ==> push_history(v).undo_stack == v.undo_stack.skip(
            1,
        ).push(v.current),
{
}

/// Every edge of a snapshot connects existing nodes.
pub open spec fn edges_closed(s: SnapView) -> bool {
    forall|k: (u64, u64)| #[trigger]
        s.edges.dom().contains(k) ==> s.nodes.dom().contains(k.0) && s.nodes.dom().contains(k.1)
}

/// A successful mutation keeps every edge anchored at existing nodes: edge
/// creation demands both endpoints, and entity removal cascades.
pub proof fn lemma_edges_stay_closed(s: SnapView, op: MutOp)
    requires
        edges_closed(s),
        op_allowed(s, op),
    ensures
        edges_closed(apply_op(s, op)),
{
    let s2 = apply_op(s, op);
    match op {
        MutOp::RemoveEntity { id } => {
            assert forall|k: (u64, u64)| #[trigger]
                s2.edges.dom().contains(k) implies s2.nodes.dom().contains(k.0)
                && s2.nodes.dom().contains(k.1) by {
                assert(s.edges.dom().contains(k));
            }
        },
        _ => {
        },
    }
}


/// The debounced writer's drain-to-latest rule: of a burst of queued
/// snapshots, only the newest is written, so the persisted document is never
/// stale relative to an earlier mutation.
pub fn latest_snapshot(batch: Vec<Snapshot>) -> (r: Option<Snapshot>)
    ensures
        r is Some <==> batch@.len() > 0,
        r matches Some(s) ==> s@ == batch@.last()@,
{
    let mut batch = batch;
    batch.pop()
}


/// The store after a whole sequence of mutating calls, applied in order.
pub open spec fn steps(v: StoreView, ops: Seq<MutOp>) -> StoreView
    decreases ops.len(),
{
    if ops.len() == 0 {
        v
    } else {
        steps(step(v, ops[0]), ops.skip(1))
    }
}

/// The pre-mutation snapshots that a sequence of mutating calls records,
/// oldest first; a failing call records nothing.
pub open spec fn recorded_snapshots(v: StoreView, ops: Seq<MutOp>) -> Seq<SnapView>
    decreases ops.len(),
{
    if ops.len() == 0 {
        Seq::empty()
    } else if op_allowed(v.current, ops[0]) {
        seq![v.current] + recorded_snapshots(step(v, ops[0]), ops.skip(1))
    } else {
        recorded_snapshots(step(v, ops[0]), ops.skip(1))
    }
}

/// The undo stack is a sliding window over the recorded history: after any
/// sequence of mutations it holds exactly the newest `max_history` of the
/// earlier undo entries and newly recorded snapshots, so going over capacity
/// by k recordings makes exactly the k oldest entries unreachable by undo.
pub proof fn lemma_history_window(v: StoreView, ops: Seq<MutOp>)
    requires
        v.max_history >= 1,
        v.undo_stack.len() <= v.max_history,
    ensures
        ({
            let full = v.undo_stack + recorded_snapshots(v, ops);
            let over = if full.len() > v.max_history {
                full.len() - v.max_history
            } else {
                0
            };
            steps(v, ops).undo_stack == full.skip(over as int)
        }),
    decreases ops.len(),
{
    let full = v.undo_stack + recorded_snapshots(v, ops);
    let m = v.max_history as int;
    if ops.len() == 0 {
        assert(full =~= v.undo_stack);
        assert(full.skip(0) =~= v.undo_stack);
    } else {
        let op = ops[0];
        let v2 = step(v, op);
        if !op_allowed(v.current, op) {
            assert(v2 == v);
            lemma_history_window(v2, ops.skip(1));
            assert(recorded_snapshots(v, ops) == recorded_snapshots(v2, ops.skip(1)));
        } else {
            assert(v2.undo_stack.len() <= v.max_history);
            lemma_history_window(v2, ops.skip(1));
            let rec2 = recorded_snapshots(v2, ops.skip(1));
            let full2 = v2.undo_stack + rec2;
            let over2 = if full2.len() > v.max_history {
                full2.len() - v.max_history
            } else {
                0
            };
            assert(steps(v, ops).undo_stack == full2.skip(over2 as int));
            assert(recorded_snapshots(v, ops) == seq![v.current] + rec2);
            if v.undo_stack.len() < v.max_history {
                // no eviction: the window only grows
                assert(v2.undo_stack == v.undo_stack.push(v.current));
                assert(full2 =~= full);
            } else {
                // at capacity: the oldest entry is evicted
                assert(v.undo_stack.len() == v.max_history);
                assert(v2.undo_stack == v.undo_stack.skip(1).push(v.current));
                assert(full2 =~= full.skip(1));
                let over = if full.len() > v.max_history {
                    full.len() - v.max_history
                } else {
                    0
                };
                assert(full.len() == full2.len() + 1);
                assert(full.len() > v.max_history);
                assert(over == over2 + 1);
                assert(full.skip(1).skip(over2 as int) =~= full.skip(over as int));
            }
        }
    }
}

} // verus!
