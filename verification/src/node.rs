//! Timeline node: a single immutable step in a timeline.
//!
//! Each node stores only the incremental delta from its parent; the world
//! state at a node is rebuilt by replaying deltas from the root.

use vstd::prelude::*;

use crate::delta::{Delta, DeltaView};
use crate::keyed::TextMap;
use crate::types::{is_random_uuid, new_uuid, NodeId, TimelineId};

verus! {

/// One immutable step in a timeline.
#[derive(Debug, Clone)]
pub struct TimelineNode {
    pub id: NodeId,
    pub timeline_id: TimelineId,
    /// `None` only for the root node.
    pub parent_id: Option<NodeId>,
    /// Logical clock: one more than the parent's.
    pub timestamp: u64,
    /// All world changes that occurred at this step.
    pub delta: Delta,
    /// Human-readable summary of what happened.
    pub description: String,
    /// Arbitrary key/value annotations (e.g. author, tags).
    pub metadata: TextMap<String>,
}

/// The content of a [`TimelineNode`].
pub struct NodeView {
    pub id: NodeId,
    pub timeline_id: TimelineId,
    pub parent_id: Option<NodeId>,
    pub timestamp: u64,
    pub delta: DeltaView,
    pub description: Seq<char>,
    pub metadata: Map<Seq<char>, Seq<char>>,
}

impl View for TimelineNode {
    type V = NodeView;

    open spec fn view(&self) -> NodeView {
        NodeView {
            id: self.id,
            timeline_id: self.timeline_id,
            parent_id: self.parent_id,
            timestamp: self.timestamp,
            delta: self.delta@,
            description: self.description@,
            metadata: self.metadata@,
        }
    }
}

impl TimelineNode {
    /// Create the root node for a new timeline (timestamp 0, empty delta), with a fresh random ID.
    pub fn root(timeline_id: TimelineId) -> (r: TimelineNode)
        ensures
            r@ == (NodeView {
                id: r.id,
                timeline_id,
                parent_id: None,
                timestamp: 0,
                delta: DeltaView::empty(),
                description: "Root"@,
                metadata: Map::empty(),
            }),
            is_random_uuid(r.id),
    {
        TimelineNode {
            id: new_uuid(),
            timeline_id,
            parent_id: None,
            timestamp: 0,
            delta: Delta::new(),
            description: "Root".to_owned(),
            metadata: TextMap::new(),
        }
    }

    /// Create a non-root node with a fresh random ID.
    pub fn new(
        timeline_id: TimelineId,
        parent_id: NodeId,
        timestamp: u64,
        delta: Delta,
        description: &str,
    ) -> (r: TimelineNode)
        ensures
            r@ == (NodeView {
                id: r.id,
                timeline_id,
                parent_id: Some(parent_id),
                timestamp,
                delta: delta@,
                description: description@,
                metadata: Map::empty(),
            }),
            is_random_uuid(r.id),
    {
        TimelineNode {
            id: new_uuid(),
            timeline_id,
            parent_id: Some(parent_id),
            timestamp,
            delta,
            description: description.to_owned(),
            metadata: TextMap::new(),
        }
    }

    /// Attach an annotation.
    pub fn with_metadata(self, key: &str, value: &str) -> (r: TimelineNode)
        ensures
            r@ == (NodeView { metadata: self@.metadata.insert(key@, value@), ..self@ }),
    {
        let mut n = self;
        n.metadata.insert(key.to_owned(), value.to_owned());
        n
    }
}

} // verus!
