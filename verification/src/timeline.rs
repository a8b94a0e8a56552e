//! Timeline: a labelled, linearly ordered sequence of node IDs.
//!
//! Branches are forks of an existing timeline at one of its nodes; a time-travel
//! branch is a fork that leaves the timeline it starts from untouched.

use vstd::prelude::*;

use crate::entity::copy_ids;
use crate::text::DeepCopy;
use crate::types::{is_random_uuid, new_uuid, NodeId, TimelineId};

verus! {

/// A single timeline: the main trunk or any branch.
#[derive(Debug, Clone)]
pub struct Timeline {
    pub id: TimelineId,
    /// The timeline this was forked from (`None` for the main timeline).
    pub parent_id: Option<TimelineId>,
    /// The node in the parent timeline at which the fork occurred.
    pub branch_point: Option<NodeId>,
    /// Ordered list of node IDs owned by this timeline.
    pub nodes: Vec<NodeId>,
    /// Display name.
    pub name: String,
    /// `true` when created by a time-travel operation.
    pub is_time_travel_branch: bool,
}

/// The content of a [`Timeline`].
pub struct TimelineView {
    pub id: TimelineId,
    pub parent_id: Option<TimelineId>,
    pub branch_point: Option<NodeId>,
    pub nodes: Seq<NodeId>,
    pub name: Seq<char>,
    pub is_time_travel_branch: bool,
}

impl View for Timeline {
    type V = TimelineView;

    open spec fn view(&self) -> TimelineView {
        TimelineView {
            id: self.id,
            parent_id: self.parent_id,
            branch_point: self.branch_point,
            nodes: self.nodes@,
            name: self.name@,
            is_time_travel_branch: self.is_time_travel_branch,
        }
    }
}

impl DeepCopy for Timeline {
    fn deep_copy(&self) -> (r: Timeline) {
        Timeline {
            id: self.id,
            parent_id: self.parent_id,
            branch_point: self.branch_point,
            nodes: copy_ids(&self.nodes),
            name: self.name.clone(),
            is_time_travel_branch: self.is_time_travel_branch,
        }
    }
}

impl Timeline {
    /// Create the main timeline, with a fresh random ID and no nodes.
    pub fn new_root() -> (r: Timeline)
        ensures
            r@ == (TimelineView {
                id: r.id,
                parent_id: None,
                branch_point: None,
                nodes: Seq::empty(),
                name: "Main Timeline"@,
                is_time_travel_branch: false,
            }),
            is_random_uuid(r.id),
    {
        Timeline {
            id: new_uuid(),
            parent_id: None,
            branch_point: None,
            nodes: Vec::new(),
            name: "Main Timeline".to_owned(),
            is_time_travel_branch: false,
        }
    }

    /// Fork from `parent_id` at `branch_point`, with a fresh random ID and no nodes.
    pub fn branch_from(
        parent_id: TimelineId,
        branch_point: NodeId,
        name: &str,
        is_time_travel_branch: bool,
    ) -> (r: Timeline)
        ensures
            r@ == (TimelineView {
                id: r.id,
                parent_id: Some(parent_id),
                branch_point: Some(branch_point),
                nodes: Seq::empty(),
                name: name@,
                is_time_travel_branch,
            }),
            is_random_uuid(r.id),
    {
        Timeline {
            id: new_uuid(),
            parent_id: Some(parent_id),
            branch_point: Some(branch_point),
            nodes: Vec::new(),
            name: name.to_owned(),
            is_time_travel_branch,
        }
    }

    /// The most recent node ID in this timeline, if any.
    pub fn current_node(&self) -> (r: Option<NodeId>)
        ensures
            r == (if self@.nodes.len() == 0 {
                None
            } else {
                Some(self@.nodes.last())
            }),
    {
        if self.nodes.len() == 0 {
            None
        } else {
            Some(self.nodes[self.nodes.len() - 1])
        }
    }

    /// Number of nodes owned by this timeline.
    pub fn len(&self) -> (r: usize)
        ensures
            r == self@.nodes.len(),
    {
        self.nodes.len()
    }

    pub fn is_empty(&self) -> (r: bool)
        ensures
            r == (self@.nodes.len() == 0),
    {
        self.nodes.len() == 0
    }
}

} // verus!
