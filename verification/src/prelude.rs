//! Convenience re-exports of the most common types.

pub use crate::causal::{CausalEvent, EventEffect, EventSource};
pub use crate::delta::{Delta, EntityDiff, PropertyDiff, RelationshipDiff, RoleDiff};
pub use crate::entity::{Entity, EntityPool, DUNBAR_NUMBER};
pub use crate::manager::TimelineManager;
pub use crate::node::TimelineNode;
pub use crate::tendency::{Tendency, TendencyCondition, TendencyEffect};
pub use crate::timeline::Timeline;
pub use crate::types::{EntityId, EventId, NodeId, TendencyId, TimelineId};
pub use crate::value::Value;
