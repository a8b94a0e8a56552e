//! A lightweight, embeddable timeline engine: a pool of entities changed only
//! through deltas, timelines of immutable nodes that store one delta each,
//! branching and time travel that never alter the source timeline, causal
//! events with delays, and self-correcting world tendencies.

pub mod assoc;
pub mod causal;
pub mod compose;
pub mod delta;
pub mod entity;
pub mod history;
pub mod index;
pub mod keyed;
pub mod manager;
pub mod merge;
pub mod node;
pub mod prelude;
pub mod schedule;
pub mod tendency;
pub mod text;
pub mod timeline;
pub mod types;
pub mod value;
