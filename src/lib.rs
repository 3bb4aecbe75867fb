//! A syntax tree stored as a flat preorder array, and a builder that fills it in one
//! forward pass: tokens and nodes are emitted in order, and a node can be put around
//! entries already emitted by way of a checkpoint.

mod laws;
mod model;
mod span;
mod tree;

pub use laws::{
    closes_only_open, directly_under, emitted, law_children_one_level_down,
    law_finish_rolls_up, law_preorder_round_trip, law_root_children_in_emission_order,
    law_span_covers_descendants, law_wrap_rolls_up,
    open_count, replay, Event,
};
pub use model::{hull_from, ArenaView, BuilderView, MAX_ENTRIES};
pub use span::{contains_spec, merge_spec, Span};
pub use tree::{Builder, Checkpoint, Node, Tree};
