//! Repository metadata discovery.

pub mod channel;
pub mod event;
pub mod identifier;
pub mod listing;
pub mod model;
pub mod node;
pub mod path;
pub mod project_rules;
pub mod proto;
pub mod query;
pub mod repo_metadata_proto;
pub mod scan;
pub mod sequence;
pub mod table;
pub mod text;
pub mod tree;
pub mod update;
pub mod wait_for_events;
