//! State resolution for rooms whose state has forked: one state out of the states that
//! several servers hold, the same on every server that is given the same events.

pub mod assoc;
pub mod auth;
pub mod auth_chain;
pub mod content;
pub mod control;
pub mod error;
pub mod event;
pub mod graph;
pub mod invite;
pub mod laws;
pub mod mainline;
pub mod media;
pub mod order;
pub mod power;
pub mod resolve;
pub mod room_version;
pub mod separate;
pub mod store;
pub mod topo;

pub use assoc::{VecMap, VecSet};
pub use auth::{apply_verdict, iterative_auth_check};
pub use auth_chain::{get_auth_chain_diff, EventIdSet};
pub use control::reverse_topological_power_sort;
pub use error::Error;
pub use event::{
    is_type_and_key, Event, EventTypeExt, StateEventType, StateKey, StateMap, TimelineEventType,
};
pub use graph::add_event_and_auth_chain_to_graph;
pub use mainline::{get_mainline_depth, mainline_sort};
pub use media::{
    EncryptedFile, EncryptedFileInit, ImageInfo, JsonWebKey, JsonWebKeyInit, MediaSource,
    ThumbnailInfo,
};
pub use power::{
    get_power_level_for_sender, is_power_event, is_power_event_id,
    is_power_event_with_membership, sender_level_with,
};
pub use resolve::resolve;
pub use room_version::{RoomVersion, RoomVersionId};
pub use separate::separate;
pub use store::EventStore;
pub use topo::{lexicographical_topological_sort, EventGraph};
