//! An in-memory subscription-routing index for a publish/subscribe broker
//! with hierarchical, `/`-separated topics: `+` matches one level, `#`
//! matches any remaining levels, and a `$share/<group>/...` filter joins a
//! load-balanced shared group. The index answers one question: given a
//! publish topic, which subscribers receive the message?

mod client_types;
pub mod laws;
pub mod sync;
pub mod topic;
pub mod topic_tree;

pub use client_types::{ClientId, QoS};
pub use sync::TopicTreeOperations;
pub use topic::{TopicFilter, TopicFilterError, TopicName, TopicNameError};
pub use topic_tree::{SubScriber, TopicTree};
