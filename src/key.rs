use std::collections::hash_map::DefaultHasher;
use std::hash::Hasher;
use vstd::prelude::*;
use vstd::std_specs::hash::DefaultHasherAdditionalSpecFns;
use vstd::utf8::encode_utf8;

verus! {

/// The identity of one connector on one controller.
///
/// The controller part is a 64-bit hash of the controller's device path, so
/// keys stay cheap to copy and compare. Two distinct paths may hash alike;
/// connectors of such controllers would then be confused when their ids
/// match. That risk is accepted: everything that depends on keys being apart
/// says so in its precondition.
#[derive(Clone, Copy, Debug, PartialEq, Eq, Hash, Structural)]
pub struct ConnectorKey {
    pub card_hash: u64,
    pub connector_id: u32,
}

/// The hash of a controller's device path: one write of the path's UTF-8
/// bytes into a fresh `DefaultHasher`.
pub open spec fn controller_hash(path: Seq<char>) -> u64 {
    DefaultHasher::spec_finish(seq![encode_utf8(path)])
}

/// The key of connector `connector_id` on the controller at `path`.
pub open spec fn key_of(path: Seq<char>, connector_id: u32) -> ConnectorKey {
    ConnectorKey { card_hash: controller_hash(path), connector_id }
}

/// Hashes a controller's device path.
pub fn hash_controller_path(path: &str) -> (r: u64)
    ensures
        r == controller_hash(path@),
{
    let mut hasher = DefaultHasher::new();
    hasher.write(path.as_bytes());
    hasher.finish()
}

impl ConnectorKey {
    /// The key of connector `connector_id` on the controller whose device
    /// path is `card_path`. The same inputs give the same key.
    pub fn new(card_path: &str, connector_id: u32) -> (r: ConnectorKey)
        ensures
            r == key_of(card_path@, connector_id),
    {
        ConnectorKey { card_hash: hash_controller_path(card_path), connector_id }
    }
}

} // verus!
