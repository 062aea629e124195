//! Identifiers of nodes and connections, and the kinds of data that flow
//! along connections.

use vstd::prelude::*;

verus! {

/// The identifier is a version-4 uuid: version nibble 4 and the RFC variant
/// bits `10`.
pub open spec fn is_v4_uuid(v: u128) -> bool {
    &&& (v >> 76u128) & 0xfu128 == 4u128
    &&& (v >> 62u128) & 0x3u128 == 2u128
}

/// Relies on `uuid::Uuid::new_v4` and `Uuid::as_u128`: a random 128-bit value
/// whose version and variant bits `new_v4` masks and sets, read back as the
/// same integer. Beyond those bits the value is random.
#[verifier::external_body]
fn random_id() -> (r: u128)
    ensures
        (r >> 76u128) & 0xfu128 == 4u128,
        (r >> 62u128) & 0x3u128 == 2u128,
{
    uuid::Uuid::new_v4().as_u128()
}

/// Identifier of a node in the dataflow graph.
#[derive(Clone, Copy, PartialEq, Eq, Hash, Debug, Structural)]
pub struct NodeId(pub u128);

impl NodeId {
    /// A freshly drawn random identifier.
    pub fn new() -> (r: NodeId)
        ensures
            is_v4_uuid(r.0),
    {
        NodeId(random_id())
    }
}

impl Default for NodeId {
    /// A freshly drawn random identifier.
    fn default() -> (r: NodeId)
        ensures
            is_v4_uuid(r.0),
    {
        NodeId::new()
    }
}

/// Identifier of a connection between two nodes.
#[derive(Clone, Copy, PartialEq, Eq, Hash, Debug, Structural)]
pub struct ConnectionId(pub u128);

impl ConnectionId {
    /// A freshly drawn random identifier.
    pub fn new() -> (r: ConnectionId)
        ensures
            is_v4_uuid(r.0),
    {
        ConnectionId(random_id())
    }
}

impl Default for ConnectionId {
    /// A freshly drawn random identifier.
    fn default() -> (r: ConnectionId)
        ensures
            is_v4_uuid(r.0),
    {
        ConnectionId::new()
    }
}

/// Kinds of data that can flow through a connection.
#[derive(Clone, Copy, PartialEq, Eq, Hash, Debug, Structural)]
pub enum DataType {
    Float,
    Vector2,
    Vector3,
    Vector4,
    Color,
    AudioBuffer,
    Image,
    String,
    Boolean,
    Model,
    Conditioning,
    Latent,
    Clip,
    VAE,
    Mask,
    Audio,
    Array,
    Integer,
    Mesh,
    Scene,
    Transform,
}

impl Default for DataType {
    fn default() -> (r: DataType)
        ensures
            r == DataType::Float,
    {
        DataType::Float
    }
}

} // verus!
