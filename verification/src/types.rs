//! Core types of the DHT layer.

use vstd::prelude::*;
use crate::proofs::ZeroKnowledgeProof;
use crate::storage::ZkDhtValue;

verus! {

/// A 32-byte cryptographic hash, used for node identifiers and keys.
#[derive(Debug, Clone, Copy, Hash)]
pub struct Hash256 {
    bytes: [u8; 32],
}

impl View for Hash256 {
    type V = Seq<u8>;

    closed spec fn view(&self) -> Seq<u8> {
        self.bytes@
    }
}

impl Hash256 {
    /// The hash whose bytes are `bytes`.
    pub fn from_bytes(bytes: &[u8]) -> (h: Hash256)
        requires
            bytes@.len() == 32,
        ensures
            h@ == bytes@,
    {
        let mut out = [0u8; 32];
        for i in 0..32
            invariant
                bytes@.len() == 32,
                out@.len() == 32,
                forall|j: int| 0 <= j < i ==> #[trigger] out@[j] == bytes@[j],
        {
            out[i] = bytes[i];
        }
        assert(out@ == bytes@);
        Hash256 { bytes: out }
    }

    /// The bytes of the hash.
    pub fn as_bytes(&self) -> (b: &[u8; 32])
        ensures
            b@ == self@,
    {
        &self.bytes
    }

    /// Equality of hashes is equality of their bytes.
    pub proof fn lemma_eq_bytes(a: Hash256, b: Hash256)
        ensures
            (a == b) <==> (a@ == b@),
    {
        broadcast use vstd::array::axiom_array_ext_equal;
        if a@ == b@ {
            assert(a.bytes =~= b.bytes);
        }
    }
}

impl PartialEq for Hash256 {
    fn eq(&self, other: &Hash256) -> (r: bool) {
        let mut i: usize = 0;
        while i < 32
            invariant
                i <= 32,
                self.bytes@.len() == 32,
                other.bytes@.len() == 32,
                forall|j: int| 0 <= j < i ==> #[trigger] self.bytes@[j] == other.bytes@[j],
            decreases 32 - i,
        {
            if self.bytes[i] != other.bytes[i] {
                return false;
            }
            i += 1;
        }
        assert(self.bytes@ =~= other.bytes@);
        true
    }
}

impl Eq for Hash256 {}

impl vstd::std_specs::cmp::PartialEqSpecImpl for Hash256 {
    open spec fn obeys_eq_spec() -> bool {
        true
    }

    open spec fn eq_spec(&self, other: &Hash256) -> bool {
        self@ == other@
    }
}

/// Node identifier.
pub type NodeId = Hash256;

/// Key of a value stored in the DHT.
pub type DhtKey = Hash256;

/// A copy of a byte vector.
pub fn copy_bytes(v: &Vec<u8>) -> (r: Vec<u8>)
    ensures
        r@ == v@,
{
    let mut r: Vec<u8> = Vec::new();
    for j in 0..v.len()
        invariant
            r@ == v@.take(j as int),
    {
        r.push(v[j]);
        assert(v@.take(j + 1) == v@.take(j as int).push(v@[j as int]));
    }
    assert(v@.take(v.len() as int) == v@);
    r
}

/// A copy of a vector of strings.
pub fn copy_strings(v: &Vec<String>) -> (r: Vec<String>)
    ensures
        r@ == v@,
{
    let mut r: Vec<String> = Vec::new();
    for j in 0..v.len()
        invariant
            r@ == v@.take(j as int),
    {
        r.push(v[j].clone());
        assert(v@.take(j + 1) == v@.take(j as int).push(v@[j as int]));
    }
    assert(v@.take(v.len() as int) == v@);
    r
}

/// Storage tier levels.
#[derive(Debug, Clone, Copy, PartialEq, Eq, Hash, Structural)]
pub enum StorageTier {
    /// Hot storage: fast access, higher cost.
    Hot,
    /// Warm storage: medium access speed.
    Warm,
    /// Cold storage: slow access, lower cost.
    Cold,
    /// Archive storage: very slow access, lowest cost.
    Archive,
}

/// Access control levels for content.
#[derive(Debug, Clone, Copy, PartialEq, Eq, Structural)]
pub enum AccessLevel {
    /// Anyone can read.
    Public,
    /// Only the owner.
    Private,
    /// Specific users.
    Restricted,
}

/// DHT node information.
#[derive(Debug, Clone)]
pub struct DhtNode {
    /// Node identifier.
    pub id: NodeId,
    /// Network addresses.
    pub addresses: Vec<String>,
    /// Encoded public key of the node.
    pub public_key: Vec<u8>,
    /// Last seen timestamp.
    pub last_seen: u64,
    /// Node reputation score.
    pub reputation: u32,
}

/// The content of a `DhtNode`.
pub struct DhtNodeView {
    pub id: Seq<u8>,
    pub addresses: Seq<Seq<char>>,
    pub public_key: Seq<u8>,
    pub last_seen: u64,
    pub reputation: u32,
}

impl View for DhtNode {
    type V = DhtNodeView;

    open spec fn view(&self) -> DhtNodeView {
        DhtNodeView {
            id: self.id@,
            addresses: self.addresses@.map_values(|a: String| a@),
            public_key: self.public_key@,
            last_seen: self.last_seen,
            reputation: self.reputation,
        }
    }
}

impl DhtNode {
    /// A copy of the node information.
    pub fn duplicate(&self) -> (r: DhtNode)
        ensures
            r@ == self@,
    {
        DhtNode {
            id: self.id,
            addresses: copy_strings(&self.addresses),
            public_key: copy_bytes(&self.public_key),
            last_seen: self.last_seen,
            reputation: self.reputation,
        }
    }
}

/// DHT message types for peer communication.
#[derive(Debug, Clone, Copy, PartialEq, Eq, Structural)]
pub enum DhtMessageType {
    /// Ping to check node availability.
    Ping,
    /// Pong response to ping.
    Pong,
    /// Find nodes closest to target.
    FindNode,
    /// Response with closest nodes.
    FindNodeResponse,
    /// Store value.
    Store,
    /// Store acknowledgment.
    StoreResponse,
    /// Find value.
    FindValue,
    /// Value found response.
    FindValueResponse,
}

/// DHT message structure.
#[derive(Debug, Clone)]
pub struct DhtMessage {
    /// Unique message identifier.
    pub message_id: String,
    /// Type of message.
    pub message_type: DhtMessageType,
    /// Sender node ID.
    pub sender_id: NodeId,
    /// Target node ID.
    pub target_id: Option<NodeId>,
    /// Key for store/find operations.
    pub key: Option<String>,
    /// Value for store operations.
    pub value: Option<Vec<u8>>,
    /// Node list for responses.
    pub nodes: Option<Vec<DhtNode>>,
    /// Message timestamp.
    pub timestamp: u64,
    /// Digital signature.
    pub signature: Option<Vec<u8>>,
}

/// DHT query response types.
#[derive(Debug, Clone)]
pub enum DhtQueryResponse {
    /// Value found.
    Value(Vec<u8>),
    /// Nodes found (value not found locally).
    Nodes(Vec<DhtNode>),
}

/// Peer connection status.
#[derive(Debug, Clone, Copy, PartialEq, Eq, Structural)]
pub enum PeerStatus {
    /// Connected and responsive.
    Connected,
    /// Disconnected or unresponsive.
    Disconnected,
    /// Connection in progress.
    Connecting,
}

/// Peer connection information.
#[derive(Debug, Clone)]
pub struct PeerInfo {
    /// Node information.
    pub node: DhtNode,
    /// Connection establishment time.
    pub connection_time: u64,
    /// Last seen timestamp.
    pub last_seen: u64,
    /// Connection status.
    pub status: PeerStatus,
    /// Peer capabilities.
    pub capabilities: Vec<String>,
}

/// Consistency levels for replication.
#[derive(Debug, Clone, Copy, PartialEq, Eq, Structural)]
pub enum ConsistencyLevel {
    /// Eventual consistency.
    Eventual,
    /// Strong consistency.
    Strong,
    /// Quorum consistency.
    Quorum,
}

/// Replication policy configuration.
#[derive(Debug, Clone, Copy, PartialEq, Eq, Structural)]
pub struct ReplicationPolicy {
    /// Number of replicas to maintain.
    pub replication_factor: usize,
    /// Consistency level required.
    pub consistency_level: ConsistencyLevel,
    /// Minimum replicas before repair is needed.
    pub repair_threshold: usize,
    /// Maximum repair attempts.
    pub max_repair_attempts: u32,
}

/// Replication status for a stored item.
#[derive(Debug, Clone)]
pub struct ReplicationStatus {
    /// Storage key.
    pub key: String,
    /// Current number of replicas.
    pub total_replicas: usize,
    /// Required number of replicas.
    pub required_replicas: usize,
    /// Nodes holding replicas.
    pub replica_nodes: Vec<NodeId>,
    /// Nodes that failed to store replicas.
    pub failed_nodes: Vec<NodeId>,
    /// Last replication update.
    pub last_update: u64,
    /// Whether repair is needed.
    pub repair_needed: bool,
}

/// DHT messages in the older, structured form.
#[allow(non_camel_case_types)]
#[derive(Debug, Clone)]
pub enum DhtMessage_Legacy {
    /// Ping to check node availability.
    Ping { sender: DhtNode, timestamp: u64 },
    /// Pong response to ping.
    Pong { sender: DhtNode, timestamp: u64 },
    /// Find nodes closest to target.
    FindNode { target: NodeId, sender: DhtNode },
    /// Response with closest nodes.
    NodesFound { nodes: Vec<DhtNode>, sender: DhtNode },
    /// Store a value with its proof.
    Store { key: DhtKey, value: ZkDhtValue, sender: DhtNode },
    /// Store acknowledgment.
    StoreAck { key: DhtKey, success: bool, sender: DhtNode },
    /// Find a value, with a proof of access.
    FindValue { key: DhtKey, sender: DhtNode, access_proof: ZeroKnowledgeProof },
    /// Value found response.
    ValueFound { key: DhtKey, value: Option<ZkDhtValue>, nodes: Vec<DhtNode>, sender: DhtNode },
}

/// Entry in a routing table.
#[derive(Debug, Clone)]
pub struct RoutingEntry {
    /// Node information.
    pub node: DhtNode,
    /// Distance from the local node.
    pub distance: u32,
    /// Last contact timestamp (seconds since the Unix epoch).
    pub last_contact: u64,
    /// Failed ping attempts.
    pub failed_attempts: u32,
}

/// The content of a `RoutingEntry`.
pub struct RoutingEntryView {
    pub node: DhtNodeView,
    pub distance: u32,
    pub last_contact: u64,
    pub failed_attempts: u32,
}

impl View for RoutingEntry {
    type V = RoutingEntryView;

    open spec fn view(&self) -> RoutingEntryView {
        RoutingEntryView {
            node: self.node@,
            distance: self.distance,
            last_contact: self.last_contact,
            failed_attempts: self.failed_attempts,
        }
    }
}

impl RoutingEntry {
    /// A copy of the entry.
    pub fn duplicate(&self) -> (r: RoutingEntry)
        ensures
            r@ == self@,
    {
        RoutingEntry {
            node: self.node.duplicate(),
            distance: self.distance,
            last_contact: self.last_contact,
            failed_attempts: self.failed_attempts,
        }
    }
}

/// The views of a sequence of routing entries.
pub open spec fn entries_view(s: Seq<RoutingEntry>) -> Seq<RoutingEntryView> {
    s.map_values(|e: RoutingEntry| e@)
}

/// Kademlia-style k-bucket.
#[derive(Debug, Clone)]
pub struct KBucket {
    /// Maximum number of nodes in the bucket.
    pub k: usize,
    /// Nodes in this bucket.
    pub nodes: Vec<RoutingEntry>,
    /// Last bucket update time (seconds since the Unix epoch).
    pub last_updated: u64,
}

/// The content of a `KBucket`.
pub struct KBucketView {
    pub k: usize,
    pub nodes: Seq<RoutingEntryView>,
    pub last_updated: u64,
}

impl View for KBucket {
    type V = KBucketView;

    open spec fn view(&self) -> KBucketView {
        KBucketView { k: self.k, nodes: entries_view(self.nodes@), last_updated: self.last_updated }
    }
}

} // verus!
