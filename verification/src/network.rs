//! Message handling of the DHT network layer: the answer to each incoming
//! request, and message identifiers.

use vstd::prelude::*;
use crate::clock::{unix_time_nanos, unix_time_secs};
use crate::encoding::{hex_encode, hex_lower};
use crate::types::{DhtMessage, DhtMessageType, DhtNode, NodeId};

verus! {

/// Message priority levels.
#[derive(Debug, Clone, Copy, PartialEq, Eq, Structural)]
pub enum MessagePriority {
    Low,
    Normal,
    High,
    Critical,
}

/// Network metadata for message routing and reliability.
#[derive(Debug, Clone, Copy, PartialEq, Eq, Structural)]
pub struct NetworkMetadata {
    /// Message sequence number.
    pub sequence: u64,
    /// Network protocol version.
    pub version: u8,
    /// Hop count for routing.
    pub hop_count: u8,
    /// Message priority.
    pub priority: MessagePriority,
}

/// Network envelope of a DHT message with its metadata.
#[derive(Debug, Clone)]
pub struct NetworkEnvelope {
    /// The DHT message.
    pub message: DhtMessage,
    /// Network-level metadata.
    pub metadata: NetworkMetadata,
}

/// Why the network layer could not answer.
#[derive(Debug, Clone, Copy, PartialEq, Eq, Structural)]
pub enum NetworkError {
    /// The system clock reads before the Unix epoch.
    ClockBeforeEpoch,
}

/// The 8 big-endian bytes of `t`.
pub open spec fn be_bytes(t: u64) -> Seq<u8> {
    Seq::new(8, |i: int| ((t >> ((8 * (7 - i)) as u64)) & 0xffu64) as u8)
}

/// `s` without its leading `'0'` characters, keeping at least one character.
pub open spec fn strip_leading_zeros(s: Seq<char>) -> Seq<char>
    decreases s.len(),
{
    if s.len() > 1 && s[0] == '0' {
        strip_leading_zeros(s.drop_first())
    } else {
        s
    }
}

/// The identifier of a message made at time `t` (in nanoseconds): the
/// lowercase hexadecimal digits of `t`, without leading zeros.
pub open spec fn message_id_text(t: u64) -> Seq<char> {
    strip_leading_zeros(hex_lower(be_bytes(t)))
}

/// Every digit that `hex_lower` writes is an ASCII character.
proof fn lemma_hex_lower_ascii(data: Seq<u8>)
    ensures
        vstd::utf8::is_ascii_chars(hex_lower(data)),
{
    let h = hex_lower(data);
    assert forall|i: int| 0 <= i < h.len() implies '\0' <= #[trigger] h[i] <= '\u{7f}' by {
        let b = data[i / 2];
        let n: int = if i % 2 == 0 { b / 16 } else { b % 16 } as int;
        assert(0 <= n < 16);
    }
}

/// The identifier of a message made at time `nanos`.
pub fn message_id_at(nanos: u64) -> (id: String)
    ensures
        id@ == message_id_text(nanos),
        1 <= id@.len() <= 16,
{
    let mut bytes: Vec<u8> = Vec::new();
    for i in 0..8
        invariant
            bytes@ == be_bytes(nanos).take(i as int),
    {
        let shift: u64 = 8 * (7 - i as u64);
        let b: u8 = ((nanos >> shift) & 0xffu64) as u8;
        bytes.push(b);
        assert(shift == (8 * (7 - i)) as u64);
        assert(be_bytes(nanos).take(i + 1) =~= be_bytes(nanos).take(i as int).push(b));
    }
    assert(be_bytes(nanos).take(8) =~= be_bytes(nanos));
    let full = hex_encode(bytes.as_slice());
    let text: &str = full.as_str();
    proof {
        lemma_hex_lower_ascii(bytes@);
    }
    let ghost all = text@;
    assert(all.len() == 16);
    assert(all.skip(0) =~= all);
    let mut k: usize = 0;
    while k < 15 && text.get_ascii(k) == 48u8
        invariant
            0 <= k <= 15,
            text@ == all,
            all.len() == 16,
            text.is_ascii(),
            strip_leading_zeros(all) == strip_leading_zeros(all.skip(k as int)),
        decreases 15 - k,
    {
        assert(all[k as int] == '0') by {
            assert(all[k as int] as u8 == 48u8);
            assert('\0' <= all[k as int] <= '\u{7f}');
        }
        assert(all.skip(k as int).drop_first() =~= all.skip(k + 1));
        k = k + 1;
    }
    proof {
        if k < 15 {
            assert(all[k as int] as u8 != 48u8);
            assert(all.skip(k as int)[0] != '0');
        }
    }
    let rest: &str = text.substring_ascii(k, 16);
    assert(rest@ =~= all.skip(k as int));
    rest.to_owned()
}

/// A fresh message identifier, from the current time in nanoseconds (its
/// low 64 bits; 0 when the clock reads before the Unix epoch).
pub fn generate_message_id() -> (id: String)
    ensures
        exists|t: u64| id@ == #[trigger] message_id_text(t),
        1 <= id@.len() <= 16,
{
    let nanos: u64 = match unix_time_nanos() {
        Some(n) => n as u64,
        None => 0,
    };
    message_id_at(nanos)
}

/// Whether `m` is a reply of kind `kind` from node `local` to node `to`,
/// with identifier `id` and time `now`, carrying no value and no signature.
pub open spec fn is_reply(m: DhtMessage, kind: DhtMessageType, local: Seq<u8>, to: Seq<u8>, id: Seq<char>, now: u64) -> bool {
    &&& m.message_type == kind
    &&& m.message_id@ == id
    &&& m.sender_id@ == local
    &&& m.target_id matches Some(t) && t@ == to
    &&& m.value is None
    &&& m.timestamp == now
    &&& m.signature is None
}

/// Whether `r` is the answer of node `local` to `message`, at time `now`,
/// with message identifier `id`: a PING gets a PONG; a FIND_NODE gets a
/// FIND_NODE response with no nodes; a FIND_VALUE gets a FIND_VALUE
/// response echoing the key, with no value and no nodes; a STORE gets a
/// STORE acknowledgment; responses get no answer.
pub open spec fn is_response(message: DhtMessage, r: Option<DhtMessage>, local: Seq<u8>, id: Seq<char>, now: u64) -> bool {
    match message.message_type {
        DhtMessageType::Ping => match r {
            Some(m) => is_reply(m, DhtMessageType::Pong, local, message.sender_id@, id, now)
                && m.key is None && m.nodes is None,
            None => false,
        },
        DhtMessageType::FindNode => match r {
            Some(m) => is_reply(m, DhtMessageType::FindNodeResponse, local, message.sender_id@, id, now)
                && m.key is None && (match m.nodes { Some(ns) => ns@.len() == 0, None => false }),
            None => false,
        },
        DhtMessageType::FindValue => match r {
            Some(m) => is_reply(m, DhtMessageType::FindValueResponse, local, message.sender_id@, id, now)
                && m.key == message.key && (match m.nodes { Some(ns) => ns@.len() == 0, None => false }),
            None => false,
        },
        DhtMessageType::Store => match r {
            Some(m) => is_reply(m, DhtMessageType::StoreResponse, local, message.sender_id@, id, now)
                && m.key is None && m.nodes is None,
            None => false,
        },
        _ => r is None,
    }
}

/// The answer of node `local` to `message`, at time `now`, with message
/// identifier `message_id` (see `is_response`).
pub fn response_to(local: &NodeId, message: DhtMessage, message_id: String, now: u64) -> (r: Option<DhtMessage>)
    ensures
        is_response(message, r, local@, message_id@, now),
{
    let kind = match message.message_type {
        DhtMessageType::Ping => DhtMessageType::Pong,
        DhtMessageType::FindNode => DhtMessageType::FindNodeResponse,
        DhtMessageType::FindValue => DhtMessageType::FindValueResponse,
        DhtMessageType::Store => DhtMessageType::StoreResponse,
        _ => {
            return None;
        },
    };
    let key = match message.message_type {
        DhtMessageType::FindValue => message.key,
        _ => None,
    };
    let nodes: Option<Vec<DhtNode>> = match message.message_type {
        DhtMessageType::FindNode | DhtMessageType::FindValue => Some(Vec::new()),
        _ => None,
    };
    Some(DhtMessage {
        message_id,
        message_type: kind,
        sender_id: *local,
        target_id: Some(message.sender_id),
        key,
        value: None,
        nodes,
        timestamp: now,
        signature: None,
    })
}

/// Whether messages of kind `kind` are requests that get an answer.
pub open spec fn is_request(kind: DhtMessageType) -> bool {
    kind is Ping || kind is FindNode || kind is FindValue || kind is Store
}

/// The answer of node `local` to `message` (see `is_response`), with a
/// fresh message identifier and the current time. A message that is no
/// request gets no answer, whatever the clock reads; a request fails only
/// when the clock reads before the Unix epoch.
pub fn handle_incoming_message(local: &NodeId, message: DhtMessage) -> (r: Result<Option<DhtMessage>, NetworkError>)
    ensures
        !is_request(message.message_type) ==> r == Ok::<Option<DhtMessage>, NetworkError>(None),
        r is Err ==> r == Err::<Option<DhtMessage>, NetworkError>(NetworkError::ClockBeforeEpoch),
        r matches Ok(o) ==> exists|t: u64, now: u64| #[trigger] is_response(message, o, local@, message_id_text(t), now),
{
    match message.message_type {
        DhtMessageType::Ping | DhtMessageType::FindNode | DhtMessageType::FindValue | DhtMessageType::Store => {},
        _ => {
            assert(is_response(message, None, local@, message_id_text(0), 0));
            return Ok(None);
        },
    }
    let now = match unix_time_secs() {
        Some(t) => t,
        None => {
            return Err(NetworkError::ClockBeforeEpoch);
        },
    };
    let ghost m = message;
    let id = generate_message_id();
    let ghost idv = id@;
    let ghost t = choose|t: u64| idv == #[trigger] message_id_text(t);
    let r = response_to(local, message, id, now);
    assert(is_response(m, r, local@, message_id_text(t), now));
    Ok(r)
}

} // verus!
