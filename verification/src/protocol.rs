//! Messages between the coordinator and its workers, and the framing of their bytes.

use crate::probability::Probability;
use crate::text;
use vstd::prelude::*;

verus! {

/// The largest payload that one frame may carry, in bytes.
pub const MAX_FRAME_BYTES: usize = 268_435_456;

/// How many items a worker queues for other workers before it sends them on.
pub const BATCH_ITEM_LIMIT: usize = 65_536;

/// The bytes of a frame's length prefix.
pub const FRAME_HEADER_BYTES: usize = 4;

/// What a worker needs to know to build its shard.
#[derive(Debug, Clone, Copy, PartialEq, Eq, Structural)]
pub struct ClusterConfig {
    pub nodes: u32,
    pub degree: u32,
    pub workers: u32,
    pub seed: u64,
}

/// A change of the row of `node`: `other` is added or removed.
#[derive(Debug, Clone, Copy, PartialEq, Eq, Structural)]
pub struct Mutation {
    pub node: u32,
    pub other: u32,
    pub add: bool,
}

/// Asks the owner of `a` whether `b` is its neighbor.
#[derive(Debug, Clone, Copy, PartialEq, Eq, Structural)]
pub struct EdgeQuery {
    pub origin_index: u32,
    pub a: u32,
    pub b: u32,
}

/// What the coordinator asks of a worker.
#[derive(Debug, Clone)]
pub enum WorkerCommand {
    Build(ClusterConfig),
    Rewire { probability: Probability, seed: u64 },
    ApplyMutations(Vec<Mutation>),
    GraphStats,
    PrepareClustering { vertices: Vec<u32> },
    ResolveEdgeQueries(Vec<EdgeQuery>),
    StartBfs { source: u32 },
    RingDistances { source: u32 },
    ExpandBfs,
    ApplyDiscoveries(Vec<u32>),
    AdvanceBfs,
    FinishBfsLevel(Vec<u32>),
    Shutdown,
}

/// What a worker answers.
#[derive(Debug, Clone)]
pub enum WorkerResponse {
    Built { local_nodes: u32, adjacency_entries: u64 },
    RewireMutations { target: u32, mutations: Vec<Mutation> },
    Rewired { considered: u64, rewired: u64 },
    MutationsApplied { count: u64 },
    GraphStats { local_nodes: u32, adjacency_entries: u64 },
    ClusteringQueries { target: u32, queries: Vec<EdgeQuery> },
    ClusteringPrepared { degrees: Vec<u32>, local_counts: Vec<u64> },
    EdgeQueriesResolved { counts: Vec<(u32, u64)> },
    BfsStarted,
    RingDistances { distance_sum: u64, reachable: u64, visited: u64 },
    BfsExpanded { local_discovered: u64, discoveries_by_owner: Vec<Vec<u32>> },
    DiscoveriesApplied { accepted: u64 },
    BfsAdvanced { frontier: u64, visited: u64 },
    BfsLevelFinished { accepted: u64, frontier: u64, visited: u64 },
    Ack,
    Error(String),
}

/// The four bytes of a length, most significant first.
pub open spec fn length_bytes(length: nat) -> Seq<u8> {
    seq![
        (length / 16_777_216) as u8,
        ((length / 65_536) % 256) as u8,
        ((length / 256) % 256) as u8,
        (length % 256) as u8,
    ]
}

/// The length that four bytes hold, most significant first.
pub open spec fn bytes_length(bytes: Seq<u8>) -> nat {
    (bytes[0] * 16_777_216 + bytes[1] * 65_536 + bytes[2] * 256 + bytes[3]) as nat
}

/// A length survives being written into a header and read back.
pub proof fn lemma_length_round_trip(length: nat)
    requires
        length <= u32::MAX,
    ensures
        bytes_length(length_bytes(length)) == length,
{
}

/// What is said of a payload that is too large to send.
pub open spec fn oversized_payload_text() -> Seq<char> {
    "protocol frame exceeds "@ + text::decimal(MAX_FRAME_BYTES as nat) + " bytes"@
}

/// What is said of an announced frame that is too large to receive.
pub open spec fn oversized_frame_text(length: nat) -> Seq<char> {
    "incoming protocol frame is "@ + text::decimal(length) + " bytes"@
}

/// The frame of a payload: its length in four bytes, then the payload itself.
/// A payload above the limit is refused.
pub fn encode_frame(payload: Vec<u8>) -> (frame: Result<Vec<u8>, String>)
    ensures
        payload@.len() <= MAX_FRAME_BYTES <==> frame is Ok,
        match frame {
            Ok(bytes) => bytes@ == length_bytes(payload@.len()) + payload@,
            Err(message) => message@ == oversized_payload_text(),
        },
        frame is Ok <==> payload@.len() <= 268_435_456,
        frame is Ok ==> {
            let bytes = frame->Ok_0@;
            &&& bytes.len() == payload@.len() + 4
            &&& bytes[0] * 0x100_0000 + bytes[1] * 0x1_0000 + bytes[2] * 0x100 + bytes[3]
                == payload@.len()
            &&& bytes.skip(4) == payload@
        },
{
    if payload.len() > MAX_FRAME_BYTES {
        return Err(text::numbered("protocol frame exceeds ", MAX_FRAME_BYTES as u64, " bytes"));
    }
    let length: usize = payload.len();
    let mut frame: Vec<u8> = Vec::with_capacity(length + FRAME_HEADER_BYTES);
    frame.push((length / 16_777_216) as u8);
    frame.push(((length / 65_536) % 256) as u8);
    frame.push(((length / 256) % 256) as u8);
    frame.push((length % 256) as u8);
    let mut body = payload;
    frame.append(&mut body);
    assert(frame@ =~= length_bytes(payload@.len()) + payload@);
    proof {
        lemma_length_round_trip(payload@.len());
        assert(frame@.skip(4) =~= payload@);
    }
    Ok(frame)
}

/// The payload length that a frame's first bytes announce: none where the
/// stream ended within the header, an error where the length is over the limit.
pub fn decode_header(header: &[u8]) -> (length: Result<Option<usize>, String>)
    ensures
        header@.len() < FRAME_HEADER_BYTES ==> length == Ok::<Option<usize>, String>(None),
        header@.len() >= FRAME_HEADER_BYTES && bytes_length(header@) <= MAX_FRAME_BYTES
            ==> length == Ok::<Option<usize>, String>(Some(bytes_length(header@) as usize)),
        header@.len() >= FRAME_HEADER_BYTES && bytes_length(header@) > MAX_FRAME_BYTES ==> length
            is Err && length->Err_0@ == oversized_frame_text(bytes_length(header@)),
        match length {
            Ok(None) => header@.len() < 4,
            Ok(Some(told)) => {
                &&& header@.len() >= 4
                &&& told <= 268_435_456
                &&& told == header@[0] * 0x100_0000 + header@[1] * 0x1_0000 + header@[2] * 0x100
                    + header@[3]
            },
            Err(_) => header@.len() >= 4 && header@[0] * 0x100_0000 + header@[1] * 0x1_0000
                + header@[2] * 0x100 + header@[3] > 268_435_456,
        },
{
    if header.len() < FRAME_HEADER_BYTES {
        return Ok(None);
    }
    let length: u64 = header[0] as u64 * 16_777_216 + header[1] as u64 * 65_536 + header[2] as u64
        * 256 + header[3] as u64;
    if length > MAX_FRAME_BYTES as u64 {
        return Err(text::numbered("incoming protocol frame is ", length, " bytes"));
    }
    Ok(Some(length as usize))
}

/// A payload within the limit is read back from its frame: the header announces
/// its length, and that many bytes follow.
pub proof fn lemma_frame_round_trip(payload: Seq<u8>, frame: Seq<u8>)
    requires
        payload.len() <= MAX_FRAME_BYTES,
        frame == length_bytes(payload.len()) + payload,
    ensures
        frame.len() == FRAME_HEADER_BYTES + payload.len(),
        bytes_length(frame.take(FRAME_HEADER_BYTES as int)) == payload.len(),
        frame.skip(FRAME_HEADER_BYTES as int) == payload,
{
    lemma_length_round_trip(payload.len());
    assert(frame.take(4) =~= length_bytes(payload.len()));
    assert(frame.skip(4) =~= payload);
}

/// The frame of a payload.
pub open spec fn frame_of(payload: Seq<u8>) -> Seq<u8> {
    length_bytes(payload.len()) + payload
}

/// The frames of the payloads, one after the other.
pub open spec fn stream_of(payloads: Seq<Seq<u8>>) -> Seq<u8>
    decreases payloads.len(),
{
    if payloads.len() == 0 {
        Seq::empty()
    } else {
        frame_of(payloads.first()) + stream_of(payloads.drop_first())
    }
}

/// What a stream holds next.
pub enum NextFrame {
    /// Nothing: the stream ends before a header is complete.
    End,
    /// A payload, and the stream after it.
    Payload(Seq<u8>, Seq<u8>),
    /// A header that announces more than the limit, or more than there is.
    Broken,
}

/// What a stream holds next, by the header that it begins with.
pub open spec fn next_frame(stream: Seq<u8>) -> NextFrame {
    if stream.len() < FRAME_HEADER_BYTES {
        NextFrame::End
    } else {
        let length = bytes_length(stream.take(FRAME_HEADER_BYTES as int));
        let end = FRAME_HEADER_BYTES + length;
        if length > MAX_FRAME_BYTES || end > stream.len() {
            NextFrame::Broken
        } else {
            NextFrame::Payload(stream.subrange(FRAME_HEADER_BYTES as int, end), stream.skip(end))
        }
    }
}

/// All the payloads that a stream holds, where it holds nothing broken.
pub open spec fn read_back(stream: Seq<u8>) -> Option<Seq<Seq<u8>>>
    decreases stream.len(),
{
    match next_frame(stream) {
        NextFrame::End => Some(Seq::empty()),
        NextFrame::Broken => None,
        NextFrame::Payload(payload, rest) => if rest.len() < stream.len() {
            match read_back(rest) {
                None => None,
                Some(others) => Some(seq![payload] + others),
            }
        } else {
            None
        },
    }
}

/// Frames written one after the other are read back one after the other: every
/// payload whole and in its order, and then the stream ends.
pub proof fn lemma_stream_round_trip(payloads: Seq<Seq<u8>>)
    requires
        forall|i: int|
            0 <= i < payloads.len() ==> (#[trigger] payloads[i]).len() <= MAX_FRAME_BYTES,
    ensures
        read_back(stream_of(payloads)) == Some(payloads),
        payloads.len() > 0 ==> next_frame(stream_of(payloads)) == NextFrame::Payload(
            payloads.first(),
            stream_of(payloads.drop_first()),
        ),
        payloads.len() == 0 ==> next_frame(stream_of(payloads)) == NextFrame::End,
    decreases payloads.len(),
{
    if payloads.len() == 0 {
        assert(payloads =~= Seq::empty());
    } else {
        let first = payloads[0];
        let others = payloads.drop_first();
        let rest = stream_of(others);
        let stream = stream_of(payloads);
        assert forall|i: int| 0 <= i < others.len() implies (#[trigger] others[i]).len()
            <= MAX_FRAME_BYTES by {
            assert(others[i] == payloads[i + 1]);
        }
        lemma_stream_round_trip(others);
        lemma_length_round_trip(first.len());
        assert(stream.take(4) =~= length_bytes(first.len()));
        assert(stream.subrange(4, 4 + first.len() as int) =~= first);
        assert(stream.skip(4 + first.len() as int) =~= rest);
        assert(payloads =~= seq![first] + others);
    }
}

} // verus!
