//! The token-stream-to-wire bridge: one identity and timestamp per
//! response, one wire event per fragment, in order, and a step rule that
//! stops pulling tokens as soon as the stream is over or the client is
//! gone.

use vstd::prelude::*;

verus! {

use crate::json::JsonValue;
use crate::json::JsonView;
use crate::json::json_escaped;
use crate::json::json_text_of;
use crate::json::escape_to_quoted;
use crate::text::chars_to_string;
use crate::text::dec_digits;
use crate::text::str_to_chars;
use crate::text::u64_to_dec_chars;

/// Who speaks in a chat event.
#[derive(Clone, Copy, PartialEq, Eq, Structural, Debug)]
pub enum ChatRole {
    System,
    User,
    Assistant,
}

/// The name a role carries on the wire.
pub open spec fn role_text(r: ChatRole) -> Seq<char> {
    match r {
        ChatRole::System => "System"@,
        ChatRole::User => "User"@,
        ChatRole::Assistant => "Assistant"@,
    }
}

/// The Crockford base-32 digit for a five-bit group.
pub open spec fn crockford_digit(d: int) -> char {
    "0123456789ABCDEFGHJKMNPQRSTVWXYZ"@[d]
}

/// Character `i` of the canonical identifier text: the identifier's bits,
/// five at a time, highest first.
pub open spec fn ulid_char(v: u128, i: int) -> char {
    crockford_digit(((v >> ((5 * (25 - i)) as u128)) & 0x1f) as int)
}

/// The canonical 26-character text of a 128-bit identifier.
pub open spec fn ulid_str_of(v: u128) -> Seq<char> {
    Seq::new(26, |i: int| ulid_char(v, i))
}

/// Five masked bits stay below thirty-two.
proof fn lemma_mask5(x: u128)
    ensures
        x & 0x1f < 32,
{
    assert(x & 0x1f < 32) by (bit_vector);
}

/// Writes the canonical text of a 128-bit identifier.
pub fn ulid_chars(v: u128) -> (r: Vec<char>)
    ensures
        r@ == ulid_str_of(v),
{
    let alpha: Vec<char> = str_to_chars("0123456789ABCDEFGHJKMNPQRSTVWXYZ");
    proof {
        reveal_strlit("0123456789ABCDEFGHJKMNPQRSTVWXYZ");
    }
    let mut out: Vec<char> = Vec::new();
    for i in 0..26usize
        invariant
            alpha@ == "0123456789ABCDEFGHJKMNPQRSTVWXYZ"@,
            alpha@.len() == 32,
            out@.len() == i,
            forall|j: int| 0 <= j < i ==> #[trigger] out@[j] == ulid_char(v, j),
    {
        let sh: u128 = (5 * (25 - i)) as u128;
        let d: usize = ((v >> sh) & 0x1f) as usize;
        proof {
            lemma_mask5(v >> sh);
        }
        out.push(alpha[d]);
    }
    proof {
        assert(out@ =~= ulid_str_of(v));
    }
    out
}

/// The seconds part of the time an identifier was minted: its top
/// forty-eight bits hold that time in milliseconds.
pub open spec fn ulid_timestamp_secs(v: u128) -> u64 {
    (((v >> (80 as u128)) as u64) / 1000) as u64
}

/// Relies on ulid::Ulid::generate: a fresh, time-ordered 128-bit
/// identifier whose top forty-eight bits hold the current time in
/// milliseconds.  Nothing is assumed of the value itself.
#[verifier::external_body]
fn fresh_ulid() -> u128 {
    ulid::Ulid::generate().0
}

/// The payload of one chat event: a text fragment, or a whole JSON value.
pub enum ChunkBody {
    Text(String),
    Json(JsonValue),
}

/// The mathematical value of a [`ChunkBody`].
pub enum ChunkBodyView {
    Text(Seq<char>),
    Json(JsonView),
}

impl View for ChunkBody {
    type V = ChunkBodyView;

    open spec fn view(&self) -> ChunkBodyView {
        match self {
            ChunkBody::Text(s) => ChunkBodyView::Text(s@),
            ChunkBody::Json(v) => ChunkBodyView::Json(v.value_view()),
        }
    }
}

/// One chat event: every event of a single response shares the same
/// identifier and timestamp.
pub struct ChatMessageChunk {
    pub id: u128,
    pub timestamp: u64,
    pub role: ChatRole,
    pub contents: ChunkBody,
}

/// How a chunk's contents appear on the wire: a fragment as an escaped
/// JSON string, a JSON value as itself.
pub open spec fn body_json_text(b: ChunkBodyView) -> Seq<char> {
    match b {
        ChunkBodyView::Text(s) => "\""@ + json_escaped(s) + "\""@,
        ChunkBodyView::Json(v) => json_text_of(v),
    }
}

/// The JSON text of one chat event, members in a fixed order.
pub open spec fn chunk_json_text(
    id: u128,
    timestamp: u64,
    role: ChatRole,
    body: ChunkBodyView,
) -> Seq<char> {
    "{\"id\":\""@ + ulid_str_of(id) + "\",\"timestamp\":"@ + dec_digits(timestamp as nat)
        + ",\"role\":\""@ + role_text(role) + "\",\"contents\":"@ + body_json_text(body) + "}"@
}

impl ChatMessageChunk {
    /// A chunk around a plain text fragment.
    pub fn new(id: u128, timestamp: u64, role: ChatRole, contents: String) -> (r: Self)
        ensures
            r.id == id,
            r.timestamp == timestamp,
            r.role == role,
            r.contents@ == ChunkBodyView::Text(contents@),
    {
        ChatMessageChunk { id, timestamp, role, contents: ChunkBody::Text(contents) }
    }

    /// A chunk around an already-structured JSON value.
    pub fn new_serialized(id: u128, timestamp: u64, role: ChatRole, contents: JsonValue) -> (r:
        Self)
        ensures
            r.id == id,
            r.timestamp == timestamp,
            r.role == role,
            r.contents@ == ChunkBodyView::Json(contents.value_view()),
    {
        ChatMessageChunk { id, timestamp, role, contents: ChunkBody::Json(contents) }
    }

    /// Serializes the chunk for the wire.
    pub fn to_json_text(&self) -> (r: String)
        ensures
            r@ == chunk_json_text(self.id, self.timestamp, self.role, self.contents@),
    {
        let mut out: Vec<char> = str_to_chars("{\"id\":\"");
        let mut idc: Vec<char> = ulid_chars(self.id);
        out.append(&mut idc);
        let mut sep1: Vec<char> = str_to_chars("\",\"timestamp\":");
        out.append(&mut sep1);
        let mut ts: Vec<char> = u64_to_dec_chars(self.timestamp);
        out.append(&mut ts);
        let mut sep2: Vec<char> = str_to_chars(",\"role\":\"");
        out.append(&mut sep2);
        let mut role: Vec<char> = match self.role {
            ChatRole::System => str_to_chars("System"),
            ChatRole::User => str_to_chars("User"),
            ChatRole::Assistant => str_to_chars("Assistant"),
        };
        out.append(&mut role);
        let mut sep3: Vec<char> = str_to_chars("\",\"contents\":");
        out.append(&mut sep3);
        match &self.contents {
            ChunkBody::Text(s) => {
                let mut quoted: Vec<char> = escape_to_quoted(s.as_str());
                out.append(&mut quoted);
            },
            ChunkBody::Json(v) => {
                let mut body: Vec<char> = str_to_chars(v.to_text().as_str());
                out.append(&mut body);
            },
        }
        out.push('}');
        proof {
            reveal_strlit("}");
            assert(out@ =~= chunk_json_text(self.id, self.timestamp, self.role, self.contents@));
        }
        chars_to_string(&out)
    }
}

/// One unit of the streamed response: the shared identity in the clear,
/// and the serialized chunk as the payload the transport sends.
pub struct WireEvent {
    pub id: u128,
    pub timestamp: u64,
    pub payload: String,
}

/// The bridge for one response: the identity and timestamp minted at
/// stream start, and the fixed role of every event of this stream.
pub struct StreamBridge {
    pub id: u128,
    pub timestamp: u64,
    pub role: ChatRole,
}

impl StreamBridge {
    /// A bridge with an explicitly chosen identity.
    pub fn new(id: u128, timestamp: u64, role: ChatRole) -> (r: Self)
        ensures
            r.id == id,
            r.timestamp == timestamp,
            r.role == role,
    {
        StreamBridge { id, timestamp, role }
    }

    /// Mints a fresh identity for a new response; the timestamp is the
    /// time the identifier itself carries.
    pub fn start(role: ChatRole) -> (r: Self)
        ensures
            r.role == role,
            r.timestamp == ulid_timestamp_secs(r.id),
    {
        let id: u128 = fresh_ulid();
        let ms: u64 = (id >> 80u128) as u64;
        StreamBridge { id, timestamp: ms / 1000, role }
    }

    /// The wire event for one fragment: it carries the stream's identity
    /// and the serialized chunk.
    pub fn event(&self, fragment: String) -> (r: WireEvent)
        ensures
            r.id == self.id,
            r.timestamp == self.timestamp,
            r.payload@ == chunk_json_text(
                self.id,
                self.timestamp,
                self.role,
                ChunkBodyView::Text(fragment@),
            ),
    {
        let chunk = ChatMessageChunk::new(self.id, self.timestamp, self.role, fragment);
        let payload = chunk.to_json_text();
        WireEvent { id: self.id, timestamp: self.timestamp, payload }
    }

    /// Bridges a whole fragment sequence: one event per fragment, in the
    /// same order, all sharing this stream's identifier and timestamp.
    pub fn bridge_all(&self, fragments: &Vec<String>) -> (r: Vec<WireEvent>)
        ensures
            r@.len() == fragments@.len(),
            forall|i: int|
                0 <= i < fragments@.len() ==> {
                    &&& (#[trigger] r@[i]).id == self.id
                    &&& r@[i].timestamp == self.timestamp
                    &&& r@[i].payload@ == chunk_json_text(
                        self.id,
                        self.timestamp,
                        self.role,
                        ChunkBodyView::Text(fragments@[i]@),
                    )
                },
    {
        let n: usize = fragments.len();
        let mut out: Vec<WireEvent> = Vec::new();
        for i in 0..n
            invariant
                n == fragments@.len(),
                out@.len() == i,
                forall|j: int|
                    0 <= j < i ==> {
                        &&& (#[trigger] out@[j]).id == self.id
                        &&& out@[j].timestamp == self.timestamp
                        &&& out@[j].payload@ == chunk_json_text(
                            self.id,
                            self.timestamp,
                            self.role,
                            ChunkBodyView::Text(fragments@[j]@),
                        )
                    },
        {
            let ev = self.event(fragments[i].clone());
            out.push(ev);
        }
        out
    }
}

/// What the token source or the transport reports between two events.
pub enum BridgeEvent {
    Fragment(String),
    SourceDone,
    SourceFailed,
    ClientGone,
}

/// Whether the bridge still pulls tokens.
#[derive(Clone, Copy, PartialEq, Eq, Structural, Debug)]
pub enum BridgePhase {
    Streaming,
    Ended,
}

/// What the bridge does in response: send one event and pull the next
/// token, or stop pulling for good.
pub enum BridgeAction {
    Emit(WireEvent),
    Stop,
}

/// The phase after one step: any end — normal, failed, or the client
/// leaving — is final.
pub open spec fn step_phase(phase: BridgePhase, is_fragment: bool) -> BridgePhase {
    if phase is Streaming && is_fragment {
        BridgePhase::Streaming
    } else {
        BridgePhase::Ended
    }
}

/// Whether a step emits an event and keeps pulling: only a fragment
/// arriving on a live stream does.
pub open spec fn step_emits(phase: BridgePhase, is_fragment: bool) -> bool {
    phase is Streaming && is_fragment
}

impl StreamBridge {
    /// One step of the bridge: a fragment on a live stream becomes a wire
    /// event and the bridge pulls on; everything else — source end, source
    /// failure, client disconnect, or anything after the end — stops the
    /// stream without emitting.
    pub fn step(&self, phase: BridgePhase, event: BridgeEvent) -> (r: (BridgePhase, BridgeAction))
        ensures
            r.0 == step_phase(phase, event is Fragment),
            r.1 is Emit <==> step_emits(phase, event is Fragment),
            match event {
                BridgeEvent::Fragment(f) => phase is Streaming ==> (r.1 matches
                    BridgeAction::Emit(w) && w.id == self.id && w.timestamp == self.timestamp
                    && w.payload@ == chunk_json_text(
                    self.id,
                    self.timestamp,
                    self.role,
                    ChunkBodyView::Text(f@),
                )),
                _ => true,
            },
    {
        match (phase, event) {
            (BridgePhase::Streaming, BridgeEvent::Fragment(f)) => {
                (BridgePhase::Streaming, BridgeAction::Emit(self.event(f)))
            },
            _ => (BridgePhase::Ended, BridgeAction::Stop),
        }
    }
}

/// Law: a client disconnect stops the bridge at once — the disconnect step
/// emits nothing and ends the stream — and an ended stream never emits
/// again, whatever events still arrive.
pub proof fn law_disconnect_stops(phase: BridgePhase, later_is_fragment: bool)
    ensures
        !step_emits(phase, false),
        step_phase(phase, false) is Ended,
        !step_emits(BridgePhase::Ended, later_is_fragment),
        step_phase(BridgePhase::Ended, later_is_fragment) is Ended,
{
}

} // verus!
