//! The embedding gateway's data shaping: batching plans, pairing entries
//! with their vectors, request building, and the classification of remote
//! outcomes into a failure taxonomy an operator can tell apart.
//!
//! Embedding vectors are carried as their raw 32-bit words, so the library
//! itself never touches floating point; the boundary converts.

use vstd::prelude::*;

verus! {

use vstd::string::StringExecFns;

/// Whether an entry names a threat or a mitigation.
#[derive(Clone, Copy, PartialEq, Eq, Structural, Debug)]
pub enum EntryType {
    Threat,
    Mitigation,
}

impl EntryType {
    /// The name this type carries on the wire.
    pub fn label(&self) -> (r: String)
        ensures
            self is Threat ==> r@ == "threat"@,
            self is Mitigation ==> r@ == "mitigation"@,
    {
        match self {
            EntryType::Threat => String::from_str("threat"),
            EntryType::Mitigation => String::from_str("mitigation"),
        }
    }
}

/// A named record with an embeddable description.
pub struct Entry {
    pub id: String,
    pub name: String,
    pub description: String,
    pub url: String,
}

/// The mathematical value of an [`Entry`].
pub struct EntryView {
    pub id: Seq<char>,
    pub name: Seq<char>,
    pub description: Seq<char>,
    pub url: Seq<char>,
}

impl View for Entry {
    type V = EntryView;

    open spec fn view(&self) -> EntryView {
        EntryView {
            id: self.id@,
            name: self.name@,
            description: self.description@,
            url: self.url@,
        }
    }
}

impl Entry {
    /// A field-for-field copy whose value Verus can track.
    pub fn duplicate(&self) -> (r: Self)
        ensures
            r@ == self@,
    {
        Entry {
            id: self.id.clone(),
            name: self.name.clone(),
            description: self.description.clone(),
            url: self.url.clone(),
        }
    }
}

/// An entry paired with its embedding vector, given as the vector's raw
/// 32-bit words.
pub struct Embedding {
    pub entry: Entry,
    pub embedding: Vec<u32>,
}

/// A request to index a batch of entries.
pub struct EmbeddingsRequest {
    pub entry_type: EntryType,
    pub entries: Vec<Entry>,
}

/// The batch forwarded to the remote vector store: each source entry with
/// its vector.
pub struct EmbeddingsResponse {
    pub entry_type: EntryType,
    pub entries: Vec<Embedding>,
}

/// A search request as the client poses it: free text and a neighbor
/// count.
pub struct EmbeddingQuery {
    pub entry_type: EntryType,
    pub query: String,
    pub num_neighbors: u32,
}

/// A search request as the remote backend takes it: an embedding vector
/// and a neighbor count.
pub struct SearchEmbeddingsRequest {
    pub entry_type: EntryType,
    pub embedding: Vec<u32>,
    pub num_neighbors: u32,
}

/// The gateway's failure taxonomy: the embedding model failed locally, the
/// remote backend could not be reached, it answered with a failure status,
/// or its answer could not be decoded.  Each kind stays distinct so an
/// operator can tell them apart.
#[derive(Debug)]
pub enum GatewayError {
    Embedding(String),
    Network(String),
    RemoteStatus(u16),
    Decode(String),
}

impl GatewayError {
    /// A short text naming the failure kind, with its detail.
    pub fn message(&self) -> (r: String)
        ensures
            self is Embedding ==> r@ == "embedding model failure: "@ + self->Embedding_0@,
            self is Network ==> r@ == "main backend unreachable: "@ + self->Network_0@,
            self is RemoteStatus ==> r@ == "main backend returned status "@ + crate::text::dec_digits(
                self->RemoteStatus_0 as nat,
            ),
            self is Decode ==> r@ == "main backend answer unreadable: "@ + self->Decode_0@,
    {
        match self {
            GatewayError::Embedding(d) => {
                let mut s = String::from_str("embedding model failure: ");
                s.append(d.as_str());
                s
            },
            GatewayError::Network(d) => {
                let mut s = String::from_str("main backend unreachable: ");
                s.append(d.as_str());
                s
            },
            GatewayError::RemoteStatus(c) => {
                let mut s = String::from_str("main backend returned status ");
                let digits: Vec<char> = crate::text::u64_to_dec_chars(*c as u64);
                let d = crate::text::chars_to_string(&digits);
                s.append(d.as_str());
                s
            },
            GatewayError::Decode(d) => {
                let mut s = String::from_str("main backend answer unreadable: ");
                s.append(d.as_str());
                s
            },
        }
    }
}

/// What an index batch asks of the embedding model: nothing at all for an
/// empty batch, one embedding per entry's description otherwise.
pub enum IndexPlan {
    NoOp,
    Embed(Vec<String>),
}

/// Plans an index batch: an empty entry list is a no-op success — no
/// embeddings are computed and no backend call is made — and otherwise the
/// descriptions are embedded, one per entry, in order.
pub fn plan_index_batch(req: &EmbeddingsRequest) -> (r: IndexPlan)
    ensures
        req.entries@.len() == 0 <==> r is NoOp,
        r matches IndexPlan::Embed(ds) ==> {
            &&& ds@.len() == req.entries@.len()
            &&& forall|i: int|
                0 <= i < ds@.len() ==> (#[trigger] ds@[i])@ == req.entries@[i].description@
        },
{
    if req.entries.len() == 0 {
        return IndexPlan::NoOp;
    }
    let n: usize = req.entries.len();
    let mut ds: Vec<String> = Vec::new();
    for i in 0..n
        invariant
            n == req.entries@.len(),
            ds@.len() == i,
            forall|j: int| 0 <= j < i ==> (#[trigger] ds@[j])@ == req.entries@[j].description@,
    {
        ds.push(req.entries[i].description.clone());
    }
    IndexPlan::Embed(ds)
}

/// Pairs each entry with the vector computed for it.  The embedding model
/// owes one vector per description; anything else is reported as a local
/// embedding failure, never silently truncated.
pub fn pair_embeddings(req: EmbeddingsRequest, vectors: Vec<Vec<u32>>) -> (r: Result<
    EmbeddingsResponse,
    GatewayError,
>)
    ensures
        vectors@.len() == req.entries@.len() <==> r is Ok,
        r matches Ok(resp) ==> {
            &&& resp.entry_type == req.entry_type
            &&& resp.entries@.len() == req.entries@.len()
            &&& forall|i: int|
                0 <= i < resp.entries@.len() ==> {
                    &&& (#[trigger] resp.entries@[i]).entry@ == req.entries@[i]@
                    &&& resp.entries@[i].embedding@ == vectors@[i]@
                }
        },
        r matches Err(e) ==> e is Embedding,
{
    if vectors.len() != req.entries.len() {
        return Result::Err(
            GatewayError::Embedding(String::from_str("one embedding per entry is owed")),
        );
    }
    let n: usize = req.entries.len();
    let vs = vectors;
    let mut out: Vec<Embedding> = Vec::new();
    let mut i: usize = 0;
    while i < n
        invariant
            i <= n,
            n == req.entries@.len(),
            vs@.len() == n,
            out@.len() == i,
            forall|j: int|
                0 <= j < i ==> {
                    &&& (#[trigger] out@[j]).entry@ == req.entries@[j]@
                    &&& out@[j].embedding@ == vs@[j]@
                },
        decreases n - i,
    {
        let entry = req.entries[i].duplicate();
        let vec_i: Vec<u32> = copy_words(&vs[i]);
        out.push(Embedding { entry, embedding: vec_i });
        i = i + 1;
    }
    Result::Ok(EmbeddingsResponse { entry_type: req.entry_type, entries: out })
}

/// An element-for-element copy of a word vector.
fn copy_words(v: &Vec<u32>) -> (r: Vec<u32>)
    ensures
        r@ == v@,
{
    let n: usize = v.len();
    let mut out: Vec<u32> = Vec::new();
    for i in 0..n
        invariant
            n == v@.len(),
            out@ =~= v@.take(i as int),
    {
        out.push(v[i]);
        proof {
            assert(out@ =~= v@.take(i + 1));
        }
    }
    proof {
        assert(out@ =~= v@);
    }
    out
}

/// Builds the request the remote backend takes, from the query's embedding.
pub fn build_search_request(entry_type: EntryType, embedding: Vec<u32>, num_neighbors: u32) -> (r:
    SearchEmbeddingsRequest)
    ensures
        r.entry_type == entry_type,
        r.embedding@ == embedding@,
        r.num_neighbors == num_neighbors,
{
    SearchEmbeddingsRequest { entry_type, embedding, num_neighbors }
}

/// What the boundary reports back from one HTTP round trip to the remote
/// vector store.
pub enum FetchOutcome {
    Success(Vec<Entry>),
    ConnectFailed(String),
    BadStatus(u16),
    BadBody(String),
}

/// Classifies a search round trip.  A successful answer is handed back
/// exactly as the backend ranked it — the gateway never re-orders — and
/// each failure maps to its own error kind.
pub fn accept_search_response(o: FetchOutcome) -> (r: Result<Vec<Entry>, GatewayError>)
    ensures
        match o {
            FetchOutcome::Success(list) => r matches Ok(l) && l == list,
            FetchOutcome::ConnectFailed(d) => r matches Err(e) && e == GatewayError::Network(d),
            FetchOutcome::BadStatus(c) => r matches Err(e) && e == GatewayError::RemoteStatus(c),
            FetchOutcome::BadBody(d) => r matches Err(e) && e == GatewayError::Decode(d),
        },
{
    match o {
        FetchOutcome::Success(list) => Result::Ok(list),
        FetchOutcome::ConnectFailed(d) => Result::Err(GatewayError::Network(d)),
        FetchOutcome::BadStatus(c) => Result::Err(GatewayError::RemoteStatus(c)),
        FetchOutcome::BadBody(d) => Result::Err(GatewayError::Decode(d)),
    }
}

/// Classifies an index round trip: the remote backend owns atomicity, so
/// the gateway reports one aggregate outcome.
pub fn accept_index_response(o: FetchOutcome) -> (r: Result<(), GatewayError>)
    ensures
        match o {
            FetchOutcome::Success(_) => r is Ok,
            FetchOutcome::ConnectFailed(d) => r matches Err(e) && e == GatewayError::Network(d),
            FetchOutcome::BadStatus(c) => r matches Err(e) && e == GatewayError::RemoteStatus(c),
            FetchOutcome::BadBody(d) => r matches Err(e) && e == GatewayError::Decode(d),
        },
{
    match o {
        FetchOutcome::Success(_) => Result::Ok(()),
        FetchOutcome::ConnectFailed(d) => Result::Err(GatewayError::Network(d)),
        FetchOutcome::BadStatus(c) => Result::Err(GatewayError::RemoteStatus(c)),
        FetchOutcome::BadBody(d) => Result::Err(GatewayError::Decode(d)),
    }
}

} // verus!
