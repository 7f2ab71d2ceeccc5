//! Typed representations of the protocol messages, their digests, and the
//! errors of the protocol core.

use vstd::prelude::*;

verus! {

/// The kinds of protocol-level failures. Every error is local: the offending
/// message is dropped and no replica crashes.
#[derive(Clone, Copy, PartialEq, Eq, Structural, Debug)]
pub enum ProtocolError {
    /// Digest mismatch, malformed fields, or a failed signature check.
    InvalidMessage,
    /// The message's view differs from the replica's current view.
    ViewMismatch,
    /// The sequence number lies outside the watermark window.
    OutOfWatermark,
    /// A PrePrepare disagrees with a prior one at the same `(view, seq)`.
    ConflictingDigest,
    /// A Prepare or Commit arrived before (or without) its PrePrepare.
    NoMatchingPrePrepare,
    /// The request's timestamp is not newer than the last reply to its client.
    DuplicateClientRequest,
    /// A peer is gone or a frame could not be handled.
    TransportError,
}

/// A client operation submitted for ordering.
pub struct Request {
    /// Opaque operation bytes.
    pub operation: Vec<u8>,
    /// Client-chosen timestamp, monotonically increasing per client.
    pub timestamp: u64,
    /// Identity of the submitting client.
    pub client: Vec<u8>,
}

/// Mathematical model of a [`Request`].
#[verifier::ext_equal]
pub struct RequestView {
    pub operation: Seq<u8>,
    pub timestamp: u64,
    pub client: Seq<u8>,
}

impl View for Request {
    type V = RequestView;

    open spec fn view(&self) -> RequestView {
        RequestView {
            operation: self.operation@,
            timestamp: self.timestamp,
            client: self.client@,
        }
    }
}

impl Request {
    pub fn new(operation: Vec<u8>, timestamp: u64, client: Vec<u8>) -> (r: Request)
        ensures
            r@ == (RequestView { operation: operation@, timestamp, client: client@ }),
    {
        Request { operation, timestamp, client }
    }

    /// The requested operation, as opaque bytes.
    pub fn operation(&self) -> (r: Vec<u8>)
        ensures
            r@ == self@.operation,
    {
        copy_bytes(&self.operation)
    }

    /// The client-chosen timestamp.
    pub fn timestamp(&self) -> (r: u64)
        ensures
            r == self@.timestamp,
    {
        self.timestamp
    }

    /// The identity of the submitting client.
    pub fn client(&self) -> (r: Vec<u8>)
        ensures
            r@ == self@.client,
    {
        copy_bytes(&self.client)
    }

    /// A value-equal copy of the request.
    pub fn duplicate(&self) -> (r: Request)
        ensures
            r@ == self@,
    {
        Request {
            operation: copy_bytes(&self.operation),
            timestamp: self.timestamp,
            client: copy_bytes(&self.client),
        }
    }
}

/// A PRE-PREPARE message: the primary's ordering proposal binding a request
/// to a `(view, sequence)` slot by its digest.
pub struct PrePrepare {
    /// The view in which the message is being sent.
    pub view: u64,
    /// Sequence number assigned by the primary.
    pub n: u64,
    /// Digest of the canonical encoding of `request`.
    pub digest: Vec<u8>,
    /// The client request being ordered.
    pub request: Request,
}

/// Mathematical model of a [`PrePrepare`].
#[verifier::ext_equal]
pub struct PrePrepareView {
    pub view: u64,
    pub n: u64,
    pub digest: Seq<u8>,
    pub request: RequestView,
}

impl View for PrePrepare {
    type V = PrePrepareView;

    open spec fn view(&self) -> PrePrepareView {
        PrePrepareView {
            view: self.view,
            n: self.n,
            digest: self.digest@,
            request: self.request@,
        }
    }
}

impl PrePrepare {
    /// Builds the PRE-PREPARE for `request` at `(view, n)`, computing the
    /// digest of the request's canonical encoding.
    pub fn from(view: u64, n: u64, request: Request) -> (r: PrePrepare)
        ensures
            r@.view == view,
            r@.n == n,
            r@.request == request@,
            r@.digest == digest_of(crate::codec::spec_encode_request(request@)),
    {
        let encoded = crate::codec::encode_request(&request);
        let digest = compute_digest(&encoded);
        PrePrepare { view, n, digest, request }
    }

    /// The view the message belongs to.
    pub fn view_number(&self) -> (r: u64)
        ensures
            r == self@.view,
    {
        self.view
    }

    /// The sequence number of the slot.
    pub fn sequence_number(&self) -> (r: u64)
        ensures
            r == self@.n,
    {
        self.n
    }

    /// The digest bound to the slot.
    pub fn digest(&self) -> (r: Vec<u8>)
        ensures
            r@ == self@.digest,
    {
        copy_bytes(&self.digest)
    }

    /// The request being ordered.
    pub fn client_request(&self) -> (r: Request)
        ensures
            r@ == self@.request,
    {
        self.request.duplicate()
    }

    /// Checks that the carried digest is the digest of the carried request.
    pub fn validate_digest(&self) -> (r: bool)
        ensures
            r == (self@.digest == digest_of(crate::codec::spec_encode_request(self@.request))),
    {
        let encoded = crate::codec::encode_request(&self.request);
        let expected = compute_digest(&encoded);
        bytes_eq(&self.digest, &expected)
    }

    /// A value-equal copy of the message.
    pub fn duplicate(&self) -> (r: PrePrepare)
        ensures
            r@ == self@,
    {
        PrePrepare {
            view: self.view,
            n: self.n,
            digest: copy_bytes(&self.digest),
            request: self.request.duplicate(),
        }
    }
}

/// A PREPARE message: a replica's vote that it accepted the PRE-PREPARE for
/// `(view, n)` with the given digest.
pub struct Prepare {
    pub view: u64,
    pub n: u64,
    pub digest: Vec<u8>,
    /// The voting replica.
    pub replica: u64,
}

/// Mathematical model of a [`Prepare`].
#[verifier::ext_equal]
pub struct PrepareView {
    pub view: u64,
    pub n: u64,
    pub digest: Seq<u8>,
    pub replica: u64,
}

impl View for Prepare {
    type V = PrepareView;

    open spec fn view(&self) -> PrepareView {
        PrepareView { view: self.view, n: self.n, digest: self.digest@, replica: self.replica }
    }
}

impl Prepare {
    /// The PREPARE that `replica` derives from an accepted PRE-PREPARE.
    pub fn from(pre_prepare: &PrePrepare, replica: u64) -> (r: Prepare)
        ensures
            r@.view == pre_prepare@.view,
            r@.n == pre_prepare@.n,
            r@.digest == pre_prepare@.digest,
            r@.replica == replica,
    {
        Prepare {
            view: pre_prepare.view,
            n: pre_prepare.n,
            digest: copy_bytes(&pre_prepare.digest),
            replica,
        }
    }

    pub fn view_number(&self) -> (r: u64)
        ensures
            r == self@.view,
    {
        self.view
    }

    pub fn sequence_number(&self) -> (r: u64)
        ensures
            r == self@.n,
    {
        self.n
    }

    pub fn digest(&self) -> (r: Vec<u8>)
        ensures
            r@ == self@.digest,
    {
        copy_bytes(&self.digest)
    }

    /// A value-equal copy of the message.
    pub fn duplicate(&self) -> (r: Prepare)
        ensures
            r@ == self@,
    {
        Prepare {
            view: self.view,
            n: self.n,
            digest: copy_bytes(&self.digest),
            replica: self.replica,
        }
    }
}

/// A COMMIT message: a replica's vote that it is prepared for `(view, n)`
/// with the given digest.
pub struct Commit {
    pub view: u64,
    pub n: u64,
    pub digest: Vec<u8>,
    /// The voting replica.
    pub replica: u64,
}

/// Mathematical model of a [`Commit`].
#[verifier::ext_equal]
pub struct CommitView {
    pub view: u64,
    pub n: u64,
    pub digest: Seq<u8>,
    pub replica: u64,
}

impl View for Commit {
    type V = CommitView;

    open spec fn view(&self) -> CommitView {
        CommitView { view: self.view, n: self.n, digest: self.digest@, replica: self.replica }
    }
}

impl Commit {
    /// The COMMIT that `replica` derives from a PREPARE once prepared.
    pub fn from(prepare: &Prepare, replica: u64) -> (r: Commit)
        ensures
            r@.view == prepare@.view,
            r@.n == prepare@.n,
            r@.digest == prepare@.digest,
            r@.replica == replica,
    {
        Commit {
            view: prepare.view,
            n: prepare.n,
            digest: copy_bytes(&prepare.digest),
            replica,
        }
    }

    pub fn view_number(&self) -> (r: u64)
        ensures
            r == self@.view,
    {
        self.view
    }

    pub fn sequence_number(&self) -> (r: u64)
        ensures
            r == self@.n,
    {
        self.n
    }

    pub fn digest(&self) -> (r: Vec<u8>)
        ensures
            r@ == self@.digest,
    {
        copy_bytes(&self.digest)
    }

    /// A value-equal copy of the message.
    pub fn duplicate(&self) -> (r: Commit)
        ensures
            r@ == self@,
    {
        Commit {
            view: self.view,
            n: self.n,
            digest: copy_bytes(&self.digest),
            replica: self.replica,
        }
    }
}

/// The reply a replica sends to a client after executing its request.
pub struct ClientReply {
    /// The view in which the request was executed.
    pub view: u64,
    /// Timestamp copied from the executed request.
    pub timestamp: u64,
    /// The client the reply is addressed to.
    pub client: Vec<u8>,
    /// The replying replica.
    pub replica: u64,
    /// Result of the execution. The core echoes the executed operation; an
    /// application state machine would map it to its own output.
    pub result: Vec<u8>,
}

/// Mathematical model of a [`ClientReply`].
#[verifier::ext_equal]
pub struct ClientReplyView {
    pub view: u64,
    pub timestamp: u64,
    pub client: Seq<u8>,
    pub replica: u64,
    pub result: Seq<u8>,
}

impl View for ClientReply {
    type V = ClientReplyView;

    open spec fn view(&self) -> ClientReplyView {
        ClientReplyView {
            view: self.view,
            timestamp: self.timestamp,
            client: self.client@,
            replica: self.replica,
            result: self.result@,
        }
    }
}

impl ClientReply {
    /// The reply `replica` produces after executing `request` in the slot
    /// committed by `commit`.
    pub fn new(replica: u64, request: &Request, commit: &Commit) -> (r: ClientReply)
        ensures
            r@.view == commit@.view,
            r@.timestamp == request@.timestamp,
            r@.client == request@.client,
            r@.replica == replica,
            r@.result == request@.operation,
    {
        ClientReply {
            view: commit.view,
            timestamp: request.timestamp,
            client: copy_bytes(&request.client),
            replica,
            result: copy_bytes(&request.operation),
        }
    }

    pub fn timestamp(&self) -> (r: u64)
        ensures
            r == self@.timestamp,
    {
        self.timestamp
    }
}

/// The tagged union carried by the wire protocol.
pub enum Message {
    ClientRequest(Request),
    PrePrepare(PrePrepare),
    Prepare(Prepare),
    Commit(Commit),
}

/// Mathematical model of a [`Message`].
#[verifier::ext_equal]
pub enum MessageView {
    ClientRequest(RequestView),
    PrePrepare(PrePrepareView),
    Prepare(PrepareView),
    Commit(CommitView),
}

impl View for Message {
    type V = MessageView;

    open spec fn view(&self) -> MessageView {
        match self {
            Message::ClientRequest(r) => MessageView::ClientRequest(r@),
            Message::PrePrepare(p) => MessageView::PrePrepare(p@),
            Message::Prepare(p) => MessageView::Prepare(p@),
            Message::Commit(c) => MessageView::Commit(c@),
        }
    }
}

/// The monotonic counter with which the primary assigns sequence numbers.
pub struct PrePrepareSequence {
    pub value: u64,
}

impl PrePrepareSequence {
    /// The spec-level value of the counter.
    pub open spec fn spec_value(&self) -> u64 {
        self.value
    }

    /// A fresh counter; the first allocated sequence number is 1.
    pub fn new() -> (r: PrePrepareSequence)
        ensures
            r.spec_value() == 0,
    {
        PrePrepareSequence { value: 0 }
    }

    /// Allocates the next sequence number. Monotonic; never decremented.
    pub fn increment(&mut self)
        requires
            old(self).spec_value() < u64::MAX,
        ensures
            final(self).spec_value() == old(self).spec_value() + 1,
    {
        self.value = self.value + 1;
    }

    /// The most recently allocated sequence number.
    pub fn value(&self) -> (r: u64)
        ensures
            r == self.spec_value(),
    {
        self.value
    }
}

/// The digest of a byte string, as computed by the underlying hash.
pub uninterp spec fn digest_of(data: Seq<u8>) -> Seq<u8>;

/// Relies on `blake2::Blake2b512` through `digest::Digest::digest`: the
/// 64-byte BLAKE2b digest of the input, a function of the input bytes alone.
#[verifier::external_body]
pub fn compute_digest(data: &Vec<u8>) -> (r: Vec<u8>)
    ensures
        r@ == digest_of(data@),
        r@.len() == 64,
{
    <blake2::Blake2b512 as blake2::Digest>::digest(data.as_slice()).as_slice().to_vec()
}

/// Copies a byte vector.
pub fn copy_bytes(v: &Vec<u8>) -> (r: Vec<u8>)
    ensures
        r@ == v@,
{
    let mut r: Vec<u8> = Vec::new();
    let mut i: usize = 0;
    while i < v.len()
        invariant
            i <= v.len(),
            r@ == v@.subrange(0, i as int),
        decreases v.len() - i,
    {
        r.push(v[i]);
        i = i + 1;
    }
    proof {
        assert(r@ =~= v@);
    }
    r
}

/// Compares two byte vectors for equality of contents.
pub fn bytes_eq(a: &Vec<u8>, b: &Vec<u8>) -> (r: bool)
    ensures
        r == (a@ == b@),
{
    if a.len() != b.len() {
        return false;
    }
    let mut i: usize = 0;
    while i < a.len()
        invariant
            a@.len() == b@.len(),
            i <= a.len(),
            forall|j: int| 0 <= j < i ==> a@[j] == b@[j],
        decreases a.len() - i,
    {
        if a[i] != b[i] {
            return false;
        }
        i = i + 1;
    }
    proof {
        assert(a@ =~= b@);
    }
    true
}

} // verus!
