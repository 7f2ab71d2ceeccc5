//! Canonical byte encoding of the protocol messages.
//!
//! The encoding is deterministic: a one-byte type tag, then the fields in a
//! fixed order, each `u64` as eight little-endian bytes and each byte string
//! length-prefixed by its `u64` length. The digest of a request is the hash
//! of exactly this encoding. Decoding accepts precisely the canonical form
//! and inverts it.

use vstd::prelude::*;
use vstd::bytes::{
    lemma_auto_spec_u64_to_from_le_bytes, spec_u64_from_le_bytes, spec_u64_to_le_bytes,
    u64_from_le_bytes, u64_to_le_bytes,
};
use vstd::slice::{slice_subrange, slice_to_vec};
use crate::message::{
    Commit, CommitView, Message, MessageView, PrePrepare, PrePrepareView, Prepare, PrepareView,
    Request, RequestView,
};

verus! {

/// Encoding of a length-prefixed byte string.
pub open spec fn spec_encode_bytes(b: Seq<u8>) -> Seq<u8> {
    spec_u64_to_le_bytes(b.len() as u64) + b
}

/// Canonical encoding of a client request: operation, timestamp, client.
pub open spec fn spec_encode_request(r: RequestView) -> Seq<u8> {
    spec_encode_bytes(r.operation) + spec_u64_to_le_bytes(r.timestamp) + spec_encode_bytes(r.client)
}

/// Canonical encoding of a PRE-PREPARE: view, sequence, digest, request.
pub open spec fn spec_encode_pre_prepare(p: PrePrepareView) -> Seq<u8> {
    spec_u64_to_le_bytes(p.view) + spec_u64_to_le_bytes(p.n) + spec_encode_bytes(p.digest)
        + spec_encode_request(p.request)
}

/// Canonical encoding of a PREPARE: view, sequence, digest, replica.
pub open spec fn spec_encode_prepare(p: PrepareView) -> Seq<u8> {
    spec_u64_to_le_bytes(p.view) + spec_u64_to_le_bytes(p.n) + spec_encode_bytes(p.digest)
        + spec_u64_to_le_bytes(p.replica)
}

/// Canonical encoding of a COMMIT: view, sequence, digest, replica.
pub open spec fn spec_encode_commit(c: CommitView) -> Seq<u8> {
    spec_u64_to_le_bytes(c.view) + spec_u64_to_le_bytes(c.n) + spec_encode_bytes(c.digest)
        + spec_u64_to_le_bytes(c.replica)
}

/// Canonical encoding of the tagged union.
pub open spec fn spec_encode_message(m: MessageView) -> Seq<u8> {
    match m {
        MessageView::ClientRequest(r) => seq![1u8] + spec_encode_request(r),
        MessageView::PrePrepare(p) => seq![2u8] + spec_encode_pre_prepare(p),
        MessageView::Prepare(p) => seq![3u8] + spec_encode_prepare(p),
        MessageView::Commit(c) => seq![4u8] + spec_encode_commit(c),
    }
}

/// Reads a `u64` at `i`; yields the value and the next offset.
pub open spec fn spec_decode_u64_at(s: Seq<u8>, i: int) -> Option<(u64, int)> {
    if 0 <= i && i + 8 <= s.len() {
        Some((spec_u64_from_le_bytes(s.subrange(i, i + 8)), i + 8))
    } else {
        None
    }
}

/// Reads a length-prefixed byte string at `i`.
pub open spec fn spec_decode_bytes_at(s: Seq<u8>, i: int) -> Option<(Seq<u8>, int)> {
    match spec_decode_u64_at(s, i) {
        Some((len, j)) => if j + len <= s.len() {
            Some((s.subrange(j, j + len), j + len))
        } else {
            None
        },
        None => None,
    }
}

/// Reads a client request at `i`.
pub open spec fn spec_decode_request_at(s: Seq<u8>, i: int) -> Option<(RequestView, int)> {
    match spec_decode_bytes_at(s, i) {
        Some((operation, j)) => match spec_decode_u64_at(s, j) {
            Some((timestamp, k)) => match spec_decode_bytes_at(s, k) {
                Some((client, l)) => Some((RequestView { operation, timestamp, client }, l)),
                None => None,
            },
            None => None,
        },
        None => None,
    }
}

/// Reads a PRE-PREPARE at `i`.
pub open spec fn spec_decode_pre_prepare_at(s: Seq<u8>, i: int) -> Option<(PrePrepareView, int)> {
    match spec_decode_u64_at(s, i) {
        Some((view, j)) => match spec_decode_u64_at(s, j) {
            Some((n, k)) => match spec_decode_bytes_at(s, k) {
                Some((digest, l)) => match spec_decode_request_at(s, l) {
                    Some((request, m)) => Some((PrePrepareView { view, n, digest, request }, m)),
                    None => None,
                },
                None => None,
            },
            None => None,
        },
        None => None,
    }
}

/// Reads the fields shared by PREPARE and COMMIT at `i`.
pub open spec fn spec_decode_vote_at(s: Seq<u8>, i: int) -> Option<((u64, u64, Seq<u8>, u64), int)> {
    match spec_decode_u64_at(s, i) {
        Some((view, j)) => match spec_decode_u64_at(s, j) {
            Some((n, k)) => match spec_decode_bytes_at(s, k) {
                Some((digest, l)) => match spec_decode_u64_at(s, l) {
                    Some((replica, m)) => Some(((view, n, digest, replica), m)),
                    None => None,
                },
                None => None,
            },
            None => None,
        },
        None => None,
    }
}

/// Decodes a whole canonical message; trailing bytes are refused.
pub open spec fn spec_decode_message(s: Seq<u8>) -> Option<MessageView> {
    if s.len() < 1 {
        None
    } else if s[0] == 1 {
        match spec_decode_request_at(s, 1) {
            Some((r, j)) => if j == s.len() {
                Some(MessageView::ClientRequest(r))
            } else {
                None
            },
            None => None,
        }
    } else if s[0] == 2 {
        match spec_decode_pre_prepare_at(s, 1) {
            Some((p, j)) => if j == s.len() {
                Some(MessageView::PrePrepare(p))
            } else {
                None
            },
            None => None,
        }
    } else if s[0] == 3 {
        match spec_decode_vote_at(s, 1) {
            Some(((view, n, digest, replica), j)) => if j == s.len() {
                Some(MessageView::Prepare(PrepareView { view, n, digest, replica }))
            } else {
                None
            },
            None => None,
        }
    } else if s[0] == 4 {
        match spec_decode_vote_at(s, 1) {
            Some(((view, n, digest, replica), j)) => if j == s.len() {
                Some(MessageView::Commit(CommitView { view, n, digest, replica }))
            } else {
                None
            },
            None => None,
        }
    } else {
        None
    }
}

/// Appends the contents of `b` to `out`.
pub fn append_bytes(out: &mut Vec<u8>, b: &Vec<u8>)
    ensures
        final(out)@ == old(out)@ + b@,
{
    let mut i: usize = 0;
    while i < b.len()
        invariant
            i <= b.len(),
            out@ == old(out)@ + b@.subrange(0, i as int),
        decreases b.len() - i,
    {
        out.push(b[i]);
        proof {
            assert(old(out)@ + b@.subrange(0, i as int) + seq![b@[i as int]] =~= old(out)@
                + b@.subrange(0, i + 1));
        }
        i = i + 1;
    }
    proof {
        assert(old(out)@ + b@.subrange(0, b@.len() as int) =~= old(out)@ + b@);
    }
}

/// Appends a `u64` in little-endian order.
pub fn append_u64(out: &mut Vec<u8>, x: u64)
    ensures
        final(out)@ == old(out)@ + spec_u64_to_le_bytes(x),
{
    let bytes = u64_to_le_bytes(x);
    append_bytes(out, &bytes);
}

/// Appends a length-prefixed byte string.
pub fn append_len_prefixed(out: &mut Vec<u8>, b: &Vec<u8>)
    ensures
        final(out)@ == old(out)@ + spec_encode_bytes(b@),
{
    append_u64(out, b.len() as u64);
    append_bytes(out, b);
    proof {
        assert(final(out)@ =~= old(out)@ + spec_encode_bytes(b@));
    }
}

/// Appends the canonical encoding of a request.
pub fn append_request(out: &mut Vec<u8>, r: &Request)
    ensures
        final(out)@ == old(out)@ + spec_encode_request(r@),
{
    append_len_prefixed(out, &r.operation);
    append_u64(out, r.timestamp);
    append_len_prefixed(out, &r.client);
    proof {
        assert(final(out)@ =~= old(out)@ + spec_encode_request(r@));
    }
}

/// The canonical encoding of a request; its digest binds the request.
pub fn encode_request(r: &Request) -> (out: Vec<u8>)
    ensures
        out@ == spec_encode_request(r@),
{
    let mut out: Vec<u8> = Vec::new();
    append_request(&mut out, r);
    proof {
        assert(out@ =~= spec_encode_request(r@));
    }
    out
}

/// The canonical encoding of a whole message, tag byte first.
pub fn encode_message(m: &Message) -> (out: Vec<u8>)
    ensures
        out@ == spec_encode_message(m@),
{
    let mut out: Vec<u8> = Vec::new();
    match m {
        Message::ClientRequest(r) => {
            out.push(1u8);
            append_request(&mut out, r);
        }
        Message::PrePrepare(p) => {
            out.push(2u8);
            append_u64(&mut out, p.view);
            append_u64(&mut out, p.n);
            append_len_prefixed(&mut out, &p.digest);
            append_request(&mut out, &p.request);
        }
        Message::Prepare(p) => {
            out.push(3u8);
            append_u64(&mut out, p.view);
            append_u64(&mut out, p.n);
            append_len_prefixed(&mut out, &p.digest);
            append_u64(&mut out, p.replica);
        }
        Message::Commit(c) => {
            out.push(4u8);
            append_u64(&mut out, c.view);
            append_u64(&mut out, c.n);
            append_len_prefixed(&mut out, &c.digest);
            append_u64(&mut out, c.replica);
        }
    }
    proof {
        assert(out@ =~= spec_encode_message(m@));
    }
    out
}

/// Reads a `u64` at offset `i`.
pub fn decode_u64_at(s: &Vec<u8>, i: usize) -> (r: Option<(u64, usize)>)
    ensures
        match r {
            Some((x, j)) => spec_decode_u64_at(s@, i as int) == Some((x, j as int)),
            None => spec_decode_u64_at(s@, i as int) is None,
        },
{
    if i <= s.len() && s.len() - i >= 8 {
        let sub = slice_subrange(s.as_slice(), i, i + 8);
        let x = u64_from_le_bytes(sub);
        Some((x, i + 8))
    } else {
        None
    }
}

/// Reads a length-prefixed byte string at offset `i`.
pub fn decode_bytes_at(s: &Vec<u8>, i: usize) -> (r: Option<(Vec<u8>, usize)>)
    ensures
        match r {
            Some((b, j)) => spec_decode_bytes_at(s@, i as int) == Some((b@, j as int)),
            None => spec_decode_bytes_at(s@, i as int) is None,
        },
{
    match decode_u64_at(s, i) {
        Some((len, j)) => {
            if len <= (s.len() - j) as u64 {
                let end = j + len as usize;
                let b = slice_to_vec(slice_subrange(s.as_slice(), j, end));
                Some((b, end))
            } else {
                None
            }
        }
        None => None,
    }
}

/// Reads a client request at offset `i`.
pub fn decode_request_at(s: &Vec<u8>, i: usize) -> (r: Option<(Request, usize)>)
    ensures
        match r {
            Some((q, j)) => spec_decode_request_at(s@, i as int) == Some((q@, j as int)),
            None => spec_decode_request_at(s@, i as int) is None,
        },
{
    match decode_bytes_at(s, i) {
        Some((operation, j)) => match decode_u64_at(s, j) {
            Some((timestamp, k)) => match decode_bytes_at(s, k) {
                Some((client, l)) => Some((Request { operation, timestamp, client }, l)),
                None => None,
            },
            None => None,
        },
        None => None,
    }
}

/// Reads a PRE-PREPARE at offset `i`.
pub fn decode_pre_prepare_at(s: &Vec<u8>, i: usize) -> (r: Option<(PrePrepare, usize)>)
    ensures
        match r {
            Some((p, j)) => spec_decode_pre_prepare_at(s@, i as int) == Some((p@, j as int)),
            None => spec_decode_pre_prepare_at(s@, i as int) is None,
        },
{
    match decode_u64_at(s, i) {
        Some((view, j)) => match decode_u64_at(s, j) {
            Some((n, k)) => match decode_bytes_at(s, k) {
                Some((digest, l)) => match decode_request_at(s, l) {
                    Some((request, m)) => Some((PrePrepare { view, n, digest, request }, m)),
                    None => None,
                },
                None => None,
            },
            None => None,
        },
        None => None,
    }
}

/// Reads the fields shared by PREPARE and COMMIT at offset `i`.
pub fn decode_vote_at(s: &Vec<u8>, i: usize) -> (r: Option<((u64, u64, Vec<u8>, u64), usize)>)
    ensures
        match r {
            Some(((view, n, digest, replica), j)) => spec_decode_vote_at(s@, i as int) == Some(
                ((view, n, digest@, replica), j as int),
            ),
            None => spec_decode_vote_at(s@, i as int) is None,
        },
{
    match decode_u64_at(s, i) {
        Some((view, j)) => match decode_u64_at(s, j) {
            Some((n, k)) => match decode_bytes_at(s, k) {
                Some((digest, l)) => match decode_u64_at(s, l) {
                    Some((replica, m)) => Some(((view, n, digest, replica), m)),
                    None => None,
                },
                None => None,
            },
            None => None,
        },
        None => None,
    }
}

/// Decodes a whole canonical message; trailing bytes are refused.
pub fn decode_message(s: &Vec<u8>) -> (r: Option<Message>)
    ensures
        match r {
            Some(m) => spec_decode_message(s@) == Some(m@),
            None => spec_decode_message(s@) is None,
        },
{
    if s.len() < 1 {
        return None;
    }
    let tag = s[0];
    if tag == 1 {
        match decode_request_at(s, 1) {
            Some((q, j)) => if j == s.len() {
                Some(Message::ClientRequest(q))
            } else {
                None
            },
            None => None,
        }
    } else if tag == 2 {
        match decode_pre_prepare_at(s, 1) {
            Some((p, j)) => if j == s.len() {
                Some(Message::PrePrepare(p))
            } else {
                None
            },
            None => None,
        }
    } else if tag == 3 {
        match decode_vote_at(s, 1) {
            Some(((view, n, digest, replica), j)) => if j == s.len() {
                Some(Message::Prepare(Prepare { view, n, digest, replica }))
            } else {
                None
            },
            None => None,
        }
    } else if tag == 4 {
        match decode_vote_at(s, 1) {
            Some(((view, n, digest, replica), j)) => if j == s.len() {
                Some(Message::Commit(Commit { view, n, digest, replica }))
            } else {
                None
            },
            None => None,
        }
    } else {
        None
    }
}

/// A byte string short enough to carry a `u64` length prefix.
pub open spec fn bounded_bytes(b: Seq<u8>) -> bool {
    b.len() <= u64::MAX
}

/// All byte-string fields of the request are length-prefixable.
pub open spec fn bounded_request(r: RequestView) -> bool {
    bounded_bytes(r.operation) && bounded_bytes(r.client)
}

/// All byte-string fields of the message are length-prefixable. Every value
/// built from in-memory vectors satisfies this.
pub open spec fn bounded_message(m: MessageView) -> bool {
    match m {
        MessageView::ClientRequest(r) => bounded_request(r),
        MessageView::PrePrepare(p) => bounded_bytes(p.digest) && bounded_request(p.request),
        MessageView::Prepare(p) => bounded_bytes(p.digest),
        MessageView::Commit(c) => bounded_bytes(c.digest),
    }
}

proof fn lemma_subrange_of_subrange(s: Seq<u8>, i: int, enc: Seq<u8>, a: int, b: int)
    requires
        0 <= i,
        i + enc.len() <= s.len(),
        s.subrange(i, i + enc.len()) == enc,
        0 <= a <= b <= enc.len(),
    ensures
        s.subrange(i + a, i + b) == enc.subrange(a, b),
{
    assert(s.subrange(i + a, i + b) =~= enc.subrange(a, b)) by {
        assert forall|k: int| 0 <= k < b - a implies s.subrange(i + a, i + b)[k] == enc.subrange(
            a,
            b,
        )[k] by {
            assert(enc[a + k] == s.subrange(i, i + enc.len())[a + k]);
        }
    }
}

proof fn lemma_decode_u64_exact(s: Seq<u8>, i: int, x: u64)
    requires
        0 <= i,
        i + 8 <= s.len(),
        s.subrange(i, i + 8) == spec_u64_to_le_bytes(x),
    ensures
        spec_decode_u64_at(s, i) == Some((x, i + 8)),
{
    lemma_auto_spec_u64_to_from_le_bytes();
}

proof fn lemma_decode_bytes_exact(s: Seq<u8>, i: int, b: Seq<u8>)
    requires
        0 <= i,
        b.len() <= u64::MAX,
        i + 8 + b.len() <= s.len(),
        s.subrange(i, i + 8) == spec_u64_to_le_bytes(b.len() as u64),
        s.subrange(i + 8, i + 8 + b.len()) == b,
    ensures
        spec_decode_bytes_at(s, i) == Some((b, i + 8 + b.len())),
{
    lemma_decode_u64_exact(s, i, b.len() as u64);
}

proof fn lemma_decode_request_exact(s: Seq<u8>, i: int, r: RequestView)
    requires
        0 <= i,
        bounded_request(r),
        i + spec_encode_request(r).len() <= s.len(),
        s.subrange(i, i + spec_encode_request(r).len()) == spec_encode_request(r),
    ensures
        spec_decode_request_at(s, i) == Some((r, i + spec_encode_request(r).len())),
{
    let enc = spec_encode_request(r);
    let oplen = r.operation.len() as int;
    let cllen = r.client.len() as int;
    lemma_auto_spec_u64_to_from_le_bytes();
    assert(enc.len() == 24 + oplen + cllen);

    lemma_subrange_of_subrange(s, i, enc, 0, 8);
    assert(enc.subrange(0, 8) =~= spec_u64_to_le_bytes(r.operation.len() as u64));
    lemma_subrange_of_subrange(s, i, enc, 8, 8 + oplen);
    assert(enc.subrange(8, 8 + oplen) =~= r.operation);
    lemma_decode_bytes_exact(s, i, r.operation);

    lemma_subrange_of_subrange(s, i, enc, 8 + oplen, 16 + oplen);
    assert(enc.subrange(8 + oplen, 16 + oplen) =~= spec_u64_to_le_bytes(r.timestamp));
    lemma_decode_u64_exact(s, i + 8 + oplen, r.timestamp);

    lemma_subrange_of_subrange(s, i, enc, 16 + oplen, 24 + oplen);
    assert(enc.subrange(16 + oplen, 24 + oplen) =~= spec_u64_to_le_bytes(r.client.len() as u64));
    lemma_subrange_of_subrange(s, i, enc, 24 + oplen, 24 + oplen + cllen);
    assert(enc.subrange(24 + oplen, 24 + oplen + cllen) =~= r.client);
    lemma_decode_bytes_exact(s, i + 16 + oplen, r.client);

    assert(spec_decode_request_at(s, i) == Some(
        (RequestView { operation: r.operation, timestamp: r.timestamp, client: r.client }, i
            + enc.len()),
    ));
    assert(RequestView { operation: r.operation, timestamp: r.timestamp, client: r.client } == r);
}

proof fn lemma_decode_pre_prepare_exact(s: Seq<u8>, i: int, p: PrePrepareView)
    requires
        0 <= i,
        bounded_bytes(p.digest),
        bounded_request(p.request),
        i + spec_encode_pre_prepare(p).len() <= s.len(),
        s.subrange(i, i + spec_encode_pre_prepare(p).len()) == spec_encode_pre_prepare(p),
    ensures
        spec_decode_pre_prepare_at(s, i) == Some((p, i + spec_encode_pre_prepare(p).len())),
{
    let enc = spec_encode_pre_prepare(p);
    let dlen = p.digest.len() as int;
    let rlen = spec_encode_request(p.request).len() as int;
    lemma_auto_spec_u64_to_from_le_bytes();
    assert(enc.len() == 24 + dlen + rlen);

    lemma_subrange_of_subrange(s, i, enc, 0, 8);
    assert(enc.subrange(0, 8) =~= spec_u64_to_le_bytes(p.view));
    lemma_decode_u64_exact(s, i, p.view);

    lemma_subrange_of_subrange(s, i, enc, 8, 16);
    assert(enc.subrange(8, 16) =~= spec_u64_to_le_bytes(p.n));
    lemma_decode_u64_exact(s, i + 8, p.n);

    lemma_subrange_of_subrange(s, i, enc, 16, 24);
    assert(enc.subrange(16, 24) =~= spec_u64_to_le_bytes(p.digest.len() as u64));
    lemma_subrange_of_subrange(s, i, enc, 24, 24 + dlen);
    assert(enc.subrange(24, 24 + dlen) =~= p.digest);
    lemma_decode_bytes_exact(s, i + 16, p.digest);

    lemma_subrange_of_subrange(s, i, enc, 24 + dlen, 24 + dlen + rlen);
    assert(enc.subrange(24 + dlen, 24 + dlen + rlen) =~= spec_encode_request(p.request));
    lemma_decode_request_exact(s, i + 24 + dlen, p.request);

    assert(spec_decode_pre_prepare_at(s, i) == Some(
        (
            PrePrepareView { view: p.view, n: p.n, digest: p.digest, request: p.request },
            i + enc.len(),
        ),
    ));
    assert(PrePrepareView { view: p.view, n: p.n, digest: p.digest, request: p.request } == p);
}

proof fn lemma_decode_vote_exact(s: Seq<u8>, i: int, view: u64, n: u64, digest: Seq<u8>, replica: u64)
    requires
        0 <= i,
        bounded_bytes(digest),
        i + 32 + digest.len() <= s.len(),
        s.subrange(i, i + 32 + digest.len()) == spec_u64_to_le_bytes(view) + spec_u64_to_le_bytes(n)
            + spec_encode_bytes(digest) + spec_u64_to_le_bytes(replica),
    ensures
        spec_decode_vote_at(s, i) == Some(((view, n, digest, replica), i + 32 + digest.len())),
{
    let enc = spec_u64_to_le_bytes(view) + spec_u64_to_le_bytes(n) + spec_encode_bytes(digest)
        + spec_u64_to_le_bytes(replica);
    let dlen = digest.len() as int;
    lemma_auto_spec_u64_to_from_le_bytes();
    assert(enc.len() == 32 + dlen);

    lemma_subrange_of_subrange(s, i, enc, 0, 8);
    assert(enc.subrange(0, 8) =~= spec_u64_to_le_bytes(view));
    lemma_decode_u64_exact(s, i, view);

    lemma_subrange_of_subrange(s, i, enc, 8, 16);
    assert(enc.subrange(8, 16) =~= spec_u64_to_le_bytes(n));
    lemma_decode_u64_exact(s, i + 8, n);

    lemma_subrange_of_subrange(s, i, enc, 16, 24);
    assert(enc.subrange(16, 24) =~= spec_u64_to_le_bytes(digest.len() as u64));
    lemma_subrange_of_subrange(s, i, enc, 24, 24 + dlen);
    assert(enc.subrange(24, 24 + dlen) =~= digest);
    lemma_decode_bytes_exact(s, i + 16, digest);

    lemma_subrange_of_subrange(s, i, enc, 24 + dlen, 32 + dlen);
    assert(enc.subrange(24 + dlen, 32 + dlen) =~= spec_u64_to_le_bytes(replica));
    lemma_decode_u64_exact(s, i + 24 + dlen, replica);
}

/// The LEB128 encoding of a frame length: seven low bits per byte, the high
/// bit set on every byte but the last.
pub open spec fn spec_uvarint(x: u64) -> Seq<u8>
    decreases x,
{
    if x < 128 {
        seq![x as u8]
    } else {
        seq![(x % 128 + 128) as u8] + spec_uvarint(x / 128)
    }
}

/// Reads a LEB128 integer at `i`; refuses overlong and overflowing forms.
pub open spec fn spec_decode_uvarint_at(s: Seq<u8>, i: int) -> Option<(u64, int)>
    decreases s.len() - i,
{
    if 0 <= i < s.len() {
        if s[i] < 128 {
            Some((s[i] as u64, i + 1))
        } else {
            match spec_decode_uvarint_at(s, i + 1) {
                Some((v, j)) => if 1 <= v && v * 128 + (s[i] - 128) <= u64::MAX {
                    Some((((v * 128 + (s[i] - 128)) as u64), j))
                } else {
                    None
                },
                None => None,
            }
        }
    } else {
        None
    }
}

/// A complete wire frame: LEB128 length prefix, then the body.
pub open spec fn spec_frame(body: Seq<u8>) -> Seq<u8> {
    spec_uvarint(body.len() as u64) + body
}

/// Splits a complete frame into its body; partial or padded input is
/// refused.
pub open spec fn spec_unframe(s: Seq<u8>) -> Option<Seq<u8>> {
    match spec_decode_uvarint_at(s, 0) {
        Some((len, j)) => if j + len == s.len() {
            Some(s.subrange(j, s.len() as int))
        } else {
            None
        },
        None => None,
    }
}

proof fn lemma_decode_uvarint_bounds(s: Seq<u8>, i: int)
    ensures
        match spec_decode_uvarint_at(s, i) {
            Some((x, j)) => i < j <= s.len(),
            None => true,
        },
    decreases s.len() - i,
{
    if 0 <= i < s.len() && s[i] >= 128 {
        lemma_decode_uvarint_bounds(s, i + 1);
    }
}

proof fn lemma_decode_uvarint_exact(s: Seq<u8>, i: int, x: u64)
    requires
        0 <= i,
        i + spec_uvarint(x).len() <= s.len(),
        s.subrange(i, i + spec_uvarint(x).len() as int) == spec_uvarint(x),
    ensures
        spec_decode_uvarint_at(s, i) == Some((x, i + spec_uvarint(x).len() as int)),
    decreases x,
{
    let enc = spec_uvarint(x);
    if x < 128 {
        assert(s.subrange(i, i + 1)[0] == s[i]);
        assert(s[i] == x as u8);
    } else {
        assert(s.subrange(i, i + enc.len() as int)[0] == s[i]);
        assert(s[i] == (x % 128 + 128) as u8);
        let rest = spec_uvarint(x / 128);
        lemma_subrange_of_subrange(s, i, enc, 1, enc.len() as int);
        assert(enc.subrange(1, enc.len() as int) =~= rest);
        lemma_decode_uvarint_exact(s, i + 1, x / 128);
        vstd::arithmetic::div_mod::lemma_fundamental_div_mod(x as int, 128);
        assert((x / 128) * 128 + (s[i] - 128) == x);
        assert(x / 128 >= 1);
    }
}

/// Appends the LEB128 encoding of `x`.
pub fn append_uvarint(out: &mut Vec<u8>, x: u64)
    ensures
        final(out)@ == old(out)@ + spec_uvarint(x),
{
    let mut cur = x;
    while cur >= 128
        invariant
            old(out)@ + spec_uvarint(x) == out@ + spec_uvarint(cur),
        decreases cur,
    {
        out.push((cur % 128 + 128) as u8);
        proof {
            assert(out@ + spec_uvarint(cur / 128) =~= old(out)@ + spec_uvarint(x));
        }
        cur = cur / 128;
    }
    out.push(cur as u8);
    proof {
        assert(spec_uvarint(cur) =~= seq![cur as u8]);
        assert(out@ =~= old(out)@ + spec_uvarint(x));
    }
}

/// Reads a LEB128 integer at offset `i`.
pub fn decode_uvarint_at(s: &Vec<u8>, i: usize) -> (r: Option<(u64, usize)>)
    ensures
        match r {
            Some((x, j)) => spec_decode_uvarint_at(s@, i as int) == Some((x, j as int)),
            None => spec_decode_uvarint_at(s@, i as int) is None,
        },
    decreases s@.len() - i,
{
    if i < s.len() {
        let b = s[i];
        if b < 128 {
            Some((b as u64, i + 1))
        } else {
            match decode_uvarint_at(s, i + 1) {
                Some((v, j)) => {
                    let low = (b - 128) as u64;
                    if 1 <= v && v <= (u64::MAX - low) / 128 {
                        proof {
                            vstd::arithmetic::div_mod::lemma_fundamental_div_mod(
                                (u64::MAX - low) as int,
                                128,
                            );
                        }
                        Some((v * 128 + low, j))
                    } else {
                        proof {
                            if 1 <= v && v * 128 + low <= u64::MAX {
                                vstd::arithmetic::div_mod::lemma_div_is_ordered(
                                    (v * 128) as int,
                                    (u64::MAX - low) as int,
                                    128,
                                );
                                vstd::arithmetic::div_mod::lemma_div_multiples_vanish(
                                    v as int,
                                    128,
                                );
                            }
                        }
                        None
                    }
                }
                None => None,
            }
        }
    } else {
        None
    }
}

/// Frames the canonical encoding of `m` for the wire.
pub fn frame_message(m: &Message) -> (r: Vec<u8>)
    ensures
        r@ == spec_frame(spec_encode_message(m@)),
{
    let body = encode_message(m);
    let mut out: Vec<u8> = Vec::new();
    append_uvarint(&mut out, body.len() as u64);
    append_bytes(&mut out, &body);
    proof {
        assert(out@ =~= spec_frame(spec_encode_message(m@)));
    }
    out
}

/// Splits a complete frame into its body.
pub fn unframe(s: &Vec<u8>) -> (r: Option<Vec<u8>>)
    ensures
        match r {
            Some(b) => spec_unframe(s@) == Some(b@),
            None => spec_unframe(s@) is None,
        },
{
    match decode_uvarint_at(s, 0) {
        Some((len, j)) => {
            proof {
                lemma_decode_uvarint_bounds(s@, 0);
            }
            if len == (s.len() - j) as u64 {
                Some(slice_to_vec(slice_subrange(s.as_slice(), j, s.len())))
            } else {
                None
            }
        }
        None => None,
    }
}

/// Framing then unframing yields the body unchanged.
pub proof fn lemma_frame_round_trip(body: Seq<u8>)
    requires
        body.len() <= u64::MAX,
    ensures
        spec_unframe(spec_frame(body)) == Some(body),
{
    let s = spec_frame(body);
    let enc = spec_uvarint(body.len() as u64);
    assert(s.subrange(0, enc.len() as int) =~= enc);
    lemma_decode_uvarint_exact(s, 0, body.len() as u64);
    assert(s.subrange(enc.len() as int, s.len() as int) =~= body);
}

/// A framed canonical message comes back out whole: unframing recovers the
/// body and decoding recovers the message.
pub proof fn lemma_framed_message_round_trip(m: MessageView)
    requires
        bounded_message(m),
        spec_encode_message(m).len() <= u64::MAX,
    ensures
        spec_unframe(spec_frame(spec_encode_message(m))) == Some(spec_encode_message(m)),
        spec_decode_message(spec_encode_message(m)) == Some(m),
{
    lemma_frame_round_trip(spec_encode_message(m));
    lemma_message_round_trip(m);
}

/// Canonical encoding then decoding yields the original message.
pub proof fn lemma_message_round_trip(m: MessageView)
    requires
        bounded_message(m),
    ensures
        spec_decode_message(spec_encode_message(m)) == Some(m),
{
    let s = spec_encode_message(m);
    lemma_auto_spec_u64_to_from_le_bytes();
    match m {
        MessageView::ClientRequest(r) => {
            let enc = spec_encode_request(r);
            assert(s.subrange(1, 1 + enc.len() as int) =~= enc);
            lemma_decode_request_exact(s, 1, r);
        }
        MessageView::PrePrepare(p) => {
            let enc = spec_encode_pre_prepare(p);
            assert(s.subrange(1, 1 + enc.len() as int) =~= enc);
            lemma_decode_pre_prepare_exact(s, 1, p);
        }
        MessageView::Prepare(p) => {
            let enc = spec_encode_prepare(p);
            assert(s.subrange(1, 1 + enc.len() as int) =~= enc);
            lemma_decode_vote_exact(s, 1, p.view, p.n, p.digest, p.replica);
            assert(PrepareView { view: p.view, n: p.n, digest: p.digest, replica: p.replica }
                == p);
        }
        MessageView::Commit(c) => {
            let enc = spec_encode_commit(c);
            assert(s.subrange(1, 1 + enc.len() as int) =~= enc);
            lemma_decode_vote_exact(s, 1, c.view, c.n, c.digest, c.replica);
            assert(CommitView { view: c.view, n: c.n, digest: c.digest, replica: c.replica } == c);
        }
    }
}

} // verus!
