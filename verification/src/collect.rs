//! Collection: how a client asks its own provider for one item of mail or of a feed, how the
//! provider answers, and how the client ties each answer to the question it asked.
//!
//! Requests are one fixed width whatever they ask, and answers are one fixed width whether or
//! not anything was waiting: a body is either an item or random filler, and only the client can
//! tell which, by opening it. There is no status byte and no echoed tag. An answer carries the
//! box's refusal count, the nonce of the request it answers, and the body.
//!
//! A nonce is the only field of the exchange that is meaningless to anyone who did not send the
//! request, so it is the whole matching predicate: an answer whose nonce was not asked, or that
//! comes from somewhere the request never went, is dropped. A feed read advances its cursor only
//! over a body that is an open envelope carrying a fragment, never over filler, so an empty
//! answer cannot step past an object deposited a moment later.
use vstd::prelude::*;
use crate::chance::{os_nonce, random_bytes};
use crate::client::{mailbox_tag, mailbox_tag_of};
use crate::codec::{bytes_equal, le_u64, lemma_u64_bytes, push_all, push_u64_le, u64_le};
use crate::frame::ENVELOPE_BYTES;
use crate::provider::{drain_spec, law_what_is_served_is_one_envelope_wide, peek_spec, Provider, ProviderView};

verus! {

/// A request: kind, a 32 byte key or tag, a counter or cursor, a nonce, and a signature.
pub const REQUEST_BYTES: usize = 113;

/// An answer: the refusal count, the nonce it answers, and an envelope-wide body.
pub const RESPONSE_BYTES: usize = 780;

/// Drain one item from a box, proving the right to with the drain key.
pub const REQ_DRAIN: u8 = 1;

/// Read one item of a public feed at a cursor, without removing it.
pub const REQ_READ: u8 = 2;

/// Requests remembered while waiting for an answer.
pub const MAX_OUTSTANDING: usize = 4096;

/// Sixty-four zero bytes: where a read carries no signature.
pub open spec fn no_signature() -> Seq<u8> {
    Seq::new(64, |i: int| 0u8)
}

/// The bytes of a feed read of `tag` at `cursor`.
pub open spec fn read_request_bytes(tag: Seq<u8>, cursor: u64, nonce: Seq<u8>) -> Seq<u8> {
    seq![REQ_READ] + tag + u64_le(cursor) + nonce + no_signature()
}

/// The bytes of a drain of the box `key` hashes to, under `counter`.
pub open spec fn drain_request_bytes(key: Seq<u8>, counter: u64, nonce: Seq<u8>, signature: Seq<u8>) -> Seq<u8> {
    seq![REQ_DRAIN] + key + u64_le(counter) + nonce + signature
}

/// A request, read.
#[derive(Clone, Copy, Debug, PartialEq, Eq)]
pub enum Request {
    Drain { key: [u8; 32], counter: u64, signature: [u8; 64], nonce: [u8; 8] },
    Read { tag: [u8; 32], cursor: u64, nonce: [u8; 8] },
    /// A kind nobody defined. It is answered, with nothing.
    Other { nonce: [u8; 8] },
}

/// A request as values.
pub enum RequestView {
    Drain { key: Seq<u8>, counter: u64, signature: Seq<u8>, nonce: Seq<u8> },
    Read { tag: Seq<u8>, cursor: u64, nonce: Seq<u8> },
    Other { nonce: Seq<u8> },
}

impl View for Request {
    type V = RequestView;

    open spec fn view(&self) -> RequestView {
        match *self {
            Request::Drain { key, counter, signature, nonce } => RequestView::Drain {
                key: key@,
                counter,
                signature: signature@,
                nonce: nonce@,
            },
            Request::Read { tag, cursor, nonce } => RequestView::Read { tag: tag@, cursor, nonce: nonce@ },
            Request::Other { nonce } => RequestView::Other { nonce: nonce@ },
        }
    }
}

/// What a datagram says as a request: nothing unless it is exactly request-wide.
pub open spec fn request_of(b: Seq<u8>) -> Option<RequestView> {
    if b.len() != REQUEST_BYTES {
        None
    } else {
        let nonce = b.subrange(41, 49);
        if b[0] == REQ_DRAIN {
            Some(
                RequestView::Drain {
                    key: b.subrange(1, 33),
                    counter: le_u64(b.subrange(33, 41)),
                    signature: b.subrange(49, 113),
                    nonce,
                },
            )
        } else if b[0] == REQ_READ {
            Some(RequestView::Read { tag: b.subrange(1, 33), cursor: le_u64(b.subrange(33, 41)), nonce })
        } else {
            Some(RequestView::Other { nonce })
        }
    }
}

/// The nonce a request carries.
pub open spec fn request_nonce(r: RequestView) -> Seq<u8> {
    match r {
        RequestView::Drain { nonce, .. } => nonce,
        RequestView::Read { nonce, .. } => nonce,
        RequestView::Other { nonce } => nonce,
    }
}

/// What the provider does for a request, and the item and refusal count it answers with. A
/// drain whose signature did not verify, or that the provider refuses, takes nothing and answers
/// with nothing, exactly as a box that does not exist would.
pub open spec fn serve_spec(p: ProviderView, r: RequestView, signature_verified: bool) -> (
    ProviderView,
    Option<Seq<u8>>,
    u64,
) {
    match r {
        RequestView::Drain { key, counter, .. } => if !signature_verified {
            (p, None, 0)
        } else {
            match drain_spec(p, mailbox_tag_of(key), counter) {
                (q, Ok((item, refused))) => (q, item, refused),
                (q, Err(_)) => (q, None, 0),
            }
        },
        RequestView::Read { tag, cursor, .. } => {
            let (item, refused) = peek_spec(p, tag, cursor as usize as int);
            (p, item, refused)
        },
        RequestView::Other { .. } => (p, None, 0),
    }
}

fn take8(b: &[u8], at: usize) -> (r: [u8; 8])
    requires
        at + 8 <= b@.len(),
    ensures
        r@ == b@.subrange(at as int, at + 8),
{
    let mut r = [0u8; 8];
    let n = b.len();
    let mut i: usize = 0;
    while i < 8
        invariant
            i <= 8,
            n == b@.len(),
            at + 8 <= n,
            forall|k: int| 0 <= k < i ==> r@[k] == b@[at + k],
        decreases 8 - i,
    {
        r[i] = b[at + i];
        i += 1;
    }
    assert(r@ =~= b@.subrange(at as int, at + 8));
    r
}

fn take32(b: &[u8], at: usize) -> (r: [u8; 32])
    requires
        at + 32 <= b@.len(),
    ensures
        r@ == b@.subrange(at as int, at + 32),
{
    let mut r = [0u8; 32];
    let n = b.len();
    let mut i: usize = 0;
    while i < 32
        invariant
            i <= 32,
            n == b@.len(),
            at + 32 <= n,
            forall|k: int| 0 <= k < i ==> r@[k] == b@[at + k],
        decreases 32 - i,
    {
        r[i] = b[at + i];
        i += 1;
    }
    assert(r@ =~= b@.subrange(at as int, at + 32));
    r
}

fn take64(b: &[u8], at: usize) -> (r: [u8; 64])
    requires
        at + 64 <= b@.len(),
    ensures
        r@ == b@.subrange(at as int, at + 64),
{
    let mut r = [0u8; 64];
    let n = b.len();
    let mut i: usize = 0;
    while i < 64
        invariant
            i <= 64,
            n == b@.len(),
            at + 64 <= n,
            forall|k: int| 0 <= k < i ==> r@[k] == b@[at + k],
        decreases 64 - i,
    {
        r[i] = b[at + i];
        i += 1;
    }
    assert(r@ =~= b@.subrange(at as int, at + 64));
    r
}

/// Eight bytes as a little-endian number.
fn read_u64(b: &[u8; 8]) -> (v: u64)
    ensures
        v == le_u64(b@),
{
    let v = (b[0] as u64) | ((b[1] as u64) << 8u64) | ((b[2] as u64) << 16u64) | ((b[3] as u64) << 24u64) | ((
    b[4] as u64) << 32u64) | ((b[5] as u64) << 40u64) | ((b[6] as u64) << 48u64) | ((b[7] as u64) << 56u64);
    v
}

/// Read a datagram as a request: nothing unless it is exactly request-wide.
pub fn parse_request(b: &[u8]) -> (r: Option<Request>)
    ensures
        match r {
            Some(q) => request_of(b@) == Some(q@),
            None => request_of(b@) is None,
        },
{
    if b.len() != REQUEST_BYTES {
        return None;
    }
    let nonce = take8(b, 41);
    let counter = read_u64(&take8(b, 33));
    let cred = take32(b, 1);
    if b[0] == REQ_DRAIN {
        Some(Request::Drain { key: cred, counter, signature: take64(b, 49), nonce })
    } else if b[0] == REQ_READ {
        Some(Request::Read { tag: cred, cursor: counter, nonce })
    } else {
        Some(Request::Other { nonce })
    }
}

/// The answer to a request, taking from the store what the request takes: the refusal count,
/// the request's nonce, then the item, or filler of the same width when there is none. The
/// signature check says whether the signature a drain carries verified under its key over the
/// drain challenge for its counter.
pub fn answer(store: &mut Provider, req: &Request, signature_verified: bool) -> (resp: Vec<u8>)
    ensures
        final(store)@ == serve_spec(old(store)@, req@, signature_verified).0,
        resp@.len() == RESPONSE_BYTES,
        match serve_spec(old(store)@, req@, signature_verified).1 {
            Some(item) => resp@ == u64_le(serve_spec(old(store)@, req@, signature_verified).2) + request_nonce(
                req@,
            ) + item,
            None => {
                &&& resp@.len() == RESPONSE_BYTES
                &&& resp@.subrange(0, 16) == u64_le(serve_spec(old(store)@, req@, signature_verified).2)
                    + request_nonce(req@)
            },
        },
{
    let (item, refused, nonce): (Option<Vec<u8>>, u64, [u8; 8]) = match req {
        Request::Drain { key, counter, nonce, .. } => {
            if !signature_verified {
                (None, 0, *nonce)
            } else {
                let tag = mailbox_tag(key);
                let ghost before = store@;
                let r = store.drain_once(&tag, key, *counter, true);
                proof {
                    law_what_is_served_is_one_envelope_wide(before, tag@, 0, *counter);
                }
                match r {
                    Ok((item, refused)) => (item, refused, *nonce),
                    Err(_) => (None, 0, *nonce),
                }
            }
        },
        Request::Read { tag, cursor, nonce } => {
            let (item, refused) = store.peek(tag, *cursor as usize);
            proof {
                law_what_is_served_is_one_envelope_wide(store@, tag@, *cursor as usize as int, 0);
            }
            (item, refused, *nonce)
        },
        Request::Other { nonce } => (None, 0, *nonce),
    };
    let mut resp: Vec<u8> = Vec::new();
    push_u64_le(&mut resp, refused);
    push_all(&mut resp, &nonce);
    match item {
        Some(body) => {
            push_all(&mut resp, body.as_slice());
        },
        None => {
            let filler = random_bytes(ENVELOPE_BYTES);
            let ghost head = resp@;
            push_all(&mut resp, filler.as_slice());
            assert(resp@.subrange(0, 16) =~= head);
        },
    }
    resp
}

// ---------------------------------------------------------------- the asking side

/// The first index of `s` whose element satisfies `p`.
pub open spec fn first_where<A>(s: Seq<A>, p: spec_fn(A) -> bool) -> Option<int>
    decreases s.len(),
{
    if s.len() == 0 {
        None
    } else {
        match first_where(s.drop_last(), p) {
            Some(i) => Some(i),
            None => if p(s.last()) {
                Some(s.len() - 1)
            } else {
                None
            },
        }
    }
}

proof fn lemma_first_where<A>(s: Seq<A>, p: spec_fn(A) -> bool, j: int)
    requires
        0 <= j <= s.len(),
        forall|k: int| 0 <= k < j ==> !p(#[trigger] s[k]),
        j < s.len() ==> p(s[j]),
    ensures
        first_where(s, p) == if j < s.len() {
            Some(j)
        } else {
            None::<int>
        },
    decreases s.len(),
{
    if s.len() > 0 {
        let d = s.drop_last();
        if j < s.len() - 1 {
            assert forall|k: int| 0 <= k < j implies !p(#[trigger] d[k]) by {
                assert(d[k] == s[k]);
            }
            assert(d[j] == s[j]);
            lemma_first_where(d, p, j);
        } else {
            assert forall|k: int| 0 <= k < d.len() implies !p(#[trigger] d[k]) by {
                assert(d[k] == s[k]);
            }
            lemma_first_where(d, p, d.len() as int);
        }
    }
}

/// A request sent and not yet answered, as values.
pub struct OutstandingView {
    pub at: Seq<u8>,
    pub tag: Seq<u8>,
    pub read_cursor: Option<u32>,
    pub seq: u64,
    pub nonce: Seq<u8>,
}

/// A cursor for one box at one provider: where, which box, how far.
pub type CursorView = (Seq<u8>, Seq<u8>, u64);

/// Answers waiting to be handed over for one box at one provider.
pub type FiledView = (Seq<u8>, Seq<u8>, Seq<Seq<u8>>);

/// What a client has asked and been told.
pub struct CollectorView {
    pub outstanding: Seq<OutstandingView>,
    pub cursors: Seq<CursorView>,
    pub filed: Seq<FiledView>,
    pub next_request: u64,
    pub refused_seen: u64,
}

pub open spec fn nonce_index(os: Seq<OutstandingView>, n: Seq<u8>) -> Option<int> {
    first_where(os, |o: OutstandingView| o.nonce == n)
}

pub open spec fn cursor_index(cs: Seq<CursorView>, at: Seq<u8>, tag: Seq<u8>) -> Option<int> {
    first_where(cs, |c: CursorView| c.0 == at && c.1 == tag)
}

pub open spec fn filed_index(fs: Seq<FiledView>, at: Seq<u8>, tag: Seq<u8>) -> Option<int> {
    first_where(fs, |f: FiledView| f.0 == at && f.1 == tag)
}

/// How far a client has read the box `tag` at `at`.
pub open spec fn cursor_at(cs: Seq<CursorView>, at: Seq<u8>, tag: Seq<u8>) -> u64 {
    match cursor_index(cs, at, tag) {
        Some(i) => cs[i].2,
        None => 0,
    }
}

pub open spec fn set_cursor(cs: Seq<CursorView>, at: Seq<u8>, tag: Seq<u8>, v: u64) -> Seq<CursorView> {
    match cursor_index(cs, at, tag) {
        Some(i) => cs.update(i, (at, tag, v)),
        None => cs.push((at, tag, v)),
    }
}

/// The answers waiting for the box `tag` at `at`.
pub open spec fn filed_at(fs: Seq<FiledView>, at: Seq<u8>, tag: Seq<u8>) -> Seq<Seq<u8>> {
    match filed_index(fs, at, tag) {
        Some(i) => fs[i].2,
        None => Seq::empty(),
    }
}

pub open spec fn file(fs: Seq<FiledView>, at: Seq<u8>, tag: Seq<u8>, body: Seq<u8>) -> Seq<FiledView> {
    match filed_index(fs, at, tag) {
        Some(i) => fs.update(i, (at, tag, fs[i].2.push(body))),
        None => fs.push((at, tag, seq![body])),
    }
}

pub open spec fn unfile(fs: Seq<FiledView>, at: Seq<u8>, tag: Seq<u8>) -> Seq<FiledView> {
    match filed_index(fs, at, tag) {
        Some(i) => fs.remove(i),
        None => fs,
    }
}

/// Noting a request on the way out: a request with the same nonce is forgotten, the new one
/// joins last, and when there are more than `MAX_OUTSTANDING` the oldest is forgotten.
pub open spec fn record_spec(
    c: CollectorView,
    at: Seq<u8>,
    tag: Seq<u8>,
    read_cursor: Option<u32>,
    nonce: Seq<u8>,
) -> CollectorView {
    let kept = match nonce_index(c.outstanding, nonce) {
        Some(i) => c.outstanding.remove(i),
        None => c.outstanding,
    };
    let grown = kept.push(OutstandingView { at, tag, read_cursor, seq: c.next_request, nonce });
    CollectorView {
        outstanding: if grown.len() > MAX_OUTSTANDING {
            grown.drop_first()
        } else {
            grown
        },
        next_request: (c.next_request + 1) as u64,
        ..c
    }
}

/// Taking one datagram off the collection socket, from `from`. Only an answer-wide datagram
/// whose nonce was asked, arriving from where that request went, is taken; it retires the
/// request, files its body under the box asked about, raises the refusal high-water mark, and,
/// for a feed read whose body is a fragment, moves that box's cursor past the item read.
pub open spec fn absorb_spec(c: CollectorView, from: Seq<u8>, d: Seq<u8>) -> CollectorView {
    if d.len() != RESPONSE_BYTES {
        c
    } else {
        match nonce_index(c.outstanding, d.subrange(8, 16)) {
            None => c,
            Some(i) => {
                let o = c.outstanding[i];
                if o.at != from {
                    c
                } else {
                    let body = d.subrange(16, RESPONSE_BYTES as int);
                    let seen = le_u64(d.subrange(0, 8));
                    CollectorView {
                        outstanding: c.outstanding.remove(i),
                        cursors: match o.read_cursor {
                            Some(a) => if crate::frame::open_fragment(body) {
                                set_cursor(c.cursors, from, o.tag, (a + 1) as u64)
                            } else {
                                c.cursors
                            },
                            None => c.cursors,
                        },
                        filed: file(c.filed, from, o.tag, body),
                        next_request: c.next_request,
                        refused_seen: if seen > c.refused_seen {
                            seen
                        } else {
                            c.refused_seen
                        },
                    }
                }
            },
        }
    }
}

#[derive(Clone, Copy)]
struct Outstanding {
    at: [u8; 18],
    tag: [u8; 32],
    read_cursor: Option<u32>,
    seq: u64,
    nonce: [u8; 8],
}

spec fn outstanding_view(o: Outstanding) -> OutstandingView {
    OutstandingView { at: o.at@, tag: o.tag@, read_cursor: o.read_cursor, seq: o.seq, nonce: o.nonce@ }
}

/// Byte strings as values.
pub open spec fn bodies(v: Seq<Vec<u8>>) -> Seq<Seq<u8>> {
    v.map_values(|b: Vec<u8>| b@)
}

/// What a client has asked its providers and not yet been answered, how far it has read each
/// feed at each provider, and the answers waiting to be handed over.
pub struct Collector {
    outstanding: Vec<Outstanding>,
    cursors: Vec<([u8; 18], [u8; 32], u64)>,
    filed: Vec<([u8; 18], [u8; 32], Vec<Vec<u8>>)>,
    next_request: u64,
    refused_seen: u64,
}

spec fn out_views(v: Seq<Outstanding>) -> Seq<OutstandingView> {
    v.map_values(|o: Outstanding| outstanding_view(o))
}

spec fn cursor_views(v: Seq<([u8; 18], [u8; 32], u64)>) -> Seq<CursorView> {
    v.map_values(|c: ([u8; 18], [u8; 32], u64)| (c.0@, c.1@, c.2))
}

spec fn filed_view(f: ([u8; 18], [u8; 32], Vec<Vec<u8>>)) -> FiledView {
    (f.0@, f.1@, bodies(f.2@))
}

spec fn filed_views(v: Seq<([u8; 18], [u8; 32], Vec<Vec<u8>>)>) -> Seq<FiledView> {
    v.map_values(|f: ([u8; 18], [u8; 32], Vec<Vec<u8>>)| filed_view(f))
}

impl View for Collector {
    type V = CollectorView;

    closed spec fn view(&self) -> CollectorView {
        CollectorView {
            outstanding: out_views(self.outstanding@),
            cursors: cursor_views(self.cursors@),
            filed: filed_views(self.filed@),
            next_request: self.next_request,
            refused_seen: self.refused_seen,
        }
    }
}

/// At most `MAX_OUTSTANDING` requests remembered, no nonce twice, in the order sent, each
/// numbered below the next number to give.
pub open spec fn collector_wf(c: CollectorView) -> bool {
    &&& c.outstanding.len() <= MAX_OUTSTANDING
    &&& forall|i: int, j: int|
        0 <= i < j < c.outstanding.len() ==> (#[trigger] c.outstanding[i]).nonce != (#[trigger] c.outstanding[j]).nonce
            && c.outstanding[i].seq < c.outstanding[j].seq
    &&& forall|i: int| 0 <= i < c.outstanding.len() ==> (#[trigger] c.outstanding[i]).seq < c.next_request
}


/// A run of bytes copied out of `b`.
fn copy_range(b: &[u8], from: usize, to: usize) -> (r: Vec<u8>)
    requires
        from <= to <= b@.len(),
    ensures
        r@ == b@.subrange(from as int, to as int),
{
    let mut r: Vec<u8> = Vec::new();
    let mut i = from;
    while i < to
        invariant
            from <= i <= to,
            to <= b@.len(),
            r@ == b@.subrange(from as int, i as int),
        decreases to - i,
    {
        r.push(b[i]);
        assert(r@ =~= b@.subrange(from as int, i + 1));
        i += 1;
    }
    r
}

impl Collector {
    pub fn new() -> (c: Self)
        ensures
            collector_wf(c@),
            c@.outstanding.len() == 0,
            c@.cursors.len() == 0,
            c@.filed.len() == 0,
            c@.next_request == 0,
            c@.refused_seen == 0,
    {
        let c = Collector {
            outstanding: Vec::new(),
            cursors: Vec::new(),
            filed: Vec::new(),
            next_request: 0,
            refused_seen: 0,
        };
        assert(c@.outstanding.len() == 0);
        c
    }

    /// Deposits a provider refused, as the highest count any answer reported. Non-zero means
    /// content was lost.
    pub fn refused_seen(&self) -> (n: u64)
        ensures
            n == self@.refused_seen,
    {
        self.refused_seen
    }

    /// Requests sent and not yet answered.
    pub fn outstanding(&self) -> (n: usize)
        ensures
            n == self@.outstanding.len(),
    {
        self.outstanding.len()
    }

    /// Requests sent so far.
    pub fn requests_made(&self) -> (n: u64)
        ensures
            n == self@.next_request,
    {
        self.next_request
    }

    fn find_nonce(&self, n: &[u8; 8]) -> (r: Option<usize>)
        ensures
            match r {
                Some(i) => nonce_index(self@.outstanding, n@) == Some(i as int) && i < self@.outstanding.len(),
                None => nonce_index(self@.outstanding, n@) is None,
            },
    {
        let ghost os = self@.outstanding;
        let ghost p = |o: OutstandingView| o.nonce == n@;
        let mut i: usize = 0;
        while i < self.outstanding.len()
            invariant
                os == out_views(self.outstanding@),
                p == (|o: OutstandingView| o.nonce == n@),
                i <= os.len(),
                forall|k: int| 0 <= k < i ==> !p(#[trigger] os[k]),
            decreases os.len() - i,
        {
            assert(os[i as int] == outstanding_view(self.outstanding@[i as int]));
            if bytes_equal(&self.outstanding[i].nonce, n) {
                proof {
                    lemma_first_where(os, p, i as int);
                }
                return Some(i);
            }
            i += 1;
        }
        proof {
            lemma_first_where(os, p, i as int);
        }
        None
    }

    fn find_cursor(&self, at: &[u8; 18], tag: &[u8; 32]) -> (r: Option<usize>)
        ensures
            match r {
                Some(i) => cursor_index(self@.cursors, at@, tag@) == Some(i as int) && i < self@.cursors.len(),
                None => cursor_index(self@.cursors, at@, tag@) is None,
            },
    {
        let ghost cs = self@.cursors;
        let ghost p = |c: CursorView| c.0 == at@ && c.1 == tag@;
        let mut i: usize = 0;
        while i < self.cursors.len()
            invariant
                cs == cursor_views(self.cursors@),
                p == (|c: CursorView| c.0 == at@ && c.1 == tag@),
                i <= cs.len(),
                forall|k: int| 0 <= k < i ==> !p(#[trigger] cs[k]),
            decreases cs.len() - i,
        {
            let e = &self.cursors[i];
            assert(cs[i as int] == (e.0@, e.1@, e.2));
            if bytes_equal(&e.0, at) && bytes_equal(&e.1, tag) {
                proof {
                    lemma_first_where(cs, p, i as int);
                }
                return Some(i);
            }
            i += 1;
        }
        proof {
            lemma_first_where(cs, p, i as int);
        }
        None
    }

    fn find_filed(&self, at: &[u8; 18], tag: &[u8; 32]) -> (r: Option<usize>)
        ensures
            match r {
                Some(i) => filed_index(self@.filed, at@, tag@) == Some(i as int) && i < self@.filed.len(),
                None => filed_index(self@.filed, at@, tag@) is None,
            },
    {
        let ghost fs = self@.filed;
        let ghost p = |f: FiledView| f.0 == at@ && f.1 == tag@;
        let mut i: usize = 0;
        while i < self.filed.len()
            invariant
                fs == filed_views(self.filed@),
                p == (|f: FiledView| f.0 == at@ && f.1 == tag@),
                i <= fs.len(),
                forall|k: int| 0 <= k < i ==> !p(#[trigger] fs[k]),
            decreases fs.len() - i,
        {
            let e = &self.filed[i];
            assert(fs[i as int] == filed_view(self.filed@[i as int]));
            if bytes_equal(&e.0, at) && bytes_equal(&e.1, tag) {
                proof {
                    lemma_first_where(fs, p, i as int);
                }
                return Some(i);
            }
            i += 1;
        }
        proof {
            lemma_first_where(fs, p, i as int);
        }
        None
    }

    /// How far this client has read the box `tag` at `at`.
    pub fn cursor(&self, at: &[u8; 18], tag: &[u8; 32]) -> (c: u64)
        ensures
            c == cursor_at(self@.cursors, at@, tag@),
    {
        match self.find_cursor(at, tag) {
            Some(i) => {
                assert(self@.cursors[i as int].2 == self.cursors@[i as int].2);
                self.cursors[i].2
            },
            None => 0,
        }
    }
}


impl Collector {
    /// Note a request on the way out, returning the nonce its answer must echo.
    fn record(&mut self, at: [u8; 18], tag: [u8; 32], read_cursor: Option<u32>) -> (nonce: [u8; 8])
        requires
            collector_wf(old(self)@),
            old(self)@.next_request < u64::MAX,
        ensures
            collector_wf(final(self)@),
            final(self)@ == record_spec(old(self)@, at@, tag@, read_cursor, nonce@),
    {
        let nonce = os_nonce();
        let ghost c = self@;
        let ghost kept = match nonce_index(c.outstanding, nonce@) {
            Some(i) => c.outstanding.remove(i),
            None => c.outstanding,
        };
        match self.find_nonce(&nonce) {
            Some(i) => {
                let ghost before = self.outstanding@;
                self.outstanding.remove(i);
                assert(out_views(self.outstanding@) =~= c.outstanding.remove(i as int)) by {
                    assert forall|k: int| 0 <= k < self.outstanding@.len() implies #[trigger] out_views(
                        self.outstanding@,
                    )[k] == c.outstanding.remove(i as int)[k] by {
                        if k < i {
                            assert(self.outstanding@[k] == before[k]);
                        } else {
                            assert(self.outstanding@[k] == before[k + 1]);
                        }
                    }
                }
            },
            None => {},
        }
        assert(out_views(self.outstanding@) == kept);
        let seq = self.next_request;
        let o = Outstanding { at, tag, read_cursor, seq, nonce };
        self.outstanding.push(o);
        self.next_request = seq + 1;
        let ghost grown = kept.push(outstanding_view(o));
        assert(out_views(self.outstanding@) =~= grown) by {
            assert forall|k: int| 0 <= k < kept.len() implies #[trigger] out_views(self.outstanding@)[k] == grown[k] by {
                assert(out_views(self.outstanding@)[k] == outstanding_view(self.outstanding@[k]));
            }
        }
        if self.outstanding.len() > MAX_OUTSTANDING {
            let ghost before = self.outstanding@;
            self.outstanding.remove(0);
            assert(out_views(self.outstanding@) =~= grown.drop_first()) by {
                assert forall|k: int| 0 <= k < self.outstanding@.len() implies #[trigger] out_views(
                    self.outstanding@,
                )[k] == grown.drop_first()[k] by {
                    assert(self.outstanding@[k] == before[k + 1]);
                }
            }
        }
        proof {
            let n = self@;
            assert(n == record_spec(c, at@, tag@, read_cursor, nonce@));
            assert forall|a: int, b: int| 0 <= a < b < kept.len() implies (#[trigger] kept[a]).nonce != (
            #[trigger] kept[b]).nonce && kept[a].seq < kept[b].seq by {
                match nonce_index(c.outstanding, nonce@) {
                    Some(i) => {
                        let a2 = if a < i { a } else { a + 1 };
                        let b2 = if b < i { b } else { b + 1 };
                        assert(kept[a] == c.outstanding[a2] && kept[b] == c.outstanding[b2]);
                    },
                    None => {},
                }
            }
            assert forall|a: int| 0 <= a < kept.len() implies (#[trigger] kept[a]).nonce != nonce@ && kept[a].seq
                < c.next_request by {
                match nonce_index(c.outstanding, nonce@) {
                    Some(i) => {
                        let p = |o: OutstandingView| o.nonce == nonce@;
                        lemma_first_where_holds(c.outstanding, p);
                        let a2 = if a < i { a } else { a + 1 };
                        assert(kept[a] == c.outstanding[a2]);
                        assert(c.outstanding[i].nonce == nonce@);
                        if a2 != i {
                            if a2 < i {
                                assert(c.outstanding[a2].nonce != c.outstanding[i].nonce);
                            } else {
                                assert(c.outstanding[i].nonce != c.outstanding[a2].nonce);
                            }
                        }
                    },
                    None => {
                        let p = |o: OutstandingView| o.nonce == nonce@;
                        lemma_first_where_none(c.outstanding, p);
                        assert(!p(c.outstanding[a]));
                    },
                }
            }
            let g = n.outstanding;
            assert forall|a: int, b: int| 0 <= a < b < g.len() implies (#[trigger] g[a]).nonce != (#[trigger] g[b]).nonce
                && g[a].seq < g[b].seq by {
                let off: int = if grown.len() > MAX_OUTSTANDING { 1 } else { 0 };
                assert(g[a] == grown[a + off] && g[b] == grown[b + off]);
                if b + off < kept.len() {
                    assert(grown[a + off] == kept[a + off] && grown[b + off] == kept[b + off]);
                } else {
                    assert(grown[a + off] == kept[a + off]);
                }
            }
            assert forall|a: int| 0 <= a < g.len() implies (#[trigger] g[a]).seq < n.next_request by {
                let off: int = if grown.len() > MAX_OUTSTANDING { 1 } else { 0 };
                assert(g[a] == grown[a + off]);
                if a + off < kept.len() {
                    assert(grown[a + off] == kept[a + off]);
                }
            }
        }
        nonce
    }
}

/// What `first_where` finds satisfies the predicate and lies in range.
proof fn lemma_first_where_holds<A>(s: Seq<A>, p: spec_fn(A) -> bool)
    ensures
        first_where(s, p) matches Some(i) ==> 0 <= i < s.len() && p(s[i]) && forall|k: int|
            0 <= k < i ==> !p(#[trigger] s[k]),
    decreases s.len(),
{
    if s.len() > 0 {
        let d = s.drop_last();
        lemma_first_where_holds(d, p);
        lemma_first_where_none(d, p);
        if first_where(d, p) is Some {
            let i = first_where(d, p)->0;
            assert(d[i] == s[i]);
            assert forall|k: int| 0 <= k < i implies !p(#[trigger] s[k]) by {
                assert(d[k] == s[k]);
            }
        } else {
            assert forall|k: int| 0 <= k < s.len() - 1 implies !p(#[trigger] s[k]) by {
                assert(d[k] == s[k]);
            }
        }
    }
}

/// When `first_where` finds nothing, nothing satisfies the predicate.
proof fn lemma_first_where_none<A>(s: Seq<A>, p: spec_fn(A) -> bool)
    ensures
        first_where(s, p) is None ==> forall|k: int| 0 <= k < s.len() ==> !p(#[trigger] s[k]),
    decreases s.len(),
{
    if s.len() > 0 {
        let d = s.drop_last();
        lemma_first_where_none(d, p);
        if first_where(s, p) is None {
            assert forall|k: int| 0 <= k < s.len() implies !p(#[trigger] s[k]) by {
                if k < d.len() {
                    assert(d[k] == s[k]);
                }
            }
        }
    }
}


/// Sixty-four zero bytes.
fn zero_signature() -> (z: [u8; 64])
    ensures
        z@ == no_signature(),
{
    let z = [0u8; 64];
    assert(z@ =~= no_signature());
    z
}

/// Forgetting a request keeps the rest in order, distinct and numbered as before.
proof fn lemma_wf_remove(c: CollectorView, i: int)
    requires
        collector_wf(c),
        0 <= i < c.outstanding.len(),
    ensures
        collector_wf(CollectorView { outstanding: c.outstanding.remove(i), ..c }),
{
    let r = c.outstanding.remove(i);
    assert forall|a: int, b: int| 0 <= a < b < r.len() implies (#[trigger] r[a]).nonce != (#[trigger] r[b]).nonce
        && r[a].seq < r[b].seq by {
        let a2 = if a < i { a } else { a + 1 };
        let b2 = if b < i { b } else { b + 1 };
        assert(r[a] == c.outstanding[a2] && r[b] == c.outstanding[b2]);
    }
    assert forall|a: int| 0 <= a < r.len() implies (#[trigger] r[a]).seq < c.next_request by {
        let a2 = if a < i { a } else { a + 1 };
        assert(r[a] == c.outstanding[a2]);
    }
}

impl Collector {
    /// Ask the provider at `at` for the next item of the feed `tag`, at this client's cursor for
    /// that box there. Returns the request to send; its nonce is fresh and noted.
    pub fn request_read(&mut self, at: [u8; 18], tag: [u8; 32]) -> (r: Vec<u8>)
        requires
            collector_wf(old(self)@),
            old(self)@.next_request < u64::MAX,
        ensures
            collector_wf(final(self)@),
            r@ == read_request_bytes(
                tag@,
                cursor_at(old(self)@.cursors, at@, tag@) as u32 as u64,
                r@.subrange(41, 49),
            ),
            final(self)@ == record_spec(
                old(self)@,
                at@,
                tag@,
                Some(cursor_at(old(self)@.cursors, at@, tag@) as u32),
                r@.subrange(41, 49),
            ),
    {
        let cursor = self.cursor(&at, &tag) as u32;
        let nonce = self.record(at, tag, Some(cursor));
        let mut r: Vec<u8> = Vec::new();
        r.push(REQ_READ);
        push_all(&mut r, &tag);
        push_u64_le(&mut r, cursor as u64);
        push_all(&mut r, &nonce);
        let z = zero_signature();
        push_all(&mut r, &z);
        assert(r@ =~= read_request_bytes(tag@, cursor as u64, nonce@));
        assert(r@.subrange(41, 49) =~= nonce@);
        r
    }

    /// Ask the provider at `at` for one item of the mailbox `mailbox`, proving the right to with
    /// a signature under `drain_public` over the drain challenge for `counter`. Returns the
    /// request to send; its nonce is fresh and noted.
    pub fn request_drain(
        &mut self,
        at: [u8; 18],
        mailbox: [u8; 32],
        drain_public: [u8; 32],
        counter: u64,
        signature: [u8; 64],
    ) -> (r: Vec<u8>)
        requires
            collector_wf(old(self)@),
            old(self)@.next_request < u64::MAX,
        ensures
            collector_wf(final(self)@),
            r@ == drain_request_bytes(drain_public@, counter, r@.subrange(41, 49), signature@),
            final(self)@ == record_spec(old(self)@, at@, mailbox@, None, r@.subrange(41, 49)),
    {
        let nonce = self.record(at, mailbox, None);
        let mut r: Vec<u8> = Vec::new();
        r.push(REQ_DRAIN);
        push_all(&mut r, &drain_public);
        push_u64_le(&mut r, counter);
        push_all(&mut r, &nonce);
        push_all(&mut r, &signature);
        assert(r@ =~= drain_request_bytes(drain_public@, counter, nonce@, signature@));
        assert(r@.subrange(41, 49) =~= nonce@);
        r
    }

    fn set_cursor(&mut self, at: [u8; 18], tag: [u8; 32], v: u64)
        ensures
            final(self)@ == (CollectorView { cursors: set_cursor(old(self)@.cursors, at@, tag@, v), ..old(self)@ }),
    {
        let ghost cs = self@.cursors;
        match self.find_cursor(&at, &tag) {
            Some(i) => {
                let ghost before = self.cursors@;
                self.cursors.set(i, (at, tag, v));
                assert(cursor_views(self.cursors@) =~= cs.update(i as int, (at@, tag@, v))) by {
                    assert forall|k: int| 0 <= k < cs.len() implies #[trigger] cursor_views(self.cursors@)[k]
                        == cs.update(i as int, (at@, tag@, v))[k] by {
                        if k != i {
                            assert(self.cursors@[k] == before[k]);
                        }
                    }
                }
            },
            None => {
                let ghost before = self.cursors@;
                self.cursors.push((at, tag, v));
                assert(cursor_views(self.cursors@) =~= cs.push((at@, tag@, v))) by {
                    assert forall|k: int| 0 <= k < cs.len() implies #[trigger] cursor_views(self.cursors@)[k]
                        == cs.push((at@, tag@, v))[k] by {
                        assert(self.cursors@[k] == before[k]);
                    }
                }
            },
        }
    }

    fn file(&mut self, at: [u8; 18], tag: [u8; 32], body: Vec<u8>)
        ensures
            final(self)@ == (CollectorView { filed: file(old(self)@.filed, at@, tag@, body@), ..old(self)@ }),
    {
        let ghost fs = self@.filed;
        match self.find_filed(&at, &tag) {
            Some(i) => {
                let ghost before = self.filed@;
                let (a, t, mut items) = self.filed.remove(i);
                let ghost old_items = items@;
                assert(fs[i as int] == filed_view((a, t, items)));
                items.push(body);
                assert(bodies(items@) =~= bodies(old_items).push(body@)) by {
                    assert forall|k: int| 0 <= k < old_items.len() implies #[trigger] bodies(items@)[k] == bodies(
                        old_items,
                    ).push(body@)[k] by {
                        assert(items@[k] == old_items[k]);
                    }
                }
                self.filed.insert(i, (at, tag, items));
                assert(filed_views(self.filed@) =~= fs.update(i as int, (at@, tag@, fs[i as int].2.push(body@))))
                    by {
                    assert forall|k: int| 0 <= k < fs.len() implies #[trigger] filed_views(self.filed@)[k]
                        == fs.update(i as int, (at@, tag@, fs[i as int].2.push(body@)))[k] by {
                        if k != i {
                            assert(self.filed@[k] == before[k]);
                        }
                    }
                }
            },
            None => {
                let ghost before = self.filed@;
                let mut items: Vec<Vec<u8>> = Vec::new();
                items.push(body);
                assert(bodies(items@) =~= seq![body@]);
                self.filed.push((at, tag, items));
                assert(filed_views(self.filed@) =~= fs.push((at@, tag@, seq![body@]))) by {
                    assert forall|k: int| 0 <= k < fs.len() implies #[trigger] filed_views(self.filed@)[k]
                        == fs.push((at@, tag@, seq![body@]))[k] by {
                        assert(self.filed@[k] == before[k]);
                    }
                }
            },
        }
    }

    /// Take one datagram that arrived on the collection socket from `from`.
    pub fn absorb(&mut self, from: [u8; 18], datagram: &[u8])
        requires
            collector_wf(old(self)@),
        ensures
            collector_wf(final(self)@),
            final(self)@ == absorb_spec(old(self)@, from@, datagram@),
    {
        if datagram.len() != RESPONSE_BYTES {
            return;
        }
        let echoed = take8(datagram, 8);
        let i = match self.find_nonce(&echoed) {
            Some(i) => i,
            None => {
                return;
            },
        };
        let o = self.outstanding[i];
        assert(self@.outstanding[i as int] == outstanding_view(o));
        if !bytes_equal(&o.at, &from) {
            return;
        }
        let ghost c = self@;
        let ghost before = self.outstanding@;
        self.outstanding.remove(i);
        assert(out_views(self.outstanding@) =~= c.outstanding.remove(i as int)) by {
            assert forall|k: int| 0 <= k < self.outstanding@.len() implies #[trigger] out_views(self.outstanding@)[k]
                == c.outstanding.remove(i as int)[k] by {
                if k < i {
                    assert(self.outstanding@[k] == before[k]);
                } else {
                    assert(self.outstanding@[k] == before[k + 1]);
                }
            }
        }
        proof {
            lemma_wf_remove(c, i as int);
        }
        let body = copy_range(datagram, 16, RESPONSE_BYTES);
        match o.read_cursor {
            Some(a) => {
                if crate::frame::is_open_fragment(body.as_slice()) {
                    self.set_cursor(from, o.tag, a as u64 + 1);
                }
            },
            None => {},
        }
        let seen = read_u64(&take8(datagram, 0));
        if seen > self.refused_seen {
            self.refused_seen = seen;
        }
        self.file(from, o.tag, body);
    }

    /// Hand over the answers waiting for the box `tag` at `at`, in the order they arrived.
    pub fn take(&mut self, at: &[u8; 18], tag: &[u8; 32]) -> (r: Vec<Vec<u8>>)
        requires
            collector_wf(old(self)@),
        ensures
            collector_wf(final(self)@),
            bodies(r@) == filed_at(old(self)@.filed, at@, tag@),
            final(self)@ == (CollectorView { filed: unfile(old(self)@.filed, at@, tag@), ..old(self)@ }),
    {
        let ghost fs = self@.filed;
        match self.find_filed(at, tag) {
            Some(i) => {
                let ghost before = self.filed@;
                let (a, t, items) = self.filed.remove(i);
                assert(fs[i as int] == filed_view((a, t, items)));
                assert(filed_views(self.filed@) =~= fs.remove(i as int)) by {
                    assert forall|k: int| 0 <= k < self.filed@.len() implies #[trigger] filed_views(self.filed@)[k]
                        == fs.remove(i as int)[k] by {
                        if k < i {
                            assert(self.filed@[k] == before[k]);
                        } else {
                            assert(self.filed@[k] == before[k + 1]);
                        }
                    }
                }
                items
            },
            None => {
                let r: Vec<Vec<u8>> = Vec::new();
                assert(bodies(r@) =~= Seq::<Seq<u8>>::empty());
                r
            },
        }
    }
}


/// Law: a request reads back as what was asked: a feed read as that tag, cursor and nonce, and
/// a drain as that key, counter, nonce and signature.
pub proof fn law_a_request_reads_back_as_asked(
    tag: Seq<u8>,
    cursor: u64,
    nonce: Seq<u8>,
    key: Seq<u8>,
    counter: u64,
    signature: Seq<u8>,
)
    requires
        tag.len() == 32,
        key.len() == 32,
        nonce.len() == 8,
        signature.len() == 64,
    ensures
        request_of(read_request_bytes(tag, cursor, nonce)) == Some(RequestView::Read { tag, cursor, nonce }),
        request_of(drain_request_bytes(key, counter, nonce, signature)) == Some(
            RequestView::Drain { key, counter, signature, nonce },
        ),
{
    lemma_u64_bytes(cursor);
    lemma_u64_bytes(counter);
    let r = read_request_bytes(tag, cursor, nonce);
    assert(r.subrange(1, 33) =~= tag);
    assert(r.subrange(33, 41) =~= u64_le(cursor));
    assert(r.subrange(41, 49) =~= nonce);
    let d = drain_request_bytes(key, counter, nonce, signature);
    assert(d.subrange(1, 33) =~= key);
    assert(d.subrange(33, 41) =~= u64_le(counter));
    assert(d.subrange(41, 49) =~= nonce);
    assert(d.subrange(49, 113) =~= signature);
}

/// Law: nothing on the wire but an answer to a request this client sent, arriving from where
/// that request went, changes what the client holds. An answer is taken at most once: taking it
/// retires its nonce.
pub proof fn law_only_an_answer_to_a_question_is_taken(c: CollectorView, from: Seq<u8>, d: Seq<u8>)
    requires
        collector_wf(c),
    ensures
        (d.len() != RESPONSE_BYTES || nonce_index(c.outstanding, d.subrange(8, 16)) is None) ==> absorb_spec(c, from, d)
            == c,
        nonce_index(c.outstanding, d.subrange(8, 16)) matches Some(i) ==> (c.outstanding[i].at != from ==> absorb_spec(
            c,
            from,
            d,
        ) == c),
        absorb_spec(c, from, d) != c ==> nonce_index(absorb_spec(c, from, d).outstanding, d.subrange(8, 16)) is None,
{
    if absorb_spec(c, from, d) != c {
        let n = d.subrange(8, 16);
        let i = nonce_index(c.outstanding, n)->0;
        let p = |o: OutstandingView| o.nonce == n;
        lemma_first_where_holds(c.outstanding, p);
        let r = c.outstanding.remove(i);
        assert forall|k: int| 0 <= k < r.len() implies !p(#[trigger] r[k]) by {
            let k2 = if k < i { k } else { k + 1 };
            assert(r[k] == c.outstanding[k2]);
            if k2 < i {
                assert(c.outstanding[k2].nonce != c.outstanding[i].nonce);
            } else {
                assert(c.outstanding[i].nonce != c.outstanding[k2].nonce);
            }
        }
        lemma_first_where(r, p, r.len() as int);
    }
}

/// Law: a cursor moves only over a body that is an open envelope carrying a fragment, so random
/// filler, an empty answer, never steps past an item not yet deposited. The refusal count only
/// ever rises.
pub proof fn law_a_cursor_moves_only_over_a_fragment(c: CollectorView, from: Seq<u8>, d: Seq<u8>)
    ensures
        absorb_spec(c, from, d).cursors != c.cursors ==> d.len() == RESPONSE_BYTES && crate::frame::open_fragment(
            d.subrange(16, RESPONSE_BYTES as int),
        ),
        absorb_spec(c, from, d).refused_seen >= c.refused_seen,
        absorb_spec(c, from, d).next_request == c.next_request,
{
}

/// What the client holds after taking in `datagrams`, each a source address and its bytes, in
/// the order they arrived.
pub open spec fn absorb_all(c: CollectorView, datagrams: Seq<(Seq<u8>, Seq<u8>)>) -> CollectorView
    decreases datagrams.len(),
{
    if datagrams.len() == 0 {
        c
    } else {
        let (from, d) = datagrams.last();
        absorb_spec(absorb_all(c, datagrams.drop_last()), from, d)
    }
}

/// Law: over a whole read of the socket, the refusal count a client has seen never goes down,
/// at any point in the read: a later answer reporting fewer refusals, a stale one or a forged
/// one, cannot hide refusals an earlier answer reported. Nor does the read add questions: every
/// answer taken retires one.
pub proof fn law_the_refusal_count_never_falls_over_a_read(
    c: CollectorView,
    datagrams: Seq<(Seq<u8>, Seq<u8>)>,
    i: int,
    j: int,
)
    requires
        0 <= i <= j <= datagrams.len(),
    ensures
        absorb_all(c, datagrams.take(i)).refused_seen <= absorb_all(c, datagrams.take(j)).refused_seen,
        absorb_all(c, datagrams.take(j)).outstanding.len() <= absorb_all(c, datagrams.take(i)).outstanding.len(),
    decreases j - i,
{
    if i < j {
        law_the_refusal_count_never_falls_over_a_read(c, datagrams, i, j - 1);
        assert(datagrams.take(j).drop_last() =~= datagrams.take(j - 1));
        assert(datagrams.take(j).last() == datagrams[j - 1]);
        let before = absorb_all(c, datagrams.take(j - 1));
        let (from, d) = datagrams[j - 1];
        law_a_cursor_moves_only_over_a_fragment(before, from, d);
        if d.len() == RESPONSE_BYTES {
            let n = d.subrange(8, 16);
            if nonce_index(before.outstanding, n) is Some {
                lemma_first_where_holds(before.outstanding, |o: OutstandingView| o.nonce == n);
            }
        }
    }
}

} // verus!
