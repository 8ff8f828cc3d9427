//! Signed immutable objects, named by what they say.
//!
//! An object's name is the hash of its signing bytes: a domain, the kind, the author's key,
//! what it supersedes, its sequence number and its payload, each length-prefixed or fixed
//! width. The same content by the same author has one name wherever it is served, and any
//! change to any field changes what is hashed.
use vstd::prelude::*;
use vstd::utf8::*;
use crate::codec::{
    blake3_digest, enc_bytes, enc_opt_cid, u64_le, Cid, CidView, Dec, DecodeError, Enc,
    law_bytes_canonical, law_bytes_round_trip, law_opt_cid_canonical, law_opt_cid_round_trip,
    law_str_round_trip, law_u64_canonical, law_u64_round_trip, cid_well_formed, rd_bytes,
    rd_opt_cid, rd_str, rd_take, rd_u64,
};

verus! {

#[derive(Debug, Clone, PartialEq, Eq)]
pub enum ObjectError {
    BadSignature,
    MalformedAuthorKey,
    /// The object's stated identifier does not match its content.
    CidMismatch,
}

/// `karst.object.v1`: the first field of an object's signing bytes.
pub open spec fn object_domain() -> Seq<u8> {
    seq![107u8, 97, 114, 115, 116, 46, 111, 98, 106, 101, 99, 116, 46, 118, 49]
}

/// What an author signs and what an object is named by.
pub open spec fn signing_bytes_spec(
    kind: Seq<char>,
    author_key: Seq<u8>,
    supersedes: Option<CidView>,
    seq: u64,
    payload: Seq<u8>,
) -> Seq<u8> {
    enc_bytes(object_domain()) + enc_bytes(encode_utf8(kind)) + enc_bytes(author_key)
        + enc_opt_cid(supersedes) + u64_le(seq) + enc_bytes(payload)
}

/// An object as values.
pub struct ObjectView {
    pub kind: Seq<char>,
    pub author_key: Seq<u8>,
    pub supersedes: Option<CidView>,
    pub seq: u64,
    pub payload: Seq<u8>,
    pub signature: Seq<u8>,
}

/// A signed immutable object. The author's key travels with it.
#[derive(Clone)]
pub struct Object {
    pub kind: String,
    pub author_key: [u8; 32],
    /// Previous version. `None` for an original.
    pub supersedes: Option<Cid>,
    pub seq: u64,
    pub payload: Vec<u8>,
    signature: [u8; 64],
}

impl View for Object {
    type V = ObjectView;

    closed spec fn view(&self) -> ObjectView {
        ObjectView {
            kind: self.kind@,
            author_key: self.author_key@,
            supersedes: match self.supersedes {
                Some(c) => Some(c@),
                None => None,
            },
            seq: self.seq,
            payload: self.payload@,
            signature: self.signature@,
        }
    }
}

impl Object {
    /// The bytes an author signs and an object is named by.
    pub fn signing_bytes(
        kind: &str,
        author_key: &[u8; 32],
        supersedes: Option<&Cid>,
        seq: u64,
        payload: &[u8],
    ) -> (out: Vec<u8>)
        ensures
            out@ == signing_bytes_spec(
                kind@,
                author_key@,
                match supersedes {
                    Some(c) => Some(c@),
                    None => None,
                },
                seq,
                payload@,
            ),
    {
        let domain: [u8; 15] = [107, 97, 114, 115, 116, 46, 111, 98, 106, 101, 99, 116, 46, 118, 49];
        assert(domain@ =~= object_domain());
        let mut e = Enc::new();
        e.bytes(&domain);
        e.str(kind);
        e.bytes(author_key);
        e.opt_cid(supersedes);
        e.u64(seq);
        e.bytes(payload);
        e.finish()
    }

    /// An object from its fields and the author's signature over its signing bytes.
    pub fn from_signed(
        kind: &str,
        author_key: [u8; 32],
        seq: u64,
        payload: Vec<u8>,
        supersedes: Option<Cid>,
        signature: [u8; 64],
    ) -> (o: Object)
        ensures
            o@ == (ObjectView {
                kind: kind@,
                author_key: author_key@,
                supersedes: match supersedes {
                    Some(c) => Some(c@),
                    None => None,
                },
                seq,
                payload: payload@,
                signature: signature@,
            }),
    {
        Object {
            kind: kind.to_string(),
            author_key,
            supersedes,
            seq,
            payload,
            signature,
        }
    }

    /// The object's name: the content identifier of its signing bytes.
    pub fn cid(&self) -> (c: Cid)
        ensures
            c@.alg == 1,
            c@.digest == blake3_digest(
                signing_bytes_spec(
                    self@.kind,
                    self@.author_key,
                    self@.supersedes,
                    self@.seq,
                    self@.payload,
                ),
            ),
    {
        let b = Self::signing_bytes(
            self.kind.as_str(),
            &self.author_key,
            self.supersedes.as_ref(),
            self.seq,
            self.payload.as_slice(),
        );
        Cid::of(b.as_slice())
    }

    pub fn kind(&self) -> (k: &str)
        ensures
            k@ == self@.kind,
    {
        self.kind.as_str()
    }

    pub fn author_key(&self) -> (k: [u8; 32])
        ensures
            k@ == self@.author_key,
    {
        self.author_key
    }

    pub fn supersedes(&self) -> (c: Option<Cid>)
        ensures
            c == self.supersedes_cid(),
            match c {
                Some(x) => self@.supersedes == Some(x@),
                None => self@.supersedes is None,
            },
    {
        self.supersedes
    }

    /// What this object supersedes, as an identifier.
    pub closed spec fn supersedes_cid(&self) -> Option<Cid> {
        self.supersedes
    }

    pub fn seq(&self) -> (n: u64)
        ensures
            n == self@.seq,
    {
        self.seq
    }

    pub fn payload(&self) -> (p: &[u8])
        ensures
            p@ == self@.payload,
    {
        self.payload.as_slice()
    }

    /// The signature carried, as bytes.
    pub fn signature(&self) -> (s: &[u8; 64])
        ensures
            s@ == self@.signature,
    {
        &self.signature
    }

    /// The same object with its payload replaced, as a relay tampering in flight would.
    pub fn tamper(&self, new_payload: Vec<u8>) -> (o: Object)
        ensures
            o@ == (ObjectView { payload: new_payload@, ..self@ }),
    {
        Object {
            kind: self.kind.clone(),
            author_key: self.author_key,
            supersedes: self.supersedes,
            seq: self.seq,
            payload: new_payload,
            signature: self.signature,
        }
    }
}

proof fn lemma_cancel(p: Seq<u8>, x: Seq<u8>, y: Seq<u8>)
    requires
        p + x == p + y,
    ensures
        x == y,
{
    assert(x =~= (p + x).skip(p.len() as int));
    assert(y =~= (p + y).skip(p.len() as int));
}

proof fn lemma_str_head(s1: Seq<char>, r1: Seq<u8>, s2: Seq<char>, r2: Seq<u8>)
    requires
        encode_utf8(s1).len() <= u32::MAX,
        encode_utf8(s2).len() <= u32::MAX,
        enc_bytes(encode_utf8(s1)) + r1 == enc_bytes(encode_utf8(s2)) + r2,
    ensures
        s1 == s2,
        r1 == r2,
{
    let e = Seq::<u8>::empty();
    law_str_round_trip(e, s1, r1);
    law_str_round_trip(e, s2, r2);
    assert(e + enc_bytes(encode_utf8(s1)) + r1 =~= enc_bytes(encode_utf8(s1)) + r1);
    assert(e + enc_bytes(encode_utf8(s2)) + r2 =~= enc_bytes(encode_utf8(s2)) + r2);
    lemma_cancel(enc_bytes(encode_utf8(s1)), r1, r2);
}

proof fn lemma_bytes_head(b1: Seq<u8>, r1: Seq<u8>, b2: Seq<u8>, r2: Seq<u8>)
    requires
        b1.len() <= u32::MAX,
        b2.len() <= u32::MAX,
        enc_bytes(b1) + r1 == enc_bytes(b2) + r2,
    ensures
        b1 == b2,
        r1 == r2,
{
    let e = Seq::<u8>::empty();
    law_bytes_round_trip(e, b1, r1);
    law_bytes_round_trip(e, b2, r2);
    assert(e + enc_bytes(b1) + r1 =~= enc_bytes(b1) + r1);
    assert(e + enc_bytes(b2) + r2 =~= enc_bytes(b2) + r2);
    lemma_cancel(enc_bytes(b1), r1, r2);
}

proof fn lemma_opt_cid_head(c1: Option<CidView>, r1: Seq<u8>, c2: Option<CidView>, r2: Seq<u8>)
    requires
        c1 matches Some(c) ==> cid_well_formed(c),
        c2 matches Some(c) ==> cid_well_formed(c),
        enc_opt_cid(c1) + r1 == enc_opt_cid(c2) + r2,
    ensures
        c1 == c2,
        r1 == r2,
{
    let e = Seq::<u8>::empty();
    law_opt_cid_round_trip(e, c1, r1);
    law_opt_cid_round_trip(e, c2, r2);
    assert(e + enc_opt_cid(c1) + r1 =~= enc_opt_cid(c1) + r1);
    assert(e + enc_opt_cid(c2) + r2 =~= enc_opt_cid(c2) + r2);
    lemma_cancel(enc_opt_cid(c1), r1, r2);
}

proof fn lemma_u64_head(v1: u64, r1: Seq<u8>, v2: u64, r2: Seq<u8>)
    requires
        u64_le(v1) + r1 == u64_le(v2) + r2,
    ensures
        v1 == v2,
        r1 == r2,
{
    let e = Seq::<u8>::empty();
    law_u64_round_trip(e, v1, r1);
    law_u64_round_trip(e, v2, r2);
    assert(e + u64_le(v1) + r1 =~= u64_le(v1) + r1);
    assert(e + u64_le(v2) + r2 =~= u64_le(v2) + r2);
    lemma_cancel(u64_le(v1), r1, r2);
}

/// The signing bytes with their fields nested from the right.
proof fn lemma_signing_nested(o: ObjectView)
    ensures
        signing_bytes_spec(o.kind, o.author_key, o.supersedes, o.seq, o.payload) == enc_bytes(
            object_domain(),
        ) + (enc_bytes(encode_utf8(o.kind)) + (enc_bytes(o.author_key) + (enc_opt_cid(
            o.supersedes,
        ) + (u64_le(o.seq) + enc_bytes(o.payload))))),
{
    assert(signing_bytes_spec(o.kind, o.author_key, o.supersedes, o.seq, o.payload) =~= enc_bytes(
        object_domain(),
    ) + (enc_bytes(encode_utf8(o.kind)) + (enc_bytes(o.author_key) + (enc_opt_cid(o.supersedes)
        + (u64_le(o.seq) + enc_bytes(o.payload))))));
}

/// Signing bytes determine every field they cover, so no two different objects share a name
/// unless the hash collides, and changing any field, the payload included, changes what is
/// signed and hashed.
pub proof fn law_signing_bytes_determine_the_fields(a: ObjectView, b: ObjectView)
    requires
        encode_utf8(a.kind).len() <= u32::MAX,
        encode_utf8(b.kind).len() <= u32::MAX,
        a.author_key.len() == 32,
        b.author_key.len() == 32,
        a.payload.len() <= u32::MAX,
        b.payload.len() <= u32::MAX,
        a.supersedes matches Some(c) ==> cid_well_formed(c),
        b.supersedes matches Some(c) ==> cid_well_formed(c),
        signing_bytes_spec(a.kind, a.author_key, a.supersedes, a.seq, a.payload)
            == signing_bytes_spec(b.kind, b.author_key, b.supersedes, b.seq, b.payload),
    ensures
        a.kind == b.kind,
        a.author_key == b.author_key,
        a.supersedes == b.supersedes,
        a.seq == b.seq,
        a.payload == b.payload,
{
    lemma_signing_nested(a);
    lemma_signing_nested(b);
    let ta = u64_le(a.seq) + enc_bytes(a.payload);
    let tb = u64_le(b.seq) + enc_bytes(b.payload);
    let sa = enc_opt_cid(a.supersedes) + ta;
    let sb = enc_opt_cid(b.supersedes) + tb;
    let ka = enc_bytes(a.author_key) + sa;
    let kb = enc_bytes(b.author_key) + sb;
    lemma_cancel(
        enc_bytes(object_domain()),
        enc_bytes(encode_utf8(a.kind)) + ka,
        enc_bytes(encode_utf8(b.kind)) + kb,
    );
    lemma_str_head(a.kind, ka, b.kind, kb);
    lemma_bytes_head(a.author_key, sa, b.author_key, sb);
    lemma_opt_cid_head(a.supersedes, ta, b.supersedes, tb);
    lemma_u64_head(a.seq, enc_bytes(a.payload), b.seq, enc_bytes(b.payload));
    lemma_bytes_head(a.payload, Seq::empty(), b.payload, Seq::empty());
    assert(enc_bytes(a.payload) + Seq::<u8>::empty() =~= enc_bytes(a.payload));
    assert(enc_bytes(b.payload) + Seq::<u8>::empty() =~= enc_bytes(b.payload));
}

// ---------------------------------------------------------------- carrying an object

/// An object as it travels between parties: its kind, length-prefixed; the author's key, 32
/// bytes; what it supersedes; its sequence number; its payload, length-prefixed; and the
/// signature, 64 bytes.
pub open spec fn object_wire(o: ObjectView) -> Seq<u8> {
    enc_bytes(encode_utf8(o.kind)) + o.author_key + enc_opt_cid(o.supersedes) + u64_le(o.seq)
        + enc_bytes(o.payload) + o.signature
}

/// What a reader makes of received bytes: one object exactly, or the first thing wrong.
pub open spec fn object_from_wire(buf: Seq<u8>) -> Result<ObjectView, DecodeError> {
    match rd_str(buf, 0) {
        (Err(e), _) => Err(e),
        (Ok(kind), p1) => match rd_take(buf, p1, 32) {
            (Err(e), _) => Err(e),
            (Ok(author_key), p2) => match rd_opt_cid(buf, p2) {
                (Err(e), _) => Err(e),
                (Ok(supersedes), p3) => match rd_u64(buf, p3) {
                    (Err(e), _) => Err(e),
                    (Ok(seq), p4) => match rd_bytes(buf, p4) {
                        (Err(e), _) => Err(e),
                        (Ok(payload), p5) => match rd_take(buf, p5, 64) {
                            (Err(e), _) => Err(e),
                            (Ok(signature), p6) => if p6 == buf.len() {
                                Ok(ObjectView { kind, author_key, supersedes, seq, payload, signature })
                            } else {
                                Err(DecodeError::TrailingBytes)
                            },
                        },
                    },
                },
            },
        },
    }
}

fn copy_array32(b: &[u8]) -> (a: [u8; 32])
    requires
        b@.len() == 32,
    ensures
        a@ == b@,
{
    let mut a = [0u8; 32];
    let mut i: usize = 0;
    while i < 32
        invariant
            b@.len() == 32,
            i <= 32,
            forall|j: int| 0 <= j < i ==> a@[j] == b@[j],
        decreases 32 - i,
    {
        a[i] = b[i];
        i = i + 1;
    }
    assert(a@ =~= b@);
    a
}

fn copy_array64(b: &[u8]) -> (a: [u8; 64])
    requires
        b@.len() == 64,
    ensures
        a@ == b@,
{
    let mut a = [0u8; 64];
    let mut i: usize = 0;
    while i < 64
        invariant
            b@.len() == 64,
            i <= 64,
            forall|j: int| 0 <= j < i ==> a@[j] == b@[j],
        decreases 64 - i,
    {
        a[i] = b[i];
        i = i + 1;
    }
    assert(a@ =~= b@);
    a
}

impl Object {
    /// The object as bytes to carry.
    pub fn encode(&self) -> (out: Vec<u8>)
        ensures
            out@ == object_wire(self@),
    {
        let mut e = Enc::new();
        e.str(self.kind.as_str());
        e.raw(&self.author_key);
        e.opt_cid(self.supersedes.as_ref());
        e.u64(self.seq);
        e.bytes(self.payload.as_slice());
        e.raw(&self.signature);
        e.finish()
    }

    /// An object read back from carried bytes. Nothing is taken on trust here: whether the
    /// signature holds is a separate question, asked of the result.
    pub fn decode(bytes: &[u8]) -> (r: Result<Object, DecodeError>)
        ensures
            match r {
                Ok(o) => object_from_wire(bytes@) == Ok::<ObjectView, DecodeError>(o@),
                Err(e) => object_from_wire(bytes@) == Err::<ObjectView, DecodeError>(e),
            },
    {
        let mut d = Dec::new(bytes);
        let kind = d.str()?;
        let key = d.raw(32)?;
        let supersedes = d.opt_cid()?;
        let seq = d.u64()?;
        let payload = d.bytes()?;
        let sig = d.raw(64)?;
        d.end()?;
        let mut body: Vec<u8> = Vec::new();
        crate::codec::push_all(&mut body, payload);
        Ok(Object {
            kind,
            author_key: copy_array32(key),
            supersedes,
            seq,
            payload: body,
            signature: copy_array64(sig),
        })
    }
}

/// Reading back what was written gives the same object, for any object whose fields fit
/// their length prefixes.
#[verifier::spinoff_prover]
#[verifier::rlimit(60)]
pub proof fn law_an_object_reads_back_as_written(o: ObjectView)
    requires
        encode_utf8(o.kind).len() <= u32::MAX,
        o.author_key.len() == 32,
        o.payload.len() <= u32::MAX,
        o.signature.len() == 64,
        o.supersedes matches Some(c) ==> cid_well_formed(c),
    ensures
        object_from_wire(object_wire(o)) == Ok::<ObjectView, DecodeError>(o),
{
    let a = enc_bytes(encode_utf8(o.kind));
    let b = o.author_key;
    let c = enc_opt_cid(o.supersedes);
    let d = u64_le(o.seq);
    let e = enc_bytes(o.payload);
    let f = o.signature;
    let buf = object_wire(o);
    let em = Seq::<u8>::empty();
    let p1 = a.len() as int;
    let p2 = p1 + 32;
    let p3 = p2 + c.len();
    let p4 = p3 + 8;
    let p5 = p4 + e.len();
    assert(rd_str(buf, 0) == (Ok::<Seq<char>, DecodeError>(o.kind), p1)) by {
        law_str_round_trip(em, o.kind, b + c + d + e + f);
        assert(em + a + (b + c + d + e + f) =~= buf);
    }
    assert(rd_take(buf, p1, 32) == (Ok::<Seq<u8>, DecodeError>(b), p2)) by {
        assert(buf.subrange(p1, p2) =~= b);
    }
    assert(rd_opt_cid(buf, p2) == (Ok::<Option<CidView>, DecodeError>(o.supersedes), p3)) by {
        law_opt_cid_round_trip(a + b, o.supersedes, d + e + f);
        assert(a + b + c + (d + e + f) =~= buf);
    }
    assert(rd_u64(buf, p3) == (Ok::<u64, DecodeError>(o.seq), p4)) by {
        law_u64_round_trip(a + b + c, o.seq, e + f);
        assert(a + b + c + d + (e + f) =~= buf);
    }
    assert(rd_bytes(buf, p4) == (Ok::<Seq<u8>, DecodeError>(o.payload), p5)) by {
        law_bytes_round_trip(a + b + c + d, o.payload, f);
        assert(a + b + c + d + e + f =~= buf);
    }
    assert(rd_take(buf, p5, 64) == (Ok::<Seq<u8>, DecodeError>(f), p5 + 64)) by {
        assert(buf.subrange(p5, p5 + 64) =~= f);
    }
    assert(buf.len() == p5 + 64);
}

/// Bytes a reader accepts are exactly what the object it returns would be written as: an
/// object has one carried form, and nothing else decodes to it.
pub proof fn law_an_accepted_object_has_one_form(buf: Seq<u8>)
    requires
        object_from_wire(buf) is Ok,
    ensures
        object_wire(object_from_wire(buf)->Ok_0) == buf,
{
    let o = object_from_wire(buf)->Ok_0;
    let p1 = rd_str(buf, 0).1;
    let p2 = p1 + 32;
    let p3 = rd_opt_cid(buf, p2).1;
    let p4 = p3 + 8;
    let p5 = rd_bytes(buf, p4).1;
    law_bytes_canonical(buf, 0);
    let kb = rd_bytes(buf, 0).0->Ok_0;
    decode_utf8_encode_utf8(kb);
    assert(encode_utf8(o.kind) == kb);
    law_opt_cid_canonical(buf, p2);
    law_u64_canonical(buf, p3);
    law_bytes_canonical(buf, p4);
    assert(buf.subrange(p1, p2) =~= o.author_key);
    assert(buf.subrange(p5, p5 + 64) =~= o.signature);
    assert(buf =~= buf.subrange(0, p1) + buf.subrange(p1, p2) + buf.subrange(p2, p3)
        + buf.subrange(p3, p4) + buf.subrange(p4, p5) + buf.subrange(p5, p5 + 64));
}

/// How a version series resolves.
#[derive(Debug, Clone, PartialEq, Eq)]
pub enum Resolution {
    /// One current version.
    Head(Cid),
    /// The author signed two or more successors to the same version: equivocation, surfaced
    /// rather than silently resolved.
    Forked(Vec<Cid>),
    Unknown,
}

/// How a version series resolves, as values.
pub enum ResolutionView {
    Head(CidView),
    Forked(Seq<CidView>),
    Unknown,
}

impl View for Resolution {
    type V = ResolutionView;

    open spec fn view(&self) -> ResolutionView {
        match self {
            Resolution::Head(c) => ResolutionView::Head(c@),
            Resolution::Forked(v) => ResolutionView::Forked(v@.map_values(|c: Cid| c@)),
            Resolution::Unknown => ResolutionView::Unknown,
        }
    }
}

impl Resolution {
    /// The current version, when there is exactly one.
    pub fn head(&self) -> (r: Option<Cid>)
        ensures
            r == match self {
                Resolution::Head(c) => Some(*c),
                _ => None::<Cid>,
            },
    {
        match self {
            Resolution::Head(c) => Some(*c),
            _ => None,
        }
    }
}

} // verus!
