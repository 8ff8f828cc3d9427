//! The canonical encoding everything in the stack hashes and signs over.
//!
//! Deterministic, length-prefixed, one byte string per value. A decoder either reads exactly
//! one well-formed value or refuses; it never recovers.
use vstd::prelude::*;
use vstd::utf8::*;
use vstd::string::StringExecFns;

verus! {

broadcast use vstd::std_specs::vec::group_vec_axioms, vstd::utf8::group_utf8_lib;

// ---------------------------------------------------------------- fixed-width integers

/// Little-endian bytes of a `u64`.
pub open spec fn u64_le(v: u64) -> Seq<u8> {
    seq![
        (v & 0xff) as u8,
        ((v >> 8u64) & 0xff) as u8,
        ((v >> 16u64) & 0xff) as u8,
        ((v >> 24u64) & 0xff) as u8,
        ((v >> 32u64) & 0xff) as u8,
        ((v >> 40u64) & 0xff) as u8,
        ((v >> 48u64) & 0xff) as u8,
        ((v >> 56u64) & 0xff) as u8,
    ]
}

/// The `u64` whose little-endian bytes open `s`.
pub open spec fn le_u64(s: Seq<u8>) -> u64 {
    (s[0] as u64) | ((s[1] as u64) << 8u64) | ((s[2] as u64) << 16u64) | ((s[3] as u64)
        << 24u64) | ((s[4] as u64) << 32u64) | ((s[5] as u64) << 40u64) | ((s[6] as u64)
        << 48u64) | ((s[7] as u64) << 56u64)
}

/// Little-endian bytes of a `u32`.
pub open spec fn u32_le(v: u32) -> Seq<u8> {
    seq![
        (v & 0xff) as u8,
        ((v >> 8u32) & 0xff) as u8,
        ((v >> 16u32) & 0xff) as u8,
        ((v >> 24u32) & 0xff) as u8,
    ]
}

/// The `u32` whose little-endian bytes open `s`.
pub open spec fn le_u32(s: Seq<u8>) -> u32 {
    (s[0] as u32) | ((s[1] as u32) << 8u32) | ((s[2] as u32) << 16u32) | ((s[3] as u32)
        << 24u32)
}

/// Little-endian bytes of a `u16`.
pub open spec fn u16_le(v: u16) -> Seq<u8> {
    seq![(v & 0xff) as u8, ((v >> 8u16) & 0xff) as u8]
}

/// The `u16` whose little-endian bytes open `s`.
pub open spec fn le_u16(s: Seq<u8>) -> u16 {
    (s[0] as u16) | ((s[1] as u16) << 8u16)
}

/// The eight bytes of a `u64` read back as it.
pub proof fn lemma_u64_bytes(v: u64)
    ensures
        le_u64(u64_le(v)) == v,
{
    let b0 = (v & 0xff) as u8;
    let b1 = ((v >> 8u64) & 0xff) as u8;
    let b2 = ((v >> 16u64) & 0xff) as u8;
    let b3 = ((v >> 24u64) & 0xff) as u8;
    let b4 = ((v >> 32u64) & 0xff) as u8;
    let b5 = ((v >> 40u64) & 0xff) as u8;
    let b6 = ((v >> 48u64) & 0xff) as u8;
    let b7 = ((v >> 56u64) & 0xff) as u8;
    assert((b0 as u64) | ((b1 as u64) << 8u64) | ((b2 as u64) << 16u64) | ((b3 as u64) << 24u64)
        | ((b4 as u64) << 32u64) | ((b5 as u64) << 40u64) | ((b6 as u64) << 48u64) | ((b7 as u64)
        << 56u64) == v) by (bit_vector)
        requires
            b0 == (v & 0xff) as u8,
            b1 == ((v >> 8u64) & 0xff) as u8,
            b2 == ((v >> 16u64) & 0xff) as u8,
            b3 == ((v >> 24u64) & 0xff) as u8,
            b4 == ((v >> 32u64) & 0xff) as u8,
            b5 == ((v >> 40u64) & 0xff) as u8,
            b6 == ((v >> 48u64) & 0xff) as u8,
            b7 == ((v >> 56u64) & 0xff) as u8,
    ;
}

proof fn lemma_le_u64_canonical(s: Seq<u8>)
    requires
        s.len() == 8,
    ensures
        u64_le(le_u64(s)) == s,
{
    let (b0, b1, b2, b3, b4, b5, b6, b7) = (s[0], s[1], s[2], s[3], s[4], s[5], s[6], s[7]);
    let v = le_u64(s);
    assert(v == (b0 as u64) | ((b1 as u64) << 8u64) | ((b2 as u64) << 16u64) | ((b3 as u64)
        << 24u64) | ((b4 as u64) << 32u64) | ((b5 as u64) << 40u64) | ((b6 as u64) << 48u64) | ((
    b7 as u64) << 56u64));
    assert((v & 0xff) as u8 == b0 && ((v >> 8u64) & 0xff) as u8 == b1 && ((v >> 16u64) & 0xff) as u8
        == b2 && ((v >> 24u64) & 0xff) as u8 == b3 && ((v >> 32u64) & 0xff) as u8 == b4 && ((v
        >> 40u64) & 0xff) as u8 == b5 && ((v >> 48u64) & 0xff) as u8 == b6 && ((v >> 56u64)
        & 0xff) as u8 == b7) by (bit_vector)
        requires
            v == (b0 as u64) | ((b1 as u64) << 8u64) | ((b2 as u64) << 16u64) | ((b3 as u64)
                << 24u64) | ((b4 as u64) << 32u64) | ((b5 as u64) << 40u64) | ((b6 as u64)
                << 48u64) | ((b7 as u64) << 56u64),
    ;
    assert(u64_le(v) =~= s);
}

proof fn lemma_u32_bytes(v: u32)
    ensures
        le_u32(u32_le(v)) == v,
{
    let b0 = (v & 0xff) as u8;
    let b1 = ((v >> 8u32) & 0xff) as u8;
    let b2 = ((v >> 16u32) & 0xff) as u8;
    let b3 = ((v >> 24u32) & 0xff) as u8;
    assert((b0 as u32) | ((b1 as u32) << 8u32) | ((b2 as u32) << 16u32) | ((b3 as u32) << 24u32)
        == v) by (bit_vector)
        requires
            b0 == (v & 0xff) as u8,
            b1 == ((v >> 8u32) & 0xff) as u8,
            b2 == ((v >> 16u32) & 0xff) as u8,
            b3 == ((v >> 24u32) & 0xff) as u8,
    ;
}

proof fn lemma_le_u32_canonical(s: Seq<u8>)
    requires
        s.len() == 4,
    ensures
        u32_le(le_u32(s)) == s,
{
    let (b0, b1, b2, b3) = (s[0], s[1], s[2], s[3]);
    let v = le_u32(s);
    assert((v & 0xff) as u8 == b0 && ((v >> 8u32) & 0xff) as u8 == b1 && ((v >> 16u32) & 0xff) as u8
        == b2 && ((v >> 24u32) & 0xff) as u8 == b3) by (bit_vector)
        requires
            v == (b0 as u32) | ((b1 as u32) << 8u32) | ((b2 as u32) << 16u32) | ((b3 as u32)
                << 24u32),
    ;
    assert(u32_le(v) =~= s);
}

pub proof fn lemma_u16_bytes(v: u16)
    ensures
        le_u16(u16_le(v)) == v,
{
    let b0 = (v & 0xff) as u8;
    let b1 = ((v >> 8u16) & 0xff) as u8;
    assert((b0 as u16) | ((b1 as u16) << 8u16) == v) by (bit_vector)
        requires
            b0 == (v & 0xff) as u8,
            b1 == ((v >> 8u16) & 0xff) as u8,
    ;
}

/// Two bytes read as a `u16` are the bytes that `u16` is written as.
pub proof fn lemma_le_u16_canonical(s: Seq<u8>)
    requires
        s.len() == 2,
    ensures
        u16_le(le_u16(s)) == s,
{
    let (b0, b1) = (s[0], s[1]);
    let v = le_u16(s);
    assert((v & 0xff) as u8 == b0 && ((v >> 8u16) & 0xff) as u8 == b1) by (bit_vector)
        requires
            v == (b0 as u16) | ((b1 as u16) << 8u16),
    ;
    assert(u16_le(v) =~= s);
}

/// Writes the little-endian bytes of `v` after what `out` holds.
pub fn push_u64_le(out: &mut Vec<u8>, v: u64)
    ensures
        final(out)@ == old(out)@ + u64_le(v),
{
    out.push((v & 0xff) as u8);
    out.push(((v >> 8) & 0xff) as u8);
    out.push(((v >> 16) & 0xff) as u8);
    out.push(((v >> 24) & 0xff) as u8);
    out.push(((v >> 32) & 0xff) as u8);
    out.push(((v >> 40) & 0xff) as u8);
    out.push(((v >> 48) & 0xff) as u8);
    out.push(((v >> 56) & 0xff) as u8);
    assert(out@ =~= old(out)@ + u64_le(v));
}

/// Writes the little-endian bytes of `v` after what `out` holds.
pub fn push_u32_le(out: &mut Vec<u8>, v: u32)
    ensures
        final(out)@ == old(out)@ + u32_le(v),
{
    out.push((v & 0xff) as u8);
    out.push(((v >> 8) & 0xff) as u8);
    out.push(((v >> 16) & 0xff) as u8);
    out.push(((v >> 24) & 0xff) as u8);
    assert(out@ =~= old(out)@ + u32_le(v));
}

/// Appends every byte of `b` to `out`.
pub fn push_all(out: &mut Vec<u8>, b: &[u8])
    ensures
        final(out)@ == old(out)@ + b@,
{
    let mut i: usize = 0;
    while i < b.len()
        invariant
            i <= b@.len(),
            out@ == old(out)@ + b@.subrange(0, i as int),
        decreases b@.len() - i,
    {
        out.push(b[i]);
        i = i + 1;
        assert(out@ =~= old(out)@ + b@.subrange(0, i as int));
    }
    assert(b@.subrange(0, b@.len() as int) =~= b@);
}

/// Whether two byte strings are equal.
pub fn bytes_equal(a: &[u8], b: &[u8]) -> (r: bool)
    ensures
        r == (a@ == b@),
{
    if a.len() != b.len() {
        return false;
    }
    let mut i: usize = 0;
    while i < a.len()
        invariant
            a@.len() == b@.len(),
            i <= a@.len(),
            forall|j: int| 0 <= j < i ==> a@[j] == b@[j],
        decreases a@.len() - i,
    {
        if a[i] != b[i] {
            return false;
        }
        i = i + 1;
    }
    assert(a@ =~= b@);
    true
}

// ---------------------------------------------------------------- BLAKE3

/// What BLAKE3 hashes `data` to: its 32-byte default output.
pub uninterp spec fn blake3_digest(data: Seq<u8>) -> Seq<u8>;

/// Calls `blake3::hash` and returns the 32 digest bytes.
///
/// Claims only that the result is the named BLAKE3 digest of the input, so equal inputs give
/// equal digests. No property of the hash function itself is claimed.
#[verifier::external_body]
pub(crate) fn blake3_hash(data: &[u8]) -> (out: [u8; 32])
    ensures
        out@ == blake3_digest(data@),
{
    *blake3::hash(data).as_bytes()
}

/// The first `n` bytes of BLAKE3's extendable output for `data`.
pub uninterp spec fn blake3_xof_bytes(data: Seq<u8>, n: nat) -> Seq<u8>;

/// Hashes `data` with a `blake3::Hasher` and fills `n` bytes from `finalize_xof`.
///
/// Claims that the bytes are the named extendable output of the input, `n` of them. No
/// property of the hash function itself is claimed.
#[verifier::external_body]
pub(crate) fn blake3_xof(data: &[u8], n: usize) -> (out: Vec<u8>)
    ensures
        out@ == blake3_xof_bytes(data@, n as nat),
        out@.len() == n,
{
    let mut h = blake3::Hasher::new();
    h.update(data);
    let mut out = vec![0u8; n];
    h.finalize_xof().fill(&mut out);
    out
}

// ---------------------------------------------------------------- addresses

/// An address: 32 bytes naming an identity, the hash of its public key.
#[derive(Clone, Copy, Debug, PartialEq, Eq, PartialOrd, Ord, Hash)]
pub struct Address {
    bytes: [u8; 32],
}

impl View for Address {
    type V = Seq<u8>;

    closed spec fn view(&self) -> Seq<u8> {
        self.bytes@
    }
}

impl Address {
    pub fn from_raw(bytes: [u8; 32]) -> (a: Address)
        ensures
            a@ == bytes@,
    {
        Address { bytes }
    }

    pub fn as_bytes(&self) -> (b: &[u8; 32])
        ensures
            b@ == self@,
    {
        &self.bytes
    }

    pub proof fn lemma_len(&self)
        ensures
            self@.len() == 32,
    {
    }

    /// Whether two addresses name the same identity.
    pub fn same(&self, other: &Address) -> (r: bool)
        ensures
            r == (self@ == other@),
    {
        bytes_equal(self.bytes.as_slice(), other.bytes.as_slice())
    }
}

// ---------------------------------------------------------------- content identifiers

/// Largest digest any algorithm may produce.
pub const MAX_DIGEST: usize = 64;

/// Hash algorithm identifiers. A content address says which function produced it.
#[derive(Clone, Copy, Debug, PartialEq, Eq, PartialOrd, Ord)]
pub enum HashAlg {
    Blake3,
}

/// The tag byte naming each algorithm on the wire.
pub open spec fn alg_tag(a: HashAlg) -> u8 {
    match a {
        HashAlg::Blake3 => 1,
    }
}

/// The digest length each algorithm produces.
pub open spec fn alg_digest_len(a: HashAlg) -> nat {
    match a {
        HashAlg::Blake3 => 32,
    }
}

/// The algorithm a tag byte names, if any.
pub open spec fn alg_from_tag(t: u8) -> Option<HashAlg> {
    if t == 1 {
        Some(HashAlg::Blake3)
    } else {
        None
    }
}

/// The algorithm new content is named with.
pub const CURRENT_HASH: HashAlg = HashAlg::Blake3;

impl HashAlg {
    pub fn from_tag(t: u8) -> (r: Option<HashAlg>)
        ensures
            r == alg_from_tag(t),
    {
        if t == 1 {
            Some(HashAlg::Blake3)
        } else {
            None
        }
    }

    pub fn digest_len(&self) -> (n: usize)
        ensures
            n == alg_digest_len(*self),
    {
        match self {
            HashAlg::Blake3 => 32,
        }
    }

    /// The tag byte this algorithm is written as.
    pub fn tag(&self) -> (t: u8)
        ensures
            t == alg_tag(*self),
    {
        match self {
            HashAlg::Blake3 => 1,
        }
    }
}

/// A content identifier: an algorithm tag and the digest it produced.
#[derive(Clone, Copy, PartialEq, Eq, Hash, PartialOrd, Ord, Debug)]
pub struct Cid {
    alg: u8,
    len: u8,
    /// Zero past `len`, so the derived comparisons agree with the view.
    digest: [u8; 64],
}

/// The value a content identifier stands for.
pub struct CidView {
    pub alg: u8,
    pub digest: Seq<u8>,
}

/// The canonical encoding of a content identifier: tag, length, digest.
pub open spec fn enc_cid(c: CidView) -> Seq<u8> {
    seq![c.alg, c.digest.len() as u8] + c.digest
}

/// The bytes identifiers sort by: tag, length, then the digest padded with zeros to 64 bytes.
pub open spec fn cid_key(c: CidView) -> Seq<u8> {
    seq![c.alg, c.digest.len() as u8] + c.digest + Seq::new((64 - c.digest.len()) as nat, |i: int| 0u8)
}

/// Identifiers with equal sort keys are equal.
pub proof fn lemma_cid_key_injective(a: CidView, b: CidView)
    requires
        a.digest.len() <= 64,
        b.digest.len() <= 64,
        cid_key(a) == cid_key(b),
    ensures
        a == b,
        cid_key(a).len() == 66,
{
    assert(cid_key(a)[0] == a.alg && cid_key(b)[0] == b.alg);
    assert(cid_key(a)[1] == a.digest.len() as u8 && cid_key(b)[1] == b.digest.len() as u8);
    assert(a.digest.len() == b.digest.len());
    assert forall|i: int| 0 <= i < a.digest.len() implies a.digest[i] == b.digest[i] by {
        assert(cid_key(a)[i + 2] == a.digest[i]);
        assert(cid_key(b)[i + 2] == b.digest[i]);
    }
    assert(a.digest =~= b.digest);
}

/// A content identifier whose tag names a known algorithm and whose digest has its length.
pub open spec fn cid_well_formed(c: CidView) -> bool {
    &&& alg_from_tag(c.alg) is Some
    &&& c.digest.len() == alg_digest_len(alg_from_tag(c.alg)->0)
}

impl View for Cid {
    type V = CidView;

    closed spec fn view(&self) -> CidView {
        CidView { alg: self.alg, digest: self.digest@.subrange(0, self.len as int) }
    }
}

impl Cid {
    #[verifier::type_invariant]
    closed spec fn inv(self) -> bool {
        &&& self.len <= 64
        &&& forall|i: int| self.len <= i < 64 ==> self.digest@[i] == 0u8
    }

    /// The content identifier of `bytes` under the current algorithm.
    pub fn of(bytes: &[u8]) -> (c: Cid)
        ensures
            c@.alg == 1,
            c@.digest == blake3_digest(bytes@),
            cid_well_formed(c@),
    {
        let h = blake3_hash(bytes);
        let mut digest = [0u8; 64];
        let mut i: usize = 0;
        while i < 32
            invariant
                i <= 32,
                forall|j: int| 0 <= j < i ==> digest@[j] == h@[j],
                forall|j: int| i <= j < 64 ==> digest@[j] == 0u8,
            decreases 32 - i,
        {
            digest[i] = h[i];
            i = i + 1;
        }
        let c = Cid { alg: 1, len: 32, digest };
        assert(c@.digest =~= h@);
        c
    }

    /// Reconstruct from parts, rejecting an unknown algorithm or a length that disagrees.
    pub fn from_parts(alg: u8, digest: &[u8]) -> (r: Option<Cid>)
        ensures
            r is Some <==> (alg_from_tag(alg) is Some && digest@.len() == alg_digest_len(
                alg_from_tag(alg)->0,
            )),
            r matches Some(c) ==> c@.alg == alg && c@.digest == digest@,
    {
        let a = match HashAlg::from_tag(alg) {
            Some(a) => a,
            None => return None,
        };
        if digest.len() != a.digest_len() || digest.len() > MAX_DIGEST {
            return None;
        }
        let mut buf = [0u8; 64];
        let mut i: usize = 0;
        while i < digest.len()
            invariant
                digest@.len() <= 64,
                i <= digest@.len(),
                forall|j: int| 0 <= j < i ==> buf@[j] == digest@[j],
                forall|j: int| i <= j < 64 ==> buf@[j] == 0u8,
            decreases digest@.len() - i,
        {
            buf[i] = digest[i];
            i = i + 1;
        }
        let c = Cid { alg, len: digest.len() as u8, digest: buf };
        assert(c@.digest =~= digest@);
        Some(c)
    }

    pub fn alg(&self) -> (r: Option<HashAlg>)
        ensures
            r == alg_from_tag(self@.alg),
    {
        HashAlg::from_tag(self.alg)
    }

    /// The digest bytes, without the algorithm tag.
    pub fn as_bytes(&self) -> (b: &[u8])
        ensures
            b@ == self@.digest,
    {
        proof {
            use_type_invariant(self);
        }
        let s = self.digest.as_slice();
        &s[0..self.len as usize]
    }

    /// The bytes identifiers sort by: tag, length, then the digest padded with zeros to the
    /// longest digest. Ordering by them is ordering by tag, then length, then digest.
    pub fn sort_key(&self) -> (k: [u8; 66])
        ensures
            k@ == cid_key(self@),
            self@.digest.len() <= MAX_DIGEST,
    {
        proof {
            use_type_invariant(self);
        }
        let mut k = [0u8; 66];
        k[0] = self.alg;
        k[1] = self.len;
        let mut i: usize = 0;
        while i < 64
            invariant
                i <= 64,
                k@[0] == self.alg,
                k@[1] == self.len,
                forall|j: int| 0 <= j < i ==> k@[j + 2] == self.digest@[j],
            decreases 64 - i,
        {
            k[i + 2] = self.digest[i];
            i = i + 1;
        }
        let ghost key = cid_key(self@);
        assert(key.len() == 66);
        assert forall|j: int| 0 <= j < 66 implies k@[j] == key[j] by {
            if j >= 2 {
                let d = j - 2;
                assert(k@[d + 2] == self.digest@[d]);
                if j - 2 < self.len {
                    assert(key[j] == self@.digest[j - 2]);
                } else {
                    assert(key[j] == 0u8);
                }
            }
        }
        assert(k@ =~= key);
        k
    }

    /// Whether two identifiers name the same content.
    /// A short form for people to read: `c:` and the first five bytes of the digest, padded
    /// with zeros, in hexadecimal.
    pub fn short(&self) -> (s: String)
        ensures
            s@ == short_name(self@),
    {
        proof {
            use_type_invariant(self);
            reveal_strlit("c:");
        }
        let mut out = String::from_str("c:");
        let mut i: usize = 0;
        while i < 5
            invariant
                i <= 5,
                self.len <= 64,
                forall|j: int| self.len <= j < 64 ==> self.digest@[j] == 0u8,
                out@ == seq!['c', ':'] + hex_of(self.digest@.subrange(0, i as int)),
            decreases 5 - i,
        {
            let b = self.digest[i];
            out.append(nibble(b / 16));
            out.append(nibble(b % 16));
            assert(self.digest@.subrange(0, i + 1).drop_last() =~= self.digest@.subrange(0, i as int));
            i = i + 1;
        }
        assert(cid_key(self@).subrange(2, 7) =~= self.digest@.subrange(0, 5));
        out
    }

    pub fn same(&self, other: &Cid) -> (r: bool)
        ensures
            r == (self@ == other@),
    {
        let r = self.alg == other.alg && bytes_equal(self.as_bytes(), other.as_bytes());
        proof {
            if !r && self.alg == other.alg {
                assert(self@.digest != other@.digest);
            }
        }
        r
    }
}

// ---------------------------------------------------------------- short names

/// The lowercase hexadecimal digit for a value below sixteen.
pub open spec fn hex_digit(n: int) -> char {
    if n < 10 {
        (48 + n) as char
    } else {
        (87 + n) as char
    }
}

/// Bytes as lowercase hexadecimal, two digits each, high digit first.
pub open spec fn hex_of(b: Seq<u8>) -> Seq<char>
    decreases b.len(),
{
    if b.len() == 0 {
        Seq::empty()
    } else {
        hex_of(b.drop_last()) + seq![hex_digit(b.last() as int / 16), hex_digit(b.last() as int % 16)]
    }
}

fn nibble(n: u8) -> (s: &'static str)
    requires
        n < 16,
    ensures
        s@ == seq![hex_digit(n as int)],
{
    match n {
        0 => {
            proof {
                reveal_strlit("0");
            }
            "0"
        },
        1 => {
            proof {
                reveal_strlit("1");
            }
            "1"
        },
        2 => {
            proof {
                reveal_strlit("2");
            }
            "2"
        },
        3 => {
            proof {
                reveal_strlit("3");
            }
            "3"
        },
        4 => {
            proof {
                reveal_strlit("4");
            }
            "4"
        },
        5 => {
            proof {
                reveal_strlit("5");
            }
            "5"
        },
        6 => {
            proof {
                reveal_strlit("6");
            }
            "6"
        },
        7 => {
            proof {
                reveal_strlit("7");
            }
            "7"
        },
        8 => {
            proof {
                reveal_strlit("8");
            }
            "8"
        },
        9 => {
            proof {
                reveal_strlit("9");
            }
            "9"
        },
        10 => {
            proof {
                reveal_strlit("a");
            }
            "a"
        },
        11 => {
            proof {
                reveal_strlit("b");
            }
            "b"
        },
        12 => {
            proof {
                reveal_strlit("c");
            }
            "c"
        },
        13 => {
            proof {
                reveal_strlit("d");
            }
            "d"
        },
        14 => {
            proof {
                reveal_strlit("e");
            }
            "e"
        },
        15 => {
            proof {
                reveal_strlit("f");
            }
            "f"
        },
        _ => {
            proof {
                reveal_strlit("f");
            }
            "f"
        },
    }
}

/// `c:` and the first five digest bytes in hexadecimal, for people to read.
pub open spec fn short_name(c: CidView) -> Seq<char> {
    seq!['c', ':'] + hex_of(cid_key(c).subrange(2, 7))
}

// ---------------------------------------------------------------- encoder

/// Length-prefixed bytes: the length as four little-endian bytes, then the bytes.
pub open spec fn enc_bytes(b: Seq<u8>) -> Seq<u8> {
    u32_le(b.len() as u32) + b
}

/// An optional content identifier: a presence byte, then the identifier if present.
pub open spec fn enc_opt_cid(c: Option<CidView>) -> Seq<u8> {
    match c {
        Some(v) => seq![1u8] + enc_cid(v),
        None => seq![0u8],
    }
}

/// A boolean as one byte.
pub open spec fn enc_bool(v: bool) -> Seq<u8> {
    if v {
        seq![1u8]
    } else {
        seq![0u8]
    }
}

/// Deterministic canonical encoder. One value, one byte string, always.
pub struct Enc {
    buf: Vec<u8>,
}

impl View for Enc {
    type V = Seq<u8>;

    closed spec fn view(&self) -> Seq<u8> {
        self.buf@
    }
}

impl Enc {
    pub fn new() -> (e: Self)
        ensures
            e@ == Seq::<u8>::empty(),
    {
        Enc { buf: Vec::new() }
    }

    pub fn u8(&mut self, v: u8) -> (r: &mut Self)
        ensures
            r@ == old(self)@.push(v),
            final(self)@ == final(r)@,
    {
        self.buf.push(v);
        self
    }

    pub fn u64(&mut self, v: u64) -> (r: &mut Self)
        ensures
            r@ == old(self)@ + u64_le(v),
            final(self)@ == final(r)@,
    {
        push_u64_le(&mut self.buf, v);
        self
    }

    /// Two's complement, little-endian.
    pub fn i64(&mut self, v: i64) -> (r: &mut Self)
        ensures
            r@ == old(self)@ + u64_le(v as u64),
            final(self)@ == final(r)@,
    {
        push_u64_le(&mut self.buf, v as u64);
        self
    }

    pub fn bool(&mut self, v: bool) -> (r: &mut Self)
        ensures
            r@ == old(self)@ + enc_bool(v),
            final(self)@ == final(r)@,
    {
        self.buf.push(if v { 1u8 } else { 0u8 });
        assert(self.buf@ =~= old(self)@ + enc_bool(v));
        self
    }

    /// Length-prefixed raw bytes. The prefix is the length taken modulo 2^32.
    pub fn bytes(&mut self, b: &[u8]) -> (r: &mut Self)
        ensures
            r@ == old(self)@ + enc_bytes(b@),
            final(self)@ == final(r)@,
    {
        push_u32_le(&mut self.buf, b.len() as u32);
        push_all(&mut self.buf, b);
        assert(self.buf@ =~= old(self)@ + enc_bytes(b@));
        self
    }

    /// A string, as its UTF-8 bytes, length-prefixed.
    pub fn str(&mut self, s: &str) -> (r: &mut Self)
        ensures
            r@ == old(self)@ + enc_bytes(encode_utf8(s@)),
            final(self)@ == final(r)@,
    {
        self.bytes(s.as_bytes())
    }

    /// Self-describing: algorithm tag, then length, then digest.
    pub fn cid(&mut self, c: &Cid) -> (r: &mut Self)
        ensures
            r@ == old(self)@ + enc_cid(c@),
            final(self)@ == final(r)@,
    {
        proof {
            use_type_invariant(c);
        }
        self.buf.push(c.alg);
        self.buf.push(c.len);
        push_all(&mut self.buf, c.as_bytes());
        assert(self.buf@ =~= old(self)@ + enc_cid(c@));
        self
    }

    pub fn opt_cid(&mut self, c: Option<&Cid>) -> (r: &mut Self)
        ensures
            r@ == old(self)@ + enc_opt_cid(
                match c {
                    Some(v) => Some(v@),
                    None => None,
                },
            ),
            final(self)@ == final(r)@,
    {
        match c {
            Some(v) => {
                self.buf.push(1u8);
                let ghost mid = self.buf@;
                let r = self.cid(v);
                assert(r@ =~= old(self)@ + enc_opt_cid(Some(v@)));
                r
            },
            None => {
                self.buf.push(0u8);
                assert(self.buf@ =~= old(self)@ + enc_opt_cid(None));
                self
            },
        }
    }

    /// Raw bytes of a width both sides know, with no prefix.
    pub fn raw(&mut self, b: &[u8]) -> (r: &mut Self)
        ensures
            r@ == old(self)@ + b@,
            final(self)@ == final(r)@,
    {
        push_all(&mut self.buf, b);
        self
    }

    pub fn addr(&mut self, a: &Address) -> (r: &mut Self)
        ensures
            r@ == old(self)@ + a@,
            final(self)@ == final(r)@,
    {
        push_all(&mut self.buf, a.as_bytes().as_slice());
        self
    }

    pub fn finish(&self) -> (out: Vec<u8>)
        ensures
            out@ == self@,
    {
        self.buf.clone()
    }

    /// The content identifier of everything written so far.
    pub fn hash(&self) -> (c: Cid)
        ensures
            c@.alg == 1,
            c@.digest == blake3_digest(self@),
    {
        Cid::of(self.buf.as_slice())
    }
}


// ---------------------------------------------------------------- decoder

#[derive(Debug, Clone, PartialEq, Eq)]
pub enum DecodeError {
    /// Input ended before the value did.
    Truncated,
    /// Bytes remained after the value was complete. Rejected, never ignored.
    TrailingBytes,
    /// A tag byte was not one of the defined values.
    UnknownTag(u8),
    /// A string field was not valid UTF-8.
    BadUtf8,
}

impl DecodeError {
    /// A human-readable description.
    pub fn describe(&self) -> (s: &'static str)
        ensures
            s@ == match self {
                DecodeError::Truncated => "input truncated"@,
                DecodeError::TrailingBytes => "trailing bytes after value"@,
                DecodeError::UnknownTag(_) => "unknown tag byte"@,
                DecodeError::BadUtf8 => "invalid utf-8 in string field"@,
            },
    {
        match self {
            DecodeError::Truncated => "input truncated",
            DecodeError::TrailingBytes => "trailing bytes after value",
            DecodeError::UnknownTag(_) => "unknown tag byte",
            DecodeError::BadUtf8 => "invalid utf-8 in string field",
        }
    }
}

/// Reading `n` bytes at `pos`: the bytes and the position after them, or `Truncated` with the
/// position unchanged.
pub open spec fn rd_take(buf: Seq<u8>, pos: int, n: int) -> (Result<Seq<u8>, DecodeError>, int) {
    if pos + n <= buf.len() {
        (Ok(buf.subrange(pos, pos + n)), pos + n)
    } else {
        (Err(DecodeError::Truncated), pos)
    }
}

pub open spec fn rd_u8(buf: Seq<u8>, pos: int) -> (Result<u8, DecodeError>, int) {
    if pos < buf.len() {
        (Ok(buf[pos]), pos + 1)
    } else {
        (Err(DecodeError::Truncated), pos)
    }
}

pub open spec fn rd_u64(buf: Seq<u8>, pos: int) -> (Result<u64, DecodeError>, int) {
    match rd_take(buf, pos, 8) {
        (Ok(b), p) => (Ok(le_u64(b)), p),
        (Err(e), p) => (Err(e), p),
    }
}

pub open spec fn rd_bool(buf: Seq<u8>, pos: int) -> (Result<bool, DecodeError>, int) {
    match rd_u8(buf, pos) {
        (Ok(0u8), p) => (Ok(false), p),
        (Ok(1u8), p) => (Ok(true), p),
        (Ok(t), p) => (Err(DecodeError::UnknownTag(t)), p),
        (Err(e), p) => (Err(e), p),
    }
}

pub open spec fn rd_bytes(buf: Seq<u8>, pos: int) -> (Result<Seq<u8>, DecodeError>, int) {
    match rd_take(buf, pos, 4) {
        (Ok(n), p) => rd_take(buf, p, le_u32(n) as int),
        (Err(e), p) => (Err(e), p),
    }
}

pub open spec fn rd_str(buf: Seq<u8>, pos: int) -> (Result<Seq<char>, DecodeError>, int) {
    match rd_bytes(buf, pos) {
        (Ok(b), p) => if valid_utf8(b) {
            (Ok(decode_utf8(b)), p)
        } else {
            (Err(DecodeError::BadUtf8), p)
        },
        (Err(e), p) => (Err(e), p),
    }
}

pub open spec fn rd_cid(buf: Seq<u8>, pos: int) -> (Result<CidView, DecodeError>, int) {
    match rd_u8(buf, pos) {
        (Err(e), p) => (Err(e), p),
        (Ok(alg), p1) => match rd_u8(buf, p1) {
            (Err(e), p) => (Err(e), p),
            (Ok(len), p2) => if len > 64 {
                (Err(DecodeError::Truncated), p2)
            } else {
                match rd_take(buf, p2, len as int) {
                    (Err(e), p) => (Err(e), p),
                    (Ok(d), p3) => if cid_well_formed(CidView { alg, digest: d }) {
                        (Ok(CidView { alg, digest: d }), p3)
                    } else {
                        (Err(DecodeError::UnknownTag(alg)), p3)
                    },
                }
            },
        },
    }
}

pub open spec fn rd_opt_cid(buf: Seq<u8>, pos: int) -> (Result<Option<CidView>, DecodeError>, int) {
    match rd_u8(buf, pos) {
        (Err(e), p) => (Err(e), p),
        (Ok(0u8), p) => (Ok(None), p),
        (Ok(1u8), p) => match rd_cid(buf, p) {
            (Ok(c), q) => (Ok(Some(c)), q),
            (Err(e), q) => (Err(e), q),
        },
        (Ok(t), p) => (Err(DecodeError::UnknownTag(t)), p),
    }
}

/// Canonical decoder. Anything that is not exactly one well-formed value is an error.
pub struct Dec<'a> {
    buf: &'a [u8],
    pos: usize,
}

impl<'a> Dec<'a> {
    #[verifier::type_invariant]
    closed spec fn inv(self) -> bool {
        self.pos <= self.buf@.len()
    }

    /// The bytes being decoded.
    pub closed spec fn input(&self) -> Seq<u8> {
        self.buf@
    }

    /// How far decoding has read.
    pub closed spec fn at(&self) -> int {
        self.pos as int
    }

    pub fn new(buf: &'a [u8]) -> (d: Self)
        ensures
            d.input() == buf@,
            d.at() == 0,
    {
        Dec { buf, pos: 0 }
    }

    fn take(&mut self, n: usize) -> (r: Result<&'a [u8], DecodeError>)
        ensures
            final(self).input() == old(self).input(),
            (match r {
                Ok(s) => Ok(s@),
                Err(e) => Err(e),
            }, final(self).at()) == rd_take(old(self).input(), old(self).at(), n as int),
    {
        proof {
            use_type_invariant(&*self);
        }
        let total = self.buf.len();
        let end = match self.pos.checked_add(n) {
            Some(e) => e,
            None => return Err(DecodeError::Truncated),
        };
        if end > total {
            return Err(DecodeError::Truncated);
        }
        let out = &self.buf[self.pos..end];
        self.pos = end;
        Ok(out)
    }

    /// Exactly `n` raw bytes, with no prefix.
    pub fn raw(&mut self, n: usize) -> (r: Result<&'a [u8], DecodeError>)
        ensures
            final(self).input() == old(self).input(),
            (match r {
                Ok(s) => Ok(s@),
                Err(e) => Err(e),
            }, final(self).at()) == rd_take(old(self).input(), old(self).at(), n as int),
    {
        self.take(n)
    }

    pub fn u8(&mut self) -> (r: Result<u8, DecodeError>)
        ensures
            final(self).input() == old(self).input(),
            (r, final(self).at()) == rd_u8(old(self).input(), old(self).at()),
    {
        let b = self.take(1)?;
        Ok(b[0])
    }

    pub fn u64(&mut self) -> (r: Result<u64, DecodeError>)
        ensures
            final(self).input() == old(self).input(),
            (r, final(self).at()) == rd_u64(old(self).input(), old(self).at()),
    {
        let b = self.take(8)?;
        let v = (b[0] as u64) | ((b[1] as u64) << 8) | ((b[2] as u64) << 16) | ((b[3] as u64)
            << 24) | ((b[4] as u64) << 32) | ((b[5] as u64) << 40) | ((b[6] as u64) << 48) | ((
        b[7] as u64) << 56);
        Ok(v)
    }

    /// Two's complement, little-endian.
    pub fn i64(&mut self) -> (r: Result<i64, DecodeError>)
        ensures
            final(self).input() == old(self).input(),
            (match r {
                Ok(v) => Ok(v as u64),
                Err(e) => Err(e),
            }, final(self).at()) == rd_u64(old(self).input(), old(self).at()),
    {
        let v = self.u64()?;
        let s = v as i64;
        assert(s as u64 == v) by (bit_vector)
            requires
                s == v as i64,
        ;
        Ok(s)
    }

    pub fn bool(&mut self) -> (r: Result<bool, DecodeError>)
        ensures
            final(self).input() == old(self).input(),
            (r, final(self).at()) == rd_bool(old(self).input(), old(self).at()),
    {
        let t = self.u8()?;
        if t == 0 {
            Ok(false)
        } else if t == 1 {
            Ok(true)
        } else {
            Err(DecodeError::UnknownTag(t))
        }
    }

    pub fn bytes(&mut self) -> (r: Result<&'a [u8], DecodeError>)
        ensures
            final(self).input() == old(self).input(),
            (match r {
                Ok(s) => Ok(s@),
                Err(e) => Err(e),
            }, final(self).at()) == rd_bytes(old(self).input(), old(self).at()),
    {
        let n = self.take(4)?;
        let len = ((n[0] as u32) | ((n[1] as u32) << 8) | ((n[2] as u32) << 16) | ((n[3] as u32)
            << 24)) as usize;
        self.take(len)
    }

    pub fn str(&mut self) -> (r: Result<String, DecodeError>)
        ensures
            final(self).input() == old(self).input(),
            (match r {
                Ok(s) => Ok(s@),
                Err(e) => Err(e),
            }, final(self).at()) == rd_str(old(self).input(), old(self).at()),
    {
        let b = self.bytes()?;
        match utf8_str(b) {
            Some(s) => Ok(s.to_owned()),
            None => Err(DecodeError::BadUtf8),
        }
    }

    pub fn cid(&mut self) -> (r: Result<Cid, DecodeError>)
        ensures
            final(self).input() == old(self).input(),
            (match r {
                Ok(c) => Ok(c@),
                Err(e) => Err(e),
            }, final(self).at()) == rd_cid(old(self).input(), old(self).at()),
    {
        let alg = self.u8()?;
        let len = self.u8()?;
        if len > 64 {
            return Err(DecodeError::Truncated);
        }
        let b = self.take(len as usize)?;
        match Cid::from_parts(alg, b) {
            Some(c) => Ok(c),
            None => Err(DecodeError::UnknownTag(alg)),
        }
    }

    pub fn addr(&mut self) -> (r: Result<Address, DecodeError>)
        ensures
            final(self).input() == old(self).input(),
            (match r {
                Ok(a) => Ok(a@),
                Err(e) => Err(e),
            }, final(self).at()) == rd_take(old(self).input(), old(self).at(), 32),
    {
        let b = self.take(32)?;
        let mut raw = [0u8; 32];
        let mut i: usize = 0;
        while i < 32
            invariant
                b@.len() == 32,
                i <= 32,
                forall|j: int| 0 <= j < i ==> raw@[j] == b@[j],
            decreases 32 - i,
        {
            raw[i] = b[i];
            i = i + 1;
        }
        assert(raw@ =~= b@);
        Ok(Address::from_raw(raw))
    }

    pub fn opt_cid(&mut self) -> (r: Result<Option<Cid>, DecodeError>)
        ensures
            final(self).input() == old(self).input(),
            (match r {
                Ok(Some(c)) => Ok(Some(c@)),
                Ok(None) => Ok(None),
                Err(e) => Err(e),
            }, final(self).at()) == rd_opt_cid(old(self).input(), old(self).at()),
    {
        let t = self.u8()?;
        if t == 0 {
            Ok(None)
        } else if t == 1 {
            let c = self.cid()?;
            Ok(Some(c))
        } else {
            Err(DecodeError::UnknownTag(t))
        }
    }

    /// Consume the decoder, rejecting any unread bytes.
    pub fn end(self) -> (r: Result<(), DecodeError>)
        ensures
            r is Ok <==> self.at() == self.input().len(),
            r matches Err(e) ==> e == DecodeError::TrailingBytes,
    {
        if self.pos == self.buf.len() {
            Ok(())
        } else {
            Err(DecodeError::TrailingBytes)
        }
    }
}

/// Calls `core::str::from_utf8`, keeping the string when the bytes are valid UTF-8.
///
/// Claims what the standard library documents: the bytes are accepted exactly when they are
/// valid UTF-8, and the string holds the characters they encode.
#[verifier::external_body]
fn utf8_str(b: &[u8]) -> (r: Option<&str>)
    ensures
        r is Some <==> valid_utf8(b@),
        r matches Some(s) ==> s@ == decode_utf8(b@),
{
    core::str::from_utf8(b).ok()
}


// ---------------------------------------------------------------- laws of the encoding

/// Reading a `u64` where one was written gives back the value written, and consumes exactly
/// its eight bytes.
pub proof fn law_u64_round_trip(before: Seq<u8>, v: u64, after: Seq<u8>)
    ensures
        rd_u64(before + u64_le(v) + after, before.len() as int) == (
            Ok::<u64, DecodeError>(v),
            (before.len() + 8) as int,
        ),
{
    let buf = before + u64_le(v) + after;
    assert(buf.subrange(before.len() as int, before.len() + 8int) =~= u64_le(v));
    lemma_u64_bytes(v);
}

/// A `u64` the decoder accepts is the canonical encoding of the value it returns.
pub proof fn law_u64_canonical(buf: Seq<u8>, pos: int)
    requires
        0 <= pos,
        rd_u64(buf, pos).0 is Ok,
    ensures
        buf.subrange(pos, rd_u64(buf, pos).1) == u64_le(rd_u64(buf, pos).0->Ok_0),
{
    lemma_le_u64_canonical(buf.subrange(pos, pos + 8));
}

/// Reading a boolean where one was written gives back the value written.
pub proof fn law_bool_round_trip(before: Seq<u8>, v: bool, after: Seq<u8>)
    ensures
        rd_bool(before + enc_bool(v) + after, before.len() as int) == (
            Ok::<bool, DecodeError>(v),
            (before.len() + 1) as int,
        ),
{
    let buf = before + enc_bool(v) + after;
    assert(buf[before.len() as int] == enc_bool(v)[0]);
}

/// A boolean the decoder accepts is the canonical encoding of the value it returns.
pub proof fn law_bool_canonical(buf: Seq<u8>, pos: int)
    requires
        0 <= pos,
        rd_bool(buf, pos).0 is Ok,
    ensures
        buf.subrange(pos, rd_bool(buf, pos).1) == enc_bool(rd_bool(buf, pos).0->Ok_0),
{
    assert(buf.subrange(pos, pos + 1) =~= seq![buf[pos]]);
}

/// Reading length-prefixed bytes where they were written gives back exactly those bytes.
pub proof fn law_bytes_round_trip(before: Seq<u8>, b: Seq<u8>, after: Seq<u8>)
    requires
        b.len() <= u32::MAX,
    ensures
        rd_bytes(before + enc_bytes(b) + after, before.len() as int) == (
            Ok::<Seq<u8>, DecodeError>(b),
            (before.len() + 4 + b.len()) as int,
        ),
{
    let buf = before + enc_bytes(b) + after;
    let p = before.len() as int;
    assert(buf.subrange(p, p + 4) =~= u32_le(b.len() as u32));
    lemma_u32_bytes(b.len() as u32);
    assert(buf.subrange(p + 4, p + 4 + b.len()) =~= b);
}

/// Bytes the decoder accepts are the canonical encoding of what it returns.
pub proof fn law_bytes_canonical(buf: Seq<u8>, pos: int)
    requires
        0 <= pos,
        rd_bytes(buf, pos).0 is Ok,
    ensures
        buf.subrange(pos, rd_bytes(buf, pos).1) == enc_bytes(rd_bytes(buf, pos).0->Ok_0),
{
    let n = buf.subrange(pos, pos + 4);
    lemma_le_u32_canonical(n);
    let len = le_u32(n) as int;
    let b = buf.subrange(pos + 4, pos + 4 + len);
    assert(b.len() as u32 == le_u32(n));
    assert(buf.subrange(pos, pos + 4 + len) =~= n + b);
}

/// Two length-prefixed fields in a row determine both fields: `"ab" + "c"` and `"a" + "bc"`
/// never encode alike.
pub proof fn law_bytes_pairs_are_unambiguous(a: Seq<u8>, b: Seq<u8>, c: Seq<u8>, d: Seq<u8>)
    requires
        a.len() <= u32::MAX,
        b.len() <= u32::MAX,
        c.len() <= u32::MAX,
        d.len() <= u32::MAX,
        enc_bytes(a) + enc_bytes(b) == enc_bytes(c) + enc_bytes(d),
    ensures
        a == c,
        b == d,
{
    let e = Seq::<u8>::empty();
    law_bytes_round_trip(e, a, enc_bytes(b));
    law_bytes_round_trip(e, c, enc_bytes(d));
    assert(e + enc_bytes(a) + enc_bytes(b) =~= enc_bytes(a) + enc_bytes(b));
    assert(e + enc_bytes(c) + enc_bytes(d) =~= enc_bytes(c) + enc_bytes(d));
    let buf = enc_bytes(a) + enc_bytes(b);
    let p = 4 + a.len();
    law_bytes_round_trip(enc_bytes(a), b, e);
    law_bytes_round_trip(enc_bytes(c), d, e);
    assert(enc_bytes(a) + enc_bytes(b) + e =~= buf);
    assert(enc_bytes(c) + enc_bytes(d) + e =~= buf);
}

/// Reading a string where one was written gives back the same characters.
pub proof fn law_str_round_trip(before: Seq<u8>, s: Seq<char>, after: Seq<u8>)
    requires
        encode_utf8(s).len() <= u32::MAX,
    ensures
        rd_str(before + enc_bytes(encode_utf8(s)) + after, before.len() as int) == (
            Ok::<Seq<char>, DecodeError>(s),
            (before.len() + 4 + encode_utf8(s).len()) as int,
        ),
{
    law_bytes_round_trip(before, encode_utf8(s), after);
    encode_utf8_valid_utf8(s);
    encode_utf8_decode_utf8(s);
}

/// Reading a content identifier where a well-formed one was written gives it back.
pub proof fn law_cid_round_trip(before: Seq<u8>, c: CidView, after: Seq<u8>)
    requires
        cid_well_formed(c),
    ensures
        rd_cid(before + enc_cid(c) + after, before.len() as int) == (
            Ok::<CidView, DecodeError>(c),
            (before.len() + 2 + c.digest.len()) as int,
        ),
{
    let buf = before + enc_cid(c) + after;
    let p = before.len() as int;
    assert(buf[p] == c.alg);
    assert(buf[p + 1] == c.digest.len() as u8);
    assert(buf.subrange(p + 2, p + 2 + c.digest.len()) =~= c.digest);
}

/// A content identifier the decoder accepts is well formed and canonically encoded.
pub proof fn law_cid_canonical(buf: Seq<u8>, pos: int)
    requires
        0 <= pos,
        rd_cid(buf, pos).0 is Ok,
    ensures
        cid_well_formed(rd_cid(buf, pos).0->Ok_0),
        buf.subrange(pos, rd_cid(buf, pos).1) == enc_cid(rd_cid(buf, pos).0->Ok_0),
{
    let c = rd_cid(buf, pos).0->Ok_0;
    let q = rd_cid(buf, pos).1;
    assert(buf.subrange(pos, q) =~= enc_cid(c));
}

/// Reading an optional content identifier where one was written gives it back.
pub proof fn law_opt_cid_round_trip(before: Seq<u8>, c: Option<CidView>, after: Seq<u8>)
    requires
        c matches Some(v) ==> cid_well_formed(v),
    ensures
        rd_opt_cid(before + enc_opt_cid(c) + after, before.len() as int) == (
            Ok::<Option<CidView>, DecodeError>(c),
            (before.len() + enc_opt_cid(c).len()) as int,
        ),
{
    let buf = before + enc_opt_cid(c) + after;
    let p = before.len() as int;
    match c {
        Some(v) => {
            assert(buf[p] == 1u8);
            law_cid_round_trip(before + seq![1u8], v, after);
            assert(before + seq![1u8] + enc_cid(v) + after =~= buf);
        },
        None => {
            assert(buf[p] == 0u8);
        },
    }
}

/// An optional content identifier the decoder accepts is canonically encoded.
pub proof fn law_opt_cid_canonical(buf: Seq<u8>, pos: int)
    requires
        0 <= pos,
        rd_opt_cid(buf, pos).0 is Ok,
    ensures
        buf.subrange(pos, rd_opt_cid(buf, pos).1) == enc_opt_cid(rd_opt_cid(buf, pos).0->Ok_0),
{
    if buf[pos] == 1u8 {
        law_cid_canonical(buf, pos + 1);
        assert(buf.subrange(pos, rd_opt_cid(buf, pos).1) =~= seq![1u8] + buf.subrange(
            pos + 1,
            rd_opt_cid(buf, pos).1,
        ));
    } else {
        assert(buf.subrange(pos, pos + 1) =~= seq![0u8]);
    }
}

} // verus!
