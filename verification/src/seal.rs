//! Encrypt to a public key, revealing nothing about who it was for.
//!
//! HPKE base mode (RFC 9180) with DHKEM(X25519, HKDF-SHA256), HKDF-SHA256 and
//! ChaCha20-Poly1305, as the `hpke` crate implements it: a fresh encapsulation per message, the
//! ciphertext bound to associated data and to this protocol's `info`. A sealed message is the
//! 32-byte encapsulated key followed by the ciphertext and its 16-byte tag.
//!
//! Sealing keys are their own keys, never converted from identity keys. Anyone holding a
//! recipient's public key can test a ciphertext against it by trial decryption; that is
//! inherent to anonymous encryption.
use vstd::prelude::*;
use hpke::{Deserializable, Kem, Serializable};

verus! {

broadcast use vstd::std_specs::vec::group_vec_axioms;

/// Bytes added to every sealed message: the encapsulated key, then the AEAD tag.
pub const OVERHEAD: usize = 48;

/// The encapsulated key's length.
pub const ENCAPPED_BYTES: usize = 32;

#[derive(Debug, Clone, Copy, PartialEq, Eq)]
pub enum SealError {
    /// Too short to contain an encapsulated key and a tag.
    Truncated,
    /// Authentication failed. Indistinguishable from "not addressed to this key", by design.
    NotForYou,
}

/// The domain separation every ciphertext is bound to: `karst.seal.v2`.
pub open spec fn seal_info() -> Seq<u8> {
    seq![107u8, 97, 114, 115, 116, 46, 115, 101, 97, 108, 46, 118, 50]
}

/// The secret and public key HPKE's `DeriveKeyPair` yields for a seed.
pub uninterp spec fn hpke_derived_pair(seed: Seq<u8>) -> (Seq<u8>, Seq<u8>);

/// The public key HPKE's `sk_to_pk` computes for a serialised secret key.
pub uninterp spec fn hpke_public_of(secret: Seq<u8>) -> Seq<u8>;

/// What single-shot HPKE opening yields for a secret key, an encapsulated key, a ciphertext,
/// associated data and `info`: the plaintext, or `None` when it does not authenticate.
pub uninterp spec fn hpke_opened(
    secret: Seq<u8>,
    encapped: Seq<u8>,
    ciphertext: Seq<u8>,
    aad: Seq<u8>,
    info: Seq<u8>,
) -> Option<Seq<u8>>;

/// Calls `hpke::Kem::derive_keypair` for `X25519HkdfSha256` on the seed and serialises both
/// keys. Claims that the result is the named derivation of the seed, so one seed always gives
/// one key pair, and, as the crate's `derive_keypair` computes it, that the public half is
/// `sk_to_pk` of the secret half.
#[verifier::external_body]
fn hpke_derive(seed: &[u8; 32]) -> (r: ([u8; 32], [u8; 32]))
    ensures
        (r.0@, r.1@) == hpke_derived_pair(seed@),
        r.1@ == hpke_public_of(r.0@),
{
    let (sk, pk) = <hpke::kem::X25519HkdfSha256 as Kem>::derive_keypair(seed);
    (sk.to_bytes().into(), pk.to_bytes().into())
}

/// Calls `hpke::Kem::gen_keypair` for `X25519HkdfSha256`, which draws from the system's
/// randomness, and serialises both keys. The secret rests on chance and nothing is claimed of
/// it; of the pair, only that the public half is `sk_to_pk` of the secret half, since the
/// crate generates by deriving from random keying material.
#[verifier::external_body]
fn hpke_generate() -> (r: ([u8; 32], [u8; 32]))
    ensures
        r.1@ == hpke_public_of(r.0@),
{
    let (sk, pk) = <hpke::kem::X25519HkdfSha256 as Kem>::gen_keypair();
    (sk.to_bytes().into(), pk.to_bytes().into())
}

/// Deserialises the keys and calls `hpke::single_shot_open` in base mode with
/// ChaCha20-Poly1305 and HKDF-SHA256. Claims that the result is the named opening of its
/// arguments; any error becomes `None`.
#[verifier::external_body]
fn hpke_open(
    secret: &[u8; 32],
    encapped: &[u8],
    ciphertext: &[u8],
    aad: &[u8],
    info: &[u8],
) -> (r: Option<Vec<u8>>)
    ensures
        match r {
            Some(m) => hpke_opened(secret@, encapped@, ciphertext@, aad@, info@) == Some(m@),
            None => hpke_opened(secret@, encapped@, ciphertext@, aad@, info@) is None,
        },
{
    let sk = <hpke::kem::X25519HkdfSha256 as Kem>::PrivateKey::from_bytes(secret).ok()?;
    let enc = <hpke::kem::X25519HkdfSha256 as Kem>::EncappedKey::from_bytes(encapped).ok()?;
    hpke::single_shot_open::<hpke::aead::ChaCha20Poly1305, hpke::kdf::HkdfSha256, hpke::kem::X25519HkdfSha256>(
        &hpke::OpModeR::Base,
        &sk,
        &enc,
        info,
        ciphertext,
        aad,
    ).ok()
}

/// `secret` is a serialised X25519 secret key whose public key is `public`.
pub open spec fn holder_of(secret: Seq<u8>, public: Seq<u8>) -> bool {
    secret.len() == 32 && hpke_public_of(secret) == public
}

/// `public` is the public key of some secret key: a real public key, as every key this
/// library makes publishes.
pub open spec fn is_public_key(public: Seq<u8>) -> bool {
    exists|secret: Seq<u8>| #[trigger] holder_of(secret, public)
}

/// Deserialises the recipient's key and calls `hpke::single_shot_seal` in base mode with
/// ChaCha20-Poly1305 and HKDF-SHA256, which draws a fresh ephemeral key. Claims:
/// - the shapes the source shows: a 32-byte encapsulated key and a ciphertext 16 bytes longer
///   than the plaintext;
/// - HPKE's correctness: single-shot opening, in the same mode and suite, with any secret key
///   whose public key is the recipient, of that encapsulated key and ciphertext under the same
///   `aad` and `info`, gives back the plaintext;
/// - that sealing succeeds for a recipient that is a real public key and a plaintext of at
///   most 2^32 - 1 bytes. The crate refuses only when the Diffie-Hellman result is all zeros
///   (`dhkex/x25519.rs`, `dh`), or when the AEAD refuses a plaintext longer than its limit,
///   far above that bound; a clamped ephemeral scalar times a public key made from a clamped
///   secret is never zero, as the source's comment on `PrivateKey::from_bytes` explains.
/// The encapsulated key and ciphertext themselves rest on chance; nothing else is claimed.
#[verifier::external_body]
fn hpke_seal(recipient: &[u8; 32], aad: &[u8], plaintext: &[u8], info: &[u8]) -> (r: Option<
    (Vec<u8>, Vec<u8>),
>)
    ensures
        match r {
            Some((e, c)) => {
                &&& e@.len() == ENCAPPED_BYTES
                &&& c@.len() == plaintext@.len() + 16
                &&& forall|secret: Seq<u8>| #[trigger] holder_of(secret, recipient@) ==> hpke_opened(
                    secret,
                    e@,
                    c@,
                    aad@,
                    info@,
                ) == Some(plaintext@)
            },
            None => !(is_public_key(recipient@) && plaintext@.len() <= u32::MAX),
        },
{
    let pk = <hpke::kem::X25519HkdfSha256 as Kem>::PublicKey::from_bytes(recipient).ok()?;
    let (enc, ct) = hpke::single_shot_seal::<hpke::aead::ChaCha20Poly1305, hpke::kdf::HkdfSha256, hpke::kem::X25519HkdfSha256>(
        &hpke::OpModeS::Base,
        &pk,
        info,
        plaintext,
        aad,
    ).ok()?;
    Some((enc.to_bytes().to_vec(), ct))
}

/// The `info` bytes.
fn info_bytes() -> (b: [u8; 13])
    ensures
        b@ == seal_info(),
{
    let b: [u8; 13] = [107, 97, 114, 115, 116, 46, 115, 101, 97, 108, 46, 118, 50];
    assert(b@ =~= seal_info());
    b
}

/// What opening `sealed` with `secret` under `aad` yields.
pub open spec fn open_spec(secret: Seq<u8>, aad: Seq<u8>, sealed: Seq<u8>) -> Result<Seq<u8>, SealError> {
    if sealed.len() < OVERHEAD {
        Err(SealError::Truncated)
    } else {
        match hpke_opened(
            secret,
            sealed.subrange(0, ENCAPPED_BYTES as int),
            sealed.subrange(ENCAPPED_BYTES as int, sealed.len() as int),
            aad,
            seal_info(),
        ) {
            Some(m) => Ok(m),
            None => Err(SealError::NotForYou),
        }
    }
}

/// A key others can encrypt to.
pub struct SealingKey {
    secret: [u8; 32],
    public: [u8; 32],
}

impl SealingKey {
    /// The secret half, as bytes.
    pub closed spec fn secret(&self) -> Seq<u8> {
        self.secret@
    }

    /// The public half, as bytes.
    pub closed spec fn public_key(&self) -> Seq<u8> {
        self.public@
    }

    /// A fresh key from the system's randomness: the secret is drawn at random, and the public
    /// half is the one that secret has.
    pub fn generate() -> (k: Self)
        ensures
            holder_of(k.secret(), k.public_key()),
    {
        let (secret, public) = hpke_generate();
        SealingKey { secret, public }
    }

    /// The key a seed derives, by the KEM's own `DeriveKeyPair`: the same seed, the same key.
    pub fn from_seed(seed: [u8; 32]) -> (k: Self)
        ensures
            (k.secret(), k.public_key()) == hpke_derived_pair(seed@),
            holder_of(k.secret(), k.public_key()),
    {
        let (secret, public) = hpke_derive(&seed);
        SealingKey { secret, public }
    }

    pub fn public(&self) -> (p: [u8; 32])
        ensures
            p@ == self.public_key(),
    {
        self.public
    }

    /// Recover a sealed message, or learn nothing: too short to hold an encapsulated key and a
    /// tag is `Truncated`; anything that does not authenticate is `NotForYou`.
    pub fn open(&self, aad: &[u8], sealed: &[u8]) -> (r: Result<Vec<u8>, SealError>)
        ensures
            match r {
                Ok(m) => open_spec(self.secret(), aad@, sealed@) == Ok::<Seq<u8>, SealError>(m@),
                Err(e) => open_spec(self.secret(), aad@, sealed@) == Err::<Seq<u8>, SealError>(e),
            },
    {
        if sealed.len() < OVERHEAD {
            return Err(SealError::Truncated);
        }
        let mut encapped: Vec<u8> = Vec::new();
        let mut ciphertext: Vec<u8> = Vec::new();
        let mut i: usize = 0;
        while i < sealed.len()
            invariant
                i <= sealed@.len(),
                sealed@.len() >= OVERHEAD,
                i <= ENCAPPED_BYTES ==> encapped@ == sealed@.subrange(0, i as int) && ciphertext@.len() == 0,
                i > ENCAPPED_BYTES ==> encapped@ == sealed@.subrange(0, ENCAPPED_BYTES as int)
                    && ciphertext@ == sealed@.subrange(ENCAPPED_BYTES as int, i as int),
            decreases sealed@.len() - i,
        {
            if i < ENCAPPED_BYTES {
                encapped.push(sealed[i]);
                assert(encapped@ == sealed@.subrange(0, i + 1));
            } else {
                ciphertext.push(sealed[i]);
                assert(ciphertext@ == sealed@.subrange(ENCAPPED_BYTES as int, i + 1));
            }
            i += 1;
        }
        let info = info_bytes();
        match hpke_open(&self.secret, encapped.as_slice(), ciphertext.as_slice(), aad, &info) {
            Some(m) => Ok(m),
            None => Err(SealError::NotForYou),
        }
    }
}

/// Encrypt to `recipient`, binding the result to `aad`, which is authenticated but not
/// encrypted: the encapsulated key, then the ciphertext. What comes back opens, under the same
/// `aad`, for any holder of the recipient's secret key, and gives back the plaintext. `None`
/// only when HPKE refuses the recipient, which it never does for a real public key.
pub fn seal(recipient: &[u8; 32], aad: &[u8], plaintext: &[u8]) -> (r: Option<Vec<u8>>)
    ensures
        is_public_key(recipient@) && plaintext@.len() <= u32::MAX ==> r is Some,
        r matches Some(out) ==> {
            &&& out@.len() == OVERHEAD + plaintext@.len()
            &&& forall|secret: Seq<u8>| #[trigger] holder_of(secret, recipient@) ==> open_spec(
                secret,
                aad@,
                out@,
            ) == Ok::<Seq<u8>, SealError>(plaintext@)
        },
{
    let info = info_bytes();
    match hpke_seal(recipient, aad, plaintext, &info) {
        None => None,
        Some((e, c)) => {
            let mut out: Vec<u8> = Vec::new();
            let mut i: usize = 0;
            while i < e.len()
                invariant
                    i <= e@.len(),
                    out@ == e@.subrange(0, i as int),
                decreases e@.len() - i,
            {
                out.push(e[i]);
                assert(out@ == e@.subrange(0, i + 1));
                i += 1;
            }
            let mut j: usize = 0;
            while j < c.len()
                invariant
                    j <= c@.len(),
                    out@ == e@ + c@.subrange(0, j as int),
                decreases c@.len() - j,
            {
                out.push(c[j]);
                assert(out@ == e@ + c@.subrange(0, j + 1));
                j += 1;
            }
            assert(c@.subrange(0, j as int) == c@);
            assert(out@.subrange(0, ENCAPPED_BYTES as int) =~= e@);
            assert(out@.subrange(ENCAPPED_BYTES as int, out@.len() as int) =~= c@);
            Some(out)
        },
    }
}

/// A sealed message is never opened on its length alone: anything shorter than an
/// encapsulated key and a tag is refused as truncated, and anything else is opened only if
/// HPKE authenticates it under this protocol's `info`.
pub proof fn law_only_what_authenticates_opens(secret: Seq<u8>, aad: Seq<u8>, sealed: Seq<u8>)
    ensures
        sealed.len() < OVERHEAD ==> open_spec(secret, aad, sealed) == Err::<Seq<u8>, SealError>(SealError::Truncated),
        open_spec(secret, aad, sealed) is Ok ==> sealed.len() >= OVERHEAD && hpke_opened(
            secret,
            sealed.subrange(0, ENCAPPED_BYTES as int),
            sealed.subrange(ENCAPPED_BYTES as int, sealed.len() as int),
            aad,
            seal_info(),
        ) == Some(open_spec(secret, aad, sealed)->Ok_0),
{
}

} // verus!
