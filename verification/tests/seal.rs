use hpke::aead::Aead;
use hpke::kdf::Kdf;
use hpke::{Deserializable, Kem, Serializable};
use karst::seal::{seal, SealError, SealingKey, OVERHEAD};

type K = hpke::kem::X25519HkdfSha256;

// The ciphersuite is a decision: DHKEM(X25519, HKDF-SHA256), HKDF-SHA256, ChaCha20Poly1305.
#[test]
fn the_ciphersuite_is_the_one_this_module_documents() {
    assert_eq!(<K as Kem>::KEM_ID, 0x0020);
    assert_eq!(<hpke::kdf::HkdfSha256 as Kdf>::KDF_ID, 0x0001);
    assert_eq!(<hpke::aead::ChaCha20Poly1305 as Aead>::AEAD_ID, 0x0003);
}

// A ciphertext from another HPKE application does not open here: `info` separates them.
#[test]
fn a_ciphertext_from_another_application_does_not_open() {
    let k = SealingKey::from_seed([4u8; 32]);
    let pk = <K as Kem>::PublicKey::from_bytes(&k.public()).unwrap();
    let (encapped, ct) = hpke::single_shot_seal::<hpke::aead::ChaCha20Poly1305, hpke::kdf::HkdfSha256, K>(
        &hpke::OpModeS::Base,
        &pk,
        b"some.other.application",
        b"not for karst",
        b"",
    )
    .unwrap();
    let mut sealed = encapped.to_bytes().to_vec();
    sealed.extend_from_slice(&ct);
    assert_eq!(k.open(b"", &sealed), Err(SealError::NotForYou));
}

// A seed derives the same key every time.
#[test]
fn a_seed_derives_a_stable_key() {
    assert_eq!(SealingKey::from_seed([9u8; 32]).public(), SealingKey::from_seed([9u8; 32]).public());
    assert_ne!(SealingKey::from_seed([9u8; 32]).public(), SealingKey::from_seed([10u8; 32]).public());
}

#[test]
fn a_sealed_message_opens_for_its_recipient_and_nobody_else() {
    let bob = SealingKey::from_seed([1u8; 32]);
    let eve = SealingKey::from_seed([2u8; 32]);
    let ct = seal(&bob.public(), b"mailbox-7", b"the quiet part").unwrap();
    assert_eq!(ct.len(), OVERHEAD + 14);
    assert_eq!(bob.open(b"mailbox-7", &ct).unwrap(), b"the quiet part".to_vec());
    assert_eq!(eve.open(b"mailbox-7", &ct), Err(SealError::NotForYou));
}

// Associated data is bound, so a ciphertext cannot be filed under a different name.
#[test]
fn a_ciphertext_cannot_be_moved_to_another_mailbox() {
    let bob = SealingKey::from_seed([1u8; 32]);
    let ct = seal(&bob.public(), b"mailbox-7", b"m").unwrap();
    assert_eq!(bob.open(b"mailbox-8", &ct), Err(SealError::NotForYou));
}

// Every bit of the ciphertext is authenticated.
#[test]
fn every_single_bit_flip_is_rejected() {
    let bob = SealingKey::from_seed([1u8; 32]);
    let ct = seal(&bob.public(), b"aad", b"a message of some length to cover").unwrap();
    for i in 0..ct.len() {
        for bit in 0..8 {
            let mut bad = ct.clone();
            bad[i] ^= 1 << bit;
            assert_eq!(bob.open(b"aad", &bad), Err(SealError::NotForYou), "byte {i} bit {bit} survived");
        }
    }
}

// Two seals of the same plaintext to the same recipient differ.
#[test]
fn sealing_is_randomised() {
    let bob = SealingKey::from_seed([1u8; 32]);
    let a = seal(&bob.public(), b"aad", b"same").unwrap();
    let b = seal(&bob.public(), b"aad", b"same").unwrap();
    assert_ne!(a, b);
}

// A ciphertext does not carry its recipient's public key.
#[test]
fn a_ciphertext_does_not_name_its_recipient() {
    let bob = SealingKey::from_seed([1u8; 32]);
    let carol = SealingKey::from_seed([2u8; 32]);
    let to_bob = seal(&bob.public(), b"aad", b"m").unwrap();
    let to_carol = seal(&carol.public(), b"aad", b"m").unwrap();
    assert_eq!(to_bob.len(), to_carol.len());
    for ct in [&to_bob, &to_carol] {
        for w in ct.windows(32) {
            assert_ne!(w, &bob.public()[..]);
            assert_ne!(w, &carol.public()[..]);
        }
    }
}

// Every prefix too short to hold a key and a tag is refused as truncated.
#[test]
fn truncated_input_is_refused() {
    let bob = SealingKey::from_seed([1u8; 32]);
    let ct = seal(&bob.public(), b"aad", b"m").unwrap();
    for n in 0..OVERHEAD {
        assert_eq!(bob.open(b"aad", &ct[..n]), Err(SealError::Truncated));
    }
}

// Low-order ephemeral keys fail authentication like any other wrong key.
#[test]
fn low_order_ephemeral_keys_do_not_open_anything() {
    let bob = SealingKey::from_seed([1u8; 32]);
    let real = seal(&bob.public(), b"aad", b"m").unwrap();
    let mut high = [0u8; 32];
    high[31] = 0x80;
    for bad_epk in [[0u8; 32], [1u8; 32], high] {
        let mut forged = real.clone();
        forged[..32].copy_from_slice(&bad_epk);
        assert_eq!(bob.open(b"aad", &forged), Err(SealError::NotForYou));
    }
}

// The empty message round trips, since a fragment can be empty padding.
#[test]
fn an_empty_message_round_trips() {
    let bob = SealingKey::from_seed([1u8; 32]);
    let ct = seal(&bob.public(), b"", b"").unwrap();
    assert_eq!(ct.len(), OVERHEAD);
    assert_eq!(bob.open(b"", &ct).unwrap(), Vec::<u8>::new());
}

// A generated key opens what is sealed to its public key.
#[test]
fn generated_keys_differ_and_work() {
    let a = SealingKey::generate();
    let b = SealingKey::generate();
    assert_ne!(a.public(), b.public());
    let sealed = seal(&b.public(), b"x", b"for b").unwrap();
    assert_eq!(b.open(b"x", &sealed).unwrap(), b"for b".to_vec());
}
