use karst::codec::{Cid, DecodeError};
use karst::object::{Object, Resolution};

fn note(payload: &[u8]) -> Object {
    Object::from_signed("note", [7u8; 32], 3, payload.to_vec(), None, [1u8; 64])
}

#[test]
fn identical_content_has_one_address_so_replicas_dedupe() {
    let a = note(b"same");
    let b = note(b"same");
    assert_eq!(a.cid(), b.cid());
}

// Tampering with the payload changes the name.
#[test]
fn tampering_changes_the_name() {
    let obj = note(b"transfer 10");
    let evil = obj.tamper(b"transfer 9000".to_vec());
    assert_ne!(obj.cid(), evil.cid(), "content address must change");
    assert_eq!(evil.payload, b"transfer 9000".to_vec());
    assert_eq!(evil.signature(), obj.signature());
    assert_eq!(evil.kind, obj.kind);
}

// The name is the content identifier of the signing bytes, and those bind every field.
#[test]
fn the_name_is_the_hash_of_the_signing_bytes() {
    let prev = Cid::of(b"earlier");
    let obj = Object::from_signed("note", [7u8; 32], 4, b"x".to_vec(), Some(prev), [0u8; 64]);
    let bytes = Object::signing_bytes("note", &[7u8; 32], Some(&prev), 4, b"x");
    assert_eq!(obj.cid(), Cid::of(&bytes));
    let other = Object::signing_bytes("note", &[7u8; 32], None, 4, b"x");
    assert_ne!(bytes, other);
    let reseq = Object::signing_bytes("note", &[7u8; 32], Some(&prev), 5, b"x");
    assert_ne!(bytes, reseq);
}

// Only a single head resolves to a version.
#[test]
fn a_fork_has_no_head() {
    let c = Cid::of(b"v");
    assert_eq!(Resolution::Head(c).head(), Some(c));
    assert_eq!(Resolution::Forked(vec![c, Cid::of(b"w")]).head(), None);
    assert_eq!(Resolution::Unknown.head(), None);
}

// An object carried as bytes reads back as the same object, with the same name.
#[test]
fn a_carried_object_reads_back_with_its_name() {
    let prev = Cid::of(b"earlier");
    let obj = Object::from_signed("note", [7u8; 32], 9, b"body".to_vec(), Some(prev), [3u8; 64]);
    let wire = obj.encode();
    // 4 + 4 kind, 32 key, 1 + 2 + 32 supersedes, 8 sequence, 4 + 4 payload, 64 signature.
    assert_eq!(wire.len(), 155);
    assert_eq!(&wire[0..8], &[4, 0, 0, 0, b'n', b'o', b't', b'e']);
    let back = Object::decode(&wire).expect("reads back");
    assert_eq!(back.cid(), obj.cid());
    assert_eq!(back.kind, "note");
    assert_eq!(back.seq, 9);
    assert_eq!(back.supersedes, Some(prev));
    assert_eq!(back.payload, b"body".to_vec());
    assert_eq!(back.signature(), &[3u8; 64]);
}

// Short input, extra input and a bad presence byte are each refused.
#[test]
fn malformed_carried_objects_are_refused() {
    let wire = note(b"x").encode();
    assert_eq!(Object::decode(&wire[..wire.len() - 1]).err(), Some(DecodeError::Truncated));
    let mut long = wire.clone();
    long.push(0);
    assert_eq!(Object::decode(&long).err(), Some(DecodeError::TrailingBytes));
    let mut bad = wire.clone();
    bad[8 + 32] = 2;
    assert_eq!(Object::decode(&bad).err(), Some(DecodeError::UnknownTag(2)));
    assert!(Object::decode(&[]).is_err());
}
