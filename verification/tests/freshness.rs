use karst::codec::{Address, Cid};
use karst::freshness::{FreshnessMonitor, Staleness, Timestamp};
use karst::object::{Object, ObjectError};

fn snap(tag: &[u8]) -> Cid {
    Cid::of(tag)
}

fn key(n: u8) -> [u8; 32] {
    [n; 32]
}

fn publisher(n: u8) -> Address {
    Address::from_raw(*blake3::hash(&key(n)).as_bytes())
}

/// A stand-in for a signature: a keyed hash under the signer's key.
fn sign(n: u8, bytes: &[u8]) -> [u8; 64] {
    let h = blake3::keyed_hash(&key(n), bytes);
    let mut s = [0u8; 64];
    s[..32].copy_from_slice(h.as_bytes());
    s[32..].copy_from_slice(h.as_bytes());
    s
}

fn signing_bytes(obj: &Object) -> Vec<u8> {
    Object::signing_bytes(obj.kind(), &obj.author_key(), obj.supersedes().as_ref(), obj.seq(), obj.payload())
}

/// What checking an object's signature finds: the address of the key that signed it.
fn verify(obj: &Object) -> Result<Address, ObjectError> {
    let n = obj.author_key()[0];
    if obj.author_key() == key(n) && sign(n, &signing_bytes(obj)) == *obj.signature() {
        Ok(publisher(n))
    } else {
        Err(ObjectError::BadSignature)
    }
}

fn publish(n: u8, at: u64, valid: u64, seq: u64, s: Cid) -> Object {
    let payload = Timestamp::payload(at, valid, seq, &s);
    let bytes = Object::signing_bytes("karst.timestamp.v1", &key(n), None, seq, &payload);
    Object::from_signed("karst.timestamp.v1", key(n), seq, payload, None, sign(n, &bytes))
}

fn ts(who: Address, at: u64, valid: u64, seq: u64, s: Cid) -> Timestamp {
    let n = (0..=255u8).find(|&n| publisher(n) == who).unwrap();
    let obj = publish(n, at, valid, seq, s);
    Timestamp::from_object(&obj, verify(&obj)).unwrap()
}

#[test]
fn a_tampered_statement_does_not_verify() {
    let obj = publish(1, 100, 50, 1, snap(b"v1"));

    let rubbish = obj.tamper(vec![0u8; 40]);
    assert!(Timestamp::from_object(&rubbish, verify(&rubbish)).is_err());

    let forged = publish(1, 100, 5_000_000, 1, snap(b"v1"));
    let swapped = obj.tamper(forged.payload.clone());
    assert!(
        Timestamp::from_object(&swapped, verify(&swapped)).is_err(),
        "a validly encoded but unsigned payload was accepted"
    );
    assert!(Timestamp::from_object(&obj, verify(&obj)).is_ok());
}

// An object of another kind is not a timestamp, however it is signed.
#[test]
fn only_a_timestamp_object_reads_as_one() {
    let payload = Timestamp::payload(100, 50, 1, &snap(b"v1"));
    let bytes = Object::signing_bytes("note", &key(1), None, 1, &payload);
    let obj = Object::from_signed("note", key(1), 1, payload, None, sign(1, &bytes));
    assert_eq!(Timestamp::from_object(&obj, verify(&obj)), Err(ObjectError::CidMismatch));
    let t = ts(publisher(1), 100, 50, 1, snap(b"v1"));
    assert_eq!(t.expires_at, 150);
    assert_eq!(t.publisher, publisher(1));
}

#[test]
fn a_fresh_statement_with_matching_content_is_current() {
    let pubr = publisher(1);
    let s = snap(b"advisories v1");
    let mut m = FreshnessMonitor::new(pubr);
    m.accept(ts(pubr, 100, 50, 1, s)).unwrap();
    assert_eq!(m.status(120, Some(s)), Staleness::Fresh);
    assert!(!m.status(120, Some(s)).suspect());
}

#[test]
fn withheld_statements_become_visible_rather_than_silent() {
    let pubr = publisher(2);
    let s = snap(b"v1");
    let mut m = FreshnessMonitor::new(pubr);
    m.accept(ts(pubr, 100, 50, 1, s)).unwrap();

    assert_eq!(m.status(150, Some(s)), Staleness::Fresh);
    assert_eq!(m.status(151, Some(s)), Staleness::Expired { since: 150 });
    assert!(m.status(151, Some(s)).suspect());
}

#[test]
fn never_hearing_is_not_the_same_as_being_current() {
    let m = FreshnessMonitor::new(publisher(3));
    assert_eq!(m.status(0, None), Staleness::NeverHeard);
    assert!(m.status(0, None).suspect());
}

#[test]
fn an_old_statement_cannot_be_replayed() {
    let pubr = publisher(4);
    let s = snap(b"v1");
    let mut m = FreshnessMonitor::new(pubr);
    m.accept(ts(pubr, 100, 50, 5, s)).unwrap();

    assert_eq!(
        m.accept(ts(pubr, 90, 50, 3, s)),
        Err(Staleness::Rollback { seen: 5, offered: 3 })
    );
    assert_eq!(
        m.accept(ts(pubr, 100, 50, 5, s)),
        Err(Staleness::Rollback { seen: 5, offered: 5 }),
        "the same sequence again is also a replay"
    );
}

#[test]
fn a_statement_from_somebody_else_is_not_accepted() {
    let pubr = publisher(5);
    let impostor = publisher(6);
    let mut m = FreshnessMonitor::new(pubr);
    assert!(m.accept(ts(impostor, 100, 50, 1, snap(b"v1"))).is_err());
    assert_eq!(m.status(100, None), Staleness::NeverHeard);
}

#[test]
fn continuing_to_hear_keeps_a_client_current() {
    let pubr = publisher(7);
    let s = snap(b"v1");
    let mut m = FreshnessMonitor::new(pubr);
    for i in 1..10u64 {
        m.accept(ts(pubr, i * 100, 150, i, s)).unwrap();
        assert_eq!(m.status(i * 100 + 10, Some(s)), Staleness::Fresh);
    }
}

#[test]
fn forwarding_statements_while_withholding_content_is_caught() {
    let pubr = publisher(8);
    let mut m = FreshnessMonitor::new(pubr);
    m.accept(ts(pubr, 100, 50, 2, snap(b"advisories v2"))).unwrap();
    let status = m.status(120, Some(snap(b"advisories v1")));
    assert_eq!(status, Staleness::ContentWithheld { expected: snap(b"advisories v2") });
    assert!(status.suspect(), "a client missing content must know it");
}

#[test]
fn a_backdated_clock_defeats_expiry_and_that_is_a_known_limit() {
    let pubr = publisher(9);
    let s = snap(b"v1");
    let mut m = FreshnessMonitor::new(pubr);
    m.accept(ts(pubr, 100, 50, 1, s)).unwrap();
    assert_eq!(m.status(200, Some(s)), Staleness::Expired { since: 150 });
    assert_eq!(m.status(120, Some(s)), Staleness::Fresh);
}

#[test]
fn a_long_validity_window_silently_disables_the_detector() {
    let pubr = publisher(10);
    let s = snap(b"v1");
    let mut m = FreshnessMonitor::new(pubr);
    m.accept(ts(pubr, 0, u64::MAX / 2, 1, s)).unwrap();
    assert_eq!(m.status(1_000_000_000, Some(s)), Staleness::Fresh);
}

#[test]
fn a_forward_sequence_jump_is_accepted_and_a_backward_one_is_not() {
    let pubr = publisher(11);
    let s = snap(b"v1");
    let mut m = FreshnessMonitor::new(pubr);
    m.accept(ts(pubr, 100, 50, 1, s)).unwrap();
    assert!(m.accept(ts(pubr, 200, 50, 900, s)).is_ok());
    assert!(m.accept(ts(pubr, 300, 50, 899, s)).is_err());
}

// The monitor keeps the latest accepted statement and nothing refused.
#[test]
fn only_accepted_statements_are_kept() {
    let pubr = publisher(12);
    let s = snap(b"v1");
    let mut m = FreshnessMonitor::new(pubr);
    assert_eq!(m.latest(), None);
    let first = ts(pubr, 10, 5, 3, s);
    m.accept(first).unwrap();
    let _ = m.accept(ts(pubr, 20, 5, 2, s));
    let _ = m.accept(ts(publisher(13), 30, 5, 9, s));
    assert_eq!(m.latest(), Some(first));
}
