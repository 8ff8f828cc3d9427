use karst::codec::Address;
use karst::path::{Path, PathError, Segment, Segments, MAX_PATHS, MAX_PER_POINT, MAX_SEGMENTS};

fn key(n: u32) -> [u8; 32] {
    let mut k = [0u8; 32];
    k[..4].copy_from_slice(&n.to_le_bytes());
    k
}

/// An address is the hash of a key.
fn addr_of(k: &[u8; 32]) -> Address {
    Address::from_raw(*blake3::hash(k).as_bytes())
}

fn op(n: u32) -> Address {
    addr_of(&key(n))
}

fn pt(n: u32) -> Point {
    op(n + 10_000)
}

type Point = Address;

/// A stand-in for a signature: a keyed hash of the signing bytes under the signer's key.
fn sign(signer: u32, bytes: &[u8]) -> [u8; 64] {
    let h = blake3::keyed_hash(&key(signer), bytes);
    let mut s = [0u8; 64];
    s[..32].copy_from_slice(h.as_bytes());
    s[32..].copy_from_slice(h.as_bytes());
    s
}

fn offer(signer: u32, from: Point, to: Point, expires_at: u64) -> Segment {
    let unsigned = Segment::new(op(signer), from, to, expires_at, [0u8; 64], key(signer));
    let sig = sign(signer, &unsigned.signing_bytes());
    Segment::new(op(signer), from, to, expires_at, sig, key(signer))
}

/// What checking a segment's key and signature finds.
fn check(s: &Segment) -> Result<(), PathError> {
    let k = s.key();
    let mut signer = [0u8; 4];
    signer.copy_from_slice(&k[..4]);
    let sig_ok = sign(u32::from_le_bytes(signer), &s.signing_bytes()) == s.signature();
    s.verify(Some(addr_of(&k)), sig_ok)
}

fn learn(segs: &mut Segments, s: Segment) -> Result<(), PathError> {
    let ok = check(&s).is_ok();
    segs.learn(s, ok)
}

fn assemble(segments: Vec<Segment>, now: u64) -> Result<Path, PathError> {
    let verified: Vec<bool> = segments.iter().map(|s| check(s).is_ok()).collect();
    Path::assemble(segments, now, &verified)
}

fn sorted_unique(mut v: Vec<Address>) -> Vec<Address> {
    v.sort();
    v.dedup();
    v
}

#[test]
fn a_dense_mesh_does_not_hand_the_sender_an_exponential() {
    let mut segs = Segments::new();
    let mut refused = 0;
    for hop in 0..8u32 {
        for k in 0..20u32 {
            if learn(&mut segs, offer(hop * 100 + k, pt(hop), pt(hop + 1), 100)).is_err() {
                refused += 1;
            }
        }
    }
    assert_eq!(refused, 0);
    let start = std::time::Instant::now();
    let paths = segs.compose(pt(0), pt(8), 0);
    assert!(paths.len() <= MAX_PATHS, "returned {} paths", paths.len());
    assert!(start.elapsed().as_secs() < 10, "composition took {:?}", start.elapsed());
}

#[test]
fn a_store_refuses_more_ways_out_of_a_point_than_it_will_keep() {
    let mut segs = Segments::new();
    let mut accepted = 0;
    for k in 0..(MAX_PER_POINT as u32 + 500) {
        if learn(&mut segs, offer(k, pt(0), pt(k + 1), 100)).is_ok() {
            accepted += 1;
        }
    }
    assert_eq!(accepted, MAX_PER_POINT);
    assert_eq!(
        learn(&mut segs, offer(9999, pt(0), pt(9998), 100)),
        Err(PathError::TooMany)
    );
}

#[test]
fn a_search_that_finds_nothing_still_terminates() {
    let mut segs = Segments::new();
    for hop in 0..8u32 {
        for k in 0..20u32 {
            learn(&mut segs, offer(hop * 100 + k, pt(hop), pt(hop + 1), 100)).unwrap();
        }
    }
    let start = std::time::Instant::now();
    assert!(segs.compose(pt(0), pt(9999), 0).is_empty());
    assert!(start.elapsed().as_secs() < 10, "took {:?}", start.elapsed());
}

#[test]
fn a_sender_composes_a_path_from_what_it_holds() {
    let mut segs = Segments::new();
    learn(&mut segs, offer(1, pt(0), pt(1), 100)).unwrap();
    learn(&mut segs, offer(2, pt(1), pt(2), 100)).unwrap();
    let paths = segs.compose(pt(0), pt(2), 0);
    assert_eq!(paths.len(), 1);
    assert_eq!(paths[0].hops(), 2);
    assert_eq!(paths[0].source(), pt(0));
    assert_eq!(paths[0].destination(), pt(2));
    assert_eq!(paths[0].accountable(), sorted_unique(vec![op(1), op(2)]));
}

#[test]
fn a_segment_cannot_be_announced_for_an_operator_you_do_not_control() {
    let genuine = offer(1, pt(0), pt(1), 100);
    assert!(check(&genuine).is_ok());

    let mut relabelled = genuine;
    relabelled.operator = op(2);
    assert_eq!(check(&relabelled), Err(PathError::Unsigned));

    let theirs = offer(2, pt(0), pt(1), 100);
    assert!(check(&theirs).is_ok());
    assert_eq!(theirs.operator, op(2));
}

#[test]
fn signing_bytes_that_name_someone_else_does_not_make_them_the_operator() {
    // Bytes naming the victim, signed by the attacker, presented with the attacker's key.
    let unsigned = Segment::new(op(1), pt(0), pt(1), 100, [0u8; 64], key(2));
    let forged = Segment::new(op(1), pt(0), pt(1), 100, sign(2, &unsigned.signing_bytes()), key(2));
    // The signature really does check under the key presented.
    assert!(forged.verify(Some(op(1)), true).is_ok());
    // But the key hashes to the attacker, not the operator named.
    assert_eq!(forged.verify(Some(addr_of(&key(2))), true), Err(PathError::Unsigned));
    assert_eq!(check(&forged), Err(PathError::Unsigned));

    let mut segs = Segments::new();
    assert_eq!(learn(&mut segs, forged), Err(PathError::Unsigned));
    assert!(segs.is_empty());
}

#[test]
fn a_key_that_is_not_a_key_is_unsigned() {
    let s = offer(1, pt(0), pt(1), 100);
    assert_eq!(s.verify(None, true), Err(PathError::Unsigned));
    assert_eq!(s.verify(Some(op(1)), false), Err(PathError::Unsigned));
    assert_eq!(s.verify(Some(op(1)), true), Ok(()));
}

#[test]
fn no_field_of_a_segment_can_be_altered() {
    let s = offer(1, pt(0), pt(1), 100);
    let mut a = s;
    a.from = pt(9);
    assert_eq!(check(&a), Err(PathError::Unsigned));
    let mut b = s;
    b.to = pt(9);
    assert_eq!(check(&b), Err(PathError::Unsigned));
    let mut c = s;
    c.expires_at = u64::MAX;
    assert_eq!(check(&c), Err(PathError::Unsigned));
    assert!(check(&s).is_ok());
}

#[test]
fn signing_bytes_are_the_domain_then_the_fields() {
    let s = offer(1, pt(0), pt(1), 0x0102);
    let b = s.signing_bytes();
    let domain = b"karst.path.segment.v1";
    assert_eq!(&b[..4], &(domain.len() as u32).to_le_bytes());
    assert_eq!(&b[4..4 + domain.len()], domain);
    let rest = &b[4 + domain.len()..];
    assert_eq!(&rest[..32], op(1).as_bytes());
    assert_eq!(&rest[32..64], pt(0).as_bytes());
    assert_eq!(&rest[64..96], pt(1).as_bytes());
    assert_eq!(&rest[96..], &0x0102u64.to_le_bytes());
}

#[test]
fn disjoint_segments_do_not_form_a_path() {
    let a = offer(1, pt(0), pt(1), 100);
    let b = offer(2, pt(5), pt(6), 100);
    assert_eq!(assemble(vec![a, b], 0), Err(PathError::Disjoint));
}

#[test]
fn an_empty_path_is_refused() {
    assert_eq!(assemble(vec![], 0), Err(PathError::Empty));
}

#[test]
fn an_expired_segment_does_not_compose() {
    let mut segs = Segments::new();
    learn(&mut segs, offer(1, pt(0), pt(1), 50)).unwrap();
    learn(&mut segs, offer(2, pt(1), pt(2), 100)).unwrap();
    assert_eq!(segs.compose(pt(0), pt(2), 10).len(), 1);
    assert!(segs.compose(pt(0), pt(2), 60).is_empty());
    let expired = offer(1, pt(0), pt(1), 50);
    assert_eq!(assemble(vec![expired], 60), Err(PathError::Expired { at: 50 }));
}

#[test]
fn a_path_cannot_visit_a_point_twice() {
    let a = offer(1, pt(0), pt(1), 100);
    let b = offer(2, pt(1), pt(0), 100);
    assert_eq!(assemble(vec![a, b], 0), Err(PathError::Loop));

    let mut segs = Segments::new();
    learn(&mut segs, offer(1, pt(0), pt(1), 100)).unwrap();
    learn(&mut segs, offer(2, pt(1), pt(0), 100)).unwrap();
    learn(&mut segs, offer(3, pt(1), pt(2), 100)).unwrap();
    let paths = segs.compose(pt(0), pt(2), 0);
    assert_eq!(paths.len(), 1);
    for p in paths {
        let mut seen = vec![p.source()];
        for s in p.segments() {
            assert!(!seen.contains(&s.to), "composed path revisits a point");
            seen.push(s.to);
        }
    }
}

#[test]
fn composition_is_bounded_however_many_segments_are_offered() {
    let mut segs = Segments::new();
    for i in 0..40u32 {
        learn(&mut segs, offer(i + 1, pt(i), pt(i + 1), 1_000)).unwrap();
    }
    assert!(segs.compose(pt(0), pt(39), 0).is_empty());
    assert_eq!(segs.compose(pt(0), pt(8), 0).len(), 1);
    assert_eq!(
        assemble(
            (0..MAX_SEGMENTS + 1)
                .map(|i| offer(i as u32 + 1, pt(i as u32), pt(i as u32 + 1), 1_000))
                .collect(),
            0
        ),
        Err(PathError::TooLong)
    );
}

#[test]
fn a_store_never_holds_an_unsigned_segment() {
    let mut segs = Segments::new();
    let mut forged = offer(1, pt(0), pt(1), 100);
    forged.to = pt(9);
    assert_eq!(learn(&mut segs, forged), Err(PathError::Unsigned));
    assert!(segs.is_empty());
    assert_eq!(segs.len(), 0);
}

#[test]
fn learning_the_same_segment_twice_holds_it_once() {
    let mut segs = Segments::new();
    let s = offer(1, pt(0), pt(1), 100);
    learn(&mut segs, s).unwrap();
    learn(&mut segs, s).unwrap();
    assert_eq!(segs.len(), 1);
}

#[test]
fn two_senders_with_different_knowledge_are_both_correct() {
    let direct = offer(1, pt(0), pt(3), 100);
    let long_a = offer(2, pt(0), pt(1), 100);
    let long_b = offer(3, pt(1), pt(3), 100);

    let mut alice = Segments::new();
    learn(&mut alice, direct).unwrap();
    let mut bob = Segments::new();
    learn(&mut bob, long_a).unwrap();
    learn(&mut bob, long_b).unwrap();

    let a_paths = alice.compose(pt(0), pt(3), 0);
    let b_paths = bob.compose(pt(0), pt(3), 0);
    assert_eq!(a_paths.len(), 1);
    assert_eq!(b_paths.len(), 1);
    assert_ne!(a_paths[0], b_paths[0]);
    assert_eq!(a_paths[0].destination(), b_paths[0].destination());
    assert_ne!(a_paths[0].accountable(), b_paths[0].accountable());
}

#[test]
fn composition_is_deterministic_and_expresses_no_preference() {
    let mut segs = Segments::new();
    learn(&mut segs, offer(1, pt(0), pt(3), 100)).unwrap();
    learn(&mut segs, offer(2, pt(0), pt(1), 100)).unwrap();
    learn(&mut segs, offer(3, pt(1), pt(3), 100)).unwrap();

    let first = segs.compose(pt(0), pt(3), 0);
    let second = segs.compose(pt(0), pt(3), 0);
    assert_eq!(first, second);
    assert_eq!(first.len(), 2);
    assert!(first[0].hops() <= first[1].hops());

    let mut other = Segments::new();
    learn(&mut other, offer(3, pt(1), pt(3), 100)).unwrap();
    learn(&mut other, offer(2, pt(0), pt(1), 100)).unwrap();
    learn(&mut other, offer(1, pt(0), pt(3), 100)).unwrap();
    assert_eq!(other.compose(pt(0), pt(3), 0), first);
}

#[test]
fn paths_of_equal_length_are_ordered_by_operator() {
    let mut segs = Segments::new();
    // Two one-segment paths; the order must follow the operators' bytes, not learning order.
    let (a, b) = if op(1).as_bytes() < op(2).as_bytes() { (1, 2) } else { (2, 1) };
    learn(&mut segs, offer(b, pt(0), pt(1), 100)).unwrap();
    learn(&mut segs, offer(a, pt(0), pt(1), 100)).unwrap();
    let paths = segs.compose(pt(0), pt(1), 0);
    assert_eq!(paths.len(), 2);
    assert_eq!(paths[0].segments()[0].operator, op(a));
    assert_eq!(paths[1].segments()[0].operator, op(b));
}

#[test]
fn a_path_names_everyone_who_could_break_it() {
    let mut segs = Segments::new();
    for i in 0..4u32 {
        learn(&mut segs, offer(i + 1, pt(i), pt(i + 1), 100)).unwrap();
    }
    let p = &segs.compose(pt(0), pt(4), 0)[0];
    let named = p.accountable();
    assert_eq!(named.len(), 4);
    for i in 0..4u32 {
        assert!(named.contains(&op(i + 1)), "operator {i} unnamed");
    }
    // Each once, in byte order.
    assert_eq!(named, sorted_unique(named.clone()));
}

#[test]
fn an_operator_of_two_segments_is_named_once() {
    let a = offer(1, pt(0), pt(1), 100);
    let b = offer(1, pt(1), pt(2), 100);
    let p = assemble(vec![a, b], 0).unwrap();
    assert_eq!(p.accountable(), vec![op(1)]);
}
