use karst::codec::Address;
use karst::placement::{
    min_tenure, placement, placement_among, weight, Beacon, BeaconKey, Candidate, DEFAULT_REPLICAS,
};

fn addr(n: u32) -> Address {
    let mut raw = [0u8; 32];
    raw[..4].copy_from_slice(&n.to_le_bytes());
    Address::from_raw(*blake3::hash(&raw).as_bytes())
}

fn providers(n: u16) -> Vec<u16> {
    (0..n).collect()
}

#[test]
fn placement_is_deterministic() {
    let ps = providers(64);
    for i in 0..50u32 {
        let a = placement(&addr(i), 7, &ps, 3);
        let b = placement(&addr(i), 7, &ps, 3);
        assert_eq!(a, b);
        assert_eq!(a.len(), 3);
    }
}

#[test]
fn placement_spreads_across_providers() {
    let n = 32u16;
    let ps = providers(n);
    let mut counts = vec![0usize; n as usize];
    let trials = 20_000u32;
    for i in 0..trials {
        for p in placement(&addr(i), 0, &ps, 3) {
            counts[p as usize] += 1;
        }
    }
    let expected = trials as f64 * 3.0 / n as f64;
    for (p, c) in counts.iter().enumerate() {
        let dev = (*c as f64 - expected).abs() / expected;
        assert!(dev < 0.1, "provider {p} took {c}, {:.1}% off", dev * 100.0);
    }
}

#[test]
fn losing_a_provider_moves_only_its_own_publishers() {
    let ps = providers(48);
    let mut reduced = ps.clone();
    reduced.retain(|&p| p != 17);

    let mut moved = 0;
    let mut affected = 0;
    let trials = 4_000u32;
    for i in 0..trials {
        let before = placement(&addr(i), 0, &ps, 3);
        let after = placement(&addr(i), 0, &reduced, 3);
        if before.contains(&17) {
            affected += 1;
        } else if before != after {
            moved += 1;
        }
    }
    assert_eq!(moved, 0, "{moved} publishers moved without being affected");
    assert!(affected > 100, "vacuous: only {affected} were affected");
}

#[test]
fn placement_rotates_between_epochs() {
    let ps = providers(64);
    let mut changed = 0;
    for i in 0..200u32 {
        if placement(&addr(i), 0, &ps, 3) != placement(&addr(i), 1, &ps, 3) {
            changed += 1;
        }
    }
    assert!(changed > 150, "only {changed} of 200 sets rotated");
}

#[test]
fn asking_for_more_replicas_than_exist_returns_everything() {
    let ps = providers(2);
    assert_eq!(placement(&addr(1), 0, &ps, 5).len(), 2);
    assert!(placement(&addr(1), 0, &[], 3).is_empty());
}

#[test]
fn grinding_into_a_chosen_publishers_set_is_cheap() {
    let honest = providers(128);
    let target = addr(9_999);
    let k = DEFAULT_REPLICAS;

    let incumbent = placement(&target, 0, &honest, k);
    let b0 = Beacon::predictable(0);
    let bar = weight(&target, &b0, *incumbent.last().unwrap());

    let mut tries = 0u32;
    let mut candidate = 1_000u16;
    loop {
        tries += 1;
        if weight(&target, &b0, candidate) > bar {
            break;
        }
        candidate = candidate.wrapping_add(1);
        assert!(tries < 100_000, "could not grind a slot at all");
    }

    assert!(
        tries < 2_000,
        "grinding one slot took {tries} tries, which would make capture expensive"
    );
    assert!(tries <= 128 * 8, "measured {tries}");
}

#[test]
fn grinding_against_a_predictable_beacon_captures_any_epoch_you_like() {
    let honest = providers(128);
    let target = addr(4_242);
    let k = DEFAULT_REPLICAS;

    let far = 10_000u64;
    let future = Beacon::predictable(far);
    let bar = weight(
        &target,
        &future,
        *placement(&target, far, &honest, k).last().unwrap(),
    );
    let mut candidate = 5_000u16;
    let mut tries = 0;
    while weight(&target, &future, candidate) <= bar {
        candidate = candidate.wrapping_add(1);
        tries += 1;
        assert!(tries < 100_000);
    }
    let mut with_adversary = honest.clone();
    with_adversary.push(candidate);

    assert!(
        placement(&target, far, &with_adversary, k).contains(&candidate),
        "grinding for a chosen future epoch failed, which would be surprising"
    );
    assert!(tries < 2_000, "capturing a chosen future epoch took {tries} tries");
}

#[test]
fn a_newly_arrived_provider_cannot_be_assigned_yet() {
    let target = addr(77);
    let beacon = Beacon::new(100, [9u8; 32]);
    let established: Vec<Candidate> = (0..64u16)
        .map(|id| Candidate { id, joined_epoch: 10 })
        .collect();

    let mut with_newcomer = established.clone();
    let bar = weight(
        &target,
        &beacon,
        *placement_among(&target, &beacon, &established, DEFAULT_REPLICAS)
            .last()
            .unwrap(),
    );
    let mut id = 5_000u16;
    while weight(&target, &beacon, id) <= bar {
        id = id.wrapping_add(1);
    }
    with_newcomer.push(Candidate { id, joined_epoch: beacon.epoch });

    assert!(
        !placement_among(&target, &beacon, &with_newcomer, DEFAULT_REPLICAS).contains(&id),
        "an identity that arrived this epoch was assigned immediately"
    );

    let mut patient = established.clone();
    patient.push(Candidate { id, joined_epoch: beacon.epoch - min_tenure() });
    assert!(placement_among(&target, &beacon, &patient, DEFAULT_REPLICAS).contains(&id));
}

// Placement lists the heaviest first, and the order of the offer does not matter.
#[test]
fn placement_is_heaviest_first_whatever_the_offer_order() {
    let target = addr(5);
    let b = Beacon::predictable(3);
    let ps = providers(20);
    let mut rev = ps.clone();
    rev.reverse();
    let a = placement(&target, 3, &ps, 20);
    assert_eq!(a, placement(&target, 3, &rev, 20));
    for w in a.windows(2) {
        assert!(weight(&target, &b, w[0]) > weight(&target, &b, w[1]));
    }
}

// The predictable beacon is the hash of its domain and the epoch.
#[test]
fn the_predictable_beacon_is_computable_by_anyone() {
    let mut h = blake3::Hasher::new();
    h.update(b"karst.net.v1.predictable-beacon");
    h.update(&9u64.to_le_bytes());
    assert_eq!(Beacon::predictable(9).value, *h.finalize().as_bytes());
    assert_eq!(Beacon::predictable(9).epoch, 9);
    assert_eq!(min_tenure(), 2);
}

// The weight is the hash of the placement domain, the publisher, the beacon and the provider.
#[test]
fn a_weight_is_the_hash_of_what_it_binds() {
    let target = addr(1);
    let b = Beacon::new(4, [7u8; 32]);
    let mut h = blake3::Hasher::new();
    h.update(b"karst.net.v1.placement");
    h.update(target.as_bytes());
    h.update(&b.value);
    h.update(&300u16.to_le_bytes());
    assert_eq!(weight(&target, &b, 300), *h.finalize().as_bytes());
}

/// The heaviest `k` of providers that have all been present long enough.
fn rank(target: &Address, beacon: &Beacon, ids: &[u16], k: usize) -> Vec<u16> {
    let cands: Vec<Candidate> = ids.iter().map(|&id| Candidate { id, joined_epoch: 0 }).collect();
    placement_among(target, beacon, &cands, k)
}

#[test]
fn a_beacon_verifies_against_its_publisher_and_nobody_else() {
    let k = BeaconKey::from_seed([1u8; 32]);
    let other = BeaconKey::from_seed([2u8; 32]);

    let b = k.beacon(7);
    let checked = b.verify(&k.public()).expect("an honest beacon verifies");
    assert_eq!(checked.epoch, 7);
    assert_eq!(checked.value, b.value);

    assert!(
        b.verify(&other.public()).is_none(),
        "a beacon verified against a key that did not produce it"
    );
}

#[test]
fn a_publisher_cannot_shop_for_a_favourable_value() {
    let k = BeaconKey::from_seed([3u8; 32]);
    assert_eq!(k.beacon(11).value, k.beacon(11).value, "not deterministic");
    assert_ne!(k.beacon(11).value, k.beacon(12).value, "epochs collide");

    let j = BeaconKey::from_seed([4u8; 32]);
    assert_ne!(k.beacon(11).value, j.beacon(11).value);
}

#[test]
fn a_substituted_value_is_refused() {
    let k = BeaconKey::from_seed([5u8; 32]);
    let mut b = k.beacon(2);
    b.value[0] ^= 1;
    assert!(
        b.verify(&k.public()).is_none(),
        "a value that does not match its proof was accepted"
    );

    let mut c = k.beacon(2);
    c.epoch = 3;
    assert!(
        c.verify(&k.public()).is_none(),
        "a beacon was accepted for an epoch it was not computed for"
    );
}

#[test]
fn a_vrf_beacon_cannot_be_ground_against_in_advance() {
    let honest = providers(128);
    let target = addr(9_999);
    let k = DEFAULT_REPLICAS;
    let publisher = BeaconKey::from_seed([6u8; 32]);

    let future = 5u64;
    let guessed = Beacon::predictable(future);
    let incumbent = rank(&target, &guessed, &honest, k);
    let bar = weight(&target, &guessed, *incumbent.last().unwrap());
    let mut winner = 1_000u16;
    while weight(&target, &guessed, winner) <= bar {
        winner = winner.wrapping_add(1);
    }

    let real = publisher.beacon(future).verify(&publisher.public()).unwrap();
    let mut all = honest.clone();
    all.push(winner);
    assert!(
        !rank(&target, &real, &all, k).contains(&winner),
        "an identity ground in advance still landed, so the value was predictable"
    );
}

// Accepting a checked value: only the value the proof carries makes a beacon.
#[test]
fn a_checked_value_makes_a_beacon_only_when_it_matches() {
    let k = BeaconKey::from_seed([8u8; 32]);
    let b = k.beacon(9);
    assert_eq!(b.accept(Some(b.value)), Some(Beacon::new(9, b.value)));
    let mut other = b.value;
    other[5] ^= 0x80;
    assert_eq!(b.accept(Some(other)), None);
    assert_eq!(b.accept(None), None);
}

// A key expanded from one seed is the same key each time.
#[test]
fn a_seed_gives_one_key() {
    assert_eq!(BeaconKey::from_seed([4u8; 32]).public(), BeaconKey::from_seed([4u8; 32]).public());
    assert_ne!(BeaconKey::from_seed([4u8; 32]).public(), BeaconKey::from_seed([5u8; 32]).public());
    assert_ne!(BeaconKey::from_seed([4u8; 32]).public(), [4u8; 32]);
    let g = BeaconKey::generate();
    let b = g.beacon(1);
    assert!(b.verify(&g.public()).is_some());
}
