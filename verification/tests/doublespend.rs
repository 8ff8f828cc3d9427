use karst::codec::Address;
use karst::doublespend::{recover_holder, Challenge, IdentityShares, SHARES};

fn holder(n: u8) -> Address {
    Address::from_raw(*blake3::hash(&[n]).as_bytes())
}

fn shares_for(h: Address) -> IdentityShares {
    IdentityShares::split(h, &[42u8; 32])
}

#[test]
fn a_single_spend_reveals_nothing() {
    let s = shares_for(holder(1));
    let opening = s.open(&Challenge::from_seed(b"verifier one"));
    assert_eq!(opening.len(), SHARES);
    assert!(recover_holder(&opening, &opening, [0u8; 32]).is_none());
}

#[test]
fn spending_twice_reveals_the_holder() {
    let h = holder(2);
    let s = shares_for(h);
    let a = s.open(&Challenge::from_seed(b"verifier one"));
    let b = s.open(&Challenge::from_seed(b"verifier two"));
    let proof = recover_holder(&a, &b, [9u8; 32]).expect("double spend must be provable");
    assert_eq!(proof.holder, h);
    assert!(proof.revealing_positions > 10);
}

#[test]
fn identical_challenges_reveal_nothing_and_the_api_says_so() {
    let s = shares_for(holder(3));
    let c = Challenge::from_seed(b"same");
    assert!(recover_holder(&s.open(&c), &s.open(&c), [0u8; 32]).is_none());
}

#[test]
fn openings_from_different_credentials_do_not_frame_anyone() {
    let a = IdentityShares::split(holder(4), &[1u8; 32]);
    let b = IdentityShares::split(holder(5), &[2u8; 32]);
    let oa = a.open(&Challenge::from_seed(b"one"));
    let ob = b.open(&Challenge::from_seed(b"two"));
    assert!(recover_holder(&oa, &ob, [0u8; 32]).is_none());
}

#[test]
fn the_commitment_binds_the_shares() {
    let h = holder(6);
    let a = IdentityShares::split(h, &[1u8; 32]);
    let b = IdentityShares::split(h, &[2u8; 32]);
    assert_ne!(a.commitment(), b.commitment(), "different blinding must give a different commitment");
    assert_eq!(a.commitment(), a.clone().commitment());
}

#[test]
fn many_holders_are_each_recovered_correctly() {
    for seed in 0..20u8 {
        let h = holder(seed);
        let s = IdentityShares::split(h, &[seed ^ 0xff; 32]);
        let a = s.open(&Challenge::from_seed(&[seed, 1]));
        let b = s.open(&Challenge::from_seed(&[seed, 2]));
        let p = recover_holder(&a, &b, [seed; 32]).unwrap();
        assert_eq!(p.holder, h, "seed {seed}");
    }
}

// Challenges differing in exactly one bit reveal the holder through exactly that position.
#[test]
fn one_differing_position_is_enough() {
    let h = holder(7);
    let s = shares_for(h);
    let mut x = [0u8; 8];
    let c1 = Challenge::from_bytes(x);
    x[3] = 0b0000_0100;
    let c2 = Challenge::from_bytes(x);
    assert!(!c1.bit(26) && c2.bit(26));
    let p = recover_holder(&s.open(&c1), &s.open(&c2), [1u8; 32]).unwrap();
    assert_eq!(p.holder, h);
    assert_eq!(p.revealing_positions, 1);
    assert_eq!(p.serial, [1u8; 32]);
}
