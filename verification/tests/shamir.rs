use karst::shamir::{add, combine, inv, mul, pow, split, sub, Share, P};

#[test]
fn any_threshold_subset_reconstructs() {
    let secret = 0x0123_4567_89ab_cdefu128 % P;
    let shares = split(secret, 3, 5, 42);

    for combo in [[0, 1, 2], [0, 2, 4], [1, 3, 4], [2, 3, 4]] {
        let subset: Vec<Share> = combo.iter().map(|i| shares[*i]).collect();
        assert_eq!(combine(&subset), Some(secret), "combo {combo:?} failed");
    }
}

#[test]
fn fewer_than_the_threshold_learns_nothing() {
    let secret = 999_331u128;
    let shares = split(secret, 3, 5, 7);

    let two: Vec<Share> = shares[..2].to_vec();
    assert_ne!(combine(&two), Some(secret));

    let other: Vec<Share> = vec![shares[2], shares[4]];
    assert_ne!(combine(&two), combine(&other));
}

#[test]
fn more_than_the_threshold_still_works() {
    let secret = 4242u128;
    let shares = split(secret, 2, 5, 1);
    assert_eq!(combine(&shares), Some(secret));
}

#[test]
fn duplicate_indices_are_refused_rather_than_producing_nonsense() {
    let shares = split(1234, 2, 3, 1);
    let dup = vec![shares[0], shares[0]];
    assert_eq!(combine(&dup), None);
}

#[test]
fn a_single_issuer_split_is_just_the_secret() {
    let shares = split(77, 1, 3, 1);
    for s in &shares {
        assert_eq!(combine(&[*s]), Some(77));
    }
}

// Shares are numbered from one, one per issuer.
#[test]
fn shares_are_numbered_from_one() {
    let shares = split(5, 2, 4, 9);
    let idx: Vec<u64> = shares.iter().map(|s| s.index).collect();
    assert_eq!(idx, vec![1, 2, 3, 4]);
    assert!(shares.iter().all(|s| s.value < P));
}

// The field arithmetic reduces mod P.
#[test]
fn field_arithmetic_reduces_mod_p() {
    assert_eq!(add(P - 1, 2), 1);
    assert_eq!(sub(0, 1), P - 1);
    assert_eq!(mul(P + 2, 3), 6);
    assert_eq!(pow(2, 61), 1);
    assert_eq!(pow(3, 0), 1);
    assert_eq!(mul(5, inv(5)), 1);
    assert_eq!(mul(123456789, inv(123456789)), 1);
}

// Nothing to combine is refused.
#[test]
fn no_shares_reconstruct_nothing() {
    assert_eq!(combine(&[]), None);
}

// A different seed gives different shares of the same secret.
#[test]
fn the_seed_draws_the_coefficients() {
    let a = split(10, 2, 3, 1);
    let b = split(10, 2, 3, 2);
    assert_ne!(a, b);
    assert_eq!(combine(&a[..2]), Some(10));
    assert_eq!(combine(&b[1..]), Some(10));
}
