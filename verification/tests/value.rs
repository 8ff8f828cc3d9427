use karst::value::{
    BlindError, BlindedMessage, Credential, EarnLedger, EarnedWarrant, IssuerSet, SpendLedger, ValueError, Wallet,
    UNIT,
};

#[test]
fn credentials_cannot_be_minted_from_nothing() {
    let mut earn = EarnLedger::new();
    let relay = [7u8; 32];

    assert_eq!(
        earn.draw(&EarnedWarrant { relay, units: 5, epoch: 1 }),
        Err(ValueError::Unearned { requested: 5, earned: 0 })
    );

    earn.credit(relay, 10);
    assert!(earn.draw(&EarnedWarrant { relay, units: 6, epoch: 1 }).is_ok());
    assert_eq!(earn.balance(&relay), 4);

    assert_eq!(
        earn.draw(&EarnedWarrant { relay, units: 5, epoch: 1 }),
        Err(ValueError::Unearned { requested: 5, earned: 4 })
    );
}

#[test]
fn a_serial_cannot_be_spent_twice_at_one_verifier() {
    let serial = [11u8; 32];
    let mut led = SpendLedger::new();
    assert!(led.accept(serial, true).is_ok());
    assert_eq!(led.accept(serial, true), Err(ValueError::AlreadySpent));
    assert_eq!(led.spent_count(), 1);
}

#[test]
fn two_disconnected_verifiers_both_accept_the_same_credential() {
    let serial = [12u8; 32];
    let mut a = SpendLedger::new();
    let mut b = SpendLedger::new();
    assert!(a.accept(serial, true).is_ok());
    assert!(
        b.accept(serial, true).is_ok(),
        "offline verification cannot see another verifier's ledger"
    );
}

#[test]
fn a_forged_credential_does_not_verify() {
    let mut led = SpendLedger::new();
    assert_eq!(led.accept([13u8; 32], false), Err(ValueError::Invalid));
    assert_eq!(led.spent_count(), 0);
}

// Every accepted credential is recorded at exactly one unit, in order.
#[test]
fn every_accepted_credential_is_one_unit() {
    let mut led = SpendLedger::new();
    for i in 0..5u8 {
        let rec = led.accept([i; 32], true).unwrap();
        assert_eq!(rec.units, UNIT);
        assert_eq!(rec.serial, [i; 32]);
    }
    assert_eq!(led.records().len(), 5);
    assert_eq!(led.records()[3].serial, [3u8; 32]);
}

// Credit and draw move the balance by exactly their amounts, per relay.
#[test]
fn earning_and_drawing_balance_per_relay() {
    let mut earn = EarnLedger::new();
    let a = [1u8; 32];
    let b = [2u8; 32];
    earn.credit(a, 3);
    earn.credit(b, 1);
    earn.credit(a, 2);
    assert_eq!(earn.balance(&a), 5);
    assert_eq!(earn.balance(&b), 1);
    assert!(earn.draw(&EarnedWarrant { relay: a, units: 5, epoch: 2 }).is_ok());
    assert_eq!(earn.balance(&a), 0);
    assert_eq!(earn.balance(&b), 1);
    assert!(earn.draw(&EarnedWarrant { relay: [9u8; 32], units: 0, epoch: 2 }).is_ok());
    assert_eq!(earn.balance(&[9u8; 32]), 0);
}

// A wallet keeps what it asked about and hands back the most recent first.
#[test]
fn a_wallet_hands_back_its_latest_request_first() {
    let w0 = EarnedWarrant { relay: [1u8; 32], units: 2, epoch: 3 };
    let mut w: Wallet<u32> = Wallet::new();
    let q = w
        .request([5u8; 32], Ok((BlindedMessage::new(vec![9, 9]), 50)), w0.clone())
        .unwrap();
    assert_eq!(q.blinded.to_bytes(), vec![9, 9]);
    assert_eq!(q.warrant, w0);
    w.request([6u8; 32], Ok((BlindedMessage::new(vec![8]), 60)), w0.clone()).unwrap();
    assert!(w.request([7u8; 32], Err(BlindError::Malformed), w0.clone()).is_err());
    assert_eq!(w.pending(), 2);
    assert_eq!(w.take_pending().unwrap(), ([6u8; 32], 60));
    assert_eq!(w.take_pending().unwrap(), ([5u8; 32], 50));
    assert!(w.take_pending().is_err());

    let c = Credential::assemble([5u8; 32], Ok(77u64)).unwrap();
    assert_eq!(c.serial, [5u8; 32]);
    assert_eq!(*c.signature(), 77);
    assert!(Credential::<u64>::assemble([5u8; 32], Err(BlindError::BadSignature)).is_err());
}

// An issuer set exists only over a key that was generated.
#[test]
fn an_issuer_set_needs_a_generated_key() {
    let s = IssuerSet::new(3, 5, Ok("key")).unwrap();
    assert_eq!(s.threshold, 3);
    assert_eq!(*s.key(), "key");
    assert_eq!(IssuerSet::<u8>::new(3, 5, Err(BlindError::KeyGeneration)).err(), Some(ValueError::Invalid));
    assert_eq!(BlindError::NotValid.describe(), "credential does not verify");
}
