use karst::codec::Cid;
use karst::watch::FeedWatch;

fn cid(n: u8) -> Cid {
    Cid::of(&[n])
}

#[test]
fn providers_that_agree_are_reported_as_agreeing() {
    let mut w = FeedWatch::new();
    for p in [1u16, 2, 3] {
        for c in 0..5u8 {
            w.record(p, cid(c));
        }
    }
    w.end_round(&[1, 2, 3]);
    assert!(w.agreed());
    assert!(w.lagging().is_empty());
}

#[test]
fn a_provider_missing_content_is_named() {
    let mut w = FeedWatch::new();
    for c in 0..5u8 {
        w.record(1, cid(c));
        w.record(2, cid(c));
        if c < 3 {
            w.record(3, cid(c));
        }
    }
    w.end_round(&[1, 2, 3]);

    let lag = w.lagging();
    assert_eq!(lag.len(), 1);
    assert_eq!(lag[0].provider, 3);
    assert_eq!(lag[0].missing.len(), 2);
    assert!(!w.agreed());
}

#[test]
fn catching_up_clears_the_report() {
    let mut w = FeedWatch::new();
    w.record(1, cid(0));
    w.record(1, cid(1));
    w.record(2, cid(0));
    w.end_round(&[1, 2]);
    assert_eq!(w.lagging().len(), 1);

    w.record(2, cid(1));
    w.end_round(&[1, 2]);
    assert!(w.lagging().is_empty(), "a caught-up replica is still accused");
}

#[test]
fn only_persistent_absence_counts_as_withholding() {
    let mut w = FeedWatch::new();
    w.record(1, cid(0));
    w.record(2, cid(0));

    for c in 1..10u8 {
        w.record(1, cid(c));
        w.end_round(&[1, 2]);
    }
    assert!(w.persistently_behind(20).is_empty());
    let stubborn = w.persistently_behind(5);
    assert_eq!(stubborn.len(), 1);
    assert_eq!(stubborn[0].provider, 2);
    assert!(stubborn[0].rounds_behind >= 9);
}

#[test]
fn a_provider_not_asked_is_not_accused() {
    let mut w = FeedWatch::new();
    w.record(1, cid(0));
    w.record(1, cid(1));
    for _ in 0..10 {
        w.end_round(&[1]);
    }
    assert!(w.lagging().is_empty());
    assert!(w.persistently_behind(1).is_empty());
}

#[test]
fn a_colluding_replica_set_looks_exactly_like_a_healthy_one() {
    let mut honest = FeedWatch::new();
    let mut deceived = FeedWatch::new();
    for p in [1u16, 2, 3] {
        for c in 0..6u8 {
            honest.record(p, cid(c));
        }
        for c in 0..4u8 {
            deceived.record(p, cid(c));
        }
    }
    honest.end_round(&[1, 2, 3]);
    deceived.end_round(&[1, 2, 3]);

    assert!(honest.agreed());
    assert!(
        deceived.agreed(),
        "if this ever fails, the mechanism became stronger than its own documentation"
    );
    assert_ne!(honest.known().len(), deceived.known().len());
}

#[test]
fn replication_adds_parties_who_can_omit_and_none_who_can_lie() {
    let mut w = FeedWatch::new();
    w.record(1, cid(0));
    w.record(2, cid(0));
    assert_eq!(w.known().len(), 1);
    w.end_round(&[1, 2]);
    assert!(w.agreed());
}

// Reports come longest behind first, ties to the lower provider, and list what is missing in
// ascending order.
#[test]
fn reports_are_ordered_longest_behind_first() {
    let mut w = FeedWatch::new();
    for c in 0..4u8 {
        w.record(1, cid(c));
    }
    w.record(4, cid(0));
    w.end_round(&[4]);
    w.end_round(&[4, 3]);
    w.record(2, cid(1));
    w.end_round(&[2, 3]);
    let lag = w.lagging();
    let order: Vec<(u16, u32)> = lag.iter().map(|l| (l.provider, l.rounds_behind)).collect();
    assert_eq!(order, vec![(3, 2), (4, 2), (2, 1)]);
    let mut missing = lag[2].missing.clone();
    missing.sort();
    assert_eq!(lag[2].missing, missing);
    assert_eq!(lag[2].missing.len(), 3);
    assert_eq!(w.rounds(), 3);
}

// A provider listed twice in one round is counted behind once.
#[test]
fn a_provider_asked_twice_in_a_round_is_counted_once() {
    let mut w = FeedWatch::new();
    w.record(1, cid(0));
    w.record(1, cid(1));
    w.record(2, cid(0));
    w.end_round(&[1, 2, 2]);
    assert_eq!(w.rounds(), 1);
    let lag = w.lagging();
    assert_eq!(lag.len(), 1);
    assert_eq!(lag[0].provider, 2);
    assert_eq!(lag[0].missing, vec![cid(1)]);
    assert_eq!(lag[0].rounds_behind, 1);
}

// Recording the same thing twice is recording it once.
#[test]
fn recording_twice_changes_nothing() {
    let mut w = FeedWatch::new();
    w.record(1, cid(0));
    w.record(2, cid(0));
    w.record(1, cid(0));
    assert_eq!(w.known().len(), 1);
    w.end_round(&[1, 2]);
    assert!(w.agreed());
}
