use karst::wire::WireStats;
use karst::checks::Checks;

#[test]
fn failed_checks_are_kept_in_order() {
    let mut c = Checks::new();
    assert!(c.require(true, "first"));
    assert!(!c.require(false, "second"));
    assert!(!c.require(false, "third"));
    assert_eq!(c.failed, vec!["second".to_string(), "third".to_string()]);
}

#[test]
fn a_datagram_of_the_wrong_size_is_counted_and_dropped() {
    let mut s = WireStats::default();
    assert!(!s.note_received(10, 800, true));
    assert!(!s.note_received(800, 800, false));
    assert!(s.note_received(800, 800, true));
    s.note_sent();
    assert_eq!(
        s,
        WireStats {
            sent: 1,
            received: 3,
            wrong_size: 1,
            undecodable: 1
        }
    );
}
