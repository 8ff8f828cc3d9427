use karst::node::{
    HoldQueue, NodeError, NodeStats, Outbound, PeelFault, Peeled, DEFAULT_EPOCH_MS, MAX_DELAY_MS,
};

type Q = HoldQueue<Vec<u8>>;

fn deliver(delay_ms: u32, tag: u8) -> Result<Peeled<Vec<u8>>, PeelFault<()>> {
    Ok(Peeled::Deliver {
        delay_ms,
        payload: vec![tag],
    })
}

fn forward(delay_ms: u32, next: u16) -> Result<Peeled<Vec<u8>>, PeelFault<()>> {
    Ok(Peeled::Forward {
        next,
        delay_ms,
        packet: vec![next as u8],
    })
}

fn fault(f: PeelFault<()>) -> Result<Peeled<Vec<u8>>, PeelFault<()>> {
    Err(f)
}

fn cover(delay_ms: u32) -> Result<Peeled<Vec<u8>>, PeelFault<()>> {
    Ok(Peeled::Drop { delay_ms })
}

fn payloads(out: Vec<Outbound<Vec<u8>>>) -> Vec<u8> {
    let mut v: Vec<u8> = out
        .into_iter()
        .map(|o| match o {
            Outbound::Deliver { payload } => payload[0],
            Outbound::Forward { packet, .. } => packet[0],
        })
        .collect();
    v.sort();
    v
}

#[test]
fn a_packet_is_held_for_its_delay_and_not_released_early() {
    let mut n: Q = HoldQueue::new();
    n.settle(0, deliver(50, 1)).unwrap();
    for t in 0..50 {
        assert!(n.due(t).is_empty(), "released early at t={t}");
    }
    assert_eq!(n.due(50).len(), 1);
}

#[test]
fn the_final_hop_is_delayed_too() {
    let mut n: Q = HoldQueue::new();
    n.settle(0, deliver(30, 1)).unwrap();
    assert!(n.due(29).is_empty());
    assert_eq!(n.due(30).len(), 1);
}

#[test]
fn statistics_distinguish_the_reasons_a_packet_was_refused() {
    let mut n: Q = HoldQueue::new();
    assert!(n.settle(0, deliver(1, 1)).is_ok());
    assert_eq!(
        n.settle(0, fault(PeelFault::Replay)),
        Err(NodeError::Mix(PeelFault::Replay))
    );
    assert_eq!(
        n.settle(0, fault(PeelFault::BadMac)),
        Err(NodeError::Mix(PeelFault::BadMac))
    );
    assert_eq!(
        n.settle(0, fault(PeelFault::Other(()))),
        Err(NodeError::Mix(PeelFault::Other(())))
    );
    let s = n.stats();
    assert_eq!(s.accepted, 1);
    assert_eq!(s.rejected_replay, 1);
    assert_eq!(s.rejected_mac, 1);
    assert_eq!(n.queued(), 1);
}

#[test]
fn next_due_in_lets_a_caller_sleep_instead_of_spinning() {
    let mut n: Q = HoldQueue::new();
    assert_eq!(n.next_due_in(10), None);
    n.settle(10, deliver(40, 1)).unwrap();
    assert_eq!(n.next_due_in(10), Some(40));
    assert_eq!(n.next_due_in(30), Some(20));
    assert_eq!(n.next_due_in(90), Some(0));
}

#[test]
fn an_absurd_delay_is_refused_rather_than_squatting_a_slot() {
    let mut n: Q = HoldQueue::new();
    assert_eq!(n.settle(0, deliver(u32::MAX, 3)), Err(NodeError::DelayTooLong));
    assert_eq!(n.queued(), 0);
    assert_eq!(n.stats(), NodeStats::default());
    assert!(n.settle(0, deliver(MAX_DELAY_MS, 4)).is_ok());
    assert!((MAX_DELAY_MS as u64) < DEFAULT_EPOCH_MS);
}

#[test]
fn congestion_is_reported_as_congestion() {
    let mut n: Q = HoldQueue::with_capacity(2);
    assert!(n.settle(0, deliver(500, 10)).is_ok());
    assert!(n.settle(0, deliver(500, 11)).is_ok());
    assert_eq!(n.settle(0, deliver(900, 12)), Err(NodeError::Congested));
    assert_eq!(n.stats().dropped_full, 1);
    assert_eq!(n.stats().rejected_replay, 0);
}

#[test]
fn a_squatter_cannot_lock_honest_traffic_out_of_a_full_queue() {
    let mut n: Q = HoldQueue::with_capacity(32);
    for i in 0..32u8 {
        n.settle(0, deliver(MAX_DELAY_MS, i)).unwrap();
    }
    assert_eq!(n.queued(), 32);
    for i in 0..32u8 {
        assert!(
            n.settle(0, deliver(40, 100 + i)).is_ok(),
            "honest packet {i} refused while a squatter held the queue"
        );
    }
    assert_eq!(n.stats().evicted, 32);
    let out = n.due(40);
    assert_eq!(out.len(), 32);
    assert_eq!(payloads(out), (100..132u8).collect::<Vec<u8>>());
    assert_eq!(n.queued(), 0);
}

#[test]
fn the_longest_hold_loses_even_when_it_is_the_new_arrival() {
    let mut n: Q = HoldQueue::with_capacity(4);
    for i in 0..4u8 {
        n.settle(0, deliver(100, i)).unwrap();
    }
    assert_eq!(n.settle(0, deliver(MAX_DELAY_MS, 50)), Err(NodeError::Congested));
    assert_eq!(n.stats().evicted, 0);
    assert_eq!(n.queued(), 4);
}

#[test]
fn flooding_does_not_flush_a_held_packet_on_demand() {
    let mut n: Q = HoldQueue::new();
    n.settle(0, deliver(400, 200)).unwrap();
    for i in 0..5000u32 {
        n.settle(1, deliver(0, (i % 200) as u8)).unwrap();
    }
    let flushed = n.due(1);
    assert_eq!(flushed.len(), 5000);
    assert_eq!(n.queued(), 1);
    assert!(n.due(399).is_empty());
    let last = n.due(400);
    assert_eq!(payloads(last), vec![200]);
}

#[test]
fn a_stopped_clock_holds_rather_than_leaks_or_drops() {
    let mut n: Q = HoldQueue::new();
    n.settle(1000, deliver(50, 1)).unwrap();
    for _ in 0..100 {
        assert!(n.due(1000).is_empty());
    }
    assert_eq!(n.queued(), 1);
    assert_eq!(n.due(1050).len(), 1);
}

#[test]
fn a_release_time_past_the_end_of_time_saturates() {
    let mut n: Q = HoldQueue::new();
    n.settle(u64::MAX - 10, deliver(1000, 1)).unwrap();
    assert_eq!(n.next_due_in(u64::MAX - 10), Some(10));
    assert!(n.due(u64::MAX - 1).is_empty());
    assert_eq!(n.due(u64::MAX).len(), 1);
}

#[test]
fn cover_is_held_counted_and_absorbed() {
    let mut n: Q = HoldQueue::new();
    n.settle(0, cover(5)).unwrap();
    n.settle(0, forward(5, 7)).unwrap();
    assert_eq!(n.queued(), 2);
    let out = n.due(5);
    assert_eq!(out.len(), 1);
    match &out[0] {
        Outbound::Forward { next, .. } => assert_eq!(*next, 7),
        Outbound::Deliver { .. } => panic!("expected a forward"),
    }
    let s = n.stats();
    assert_eq!(s.accepted, 2);
    assert_eq!(s.cover_absorbed, 1);
    assert_eq!(s.forwarded, 1);
    assert_eq!(s.delivered, 0);
    assert_eq!(n.queued(), 0);
}

#[test]
fn equal_release_times_keep_every_entry() {
    let mut n: Q = HoldQueue::new();
    for i in 0..64u8 {
        n.settle(0, deliver(100, i)).unwrap();
    }
    let out = n.due(100);
    assert_eq!(payloads(out), (0..64u8).collect::<Vec<u8>>());
    assert_eq!(n.stats().delivered, 64);
}

// A queue of capacity zero can be built; it refuses what fails to peel as any queue does.
#[test]
fn a_zero_capacity_queue_still_counts_faults() {
    let mut n: HoldQueue<Vec<u8>> = HoldQueue::with_capacity(0);
    assert_eq!(n.capacity(), 0);
    assert!(n.settle(0, fault(PeelFault::BadMac)).is_err());
    assert_eq!(n.stats().rejected_mac, 1);
    assert_eq!(n.queued(), 0);
}
