use karst::pacer::{Pacer, PacerStats, QueueFull, DEFAULT_CAPACITY};

/// A deterministic stand-in for the schedule's random gaps, from 0 to 99 ms.
struct Gaps(u64);

impl Gaps {
    fn next(&mut self) -> u64 {
        self.0 = self.0.wrapping_mul(6364136223846793005).wrapping_add(1442695040888963407);
        (self.0 >> 33) % 100
    }
}

/// Drive a pacer for a while and record exactly when it emitted.
fn schedule_of(seed: u64, offer_every: Option<u64>, ms: u64) -> (Vec<u64>, Pacer<u32>) {
    let mut gaps = Gaps(seed);
    let mut p: Pacer<u32> = Pacer::new(gaps.next());
    let mut times = Vec::new();
    for t in 0..ms {
        if let Some(k) = offer_every {
            if t % k == 0 {
                let _ = p.offer(t as u32);
            }
        }
        while p.is_due(t) {
            let g = gaps.next();
            let _ = p.emit(g);
            times.push(t);
        }
    }
    (times, p)
}

#[test]
fn emission_timing_is_identical_whether_saturated_or_silent() {
    let (silent, _) = schedule_of(99, None, 20_000);
    let (busy, _) = schedule_of(99, Some(5), 20_000);
    assert!(silent.len() > 300, "vacuous: only {} emissions", silent.len());
    assert_eq!(silent, busy);
}

#[test]
fn a_silent_link_emits_a_full_stream_of_cover() {
    let (times, p) = schedule_of(7, None, 10_000);
    let s = p.stats();
    assert_eq!(s.real, 0);
    assert_eq!(s.cover as usize, times.len());
    assert!(s.cover > 150);
}

#[test]
fn volume_above_the_cover_rate_becomes_latency_not_bandwidth() {
    let (silent, _) = schedule_of(3, None, 10_000);
    let (times, p) = schedule_of(3, Some(2), 10_000);
    assert_eq!(times.len(), silent.len(), "demand leaked into the schedule");
    assert!(p.queued() > 300, "the backlog should be visible as a queue");
    assert_eq!(p.stats().real + p.stats().cover, times.len() as u64);
}

#[test]
fn real_packets_leave_in_the_order_offered() {
    let mut p: Pacer<u32> = Pacer::new(10);
    for i in 0..5u32 {
        p.offer(i).unwrap();
    }
    assert!(!p.is_due(9));
    assert!(p.is_due(10));
    let mut out = Vec::new();
    for _ in 0..7 {
        out.push(p.emit(0));
    }
    assert_eq!(out, vec![Some(0), Some(1), Some(2), Some(3), Some(4), None, None]);
    // A zero gap still moves the schedule on by one.
    assert_eq!(p.next_emit(), 17);
    assert_eq!(
        p.stats(),
        PacerStats {
            real: 5,
            cover: 2,
            offered: 5,
            refused: 0
        }
    );
}

#[test]
fn a_full_queue_refuses() {
    let mut p: Pacer<u32> = Pacer::new(1).with_capacity(4);
    for i in 0..4 {
        assert!(p.offer(i).is_ok());
    }
    assert_eq!(p.offer(9), Err(QueueFull));
    assert_eq!(p.stats().refused, 1);
    assert_eq!(p.stats().offered, 5);
    assert_eq!(p.queued(), 4);
}

#[test]
fn the_schedule_saturates_rather_than_wrapping() {
    let mut p: Pacer<u32> = Pacer::new(u64::MAX - 1);
    assert_eq!(p.emit(10), None);
    assert_eq!(p.next_emit(), u64::MAX);
    assert!(p.is_due(u64::MAX));
    assert_eq!(PacerStats::default().cover, 0);
    assert_eq!(DEFAULT_CAPACITY, 4096);
}
