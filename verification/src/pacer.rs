//! Emission that does not depend on demand.
//!
//! A link that sends when there is something to send tells an observer who is talking and
//! when. The pacer's schedule is drawn with no reference to the queue: when an emission comes
//! due it takes a real packet if one is waiting and a cover packet otherwise, so what an
//! observer sees is the same either way. Offering more than the schedule carries does not
//! produce more packets; it produces a longer queue, and the message is late.
//!
//! The gaps between emissions are drawn by the caller; this holds the schedule's position, the
//! queue and the counters, and decides each slot.
use vstd::prelude::*;
use std::collections::VecDeque;
use crate::provider::sat_inc;

verus! {

/// Packets a pacer queues unless told otherwise.
pub const DEFAULT_CAPACITY: usize = 4096;

#[derive(Debug, Clone, Copy, PartialEq, Eq)]
pub struct PacerStats {
    pub real: u64,
    pub cover: u64,
    pub offered: u64,
    pub refused: u64,
}

impl PacerStats {
    pub open spec fn zero() -> PacerStats {
        PacerStats { real: 0, cover: 0, offered: 0, refused: 0 }
    }
}

impl Default for PacerStats {
    fn default() -> (s: Self)
        ensures
            s == PacerStats::zero(),
    {
        PacerStats { real: 0, cover: 0, offered: 0, refused: 0 }
    }
}

/// The queue is full; the packet was not taken.
#[derive(Debug, Clone, Copy, PartialEq, Eq)]
pub struct QueueFull;

/// A pacer as values.
pub struct PacerView<T> {
    /// When the next emission is due.
    pub next_emit: u64,
    /// Real packets waiting, oldest first.
    pub queue: Seq<T>,
    pub capacity: nat,
    pub stats: PacerStats,
}

/// What offering `p` does.
pub open spec fn offer_spec<T>(v: PacerView<T>, p: T) -> (PacerView<T>, Result<(), QueueFull>) {
    let counted = PacerStats { offered: sat_inc(v.stats.offered), ..v.stats };
    if v.queue.len() >= v.capacity {
        (
            PacerView { stats: PacerStats { refused: sat_inc(counted.refused), ..counted }, ..v },
            Err(QueueFull),
        )
    } else {
        (PacerView { queue: v.queue.push(p), stats: counted, ..v }, Ok(()))
    }
}

/// `t + gap`, at least one later, stopping at the largest time.
pub open spec fn after_gap(t: u64, gap: u64) -> u64 {
    let g = if gap < 1 {
        1
    } else {
        gap
    };
    if t + g > u64::MAX {
        u64::MAX
    } else {
        (t + g) as u64
    }
}

/// What filling one slot does, the next slot following `gap` after it: the oldest real packet
/// leaves if there is one, and otherwise the slot is cover.
pub open spec fn emit_spec<T>(v: PacerView<T>, gap: u64) -> (PacerView<T>, Option<T>) {
    let next = after_gap(v.next_emit, gap);
    if v.queue.len() > 0 {
        (
            PacerView {
                next_emit: next,
                queue: v.queue.drop_first(),
                stats: PacerStats { real: sat_inc(v.stats.real), ..v.stats },
                ..v
            },
            Some(v.queue[0]),
        )
    } else {
        (
            PacerView {
                next_emit: next,
                stats: PacerStats { cover: sat_inc(v.stats.cover), ..v.stats },
                ..v
            },
            None,
        )
    }
}

/// The link's schedule and queue.
pub struct Pacer<T> {
    next_emit: u64,
    queue: VecDeque<T>,
    capacity: usize,
    stats: PacerStats,
}

impl<T> View for Pacer<T> {
    type V = PacerView<T>;

    closed spec fn view(&self) -> PacerView<T> {
        PacerView {
            next_emit: self.next_emit,
            queue: self.queue@,
            capacity: self.capacity as nat,
            stats: self.stats,
        }
    }
}

impl<T> Pacer<T> {
    /// A pacer whose first emission is due at `first_gap`.
    pub fn new(first_gap: u64) -> (p: Self)
        ensures
            p@ == (PacerView::<T> {
                next_emit: first_gap,
                queue: Seq::empty(),
                capacity: DEFAULT_CAPACITY as nat,
                stats: PacerStats::zero(),
            }),
    {
        Pacer {
            next_emit: first_gap,
            queue: VecDeque::new(),
            capacity: DEFAULT_CAPACITY,
            stats: PacerStats::default(),
        }
    }

    pub fn with_capacity(self, capacity: usize) -> (p: Self)
        ensures
            p@ == (PacerView { capacity: capacity as nat, ..self@ }),
    {
        Pacer { capacity, ..self }
    }

    /// Hand a packet to the link. It leaves when the schedule says, not now.
    pub fn offer(&mut self, p: T) -> (r: Result<(), QueueFull>)
        ensures
            (final(self)@, r) == offer_spec(old(self)@, p),
    {
        self.stats.offered = if self.stats.offered == u64::MAX {
            u64::MAX
        } else {
            self.stats.offered + 1
        };
        if self.queue.len() >= self.capacity {
            self.stats.refused = if self.stats.refused == u64::MAX {
                u64::MAX
            } else {
                self.stats.refused + 1
            };
            return Err(QueueFull);
        }
        self.queue.push_back(p);
        Ok(())
    }

    /// Whether a slot is due at `now`.
    pub fn is_due(&self, now: u64) -> (b: bool)
        ensures
            b == (self@.next_emit <= now),
    {
        self.next_emit <= now
    }

    /// Fill the slot that is due and schedule the next one `gap` later (at least one). Returns
    /// the real packet that leaves, or `None` when the slot is to carry cover.
    pub fn emit(&mut self, gap: u64) -> (r: Option<T>)
        ensures
            (final(self)@, r) == emit_spec(old(self)@, gap),
    {
        let g = if gap < 1 {
            1
        } else {
            gap
        };
        let next = self.next_emit.saturating_add(g);
        self.next_emit = next;
        match self.queue.pop_front() {
            Some(p) => {
                self.stats.real = if self.stats.real == u64::MAX {
                    u64::MAX
                } else {
                    self.stats.real + 1
                };
                Some(p)
            },
            None => {
                self.stats.cover = if self.stats.cover == u64::MAX {
                    u64::MAX
                } else {
                    self.stats.cover + 1
                };
                None
            },
        }
    }

    /// When the next slot is due.
    pub fn next_emit(&self) -> (t: u64)
        ensures
            t == self@.next_emit,
    {
        self.next_emit
    }

    pub fn queued(&self) -> (n: usize)
        ensures
            n == self@.queue.len(),
    {
        self.queue.len()
    }

    pub fn stats(&self) -> (s: PacerStats)
        ensures
            s == self@.stats,
    {
        self.stats
    }
}

/// The instants a pacer starting at `start` emits at, given the gaps drawn after each slot.
pub open spec fn schedule(start: u64, gaps: Seq<u64>) -> Seq<u64>
    decreases gaps.len(),
{
    if gaps.len() == 0 {
        seq![start]
    } else {
        schedule(start, gaps.drop_last()).push(after_gap(schedule(start, gaps.drop_last()).last(), gaps.last()))
    }
}

/// One step of a pacer's life: an offer, or a slot filled with the given gap to the next.
pub enum Step<T> {
    Offer(T),
    Emit(u64),
}

/// The pacer after a run of steps.
pub open spec fn run<T>(v: PacerView<T>, steps: Seq<Step<T>>) -> PacerView<T>
    decreases steps.len(),
{
    if steps.len() == 0 {
        v
    } else {
        let w = run(v, steps.drop_last());
        match steps.last() {
            Step::Offer(p) => offer_spec(w, p).0,
            Step::Emit(gap) => emit_spec(w, gap).0,
        }
    }
}

/// The gaps drawn in a run of steps, in order.
pub open spec fn gaps_of<T>(steps: Seq<Step<T>>) -> Seq<u64>
    decreases steps.len(),
{
    if steps.len() == 0 {
        Seq::empty()
    } else {
        match steps.last() {
            Step::Offer(_) => gaps_of(steps.drop_last()),
            Step::Emit(gap) => gaps_of(steps.drop_last()).push(gap),
        }
    }
}

/// When a pacer emits does not depend on what it was offered: after any run of offers and
/// slots, the next slot is due at the instant the schedule of gaps alone gives, whatever the
/// queue held along the way.
pub proof fn law_the_schedule_ignores_the_queue<T>(v: PacerView<T>, steps: Seq<Step<T>>)
    ensures
        run(v, steps).next_emit == schedule(v.next_emit, gaps_of(steps)).last(),
    decreases steps.len(),
{
    if steps.len() > 0 {
        law_the_schedule_ignores_the_queue(v, steps.drop_last());
        let g = gaps_of(steps.drop_last());
        match steps.last() {
            Step::Offer(_) => {},
            Step::Emit(gap) => {
                assert(gaps_of(steps) == g.push(gap));
                assert(g.push(gap).drop_last() == g);
            },
        }
    }
}

/// Every slot carries exactly one packet, real or cover, so a silent link and a saturated
/// one emit as many packets; and the real ones leave in the order they were offered.
pub proof fn law_every_slot_carries_one_packet<T>(v: PacerView<T>, gap: u64)
    requires
        v.stats.real < u64::MAX,
        v.stats.cover < u64::MAX,
    ensures
        emit_spec(v, gap).0.stats.real + emit_spec(v, gap).0.stats.cover == v.stats.real
            + v.stats.cover + 1,
        v.queue.len() > 0 ==> emit_spec(v, gap).1 == Some(v.queue[0]) && emit_spec(v, gap).0.queue
            == v.queue.drop_first(),
        v.queue.len() == 0 ==> emit_spec(v, gap).1 is None,
{
}

/// A full queue refuses rather than growing, and counts the refusal.
pub proof fn law_a_full_queue_refuses<T>(v: PacerView<T>, p: T)
    requires
        v.queue.len() >= v.capacity,
        v.stats.refused < u64::MAX,
    ensures
        offer_spec(v, p).1 == Err::<(), QueueFull>(QueueFull),
        offer_spec(v, p).0.queue == v.queue,
        offer_spec(v, p).0.stats.refused == v.stats.refused + 1,
{
}

} // verus!
