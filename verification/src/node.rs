//! The queue a mix node keeps: what it has been given, when each thing is due to leave, and
//! what it refused and why.
//!
//! A packet is authenticated and checked for replay before anything here learns of it; this
//! module takes what the peel produced and decides. A held item leaves no earlier than its
//! release time. A full queue evicts the entry with the longest remaining hold, and an
//! arrival that would itself hold longest is the one refused, so a squatter cannot lock
//! honest traffic out and cannot push others out for free.
use vstd::prelude::*;
use crate::provider::sat_inc;
use crate::chance::{entropy_rng, shuffle_batch};

verus! {

broadcast use {vstd::std_specs::vec::group_vec_axioms, vstd::seq_lib::group_to_multiset_ensures};

/// Entries a node holds unless told otherwise.
pub const DEFAULT_CAPACITY: usize = 65536;

/// How long a replay tag is retained per epoch. It exceeds `MAX_DELAY_MS`, so a packet cannot
/// outlive the memory of having seen it.
pub const DEFAULT_EPOCH_MS: u64 = 60_000;

/// The longest a node will hold a packet.
pub const MAX_DELAY_MS: u32 = 30_000;

/// What a node has counted.
#[derive(Debug, Clone, Copy, PartialEq, Eq)]
pub struct NodeStats {
    /// Entries evicted to make room. Loss, and detectable as loss by loop cover.
    pub evicted: u64,
    pub accepted: u64,
    pub forwarded: u64,
    pub delivered: u64,
    pub cover_absorbed: u64,
    pub rejected_mac: u64,
    pub rejected_replay: u64,
    pub dropped_full: u64,
}

impl NodeStats {
    /// Nothing counted yet.
    pub open spec fn zero() -> NodeStats {
        NodeStats {
            evicted: 0,
            accepted: 0,
            forwarded: 0,
            delivered: 0,
            cover_absorbed: 0,
            rejected_mac: 0,
            rejected_replay: 0,
            dropped_full: 0,
        }
    }
}

impl Default for NodeStats {
    fn default() -> (s: Self)
        ensures
            s == NodeStats::zero(),
    {
        NodeStats {
            evicted: 0,
            accepted: 0,
            forwarded: 0,
            delivered: 0,
            cover_absorbed: 0,
            rejected_mac: 0,
            rejected_replay: 0,
            dropped_full: 0,
        }
    }
}

/// Why peeling a packet failed, as far as the node's counters care.
#[derive(Debug, Clone, PartialEq, Eq)]
pub enum PeelFault<E> {
    /// The packet did not authenticate.
    BadMac,
    /// The packet was seen before.
    Replay,
    /// Any other fault the packet layer reports.
    Other(E),
}

/// Why a node refused a packet.
#[derive(Debug, Clone, PartialEq, Eq)]
pub enum NodeError<E> {
    /// The packet itself was bad.
    Mix(PeelFault<E>),
    /// The queue is full and the arrival would hold longest.
    Congested,
    /// The requested delay exceeds what a node will hold.
    DelayTooLong,
}

/// What a successful peel yields.
#[derive(Debug)]
pub enum Peeled<P> {
    /// Send onward to hop `next` once the delay has passed.
    Forward { next: u16, delay_ms: u32, packet: P },
    /// Cover that ends here, still delayed.
    Drop { delay_ms: u32 },
    /// A payload that terminates here, still delayed.
    Deliver { delay_ms: u32, payload: Vec<u8> },
}

/// What a held entry becomes when its delay elapses.
pub enum Held<P> {
    Forward { next: u16, packet: P },
    Deliver { payload: Vec<u8> },
    Absorb,
}

/// An entry waiting for its delay to elapse.
pub struct Pending<P> {
    pub release_at: u64,
    pub what: Held<P>,
}

/// What a node emits once a delay has elapsed.
#[derive(Debug)]
pub enum Outbound<P> {
    /// Send onward to this hop id.
    Forward { next: u16, packet: P },
    /// This packet terminated here.
    Deliver { payload: Vec<u8> },
}

impl<P> Peeled<P> {
    /// The delay the sender asked for.
    pub open spec fn delay(self) -> u32 {
        match self {
            Peeled::Forward { delay_ms, .. } => delay_ms,
            Peeled::Drop { delay_ms } => delay_ms,
            Peeled::Deliver { delay_ms, .. } => delay_ms,
        }
    }

    /// What the node holds for it.
    pub open spec fn held(self) -> Held<P> {
        match self {
            Peeled::Forward { next, packet, .. } => Held::Forward { next, packet },
            Peeled::Drop { .. } => Held::Absorb,
            Peeled::Deliver { payload, .. } => Held::Deliver { payload },
        }
    }
}

/// `now + delay`, stopping at the largest time.
pub open spec fn release_time(now: u64, delay: u32) -> u64 {
    if now + delay > u64::MAX {
        u64::MAX
    } else {
        (now + delay) as u64
    }
}

/// `v + n`, stopping at the largest value.
pub open spec fn sat_add_n(v: u64, n: nat) -> u64 {
    if v + n > u64::MAX {
        u64::MAX
    } else {
        (v + n) as u64
    }
}

/// Entries in order of release, ties in arrival order.
pub open spec fn by_release<P>(s: Seq<Pending<P>>) -> bool {
    forall|i: int, j: int|
        0 <= i <= j < s.len() ==> #[trigger] s[i].release_at <= #[trigger] s[j].release_at
}

/// Where an arrival due at `r` joins: after every entry due no later than it.
pub open spec fn slot<P>(s: Seq<Pending<P>>, r: u64) -> nat
    decreases s.len(),
{
    if s.len() == 0 {
        0
    } else if s.last().release_at <= r {
        s.len()
    } else {
        slot(s.drop_last(), r)
    }
}

/// The queue with an arrival due at `r` placed at its slot.
pub open spec fn enqueue<P>(s: Seq<Pending<P>>, r: u64, w: Held<P>) -> Seq<Pending<P>> {
    s.insert(slot(s, r) as int, Pending { release_at: r, what: w })
}

/// Whether a queue of capacity `cap` takes an arrival due at `r`: there is room, or the entry
/// holding longest is due later than the arrival and makes way for it.
pub open spec fn takes<P>(s: Seq<Pending<P>>, cap: nat, r: u64) -> bool {
    s.len() < cap || s.last().release_at > r
}

/// The queue after offering it an arrival due at `r`.
pub open spec fn admitted<P>(s: Seq<Pending<P>>, cap: nat, r: u64, w: Held<P>) -> Seq<Pending<P>> {
    if s.len() < cap {
        enqueue(s, r, w)
    } else if s.last().release_at > r {
        enqueue(s.drop_last(), r, w)
    } else {
        s
    }
}

/// The counters after offering a queue an arrival due at `r`.
pub open spec fn admit_counts<P>(c: NodeStats, s: Seq<Pending<P>>, cap: nat, r: u64) -> NodeStats {
    if s.len() < cap {
        c
    } else if s.last().release_at > r {
        NodeStats { dropped_full: sat_inc(c.dropped_full), evicted: sat_inc(c.evicted), ..c }
    } else {
        NodeStats { dropped_full: sat_inc(c.dropped_full), ..c }
    }
}

/// The counters after a peel that succeeded.
pub open spec fn peel_counts<P>(c: NodeStats, p: Peeled<P>) -> NodeStats {
    match p {
        Peeled::Drop { .. } => NodeStats {
            accepted: sat_inc(c.accepted),
            cover_absorbed: sat_inc(c.cover_absorbed),
            ..c
        },
        _ => NodeStats { accepted: sat_inc(c.accepted), ..c },
    }
}

/// The counters after a peel that failed.
pub open spec fn fault_counts<E>(c: NodeStats, f: PeelFault<E>) -> NodeStats {
    match f {
        PeelFault::BadMac => NodeStats { rejected_mac: sat_inc(c.rejected_mac), ..c },
        PeelFault::Replay => NodeStats { rejected_replay: sat_inc(c.rejected_replay), ..c },
        PeelFault::Other(_) => c,
    }
}

/// What leaves when the entries `s` are released, in release order; absorbed cover leaves
/// nothing.
pub open spec fn released<P>(s: Seq<Pending<P>>) -> Seq<Outbound<P>>
    decreases s.len(),
{
    if s.len() == 0 {
        Seq::empty()
    } else {
        let rest = released(s.drop_last());
        match s.last().what {
            Held::Absorb => rest,
            Held::Deliver { payload } => rest.push(Outbound::Deliver { payload }),
            Held::Forward { next, packet } => rest.push(Outbound::Forward { next, packet }),
        }
    }
}

/// Entries among `s` that deliver locally.
pub open spec fn count_deliveries<P>(s: Seq<Pending<P>>) -> nat
    decreases s.len(),
{
    if s.len() == 0 {
        0
    } else {
        count_deliveries(s.drop_last()) + if s.last().what is Deliver {
            1nat
        } else {
            0nat
        }
    }
}

/// Entries among `s` that forward onward.
pub open spec fn count_forwards<P>(s: Seq<Pending<P>>) -> nat
    decreases s.len(),
{
    if s.len() == 0 {
        0
    } else {
        count_forwards(s.drop_last()) + if s.last().what is Forward {
            1nat
        } else {
            0nat
        }
    }
}

/// The counters after releasing the entries `s`.
pub open spec fn release_counts<P>(c: NodeStats, s: Seq<Pending<P>>) -> NodeStats {
    NodeStats {
        delivered: sat_add_n(c.delivered, count_deliveries(s)),
        forwarded: sat_add_n(c.forwarded, count_forwards(s)),
        ..c
    }
}

proof fn lemma_slot_bound<P>(s: Seq<Pending<P>>, r: u64)
    ensures
        slot(s, r) <= s.len(),
    decreases s.len(),
{
    if s.len() > 0 && s.last().release_at > r {
        lemma_slot_bound(s.drop_last(), r);
    }
}

/// In an ordered queue the entries before the slot are due no later than `r` and those
/// from it on are due later.
proof fn lemma_slot_splits<P>(s: Seq<Pending<P>>, r: u64)
    requires
        by_release(s),
    ensures
        slot(s, r) <= s.len(),
        forall|i: int| 0 <= i < slot(s, r) ==> #[trigger] s[i].release_at <= r,
        forall|i: int| slot(s, r) <= i < s.len() ==> #[trigger] s[i].release_at > r,
    decreases s.len(),
{
    lemma_slot_bound(s, r);
    if s.len() > 0 {
        let t = s.drop_last();
        assert(by_release(t)) by {
            assert forall|i: int, j: int| 0 <= i <= j < t.len() implies #[trigger] t[i].release_at
                <= #[trigger] t[j].release_at by {
                assert(s[i].release_at <= s[j].release_at);
            }
        }
        lemma_slot_splits(t, r);
        if s.last().release_at <= r {
            assert forall|i: int| 0 <= i < slot(s, r) implies #[trigger] s[i].release_at <= r by {
                assert(s[i].release_at <= s[s.len() - 1].release_at);
            }
        } else {
            assert forall|i: int| slot(s, r) <= i < s.len() implies #[trigger] s[i].release_at
                > r by {
                if i < s.len() - 1 {
                    assert(t[i].release_at > r);
                }
            }
            assert forall|i: int| 0 <= i < slot(s, r) implies #[trigger] s[i].release_at <= r by {
                assert(t[i].release_at <= r);
            }
        }
    }
}

proof fn lemma_enqueue_ordered<P>(s: Seq<Pending<P>>, r: u64, w: Held<P>)
    requires
        by_release(s),
    ensures
        by_release(enqueue(s, r, w)),
        enqueue(s, r, w).len() == s.len() + 1,
{
    lemma_slot_splits(s, r);
    let k = slot(s, r) as int;
    let t = enqueue(s, r, w);
    assert forall|i: int, j: int| 0 <= i <= j < t.len() implies #[trigger] t[i].release_at
        <= #[trigger] t[j].release_at by {
        if i < k && j < k {
            assert(s[i].release_at <= s[j].release_at);
        } else if i < k && j == k {
            assert(s[i].release_at <= r);
        } else if i < k {
            assert(s[i].release_at <= s[j - 1].release_at);
        } else if i == k && j > k {
            assert(s[j - 1].release_at > r);
        } else if i > k {
            assert(s[i - 1].release_at <= s[j - 1].release_at);
        }
    }
}

proof fn lemma_drop_last_ordered<P>(s: Seq<Pending<P>>)
    requires
        by_release(s),
        s.len() > 0,
    ensures
        by_release(s.drop_last()),
        forall|i: int| 0 <= i < s.len() ==> #[trigger] s[i].release_at <= s.last().release_at,
{
    let t = s.drop_last();
    assert forall|i: int, j: int| 0 <= i <= j < t.len() implies #[trigger] t[i].release_at
        <= #[trigger] t[j].release_at by {
        assert(s[i].release_at <= s[j].release_at);
    }
    assert forall|i: int| 0 <= i < s.len() implies #[trigger] s[i].release_at
        <= s.last().release_at by {
        assert(s[i].release_at <= s[s.len() - 1].release_at);
    }
}

/// A queue stays within its capacity and in release order, whatever it is offered.
pub proof fn law_a_queue_stays_within_its_capacity<P>(s: Seq<Pending<P>>, cap: nat, r: u64, w: Held<P>)
    requires
        by_release(s),
        1 <= cap,
        s.len() <= cap,
    ensures
        by_release(admitted(s, cap, r, w)),
        admitted(s, cap, r, w).len() <= cap,
{
    if s.len() < cap {
        lemma_enqueue_ordered(s, r, w);
    } else if s.last().release_at > r {
        lemma_drop_last_ordered(s);
        lemma_enqueue_ordered(s.drop_last(), r, w);
    }
}

/// Releasing at `now` takes exactly the entries due no later than `now`; whatever remains is
/// due later. Nothing leaves early, however many other entries arrive or leave.
pub proof fn law_nothing_leaves_early<P>(s: Seq<Pending<P>>, now: u64)
    requires
        by_release(s),
    ensures
        forall|i: int|
            0 <= i < slot(s, now) ==> #[trigger] s.take(slot(s, now) as int)[i].release_at <= now,
        forall|i: int|
            0 <= i < s.len() - slot(s, now) ==> #[trigger] s.skip(slot(s, now) as int)[i].release_at
                > now,
        s.take(slot(s, now) as int) + s.skip(slot(s, now) as int) == s,
{
    lemma_slot_splits(s, now);
    let k = slot(s, now) as int;
    assert forall|i: int| 0 <= i < s.len() - k implies #[trigger] s.skip(k)[i].release_at
        > now by {
        assert(s[i + k].release_at > now);
    }
    assert(s.take(k) + s.skip(k) =~= s);
}

/// An arrival joins behind every entry due no later than it and ahead of every entry due
/// after it; nothing already queued moves relative to anything else.
pub proof fn law_arrivals_keep_their_place<P>(s: Seq<Pending<P>>, r: u64, w: Held<P>)
    requires
        by_release(s),
    ensures
        enqueue(s, r, w)[slot(s, r) as int] == (Pending { release_at: r, what: w }),
        forall|i: int|
            0 <= i < slot(s, r) ==> #[trigger] enqueue(s, r, w)[i] == s[i] && s[i].release_at <= r,
        forall|i: int|
            slot(s, r) < i <= s.len() ==> #[trigger] enqueue(s, r, w)[i] == s[i - 1] && s[i
                - 1].release_at > r,
{
    lemma_slot_splits(s, r);
}

/// When a full queue is offered an arrival, the entry holding longest loses. If nothing
/// queued is due later than the arrival, the arrival is refused and the queue is unchanged;
/// otherwise the queued entry due last, which is due no earlier than any other, makes way.
pub proof fn law_the_longest_hold_loses<P>(s: Seq<Pending<P>>, cap: nat, r: u64, w: Held<P>)
    requires
        by_release(s),
        1 <= cap,
        s.len() == cap,
    ensures
        (forall|i: int| 0 <= i < s.len() ==> #[trigger] s[i].release_at <= r) ==> !takes(s, cap, r)
            && admitted(s, cap, r, w) == s,
        (exists|i: int| 0 <= i < s.len() && #[trigger] s[i].release_at > r) ==> {
            &&& takes(s, cap, r)
            &&& admitted(s, cap, r, w) == enqueue(s.drop_last(), r, w)
            &&& forall|i: int| 0 <= i < s.len() ==> #[trigger] s[i].release_at <= s.last().release_at
        },
{
    lemma_drop_last_ordered(s);
    if forall|i: int| 0 <= i < s.len() ==> #[trigger] s[i].release_at <= r {
        assert(s[s.len() - 1].release_at <= r);
    }
}

/// The entries a node holds, ordered by release, with its counters.
pub struct HoldQueue<P> {
    queue: Vec<Pending<P>>,
    capacity: usize,
    stats: NodeStats,
    shuffler: rand::rngs::StdRng,
}

impl<P> HoldQueue<P> {
    /// The entries held, in release order.
    pub closed spec fn held(&self) -> Seq<Pending<P>> {
        self.queue@
    }

    /// The most entries the queue holds.
    pub closed spec fn cap(&self) -> nat {
        self.capacity as nat
    }

    /// What the queue has counted.
    pub closed spec fn counts(&self) -> NodeStats {
        self.stats
    }

    /// Ordered by release, within capacity.
    pub closed spec fn wf(&self) -> bool {
        &&& self.queue@.len() <= self.capacity
        &&& by_release(self.queue@)
    }

    /// An empty queue of the default capacity.
    pub fn new() -> (q: Self)
        ensures
            q.wf(),
            q.held() == Seq::<Pending<P>>::empty(),
            q.cap() == DEFAULT_CAPACITY,
            q.counts() == NodeStats::zero(),
    {
        HoldQueue::with_capacity(DEFAULT_CAPACITY)
    }

    /// An empty queue holding at most `capacity` entries. A queue of capacity zero can be
    /// built, and refuses or counts what fails to peel, but cannot admit anything.
    pub fn with_capacity(capacity: usize) -> (q: Self)
        ensures
            q.wf(),
            q.held() == Seq::<Pending<P>>::empty(),
            q.cap() == capacity,
            q.counts() == NodeStats::zero(),
    {
        HoldQueue {
            queue: Vec::new(),
            capacity,
            stats: NodeStats::default(),
            shuffler: entropy_rng(),
        }
    }

    pub fn stats(&self) -> (s: NodeStats)
        ensures
            s == self.counts(),
    {
        self.stats
    }

    pub fn queued(&self) -> (n: usize)
        ensures
            n == self.held().len(),
    {
        self.queue.len()
    }

    pub fn capacity(&self) -> (n: usize)
        ensures
            n == self.cap(),
    {
        self.capacity
    }

    /// How long until the entry due first is due, measured from `now_ms`; `None` when nothing
    /// is held.
    pub fn next_due_in(&self, now_ms: u64) -> (d: Option<u64>)
        ensures
            self.held().len() == 0 ==> d is None,
            self.held().len() > 0 ==> d == Some(
                if self.held()[0].release_at > now_ms {
                    (self.held()[0].release_at - now_ms) as u64
                } else {
                    0u64
                },
            ),
    {
        if self.queue.len() == 0 {
            None
        } else {
            Some(self.queue[0].release_at.saturating_sub(now_ms))
        }
    }

    /// Decide what becomes of a packet peeled at `now_ms`.
    ///
    /// A failed peel is counted and refused without touching the queue. A delay beyond
    /// `MAX_DELAY_MS` is refused before anything is counted. Anything else is held until
    /// `now_ms` plus its delay, subject to the capacity rule of `takes`.
    pub fn settle<E>(&mut self, now_ms: u64, peeled: Result<Peeled<P>, PeelFault<E>>) -> (r: Result<
        (),
        NodeError<E>,
    >)
        requires
            old(self).wf(),
            peeled matches Ok(p) && p.delay() <= MAX_DELAY_MS ==> old(self).cap() >= 1,
        ensures
            final(self).wf(),
            final(self).cap() == old(self).cap(),
            (match peeled {
                Err(f) => {
                    &&& r == Err::<(), NodeError<E>>(NodeError::Mix(f))
                    &&& final(self).held() == old(self).held()
                    &&& final(self).counts() == fault_counts(old(self).counts(), f)
                },
                Ok(p) => if p.delay() > MAX_DELAY_MS {
                    &&& r == Err::<(), NodeError<E>>(NodeError::DelayTooLong)
                    &&& final(self).held() == old(self).held()
                    &&& final(self).counts() == old(self).counts()
                } else {
                    let at = release_time(now_ms, p.delay());
                    &&& final(self).held() == admitted(old(self).held(), old(self).cap(), at, p.held())
                    &&& final(self).counts() == admit_counts(
                        peel_counts(old(self).counts(), p),
                        old(self).held(),
                        old(self).cap(),
                        at,
                    )
                    &&& (r is Ok <==> takes(old(self).held(), old(self).cap(), at))
                    &&& (r is Err ==> r == Err::<(), NodeError<E>>(NodeError::Congested))
                },
            }),
    {
        match peeled {
            Err(PeelFault::BadMac) => {
                self.stats.rejected_mac = if self.stats.rejected_mac == u64::MAX {
                    u64::MAX
                } else {
                    self.stats.rejected_mac + 1
                };
                Err(NodeError::Mix(PeelFault::BadMac))
            },
            Err(PeelFault::Replay) => {
                self.stats.rejected_replay = if self.stats.rejected_replay == u64::MAX {
                    u64::MAX
                } else {
                    self.stats.rejected_replay + 1
                };
                Err(NodeError::Mix(PeelFault::Replay))
            },
            Err(f) => Err(NodeError::Mix(f)),
            Ok(Peeled::Forward { next, delay_ms, packet }) => {
                if delay_ms > MAX_DELAY_MS {
                    return Err(NodeError::DelayTooLong);
                }
                self.stats.accepted = if self.stats.accepted == u64::MAX {
                    u64::MAX
                } else {
                    self.stats.accepted + 1
                };
                let at = now_ms.saturating_add(delay_ms as u64);
                self.hold(at, Held::Forward { next, packet })
            },
            Ok(Peeled::Drop { delay_ms }) => {
                if delay_ms > MAX_DELAY_MS {
                    return Err(NodeError::DelayTooLong);
                }
                self.stats.accepted = if self.stats.accepted == u64::MAX {
                    u64::MAX
                } else {
                    self.stats.accepted + 1
                };
                // Cover is delayed and counted like anything else, so the hop where it ends
                // is not told apart by timing.
                self.stats.cover_absorbed = if self.stats.cover_absorbed == u64::MAX {
                    u64::MAX
                } else {
                    self.stats.cover_absorbed + 1
                };
                let at = now_ms.saturating_add(delay_ms as u64);
                self.hold(at, Held::Absorb)
            },
            Ok(Peeled::Deliver { delay_ms, payload }) => {
                if delay_ms > MAX_DELAY_MS {
                    return Err(NodeError::DelayTooLong);
                }
                self.stats.accepted = if self.stats.accepted == u64::MAX {
                    u64::MAX
                } else {
                    self.stats.accepted + 1
                };
                let at = now_ms.saturating_add(delay_ms as u64);
                self.hold(at, Held::Deliver { payload })
            },
        }
    }

    /// Everything due by `now_ms`, rearranged so that a batch does not leave in arrival order.
    pub fn due(&mut self, now_ms: u64) -> (out: Vec<Outbound<P>>)
        requires
            old(self).wf(),
        ensures
            final(self).wf(),
            final(self).cap() == old(self).cap(),
            final(self).held() == old(self).held().skip(slot(old(self).held(), now_ms) as int),
            out@.to_multiset() == released(
                old(self).held().take(slot(old(self).held(), now_ms) as int),
            ).to_multiset(),
            final(self).counts() == release_counts(
                old(self).counts(),
                old(self).held().take(slot(old(self).held(), now_ms) as int),
            ),
    {
        let mut out = self.release_through(now_ms);
        shuffle_batch(&mut out, &mut self.shuffler);
        out
    }

    /// Everything due by `now_ms`, in release order.
    fn release_through(&mut self, now_ms: u64) -> (out: Vec<Outbound<P>>)
        requires
            old(self).wf(),
        ensures
            final(self).wf(),
            final(self).cap() == old(self).cap(),
            final(self).held() == old(self).held().skip(slot(old(self).held(), now_ms) as int),
            out@ == released(old(self).held().take(slot(old(self).held(), now_ms) as int)),
            final(self).counts() == release_counts(
                old(self).counts(),
                old(self).held().take(slot(old(self).held(), now_ms) as int),
            ),
    {
        let ghost s0 = self.queue@;
        let ghost c0 = self.stats;
        let k = join_point(&self.queue, now_ms);
        let mut front = self.queue.split_off(k);
        std::mem::swap(&mut self.queue, &mut front);
        assert(self.queue@ == s0.skip(k as int));
        assert(by_release(self.queue@)) by {
            let t = self.queue@;
            assert forall|i: int, j: int| 0 <= i <= j < t.len() implies #[trigger] t[i].release_at
                <= #[trigger] t[j].release_at by {
                assert(s0[i + k].release_at <= s0[j + k].release_at);
            }
        }
        let mut rev: Vec<Pending<P>> = Vec::new();
        while front.len() > 0
            invariant
                k <= s0.len(),
                front@ == s0.take(front@.len() as int),
                front@.len() + rev@.len() == k,
                forall|i: int| 0 <= i < rev@.len() ==> #[trigger] rev@[i] == s0[k - 1 - i],
            decreases front@.len(),
        {
            let ghost m = front@.len();
            match front.pop() {
                Some(p) => {
                    rev.push(p);
                },
                None => {},
            }
            assert(front@ == s0.take(m - 1));
        }
        let mut out: Vec<Outbound<P>> = Vec::new();
        let mut stats = self.stats;
        let mut j: usize = 0;
        while rev.len() > 0
            invariant
                k <= s0.len(),
                j + rev@.len() == k,
                forall|i: int| 0 <= i < rev@.len() ==> #[trigger] rev@[i] == s0[k - 1 - i],
                out@ == released(s0.take(j as int)),
                stats == release_counts(c0, s0.take(j as int)),
            decreases rev@.len(),
        {
            let ghost t1 = s0.take(j + 1);
            assert(t1.drop_last() == s0.take(j as int));
            match rev.pop() {
                Some(p) => {
                    assert(p == s0[j as int]);
                    match p.what {
                        Held::Absorb => {},
                        Held::Deliver { payload } => {
                            stats.delivered = if stats.delivered == u64::MAX {
                                u64::MAX
                            } else {
                                stats.delivered + 1
                            };
                            out.push(Outbound::Deliver { payload });
                        },
                        Held::Forward { next, packet } => {
                            stats.forwarded = if stats.forwarded == u64::MAX {
                                u64::MAX
                            } else {
                                stats.forwarded + 1
                            };
                            out.push(Outbound::Forward { next, packet });
                        },
                    }
                },
                None => {},
            }
            j = j + 1;
        }
        assert(s0.take(k as int) == s0.take(j as int));
        self.stats = stats;
        out
    }

    /// Put an entry in the queue, evicting the longest hold if the queue is full.
    fn hold<E>(&mut self, release_at: u64, what: Held<P>) -> (r: Result<(), NodeError<E>>)
        requires
            old(self).wf(),
            old(self).cap() >= 1,
        ensures
            final(self).wf(),
            final(self).cap() == old(self).cap(),
            final(self).held() == admitted(old(self).held(), old(self).cap(), release_at, what),
            final(self).counts() == admit_counts(
                old(self).counts(),
                old(self).held(),
                old(self).cap(),
                release_at,
            ),
            r is Ok <==> takes(old(self).held(), old(self).cap(), release_at),
            r is Err ==> r == Err::<(), NodeError<E>>(NodeError::Congested),
    {
        let ghost s0 = self.queue@;
        proof {
            law_a_queue_stays_within_its_capacity(s0, self.capacity as nat, release_at, what);
        }
        if self.queue.len() >= self.capacity {
            let worst = self.queue[self.queue.len() - 1].release_at;
            self.stats.dropped_full = if self.stats.dropped_full == u64::MAX {
                u64::MAX
            } else {
                self.stats.dropped_full + 1
            };
            if worst <= release_at {
                return Err(NodeError::Congested);
            }
            self.queue.pop();
            self.stats.evicted = if self.stats.evicted == u64::MAX {
                u64::MAX
            } else {
                self.stats.evicted + 1
            };
            assert(self.queue@ == s0.drop_last());
        }
        let k = join_point(&self.queue, release_at);
        self.queue.insert(k, Pending { release_at, what });
        Ok(())
    }
}

/// Where an arrival due at `r` joins the queue `q`.
fn join_point<P>(q: &Vec<Pending<P>>, r: u64) -> (k: usize)
    ensures
        k == slot(q@, r),
        k <= q@.len(),
{
    proof {
        lemma_slot_bound(q@, r);
    }
    let mut i = q.len();
    assert(q@.take(i as int) == q@);
    while i > 0 && q[i - 1].release_at > r
        invariant
            i <= q.len(),
            slot(q@, r) == slot(q@.take(i as int), r),
        decreases i,
    {
        assert(q@.take(i as int).drop_last() == q@.take(i - 1));
        i -= 1;
    }
    if i == 0 {
        assert(q@.take(0) == Seq::<Pending<P>>::empty());
    }
    i
}

} // verus!
