//! Carrying things too large for the mix network.
//!
//! A manifest is signed and names every chunk by content address, so a chunk fetched over any
//! path is checked against it: integrity survives the exposed path, privacy does not. What a
//! direct fetch reveals is enumerated in [`Exposure`], and which chunks take it is decided by
//! the reader's [`Policy`], in quantities the publisher does not control.
use vstd::prelude::*;
use crate::codec::Cid;

verus! {

/// How a reader chose to fetch something.
#[derive(Debug, Clone, Copy, PartialEq, Eq)]
pub enum Carriage {
    /// Over the mix network. Sender and receiver concealed, slowly.
    Mixed,
    /// Straight to a provider. Fast, and everything in [`Exposure`] applies.
    Direct,
}

/// What a carriage choice reveals, enumerated so a caller cannot claim they were not told.
#[derive(Debug, Clone, Copy, PartialEq, Eq)]
pub struct Exposure {
    /// The carrier learns the reader's network address.
    pub reader_address: bool,
    /// The carrier learns which content addresses the reader asked for.
    pub content_requested: bool,
    /// An observer of the link learns how much was transferred and when.
    pub volume_and_timing: bool,
    /// The carrier can serve wrong bytes without being caught.
    pub can_substitute: bool,
}

impl Carriage {
    /// What fetching this way reveals. The mixed path reveals nothing, the direct path the
    /// reader's address, what was asked for and the traffic's shape; neither lets a carrier
    /// substitute content.
    pub fn exposure(&self) -> (e: Exposure)
        ensures
            e.reader_address == (*self == Carriage::Direct),
            e.content_requested == (*self == Carriage::Direct),
            e.volume_and_timing == (*self == Carriage::Direct),
            !e.can_substitute,
    {
        match self {
            Carriage::Mixed => Exposure {
                reader_address: false,
                content_requested: false,
                volume_and_timing: false,
                can_substitute: false,
            },
            Carriage::Direct => Exposure {
                reader_address: true,
                content_requested: true,
                volume_and_timing: true,
                can_substitute: false,
            },
        }
    }
}

/// What a reader intends to fetch, and how.
#[derive(Debug, Clone, PartialEq, Eq)]
pub struct FetchPlan {
    /// Fetched over the mix network, the manifest first.
    pub mixed: Vec<Cid>,
    /// Fetched directly. The exposure applies.
    pub direct: Vec<Cid>,
    /// Bytes that will cross the exposed path.
    pub exposed_bytes: u64,
    /// Bytes in the whole fetch, exposed or not.
    pub total_bytes: u64,
}

impl FetchPlan {
    /// Whether anything at all crosses the exposed path.
    pub fn leaks(&self) -> (r: bool)
        ensures
            r == (self.direct@.len() > 0),
    {
        self.direct.len() > 0
    }
}

/// The largest object that goes over the mix network by default.
pub const DEFAULT_MIXED_LIMIT: u64 = 65536;

/// The most a reader will let cross the exposed path by default.
pub const DEFAULT_EXPOSURE_BUDGET: u64 = 536870912;

/// What a reader is willing to reveal, expressed before they see the content.
#[derive(Debug, Clone, Copy, PartialEq, Eq)]
pub struct Policy {
    /// Objects at or below this go over the mix network. Publisher-influenced, so advisory.
    pub mixed_limit: u64,
    /// Total bytes allowed across the exposed path. Not publisher-influenced.
    pub exposure_budget: u64,
    /// Refuse exposure entirely, whatever it costs in time.
    pub never_expose: bool,
}

impl Default for Policy {
    fn default() -> (p: Self)
        ensures
            p == (Policy {
                mixed_limit: DEFAULT_MIXED_LIMIT,
                exposure_budget: DEFAULT_EXPOSURE_BUDGET,
                never_expose: false,
            }),
    {
        Policy {
            mixed_limit: DEFAULT_MIXED_LIMIT,
            exposure_budget: DEFAULT_EXPOSURE_BUDGET,
            never_expose: false,
        }
    }
}

impl Policy {
    /// Everything over the mix network, however slow.
    pub fn private() -> (p: Self)
        ensures
            p == (Policy {
                mixed_limit: DEFAULT_MIXED_LIMIT,
                exposure_budget: DEFAULT_EXPOSURE_BUDGET,
                never_expose: true,
            }),
    {
        Policy {
            mixed_limit: DEFAULT_MIXED_LIMIT,
            exposure_budget: DEFAULT_EXPOSURE_BUDGET,
            never_expose: true,
        }
    }
}

/// The sizes of the chunks, added up.
pub open spec fn size_sum(chunks: Seq<(Cid, u64)>) -> nat
    decreases chunks.len(),
{
    if chunks.len() == 0 {
        0
    } else {
        size_sum(chunks.drop_last()) + chunks.last().1 as nat
    }
}

/// Whether a chunk of `size` goes over the mix network when `exposed` bytes are already
/// planned for the direct path: it is small, the reader never exposes, or it would take the
/// exposed total past the budget.
pub open spec fn goes_mixed(policy: Policy, exposed: nat, size: u64) -> bool {
    size <= policy.mixed_limit || policy.never_expose || exposed + size > policy.exposure_budget
}

/// The mixed list, the direct list and the exposed bytes after deciding the first `n` chunks.
pub open spec fn plan_prefix(manifest: Cid, chunks: Seq<(Cid, u64)>, policy: Policy, n: nat) -> (
    Seq<Cid>,
    Seq<Cid>,
    nat,
)
    decreases n,
{
    if n == 0 {
        (seq![manifest], Seq::empty(), 0)
    } else {
        let (m, d, e) = plan_prefix(manifest, chunks, policy, (n - 1) as nat);
        let (c, size) = chunks[n - 1];
        if goes_mixed(policy, e, size) {
            (m.push(c), d, e)
        } else {
            (m, d.push(c), e + size as nat)
        }
    }
}

/// The whole plan.
pub open spec fn plan_spec(manifest: Cid, chunks: Seq<(Cid, u64)>, policy: Policy) -> (
    Seq<Cid>,
    Seq<Cid>,
    nat,
) {
    plan_prefix(manifest, chunks, policy, chunks.len())
}

proof fn lemma_size_sum_prefix(chunks: Seq<(Cid, u64)>, n: int)
    requires
        0 <= n < chunks.len(),
    ensures
        size_sum(chunks.take(n + 1)) == size_sum(chunks.take(n)) + chunks[n].1,
        size_sum(chunks.take(n + 1)) <= size_sum(chunks),
    decreases chunks.len(),
{
    assert(chunks.take(n + 1).drop_last() =~= chunks.take(n));
    if n + 1 == chunks.len() {
        assert(chunks.take(n + 1) =~= chunks);
    } else {
        lemma_size_sum_prefix(chunks.drop_last(), n);
        assert(chunks.drop_last().take(n + 1) =~= chunks.take(n + 1));
        assert(chunks.drop_last().take(n) =~= chunks.take(n));
    }
}

proof fn lemma_exposed_within_prefix(manifest: Cid, chunks: Seq<(Cid, u64)>, policy: Policy, n: nat)
    requires
        n <= chunks.len(),
    ensures
        plan_prefix(manifest, chunks, policy, n).2 <= size_sum(chunks.take(n as int)),
    decreases n,
{
    if n > 0 {
        lemma_exposed_within_prefix(manifest, chunks, policy, (n - 1) as nat);
        lemma_size_sum_prefix(chunks, n - 1);
    }
}

/// Add up the chunk sizes.
fn total_size(chunks: &[(Cid, u64)]) -> (t: u64)
    requires
        size_sum(chunks@) <= u64::MAX,
    ensures
        t == size_sum(chunks@),
{
    let mut t: u64 = 0;
    let mut i: usize = 0;
    assert(chunks@.take(0) =~= Seq::<(Cid, u64)>::empty());
    while i < chunks.len()
        invariant
            i <= chunks@.len(),
            size_sum(chunks@) <= u64::MAX,
            t == size_sum(chunks@.take(i as int)),
        decreases chunks@.len() - i,
    {
        proof {
            lemma_size_sum_prefix(chunks@, i as int);
        }
        t = t + chunks[i].1;
        i = i + 1;
    }
    assert(chunks@.take(i as int) =~= chunks@);
    t
}

/// Decide carriage per object.
///
/// The manifest always goes over the mix network, because it names everything else. A chunk
/// goes direct only when it is larger than `mixed_limit`, the reader allows exposure, and it
/// fits in what is left of the budget; anything else goes back onto the mix network rather
/// than being refused, so a publisher can make content slow but not unreadable.
pub fn plan_with(manifest: Cid, chunks: &[(Cid, u64)], policy: &Policy) -> (r: FetchPlan)
    requires
        size_sum(chunks@) <= u64::MAX,
    ensures
        r.mixed@ == plan_spec(manifest, chunks@, *policy).0,
        r.direct@ == plan_spec(manifest, chunks@, *policy).1,
        r.exposed_bytes == plan_spec(manifest, chunks@, *policy).2,
        r.total_bytes == size_sum(chunks@),
{
    let mut mixed: Vec<Cid> = Vec::new();
    mixed.push(manifest);
    let mut direct: Vec<Cid> = Vec::new();
    let mut exposed_bytes: u64 = 0;
    let total_bytes = total_size(chunks);
    let mut i: usize = 0;
    assert(mixed@ =~= seq![manifest]);
    assert(direct@ =~= Seq::<Cid>::empty());
    while i < chunks.len()
        invariant
            i <= chunks@.len(),
            size_sum(chunks@) <= u64::MAX,
            mixed@ == plan_prefix(manifest, chunks@, *policy, i as nat).0,
            direct@ == plan_prefix(manifest, chunks@, *policy, i as nat).1,
            exposed_bytes == plan_prefix(manifest, chunks@, *policy, i as nat).2,
        decreases chunks@.len() - i,
    {
        proof {
            lemma_exposed_within_prefix(manifest, chunks@, *policy, i as nat);
            lemma_size_sum_prefix(chunks@, i as int);
        }
        let (cid, size) = chunks[i];
        let small = size <= policy.mixed_limit;
        let over_budget = exposed_bytes.saturating_add(size) > policy.exposure_budget;
        if small || policy.never_expose || over_budget {
            mixed.push(cid);
        } else {
            direct.push(cid);
            exposed_bytes = exposed_bytes + size;
        }
        i = i + 1;
    }
    FetchPlan { mixed, direct, exposed_bytes, total_bytes }
}

/// Plan under the default policy with the given per-object limit.
pub fn plan(manifest: Cid, chunks: &[(Cid, u64)], mixed_limit: u64) -> (r: FetchPlan)
    requires
        size_sum(chunks@) <= u64::MAX,
    ensures
        ({
            let policy = Policy {
                mixed_limit,
                exposure_budget: DEFAULT_EXPOSURE_BUDGET,
                never_expose: false,
            };
            &&& r.mixed@ == plan_spec(manifest, chunks@, policy).0
            &&& r.direct@ == plan_spec(manifest, chunks@, policy).1
            &&& r.exposed_bytes == plan_spec(manifest, chunks@, policy).2
            &&& r.total_bytes == size_sum(chunks@)
        }),
{
    plan_with(
        manifest,
        chunks,
        &Policy { mixed_limit, exposure_budget: DEFAULT_EXPOSURE_BUDGET, never_expose: false },
    )
}


proof fn lemma_plan_prefix(manifest: Cid, chunks: Seq<(Cid, u64)>, policy: Policy, n: nat)
    requires
        n <= chunks.len(),
    ensures
        ({
            let (m, d, e) = plan_prefix(manifest, chunks, policy, n);
            &&& m.len() >= 1 && m[0] == manifest
            &&& e <= policy.exposure_budget
            &&& m.len() + d.len() == n + 1
            &&& policy.never_expose ==> d.len() == 0 && e == 0
            &&& (forall|i: int| 0 <= i < n ==> (#[trigger] chunks[i]).1 <= policy.mixed_limit)
                ==> d.len() == 0 && e == 0
        }),
    decreases n,
{
    if n > 0 {
        lemma_plan_prefix(manifest, chunks, policy, (n - 1) as nat);
        let (m, d, e) = plan_prefix(manifest, chunks, policy, (n - 1) as nat);
        if (forall|i: int| 0 <= i < n ==> (#[trigger] chunks[i]).1 <= policy.mixed_limit) {
            assert(chunks[n - 1].1 <= policy.mixed_limit);
        }
    }
}

proof fn lemma_direct_iff_exposed(manifest: Cid, chunks: Seq<(Cid, u64)>, policy: Policy, n: nat)
    requires
        n <= chunks.len(),
    ensures
        plan_prefix(manifest, chunks, policy, n).1.len() > 0 <==> plan_prefix(manifest, chunks, policy, n).2 > 0,
    decreases n,
{
    if n > 0 {
        lemma_direct_iff_exposed(manifest, chunks, policy, (n - 1) as nat);
    }
}

/// What a plan promises the reader however the publisher chunked the work: the manifest goes
/// first over the mix network; every chunk is planned exactly once, so refusing exposure
/// costs time and never access; the exposed total stays within the reader's budget and within
/// the fetch, and is positive exactly when something goes direct, that is when the plan leaks; a reader who never exposes is never exposed; and content made only of small
/// chunks never leaves the mix network.
pub proof fn law_the_reader_bounds_what_is_exposed(
    manifest: Cid,
    chunks: Seq<(Cid, u64)>,
    policy: Policy,
)
    ensures
        ({
            let (m, d, e) = plan_spec(manifest, chunks, policy);
            &&& m.len() >= 1 && m[0] == manifest
            &&& m.len() + d.len() == chunks.len() + 1
            &&& e <= policy.exposure_budget
            &&& e <= size_sum(chunks)
            &&& (d.len() > 0 <==> e > 0)
            &&& policy.never_expose ==> d.len() == 0 && e == 0
            &&& (forall|i: int| 0 <= i < chunks.len() ==> (#[trigger] chunks[i]).1 <= policy.mixed_limit)
                ==> d.len() == 0 && e == 0
        }),
{
    lemma_plan_prefix(manifest, chunks, policy, chunks.len());
    lemma_exposed_within_prefix(manifest, chunks, policy, chunks.len());
    lemma_direct_iff_exposed(manifest, chunks, policy, chunks.len());
    assert(chunks.take(chunks.len() as int) =~= chunks);
}

} // verus!
