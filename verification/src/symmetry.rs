//! Why diversity-aware path selection backfires.
//!
//! A rule that prefers relays in under-populated neighbourhoods tells an adversary exactly
//! where to stand. This module holds the populations and the adversary's placement; the
//! weighting arithmetic that measures the effect is floating point and lives with the
//! simulation that reports it.
use vstd::prelude::*;

verus! {

/// How standing accrues to a node as it serves.
#[derive(Clone, Copy, Debug, PartialEq, Eq)]
pub enum Returns {
    /// Standing per node saturates at a ceiling. This is L16's proposal.
    Flat,
    /// Standing grows without bound with service volume. The control, and roughly how
    /// every deployed reputation system behaves.
    Linear,
}

/// A selection rule.
#[derive(Clone, Copy, Debug, PartialEq, Eq)]
pub enum Selection {
    /// Every relay equally likely.
    Uniform,
    /// Relays in under-populated neighbourhoods are preferred, weighted by scarcity.
    DiversityAware,
}

/// Honest and adversary relays per neighbourhood, under a selection rule.
#[derive(Clone, Debug)]
pub struct Placement {
    /// Honest relays per neighbourhood.
    pub honest: Vec<usize>,
    /// Adversary relays per neighbourhood, chosen by the adversary after reading the rule.
    pub adversary: Vec<usize>,
    pub rule: Selection,
}

/// Neighbourhood `a` is scarcer than `b`: fewer honest relays, ties to the lower index.
pub open spec fn scarcer(h: Seq<usize>, a: int, b: int) -> bool {
    h[a] < h[b] || (h[a] == h[b] && a < b)
}

/// How many of the first `n` neighbourhoods are scarcer than `i`: where `i` comes in the
/// scarcest-first order.
pub open spec fn scarcity_rank(h: Seq<usize>, i: int, n: nat) -> nat
    decreases n,
{
    if n == 0 {
        0
    } else {
        scarcity_rank(h, i, (n - 1) as nat) + if scarcer(h, n - 1, i) {
            1nat
        } else {
            0nat
        }
    }
}

/// How many neighbourhoods the adversary concentrates in: the four scarcest, or all of them
/// when there are fewer, and at least one.
pub open spec fn targets(n: nat) -> nat {
    if n == 0 {
        1
    } else if n < 4 {
        n
    } else {
        4
    }
}

/// Where an adversary with `budget` relays puts them: an equal share in each target
/// neighbourhood, the remainder in the scarcest, nothing elsewhere.
pub open spec fn adversary_at(h: Seq<usize>, budget: usize, i: int) -> int {
    let t = targets(h.len()) as int;
    let b = budget as int;
    let r = scarcity_rank(h, i, h.len());
    if r == 0 {
        b / t + b % t
    } else if r < t {
        b / t
    } else {
        0
    }
}

/// An adversary with `budget` relays, spread across the scarcest neighbourhoods.
pub fn place_adversarially(honest: &[usize], budget: usize) -> (adv: Vec<usize>)
    requires
        honest@.len() > 0 || budget == 0,
    ensures
        adv@.len() == honest@.len(),
        forall|i: int| 0 <= i < adv@.len() ==> adv@[i] == adversary_at(honest@, budget, i),
{
    let n = honest.len();
    let t: usize = if n == 0 {
        1
    } else if n < 4 {
        n
    } else {
        4
    };
    let per = budget / t;
    let rest = budget % t;
    let mut adv: Vec<usize> = Vec::new();
    let mut i: usize = 0;
    while i < n
        invariant
            n == honest@.len(),
            t == targets(n as nat),
            per == budget / t,
            rest == budget % t,
            i <= n,
            adv@.len() == i,
            forall|j: int| 0 <= j < i ==> adv@[j] == adversary_at(honest@, budget, j),
        decreases n - i,
    {
        let mut r: usize = 0;
        let mut j: usize = 0;
        while j < n
            invariant
                n == honest@.len(),
                i < n,
                j <= n,
                r == scarcity_rank(honest@, i as int, j as nat),
                r <= j,
            decreases n - j,
        {
            if honest[j] < honest[i] || (honest[j] == honest[i] && j < i) {
                r = r + 1;
            }
            j = j + 1;
        }
        let v = if r == 0 {
            assert(per + rest <= budget) by (nonlinear_arith)
                requires
                    per == budget / t,
                    rest == budget % t,
                    t > 0,
            ;
            per + rest
        } else if r < t {
            per
        } else {
            0
        };
        adv.push(v);
        i = i + 1;
    }
    adv
}

/// A skewed but realistic relay population: a few crowded networks, a long tail of empty
/// ones.
pub fn realistic_population() -> (v: Vec<usize>)
    ensures
        v@ == seq![3000usize, 2200, 1500, 900, 500, 300, 120, 60, 30, 12, 6, 3, 2, 1, 1, 1],
{
    let v = vec![3000usize, 2200, 1500, 900, 500, 300, 120, 60, 30, 12, 6, 3, 2, 1, 1, 1];
    assert(v@ =~= seq![3000usize, 2200, 1500, 900, 500, 300, 120, 60, 30, 12, 6, 3, 2, 1, 1, 1]);
    v
}

} // verus!
