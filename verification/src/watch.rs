//! Comparing what several providers show you.
//!
//! A reader who collects one feed from several providers records who served what. A provider
//! missing something another provider served is lagging; one that stays behind round after
//! round is withholding, or indistinguishable from it. Agreement among the providers asked is
//! not completeness: providers that all hide the same thing agree perfectly.
use vstd::prelude::*;
use crate::codec::{Cid, CidView, cid_key, lemma_cid_key_injective};
use crate::order::{compare_bytes, lex_lt, lemma_lex_asymmetric, lemma_lex_irreflexive, lemma_lex_total, lemma_lex_transitive};

verus! {

/// Identifiers strictly ascending by sort key, every digest within the longest length.
pub open spec fn ascending(s: Seq<CidView>) -> bool {
    &&& forall|i: int| 0 <= i < s.len() ==> (#[trigger] s[i]).digest.len() <= 64
    &&& forall|i: int, j: int| 0 <= i < j < s.len() ==> lex_lt(cid_key(s[i]), cid_key(s[j]))
}

/// `s` lists the set `set` in ascending order.
pub open spec fn lists(s: Seq<CidView>, set: Set<CidView>) -> bool {
    ascending(s) && s.to_set() == set
}

/// The values of a list of identifiers.
pub open spec fn views(s: Seq<Cid>) -> Seq<CidView> {
    s.map_values(|c: Cid| c@)
}

/// What one reader has been shown, as values: for each provider seen or asked, what it
/// served and in how many rounds it lacked something served elsewhere; everything served by
/// anyone; and how many rounds have finished.
pub struct WatchView {
    pub seen: Map<u16, (Set<CidView>, u32)>,
    pub everything: Set<CidView>,
    pub rounds: u32,
}

/// What `p` has served, empty if it has served nothing.
pub open spec fn held_of(w: WatchView, p: u16) -> Set<CidView> {
    if w.seen.dom().contains(p) {
        w.seen[p].0
    } else {
        Set::empty()
    }
}

/// Rounds in which `p` was behind, zero if it was never asked.
pub open spec fn behind_of(w: WatchView, p: u16) -> u32 {
    if w.seen.dom().contains(p) {
        w.seen[p].1
    } else {
        0
    }
}

/// What some provider served and `p` did not.
pub open spec fn missing_set(w: WatchView, p: u16) -> Set<CidView> {
    w.everything.difference(held_of(w, p))
}

/// `p` lacks something another provider served.
pub open spec fn is_behind(w: WatchView, p: u16) -> bool {
    exists|c: CidView| #[trigger] missing_set(w, p).contains(c)
}

/// The record after `p` served `c`.
pub open spec fn record_spec(w: WatchView, p: u16, c: CidView) -> WatchView {
    WatchView {
        seen: w.seen.insert(p, (held_of(w, p).insert(c), behind_of(w, p))),
        everything: w.everything.insert(c),
        rounds: w.rounds,
    }
}

/// The providers' records after a round in which each of `asked` was asked: each is entered if
/// new, and counted behind once more if it lacks something served elsewhere. A provider listed
/// twice in one round is counted once: being asked twice does not make it twice as suspect.
pub open spec fn ask_all(w: WatchView, asked: Seq<u16>) -> Map<u16, (Set<CidView>, u32)>
    decreases asked.len(),
{
    if asked.len() == 0 {
        w.seen
    } else {
        let m = ask_all(w, asked.drop_last());
        let p = asked.last();
        let v = WatchView { seen: m, ..w };
        if asked.drop_last().contains(p) {
            m
        } else {
            m.insert(
                p,
                (
                    held_of(v, p),
                    if is_behind(v, p) {
                        (behind_of(v, p) + 1) as u32
                    } else {
                        behind_of(v, p)
                    },
                ),
            )
        }
    }
}

/// The record after a round in which `asked` were asked.
pub open spec fn end_round_spec(w: WatchView, asked: Seq<u16>) -> WatchView {
    WatchView { seen: ask_all(w, asked), everything: w.everything, rounds: (w.rounds + 1) as u32 }
}

/// A provider that has fallen behind, and by how much, as values.
pub struct LagView {
    pub provider: u16,
    pub missing: Seq<CidView>,
    pub rounds_behind: u32,
}

/// `out` reports exactly the providers behind for at least `min_rounds` rounds, each once,
/// with what it lacks listed in order and its rounds behind; longest behind first, ties to
/// the lower provider.
pub open spec fn reports_lag(w: WatchView, out: Seq<LagView>, min_rounds: u32) -> bool {
    &&& forall|i: int|
        0 <= i < out.len() ==> {
            let l = #[trigger] out[i];
            &&& w.seen.dom().contains(l.provider)
            &&& lists(l.missing, missing_set(w, l.provider))
            &&& l.missing.len() > 0
            &&& l.rounds_behind == behind_of(w, l.provider)
            &&& l.rounds_behind >= min_rounds
        }
    &&& forall|p: u16|
        #![trigger w.seen.dom().contains(p)]
        w.seen.dom().contains(p) && is_behind(w, p) && behind_of(w, p) >= min_rounds ==> exists|
            i: int,
        | 0 <= i < out.len() && (#[trigger] out[i]).provider == p
    &&& forall|i: int, j: int|
        0 <= i < j < out.len() ==> (#[trigger] out[i]).rounds_behind > (#[trigger] out[j]).rounds_behind
            || (out[i].rounds_behind == out[j].rounds_behind && out[i].provider < out[j].provider)
}

/// A provider that has fallen behind, and by how much.
#[derive(Debug, Clone, PartialEq, Eq)]
pub struct Lagging {
    pub provider: u16,
    pub missing: Vec<Cid>,
    /// Rounds this provider has been missing something others had.
    pub rounds_behind: u32,
}

impl View for Lagging {
    type V = LagView;

    open spec fn view(&self) -> LagView {
        LagView {
            provider: self.provider,
            missing: views(self.missing@),
            rounds_behind: self.rounds_behind,
        }
    }
}

/// The values of a list of reports.
pub open spec fn lag_views(s: Seq<Lagging>) -> Seq<LagView> {
    s.map_values(|l: Lagging| l@)
}

struct Seen {
    provider: u16,
    held: Vec<Cid>,
    behind: u32,
}

spec fn seen_map(s: Seq<Seen>) -> Map<u16, (Set<CidView>, u32)>
    decreases s.len(),
{
    if s.len() == 0 {
        Map::empty()
    } else {
        seen_map(s.drop_last()).insert(
            s.last().provider,
            (views(s.last().held@).to_set(), s.last().behind),
        )
    }
}

/// Providers strictly ascending, each one's list ascending.
spec fn seen_ok(s: Seq<Seen>) -> bool {
    &&& forall|i: int, j: int| 0 <= i < j < s.len() ==> s[i].provider < s[j].provider
    &&& forall|i: int| 0 <= i < s.len() ==> ascending(views((#[trigger] s[i]).held@))
}

proof fn lemma_seen_map(s: Seq<Seen>)
    requires
        seen_ok(s),
    ensures
        forall|i: int|
            0 <= i < s.len() ==> #[trigger] seen_map(s).dom().contains(s[i].provider)
                && seen_map(s)[s[i].provider] == (views(s[i].held@).to_set(), s[i].behind),
        forall|p: u16|
            #[trigger] seen_map(s).dom().contains(p) ==> exists|i: int|
                0 <= i < s.len() && s[i].provider == p,
    decreases s.len(),
{
    if s.len() > 0 {
        let q = s.drop_last();
        assert(seen_ok(q)) by {
            assert forall|i: int| 0 <= i < q.len() implies ascending(views((#[trigger] q[i]).held@)) by {
                assert(q[i] == s[i]);
            }
        }
        lemma_seen_map(q);
        let last = s[s.len() - 1];
        assert forall|i: int| 0 <= i < s.len() implies #[trigger] seen_map(s).dom().contains(
            s[i].provider,
        ) && seen_map(s)[s[i].provider] == (views(s[i].held@).to_set(), s[i].behind) by {
            if i < s.len() - 1 {
                assert(s[i] == q[i]);
                assert(seen_map(q).dom().contains(q[i].provider));
            }
        }
        assert forall|p: u16| #[trigger] seen_map(s).dom().contains(p) implies exists|i: int|
            0 <= i < s.len() && s[i].provider == p by {
            if p != last.provider {
                assert(seen_map(q).dom().contains(p));
                let i = choose|i: int| 0 <= i < q.len() && q[i].provider == p;
                assert(s[i] == q[i]);
            } else {
                assert(s[s.len() - 1].provider == p);
            }
        }
    }
}

/// Whether `c` is in an ascending list.
fn contains_cid(v: &Vec<Cid>, c: &Cid) -> (r: bool)
    requires
        ascending(views(v@)),
    ensures
        r == views(v@).contains(c@),
{
    let kc = c.sort_key();
    let mut i: usize = 0;
    while i < v.len()
        invariant
            i <= v@.len(),
            kc@ == cid_key(c@),
            c@.digest.len() <= 64,
            ascending(views(v@)),
            forall|j: int| 0 <= j < i ==> (#[trigger] views(v@)[j]) != c@,
        decreases v@.len() - i,
    {
        let ki = v[i].sort_key();
        if compare_bytes(ki.as_slice(), kc.as_slice()) == 0 {
            proof {
                lemma_cid_key_injective(v@[i as int]@, c@);
                assert(views(v@)[i as int] == c@);
            }
            return true;
        }
        proof {
            assert(views(v@)[i as int] == v@[i as int]@);
        }
        i = i + 1;
    }
    false
}

/// The identifiers of `all` not in `held`, in order.
fn missing_from(all: &Vec<Cid>, held: &Vec<Cid>) -> (out: Vec<Cid>)
    requires
        ascending(views(all@)),
        ascending(views(held@)),
    ensures
        lists(views(out@), views(all@).to_set().difference(views(held@).to_set())),
{
    let mut out: Vec<Cid> = Vec::new();
    let mut i: usize = 0;
    while i < all.len()
        invariant
            i <= all@.len(),
            ascending(views(all@)),
            ascending(views(held@)),
            forall|j: int|
                0 <= j < out@.len() ==> exists|k: int|
                    0 <= k < i && (#[trigger] views(out@)[j]) == views(all@)[k],
            forall|a: int, b: int|
                0 <= a < b < out@.len() ==> lex_lt(cid_key(views(out@)[a]), cid_key(views(out@)[b])),
            forall|j: int| 0 <= j < out@.len() ==> (#[trigger] views(out@)[j]).digest.len() <= 64,
            forall|j: int| 0 <= j < out@.len() ==> !views(held@).contains(#[trigger] views(out@)[j]),
            forall|k: int|
                0 <= k < i && !views(held@).contains(views(all@)[k]) ==> views(out@).contains(
                    #[trigger] views(all@)[k],
                ),
            out@.len() > 0 ==> exists|k: int|
                0 <= k < i && views(out@).last() == #[trigger] views(all@)[k],
        decreases all@.len() - i,
    {
        let c = all[i];
        let ghost cv = views(all@)[i as int];
        assert(c@ == cv);
        if !contains_cid(held, &c) {
            let ghost prev = out@;
            proof {
                if prev.len() > 0 {
                    let k = choose|k: int| 0 <= k < i && views(prev).last() == views(all@)[k];
                    assert(lex_lt(cid_key(views(all@)[k]), cid_key(cv)));
                }
            }
            out.push(c);
            proof {
                assert(views(out@) =~= views(prev).push(cv));
                assert forall|a: int, b: int| 0 <= a < b < out@.len() implies lex_lt(
                    cid_key(views(out@)[a]),
                    cid_key(views(out@)[b]),
                ) by {
                    if b == out@.len() - 1 && a < b {
                        let k = choose|k: int| 0 <= k < i && views(prev).last() == views(all@)[k];
                        if a < prev.len() - 1 {
                            assert(lex_lt(cid_key(views(prev)[a]), cid_key(views(prev).last())));
                            lemma_lex_transitive(
                                cid_key(views(prev)[a]),
                                cid_key(views(prev).last()),
                                cid_key(cv),
                            );
                        }
                    }
                }
                assert forall|j: int| 0 <= j < out@.len() implies exists|k: int|
                    0 <= k < i + 1 && (#[trigger] views(out@)[j]) == views(all@)[k] by {
                    if j < prev.len() {
                        assert(views(out@)[j] == views(prev)[j]);
                    } else {
                        assert(views(out@)[j] == views(all@)[i as int]);
                    }
                }
                assert forall|k: int|
                    0 <= k < i + 1 && !views(held@).contains(views(all@)[k]) implies views(
                    out@,
                ).contains(#[trigger] views(all@)[k]) by {
                    if k < i {
                        let j = choose|j: int| 0 <= j < prev.len() && views(prev)[j] == views(all@)[k];
                        assert(views(out@)[j] == views(prev)[j]);
                    } else {
                        assert(views(out@)[prev.len() as int] == cv);
                    }
                }
                assert(views(out@).last() == views(all@)[i as int]);
            }
        }
        i = i + 1;
    }
    proof {
        let s = views(out@);
        let target = views(all@).to_set().difference(views(held@).to_set());
        assert forall|x: CidView| s.to_set().contains(x) <==> target.contains(x) by {
            if s.to_set().contains(x) {
                let j = choose|j: int| 0 <= j < s.len() && s[j] == x;
                let k = choose|k: int| 0 <= k < all@.len() && views(out@)[j] == views(all@)[k];
                assert(views(all@).contains(x));
            }
            if target.contains(x) {
                let k = choose|k: int| 0 <= k < views(all@).len() && views(all@)[k] == x;
                assert(views(all@)[k] == x);
            }
        }
        assert(s.to_set() =~= target);
    }
    out
}


/// `c` added to an ascending list, keeping it ascending.
fn insert_cid(v: Vec<Cid>, c: Cid) -> (out: Vec<Cid>)
    requires
        ascending(views(v@)),
    ensures
        ascending(views(out@)),
        views(out@).to_set() == views(v@).to_set().insert(c@),
{
    let kc = c.sort_key();
    let ghost s = views(v@);
    let mut j: usize = 0;
    while j < v.len() && compare_bytes(v[j].sort_key().as_slice(), kc.as_slice()) < 0
        invariant
            j <= v@.len(),
            s == views(v@),
            kc@ == cid_key(c@),
            c@.digest.len() <= 64,
            ascending(s),
            forall|a: int| 0 <= a < j ==> lex_lt(cid_key(#[trigger] s[a]), cid_key(c@)),
        decreases v@.len() - j,
    {
        proof {
            assert(s[j as int] == v@[j as int]@);
        }
        j = j + 1;
    }
    if j < v.len() {
        let kj = v[j].sort_key();
        if compare_bytes(kj.as_slice(), kc.as_slice()) == 0 {
            proof {
                lemma_cid_key_injective(v@[j as int]@, c@);
                assert(s[j as int] == c@);
                assert(s.to_set().insert(c@) =~= s.to_set());
            }
            return v;
        }
    }
    proof {
        if j < v@.len() {
            assert(s[j as int] == v@[j as int]@);
            lemma_lex_total(cid_key(s[j as int]), cid_key(c@));
        }
    }
    let mut v = v;
    v.insert(j, c);
    proof {
        let t = views(v@);
        assert(t =~= s.insert(j as int, c@));
        assert forall|a: int, b: int| 0 <= a < b < t.len() implies lex_lt(cid_key(t[a]), cid_key(t[b])) by {
            if b < j {
                assert(t[a] == s[a] && t[b] == s[b]);
            } else if b == j {
                assert(t[a] == s[a]);
            } else if a < j {
                assert(t[a] == s[a] && t[b] == s[b - 1]);
                if b - 1 > j {
                    lemma_lex_transitive(cid_key(c@), cid_key(s[j as int]), cid_key(s[b - 1]));
                }
                lemma_lex_transitive(cid_key(s[a]), cid_key(c@), cid_key(s[b - 1]));
            } else if a == j {
                assert(t[b] == s[b - 1]);
                if b - 1 > j {
                    lemma_lex_transitive(cid_key(c@), cid_key(s[j as int]), cid_key(s[b - 1]));
                }
            } else {
                assert(t[a] == s[a - 1] && t[b] == s[b - 1]);
            }
        }
        assert forall|a: int| 0 <= a < t.len() implies (#[trigger] t[a]).digest.len() <= 64 by {
            if a < j {
                assert(t[a] == s[a]);
            } else if a > j {
                assert(t[a] == s[a - 1]);
            }
        }
        assert forall|x: CidView| t.to_set().contains(x) <==> s.to_set().insert(c@).contains(x) by {
            if t.to_set().contains(x) {
                let i = choose|i: int| 0 <= i < t.len() && t[i] == x;
                if i < j {
                    assert(s[i] == x);
                } else if i > j {
                    assert(s[i - 1] == x);
                }
            }
            if s.to_set().contains(x) {
                let i = choose|i: int| 0 <= i < s.len() && s[i] == x;
                if i < j {
                    assert(t[i] == x);
                } else {
                    assert(t[i + 1] == x);
                }
            }
            if x == c@ {
                assert(t[j as int] == x);
            }
        }
        assert(t.to_set() =~= s.to_set().insert(c@));
    }
    v
}

proof fn lemma_seen_map_update(s: Seq<Seen>, k: int, e: Seen)
    requires
        seen_ok(s),
        0 <= k < s.len(),
        e.provider == s[k].provider,
        ascending(views(e.held@)),
    ensures
        seen_ok(s.update(k, e)),
        seen_map(s.update(k, e)) == seen_map(s).insert(e.provider, (views(e.held@).to_set(), e.behind)),
{
    let t = s.update(k, e);
    assert(seen_ok(t)) by {
        assert forall|i: int| 0 <= i < t.len() implies ascending(views((#[trigger] t[i]).held@)) by {
            if i != k {
                assert(t[i] == s[i]);
            }
        }
        assert forall|i: int, j: int| 0 <= i < j < t.len() implies t[i].provider < t[j].provider by {
            assert(t[i].provider == s[i].provider && t[j].provider == s[j].provider);
        }
    }
    lemma_seen_map(s);
    lemma_seen_map(t);
    let m = seen_map(s).insert(e.provider, (views(e.held@).to_set(), e.behind));
    assert forall|p: u16| seen_map(t).dom().contains(p) <==> m.dom().contains(p) by {
        if seen_map(t).dom().contains(p) {
            let i = choose|i: int| 0 <= i < t.len() && t[i].provider == p;
            if i != k {
                assert(seen_map(s).dom().contains(s[i].provider));
            }
        }
        if m.dom().contains(p) && p != e.provider {
            let i = choose|i: int| 0 <= i < s.len() && s[i].provider == p;
            assert(t[i].provider == p);
            assert(seen_map(t).dom().contains(t[i].provider));
        }
        if p == e.provider {
            assert(seen_map(t).dom().contains(t[k].provider));
        }
    }
    assert forall|p: u16| #[trigger] seen_map(t).dom().contains(p) implies seen_map(t)[p] == m[p] by {
        let i = choose|i: int| 0 <= i < t.len() && t[i].provider == p;
        if i != k {
            assert(t[i] == s[i]);
            assert(seen_map(s).dom().contains(s[i].provider));
            if p == e.provider {
                assert(s[i].provider == s[k].provider);
                assert(false);
            }
        }
    }
    assert(seen_map(t) =~= m);
}

proof fn lemma_seen_map_insert(s: Seq<Seen>, k: int, e: Seen)
    requires
        seen_ok(s),
        0 <= k <= s.len(),
        forall|i: int| 0 <= i < k ==> (#[trigger] s[i]).provider < e.provider,
        forall|i: int| k <= i < s.len() ==> e.provider < (#[trigger] s[i]).provider,
        ascending(views(e.held@)),
    ensures
        seen_ok(s.insert(k, e)),
        !seen_map(s).dom().contains(e.provider),
        seen_map(s.insert(k, e)) == seen_map(s).insert(e.provider, (views(e.held@).to_set(), e.behind)),
{
    let t = s.insert(k, e);
    assert(seen_ok(t)) by {
        assert forall|i: int| 0 <= i < t.len() implies ascending(views((#[trigger] t[i]).held@)) by {
            if i < k {
                assert(t[i] == s[i]);
            } else if i > k {
                assert(t[i] == s[i - 1]);
            }
        }
        assert forall|i: int, j: int| 0 <= i < j < t.len() implies t[i].provider < t[j].provider by {
            if j < k {
                assert(t[i] == s[i] && t[j] == s[j]);
            } else if j == k {
                assert(t[i] == s[i]);
            } else if i < k {
                assert(t[i] == s[i] && t[j] == s[j - 1]);
            } else if i == k {
                assert(t[j] == s[j - 1]);
            } else {
                assert(t[i] == s[i - 1] && t[j] == s[j - 1]);
            }
        }
    }
    lemma_seen_map(s);
    lemma_seen_map(t);
    if seen_map(s).dom().contains(e.provider) {
        let i = choose|i: int| 0 <= i < s.len() && s[i].provider == e.provider;
        assert(false);
    }
    let m = seen_map(s).insert(e.provider, (views(e.held@).to_set(), e.behind));
    assert forall|p: u16| seen_map(t).dom().contains(p) <==> m.dom().contains(p) by {
        if seen_map(t).dom().contains(p) {
            let i = choose|i: int| 0 <= i < t.len() && t[i].provider == p;
            if i < k {
                assert(t[i] == s[i]);
                assert(seen_map(s).dom().contains(s[i].provider));
            } else if i > k {
                assert(t[i] == s[i - 1]);
                assert(seen_map(s).dom().contains(s[i - 1].provider));
            }
        }
        if m.dom().contains(p) && p != e.provider {
            let i = choose|i: int| 0 <= i < s.len() && s[i].provider == p;
            if i < k {
                assert(t[i] == s[i]);
                assert(seen_map(t).dom().contains(t[i].provider));
            } else {
                assert(t[i + 1] == s[i]);
                assert(seen_map(t).dom().contains(t[i + 1].provider));
            }
        }
        if p == e.provider {
            assert(seen_map(t).dom().contains(t[k].provider));
        }
    }
    assert forall|p: u16| #[trigger] seen_map(t).dom().contains(p) implies seen_map(t)[p] == m[p] by {
        let i = choose|i: int| 0 <= i < t.len() && t[i].provider == p;
        if i < k {
            assert(t[i] == s[i]);
            assert(seen_map(s).dom().contains(s[i].provider));
        } else if i > k {
            assert(t[i] == s[i - 1]);
            assert(seen_map(s).dom().contains(s[i - 1].provider));
        }
    }
    assert(seen_map(t) =~= m);
}

/// Where `p`'s entry is in an ascending list of entries, or where it would go.
fn locate_provider(seen: &Vec<Seen>, p: u16) -> (r: (bool, usize))
    requires
        seen_ok(seen@),
    ensures
        r.1 <= seen@.len(),
        r.0 ==> r.1 < seen@.len() && seen@[r.1 as int].provider == p,
        !r.0 ==> forall|i: int| 0 <= i < r.1 ==> (#[trigger] seen@[i]).provider < p,
        !r.0 ==> forall|i: int| r.1 <= i < seen@.len() ==> p < (#[trigger] seen@[i]).provider,
{
    let mut k: usize = 0;
    while k < seen.len() && seen[k].provider < p
        invariant
            k <= seen@.len(),
            seen_ok(seen@),
            forall|i: int| 0 <= i < k ==> (#[trigger] seen@[i]).provider < p,
        decreases seen@.len() - k,
    {
        k = k + 1;
    }
    if k < seen.len() && seen[k].provider == p {
        return (true, k);
    }
    (false, k)
}

/// Make sure `p` has an entry: where it is, and the entries afterwards.
fn ensure_entry(seen: Vec<Seen>, p: u16) -> (r: (usize, Vec<Seen>))
    requires
        seen_ok(seen@),
    ensures
        seen_ok(r.1@),
        r.0 < r.1@.len(),
        r.1@[r.0 as int].provider == p,
        seen_map(seen@).dom().contains(p) ==> r.1@ == seen@,
        !seen_map(seen@).dom().contains(p) ==> seen_map(r.1@) == seen_map(seen@).insert(
            p,
            (Set::<CidView>::empty(), 0u32),
        ),
        !seen_map(seen@).dom().contains(p) ==> r.1@[r.0 as int].held@.len() == 0
            && r.1@[r.0 as int].behind == 0,
{
    let (found, k) = locate_provider(&seen, p);
    if found {
        proof {
            lemma_seen_map(seen@);
        }
        return (k, seen);
    }
    let e = Seen { provider: p, held: Vec::new(), behind: 0 };
    proof {
        assert(views(e.held@).to_set() =~= Set::<CidView>::empty());
        lemma_seen_map_insert(seen@, k as int, e);
    }
    let mut seen = seen;
    seen.insert(k, e);
    (k, seen)
}

impl Default for FeedWatch {
    fn default() -> (w: Self)
        ensures
            w@.seen == Map::<u16, (Set<CidView>, u32)>::empty(),
            w@.everything == Set::<CidView>::empty(),
            w@.rounds == 0,
    {
        FeedWatch::new()
    }
}

/// What one reader has been shown, by whom.
pub struct FeedWatch {
    seen: Vec<Seen>,
    everything: Vec<Cid>,
    rounds: u32,
}

impl FeedWatch {
    pub closed spec fn view(&self) -> WatchView {
        WatchView {
            seen: seen_map(self.seen@),
            everything: views(self.everything@).to_set(),
            rounds: self.rounds,
        }
    }

    #[verifier::type_invariant]
    closed spec fn well_formed(&self) -> bool {
        &&& seen_ok(self.seen@)
        &&& ascending(views(self.everything@))
    }

    pub fn new() -> (w: Self)
        ensures
            w@.seen == Map::<u16, (Set<CidView>, u32)>::empty(),
            w@.everything == Set::<CidView>::empty(),
            w@.rounds == 0,
    {
        let w = FeedWatch { seen: Vec::new(), everything: Vec::new(), rounds: 0 };
        assert(views(w.everything@).to_set() =~= Set::<CidView>::empty());
        w
    }

    /// Note that `provider` served `cid`.
    pub fn record(&mut self, provider: u16, cid: Cid)
        ensures
            final(self)@ == record_spec(old(self)@, provider, cid@),
    {
        proof {
            use_type_invariant(&*self);
        }
        let mut w = FeedWatch::new();
        std::mem::swap(self, &mut w);
        let FeedWatch { seen, everything, rounds } = w;
        let ghost s0 = seen@;
        proof {
            lemma_seen_map(s0);
        }
        let (k, mut seen) = ensure_entry(seen, provider);
        let ghost s1 = seen@;
        let e = seen.remove(k);
        let Seen { provider: ep, held, behind } = e;
        let held = insert_cid(held, cid);
        let ne = Seen { provider: ep, held, behind };
        seen.insert(k, ne);
        proof {
            assert(seen@ =~= s1.update(k as int, ne));
            lemma_seen_map(s1);
            lemma_seen_map_update(s1, k as int, ne);
            assert(seen_map(s1).dom().contains(provider));
            assert(views(e.held@).to_set() == held_of(WatchView { seen: seen_map(s1), ..old(self)@ }, provider));
        }
        let everything = insert_cid(everything, cid);
        *self = FeedWatch { seen, everything, rounds };
        proof {
            let w0 = old(self)@;
            if seen_map(s0).dom().contains(provider) {
                assert(s1 == s0);
            } else {
                assert(views(e.held@).to_set() =~= Set::<CidView>::empty());
            }
            assert(self@.seen =~= record_spec(w0, provider, cid@).seen);
        }
    }

    pub fn rounds(&self) -> (n: u32)
        ensures
            n == self@.rounds,
    {
        self.rounds
    }

    /// Everything any provider has shown this reader, in ascending order.
    pub fn known(&self) -> (k: &[Cid])
        ensures
            lists(views(k@), self@.everything),
    {
        proof {
            use_type_invariant(self);
        }
        self.everything.as_slice()
    }
}


/// No provider asked in a round would have its count of rounds behind pass the largest `u32`.
pub open spec fn round_fits(w: WatchView, asked: Seq<u16>) -> bool {
    forall|p: u16| asked.contains(p) && is_behind(w, p) ==> behind_of(w, p) < u32::MAX
}

proof fn lemma_ask_all(w: WatchView, asked: Seq<u16>, p: u16)
    requires
        round_fits(w, asked),
    ensures
        held_of(WatchView { seen: ask_all(w, asked), ..w }, p) == held_of(w, p),
        is_behind(WatchView { seen: ask_all(w, asked), ..w }, p) == is_behind(w, p),
        behind_of(WatchView { seen: ask_all(w, asked), ..w }, p) == behind_of(w, p) + if is_behind(
            w,
            p,
        ) && asked.contains(p) {
            1int
        } else {
            0int
        },
        ask_all(w, asked).dom() == w.seen.dom().union(asked.to_set()),
    decreases asked.len(),
{
    if asked.len() == 0 {
        assert(asked.to_set() =~= Set::<u16>::empty());
        assert(w.seen.dom().union(asked.to_set()) =~= w.seen.dom());
    } else {
        let q = asked.drop_last();
        let last = asked.last();
        assert(asked =~= q.push(last));
        assert forall|x: u16| #![trigger q.contains(x)] q.contains(x) implies asked.contains(x) by {
            let i = choose|i: int| 0 <= i < q.len() && q[i] == x;
            assert(asked[i] == x);
        }
        assert forall|x: u16| asked.contains(x) && x != last implies #[trigger] q.contains(x) by {
            let i = choose|i: int| 0 <= i < asked.len() && asked[i] == x;
            assert(q[i] == x);
        }
        assert(asked.contains(last)) by {
            assert(asked[asked.len() - 1] == last);
        }
        assert(round_fits(w, q));
        lemma_ask_all(w, q, p);
        lemma_ask_all(w, q, last);
        let v2 = WatchView { seen: ask_all(w, asked), ..w };
        assert(missing_set(v2, p) =~= missing_set(w, p));
        assert(asked.to_set() =~= q.to_set().insert(last));
        assert(ask_all(w, asked).dom() =~= w.seen.dom().union(asked.to_set()));
    }
}

/// Whether the provider at `i` in `asked` was already listed before it.
fn listed_before(asked: &[u16], i: usize) -> (r: bool)
    requires
        i < asked@.len(),
    ensures
        r == asked@.take(i as int).contains(asked@[i as int]),
{
    let p = asked[i];
    let mut j: usize = 0;
    while j < i
        invariant
            j <= i < asked@.len(),
            p == asked@[i as int],
            forall|k: int| 0 <= k < j ==> asked@[k] != p,
        decreases i - j,
    {
        if asked[j] == p {
            assert(asked@.take(i as int)[j as int] == p);
            return true;
        }
        j = j + 1;
    }
    assert forall|k: int| 0 <= k < i implies asked@.take(i as int)[k] != p by {
        assert(asked@.take(i as int)[k] == asked@[k]);
    }
    false
}

impl FeedWatch {
    /// Note that a round of collection finished: each provider in `asked` is counted behind
    /// once more if it lacks something another provider served, once however many times it is
    /// listed. A round means something only if every provider asked had a fair chance to serve
    /// everything it had.
    pub fn end_round(&mut self, asked: &[u16])
        requires
            old(self)@.rounds < u32::MAX,
            round_fits(old(self)@, asked@),
        ensures
            final(self)@ == end_round_spec(old(self)@, asked@),
    {
        proof {
            use_type_invariant(&*self);
        }
        let ghost w0 = self@;
        let mut w = FeedWatch::new();
        std::mem::swap(self, &mut w);
        let FeedWatch { seen, everything, rounds } = w;
        let mut seen = seen;
        let mut i: usize = 0;
        assert(asked@.take(0) =~= Seq::<u16>::empty());
        while i < asked.len()
            invariant
                i <= asked@.len(),
                seen_ok(seen@),
                ascending(views(everything@)),
                w0.everything == views(everything@).to_set(),
                round_fits(w0, asked@),
                seen_map(seen@) == ask_all(w0, asked@.take(i as int)),
            decreases asked@.len() - i,
        {
            let p = asked[i];
            let ghost m = seen_map(seen@);
            let ghost v = WatchView { seen: m, ..w0 };
            proof {
                assert(asked@.take(i + 1).drop_last() =~= asked@.take(i as int));
                assert(asked@.take(i + 1).last() == p);
                assert forall|x: u16| #![trigger asked@.take(i as int).contains(x)]
                    asked@.take(i as int).contains(x) implies asked@.contains(x) by {
                    let j = choose|j: int| 0 <= j < i && asked@.take(i as int)[j] == x;
                    assert(asked@[j] == x);
                }
                assert(round_fits(w0, asked@.take(i as int)));
                lemma_ask_all(w0, asked@.take(i as int), p);
                lemma_seen_map(seen@);
            }
            if listed_before(asked, i) {
                proof {
                    assert(seen_map(seen@) =~= ask_all(w0, asked@.take(i + 1)));
                }
                i = i + 1;
                continue;
            }
            proof {
                assert(asked@.contains(p)) by {
                    assert(asked@[i as int] == p);
                }
            }
            let (k, s2) = ensure_entry(seen, p);
            seen = s2;
            let ghost s1 = seen@;
            proof {
                lemma_seen_map(s1);
            }
            let missing = missing_from(&everything, &seen[k].held);
            proof {
                assert(views(seen@[k as int].held@).to_set() == held_of(v, p)) by {
                    if !m.dom().contains(p) {
                        assert(views(seen@[k as int].held@).to_set() =~= Set::<CidView>::empty());
                    }
                }
                if missing.len() > 0 {
                    assert(missing_set(v, p).contains(views(missing@)[0]));
                } else {
                    assert forall|c: CidView| !missing_set(v, p).contains(c) by {
                        if missing_set(v, p).contains(c) {
                            assert(views(missing@).to_set().contains(c));
                        }
                    }
                }
            }
            if missing.len() > 0 {
                let e = seen.remove(k);
                let Seen { provider: ep, held, behind } = e;
                let ne = Seen { provider: ep, held, behind: behind + 1 };
                seen.insert(k, ne);
                proof {
                    assert(seen@ =~= s1.update(k as int, ne));
                    lemma_seen_map_update(s1, k as int, ne);
                    assert(seen_map(seen@) =~= ask_all(w0, asked@.take(i + 1)));
                }
            } else {
                proof {
                    if m.dom().contains(p) {
                        assert(m.insert(p, m[p]) =~= m);
                    }
                    assert(seen_map(seen@) =~= ask_all(w0, asked@.take(i + 1)));
                }
            }
            i = i + 1;
        }
        assert(asked@.take(asked@.len() as int) =~= asked@);
        *self = FeedWatch { seen, everything, rounds: rounds + 1 };
    }
}


/// Reports longest behind first, ties to the lower provider.
pub open spec fn ordered(s: Seq<LagView>) -> bool {
    forall|a: int, b: int|
        0 <= a < b < s.len() ==> (#[trigger] s[a]).rounds_behind > (#[trigger] s[b]).rounds_behind
            || (s[a].rounds_behind == s[b].rounds_behind && s[a].provider < s[b].provider)
}

/// A report that says truly what `w` shows about its provider.
pub open spec fn accurate(w: WatchView, l: LagView, min_rounds: u32) -> bool {
    &&& w.seen.dom().contains(l.provider)
    &&& lists(l.missing, missing_set(w, l.provider))
    &&& l.missing.len() > 0
    &&& l.rounds_behind == behind_of(w, l.provider)
    &&& l.rounds_behind >= min_rounds
}

/// `item` placed among ordered reports of lower providers, keeping them ordered.
fn insert_ordered(out: Vec<Lagging>, item: Lagging) -> (r: (Vec<Lagging>, usize))
    requires
        ordered(lag_views(out@)),
        forall|j: int| 0 <= j < out@.len() ==> (#[trigger] out@[j]).provider < item.provider,
    ensures
        r.1 <= out@.len(),
        lag_views(r.0@) == lag_views(out@).insert(r.1 as int, item@),
        ordered(lag_views(r.0@)),
{
    let b = item.rounds_behind;
    let mut pos: usize = 0;
    while pos < out.len() && out[pos].rounds_behind >= b
        invariant
            pos <= out@.len(),
            forall|a: int| 0 <= a < pos ==> (#[trigger] out@[a]).rounds_behind >= b,
        decreases out@.len() - pos,
    {
        pos = pos + 1;
    }
    let ghost before = lag_views(out@);
    let mut out = out;
    let ghost raw = out@;
    out.insert(pos, item);
    proof {
        assert(lag_views(out@) =~= before.insert(pos as int, item@));
        let v = lag_views(out@);
        assert forall|a: int, c: int| 0 <= a < c < v.len() implies (#[trigger] v[a]).rounds_behind
            > (#[trigger] v[c]).rounds_behind || (v[a].rounds_behind == v[c].rounds_behind
            && v[a].provider < v[c].provider) by {
            if c < pos {
                assert(v[a] == before[a] && v[c] == before[c]);
            } else if c == pos {
                assert(v[a] == before[a]);
                assert(before[a] == raw[a]@);
            } else if a < pos {
                assert(v[a] == before[a] && v[c] == before[c - 1]);
                assert(before[pos as int] == raw[pos as int]@);
                assert(before[a] == raw[a]@);
                if c - 1 > pos {
                    assert(before[pos as int].rounds_behind >= before[c - 1].rounds_behind);
                }
            } else if a == pos {
                assert(v[c] == before[c - 1]);
                assert(before[pos as int] == raw[pos as int]@);
                if c - 1 > pos {
                    assert(before[pos as int].rounds_behind >= before[c - 1].rounds_behind);
                }
            } else {
                assert(v[a] == before[a - 1] && v[c] == before[c - 1]);
            }
        }
    }
    (out, pos)
}

proof fn lemma_insert_keeps(
    s: Seq<LagView>,
    pos: int,
    x: LagView,
    t: Seq<LagView>,
    w: WatchView,
    min_rounds: u32,
)
    requires
        0 <= pos <= s.len(),
        t == s.insert(pos, x),
        forall|j: int| 0 <= j < s.len() ==> accurate(w, #[trigger] s[j], min_rounds),
        accurate(w, x, min_rounds),
    ensures
        forall|j: int| 0 <= j < t.len() ==> accurate(w, #[trigger] t[j], min_rounds),
        forall|j: int| 0 <= j < s.len() ==> t[if j < pos { j } else { j + 1 }] == #[trigger] s[j],
        t[pos] == x,
        forall|k: int| 0 <= k < t.len() && k != pos ==> #[trigger] t[k] == s[if k < pos { k } else { k - 1 }],
{
    assert forall|j: int| 0 <= j < t.len() implies accurate(w, #[trigger] t[j], min_rounds) by {
        if j < pos {
            assert(t[j] == s[j]);
        } else if j > pos {
            assert(t[j] == s[j - 1]);
        }
    }
}

impl FeedWatch {
    /// Providers behind in at least `min_rounds` rounds, longest behind first.
    #[verifier::rlimit(40)]
    fn report(&self, min_rounds: u32) -> (out: Vec<Lagging>)
        ensures
            reports_lag(self@, lag_views(out@), min_rounds),
    {
        proof {
            use_type_invariant(self);
            lemma_seen_map(self.seen@);
        }
        let ghost w = self@;
        let ghost s = self.seen@;
        assert(w.seen == seen_map(s));
        let mut out: Vec<Lagging> = Vec::new();
        let mut i: usize = 0;
        while i < self.seen.len()
            invariant
                i <= s.len(),
                s == self.seen@,
                w == self@,
                seen_ok(s),
                ascending(views(self.everything@)),
                forall|j: int|
                    0 <= j < s.len() ==> #[trigger] w.seen.dom().contains(s[j].provider)
                        && w.seen[s[j].provider] == (views(s[j].held@).to_set(), s[j].behind),
                forall|j: int| 0 <= j < out@.len() ==> accurate(w, #[trigger] lag_views(out@)[j], min_rounds),
                forall|j: int|
                    0 <= j < out@.len() ==> exists|e: int|
                        0 <= e < i && s[e].provider == (#[trigger] lag_views(out@)[j]).provider,
                forall|e: int|
                    0 <= e < i && is_behind(w, (#[trigger] s[e]).provider) && s[e].behind >= min_rounds
                        ==> exists|j: int| 0 <= j < out@.len() && lag_views(out@)[j].provider == s[e].provider,
                ordered(lag_views(out@)),
            decreases s.len() - i,
        {
            let missing = missing_from(&self.everything, &self.seen[i].held);
            let ghost p = s[i as int].provider;
            proof {
                assert(w.seen.dom().contains(s[i as int].provider));
                assert(held_of(w, p) == views(s[i as int].held@).to_set());
                if missing.len() > 0 {
                    assert(missing_set(w, p).contains(views(missing@)[0]));
                } else {
                    assert forall|c: CidView| !missing_set(w, p).contains(c) by {
                        if missing_set(w, p).contains(c) {
                            assert(views(missing@).to_set().contains(c));
                        }
                    }
                }
            }
            let b = self.seen[i].behind;
            if missing.len() > 0 && b >= min_rounds {
                let item = Lagging { provider: self.seen[i].provider, missing, rounds_behind: b };
                let ghost before = lag_views(out@);
                proof {
                    assert forall|j: int| 0 <= j < out@.len() implies (#[trigger] out@[j]).provider
                        < item.provider by {
                        assert(before[j] == out@[j]@);
                        let e = choose|e: int| 0 <= e < i && s[e].provider == before[j].provider;
                    }
                }
                let (o2, pos) = insert_ordered(out, item);
                out = o2;
                proof {
                    let v = lag_views(out@);
                    lemma_insert_keeps(before, pos as int, item@, v, w, min_rounds);
                    assert forall|j: int| 0 <= j < v.len() implies exists|e: int|
                        0 <= e < i + 1 && s[e].provider == (#[trigger] v[j]).provider by {
                        if j != pos {
                            let k = if j < pos { j } else { j - 1 };
                            assert(v[j] == before[k]);
                            let e = choose|e: int| 0 <= e < i && s[e].provider == before[k].provider;
                        }
                    }
                    assert forall|e: int|
                        0 <= e < i + 1 && is_behind(w, (#[trigger] s[e]).provider) && s[e].behind >= min_rounds
                        implies exists|j: int| 0 <= j < v.len() && v[j].provider == s[e].provider by {
                        if e < i {
                            let j = choose|j: int| 0 <= j < before.len() && before[j].provider == s[e].provider;
                            let k = if j < pos { j } else { j + 1 };
                            assert(v[k] == before[j]);
                        } else {
                            assert(v[pos as int] == item@);
                        }
                    }
                }
            }
            i = i + 1;
        }
        proof {
            let v = lag_views(out@);
            assert forall|q: u16| #![trigger w.seen.dom().contains(q)]
                w.seen.dom().contains(q) && is_behind(w, q) && behind_of(w, q) >= min_rounds implies exists|
                j: int,
            | 0 <= j < v.len() && (#[trigger] v[j]).provider == q by {
                let e = choose|e: int| 0 <= e < s.len() && s[e].provider == q;
                let j = choose|j: int| 0 <= j < v.len() && v[j].provider == s[e].provider;
            }
        }
        out
    }

    /// Providers missing something another provider served, longest behind first.
    pub fn lagging(&self) -> (out: Vec<Lagging>)
        ensures
            reports_lag(self@, lag_views(out@), 0),
    {
        self.report(0)
    }

    /// Providers behind in at least `rounds` rounds, longest behind first. The threshold is
    /// the caller's: what counts as too long depends on how often they collect.
    pub fn persistently_behind(&self, rounds: u32) -> (out: Vec<Lagging>)
        ensures
            reports_lag(self@, lag_views(out@), rounds),
    {
        self.report(rounds)
    }

    /// Whether every provider seen or asked has shown the same set. Agreement is not
    /// completeness: providers withholding the same thing agree.
    pub fn agreed(&self) -> (r: bool)
        ensures
            r == (forall|p: u16| #[trigger] self@.seen.dom().contains(p) ==> !is_behind(self@, p)),
    {
        let l = self.lagging();
        proof {
            let v = lag_views(l@);
            if l.len() > 0 {
                assert(v[0] == l@[0]@);
                let p = v[0].provider;
                assert(missing_set(self@, p).contains(v[0].missing[0]));
                assert(self@.seen.dom().contains(p));
            } else {
                assert forall|p: u16| #[trigger] self@.seen.dom().contains(p) implies !is_behind(self@, p) by {
                    if is_behind(self@, p) {
                        let j = choose|j: int| 0 <= j < v.len() && (#[trigger] v[j]).provider == p;
                    }
                }
            }
        }
        l.len() == 0
    }
}


/// Lag is counted in rounds asked, not in observations: a round adds one to the count of a
/// provider it asked that lacks something served elsewhere, however many times it is listed;
/// a provider not asked is never counted, and a round changes nothing about what was served.
pub proof fn law_lag_is_counted_only_in_rounds_asked(w: WatchView, asked: Seq<u16>, p: u16)
    requires
        round_fits(w, asked),
    ensures
        behind_of(end_round_spec(w, asked), p) == behind_of(w, p) + if is_behind(w, p)
            && asked.contains(p) {
            1int
        } else {
            0int
        },
        !asked.contains(p) ==> behind_of(end_round_spec(w, asked), p) == behind_of(w, p),
        held_of(end_round_spec(w, asked), p) == held_of(w, p),
        end_round_spec(w, asked).everything == w.everything,
        end_round_spec(w, asked).rounds == w.rounds + 1 || w.rounds == u32::MAX,
{
    lemma_ask_all(w, asked, p);
}

/// Recording what a provider served is idempotent: being shown the same thing again by the
/// same provider changes nothing.
pub proof fn law_recording_twice_is_recording_once(w: WatchView, p: u16, c: CidView)
    ensures
        record_spec(record_spec(w, p, c), p, c) == record_spec(w, p, c),
{
    let w1 = record_spec(w, p, c);
    assert(held_of(w1, p) == held_of(w, p).insert(c));
    assert(held_of(w1, p).insert(c) =~= held_of(w1, p));
    assert(w1.seen.insert(p, (held_of(w1, p).insert(c), behind_of(w1, p))) =~= w1.seen);
    assert(w1.everything.insert(c) =~= w1.everything);
}

/// One step a reader takes on its record: being shown something, or finishing a round.
pub enum WatchStep {
    Record(u16, CidView),
    EndRound(Seq<u16>),
}

/// The record after taking `steps` in order from `w`.
pub open spec fn after_steps(w: WatchView, steps: Seq<WatchStep>) -> WatchView
    decreases steps.len(),
{
    if steps.len() == 0 {
        w
    } else {
        let before = after_steps(w, steps.drop_last());
        match steps.last() {
            WatchStep::Record(p, c) => record_spec(before, p, c),
            WatchStep::EndRound(asked) => end_round_spec(before, asked),
        }
    }
}

/// How many of `steps` finish a round.
pub open spec fn rounds_in(steps: Seq<WatchStep>) -> nat
    decreases steps.len(),
{
    if steps.len() == 0 {
        0
    } else {
        rounds_in(steps.drop_last()) + if steps.last() is EndRound {
            1nat
        } else {
            0nat
        }
    }
}

/// The number of rounds a record shows is the number of rounds finished since it was new,
/// whatever was recorded between them and whatever each round asked.
pub proof fn law_rounds_count_the_rounds_finished(steps: Seq<WatchStep>)
    requires
        rounds_in(steps) <= u32::MAX,
    ensures
        after_steps(
            WatchView { seen: Map::empty(), everything: Set::empty(), rounds: 0 },
            steps,
        ).rounds == rounds_in(steps),
    decreases steps.len(),
{
    if steps.len() > 0 {
        law_rounds_count_the_rounds_finished(steps.drop_last());
    }
}

/// Replicas can omit and cannot lie: content is recorded under its address, so the same
/// content served by any number of providers is one thing known, and recording never loses
/// what was known.
pub proof fn law_the_same_content_from_many_replicas_is_one_thing(
    w: WatchView,
    p1: u16,
    p2: u16,
    c: CidView,
)
    ensures
        record_spec(record_spec(w, p1, c), p2, c).everything == w.everything.insert(c),
        w.everything.subset_of(record_spec(w, p1, c).everything),
        held_of(record_spec(w, p1, c), p1).contains(c),
{
    assert(w.everything.insert(c).insert(c) =~= w.everything.insert(c));
}

/// A provider that holds everything served is never reported, however long it was behind
/// before: catching up clears the report.
pub proof fn law_catching_up_clears_the_report(w: WatchView, out: Seq<LagView>, p: u16, min_rounds: u32)
    requires
        reports_lag(w, out, min_rounds),
        w.everything.subset_of(held_of(w, p)),
    ensures
        forall|i: int| 0 <= i < out.len() ==> (#[trigger] out[i]).provider != p,
{
    assert forall|i: int| 0 <= i < out.len() implies (#[trigger] out[i]).provider != p by {
        if out[i].provider == p {
            let l = out[i];
            assert(l.missing.to_set().contains(l.missing[0]));
            assert(missing_set(w, p).contains(l.missing[0]));
        }
    }
}

} // verus!
