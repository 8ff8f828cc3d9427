//! Version histories: immutable objects linked by what they supersede.
//!
//! Editing publishes a new object pointing at its predecessor; the predecessor is untouched and
//! keeps its name. A lineage edge is an update by the same author within the same series:
//! same kind, strictly increasing sequence. The one legitimate cross-key edge is a key
//! rotation, and only a fully countersigned one: the old key attests to its successor and the
//! new key to its predecessor, so neither can move an identity alone. An author who signs two
//! successors to one version has equivocated, and that is surfaced rather than resolved.
//!
//! Signatures are checked by the caller, who hands each object over with the address that
//! verified it.
use vstd::prelude::*;
use crate::codec::{blake3_digest, bytes_equal, cid_key, enc_bytes, rd_bytes, rd_take, Address, Cid, CidView, Dec, Enc};
use crate::object::{signing_bytes_spec, Object, ObjectError, ObjectView, Resolution, ResolutionView};
use crate::order::{compare_bytes, lex_lt, lemma_lex_asymmetric, lemma_lex_irreflexive, lemma_lex_total, lemma_lex_transitive};

verus! {

broadcast use vstd::std_specs::vec::group_vec_axioms;

/// `karst.rotation.v1`, the kind of both halves of a key rotation.
pub open spec fn rotation_kind() -> Seq<u8> {
    seq![107u8, 97, 114, 115, 116, 46, 114, 111, 116, 97, 116, 105, 111, 110, 46, 118, 49]
}

pub open spec fn forward_word() -> Seq<u8> {
    seq![102u8, 111, 114, 119, 97, 114, 100]
}

pub open spec fn backward_word() -> Seq<u8> {
    seq![98u8, 97, 99, 107, 119, 97, 114, 100]
}

/// The name of an object.
pub open spec fn object_cid(o: ObjectView) -> CidView {
    CidView {
        alg: 1,
        digest: blake3_digest(signing_bytes_spec(o.kind, o.author_key, o.supersedes, o.seq, o.payload)),
    }
}

/// The half of a rotation an object signed by `signer` claims: whether it is the forward half,
/// the old address and the new one.
pub open spec fn rotation_claim(o: ObjectView, signer: Seq<u8>) -> Option<(bool, Seq<u8>, Seq<u8>)> {
    if vstd::utf8::encode_utf8(o.kind) != rotation_kind() {
        None
    } else {
        match rd_bytes(o.payload, 0) {
            (Ok(dir), p) => match rd_take(o.payload, p, 32) {
                (Ok(other), q) => if q != o.payload.len() {
                    None
                } else if dir == forward_word() {
                    Some((true, signer, other))
                } else if dir == backward_word() {
                    Some((false, other, signer))
                } else {
                    None
                },
                _ => None,
            },
            _ => None,
        }
    }
}

/// A held object, as values: its name, the object and the address that signed it.
pub struct EntryView {
    pub cid: CidView,
    pub obj: ObjectView,
    pub author: Seq<u8>,
}

/// Rotation halves seen for a pair of addresses: old, new, forward half, backward half.
pub type HalfView = (Seq<u8>, Seq<u8>, bool, bool);

/// Which halves of the rotation from `f` to `t` have been seen.
pub open spec fn halves_of(hs: Seq<HalfView>, f: Seq<u8>, t: Seq<u8>) -> (bool, bool) {
    match half_index(hs, f, t) {
        Some(i) => (hs[i].2, hs[i].3),
        None => (false, false),
    }
}

/// Where the halves for `f` to `t` are recorded.
pub open spec fn half_index(hs: Seq<HalfView>, f: Seq<u8>, t: Seq<u8>) -> Option<int>
    decreases hs.len(),
{
    if hs.len() == 0 {
        None
    } else {
        match half_index(hs.drop_last(), f, t) {
            Some(i) => Some(i),
            None => if hs.last().0 == f && hs.last().1 == t {
                Some(hs.len() - 1)
            } else {
                None
            },
        }
    }
}

/// A rotation from `f` to `t` with both halves present.
pub open spec fn completed(hs: Seq<HalfView>, f: Seq<u8>, t: Seq<u8>) -> bool {
    halves_of(hs, f, t) == (true, true)
}

/// The halves after recording a claim.
pub open spec fn record_half(hs: Seq<HalfView>, forward: bool, f: Seq<u8>, t: Seq<u8>) -> Seq<HalfView> {
    match half_index(hs, f, t) {
        Some(i) => hs.update(i, (f, t, hs[i].2 || forward, hs[i].3 || !forward)),
        None => hs.push((f, t, forward, !forward)),
    }
}

/// Whether `succ` is a legitimate next version of `pred`: it supersedes it, it is the same
/// kind, its sequence advances, and it is by the same key or by a key a countersigned rotation
/// moved the author to.
pub open spec fn valid_edge(hs: Seq<HalfView>, pred: EntryView, succ: EntryView) -> bool {
    &&& succ.obj.supersedes == Some(pred.cid)
    &&& succ.obj.kind == pred.obj.kind
    &&& succ.obj.seq > pred.obj.seq
    &&& (succ.obj.author_key == pred.obj.author_key || completed(hs, pred.author, succ.author))
}

/// Why a claim to supersede a version is refused.
#[derive(Clone, Copy, Debug, PartialEq, Eq)]
pub enum EdgeFault {
    /// A different author, and no countersigned rotation between them.
    DifferentAuthor,
    /// A different kind.
    DifferentKind,
    /// The sequence did not advance.
    NoAdvance,
}

/// Entries strictly ascending by identifier.
pub open spec fn ascending(es: Seq<EntryView>) -> bool {
    &&& forall|i: int| 0 <= i < es.len() ==> (#[trigger] es[i]).cid.digest.len() <= 64
    &&& forall|i: int, j: int| 0 <= i < j < es.len() ==> lex_lt(cid_key(es[i].cid), cid_key(es[j].cid))
}

/// The entry held under `c`.
pub open spec fn entry_at(es: Seq<EntryView>, c: CidView) -> Option<EntryView>
    decreases es.len(),
{
    if es.len() == 0 {
        None
    } else {
        match entry_at(es.drop_last(), c) {
            Some(e) => Some(e),
            None => if es.last().cid == c {
                Some(es.last())
            } else {
                None
            },
        }
    }
}

/// How many entries come before `c`.
pub open spec fn below(es: Seq<EntryView>, c: CidView) -> nat
    decreases es.len(),
{
    if es.len() == 0 {
        0
    } else {
        below(es.drop_last(), c) + if lex_lt(cid_key(es.last().cid), cid_key(c)) {
            1nat
        } else {
            0nat
        }
    }
}

/// The entries after storing `e`: it replaces an entry with its name, or joins in order.
pub open spec fn store(es: Seq<EntryView>, e: EntryView) -> Seq<EntryView> {
    if entry_at(es, e.cid) is Some {
        es.update(below(es, e.cid) as int, e)
    } else {
        es.insert(below(es, e.cid) as int, e)
    }
}

/// The entries that legitimately continue `pred`, in ascending order.
pub open spec fn successor_entries(es: Seq<EntryView>, hs: Seq<HalfView>, pred: EntryView) -> Seq<
    EntryView,
>
    decreases es.len(),
{
    if es.len() == 0 {
        Seq::empty()
    } else {
        let rest = successor_entries(es.drop_last(), hs, pred);
        if valid_edge(hs, pred, es.last()) {
            rest.push(es.last())
        } else {
            rest
        }
    }
}

/// The names of some entries.
pub open spec fn names(es: Seq<EntryView>) -> Seq<CidView> {
    es.map_values(|e: EntryView| e.cid)
}

/// Identifiers as values.
pub open spec fn cid_views(v: Seq<Cid>) -> Seq<CidView> {
    v.map_values(|c: Cid| c@)
}

/// The names of the entries `pred` legitimately precedes, in ascending order.
pub open spec fn successors_of(es: Seq<EntryView>, hs: Seq<HalfView>, pred: EntryView) -> Seq<CidView> {
    names(successor_entries(es, hs, pred))
}

/// Each successor continues `pred` and is one of the entries.
pub proof fn lemma_successor_entries(es: Seq<EntryView>, hs: Seq<HalfView>, pred: EntryView)
    ensures
        forall|k: int|
            0 <= k < successor_entries(es, hs, pred).len() ==> valid_edge(
                hs,
                pred,
                #[trigger] successor_entries(es, hs, pred)[k],
            ) && exists|j: int| 0 <= j < es.len() && es[j] == successor_entries(es, hs, pred)[k],
    decreases es.len(),
{
    if es.len() > 0 {
        let d = es.drop_last();
        lemma_successor_entries(d, hs, pred);
        let s = successor_entries(es, hs, pred);
        let r = successor_entries(d, hs, pred);
        assert forall|k: int| 0 <= k < s.len() implies valid_edge(hs, pred, #[trigger] s[k]) && exists|
            j: int,
        | 0 <= j < es.len() && es[j] == s[k] by {
            if k < r.len() {
                assert(s[k] == r[k]);
                let j = choose|j: int| 0 <= j < d.len() && d[j] == r[k];
                assert(es[j] == d[j]);
            } else {
                assert(s[k] == es[es.len() - 1]);
            }
        }
    }
}

/// The versions that claim to supersede `pred` and are not entitled to, with why.
pub open spec fn fault_of(hs: Seq<HalfView>, pred: EntryView, e: EntryView) -> Option<EdgeFault> {
    if e.obj.author_key != pred.obj.author_key && !completed(hs, pred.author, e.author) {
        Some(EdgeFault::DifferentAuthor)
    } else if e.obj.kind != pred.obj.kind {
        Some(EdgeFault::DifferentKind)
    } else if e.obj.seq <= pred.obj.seq {
        Some(EdgeFault::NoAdvance)
    } else {
        None
    }
}

/// Refused claims on `pred`, in ascending order of the claimant's name.
pub open spec fn rejected_of(es: Seq<EntryView>, hs: Seq<HalfView>, pred: EntryView) -> Seq<
    (CidView, EdgeFault),
>
    decreases es.len(),
{
    if es.len() == 0 {
        Seq::empty()
    } else {
        let rest = rejected_of(es.drop_last(), hs, pred);
        let e = es.last();
        if e.obj.supersedes == Some(pred.cid) && fault_of(hs, pred, e) is Some {
            rest.push((e.cid, fault_of(hs, pred, e)->0))
        } else {
            rest
        }
    }
}

/// What a refusal says.
pub open spec fn fault_text(f: EdgeFault) -> Seq<char> {
    match f {
        EdgeFault::DifferentAuthor => "different author, no countersigned rotation"@,
        EdgeFault::DifferentKind => "different kind"@,
        EdgeFault::NoAdvance => "sequence did not advance"@,
    }
}

/// Walking back from `e` to the first version, newest first, stopping at the first edge that is not
/// legitimate or whose predecessor is not held.
pub open spec fn history_from(es: Seq<EntryView>, hs: Seq<HalfView>, e: EntryView) -> Seq<EntryView>
    decreases e.obj.seq,
{
    seq![e] + match e.obj.supersedes {
        Some(p) => match entry_at(es, p) {
            Some(prev) => if valid_edge(hs, prev, e) {
                history_from(es, hs, prev)
            } else {
                Seq::empty()
            },
            None => Seq::empty(),
        },
        None => Seq::empty(),
    }
}

/// Following legitimate successors forward from `e` until there is none, or more than one.
pub open spec fn resolve_from(es: Seq<EntryView>, hs: Seq<HalfView>, e: EntryView) -> ResolutionView
    decreases u64::MAX - e.obj.seq,
{
    let s = successor_entries(es, hs, e);
    if s.len() == 0 {
        ResolutionView::Head(e.cid)
    } else if s.len() == 1 {
        proof {
            lemma_successor_entries(es, hs, e);
            assert(valid_edge(hs, e, s[0]));
        }
        resolve_from(es, hs, s[0])
    } else {
        ResolutionView::Forked(names(s))
    }
}

/// The names of the versions with more than one legitimate successor, ascending.
pub open spec fn forks_in(es: Seq<EntryView>, all: Seq<EntryView>, hs: Seq<HalfView>) -> Seq<CidView>
    decreases es.len(),
{
    if es.len() == 0 {
        Seq::empty()
    } else {
        let rest = forks_in(es.drop_last(), all, hs);
        if successor_entries(all, hs, es.last()).len() > 1 {
            rest.push(es.last().cid)
        } else {
            rest
        }
    }
}

/// A held object's stored form.
struct Entry {
    cid: Cid,
    obj: Object,
    author: Address,
}

impl Entry {
    spec fn view(&self) -> EntryView {
        EntryView { cid: self.cid@, obj: self.obj@, author: self.author@ }
    }
}

spec fn entry_views(s: Seq<Entry>) -> Seq<EntryView> {
    s.map_values(|e: Entry| e.view())
}

/// Rotation halves as stored.
#[derive(Clone, Copy)]
struct Half {
    from: Address,
    to: Address,
    forward: bool,
    backward: bool,
}

spec fn half_views(s: Seq<Half>) -> Seq<HalfView> {
    s.map_values(|h: Half| (h.from@, h.to@, h.forward, h.backward))
}

/// A version history: the objects held, by name, and the rotation halves seen.
pub struct Lineage {
    entries: Vec<Entry>,
    halves: Vec<Half>,
}

/// The half of a rotation `obj` claims, signed by `signer`.
fn claim_of(obj: &Object, signer: &Address) -> (r: Option<(bool, Address, Address)>)
    ensures
        match r {
            Some((f, a, b)) => rotation_claim(obj@, signer@) == Some((f, a@, b@)),
            None => rotation_claim(obj@, signer@) is None,
        },
{
    let kind: [u8; 17] = [107, 97, 114, 115, 116, 46, 114, 111, 116, 97, 116, 105, 111, 110, 46, 118, 49];
    assert(kind@ =~= rotation_kind());
    if !bytes_equal(obj.kind().as_bytes(), &kind) {
        return None;
    }
    let mut d = Dec::new(obj.payload());
    let dir = match d.bytes() {
        Ok(b) => b,
        Err(_) => {
            return None;
        },
    };
    let other = match d.addr() {
        Ok(a) => a,
        Err(_) => {
            return None;
        },
    };
    if d.end().is_err() {
        return None;
    }
    let fwd: [u8; 7] = [102, 111, 114, 119, 97, 114, 100];
    let bwd: [u8; 8] = [98, 97, 99, 107, 119, 97, 114, 100];
    assert(fwd@ =~= forward_word());
    assert(bwd@ =~= backward_word());
    if bytes_equal(dir, &fwd) {
        Some((true, *signer, other))
    } else if bytes_equal(dir, &bwd) {
        Some((false, other, *signer))
    } else {
        None
    }
}

proof fn lemma_kind_bytes_injective(a: Seq<char>, b: Seq<char>)
    requires
        vstd::utf8::encode_utf8(a) == vstd::utf8::encode_utf8(b),
    ensures
        a == b,
{
    vstd::utf8::encode_utf8_decode_utf8(a);
    vstd::utf8::encode_utf8_decode_utf8(b);
}

/// No pair of addresses recorded twice.
pub open spec fn pairs_unique(hs: Seq<HalfView>) -> bool {
    forall|i: int, j: int| 0 <= i < j < hs.len() ==> !(#[trigger] hs[i].0 == #[trigger] hs[j].0 && hs[i].1 == hs[j].1)
}

proof fn lemma_half_index(hs: Seq<HalfView>, f: Seq<u8>, t: Seq<u8>)
    requires
        pairs_unique(hs),
    ensures
        match half_index(hs, f, t) {
            Some(i) => 0 <= i < hs.len() && hs[i].0 == f && hs[i].1 == t,
            None => forall|i: int| 0 <= i < hs.len() ==> !(#[trigger] hs[i].0 == f && hs[i].1 == t),
        },
        forall|i: int| 0 <= i < hs.len() && #[trigger] hs[i].0 == f && hs[i].1 == t ==> half_index(hs, f, t) == Some(i),
    decreases hs.len(),
{
    if hs.len() > 0 {
        let d = hs.drop_last();
        assert(pairs_unique(d)) by {
            assert forall|i: int, j: int| 0 <= i < j < d.len() implies !(#[trigger] d[i].0 == #[trigger] d[j].0 && d[i].1 == d[j].1) by {
                assert(d[i] == hs[i] && d[j] == hs[j]);
            }
        }
        lemma_half_index(d, f, t);
        assert forall|i: int| 0 <= i < hs.len() && #[trigger] hs[i].0 == f && hs[i].1 == t implies half_index(hs, f, t) == Some(i) by {
            if i < hs.len() - 1 {
                assert(d[i] == hs[i]);
                assert(!(hs[i].0 == hs[hs.len() - 1].0 && hs[i].1 == hs[hs.len() - 1].1));
            } else {
                if half_index(d, f, t) is Some {
                    let k = half_index(d, f, t)->0;
                    assert(d[k] == hs[k]);
                }
            }
        }
    }
}

impl Lineage {
    /// The objects held, ascending by name.
    pub closed spec fn entries(&self) -> Seq<EntryView> {
        entry_views(self.entries@)
    }

    /// The rotation halves seen, in the order first seen.
    pub closed spec fn halves(&self) -> Seq<HalfView> {
        half_views(self.halves@)
    }

    /// Entries ascending by name, each held under its own name; no pair of addresses recorded
    /// twice.
    pub closed spec fn wf(&self) -> bool {
        &&& ascending(self.entries())
        &&& forall|i: int| 0 <= i < self.entries().len() ==> (#[trigger] self.entries()[i]).cid
            == object_cid(self.entries()[i].obj)
        &&& pairs_unique(self.halves())
    }

    pub fn new() -> (l: Self)
        ensures
            l.wf(),
            l.entries() == Seq::<EntryView>::empty(),
            l.halves() == Seq::<HalfView>::empty(),
    {
        let l = Lineage { entries: Vec::new(), halves: Vec::new() };
        assert(l.entries() =~= Seq::<EntryView>::empty());
        assert(l.halves() =~= Seq::<HalfView>::empty());
        l
    }

    pub fn len(&self) -> (n: usize)
        ensures
            n == self.entries().len(),
    {
        self.entries.len()
    }

    pub fn is_empty(&self) -> (b: bool)
        ensures
            b == (self.entries().len() == 0),
    {
        self.entries.len() == 0
    }

    /// Record one half of a rotation.
    fn record(&mut self, forward: bool, from: Address, to: Address)
        requires
            pairs_unique(old(self).halves()),
        ensures
            final(self).halves() == record_half(old(self).halves(), forward, from@, to@),
            pairs_unique(final(self).halves()),
            final(self).entries() == old(self).entries(),
    {
        let ghost hs = self.halves();
        proof {
            lemma_half_index(hs, from@, to@);
        }
        let mut i: usize = 0;
        while i < self.halves.len()
            invariant
                hs == half_views(self.halves@),
                hs == old(self).halves(),
                self.entries() == old(self).entries(),
                pairs_unique(hs),
                i <= self.halves@.len(),
                forall|k: int| 0 <= k < i ==> !(#[trigger] hs[k].0 == from@ && hs[k].1 == to@),
                half_index(hs, from@, to@) matches Some(j) ==> 0 <= j < hs.len() && hs[j].0 == from@ && hs[j].1 == to@,
                forall|k: int| 0 <= k < hs.len() && #[trigger] hs[k].0 == from@ && hs[k].1 == to@ ==> half_index(hs, from@, to@) == Some(k),
            decreases self.halves@.len() - i,
        {
            let h = self.halves[i];
            assert(hs[i as int] == (h.from@, h.to@, h.forward, h.backward));
            if h.from.same(&from) && h.to.same(&to) {
                assert(hs[i as int].0 == from@ && hs[i as int].1 == to@);
                let nh = Half { from, to, forward: h.forward || forward, backward: h.backward || !forward };
                self.halves.set(i, nh);
                proof {
                    assert(half_index(hs, from@, to@) == Some(i as int));
                    assert(self.halves() =~= hs.update(i as int, (from@, to@, hs[i as int].2 || forward, hs[i as int].3 || !forward)));
                    let n = self.halves();
                    assert forall|a: int, b: int| 0 <= a < b < n.len() implies !(#[trigger] n[a].0 == #[trigger] n[b].0 && n[a].1 == n[b].1) by {
                        assert(!(hs[a].0 == hs[b].0 && hs[a].1 == hs[b].1));
                    }
                }
                return;
            }
            i += 1;
        }
        self.halves.push(Half { from, to, forward, backward: !forward });
        proof {
            assert(half_index(hs, from@, to@) is None);
            assert(self.halves() =~= hs.push((from@, to@, forward, !forward)));
            let n = self.halves();
            assert forall|a: int, b: int| 0 <= a < b < n.len() implies !(#[trigger] n[a].0 == #[trigger] n[b].0 && n[a].1 == n[b].1) by {
                if b < hs.len() {
                    assert(!(hs[a].0 == hs[b].0 && hs[a].1 == hs[b].1));
                } else {
                    assert(!(hs[a].0 == from@ && hs[a].1 == to@));
                }
            }
        }
    }
}

/// In ascending entries, scanning past the entries named below `c` finds where `c` goes and
/// whether it is held.
proof fn lemma_scan(es: Seq<EntryView>, c: CidView, j: int)
    requires
        ascending(es),
        c.digest.len() <= 64,
        0 <= j <= es.len(),
        forall|i: int| 0 <= i < j ==> lex_lt(cid_key(#[trigger] es[i].cid), cid_key(c)),
        j < es.len() ==> !lex_lt(cid_key(es[j].cid), cid_key(c)),
    ensures
        below(es, c) == j,
        entry_at(es, c) is Some <==> (j < es.len() && es[j].cid == c),
        (j < es.len() && es[j].cid == c) ==> entry_at(es, c) == Some(es[j]),
    decreases es.len(),
{
    if es.len() == 0 {
        return;
    }
    let d = es.drop_last();
    let n = es.len() - 1;
    assert(ascending(d)) by {
        assert forall|i: int| 0 <= i < d.len() implies (#[trigger] d[i]).cid.digest.len() <= 64 by {
            assert(d[i] == es[i]);
        }
        assert forall|a: int, b: int| 0 <= a < b < d.len() implies lex_lt(cid_key(d[a].cid), cid_key(d[b].cid)) by {
            assert(d[a] == es[a] && d[b] == es[b]);
        }
    }
    if j == es.len() {
        lemma_scan(d, c, n);
        assert(lex_lt(cid_key(es[n].cid), cid_key(c)));
        lemma_lex_irreflexive(cid_key(c));
    } else if j == n {
        lemma_scan(d, c, n);
    } else {
        lemma_scan(d, c, j);
        let kj = cid_key(es[j].cid);
        let kc = cid_key(c);
        let kl = cid_key(es[n].cid);
        assert(lex_lt(kj, kl));
        crate::codec::lemma_cid_key_injective(es[j].cid, es[j].cid);
        crate::codec::lemma_cid_key_injective(c, c);
        if kj == kc {
            crate::codec::lemma_cid_key_injective(es[j].cid, c);
            crate::order::lemma_lex_asymmetric(kc, kl);
        } else {
            lemma_lex_total(kj, kc);
            lemma_lex_transitive(kc, kj, kl);
            crate::order::lemma_lex_asymmetric(kc, kl);
        }
        lemma_lex_irreflexive(kl);
        assert(es[n].cid != c);
    }
}

/// In ascending entries, those named below `c` come first.
proof fn lemma_below(es: Seq<EntryView>, c: CidView)
    requires
        ascending(es),
    ensures
        below(es, c) <= es.len(),
        forall|i: int| 0 <= i < below(es, c) ==> lex_lt(cid_key(#[trigger] es[i].cid), cid_key(c)),
        below(es, c) < es.len() ==> !lex_lt(cid_key(es[below(es, c) as int].cid), cid_key(c)),
    decreases es.len(),
{
    if es.len() > 0 {
        let d = es.drop_last();
        let n = es.len() - 1;
        assert(ascending(d)) by {
            assert forall|i: int| 0 <= i < d.len() implies (#[trigger] d[i]).cid.digest.len() <= 64 by {
                assert(d[i] == es[i]);
            }
            assert forall|a: int, b: int| 0 <= a < b < d.len() implies lex_lt(cid_key(d[a].cid), cid_key(d[b].cid)) by {
                assert(d[a] == es[a] && d[b] == es[b]);
            }
        }
        lemma_below(d, c);
        let j = below(d, c);
        assert forall|i: int| 0 <= i < j implies lex_lt(cid_key(#[trigger] es[i].cid), cid_key(c)) by {
            assert(d[i] == es[i]);
        }
        if lex_lt(cid_key(es[n].cid), cid_key(c)) {
            if j < d.len() {
                assert(d[j as int] == es[j as int]);
                lemma_lex_transitive(cid_key(es[j as int].cid), cid_key(es[n].cid), cid_key(c));
            }
        } else if j < d.len() {
            assert(d[j as int] == es[j as int]);
        }
    }
}

/// Storing an entry into ascending entries keeps them ascending.
proof fn lemma_store_order(es: Seq<EntryView>, e: EntryView, j: int)
    requires
        ascending(es),
        e.cid.digest.len() <= 64,
        j == below(es, e.cid),
        0 <= j <= es.len(),
        forall|i: int| 0 <= i < j ==> lex_lt(cid_key(#[trigger] es[i].cid), cid_key(e.cid)),
        j < es.len() ==> !lex_lt(cid_key(es[j].cid), cid_key(e.cid)),
        entry_at(es, e.cid) is Some <==> (j < es.len() && es[j].cid == e.cid),
    ensures
        ascending(store(es, e)),
{
    let t = store(es, e);
    if entry_at(es, e.cid) is None && j < es.len() {
        let kj = cid_key(es[j].cid);
        if kj == cid_key(e.cid) {
            crate::codec::lemma_cid_key_injective(es[j].cid, e.cid);
        }
        lemma_lex_total(kj, cid_key(e.cid));
    }
    assert forall|a: int, b: int| 0 <= a < b < t.len() implies lex_lt(cid_key(t[a].cid), cid_key(t[b].cid)) by {
        if t.len() == es.len() {
            assert(t[j] == e);
            if a != j {
                assert(t[a] == es[a]);
            }
            if b != j {
                assert(t[b] == es[b]);
            }
        } else {
            if b < j {
                assert(t[a] == es[a] && t[b] == es[b]);
            } else if b == j {
                assert(t[a] == es[a]);
            } else if a < j {
                assert(t[a] == es[a] && t[b] == es[b - 1]);
                if b - 1 > j {
                    lemma_lex_transitive(cid_key(e.cid), cid_key(es[j].cid), cid_key(es[b - 1].cid));
                }
                lemma_lex_transitive(cid_key(es[a].cid), cid_key(e.cid), cid_key(es[b - 1].cid));
            } else if a == j {
                assert(t[b] == es[b - 1]);
                if b - 1 > j {
                    lemma_lex_transitive(cid_key(e.cid), cid_key(es[j].cid), cid_key(es[b - 1].cid));
                }
            } else {
                assert(t[a] == es[a - 1] && t[b] == es[b - 1]);
            }
        }
    }
    assert forall|i: int| 0 <= i < t.len() implies (#[trigger] t[i]).cid.digest.len() <= 64 by {
        if t.len() == es.len() {
            if i != j {
                assert(t[i] == es[i]);
            }
        } else if i < j {
            assert(t[i] == es[i]);
        } else if i > j {
            assert(t[i] == es[i - 1]);
        }
    }
}

/// In ascending entries, the entry held under `c` is the one named `c`, if any is.
proof fn lemma_lookup(es: Seq<EntryView>, c: CidView)
    requires
        ascending(es),
    ensures
        (exists|i: int| 0 <= i < es.len() && (#[trigger] es[i]).cid == c) ==> (entry_at(es, c) matches Some(x)
            && exists|i: int| 0 <= i < es.len() && es[i] == x && (#[trigger] es[i]).cid == c),
        (forall|i: int| 0 <= i < es.len() ==> (#[trigger] es[i]).cid != c) ==> entry_at(es, c) is None,
{
    if exists|i: int| 0 <= i < es.len() && (#[trigger] es[i]).cid == c {
        let i = choose|i: int| 0 <= i < es.len() && (#[trigger] es[i]).cid == c;
        lemma_held(es, i);
    } else {
        lemma_entry_at_first(es, c, es.len() as int);
    }
}

/// Storing `e` makes it the entry held under its name, keeps the entries ascending, and leaves
/// what is held under every other name as it was.
pub proof fn lemma_store(es: Seq<EntryView>, e: EntryView)
    requires
        ascending(es),
        e.cid.digest.len() <= 64,
    ensures
        ascending(store(es, e)),
        entry_at(store(es, e), e.cid) == Some(e),
        forall|c: CidView| c != e.cid ==> #[trigger] entry_at(store(es, e), c) == entry_at(es, c),
{
    let j = below(es, e.cid) as int;
    lemma_below(es, e.cid);
    lemma_scan(es, e.cid, j);
    lemma_store_order(es, e, j);
    let t = store(es, e);
    assert(t[j] == e);
    lemma_held(t, j);
    assert forall|c: CidView| c != e.cid implies #[trigger] entry_at(t, c) == entry_at(es, c) by {
        lemma_lookup(es, c);
        lemma_lookup(t, c);
        if exists|i: int| 0 <= i < es.len() && (#[trigger] es[i]).cid == c {
            let i = choose|i: int| 0 <= i < es.len() && (#[trigger] es[i]).cid == c;
            lemma_held(es, i);
            let w = if t.len() == es.len() || i < j { i } else { i + 1 };
            if t.len() == es.len() && i == j {
                assert(es[j].cid == e.cid);
            }
            assert(t[w] == es[i]);
            lemma_held(t, w);
        } else {
            assert forall|i: int| 0 <= i < t.len() implies (#[trigger] t[i]).cid != c by {
                if t.len() == es.len() {
                    if i != j {
                        assert(t[i] == es[i]);
                    }
                } else if i < j {
                    assert(t[i] == es[i]);
                } else if i > j {
                    assert(t[i] == es[i - 1]);
                }
            }
        }
    }
}

impl Lineage {
    /// Store an entry under its name, keeping the entries ascending.
    fn put(&mut self, e: Entry)
        requires
            old(self).wf(),
            e.cid@ == object_cid(e.obj@),
        ensures
            final(self).wf(),
            final(self).entries() == store(old(self).entries(), e.view()),
            final(self).halves() == old(self).halves(),
    {
        let ghost es = self.entries();
        let ghost ev = e.view();
        let kc = e.cid.sort_key();
        let mut j: usize = 0;
        while j < self.entries.len() && compare_bytes(self.entries[j].cid.sort_key().as_slice(), kc.as_slice()) < 0
            invariant
                es == entry_views(self.entries@),
                kc@ == cid_key(ev.cid),
                ev.cid.digest.len() <= 64,
                j <= self.entries@.len(),
                forall|i: int| 0 <= i < j ==> lex_lt(cid_key(#[trigger] es[i].cid), cid_key(ev.cid)),
            decreases self.entries@.len() - j,
        {
            assert(es[j as int].cid == self.entries@[j as int].cid@);
            j += 1;
        }
        proof {
            if j < es.len() {
                assert(es[j as int].cid == self.entries@[j as int].cid@);
            }
            lemma_scan(es, ev.cid, j as int);
            lemma_store(es, ev);
        }
        if j < self.entries.len() && self.entries[j].cid.same(&e.cid) {
            self.entries.set(j, e);
            proof {
                assert(self.entries() =~= es.update(j as int, ev));
            }
        } else {
            self.entries.insert(j, e);
            proof {
                assert(self.entries() =~= es.insert(j as int, ev));
            }
        }
        proof {
            let t = self.entries();
            assert forall|i: int| 0 <= i < t.len() implies (#[trigger] t[i]).cid == object_cid(t[i].obj) by {
                if t.len() == es.len() {
                    if i != j {
                        assert(t[i] == es[i]);
                    }
                } else if i < j {
                    assert(t[i] == es[i]);
                } else if i > j {
                    assert(t[i] == es[i - 1]);
                }
            }
        }
    }

    /// Take an object, given what verifying it found: the address that signed it, or why it
    /// did not verify. Objects may arrive in any order and from anyone. A rotation half is
    /// recorded as it arrives, and a rotation is usable only once both halves are present.
    pub fn insert(&mut self, obj: Object, verified: Result<Address, ObjectError>) -> (r: Result<
        Cid,
        ObjectError,
    >)
        requires
            old(self).wf(),
        ensures
            final(self).wf(),
            match verified {
                Err(e) => {
                    &&& r == Err::<Cid, ObjectError>(e)
                    &&& final(self).entries() == old(self).entries()
                    &&& final(self).halves() == old(self).halves()
                },
                Ok(a) => {
                    &&& r is Ok && r.unwrap()@ == object_cid(obj@)
                    &&& final(self).halves() == match rotation_claim(obj@, a@) {
                        Some((fwd, f, t)) => record_half(old(self).halves(), fwd, f, t),
                        None => old(self).halves(),
                    }
                    &&& final(self).entries() == store(
                        old(self).entries(),
                        EntryView { cid: object_cid(obj@), obj: obj@, author: a@ },
                    )
                },
            },
    {
        let signer = match verified {
            Err(e) => {
                return Err(e);
            },
            Ok(a) => a,
        };
        match claim_of(&obj, &signer) {
            Some((fwd, from, to)) => {
                self.record(fwd, from, to);
            },
            None => {},
        }
        let cid = obj.cid();
        assert(cid@ == object_cid(obj@));
        self.put(Entry { cid, obj, author: signer });
        Ok(cid)
    }
}


/// `succ` continues `pred`'s series under the same key: it supersedes it, it is the same kind,
/// its sequence advances, and the same key signed both.
pub open spec fn same_key_edge(pred: ObjectView, succ: ObjectView) -> bool {
    &&& succ.supersedes == Some(object_cid(pred))
    &&& succ.kind == pred.kind
    &&& succ.seq > pred.seq
    &&& succ.author_key == pred.author_key
}

/// In any sequence of entries, the entry held under `c` is the first one named `c`.
proof fn lemma_entry_at_first(es: Seq<EntryView>, c: CidView, j: int)
    requires
        0 <= j <= es.len(),
        forall|k: int| 0 <= k < j ==> (#[trigger] es[k]).cid != c,
        j < es.len() ==> es[j].cid == c,
    ensures
        j < es.len() ==> entry_at(es, c) == Some(es[j]),
        j == es.len() ==> entry_at(es, c) is None,
    decreases es.len(),
{
    if es.len() > 0 {
        let d = es.drop_last();
        if j < es.len() - 1 {
            assert forall|k: int| 0 <= k < j implies (#[trigger] d[k]).cid != c by {
                assert(d[k] == es[k]);
            }
            assert(d[j] == es[j]);
            lemma_entry_at_first(d, c, j);
        } else {
            assert forall|k: int| 0 <= k < d.len() implies (#[trigger] d[k]).cid != c by {
                assert(d[k] == es[k]);
            }
            lemma_entry_at_first(d, c, d.len() as int);
        }
    }
}

impl Lineage {
    /// Where the object named `c` is held.
    fn find(&self, c: &Cid) -> (r: Option<usize>)
        ensures
            match r {
                Some(i) => {
                    &&& i < self.entries().len()
                    &&& self.entries()[i as int].cid == c@
                    &&& entry_at(self.entries(), c@) == Some(self.entries()[i as int])
                },
                None => entry_at(self.entries(), c@) is None,
            },
    {
        let ghost es = self.entries();
        let mut i: usize = 0;
        while i < self.entries.len()
            invariant
                es == entry_views(self.entries@),
                i <= es.len(),
                forall|k: int| 0 <= k < i ==> (#[trigger] es[k]).cid != c@,
            decreases es.len() - i,
        {
            assert(es[i as int].cid == self.entries@[i as int].cid@);
            if self.entries[i].cid.same(c) {
                proof {
                    lemma_entry_at_first(es, c@, i as int);
                }
                return Some(i);
            }
            i += 1;
        }
        proof {
            lemma_entry_at_first(es, c@, i as int);
        }
        None
    }

    /// The object named `cid`, when it is held.
    pub fn get(&self, cid: &Cid) -> (r: Option<&Object>)
        ensures
            match r {
                Some(o) => entry_at(self.entries(), cid@) matches Some(e) && o@ == e.obj,
                None => entry_at(self.entries(), cid@) is None,
            },
    {
        match self.find(cid) {
            Some(i) => {
                assert(self.entries()[i as int].obj == self.entries@[i as int].obj@);
                Some(&self.entries[i].obj)
            },
            None => None,
        }
    }

    /// Whether both halves of the rotation from `from` to `to` are present.
    fn rotation_exists(&self, from: &Address, to: &Address) -> (b: bool)
        requires
            pairs_unique(self.halves()),
        ensures
            b == completed(self.halves(), from@, to@),
    {
        let ghost hs = self.halves();
        proof {
            lemma_half_index(hs, from@, to@);
        }
        let mut i: usize = 0;
        while i < self.halves.len()
            invariant
                hs == half_views(self.halves@),
                pairs_unique(hs),
                i <= hs.len(),
                forall|k: int| 0 <= k < i ==> !(#[trigger] hs[k].0 == from@ && hs[k].1 == to@),
                half_index(hs, from@, to@) matches Some(j) ==> 0 <= j < hs.len() && hs[j].0 == from@
                    && hs[j].1 == to@,
                forall|k: int|
                    0 <= k < hs.len() && #[trigger] hs[k].0 == from@ && hs[k].1 == to@ ==> half_index(
                        hs,
                        from@,
                        to@,
                    ) == Some(k),
            decreases hs.len() - i,
        {
            let h = self.halves[i];
            assert(hs[i as int] == (h.from@, h.to@, h.forward, h.backward));
            if h.from.same(from) && h.to.same(to) {
                assert(hs[i as int].0 == from@ && hs[i as int].1 == to@);
                assert(half_index(hs, from@, to@) == Some(i as int));
                return h.forward && h.backward;
            }
            i += 1;
        }
        false
    }

    /// Whether both kinds are the same string.
    fn same_kind(a: &Object, b: &Object) -> (r: bool)
        ensures
            r == (a@.kind == b@.kind),
    {
        let r = bytes_equal(a.kind().as_bytes(), b.kind().as_bytes());
        proof {
            if r {
                lemma_kind_bytes_injective(a@.kind, b@.kind);
            }
        }
        r
    }

    /// Whether `successor` supersedes `predecessor`, is the same kind and advances the sequence.
    fn continues(predecessor: &Object, successor: &Object) -> (r: bool)
        ensures
            r == (successor@.supersedes == Some(object_cid(predecessor@)) && successor@.kind
                == predecessor@.kind && successor@.seq > predecessor@.seq),
    {
        let pc = predecessor.cid();
        let linked = match successor.supersedes() {
            Some(s) => s.same(&pc),
            None => false,
        };
        linked && Self::same_kind(predecessor, successor) && successor.seq() > predecessor.seq()
    }

    /// Is `successor` a legitimate next version of `predecessor` under the same key: it
    /// supersedes it, it is the same kind, its sequence strictly advances, and one key signed
    /// both. Without this anyone could publish a signed object pointing at somebody else's name
    /// and become the head of their document.
    pub fn is_valid_edge(predecessor: &Object, successor: &Object) -> (r: bool)
        ensures
            r == same_key_edge(predecessor@, successor@),
    {
        let pk = predecessor.author_key();
        let sk = successor.author_key();
        Self::continues(predecessor, successor) && bytes_equal(pk.as_slice(), sk.as_slice())
    }

    /// The same rule, with the key-rotation exception: a cross-key edge is legitimate exactly
    /// when a fully countersigned rotation links the two authors. Each author is what deriving
    /// the address from the object's key gave.
    pub fn is_valid_edge_with_rotations(
        &self,
        predecessor: &Object,
        predecessor_author: Result<Address, ObjectError>,
        successor: &Object,
        successor_author: Result<Address, ObjectError>,
    ) -> (r: bool)
        requires
            self.wf(),
        ensures
            r == (successor@.supersedes == Some(object_cid(predecessor@)) && successor@.kind
                == predecessor@.kind && successor@.seq > predecessor@.seq && (successor@.author_key
                == predecessor@.author_key || (predecessor_author matches Ok(f)
                && successor_author matches Ok(t) && completed(self.halves(), f@, t@)))),
    {
        if !Self::continues(predecessor, successor) {
            return false;
        }
        let pk = predecessor.author_key();
        let sk = successor.author_key();
        if bytes_equal(pk.as_slice(), sk.as_slice()) {
            return true;
        }
        match (predecessor_author, successor_author) {
            (Ok(f), Ok(t)) => self.rotation_exists(&f, &t),
            _ => false,
        }
    }

    /// Whether the entry at `j` legitimately continues the entry at `i`.
    fn edge_at(&self, i: usize, j: usize) -> (r: bool)
        requires
            self.wf(),
            i < self.entries().len(),
            j < self.entries().len(),
        ensures
            r == valid_edge(self.halves(), self.entries()[i as int], self.entries()[j as int]),
    {
        let p = &self.entries[i];
        let s = &self.entries[j];
        assert(self.entries()[i as int] == p.view());
        assert(self.entries()[j as int] == s.view());
        if !Self::continues(&p.obj, &s.obj) {
            return false;
        }
        let pk = p.obj.author_key();
        let sk = s.obj.author_key();
        if bytes_equal(pk.as_slice(), sk.as_slice()) {
            return true;
        }
        self.rotation_exists(&p.author, &s.author)
    }

    /// Versions that legitimately supersede `cid`, ascending by name. More than one means the
    /// author equivocated. Objects from other authors that merely point at `cid` never appear.
    pub fn successors(&self, cid: &Cid) -> (r: Vec<Cid>)
        requires
            self.wf(),
        ensures
            cid_views(r@) == match entry_at(self.entries(), cid@) {
                Some(p) => successors_of(self.entries(), self.halves(), p),
                None => Seq::<CidView>::empty(),
            },
    {
        let mut out: Vec<Cid> = Vec::new();
        let i = match self.find(cid) {
            Some(i) => i,
            None => {
                assert(cid_views(out@) =~= Seq::<CidView>::empty());
                return out;
            },
        };
        let ghost es = self.entries();
        let ghost hs = self.halves();
        let ghost p = es[i as int];
        let mut j: usize = 0;
        while j < self.entries.len()
            invariant
                self.wf(),
                es == self.entries(),
                hs == self.halves(),
                i < es.len(),
                p == es[i as int],
                j <= es.len(),
                cid_views(out@) == names(successor_entries(es.subrange(0, j as int), hs, p)),
            decreases es.len() - j,
        {
            assert(es.subrange(0, j as int + 1).drop_last() =~= es.subrange(0, j as int));
            if self.edge_at(i, j) {
                assert(es[j as int].cid == self.entries@[j as int].cid@);
                let ghost r = successor_entries(es.subrange(0, j as int), hs, p);
                let ghost prev = out@;
                out.push(self.entries[j].cid);
                assert(cid_views(out@) =~= names(r.push(es[j as int]))) by {
                    let n = r.push(es[j as int]);
                    assert(cid_views(prev) == names(r));
                    assert(cid_views(prev).len() == prev.len() && names(r).len() == r.len());
                    assert(out@.len() == prev.len() + 1 && n.len() == r.len() + 1);
                    assert forall|k: int| 0 <= k < out@.len() implies #[trigger] cid_views(out@)[k] == names(
                        n,
                    )[k] by {
                        if k < prev.len() {
                            assert(out@[k] == prev[k]);
                            assert(n[k] == r[k]);
                            assert(cid_views(prev)[k] == names(r)[k]);
                        } else {
                            assert(n[k] == es[j as int]);
                        }
                    }
                }
            }
            j += 1;
        }
        assert(es.subrange(0, es.len() as int) =~= es);
        out
    }
}


/// What `c` walks back to: nothing when it is not held.
pub open spec fn history_of(es: Seq<EntryView>, hs: Seq<HalfView>, c: CidView) -> Seq<EntryView> {
    match entry_at(es, c) {
        Some(e) => history_from(es, hs, e),
        None => Seq::empty(),
    }
}

/// Refused claims on `c`: none when it is not held.
pub open spec fn rejected_claims(es: Seq<EntryView>, hs: Seq<HalfView>, c: CidView) -> Seq<
    (CidView, EdgeFault),
> {
    match entry_at(es, c) {
        Some(p) => rejected_of(es, hs, p),
        None => Seq::empty(),
    }
}

/// How the series through `c` resolves: unknown when `c` is not held.
pub open spec fn resolution_of(es: Seq<EntryView>, hs: Seq<HalfView>, c: CidView) -> ResolutionView {
    match entry_at(es, c) {
        Some(e) => resolve_from(es, hs, e),
        None => ResolutionView::Unknown,
    }
}

proof fn lemma_cid_views_push(v: Seq<Cid>, c: Cid)
    ensures
        cid_views(v.push(c)) == cid_views(v).push(c@),
{
    assert(cid_views(v.push(c)) =~= cid_views(v).push(c@)) by {
        assert forall|k: int| 0 <= k < v.len() implies #[trigger] cid_views(v.push(c))[k] == cid_views(
            v,
        )[k] by {
            assert(v.push(c)[k] == v[k]);
        }
    }
}

/// In ascending entries, each is the one held under its own name.
proof fn lemma_held(es: Seq<EntryView>, i: int)
    requires
        ascending(es),
        0 <= i < es.len(),
    ensures
        entry_at(es, es[i].cid) == Some(es[i]),
{
    assert forall|k: int| 0 <= k < i implies (#[trigger] es[k]).cid != es[i].cid by {
        lemma_lex_irreflexive(cid_key(es[i].cid));
    }
    lemma_entry_at_first(es, es[i].cid, i);
}

impl EdgeFault {
    /// What the refusal says.
    pub fn reason(&self) -> (s: &'static str)
        ensures
            s@ == fault_text(*self),
    {
        match self {
            EdgeFault::DifferentAuthor => "different author, no countersigned rotation",
            EdgeFault::DifferentKind => "different kind",
            EdgeFault::NoAdvance => "sequence did not advance",
        }
    }
}

impl Lineage {
    /// Walk back from `cid` to the first version, newest first. Every step is a legitimate edge;
    /// the walk stops at the first edge that is not, or at a predecessor not held.
    pub fn history(&self, cid: &Cid) -> (r: Vec<&Object>)
        requires
            self.wf(),
        ensures
            r@.len() == history_of(self.entries(), self.halves(), cid@).len(),
            forall|k: int|
                0 <= k < r@.len() ==> #[trigger] r@[k]@ == history_of(self.entries(), self.halves(), cid@)[k].obj,
    {
        let ghost es = self.entries();
        let ghost hs = self.halves();
        let ghost target = history_of(es, hs, cid@);
        let mut out: Vec<&Object> = Vec::new();
        let ghost mut done: Seq<EntryView> = Seq::empty();
        let mut at = self.find(cid);
        assert(target == done + match at {
            Some(i) => history_from(es, hs, es[i as int]),
            None => Seq::<EntryView>::empty(),
        });
        while at.is_some()
            invariant
                self.wf(),
                es == self.entries(),
                hs == self.halves(),
                at matches Some(i) ==> i < es.len(),
                target == done + match at {
                    Some(i) => history_from(es, hs, es[i as int]),
                    None => Seq::<EntryView>::empty(),
                },
                out@.len() == done.len(),
                forall|k: int| 0 <= k < done.len() ==> #[trigger] out@[k]@ == done[k].obj,
            decreases match at {
                Some(i) => es[i as int].obj.seq + 1,
                None => 0,
            },
        {
            let i = at.unwrap();
            assert(es[i as int] == self.entries@[i as int].view());
            let ghost before = out@;
            out.push(&self.entries[i].obj);
            let ghost e = es[i as int];
            proof {
                assert forall|k: int| 0 <= k < done.len() + 1 implies #[trigger] out@[k]@ == done.push(e)[k].obj by {
                    if k < done.len() {
                        assert(out@[k] == before[k]);
                    }
                }
                done = done.push(e);
            }
            at = match self.entries[i].obj.supersedes() {
                Some(p) => match self.find(&p) {
                    Some(k) => if self.edge_at(k, i) {
                        Some(k)
                    } else {
                        None
                    },
                    None => None,
                },
                None => None,
            };
            assert(target == done + match at {
                Some(i) => history_from(es, hs, es[i as int]),
                None => Seq::<EntryView>::empty(),
            });
        }
        assert(done + Seq::<EntryView>::empty() =~= done);
        out
    }

    /// Why the entry at `j`, which claims to supersede the entry at `i`, is refused, if it is.
    fn fault_at(&self, i: usize, j: usize) -> (r: Option<EdgeFault>)
        requires
            self.wf(),
            i < self.entries().len(),
            j < self.entries().len(),
        ensures
            r == fault_of(self.halves(), self.entries()[i as int], self.entries()[j as int]),
    {
        let p = &self.entries[i];
        let o = &self.entries[j];
        assert(self.entries()[i as int] == p.view());
        assert(self.entries()[j as int] == o.view());
        let pk = p.obj.author_key();
        let ok = o.obj.author_key();
        if !bytes_equal(pk.as_slice(), ok.as_slice()) && !self.rotation_exists(&p.author, &o.author) {
            Some(EdgeFault::DifferentAuthor)
        } else if !Self::same_kind(&p.obj, &o.obj) {
            Some(EdgeFault::DifferentKind)
        } else if o.obj.seq() <= p.obj.seq() {
            Some(EdgeFault::NoAdvance)
        } else {
            None
        }
    }

    /// Objects held that claim to supersede `cid` but are not entitled to, with the reason,
    /// ascending by name. Surfaced rather than dropped: an attempt to hijack a series is worth
    /// seeing.
    pub fn rejected_edges(&self, cid: &Cid) -> (r: Vec<(Cid, &'static str)>)
        requires
            self.wf(),
        ensures
            r@.len() == rejected_claims(self.entries(), self.halves(), cid@).len(),
            forall|k: int|
                0 <= k < r@.len() ==> (#[trigger] r@[k]).0@ == rejected_claims(
                    self.entries(),
                    self.halves(),
                    cid@,
                )[k].0 && r@[k].1@ == fault_text(rejected_claims(self.entries(), self.halves(), cid@)[k].1),
    {
        let ghost es = self.entries();
        let ghost hs = self.halves();
        let mut out: Vec<(Cid, &'static str)> = Vec::new();
        let i = match self.find(cid) {
            Some(i) => i,
            None => {
                return out;
            },
        };
        let ghost p = es[i as int];
        let mut j: usize = 0;
        while j < self.entries.len()
            invariant
                self.wf(),
                es == self.entries(),
                hs == self.halves(),
                i < es.len(),
                p == es[i as int],
                j <= es.len(),
                out@.len() == rejected_of(es.subrange(0, j as int), hs, p).len(),
                forall|k: int|
                    0 <= k < out@.len() ==> (#[trigger] out@[k]).0@ == rejected_of(
                        es.subrange(0, j as int),
                        hs,
                        p,
                    )[k].0 && out@[k].1@ == fault_text(rejected_of(es.subrange(0, j as int), hs, p)[k].1),
            decreases es.len() - j,
        {
            let ghost sub = es.subrange(0, j as int);
            assert(es.subrange(0, j as int + 1).drop_last() =~= sub);
            assert(es[j as int] == self.entries@[j as int].view());
            assert(es[i as int] == self.entries@[i as int].view());
            let claims = match self.entries[j].obj.supersedes() {
                Some(s) => s.same(&self.entries[i].cid),
                None => false,
            };
            if claims {
                match self.fault_at(i, j) {
                    Some(f) => {
                        let ghost before = out@;
                        out.push((self.entries[j].cid, f.reason()));
                        proof {
                            let n = rejected_of(es.subrange(0, j as int + 1), hs, p);
                            assert(n == rejected_of(sub, hs, p).push((es[j as int].cid, f)));
                            assert forall|k: int| 0 <= k < out@.len() implies (#[trigger] out@[k]).0@ == n[k].0
                                && out@[k].1@ == fault_text(n[k].1) by {
                                if k < before.len() {
                                    assert(out@[k] == before[k]);
                                }
                            }
                        }
                    },
                    None => {},
                }
            }
            j += 1;
        }
        assert(es.subrange(0, es.len() as int) =~= es);
        out
    }

    /// Follow the chain forward from any version to the current one. More than one legitimate
    /// successor is equivocation, and it is surfaced rather than silently resolved.
    pub fn resolve(&self, from: &Cid) -> (r: Resolution)
        requires
            self.wf(),
        ensures
            r@ == resolution_of(self.entries(), self.halves(), from@),
    {
        let ghost es = self.entries();
        let ghost hs = self.halves();
        let mut i = match self.find(from) {
            Some(i) => i,
            None => {
                return Resolution::Unknown;
            },
        };
        loop
            invariant
                self.wf(),
                es == self.entries(),
                hs == self.halves(),
                i < es.len(),
                resolution_of(es, hs, from@) == resolve_from(es, hs, es[i as int]),
            decreases u64::MAX - es[i as int].obj.seq,
        {
            let c = self.entries[i].cid;
            assert(es[i as int].cid == c@);
            proof {
                lemma_held(es, i as int);
                lemma_successor_entries(es, hs, es[i as int]);
            }
            let next = self.successors(&c);
            let ghost s = successor_entries(es, hs, es[i as int]);
            assert(cid_views(next@).len() == next@.len() && names(s).len() == s.len());
            if next.len() == 0 {
                return Resolution::Head(c);
            } else if next.len() == 1 {
                let n0 = next[0];
                proof {
                    assert(cid_views(next@)[0] == n0@);
                    assert(names(s)[0] == s[0].cid);
                    assert(valid_edge(hs, es[i as int], s[0]));
                    let j = choose|j: int| 0 <= j < es.len() && es[j] == s[0];
                    lemma_held(es, j);
                }
                let k = self.find(&n0);
                let k = k.unwrap();
                i = k;
            } else {
                assert(next@.map_values(|x: Cid| x@) =~= cid_views(next@));
                return Resolution::Forked(next);
            }
        }
    }

    /// The versions anywhere in the store with two or more legitimate successors, ascending.
    pub fn equivocations(&self) -> (r: Vec<Cid>)
        requires
            self.wf(),
        ensures
            cid_views(r@) == forks_in(self.entries(), self.entries(), self.halves()),
    {
        let ghost es = self.entries();
        let ghost hs = self.halves();
        let mut out: Vec<Cid> = Vec::new();
        let mut j: usize = 0;
        assert(cid_views(out@) =~= Seq::<CidView>::empty());
        while j < self.entries.len()
            invariant
                self.wf(),
                es == self.entries(),
                hs == self.halves(),
                j <= es.len(),
                cid_views(out@) == forks_in(es.subrange(0, j as int), es, hs),
            decreases es.len() - j,
        {
            assert(es.subrange(0, j as int + 1).drop_last() =~= es.subrange(0, j as int));
            let c = self.entries[j].cid;
            assert(es[j as int].cid == c@);
            proof {
                lemma_held(es, j as int);
            }
            let next = self.successors(&c);
            assert(cid_views(next@).len() == next@.len());
            assert(names(successor_entries(es, hs, es[j as int])).len() == successor_entries(es, hs, es[j as int]).len());
            if next.len() > 1 {
                proof {
                    lemma_cid_views_push(out@, c);
                }
                out.push(c);
            }
            j += 1;
        }
        assert(es.subrange(0, es.len() as int) =~= es);
        out
    }
}


/// A completed key rotation: the one legitimate cross-key edge in a lineage. Both directions
/// are signed: the old key attests to its successor and the new key to its predecessor.
#[derive(Clone, Copy, Debug, PartialEq, Eq)]
pub struct Rotation {
    pub from: Address,
    pub to: Address,
}

/// A rotation as a pair of addresses.
pub open spec fn rotation_pair(r: Rotation) -> (Seq<u8>, Seq<u8>) {
    (r.from@, r.to@)
}

/// Pairs of addresses ordered by the old address, then the new one.
pub open spec fn pair_lt(a: (Seq<u8>, Seq<u8>), b: (Seq<u8>, Seq<u8>)) -> bool {
    lex_lt(a.0, b.0) || (a.0 == b.0 && lex_lt(a.1, b.1))
}

proof fn lemma_pair_transitive(a: (Seq<u8>, Seq<u8>), b: (Seq<u8>, Seq<u8>), c: (Seq<u8>, Seq<u8>))
    requires
        pair_lt(a, b),
        pair_lt(b, c),
    ensures
        pair_lt(a, c),
{
    if lex_lt(a.0, b.0) && lex_lt(b.0, c.0) {
        lemma_lex_transitive(a.0, b.0, c.0);
    } else if lex_lt(a.1, b.1) && lex_lt(b.1, c.1) && a.0 == b.0 && b.0 == c.0 {
        lemma_lex_transitive(a.1, b.1, c.1);
    }
}

proof fn lemma_pair_irreflexive(a: (Seq<u8>, Seq<u8>))
    ensures
        !pair_lt(a, a),
{
    lemma_lex_irreflexive(a.0);
    lemma_lex_irreflexive(a.1);
}

proof fn lemma_pair_total(a: (Seq<u8>, Seq<u8>), b: (Seq<u8>, Seq<u8>))
    requires
        a.0.len() == b.0.len(),
        a.1.len() == b.1.len(),
        a != b,
    ensures
        pair_lt(a, b) || pair_lt(b, a),
{
    if a.0 != b.0 {
        lemma_lex_total(a.0, b.0);
    } else {
        lemma_lex_total(a.1, b.1);
    }
}

/// The least new address a completed rotation from `cur` leads to.
pub open spec fn least_successor(hs: Seq<HalfView>, cur: Seq<u8>) -> Option<Seq<u8>>
    decreases hs.len(),
{
    if hs.len() == 0 {
        None
    } else {
        let rest = least_successor(hs.drop_last(), cur);
        let h = hs.last();
        if h.0 == cur && h.2 && h.3 {
            match rest {
                Some(t) => if lex_lt(h.1, t) {
                    Some(h.1)
                } else {
                    rest
                },
                None => Some(h.1),
            }
        } else {
            rest
        }
    }
}

/// Following rotations from `cur`, having passed through `seen`, with `fuel` steps left:
/// stop at an address already passed through, or with none to move to.
pub open spec fn follow(hs: Seq<HalfView>, cur: Seq<u8>, seen: Seq<Seq<u8>>, fuel: nat) -> Seq<u8>
    decreases fuel,
{
    if fuel == 0 || seen.contains(cur) {
        cur
    } else {
        match least_successor(hs, cur) {
            Some(n) => follow(hs, n, seen.push(cur), (fuel - 1) as nat),
            None => cur,
        }
    }
}

/// Where following rotations from `addr` ends.
pub open spec fn current_identity_of(hs: Seq<HalfView>, addr: Seq<u8>) -> Seq<u8> {
    follow(hs, addr, Seq::empty(), hs.len() + 1)
}

/// Addresses as values.
pub open spec fn addr_views(v: Seq<Address>) -> Seq<Seq<u8>> {
    v.map_values(|a: Address| a@)
}

/// The least successor is a new address some completed rotation from `cur` names.
proof fn lemma_least_successor(hs: Seq<HalfView>, cur: Seq<u8>)
    ensures
        least_successor(hs, cur) matches Some(n) ==> exists|m: int|
            0 <= m < hs.len() && (#[trigger] hs[m]).1 == n && hs[m].0 == cur && hs[m].2 && hs[m].3,
    decreases hs.len(),
{
    if hs.len() > 0 {
        let d = hs.drop_last();
        lemma_least_successor(d, cur);
        if least_successor(hs, cur) is Some && least_successor(hs, cur) == least_successor(d, cur) {
            let n = least_successor(d, cur)->0;
            let m = choose|m: int| 0 <= m < d.len() && (#[trigger] d[m]).1 == n && d[m].0 == cur && d[m].2 && d[m].3;
            assert(hs[m] == d[m]);
        }
    }
}

/// Passing through distinct addresses drawn from `univ`, there is room for a new one only while
/// fewer than `univ` has been passed.
proof fn lemma_room(seen: Seq<Seq<u8>>, x: Seq<u8>, univ: Seq<Seq<u8>>)
    requires
        seen.no_duplicates(),
        !seen.contains(x),
        forall|k: int| 0 <= k < seen.len() ==> univ.contains(#[trigger] seen[k]),
        univ.contains(x),
    ensures
        seen.len() + 1 <= univ.len(),
{
    broadcast use vstd::seq_lib::seq_to_set_is_finite;

    let s2 = seen.push(x);
    assert(s2.no_duplicates()) by {
        assert forall|i: int, j: int| 0 <= i < s2.len() && 0 <= j < s2.len() && i != j implies s2[i] != s2[j] by {
            if i < seen.len() && j < seen.len() {
                assert(s2[i] == seen[i] && s2[j] == seen[j]);
            } else if i < seen.len() {
                assert(s2[i] == seen[i]);
            } else {
                assert(s2[j] == seen[j]);
            }
        }
    }
    s2.unique_seq_to_set();
    assert(s2.to_set().subset_of(univ.to_set())) by {
        assert forall|y: Seq<u8>| s2.to_set().contains(y) implies univ.to_set().contains(y) by {
            let k = choose|k: int| 0 <= k < s2.len() && s2[k] == y;
            if k < seen.len() {
                assert(s2[k] == seen[k]);
            }
        }
    }
    vstd::set_lib::lemma_len_subset(s2.to_set(), univ.to_set());
    univ.lemma_cardinality_of_set();
}

impl Rotation {
    /// The payload of a rotation's forward half: signed by the old key, naming the new address.
    pub fn forward_payload(new: &Address) -> (p: Vec<u8>)
        ensures
            p@ == enc_bytes(forward_word()) + new@,
    {
        let fwd: [u8; 7] = [102, 111, 114, 119, 97, 114, 100];
        assert(fwd@ =~= forward_word());
        let mut e = Enc::new();
        e.bytes(&fwd);
        e.addr(new);
        e.finish()
    }

    /// The payload of a rotation's backward half: signed by the new key, naming the old address.
    pub fn backward_payload(old: &Address) -> (p: Vec<u8>)
        ensures
            p@ == enc_bytes(backward_word()) + old@,
    {
        let bwd: [u8; 8] = [98, 97, 99, 107, 119, 97, 114, 100];
        assert(bwd@ =~= backward_word());
        let mut e = Enc::new();
        e.bytes(&bwd);
        e.addr(old);
        e.finish()
    }

    /// Whether `self` sorts before `other`: by old address, then new.
    fn before(&self, other: &Rotation) -> (b: bool)
        ensures
            b == pair_lt(rotation_pair(*self), rotation_pair(*other)),
    {
        proof {
            self.from.lemma_len();
            other.from.lemma_len();
            self.to.lemma_len();
            other.to.lemma_len();
        }
        let c = compare_bytes(self.from.as_bytes().as_slice(), other.from.as_bytes().as_slice());
        if c < 0 {
            true
        } else if c == 0 {
            compare_bytes(self.to.as_bytes().as_slice(), other.to.as_bytes().as_slice()) < 0
        } else {
            proof {
                lemma_lex_asymmetric(other.from@, self.from@);
            }
            false
        }
    }
}

/// Rotations strictly ascending.
pub open spec fn rotations_ascending(v: Seq<Rotation>) -> bool {
    forall|a: int, b: int|
        0 <= a < b < v.len() ==> pair_lt(rotation_pair(#[trigger] v[a]), rotation_pair(#[trigger] v[b]))
}

/// Rotation `r` is a completed one among the first `i` recorded.
spec fn recorded_before(r: Rotation, hs: Seq<HalfView>, i: int) -> bool {
    exists|m: int| #![trigger hs[m]] 0 <= m < i && hs[m].2 && hs[m].3 && hs[m].0 == r.from@ && hs[m].1 == r.to@
}

/// The pair `f`, `t` is among the rotations.
spec fn collected(v: Seq<Rotation>, f: Seq<u8>, t: Seq<u8>) -> bool {
    exists|k: int| #![trigger v[k]] 0 <= k < v.len() && v[k].from@ == f && v[k].to@ == t
}

/// Each rotation is a completed one among the first `i` recorded.
#[verifier::opaque]
spec fn drawn_from(v: Seq<Rotation>, hs: Seq<HalfView>, i: int) -> bool {
    forall|k: int| 0 <= k < v.len() ==> recorded_before(#[trigger] v[k], hs, i)
}

/// Each completed rotation among the first `i` recorded is present.
#[verifier::opaque]
spec fn covers(v: Seq<Rotation>, hs: Seq<HalfView>, i: int) -> bool {
    forall|m: int| 0 <= m < i && (#[trigger] hs[m]).2 && hs[m].3 ==> collected(v, hs[m].0, hs[m].1)
}

/// A record that is not a completed rotation leaves the collected rotations as they were.
proof fn lemma_rotations_skip(v: Seq<Rotation>, hs: Seq<HalfView>, i: int)
    requires
        0 <= i < hs.len(),
        drawn_from(v, hs, i),
        covers(v, hs, i),
        !(hs[i].2 && hs[i].3),
    ensures
        drawn_from(v, hs, i + 1),
        covers(v, hs, i + 1),
{
    reveal(drawn_from);
    reveal(covers);
    assert forall|k: int| 0 <= k < v.len() implies recorded_before(#[trigger] v[k], hs, i + 1) by {
        assert(recorded_before(v[k], hs, i));
        let m = choose|m: int| 0 <= m < i && hs[m].2 && hs[m].3 && hs[m].0 == v[k].from@ && hs[m].1 == v[k].to@;
        assert(hs[m].0 == v[k].from@);
    }
}

/// A completed rotation not yet collected sorts strictly before whatever it is not after.
proof fn lemma_rotations_place(v: Seq<Rotation>, hs: Seq<HalfView>, i: int, x: Rotation, j: int)
    requires
        0 <= i < hs.len(),
        pairs_unique(hs),
        drawn_from(v, hs, i),
        hs[i].0 == x.from@ && hs[i].1 == x.to@,
        0 <= j < v.len(),
        !pair_lt(rotation_pair(v[j]), rotation_pair(x)),
    ensures
        pair_lt(rotation_pair(x), rotation_pair(v[j])),
{
    reveal(drawn_from);
    let y = v[j];
    assert(recorded_before(y, hs, i));
    let m = choose|m: int| 0 <= m < i && hs[m].2 && hs[m].3 && hs[m].0 == y.from@ && hs[m].1 == y.to@;
    assert(!(hs[m].0 == hs[i].0 && hs[m].1 == hs[i].1));
    y.from.lemma_len();
    y.to.lemma_len();
    x.from.lemma_len();
    x.to.lemma_len();
    lemma_pair_total(rotation_pair(y), rotation_pair(x));
}

/// Inserting a rotation where it sorts keeps the rotations ascending.
proof fn lemma_rotations_insert_order(v: Seq<Rotation>, x: Rotation, j: int)
    requires
        rotations_ascending(v),
        0 <= j <= v.len(),
        forall|k: int| 0 <= k < j ==> pair_lt(rotation_pair(#[trigger] v[k]), rotation_pair(x)),
        j < v.len() ==> pair_lt(rotation_pair(x), rotation_pair(v[j])),
    ensures
        rotations_ascending(v.insert(j, x)),
{
    let t = v.insert(j, x);
    assert forall|a: int, b: int| 0 <= a < b < t.len() implies pair_lt(
        rotation_pair(#[trigger] t[a]),
        rotation_pair(#[trigger] t[b]),
    ) by {
        if b < j {
            assert(t[a] == v[a] && t[b] == v[b]);
        } else if b == j {
            assert(t[a] == v[a]);
        } else if a < j {
            assert(t[a] == v[a] && t[b] == v[b - 1]);
            if b - 1 > j {
                lemma_pair_transitive(rotation_pair(x), rotation_pair(v[j]), rotation_pair(v[b - 1]));
            }
            lemma_pair_transitive(rotation_pair(v[a]), rotation_pair(x), rotation_pair(v[b - 1]));
        } else if a == j {
            assert(t[b] == v[b - 1]);
            if b - 1 > j {
                lemma_pair_transitive(rotation_pair(x), rotation_pair(v[j]), rotation_pair(v[b - 1]));
            }
        } else {
            assert(t[a] == v[a - 1] && t[b] == v[b - 1]);
        }
    }
}

/// Inserting the completed rotation recorded at `i` keeps every rotation drawn from the records.
proof fn lemma_rotations_insert_drawn(v: Seq<Rotation>, hs: Seq<HalfView>, i: int, x: Rotation, j: int)
    requires
        0 <= i < hs.len(),
        drawn_from(v, hs, i),
        hs[i].0 == x.from@ && hs[i].1 == x.to@ && hs[i].2 && hs[i].3,
        0 <= j <= v.len(),
    ensures
        drawn_from(v.insert(j, x), hs, i + 1),
{
    reveal(drawn_from);
    let t = v.insert(j, x);
    assert forall|k: int| 0 <= k < t.len() implies recorded_before(#[trigger] t[k], hs, i + 1) by {
        if k == j {
            assert(t[k] == x);
            assert(hs[i].0 == t[k].from@);
        } else {
            let w = if k < j { k } else { k - 1 };
            assert(t[k] == v[w]);
            assert(recorded_before(v[w], hs, i));
            let m = choose|m: int| 0 <= m < i && hs[m].2 && hs[m].3 && hs[m].0 == v[w].from@ && hs[m].1 == v[w].to@;
            assert(hs[m].0 == t[k].from@);
        }
    }
}

/// Inserting the completed rotation recorded at `i` keeps every completed record collected.
proof fn lemma_rotations_insert_covers(v: Seq<Rotation>, hs: Seq<HalfView>, i: int, x: Rotation, j: int)
    requires
        0 <= i < hs.len(),
        covers(v, hs, i),
        hs[i].0 == x.from@ && hs[i].1 == x.to@,
        0 <= j <= v.len(),
    ensures
        covers(v.insert(j, x), hs, i + 1),
{
    reveal(covers);
    let t = v.insert(j, x);
    assert forall|m: int| 0 <= m < i + 1 && (#[trigger] hs[m]).2 && hs[m].3 implies collected(t, hs[m].0, hs[m].1) by {
        if m < i {
            assert(collected(v, hs[m].0, hs[m].1));
            let k = choose|k: int| 0 <= k < v.len() && v[k].from@ == hs[m].0 && v[k].to@ == hs[m].1;
            if k < j {
                assert(t[k] == v[k]);
            } else {
                assert(t[k + 1] == v[k]);
            }
        } else {
            assert(t[j] == x);
        }
    }
}

/// Collected from every record, the rotations are exactly the completed ones.
proof fn lemma_rotations_done(v: Seq<Rotation>, hs: Seq<HalfView>)
    requires
        pairs_unique(hs),
        drawn_from(v, hs, hs.len() as int),
        covers(v, hs, hs.len() as int),
    ensures
        forall|k: int| 0 <= k < v.len() ==> completed(hs, (#[trigger] v[k]).from@, v[k].to@),
        forall|f: Seq<u8>, t: Seq<u8>| #[trigger] completed(hs, f, t) ==> collected(v, f, t),
{
    reveal(drawn_from);
    reveal(covers);
    assert forall|k: int| 0 <= k < v.len() implies completed(hs, (#[trigger] v[k]).from@, v[k].to@) by {
        assert(recorded_before(v[k], hs, hs.len() as int));
        let m = choose|m: int|
            0 <= m < hs.len() && hs[m].2 && hs[m].3 && hs[m].0 == v[k].from@ && hs[m].1 == v[k].to@;
        lemma_half_index(hs, v[k].from@, v[k].to@);
    }
    assert forall|f: Seq<u8>, t: Seq<u8>| #[trigger] completed(hs, f, t) implies collected(v, f, t) by {
        lemma_half_index(hs, f, t);
        let m = half_index(hs, f, t)->0;
        assert(hs[m].2 && hs[m].3);
    }
}

impl Lineage {
    /// The rotations with both halves present, ascending by old address, then new.
    pub fn rotations(&self) -> (r: Vec<Rotation>)
        requires
            self.wf(),
        ensures
            rotations_ascending(r@),
            forall|k: int| 0 <= k < r@.len() ==> completed(self.halves(), (#[trigger] r@[k]).from@, r@[k].to@),
            forall|f: Seq<u8>, t: Seq<u8>|
                #[trigger] completed(self.halves(), f, t) ==> exists|k: int|
                    0 <= k < r@.len() && #[trigger] r@[k].from@ == f && r@[k].to@ == t,
    {
        let ghost hs = self.halves();
        let mut out: Vec<Rotation> = Vec::new();
        let mut i: usize = 0;
        proof {
            reveal(drawn_from);
            reveal(covers);
        }
        while i < self.halves.len()
            invariant
                hs == half_views(self.halves@),
                pairs_unique(hs),
                i <= hs.len(),
                rotations_ascending(out@),
                drawn_from(out@, hs, i as int),
                covers(out@, hs, i as int),
            decreases hs.len() - i,
        {
            let h = self.halves[i];
            assert(hs[i as int] == (h.from@, h.to@, h.forward, h.backward));
            if h.forward && h.backward {
                let x = Rotation { from: h.from, to: h.to };
                let ghost before = out@;
                let mut j: usize = 0;
                while j < out.len() && out[j].before(&x)
                    invariant
                        out@ == before,
                        j <= out@.len(),
                        forall|k: int| 0 <= k < j ==> pair_lt(rotation_pair(#[trigger] out@[k]), rotation_pair(x)),
                    decreases out@.len() - j,
                {
                    j += 1;
                }
                proof {
                    if j < before.len() {
                        lemma_rotations_place(before, hs, i as int, x, j as int);
                    }
                    lemma_rotations_insert_order(before, x, j as int);
                    lemma_rotations_insert_drawn(before, hs, i as int, x, j as int);
                    lemma_rotations_insert_covers(before, hs, i as int, x, j as int);
                }
                out.insert(j, x);
            } else {
                proof {
                    lemma_rotations_skip(out@, hs, i as int);
                }
            }
            i += 1;
        }
        proof {
            lemma_rotations_done(out@, hs);
        }
        out
    }

    /// The least new address a completed rotation from `cur` leads to.
    fn next_identity(&self, cur: &Address) -> (r: Option<Address>)
        ensures
            match r {
                Some(a) => least_successor(self.halves(), cur@) == Some(a@),
                None => least_successor(self.halves(), cur@) is None,
            },
    {
        let ghost hs = self.halves();
        let mut best: Option<Address> = None;
        let mut i: usize = 0;
        while i < self.halves.len()
            invariant
                hs == half_views(self.halves@),
                i <= hs.len(),
                match best {
                    Some(a) => least_successor(hs.subrange(0, i as int), cur@) == Some(a@),
                    None => least_successor(hs.subrange(0, i as int), cur@) is None,
                },
            decreases hs.len() - i,
        {
            assert(hs.subrange(0, i as int + 1).drop_last() =~= hs.subrange(0, i as int));
            let h = self.halves[i];
            assert(hs[i as int] == (h.from@, h.to@, h.forward, h.backward));
            assert(hs.subrange(0, i as int + 1).last() == hs[i as int]);
            if h.from.same(cur) && h.forward && h.backward {
                best = match best {
                    Some(b) => {
                        proof {
                            h.to.lemma_len();
                            b.lemma_len();
                        }
                        if compare_bytes(h.to.as_bytes().as_slice(), b.as_bytes().as_slice()) < 0 {
                            Some(h.to)
                        } else {
                            Some(b)
                        }
                    },
                    None => Some(h.to),
                };
            }
            i += 1;
        }
        assert(hs.subrange(0, hs.len() as int) =~= hs);
        best
    }

    /// Whether `a` is among `seen`.
    fn passed(seen: &Vec<Address>, a: &Address) -> (r: bool)
        ensures
            r == addr_views(seen@).contains(a@),
    {
        let mut i: usize = 0;
        while i < seen.len()
            invariant
                i <= seen@.len(),
                forall|k: int| 0 <= k < i ==> (#[trigger] seen@[k])@ != a@,
            decreases seen@.len() - i,
        {
            if seen[i].same(a) {
                assert(addr_views(seen@)[i as int] == a@);
                return true;
            }
            i += 1;
        }
        assert forall|k: int| 0 <= k < addr_views(seen@).len() implies #[trigger] addr_views(seen@)[k] != a@ by {
            assert(addr_views(seen@)[k] == seen@[k]@);
        }
        false
    }

    /// Follow rotations forward from `addr` to the identity in use: `addr` itself when no
    /// rotation leaves it, and the address where a cycle closes rather than looping.
    pub fn current_identity(&self, addr: Address) -> (r: Address)
        requires
            self.wf(),
        ensures
            r@ == current_identity_of(self.halves(), addr@),
    {
        let ghost hs = self.halves();
        let ghost fuel0: nat = hs.len() + 1;
        let ghost univ: Seq<Seq<u8>> = seq![addr@] + hs.map_values(|h: HalfView| h.1);
        let mut seen: Vec<Address> = Vec::new();
        let mut cur = addr;
        assert(univ[0] == addr@);
        assert(addr_views(seen@) =~= Seq::<Seq<u8>>::empty());
        loop
            invariant
                self.wf(),
                hs == self.halves(),
                fuel0 == hs.len() + 1,
                univ == seq![addr@] + hs.map_values(|h: HalfView| h.1),
                univ.len() == fuel0,
                addr_views(seen@).no_duplicates(),
                forall|k: int| 0 <= k < seen@.len() ==> univ.contains(#[trigger] addr_views(seen@)[k]),
                univ.contains(cur@),
                seen@.len() <= fuel0,
                current_identity_of(hs, addr@) == follow(
                    hs,
                    cur@,
                    addr_views(seen@),
                    (fuel0 - seen@.len()) as nat,
                ),
            decreases fuel0 - seen@.len(),
        {
            if Self::passed(&seen, &cur) {
                return cur;
            }
            let ghost sv = addr_views(seen@);
            proof {
                assert forall|k: int| 0 <= k < sv.len() implies univ.contains(#[trigger] sv[k]) by {
                    assert(univ.contains(addr_views(seen@)[k]));
                }
                lemma_room(sv, cur@, univ);
            }
            seen.push(cur);
            proof {
                assert(addr_views(seen@) =~= sv.push(cur@));
                let nv = addr_views(seen@);
                assert(nv.no_duplicates()) by {
                    assert forall|a: int, b: int| 0 <= a < nv.len() && 0 <= b < nv.len() && a != b implies nv[a]
                        != nv[b] by {
                        if a < sv.len() && b < sv.len() {
                        } else if a < sv.len() {
                            assert(nv[a] == sv[a]);
                        } else {
                            assert(nv[b] == sv[b]);
                        }
                    }
                }
                assert forall|k: int| 0 <= k < nv.len() implies univ.contains(#[trigger] nv[k]) by {
                    if k < sv.len() {
                        assert(nv[k] == sv[k]);
                        assert(univ.contains(addr_views(seen@)[k]));
                    }
                }
            }
            match self.next_identity(&cur) {
                None => {
                    return cur;
                },
                Some(n) => {
                    proof {
                        lemma_least_successor(hs, cur@);
                        let m = choose|m: int|
                            0 <= m < hs.len() && (#[trigger] hs[m]).1 == n@ && hs[m].0 == cur@ && hs[m].2 && hs[m].3;
                        assert(univ[m + 1] == n@);
                    }
                    cur = n;
                },
            }
        }
    }
}


/// Law: an object taken into a lineage is held under its name, and every other name holds what
/// it held before. A citation, once it resolves, keeps resolving to the same object.
pub proof fn law_a_taken_object_is_held_under_its_name(l: Lineage, e: EntryView)
    requires
        l.wf(),
        e.cid.digest.len() <= 64,
    ensures
        entry_at(store(l.entries(), e), e.cid) == Some(e),
        forall|c: CidView| c != e.cid ==> #[trigger] entry_at(store(l.entries(), e), c) == entry_at(l.entries(), c),
{
    lemma_store(l.entries(), e);
}

/// Law: the order in which two objects with different names arrive does not change what the
/// lineage holds under any name.
pub proof fn law_arrival_order_does_not_matter(l: Lineage, a: EntryView, b: EntryView)
    requires
        l.wf(),
        a.cid.digest.len() <= 64,
        b.cid.digest.len() <= 64,
        a.cid != b.cid,
    ensures
        forall|c: CidView|
            #[trigger] entry_at(store(store(l.entries(), a), b), c) == entry_at(store(store(l.entries(), b), a), c),
{
    let es = l.entries();
    lemma_store(es, a);
    lemma_store(es, b);
    lemma_store(store(es, a), b);
    lemma_store(store(es, b), a);
}

/// Law: recording one half of a rotation sets that half for its pair of addresses and nothing
/// else, so a rotation completes only when its other half was already recorded. A one-sided
/// claim moves nothing, and a rotation between two other parties helps nobody.
pub proof fn law_a_rotation_needs_both_halves(hs: Seq<HalfView>, forward: bool, f: Seq<u8>, t: Seq<u8>)
    requires
        pairs_unique(hs),
    ensures
        halves_of(record_half(hs, forward, f, t), f, t) == (halves_of(hs, f, t).0 || forward, halves_of(
            hs,
            f,
            t,
        ).1 || !forward),
        completed(record_half(hs, forward, f, t), f, t) ==> if forward {
            halves_of(hs, f, t).1
        } else {
            halves_of(hs, f, t).0
        },
        forall|g: Seq<u8>, u: Seq<u8>|
            !(g == f && u == t) ==> #[trigger] halves_of(record_half(hs, forward, f, t), g, u) == halves_of(hs, g, u),
{
    let n = record_half(hs, forward, f, t);
    lemma_half_index(hs, f, t);
    assert(pairs_unique(n)) by {
        assert forall|a: int, b: int| 0 <= a < b < n.len() implies !(#[trigger] n[a].0 == #[trigger] n[b].0
            && n[a].1 == n[b].1) by {
            if half_index(hs, f, t) is Some {
                assert(n.len() == hs.len());
                assert(!(hs[a].0 == hs[b].0 && hs[a].1 == hs[b].1));
            } else if b < hs.len() {
                assert(n[a] == hs[a] && n[b] == hs[b]);
            } else {
                assert(n[a] == hs[a]);
            }
        }
    }
    lemma_half_index(n, f, t);
    match half_index(hs, f, t) {
        Some(i) => {
            assert(n[i].0 == f && n[i].1 == t);
        },
        None => {
            assert(n[hs.len() as int].0 == f && n[hs.len() as int].1 == t);
        },
    }
    assert forall|g: Seq<u8>, u: Seq<u8>| !(g == f && u == t) implies #[trigger] halves_of(n, g, u) == halves_of(
        hs,
        g,
        u,
    ) by {
        lemma_half_index(hs, g, u);
        lemma_half_index(n, g, u);
        match half_index(hs, g, u) {
            Some(k) => {
                assert(n[k] == hs[k]);
            },
            None => {
                if half_index(n, g, u) is Some {
                    let k = half_index(n, g, u)->0;
                    if k < hs.len() {
                        assert(n[k] == hs[k]);
                    }
                }
            },
        }
    }
}

/// Law: every legitimate successor of a version supersedes it, is the same kind, advances the
/// sequence, and is signed by the same key or by a key a countersigned rotation moved the author
/// to. A stranger's object pointing at somebody else's version never continues it.
pub proof fn law_only_the_author_continues_a_series(es: Seq<EntryView>, hs: Seq<HalfView>, pred: EntryView)
    ensures
        forall|k: int|
            0 <= k < successor_entries(es, hs, pred).len() ==> {
                let s = #[trigger] successor_entries(es, hs, pred)[k];
                &&& s.obj.supersedes == Some(pred.cid)
                &&& s.obj.kind == pred.obj.kind
                &&& s.obj.seq > pred.obj.seq
                &&& (s.obj.author_key == pred.obj.author_key || completed(hs, pred.author, s.author))
            },
{
    lemma_successor_entries(es, hs, pred);
}

/// Law: an object that claims to supersede a version either continues it legitimately or is
/// refused with a reason, never both and never neither.
pub proof fn law_a_claim_is_a_successor_or_refused(hs: Seq<HalfView>, pred: EntryView, e: EntryView)
    requires
        e.obj.supersedes == Some(pred.cid),
    ensures
        valid_edge(hs, pred, e) <==> fault_of(hs, pred, e) is None,
{
}

/// Law: a history starts at the version asked about, each version in it legitimately continues
/// the next, and each earlier version is one held.
pub proof fn law_a_history_is_a_chain_of_legitimate_edges(es: Seq<EntryView>, hs: Seq<HalfView>, e: EntryView)
    ensures
        history_from(es, hs, e).len() >= 1,
        history_from(es, hs, e)[0] == e,
        forall|k: int|
            0 <= k < history_from(es, hs, e).len() - 1 ==> valid_edge(
                hs,
                history_from(es, hs, e)[k + 1],
                #[trigger] history_from(es, hs, e)[k],
            ) && entry_at(es, history_from(es, hs, e)[k + 1].cid) == Some(history_from(es, hs, e)[k + 1]),
    decreases e.obj.seq,
{
    let h = history_from(es, hs, e);
    if h.len() > 1 {
        let prev = entry_at(es, e.obj.supersedes->0)->0;
        law_a_history_is_a_chain_of_legitimate_edges(es, hs, prev);
        let r = history_from(es, hs, prev);
        assert(h == seq![e] + r);
        assert forall|k: int| 0 <= k < h.len() - 1 implies valid_edge(hs, h[k + 1], #[trigger] h[k]) && entry_at(
            es,
            h[k + 1].cid,
        ) == Some(h[k + 1]) by {
            assert(h[k + 1] == r[k]);
            if k > 0 {
                assert(h[k] == r[k - 1]);
            }
        }
    }
}

/// Law: resolving ends at a version with no legitimate successor, or at a version with two or
/// more, which are what is reported. It never settles a fork silently.
pub proof fn law_resolution_ends_where_the_series_does(es: Seq<EntryView>, hs: Seq<HalfView>, e: EntryView)
    ensures
        match resolve_from(es, hs, e) {
            ResolutionView::Head(c) => exists|x: EntryView|
                (x == e || es.contains(x)) && x.cid == c && #[trigger] successor_entries(es, hs, x).len() == 0,
            ResolutionView::Forked(v) => v.len() >= 2 && exists|x: EntryView|
                (x == e || es.contains(x)) && #[trigger] successors_of(es, hs, x) == v,
            ResolutionView::Unknown => false,
        },
    decreases u64::MAX - e.obj.seq,
{
    let s = successor_entries(es, hs, e);
    lemma_successor_entries(es, hs, e);
    if s.len() == 0 {
        assert(successor_entries(es, hs, e).len() == 0);
    } else if s.len() == 1 {
        assert(valid_edge(hs, e, s[0]));
        law_resolution_ends_where_the_series_does(es, hs, s[0]);
        let j = choose|j: int| 0 <= j < es.len() && es[j] == s[0];
        assert(es.contains(s[0]));
        match resolve_from(es, hs, s[0]) {
            ResolutionView::Head(c) => {
                let x = choose|x: EntryView|
                    (x == s[0] || es.contains(x)) && x.cid == c && #[trigger] successor_entries(es, hs, x).len() == 0;
                assert(es.contains(x));
            },
            ResolutionView::Forked(v) => {
                let x = choose|x: EntryView| (x == s[0] || es.contains(x)) && #[trigger] successors_of(es, hs, x) == v;
                assert(es.contains(x));
            },
            ResolutionView::Unknown => {},
        }
    } else {
        assert(names(s).len() == s.len());
        assert(successors_of(es, hs, e) == names(s));
    }
}

/// Law: an address no completed rotation leaves is its own current identity, and an identity
/// moves only along a rotation whose both halves are recorded.
pub proof fn law_an_identity_moves_only_by_countersigned_rotation(hs: Seq<HalfView>, a: Seq<u8>)
    requires
        pairs_unique(hs),
    ensures
        least_successor(hs, a) is None ==> current_identity_of(hs, a) == a,
        least_successor(hs, a) matches Some(n) ==> completed(hs, a, n),
{
    lemma_least_successor(hs, a);
    if least_successor(hs, a) is Some {
        let n = least_successor(hs, a)->0;
        let m = choose|m: int| 0 <= m < hs.len() && (#[trigger] hs[m]).1 == n && hs[m].0 == a && hs[m].2 && hs[m].3;
        lemma_half_index(hs, a, n);
    } else {
        assert(!Seq::<Seq<u8>>::empty().contains(a));
    }
}

} // verus!
