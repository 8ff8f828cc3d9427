//! Which providers hold a publisher's feed, computed rather than announced.
//!
//! Every provider gets a weight for a publisher under an epoch's beacon, the hash of the
//! publisher, the beacon value and the provider; the `k` heaviest hold the feed, ties broken
//! by provider id so the order is total and identical everywhere. A publisher depositing and
//! a reader collecting compute the same set without ever having spoken. A provider too new to
//! have outlasted a leaked beacon is not eligible.
use vstd::prelude::*;
use vstd::relations::{sorted_by, total_ordering};
use vstd::seq_lib::lemma_sorted_unique;
use crate::chance::random_bytes;
use crate::codec::{blake3_digest, blake3_hash, push_all, push_u64_le, u16_le, u64_le, Address};
use crate::order::{compare_bytes, lemma_lex_asymmetric, lemma_lex_irreflexive, lemma_lex_total, lemma_lex_transitive, lex_lt};

verus! {

broadcast use vstd::multiset::group_multiset_axioms, vstd::seq_lib::group_to_multiset_ensures;

/// How many providers hold one publisher's feed by default.
pub const DEFAULT_REPLICAS: usize = 3;

/// The value placement rotates on for one epoch.
#[derive(Debug, Clone, Copy, PartialEq, Eq)]
pub struct Beacon {
    pub epoch: u64,
    pub value: [u8; 32],
}

/// `karst.net.v1.predictable-beacon`.
pub open spec fn predictable_domain() -> Seq<u8> {
    seq![
        107u8, 97, 114, 115, 116, 46, 110, 101, 116, 46, 118, 49, 46, 112, 114, 101, 100, 105, 99,
        116, 97, 98, 108, 101, 45, 98, 101, 97, 99, 111, 110,
    ]
}

/// `karst.net.v1.placement`.
pub open spec fn placement_domain() -> Seq<u8> {
    seq![107u8, 97, 114, 115, 116, 46, 110, 101, 116, 46, 118, 49, 46, 112, 108, 97, 99, 101, 109, 101, 110, 116]
}

impl Beacon {
    pub fn new(epoch: u64, value: [u8; 32]) -> (b: Self)
        ensures
            b.epoch == epoch,
            b.value == value,
    {
        Beacon { epoch, value }
    }

    /// A beacon derived from the epoch number alone. Anyone can compute every future value,
    /// so it gives no protection against grinding.
    pub fn predictable(epoch: u64) -> (b: Self)
        ensures
            b.epoch == epoch,
            b.value@ == blake3_digest(predictable_domain() + u64_le(epoch)),
    {
        let domain: [u8; 31] = [
            107, 97, 114, 115, 116, 46, 110, 101, 116, 46, 118, 49, 46, 112, 114, 101, 100, 105,
            99, 116, 97, 98, 108, 101, 45, 98, 101, 97, 99, 111, 110,
        ];
        let mut input: Vec<u8> = Vec::new();
        push_all(&mut input, &domain);
        push_u64_le(&mut input, epoch);
        assert(domain@ =~= predictable_domain());
        assert(input@ =~= predictable_domain() + u64_le(epoch));
        Beacon { epoch, value: blake3_hash(input.as_slice()) }
    }
}

/// `karst.net.v2.beacon`: the transcript a beacon is computed over starts with it, so nothing
/// else signed in this system can be replayed as a beacon.
pub open spec fn beacon_domain() -> Seq<u8> {
    seq![107u8, 97, 114, 115, 116, 46, 110, 101, 116, 46, 118, 50, 46, 98, 101, 97, 99, 111, 110]
}

/// `epoch`: the label the epoch number is appended under.
pub open spec fn epoch_label() -> Seq<u8> {
    seq![101u8, 112, 111, 99, 104]
}

/// `karst.net.v2.beacon.value`: the context the beacon value is drawn from the VRF output under.
pub open spec fn beacon_value_context() -> Seq<u8> {
    seq![107u8, 97, 114, 115, 116, 46, 110, 101, 116, 46, 118, 50, 46, 98, 101, 97, 99, 111, 110, 46, 118, 97, 108, 117, 101]
}

fn beacon_labels() -> (r: (&'static [u8], &'static [u8], &'static [u8]))
    ensures
        r.0@ == beacon_domain(),
        r.1@ == epoch_label(),
        r.2@ == beacon_value_context(),
{
    let domain: &'static [u8; 19] = &[107, 97, 114, 115, 116, 46, 110, 101, 116, 46, 118, 50, 46, 98, 101, 97, 99, 111, 110];
    let label: &'static [u8; 5] = &[101, 112, 111, 99, 104];
    let context: &'static [u8; 25] = &[
        107, 97, 114, 115, 116, 46, 110, 101, 116, 46, 118, 50, 46, 98, 101, 97, 99, 111, 110, 46, 118, 97, 108, 117, 101,
    ];
    assert(domain@ =~= beacon_domain());
    assert(label@ =~= epoch_label());
    assert(context@ =~= beacon_value_context());
    (domain, label, context)
}

/// The public key, as `PublicKey::to_bytes` writes it, of the key pair that
/// `MiniSecretKey::from_bytes` and `expand_to_keypair` in Ed25519 mode make from a seed.
pub uninterp spec fn vrf_seed_public(seed: Seq<u8>) -> Seq<u8>;

/// Calls `schnorrkel::MiniSecretKey::from_bytes` on a seed, expands it with
/// `expand_to_keypair` in Ed25519 mode, and returns the public half as `PublicKey::to_bytes`
/// writes it. `from_bytes` accepts any 32 bytes and the expansion is a function of the seed
/// alone, so the result is the named public key of the seed.
#[verifier::external_body]
fn vrf_public_of_seed(seed: &[u8; 32]) -> (r: Option<[u8; 32]>)
    ensures
        r is Some,
        r matches Some(p) ==> p@ == vrf_seed_public(seed@),
{
    match schnorrkel::MiniSecretKey::from_bytes(seed) {
        Ok(m) => Some(m.expand_to_keypair(schnorrkel::ExpansionMode::Ed25519).public.to_bytes()),
        Err(_) => None,
    }
}

/// Evaluates the VRF under the key pair a seed expands to, as `vrf_public_of_seed` expands it:
/// a `merlin::Transcript` from `Transcript::new(domain)` and `append_message(label, message)`,
/// then `Keypair::vrf_sign` on it. Returns the output's `make_bytes(context)`, its
/// `to_preout().to_bytes()` and the proof's `to_bytes()`. The proof carries fresh randomness,
/// so the three values are not named; what is claimed is the VRF's correctness, that the proof
/// checks, as `vrf_verify` checks it, under the seed's public key for the same transcript and
/// gives the value returned.
#[verifier::external_body]
fn vrf_sign(
    seed: &[u8; 32],
    domain: &'static [u8],
    label: &'static [u8],
    message: &[u8],
    context: &[u8],
) -> (r: Option<([u8; 32], [u8; 32], [u8; 64])>)
    ensures
        r is Some,
        r matches Some((value, preout, proof)) ==> vrf_checked_value(
            vrf_seed_public(seed@),
            domain@,
            label@,
            message@,
            preout@,
            proof@,
            context@,
        ) == Some(value@),
{
    let k = match schnorrkel::MiniSecretKey::from_bytes(seed) {
        Ok(m) => m.expand_to_keypair(schnorrkel::ExpansionMode::Ed25519),
        Err(_) => return None,
    };
    let mut t = merlin::Transcript::new(domain);
    t.append_message(label, message);
    let (io, proof, _) = k.vrf_sign(t);
    Some((io.make_bytes(context), io.to_preout().to_bytes(), proof.to_bytes()))
}

/// What checking a VRF output gives: the value drawn under `context`, or nothing when the key,
/// the pre-output or the proof does not parse, or the proof does not hold for the transcript.
pub uninterp spec fn vrf_checked_value(
    key: Seq<u8>,
    domain: Seq<u8>,
    label: Seq<u8>,
    message: Seq<u8>,
    preout: Seq<u8>,
    proof: Seq<u8>,
    context: Seq<u8>,
) -> Option<Seq<u8>>;

/// Parses `key` with `schnorrkel::PublicKey::from_bytes`, `proof` with
/// `vrf::VRFProof::from_bytes` and `preout` with `vrf::VRFPreOut::from_bytes`, builds the
/// transcript as `vrf_sign` does, and calls `PublicKey::vrf_verify`; when it holds, returns the
/// output's `make_bytes(context)`. Claims only that the answer is the named outcome of these
/// arguments, so the same arguments give the same answer; nothing about which proofs hold.
#[verifier::external_body]
fn vrf_verify(
    key: &[u8; 32],
    domain: &'static [u8],
    label: &'static [u8],
    message: &[u8],
    preout: &[u8; 32],
    proof: &[u8],
    context: &[u8],
) -> (r: Option<[u8; 32]>)
    ensures
        match r {
            Some(v) => vrf_checked_value(key@, domain@, label@, message@, preout@, proof@, context@) == Some(v@),
            None => vrf_checked_value(key@, domain@, label@, message@, preout@, proof@, context@) is None,
        },
{
    let pk = match schnorrkel::PublicKey::from_bytes(key) { Ok(p) => p, Err(_) => return None };
    let pr = match schnorrkel::vrf::VRFProof::from_bytes(proof) { Ok(p) => p, Err(_) => return None };
    let po = match schnorrkel::vrf::VRFPreOut::from_bytes(preout) { Ok(p) => p, Err(_) => return None };
    let mut t = merlin::Transcript::new(domain);
    t.append_message(label, message);
    match pk.vrf_verify(t, &po, &pr) {
        Ok((io, _)) => Some(io.make_bytes(context)),
        Err(_) => None,
    }
}

/// A publisher's beacon key, separate from its identity key: the seed its VRF key pair
/// expands from, and that pair's public key.
pub struct BeaconKey {
    seed: [u8; 32],
    public: [u8; 32],
}

/// What travels with a beacon so a reader can check it.
#[derive(Clone)]
pub struct BeaconProof {
    pub epoch: u64,
    pub value: [u8; 32],
    preout: [u8; 32],
    proof: Vec<u8>,
}

/// A beacon proof as values.
pub struct BeaconProofView {
    pub epoch: u64,
    pub value: Seq<u8>,
    pub preout: Seq<u8>,
    pub proof: Seq<u8>,
}

impl View for BeaconProof {
    type V = BeaconProofView;

    closed spec fn view(&self) -> BeaconProofView {
        BeaconProofView { epoch: self.epoch, value: self.value@, preout: self.preout@, proof: self.proof@ }
    }
}

/// What the VRF check for a proof under `key` gives.
pub open spec fn beacon_check(key: Seq<u8>, epoch: u64, preout: Seq<u8>, proof: Seq<u8>) -> Option<Seq<u8>> {
    vrf_checked_value(key, beacon_domain(), epoch_label(), u64_le(epoch), preout, proof, beacon_value_context())
}

/// The beacon a proof for `epoch` carrying `value` stands for, given what checking it gave: the
/// beacon exactly when the check produced the value the proof carries.
pub open spec fn accepted_beacon(epoch: u64, value: Seq<u8>, checked: Option<Seq<u8>>) -> Option<(u64, Seq<u8>)> {
    match checked {
        Some(v) => if v == value {
            Some((epoch, v))
        } else {
            None
        },
        None => None,
    }
}

/// A beacon as values.
pub open spec fn beacon_view(b: Option<Beacon>) -> Option<(u64, Seq<u8>)> {
    match b {
        Some(x) => Some((x.epoch, x.value@)),
        None => None,
    }
}

impl BeaconKey {
    #[verifier::type_invariant]
    closed spec fn public_matches(&self) -> bool {
        self.public@ == vrf_seed_public(self.seed@)
    }

    /// The public key a reader checks this key's beacons by, as bytes.
    pub closed spec fn public_key(&self) -> Seq<u8> {
        self.public@
    }

    /// A fresh key, from a seed drawn at random. The seed rests on chance; what holds of every
    /// outcome is that the key is the one some 32-byte seed expands to, so its beacons check
    /// under its public key as any key's do.
    pub fn generate() -> (k: Self)
        ensures
            exists|s: Seq<u8>| s.len() == 32 && k.public_key() == #[trigger] vrf_seed_public(s),
    {
        let drawn = random_bytes(32);
        let mut seed = [0u8; 32];
        let mut i: usize = 0;
        while i < 32
            invariant
                drawn@.len() == 32,
                i <= 32,
            decreases 32 - i,
        {
            seed[i] = drawn[i];
            i = i + 1;
        }
        let k = BeaconKey::from_seed(seed);
        assert(seed@.len() == 32 && k.public_key() == vrf_seed_public(seed@));
        k
    }

    /// A key expanded from a seed, the same seed giving the same key.
    pub fn from_seed(seed: [u8; 32]) -> (k: Self)
        ensures
            k.public_key() == vrf_seed_public(seed@),
    {
        let public = vrf_public_of_seed(&seed).unwrap();
        BeaconKey { seed, public }
    }

    /// What a reader needs to check this publisher's beacons. Published once.
    pub fn public(&self) -> (p: [u8; 32])
        ensures
            p@ == self.public_key(),
    {
        self.public
    }

    /// The beacon for an epoch, with the proof a reader checks it by: the VRF evaluated over
    /// the beacon transcript for `epoch`. Its proof checks under this key's public key and
    /// gives the value it carries.
    pub fn beacon(&self, epoch: u64) -> (b: BeaconProof)
        ensures
            b@.epoch == epoch,
            b@.proof.len() == 64,
            beacon_check(self.public_key(), epoch, b@.preout, b@.proof) == Some(b@.value),
    {
        proof {
            use_type_invariant(self);
        }
        let (domain, label, context) = beacon_labels();
        let mut message: Vec<u8> = Vec::new();
        push_u64_le(&mut message, epoch);
        assert(message@ =~= u64_le(epoch));
        let (value, preout, proof) = vrf_sign(&self.seed, domain, label, message.as_slice(), context).unwrap();
        let mut p: Vec<u8> = Vec::new();
        push_all(&mut p, &proof);
        BeaconProof { epoch, value, preout, proof: p }
    }
}

impl BeaconProof {
    /// The beacon this proof stands for, given what checking its VRF output gave.
    pub fn accept(&self, checked: Option<[u8; 32]>) -> (r: Option<Beacon>)
        ensures
            beacon_view(r) == accepted_beacon(
                self@.epoch,
                self@.value,
                match checked {
                    Some(v) => Some(v@),
                    None => None,
                },
            ),
    {
        match checked {
            Some(v) => {
                if crate::codec::bytes_equal(&v, &self.value) {
                    Some(Beacon { epoch: self.epoch, value: v })
                } else {
                    None
                }
            },
            None => None,
        }
    }

    /// Check a beacon against the publisher's beacon key: the beacon when the VRF proof holds
    /// for the epoch and produces the value carried, nothing otherwise. A reader that skips this
    /// takes placement from whoever spoke last.
    pub fn verify(&self, publisher_key: &[u8; 32]) -> (r: Option<Beacon>)
        ensures
            beacon_view(r) == accepted_beacon(
                self@.epoch,
                self@.value,
                beacon_check(publisher_key@, self@.epoch, self@.preout, self@.proof),
            ),
    {
        let (domain, label, context) = beacon_labels();
        let mut message: Vec<u8> = Vec::new();
        push_u64_le(&mut message, self.epoch);
        let checked = vrf_verify(
            publisher_key,
            domain,
            label,
            message.as_slice(),
            &self.preout,
            self.proof.as_slice(),
            context,
        );
        self.accept(checked)
    }
}

/// Law: a beacon is accepted only with the value its proof's check produced, so of two proofs
/// that differ in their value alone at most one is accepted, and a substituted value is refused.
pub proof fn law_a_substituted_value_is_refused(
    key: Seq<u8>,
    epoch: u64,
    preout: Seq<u8>,
    proof: Seq<u8>,
    value: Seq<u8>,
    other: Seq<u8>,
)
    requires
        value != other,
    ensures
        accepted_beacon(epoch, value, beacon_check(key, epoch, preout, proof)) matches Some(b) ==> b == (
            epoch,
            value,
        ) && beacon_check(key, epoch, preout, proof) == Some(value),
        !(accepted_beacon(epoch, value, beacon_check(key, epoch, preout, proof)) is Some && accepted_beacon(
            epoch,
            other,
            beacon_check(key, epoch, preout, proof),
        ) is Some),
{
}

/// How many epochs a provider must have been present before it can hold anything.
pub fn min_tenure() -> (t: u64)
    ensures
        t == 2,
{
    2
}

/// What is hashed to weigh `provider` for `publisher` under beacon value `value`.
pub open spec fn weight_input(publisher: Seq<u8>, value: Seq<u8>, provider: u16) -> Seq<u8> {
    placement_domain() + publisher + value + u16_le(provider)
}

/// The 32 weight bytes of `provider`: the BLAKE3 digest of its weight input.
pub open spec fn weight_key(publisher: Seq<u8>, value: Seq<u8>, provider: u16) -> Seq<u8> {
    Seq::new(32, |i: int| blake3_digest(weight_input(publisher, value, provider))[i])
}

/// Placement order: heavier first, ties to the lower provider id.
pub open spec fn placed_before(publisher: Seq<u8>, value: Seq<u8>) -> spec_fn(u16, u16) -> bool {
    |p: u16, q: u16|
        lex_lt(weight_key(publisher, value, q), weight_key(publisher, value, p)) || (weight_key(
            publisher,
            value,
            p,
        ) == weight_key(publisher, value, q) && p <= q)
}

/// The `k` providers placement picks from `providers`: the first `k` in placement order, or all
/// of them when there are fewer.
pub open spec fn rank_spec(publisher: Seq<u8>, value: Seq<u8>, providers: Seq<u16>, k: nat) -> Seq<
    u16,
> {
    let s = providers.sort_by(placed_before(publisher, value));
    s.take(if k < s.len() {
        k as int
    } else {
        s.len() as int
    })
}

proof fn lemma_placed_before_total(publisher: Seq<u8>, value: Seq<u8>)
    ensures
        total_ordering(placed_before(publisher, value)),
{
    let r = placed_before(publisher, value);
    assert forall|p: u16, q: u16| #[trigger] r(p, q) && #[trigger] r(q, p) implies p == q by {
        let kp = weight_key(publisher, value, p);
        let kq = weight_key(publisher, value, q);
        if lex_lt(kq, kp) {
            lemma_lex_asymmetric(kq, kp);
            lemma_lex_irreflexive(kq);
        } else if lex_lt(kp, kq) {
            lemma_lex_asymmetric(kp, kq);
            lemma_lex_irreflexive(kp);
        }
    }
    assert forall|p: u16, q: u16, s: u16| #[trigger] r(p, q) && #[trigger] r(q, s) implies r(
        p,
        s,
    ) by {
        let kp = weight_key(publisher, value, p);
        let kq = weight_key(publisher, value, q);
        let ks = weight_key(publisher, value, s);
        if lex_lt(kq, kp) && lex_lt(ks, kq) {
            lemma_lex_transitive(ks, kq, kp);
        }
    }
    assert forall|p: u16, q: u16| #[trigger] r(p, q) || #[trigger] r(q, p) by {
        let kp = weight_key(publisher, value, p);
        let kq = weight_key(publisher, value, q);
        if kp != kq {
            lemma_lex_total(kp, kq);
        }
    }
    assert forall|p: u16| #[trigger] r(p, p) by {
    }
}

/// Score one provider for one publisher under one beacon.
pub fn weight(publisher: &Address, beacon: &Beacon, provider: u16) -> (w: [u8; 32])
    ensures
        w@ == weight_key(publisher@, beacon.value@, provider),
{
    let domain: [u8; 22] = [
        107, 97, 114, 115, 116, 46, 110, 101, 116, 46, 118, 49, 46, 112, 108, 97, 99, 101, 109,
        101, 110, 116,
    ];
    let mut input: Vec<u8> = Vec::new();
    push_all(&mut input, &domain);
    push_all(&mut input, publisher.as_bytes());
    push_all(&mut input, &beacon.value);
    input.push((provider & 0xff) as u8);
    input.push(((provider >> 8) & 0xff) as u8);
    assert(domain@ =~= placement_domain());
    assert(input@ =~= weight_input(publisher@, beacon.value@, provider));
    let w = blake3_hash(input.as_slice());
    assert(w@ =~= weight_key(publisher@, beacon.value@, provider));
    w
}

/// Whether `p` with weight `wp` goes no later than `q` with weight `wq`.
fn goes_before(wp: &[u8; 32], p: u16, wq: &[u8; 32], q: u16) -> (r: bool)
    ensures
        r == (lex_lt(wq@, wp@) || (wp@ == wq@ && p <= q)),
{
    let c = compare_bytes(wq.as_slice(), wp.as_slice());
    c < 0 || (c == 0 && p <= q)
}

/// Rank providers with no eligibility check at all: the `k` heaviest, heaviest first.
fn rank(publisher: &Address, beacon: &Beacon, providers: &[u16], k: usize) -> (r: Vec<u16>)
    ensures
        r@ == rank_spec(publisher@, beacon.value@, providers@, k as nat),
{
    let ghost leq = placed_before(publisher@, beacon.value@);
    proof {
        lemma_placed_before_total(publisher@, beacon.value@);
    }
    let mut sorted: Vec<([u8; 32], u16)> = Vec::new();
    let mut i: usize = 0;
    assert(providers@.take(0) =~= Seq::<u16>::empty());
    while i < providers.len()
        invariant
            i <= providers@.len(),
            leq == placed_before(publisher@, beacon.value@),
            total_ordering(leq),
            forall|j: int|
                0 <= j < sorted@.len() ==> (#[trigger] sorted@[j]).0@ == weight_key(
                    publisher@,
                    beacon.value@,
                    sorted@[j].1,
                ),
            sorted_by(sorted@.map_values(|e: ([u8; 32], u16)| e.1), leq),
            sorted@.map_values(|e: ([u8; 32], u16)| e.1).to_multiset() == providers@.take(
                i as int,
            ).to_multiset(),
        decreases providers@.len() - i,
    {
        let p = providers[i];
        let w = weight(publisher, beacon, p);
        let ghost ids = sorted@.map_values(|e: ([u8; 32], u16)| e.1);
        let mut pos: usize = 0;
        while pos < sorted.len() && goes_before(&sorted[pos].0, sorted[pos].1, &w, p)
            invariant
                pos <= sorted@.len(),
                ids == sorted@.map_values(|e: ([u8; 32], u16)| e.1),
                w@ == weight_key(publisher@, beacon.value@, p),
                leq == placed_before(publisher@, beacon.value@),
                forall|j: int|
                    0 <= j < sorted@.len() ==> (#[trigger] sorted@[j]).0@ == weight_key(
                        publisher@,
                        beacon.value@,
                        sorted@[j].1,
                    ),
                forall|j: int| 0 <= j < pos ==> leq(#[trigger] ids[j], p),
            decreases sorted@.len() - pos,
        {
            pos = pos + 1;
        }
        let ghost before = sorted@;
        sorted.insert(pos, (w, p));
        proof {
            let nids = sorted@.map_values(|e: ([u8; 32], u16)| e.1);
            assert(nids =~= ids.insert(pos as int, p));
            if pos < ids.len() {
                assert(!leq(ids[pos as int], p));
                assert(leq(p, ids[pos as int]));
            }
            assert forall|a: int, b: int| 0 <= a < b < nids.len() implies #[trigger] leq(
                nids[a],
                nids[b],
            ) by {
                if b < pos {
                    assert(nids[a] == ids[a] && nids[b] == ids[b]);
                } else if b == pos {
                    assert(nids[a] == ids[a]);
                } else if a < pos {
                    assert(nids[a] == ids[a] && nids[b] == ids[b - 1]);
                    assert(leq(ids[a], p));
                    assert(leq(p, ids[pos as int]));
                    if b - 1 > pos {
                        assert(leq(ids[pos as int], ids[b - 1]));
                    }
                } else if a == pos {
                    assert(nids[b] == ids[b - 1]);
                    if b - 1 > pos {
                        assert(leq(ids[pos as int], ids[b - 1]));
                    }
                } else {
                    assert(nids[a] == ids[a - 1] && nids[b] == ids[b - 1]);
                }
            }
            assert(providers@.take(i + 1) =~= providers@.take(i as int).push(p));
            vstd::seq_lib::lemma_multiset_commutative(ids.take(pos as int), seq![p] + ids.skip(pos as int));
            assert(ids.insert(pos as int, p) =~= ids.take(pos as int) + (seq![p] + ids.skip(
                pos as int,
            )));
            assert(ids =~= ids.take(pos as int) + ids.skip(pos as int));
            vstd::seq_lib::lemma_multiset_commutative(ids.take(pos as int), ids.skip(pos as int));
            vstd::seq_lib::lemma_multiset_commutative(seq![p], ids.skip(pos as int));
            assert forall|j: int| 0 <= j < sorted@.len() implies (#[trigger] sorted@[j]).0@
                == weight_key(publisher@, beacon.value@, sorted@[j].1) by {
                if j < pos {
                    assert(sorted@[j] == before[j]);
                } else if j > pos {
                    assert(sorted@[j] == before[j - 1]);
                }
            }
        }
        i = i + 1;
    }
    let ghost ids = sorted@.map_values(|e: ([u8; 32], u16)| e.1);
    proof {
        assert(providers@.take(providers@.len() as int) =~= providers@);
        providers@.lemma_sort_by_ensures(leq);
        lemma_sorted_unique(ids, providers@.sort_by(leq), leq);
    }
    let take = if k < sorted.len() {
        k
    } else {
        sorted.len()
    };
    let mut out: Vec<u16> = Vec::new();
    let mut j: usize = 0;
    while j < take
        invariant
            take <= sorted@.len(),
            j <= take,
            ids == sorted@.map_values(|e: ([u8; 32], u16)| e.1),
            out@ == ids.take(j as int),
        decreases take - j,
    {
        out.push(sorted[j].1);
        j = j + 1;
        assert(out@ =~= ids.take(j as int));
    }
    out
}

/// A provider and when it first appeared, which is what tenure is measured against.
#[derive(Debug, Clone, Copy, PartialEq, Eq)]
pub struct Candidate {
    pub id: u16,
    pub joined_epoch: u64,
}

/// Whether a candidate has been present long enough to hold anything under a beacon for
/// `epoch`.
pub open spec fn eligible(epoch: u64, c: Candidate) -> bool {
    epoch - c.joined_epoch >= 2
}

/// The ids of the eligible candidates, in the order given.
pub open spec fn eligible_ids(epoch: u64, cs: Seq<Candidate>) -> Seq<u16>
    decreases cs.len(),
{
    if cs.len() == 0 {
        Seq::empty()
    } else if eligible(epoch, cs.last()) {
        eligible_ids(epoch, cs.drop_last()).push(cs.last().id)
    } else {
        eligible_ids(epoch, cs.drop_last())
    }
}

/// The providers holding `publisher` under `beacon`, heaviest first: the `k` heaviest of the
/// candidates that have been present for at least `min_tenure` epochs.
pub fn placement_among(
    publisher: &Address,
    beacon: &Beacon,
    candidates: &[Candidate],
    k: usize,
) -> (r: Vec<u16>)
    ensures
        r@ == rank_spec(publisher@, beacon.value@, eligible_ids(beacon.epoch, candidates@), k as nat),
{
    let mut ids: Vec<u16> = Vec::new();
    let mut i: usize = 0;
    assert(candidates@.take(0) =~= Seq::<Candidate>::empty());
    while i < candidates.len()
        invariant
            i <= candidates@.len(),
            ids@ == eligible_ids(beacon.epoch, candidates@.take(i as int)),
        decreases candidates@.len() - i,
    {
        let c = candidates[i];
        assert(candidates@.take(i + 1).drop_last() =~= candidates@.take(i as int));
        if beacon.epoch.saturating_sub(c.joined_epoch) >= min_tenure() {
            ids.push(c.id);
        }
        i = i + 1;
    }
    assert(candidates@.take(candidates@.len() as int) =~= candidates@);
    rank(publisher, beacon, ids.as_slice(), k)
}

/// Placement over providers assumed to be long established, under the predictable beacon for
/// `epoch`. No tenure check.
pub fn placement(publisher: &Address, epoch: u64, providers: &[u16], k: usize) -> (r: Vec<u16>)
    ensures
        r@ == rank_spec(
            publisher@,
            blake3_digest(predictable_domain() + u64_le(epoch)),
            providers@,
            k as nat,
        ),
{
    let b = Beacon::predictable(epoch);
    rank(publisher, &b, providers, k)
}


/// Placement is deterministic in what is offered: any two lists holding the same providers,
/// in any order, give the same placement, so a publisher and a reader who never spoke agree.
pub proof fn law_placement_depends_only_on_who_is_offered(
    publisher: Seq<u8>,
    value: Seq<u8>,
    a: Seq<u16>,
    b: Seq<u16>,
    k: nat,
)
    requires
        a.to_multiset() == b.to_multiset(),
    ensures
        rank_spec(publisher, value, a, k) == rank_spec(publisher, value, b, k),
{
    let leq = placed_before(publisher, value);
    lemma_placed_before_total(publisher, value);
    a.lemma_sort_by_ensures(leq);
    b.lemma_sort_by_ensures(leq);
    lemma_sorted_unique(a.sort_by(leq), b.sort_by(leq), leq);
}

/// Placement picks `k` providers, or all of them when fewer are offered, each one of those
/// offered, heaviest first; asking for more replicas than exist returns every provider.
pub proof fn law_placement_picks_the_heaviest_k(
    publisher: Seq<u8>,
    value: Seq<u8>,
    providers: Seq<u16>,
    k: nat,
)
    ensures
        rank_spec(publisher, value, providers, k).len() == if k < providers.len() {
            k
        } else {
            providers.len()
        },
        forall|i: int|
            0 <= i < rank_spec(publisher, value, providers, k).len() ==> providers.contains(
                #[trigger] rank_spec(publisher, value, providers, k)[i],
            ),
        sorted_by(rank_spec(publisher, value, providers, k), placed_before(publisher, value)),
        k >= providers.len() ==> rank_spec(publisher, value, providers, k).to_multiset()
            == providers.to_multiset(),
{
    let leq = placed_before(publisher, value);
    lemma_placed_before_total(publisher, value);
    providers.lemma_sort_by_ensures(leq);
    let s = providers.sort_by(leq);
    let r = rank_spec(publisher, value, providers, k);
    assert(s.len() == providers.len()) by {
        vstd::seq_lib::to_multiset_len(s);
        vstd::seq_lib::to_multiset_len(providers);
    }
    assert forall|i: int| 0 <= i < r.len() implies providers.contains(#[trigger] r[i]) by {
        assert(r[i] == s[i]);
        assert(s.to_multiset().count(s[i]) > 0);
    }
    if k >= providers.len() {
        assert(r =~= s);
    }
}

/// Only eligible candidates are placed: a provider that has not been present for
/// `min_tenure` epochs before the beacon's epoch holds nothing under it.
pub proof fn law_a_new_provider_cannot_be_placed(
    publisher: Seq<u8>,
    beacon: Beacon,
    candidates: Seq<Candidate>,
    k: nat,
    i: int,
)
    requires
        0 <= i < rank_spec(publisher, beacon.value@, eligible_ids(beacon.epoch, candidates), k).len(),
    ensures
        exists|j: int|
            0 <= j < candidates.len() && candidates[j].id == rank_spec(
                publisher,
                beacon.value@,
                eligible_ids(beacon.epoch, candidates),
                k,
            )[i] && eligible(beacon.epoch, candidates[j]),
{
    let ids = eligible_ids(beacon.epoch, candidates);
    law_placement_picks_the_heaviest_k(publisher, beacon.value@, ids, k);
    let x = rank_spec(publisher, beacon.value@, ids, k)[i];
    assert(ids.contains(x));
    lemma_eligible_ids(beacon.epoch, candidates, x);
}

proof fn lemma_eligible_ids(epoch: u64, cs: Seq<Candidate>, x: u16)
    requires
        eligible_ids(epoch, cs).contains(x),
    ensures
        exists|j: int| 0 <= j < cs.len() && cs[j].id == x && eligible(epoch, cs[j]),
    decreases cs.len(),
{
    if cs.len() > 0 {
        let p = cs.drop_last();
        if eligible(epoch, cs.last()) && x == cs.last().id {
            assert(cs[cs.len() - 1].id == x);
        } else {
            if eligible(epoch, cs.last()) {
                let k = choose|k: int| 0 <= k < eligible_ids(epoch, cs).len() && eligible_ids(epoch, cs)[k] == x;
                assert(eligible_ids(epoch, p).contains(x)) by {
                    assert(eligible_ids(epoch, p)[k] == x);
                }
            }
            lemma_eligible_ids(epoch, p, x);
            let j = choose|j: int| 0 <= j < p.len() && p[j].id == x && eligible(epoch, p[j]);
            assert(cs[j] == p[j]);
        }
    }
}


/// The providers with every `q` taken out, the rest in order.
pub open spec fn without(s: Seq<u16>, q: u16) -> Seq<u16>
    decreases s.len(),
{
    if s.len() == 0 {
        s
    } else if s[0] == q {
        without(s.drop_first(), q)
    } else {
        seq![s[0]] + without(s.drop_first(), q)
    }
}

proof fn lemma_without_members(s: Seq<u16>, q: u16)
    ensures
        forall|i: int| 0 <= i < without(s, q).len() ==> s.contains(#[trigger] without(s, q)[i]),
        without(s, q).len() <= s.len(),
    decreases s.len(),
{
    if s.len() > 0 {
        let r = s.drop_first();
        lemma_without_members(r, q);
        let w = without(s, q);
        assert forall|i: int| 0 <= i < w.len() implies s.contains(#[trigger] w[i]) by {
            if s[0] == q {
                let j = choose|j: int| 0 <= j < r.len() && r[j] == w[i];
                assert(s[j + 1] == w[i]);
            } else if i == 0 {
                assert(s[0] == w[i]);
            } else {
                assert(w[i] == without(r, q)[i - 1]);
                let j = choose|j: int| 0 <= j < r.len() && r[j] == without(r, q)[i - 1];
                assert(s[j + 1] == w[i]);
            }
        }
    }
}

proof fn lemma_without_count(s: Seq<u16>, q: u16, x: u16)
    ensures
        without(s, q).to_multiset().count(x) == if x == q {
            0
        } else {
            s.to_multiset().count(x)
        },
    decreases s.len(),
{
    if s.len() > 0 {
        let r = s.drop_first();
        lemma_without_count(r, q, x);
        assert(s =~= seq![s[0]] + r);
        vstd::seq_lib::lemma_multiset_commutative(seq![s[0]], r);
        if s[0] != q {
            vstd::seq_lib::lemma_multiset_commutative(seq![s[0]], without(r, q));
        }
    }
}

proof fn lemma_without_sorted(s: Seq<u16>, q: u16, leq: spec_fn(u16, u16) -> bool)
    requires
        sorted_by(s, leq),
    ensures
        sorted_by(without(s, q), leq),
    decreases s.len(),
{
    if s.len() > 0 {
        let r = s.drop_first();
        assert(sorted_by(r, leq)) by {
            assert forall|i: int, j: int| 0 <= i < j < r.len() implies #[trigger] leq(r[i], r[j]) by {
                assert(r[i] == s[i + 1] && r[j] == s[j + 1]);
            }
        }
        lemma_without_sorted(r, q, leq);
        lemma_without_members(r, q);
        if s[0] != q {
            let w = without(s, q);
            let wr = without(r, q);
            assert forall|i: int, j: int| 0 <= i < j < w.len() implies #[trigger] leq(w[i], w[j]) by {
                if i == 0 {
                    assert(w[j] == wr[j - 1]);
                    assert(r.contains(wr[j - 1]));
                    let m = choose|m: int| 0 <= m < r.len() && r[m] == wr[j - 1];
                    assert(s[m + 1] == r[m]);
                } else {
                    assert(w[i] == wr[i - 1] && w[j] == wr[j - 1]);
                }
            }
        }
    }
}

proof fn lemma_without_keeps_prefix(s: Seq<u16>, q: u16, k: int)
    requires
        0 <= k <= s.len(),
        !s.take(k).contains(q),
    ensures
        without(s, q).len() >= k,
        without(s, q).take(k) == s.take(k),
    decreases k,
{
    if k > 0 {
        let r = s.drop_first();
        assert(s[0] != q) by {
            assert(s.take(k)[0] == s[0]);
        }
        assert(!r.take(k - 1).contains(q)) by {
            if r.take(k - 1).contains(q) {
                let j = choose|j: int| 0 <= j < r.take(k - 1).len() && #[trigger] r.take(k - 1)[j] == q;
                assert(s.take(k)[j + 1] == q);
            }
        }
        lemma_without_keeps_prefix(r, q, k - 1);
        assert(without(s, q).take(k) =~= s.take(k)) by {
            assert forall|i: int| 0 <= i < k implies without(s, q).take(k)[i] == s.take(k)[i] by {
                if i > 0 {
                    assert(without(s, q)[i] == without(r, q)[i - 1]);
                    assert(without(r, q).take(k - 1)[i - 1] == r.take(k - 1)[i - 1]);
                }
            }
        }
    } else {
        assert(without(s, q).take(0) =~= s.take(0));
    }
}

/// Losing a provider moves only what it held: taking out a provider that is not among the
/// `k` placed leaves the placement exactly as it was.
pub proof fn law_losing_a_provider_moves_only_its_own_publishers(
    publisher: Seq<u8>,
    value: Seq<u8>,
    providers: Seq<u16>,
    q: u16,
    k: nat,
)
    requires
        !rank_spec(publisher, value, providers, k).contains(q),
    ensures
        rank_spec(publisher, value, without(providers, q), k) == rank_spec(
            publisher,
            value,
            providers,
            k,
        ),
{
    let leq = placed_before(publisher, value);
    lemma_placed_before_total(publisher, value);
    providers.lemma_sort_by_ensures(leq);
    let reduced = without(providers, q);
    reduced.lemma_sort_by_ensures(leq);
    let s = providers.sort_by(leq);
    let s2 = reduced.sort_by(leq);
    lemma_without_sorted(s, q, leq);
    assert(without(s, q).to_multiset() =~= reduced.to_multiset()) by {
        assert forall|x: u16| without(s, q).to_multiset().count(x) == reduced.to_multiset().count(x) by {
            lemma_without_count(s, q, x);
            lemma_without_count(providers, q, x);
        }
    }
    lemma_sorted_unique(without(s, q), s2, leq);
    vstd::seq_lib::to_multiset_len(s);
    vstd::seq_lib::to_multiset_len(providers);
    let k2 = if k < s.len() {
        k as int
    } else {
        s.len() as int
    };
    lemma_without_keeps_prefix(s, q, k2);
    vstd::seq_lib::to_multiset_len(s2);
    vstd::seq_lib::to_multiset_len(reduced);
    lemma_without_members(s, q);
    if k < s.len() {
        assert(s2.take(k as int) == s.take(k as int));
    } else {
        assert(s2.len() == s.len()) by {
            assert(!s.contains(q)) by {
                assert(s.take(s.len() as int) =~= s);
            }
            assert(without(s, q).len() >= s.len());
        }
    }
}

} // verus!
