//! Witness cosigning.
//!
//! A witness countersigns a publisher's own signed checkpoint only if it extends what that
//! witness has already seen, so showing two readers two histories requires corrupting
//! witnesses rather than fooling a reader. A witness never originates a statement: it
//! countersigns or declines. Two countersignatures by one witness over conflicting checkpoints
//! at one sequence are portable evidence naming it.
//!
//! Witness sets belong to readers: a reader chooses its own witnesses and threshold, and
//! accepts a checkpoint only with enough of them and only if it continues what it held.
//!
//! Signing and checking signatures is done by the caller; this holds what a witness has seen,
//! decides what it may countersign and what a reader may accept, and says which bytes are
//! signed.
use vstd::prelude::*;
use crate::codec::{
    blake3_digest, cid_well_formed, enc_bytes, enc_cid, enc_opt_cid, law_cid_round_trip, law_opt_cid_round_trip,
    law_u64_round_trip, rd_cid, rd_opt_cid, rd_u64, u64_le, Address, Cid, CidView, Dec, Enc,
};
use crate::object::{Object, ObjectError, ObjectView};

verus! {

broadcast use vstd::std_specs::vec::group_vec_axioms;

/// A checkpoint as values.
pub struct CheckpointView {
    pub publisher: Seq<u8>,
    pub sequence: u64,
    pub digest: CidView,
    pub prev: Option<CidView>,
}

/// What a publisher asks witnesses to countersign.
#[derive(Debug, Clone, Copy, PartialEq, Eq)]
pub struct Checkpoint {
    pub publisher: Address,
    /// Monotonic per publisher. A witness refuses anything not strictly greater.
    pub sequence: u64,
    /// Commitment to the publisher's state at this sequence.
    pub digest: Cid,
    /// The identity of the checkpoint this one continues, or `None` for the first.
    pub prev: Option<Cid>,
}

/// The value of an optional content identifier.
pub open spec fn opt_view(c: Option<Cid>) -> Option<CidView> {
    match c {
        Some(x) => Some(x@),
        None => None,
    }
}

impl View for Checkpoint {
    type V = CheckpointView;

    open spec fn view(&self) -> CheckpointView {
        CheckpointView {
            publisher: self.publisher@,
            sequence: self.sequence,
            digest: self.digest@,
            prev: opt_view(self.prev),
        }
    }
}

/// The domain that opens a checkpoint's signing bytes.
pub open spec fn checkpoint_domain() -> Seq<u8> {
    seq![
        107u8, 97, 114, 115, 116, 46, 119, 105, 116, 110, 101, 115, 115, 46, 99, 104, 101, 99,
        107, 112, 111, 105, 110, 116, 46, 118, 49,
    ]
}

/// The bytes a witness signs. They name the publisher, so a countersignature for one
/// publisher cannot be replayed for another.
pub open spec fn checkpoint_bytes(c: CheckpointView) -> Seq<u8> {
    enc_bytes(checkpoint_domain()) + c.publisher + u64_le(c.sequence) + enc_cid(c.digest)
        + enc_opt_cid(c.prev)
}

/// A checkpoint's own identity, which the next one links back to.
pub open spec fn checkpoint_id(c: CheckpointView) -> CidView {
    CidView { alg: 1, digest: blake3_digest(checkpoint_bytes(c)) }
}

/// The payload of the object a checkpoint is published in: its sequence, its digest and the
/// link back. The object is of kind `karst.witness.checkpoint.v1`, carries the checkpoint's
/// sequence and supersedes the object holding the checkpoint before.
pub open spec fn checkpoint_payload(c: CheckpointView) -> Seq<u8> {
    u64_le(c.sequence) + enc_cid(c.digest) + enc_opt_cid(c.prev)
}

/// What an object says as a checkpoint, given what verifying it found: refused unless it is of
/// the checkpoint kind, verifies, and its payload is exactly a sequence, a digest and a link.
pub open spec fn checkpoint_from(o: ObjectView, verified: Result<Seq<u8>, ObjectError>) -> Result<
    CheckpointView,
    ObjectError,
> {
    if vstd::utf8::encode_utf8(o.kind) != checkpoint_domain() {
        Err(ObjectError::CidMismatch)
    } else {
        match verified {
            Err(e) => Err(e),
            Ok(publisher) => match rd_u64(o.payload, 0) {
                (Ok(sequence), p1) => match rd_cid(o.payload, p1) {
                    (Ok(digest), p2) => match rd_opt_cid(o.payload, p2) {
                        (Ok(prev), p3) => if p3 == o.payload.len() {
                            Ok(CheckpointView { publisher, sequence, digest, prev })
                        } else {
                            Err(ObjectError::CidMismatch)
                        },
                        (Err(_), _) => Err(ObjectError::CidMismatch),
                    },
                    (Err(_), _) => Err(ObjectError::CidMismatch),
                },
                (Err(_), _) => Err(ObjectError::CidMismatch),
            },
        }
    }
}

/// An address verification result as values.
pub open spec fn verified_view(v: Result<Address, ObjectError>) -> Result<Seq<u8>, ObjectError> {
    match v {
        Ok(a) => Ok(a@),
        Err(e) => Err(e),
    }
}

/// Law: a checkpoint published in an object of its kind reads back as itself, with the address
/// that verified the object as its publisher.
pub proof fn law_a_published_checkpoint_reads_back(o: ObjectView, c: CheckpointView)
    requires
        vstd::utf8::encode_utf8(o.kind) == checkpoint_domain(),
        o.payload == checkpoint_payload(c),
        cid_well_formed(c.digest),
        c.prev matches Some(p) ==> cid_well_formed(p),
    ensures
        checkpoint_from(o, Ok(c.publisher)) == Ok::<CheckpointView, ObjectError>(c),
{
    let b = o.payload;
    law_u64_round_trip(Seq::empty(), c.sequence, enc_cid(c.digest) + enc_opt_cid(c.prev));
    assert(b =~= Seq::<u8>::empty() + u64_le(c.sequence) + (enc_cid(c.digest) + enc_opt_cid(c.prev)));
    law_cid_round_trip(u64_le(c.sequence), c.digest, enc_opt_cid(c.prev));
    assert(b =~= u64_le(c.sequence) + enc_cid(c.digest) + enc_opt_cid(c.prev));
    law_opt_cid_round_trip(u64_le(c.sequence) + enc_cid(c.digest), c.prev, Seq::empty());
    assert(b =~= u64_le(c.sequence) + enc_cid(c.digest) + enc_opt_cid(c.prev) + Seq::<u8>::empty());
}

impl Checkpoint {
    /// The payload of the object this checkpoint is published in.
    pub fn payload(&self) -> (b: Vec<u8>)
        ensures
            b@ == checkpoint_payload(self@),
    {
        let mut e = Enc::new();
        e.u64(self.sequence);
        e.cid(&self.digest);
        let prev = match &self.prev {
            Some(c) => Some(c),
            None => None,
        };
        e.opt_cid(prev);
        e.finish()
    }

    /// Read a checkpoint out of an object, given what verifying the object found: the address
    /// that signed it, or why it did not verify.
    pub fn from_object(obj: &Object, verified: Result<Address, ObjectError>) -> (r: Result<Checkpoint, ObjectError>)
        ensures
            match r {
                Ok(c) => checkpoint_from(obj@, verified_view(verified)) == Ok::<CheckpointView, ObjectError>(c@),
                Err(e) => checkpoint_from(obj@, verified_view(verified)) == Err::<CheckpointView, ObjectError>(e),
            },
    {
        let kind: [u8; 27] = [
            107, 97, 114, 115, 116, 46, 119, 105, 116, 110, 101, 115, 115, 46, 99, 104, 101, 99,
            107, 112, 111, 105, 110, 116, 46, 118, 49,
        ];
        assert(kind@ =~= checkpoint_domain());
        if !crate::codec::bytes_equal(obj.kind().as_bytes(), &kind) {
            return Err(ObjectError::CidMismatch);
        }
        let publisher = match verified {
            Ok(a) => a,
            Err(e) => {
                return Err(e);
            },
        };
        let mut d = Dec::new(obj.payload());
        let sequence = match d.u64() {
            Ok(v) => v,
            Err(_) => {
                return Err(ObjectError::CidMismatch);
            },
        };
        let digest = match d.cid() {
            Ok(v) => v,
            Err(_) => {
                return Err(ObjectError::CidMismatch);
            },
        };
        let prev = match d.opt_cid() {
            Ok(v) => v,
            Err(_) => {
                return Err(ObjectError::CidMismatch);
            },
        };
        if d.end().is_err() {
            return Err(ObjectError::CidMismatch);
        }
        Ok(Checkpoint { publisher, sequence, digest, prev })
    }

    pub fn signing_bytes(&self) -> (b: Vec<u8>)
        ensures
            b@ == checkpoint_bytes(self@),
    {
        let domain: [u8; 27] = [
            107, 97, 114, 115, 116, 46, 119, 105, 116, 110, 101, 115, 115, 46, 99, 104, 101, 99,
            107, 112, 111, 105, 110, 116, 46, 118, 49,
        ];
        assert(domain@ =~= checkpoint_domain());
        let mut e = Enc::new();
        e.bytes(&domain);
        e.addr(&self.publisher);
        e.u64(self.sequence);
        e.cid(&self.digest);
        let prev = match &self.prev {
            Some(c) => Some(c),
            None => None,
        };
        e.opt_cid(prev);
        e.finish()
    }

    pub fn id(&self) -> (c: Cid)
        ensures
            c@ == checkpoint_id(self@),
    {
        Cid::of(&self.signing_bytes())
    }
}

/// Whether two optional identifiers hold the same value.
fn opt_same(a: &Option<Cid>, b: &Option<Cid>) -> (r: bool)
    ensures
        r == (opt_view(*a) == opt_view(*b)),
{
    match (a, b) {
        (Some(x), Some(y)) => x.same(y),
        (None, None) => true,
        _ => false,
    }
}

#[derive(Debug, Clone, Copy, PartialEq, Eq)]
pub enum Refusal {
    /// The sequence did not advance.
    NotForward { seen: u64, offered: u64 },
    /// Same sequence, different digest. The publisher is equivocating.
    Equivocation { seen: Cid, offered: Cid },
    /// Does not link back to what this witness last countersigned.
    NotAChain,
    /// The publisher did not sign it, so there is nothing to witness.
    Unsigned,
}

/// What a witness holds per publisher, from a list of checkpoints with distinct publishers.
pub open spec fn map_of(s: Seq<Checkpoint>) -> Map<Seq<u8>, Checkpoint>
    decreases s.len(),
{
    if s.len() == 0 {
        Map::empty()
    } else {
        map_of(s.drop_last()).insert(s.last()@.publisher, s.last())
    }
}

/// No publisher twice.
pub open spec fn distinct_publishers(s: Seq<Checkpoint>) -> bool {
    forall|i: int, j: int| 0 <= i < j < s.len() ==> #[trigger] s[i]@.publisher != #[trigger] s[j]@.publisher
}

/// What countersigning decides, given what the witness has seen per publisher and the
/// checkpoint recovered from the publisher's signed object (`None` if it did not verify).
/// On success yields the bytes to countersign.
pub open spec fn cosign_spec(seen: Map<Seq<u8>, Checkpoint>, offered: Option<Checkpoint>) -> (
    Map<Seq<u8>, Checkpoint>,
    Result<Seq<u8>, Refusal>,
) {
    match offered {
        None => (seen, Err(Refusal::Unsigned)),
        Some(c) => {
            let p = c@.publisher;
            if seen.contains_key(p) {
                let prev = seen[p];
                if c@.sequence == prev@.sequence && c@.digest == prev@.digest && c@.prev
                    == prev@.prev {
                    (seen, Ok(checkpoint_bytes(c@)))
                } else if c@.sequence == prev@.sequence && c@.digest != prev@.digest {
                    (seen, Err(Refusal::Equivocation { seen: prev.digest, offered: c.digest }))
                } else if c@.sequence <= prev@.sequence {
                    (seen, Err(Refusal::NotForward { seen: prev.sequence, offered: c.sequence }))
                } else if c@.prev != Some(checkpoint_id(prev@)) {
                    (seen, Err(Refusal::NotAChain))
                } else {
                    (seen.insert(p, c), Ok(checkpoint_bytes(c@)))
                }
            } else if c@.prev is Some {
                (seen, Err(Refusal::NotAChain))
            } else {
                (seen.insert(p, c), Ok(checkpoint_bytes(c@)))
            }
        },
    }
}

proof fn lemma_map_of_holds(s: Seq<Checkpoint>, i: int)
    requires
        distinct_publishers(s),
        0 <= i < s.len(),
    ensures
        map_of(s).contains_key(s[i]@.publisher),
        map_of(s)[s[i]@.publisher] == s[i],
    decreases s.len(),
{
    if i < s.len() - 1 {
        let t = s.drop_last();
        assert(distinct_publishers(t)) by {
            assert forall|a: int, b: int| 0 <= a < b < t.len() implies #[trigger] t[a]@.publisher
                != #[trigger] t[b]@.publisher by {
                assert(s[a]@.publisher != s[b]@.publisher);
            }
        }
        lemma_map_of_holds(t, i);
        assert(s[i]@.publisher != s[s.len() - 1]@.publisher);
    }
}

/// Every publisher is held under its own address.
pub open spec fn keyed_by_publisher(m: Map<Seq<u8>, Checkpoint>) -> bool {
    forall|p: Seq<u8>| #[trigger] m.contains_key(p) ==> m[p]@.publisher == p
}

proof fn lemma_map_of_keys(s: Seq<Checkpoint>)
    ensures
        keyed_by_publisher(map_of(s)),
    decreases s.len(),
{
    if s.len() > 0 {
        lemma_map_of_keys(s.drop_last());
    }
}

proof fn lemma_map_of_lacks(s: Seq<Checkpoint>, p: Seq<u8>)
    requires
        forall|i: int| 0 <= i < s.len() ==> #[trigger] s[i]@.publisher != p,
    ensures
        !map_of(s).contains_key(p),
    decreases s.len(),
{
    if s.len() > 0 {
        lemma_map_of_lacks(s.drop_last(), p);
    }
}

proof fn lemma_map_of_update(s: Seq<Checkpoint>, i: int, c: Checkpoint)
    requires
        distinct_publishers(s),
        0 <= i < s.len(),
        c@.publisher == s[i]@.publisher,
    ensures
        map_of(s.update(i, c)) == map_of(s).insert(c@.publisher, c),
        distinct_publishers(s.update(i, c)),
    decreases s.len(),
{
    let u = s.update(i, c);
    let t = s.drop_last();
    assert(distinct_publishers(t)) by {
        assert forall|a: int, b: int| 0 <= a < b < t.len() implies #[trigger] t[a]@.publisher
            != #[trigger] t[b]@.publisher by {
            assert(s[a]@.publisher != s[b]@.publisher);
        }
    }
    assert(distinct_publishers(u)) by {
        assert forall|a: int, b: int| 0 <= a < b < u.len() implies #[trigger] u[a]@.publisher
            != #[trigger] u[b]@.publisher by {
            assert(s[a]@.publisher != s[b]@.publisher);
        }
    }
    if i == s.len() - 1 {
        assert(u.drop_last() == t);
        assert(map_of(u) =~= map_of(s).insert(c@.publisher, c));
    } else {
        assert(u.drop_last() == t.update(i, c));
        lemma_map_of_update(t, i, c);
        assert(s[i]@.publisher != s[s.len() - 1]@.publisher);
        assert(map_of(u) =~= map_of(s).insert(c@.publisher, c));
    }
}

/// One witness's memory of what it has countersigned: the latest checkpoint per publisher.
pub struct Witness {
    seen: Vec<Checkpoint>,
}

impl View for Witness {
    type V = Map<Seq<u8>, Checkpoint>;

    closed spec fn view(&self) -> Map<Seq<u8>, Checkpoint> {
        map_of(self.seen@)
    }
}

impl Witness {
    #[verifier::type_invariant]
    closed spec fn inv(self) -> bool {
        distinct_publishers(self.seen@)
    }

    /// A witness that has seen nothing.
    pub fn new() -> (w: Self)
        ensures
            w@ == Map::<Seq<u8>, Checkpoint>::empty(),
    {
        let w = Witness { seen: Vec::new() };
        assert(w@ =~= Map::<Seq<u8>, Checkpoint>::empty());
        w
    }

    fn find(&self, p: &Address) -> (r: Option<usize>)
        ensures
            match r {
                Some(i) => i < self.seen@.len() && self.seen@[i as int]@.publisher == p@,
                None => forall|i: int| 0 <= i < self.seen@.len() ==> #[trigger] self.seen@[i]@.publisher != p@,
            },
    {
        let mut i: usize = 0;
        while i < self.seen.len()
            invariant
                i <= self.seen@.len(),
                forall|k: int| 0 <= k < i ==> #[trigger] self.seen@[k]@.publisher != p@,
            decreases self.seen@.len() - i,
        {
            if self.seen[i].publisher.same(p) {
                return Some(i);
            }
            i += 1;
        }
        None
    }

    /// The highest checkpoint this witness has countersigned for a publisher.
    pub fn latest(&self, publisher: &Address) -> (r: Option<&Checkpoint>)
        ensures
            r is Some <==> self@.contains_key(publisher@),
            r is Some ==> *r.unwrap() == self@[publisher@],
            keyed_by_publisher(self@),
    {
        proof {
            use_type_invariant(self);
            lemma_map_of_keys(self.seen@);
        }
        match self.find(publisher) {
            Some(i) => {
                proof {
                    lemma_map_of_holds(self.seen@, i as int);
                }
                Some(&self.seen[i])
            },
            None => {
                proof {
                    lemma_map_of_lacks(self.seen@, publisher@);
                }
                None
            },
        }
    }

    /// Decide whether to countersign `offered`, the checkpoint recovered from a publisher's
    /// signed object (`None` when the object did not verify). On success, returns the bytes to
    /// countersign; an exact repeat of what was countersigned before succeeds again, so
    /// front-running a publisher's own request is pointless.
    pub fn cosign(&mut self, offered: Option<Checkpoint>) -> (r: Result<Vec<u8>, Refusal>)
        ensures
            final(self)@ == cosign_spec(old(self)@, offered).0,
            keyed_by_publisher(final(self)@),
            match r {
                Ok(b) => cosign_spec(old(self)@, offered).1 == Ok::<Seq<u8>, Refusal>(b@),
                Err(e) => cosign_spec(old(self)@, offered).1 == Err::<Seq<u8>, Refusal>(e),
            },
    {
        proof {
            use_type_invariant(&*self);
            lemma_map_of_keys(self.seen@);
        }
        let c = match offered {
            None => {
                return Err(Refusal::Unsigned);
            },
            Some(c) => c,
        };
        match self.find(&c.publisher) {
            Some(i) => {
                let prev = self.seen[i];
                proof {
                    lemma_map_of_holds(self.seen@, i as int);
                }
                if c.sequence == prev.sequence && c.digest.same(&prev.digest) && opt_same(
                    &c.prev,
                    &prev.prev,
                ) {
                    return Ok(c.signing_bytes());
                }
                if c.sequence == prev.sequence && !c.digest.same(&prev.digest) {
                    return Err(Refusal::Equivocation { seen: prev.digest, offered: c.digest });
                }
                if c.sequence <= prev.sequence {
                    return Err(Refusal::NotForward { seen: prev.sequence, offered: c.sequence });
                }
                let link = Some(prev.id());
                if !opt_same(&c.prev, &link) {
                    return Err(Refusal::NotAChain);
                }
                proof {
                    lemma_map_of_update(self.seen@, i as int, c);
                }
                let mut seen = Vec::new();
                std::mem::swap(&mut seen, &mut self.seen);
                seen.set(i, c);
                self.seen = seen;
                proof {
                    lemma_map_of_keys(self.seen@);
                }
            },
            None => {
                proof {
                    lemma_map_of_lacks(self.seen@, c@.publisher);
                    assert(self.seen@.push(c).drop_last() == self.seen@);
                }
                if c.prev.is_some() {
                    return Err(Refusal::NotAChain);
                }
                let mut seen = Vec::new();
                std::mem::swap(&mut seen, &mut self.seen);
                seen.push(c);
                self.seen = seen;
                proof {
                    lemma_map_of_keys(self.seen@);
                }
            },
        }
        Ok(c.signing_bytes())
    }
}

/// A checkpoint with the countersignatures gathered for it.
pub struct Cosigned {
    pub checkpoint: Checkpoint,
    /// What the publisher signed, kept so a reader checks the same thing a witness checked.
    signed: Checkpoint,
    /// The witnesses whose countersignatures checked, once each.
    witnesses: Vec<Address>,
}

/// Whether one of the first `n` chosen witnesses is `a`.
pub open spec fn chosen_before(chosen: Seq<Seq<u8>>, n: int, a: Seq<u8>) -> bool {
    exists|k: int| 0 <= k < n && #[trigger] chosen[k] == a
}

/// How many distinct chosen witnesses are among those present.
pub open spec fn support_count(chosen: Seq<Seq<u8>>, present: Set<Seq<u8>>) -> nat
    decreases chosen.len(),
{
    if chosen.len() == 0 {
        0
    } else {
        let rest = chosen.drop_last();
        support_count(rest, present) + if present.contains(chosen.last()) && !chosen_before(
            rest,
            rest.len() as int,
            chosen.last(),
        ) {
            1nat
        } else {
            0nat
        }
    }
}

/// The addresses of a list of addresses.
pub open spec fn addrs(s: Seq<Address>) -> Seq<Seq<u8>> {
    s.map_values(|a: Address| a@)
}

impl Cosigned {
    /// The checkpoint recovered from the publisher's signed object, with no countersignatures
    /// yet.
    pub fn new(checkpoint: Checkpoint) -> (c: Self)
        ensures
            c.carried() == checkpoint@,
            c.signed() == checkpoint@,
            c.countersigners() == Set::<Seq<u8>>::empty(),
    {
        let c = Cosigned { checkpoint, signed: checkpoint, witnesses: Vec::new() };
        assert(c.countersigners() =~= Set::<Seq<u8>>::empty());
        c
    }

    /// The checkpoint carried.
    pub closed spec fn carried(&self) -> CheckpointView {
        self.checkpoint@
    }

    /// What the publisher signed.
    pub closed spec fn signed(&self) -> CheckpointView {
        self.signed@
    }

    /// The witnesses whose countersignatures checked.
    pub closed spec fn countersigners(&self) -> Set<Seq<u8>> {
        Set::new(|a: Seq<u8>| exists|i: int| 0 <= i < self.witnesses@.len() && #[trigger] self.witnesses@[i]@ == a)
    }

    /// Whether the checkpoint carried is the one the publisher signed.
    pub fn publisher_signature_holds(&self) -> (b: bool)
        ensures
            b == (self.carried() == self.signed()),
    {
        self.checkpoint.publisher.same(&self.signed.publisher) && self.checkpoint.sequence
            == self.signed.sequence && self.checkpoint.digest.same(&self.signed.digest) && opt_same(
            &self.checkpoint.prev,
            &self.signed.prev,
        )
    }

    /// Attach a countersignature: `witness` is the address its key hashes to (`None` when the
    /// key is not a key) and `signature_valid` whether it verifies over the checkpoint's signing
    /// bytes. Only a countersignature that checks is kept, so a count of them is a count of
    /// valid ones.
    pub fn attach(&mut self, witness: Option<Address>, signature_valid: bool) -> (r: bool)
        ensures
            r == (witness is Some && signature_valid),
            final(self).carried() == old(self).carried(),
            final(self).signed() == old(self).signed(),
            r ==> final(self).countersigners() == old(self).countersigners().insert(witness.unwrap()@),
            !r ==> final(self).countersigners() == old(self).countersigners(),
    {
        let w = match witness {
            None => {
                return false;
            },
            Some(w) => w,
        };
        if !signature_valid {
            return false;
        }
        let ghost before = self.witnesses@;
        let mut i: usize = 0;
        while i < self.witnesses.len()
            invariant
                self.witnesses@ == before,
                before == old(self).witnesses@,
                self.checkpoint == old(self).checkpoint,
                self.signed == old(self).signed,
                witness == Some(w),
                signature_valid,
                i <= before.len(),
                forall|k: int| 0 <= k < i ==> #[trigger] before[k]@ != w@,
            decreases before.len() - i,
        {
            if self.witnesses[i].same(&w) {
                assert(old(self).countersigners().insert(w@) =~= old(self).countersigners()) by {
                    assert(before[i as int]@ == w@);
                }
                return true;
            }
            i += 1;
        }
        self.witnesses.push(w);
        assert(self.countersigners() =~= old(self).countersigners().insert(w@)) by {
            assert(self.witnesses@[before.len() as int]@ == w@);
            assert forall|a: Seq<u8>| self.countersigners().contains(a) implies old(self).countersigners().insert(w@).contains(a) by {
                let k = choose|k: int| 0 <= k < self.witnesses@.len() && #[trigger] self.witnesses@[k]@ == a;
                if k < before.len() {
                    assert(before[k]@ == a);
                }
            }
            assert forall|a: Seq<u8>| old(self).countersigners().contains(a) implies self.countersigners().contains(a) by {
                if a != w@ {
                    let k = choose|k: int| 0 <= k < before.len() && #[trigger] before[k]@ == a;
                    assert(self.witnesses@[k]@ == a);
                }
            }
        }
        true
    }

    /// The witnesses whose countersignatures checked.
    pub fn witnesses(&self) -> (v: Vec<Address>)
        ensures
            forall|a: Seq<u8>|
                #[trigger] self.countersigners().contains(a) <==> exists|i: int|
                    0 <= i < v@.len() && #[trigger] v@[i]@ == a,
    {
        let mut v: Vec<Address> = Vec::new();
        let mut i: usize = 0;
        while i < self.witnesses.len()
            invariant
                i <= self.witnesses@.len(),
                v@ == self.witnesses@.take(i as int),
            decreases self.witnesses@.len() - i,
        {
            v.push(self.witnesses[i]);
            assert(v@ == self.witnesses@.take(i + 1));
            i += 1;
        }
        assert(v@ == self.witnesses@);
        v
    }

    fn countersigned_by(&self, a: &Address) -> (r: bool)
        ensures
            r == self.countersigners().contains(a@),
    {
        let mut i: usize = 0;
        while i < self.witnesses.len()
            invariant
                i <= self.witnesses@.len(),
                forall|k: int| 0 <= k < i ==> #[trigger] self.witnesses@[k]@ != a@,
            decreases self.witnesses@.len() - i,
        {
            if self.witnesses[i].same(a) {
                assert(self.witnesses@[i as int]@ == a@);
                return true;
            }
            i += 1;
        }
        false
    }

    /// How many of a reader's chosen witnesses countersigned this, each counted once
    /// however often it is listed.
    pub fn support(&self, chosen: &[Address]) -> (n: usize)
        ensures
            n == support_count(addrs(chosen@), self.countersigners()),
    {
        let ghost cs = addrs(chosen@);
        let mut n: usize = 0;
        let mut i: usize = 0;
        while i < chosen.len()
            invariant
                cs == addrs(chosen@),
                i <= chosen.len(),
                n == support_count(cs.take(i as int), self.countersigners()),
                n <= i,
            decreases chosen.len() - i,
        {
            let ghost t = cs.take(i + 1);
            assert(t.drop_last() == cs.take(i as int));
            assert(t.last() == chosen@[i as int]@);
            let here = self.countersigned_by(&chosen[i]);
            let mut earlier = false;
            let mut j: usize = 0;
            while j < i
                invariant
                    cs == addrs(chosen@),
                    i < chosen.len(),
                    j <= i,
                    earlier == chosen_before(cs, j as int, cs[i as int]),
                decreases i - j,
            {
                assert(cs[j as int] == chosen@[j as int]@ && cs[i as int] == chosen@[i as int]@);
                if chosen[j].same(&chosen[i]) {
                    earlier = true;
                }
                j += 1;
            }
            assert(chosen_before(cs, i as int, cs[i as int]) == chosen_before(
                cs.take(i as int),
                i as int,
                cs[i as int],
            )) by {
                if chosen_before(cs, i as int, cs[i as int]) {
                    let k = choose|k: int| 0 <= k < i && #[trigger] cs[k] == cs[i as int];
                    assert(cs.take(i as int)[k] == cs[i as int]);
                }
                if chosen_before(cs.take(i as int), i as int, cs[i as int]) {
                    let k = choose|k: int| 0 <= k < i && #[trigger] cs.take(i as int)[k] == cs[i as int];
                    assert(cs[k] == cs[i as int]);
                }
            }
            if here && !earlier {
                n += 1;
            }
            i += 1;
        }
        assert(cs.take(i as int) == cs);
        n
    }
}

/// A reader's own witnesses, and how many must agree.
pub struct WitnessPolicy {
    pub chosen: Vec<Address>,
    pub threshold: usize,
}

#[derive(Debug, Clone, Copy, PartialEq, Eq)]
pub enum Acceptance {
    /// Enough chosen witnesses countersigned, and it advances on what the reader held.
    Accepted,
    /// Fewer chosen witnesses than the threshold.
    Undersigned { support: usize, threshold: usize },
    /// Older than what the reader already holds, or the same sequence with a different digest.
    NotForward,
    /// Does not link back to what the reader already holds.
    NotAChain,
    /// The publisher did not sign what is being offered.
    Unsigned,
    /// The reader's own policy is unusable.
    BadPolicy,
}

/// What a reader decides, holding `held`, about a checkpoint `offered` that carries
/// `holds` (whether it is what the publisher signed) and `support` chosen countersignatures.
pub open spec fn accept_spec(
    threshold: usize,
    held: Option<CheckpointView>,
    offered: CheckpointView,
    holds: bool,
    support: nat,
) -> Acceptance {
    if threshold == 0 {
        Acceptance::BadPolicy
    } else if !holds {
        Acceptance::Unsigned
    } else if held is Some && (offered.publisher != held->0.publisher || offered.sequence
        < held->0.sequence || (offered.sequence == held->0.sequence && offered.digest
        != held->0.digest)) {
        Acceptance::NotForward
    } else if held is Some && offered.sequence > held->0.sequence && offered.prev != Some(
        checkpoint_id(held->0),
    ) {
        Acceptance::NotAChain
    } else if support < threshold {
        Acceptance::Undersigned { support: support as usize, threshold }
    } else {
        Acceptance::Accepted
    }
}

impl WitnessPolicy {
    pub fn new(chosen: Vec<Address>, threshold: usize) -> (p: Self)
        ensures
            p.chosen == chosen,
            p.threshold == threshold,
    {
        WitnessPolicy { chosen, threshold }
    }

    /// Decide whether to accept a cosigned checkpoint over one already held.
    pub fn accept(&self, held: Option<&Checkpoint>, offered: &Cosigned) -> (a: Acceptance)
        ensures
            a == accept_spec(
                self.threshold,
                match held {
                    Some(h) => Some(h@),
                    None => None,
                },
                offered.carried(),
                offered.carried() == offered.signed(),
                support_count(addrs(self.chosen@), offered.countersigners()),
            ),
    {
        // A threshold of zero accepts anything, with no countersignature at all.
        if self.threshold == 0 {
            return Acceptance::BadPolicy;
        }
        if !offered.publisher_signature_holds() {
            return Acceptance::Unsigned;
        }
        if let Some(h) = held {
            let c = &offered.checkpoint;
            if !c.publisher.same(&h.publisher) || c.sequence < h.sequence || (c.sequence
                == h.sequence && !c.digest.same(&h.digest)) {
                return Acceptance::NotForward;
            }
            // Advancing is not continuing: a higher sequence must link to what was held.
            if c.sequence > h.sequence {
                let link = Some(h.id());
                if !opt_same(&c.prev, &link) {
                    return Acceptance::NotAChain;
                }
            }
        }
        let support = offered.support(self.chosen.as_slice());
        if support < self.threshold {
            return Acceptance::Undersigned { support, threshold: self.threshold };
        }
        Acceptance::Accepted
    }
}

/// Two countersignatures by one witness over conflicting checkpoints at one sequence.
pub struct Equivocation {
    /// The witness's verifying key.
    pub witness: [u8; 32],
    pub a: Checkpoint,
    pub sig_a: [u8; 64],
    pub b: Checkpoint,
    pub sig_b: [u8; 64],
}

impl Equivocation {
    /// Whether the two checkpoints conflict: one publisher, one sequence, two digests.
    pub fn conflicts(&self) -> (r: bool)
        ensures
            r == (self.a@.publisher == self.b@.publisher && self.a@.sequence == self.b@.sequence
                && self.a@.digest != self.b@.digest),
    {
        self.a.publisher.same(&self.b.publisher) && self.a.sequence == self.b.sequence
            && !self.a.digest.same(&self.b.digest)
    }

    /// Check the evidence: the checkpoints conflict, and `signatures_hold` says the witness's key
    /// is a key under which both countersignatures verify.
    pub fn is_valid(&self, signatures_hold: bool) -> (r: bool)
        ensures
            r == (self.a@.publisher == self.b@.publisher && self.a@.sequence == self.b@.sequence
                && self.a@.digest != self.b@.digest && signatures_hold),
    {
        self.conflicts() && signatures_hold
    }
}

/// A witness countersigns only what continues what it has seen. Whatever it countersigns is
/// an exact repeat of what it holds for that publisher, or a higher sequence linking to it, or
/// a publisher's first checkpoint; and it then holds that checkpoint. In particular it never
/// countersigns a second digest at a sequence it has countersigned.
pub proof fn law_a_witness_countersigns_only_what_continues(
    seen: Map<Seq<u8>, Checkpoint>,
    c: Checkpoint,
)
    requires
        keyed_by_publisher(seen),
        cosign_spec(seen, Some(c)).1 is Ok,
    ensures
        cosign_spec(seen, Some(c)).1 == Ok::<Seq<u8>, Refusal>(checkpoint_bytes(c@)),
        cosign_spec(seen, Some(c)).0.contains_key(c@.publisher),
        cosign_spec(seen, Some(c)).0[c@.publisher]@ == c@,
        seen.contains_key(c@.publisher) ==> {
            let prev = seen[c@.publisher]@;
            ||| prev == c@
            ||| prev.sequence < c@.sequence && c@.prev == Some(checkpoint_id(prev))
        },
        !seen.contains_key(c@.publisher) ==> c@.prev is None,
        forall|p: Seq<u8>|
            p != c@.publisher ==> cosign_spec(seen, Some(c)).0.contains_key(p) == seen.contains_key(p)
                && (seen.contains_key(p) ==> cosign_spec(seen, Some(c)).0[p] == seen[p]),
{
}

/// A reader accepts only with a usable policy, a checkpoint its publisher signed, at least the
/// threshold of its own chosen witnesses, and, over what it held, the same publisher going
/// forward: the same checkpoint again, or a higher sequence that links to the one held.
pub proof fn law_acceptance_needs_witnesses_and_a_link(
    threshold: usize,
    held: Option<CheckpointView>,
    offered: CheckpointView,
    holds: bool,
    support: nat,
)
    requires
        accept_spec(threshold, held, offered, holds, support) == Acceptance::Accepted,
    ensures
        threshold >= 1,
        holds,
        support >= threshold,
        held is Some ==> offered.publisher == held->0.publisher && (offered.sequence
            == held->0.sequence && offered.digest == held->0.digest || offered.sequence
            > held->0.sequence && offered.prev == Some(checkpoint_id(held->0))),
{
}

/// A reader accepts exactly when the policy is usable, the publisher signed, at least the
/// threshold of its chosen witnesses countersigned, and, over what it held, the offer is the same
/// publisher's same checkpoint again or a higher sequence that links to the one held. The
/// same checkpoint offered twice is accepted both times: it is no rollback.
pub proof fn law_acceptance_exactly_when(
    threshold: usize,
    held: Option<CheckpointView>,
    offered: CheckpointView,
    holds: bool,
    support: nat,
)
    ensures
        (accept_spec(threshold, held, offered, holds, support) == Acceptance::Accepted) <==> (
        threshold >= 1 && holds && support >= threshold && (held is Some ==> offered.publisher
            == held->0.publisher && (offered.sequence == held->0.sequence && offered.digest
            == held->0.digest || offered.sequence > held->0.sequence && offered.prev == Some(
            checkpoint_id(held->0),
        )))),
        threshold >= 1 && holds && support >= threshold ==> accept_spec(
            threshold,
            Some(offered),
            offered,
            holds,
            support,
        ) == Acceptance::Accepted,
{
}

/// A witness listed twice by a reader counts once.
pub proof fn law_a_duplicated_witness_counts_once(
    chosen: Seq<Seq<u8>>,
    present: Set<Seq<u8>>,
    k: int,
)
    requires
        0 <= k < chosen.len(),
    ensures
        support_count(chosen.push(chosen[k]), present) == support_count(chosen, present),
{
    let t = chosen.push(chosen[k]);
    assert(t.drop_last() == chosen);
    assert(chosen_before(chosen, chosen.len() as int, chosen[k]));
}

/// Support never exceeds the number of witnesses a reader chose, and witnesses it did not
/// choose add nothing.
pub proof fn law_support_counts_only_chosen_witnesses(chosen: Seq<Seq<u8>>, present: Set<Seq<u8>>)
    ensures
        support_count(chosen, present) <= chosen.len(),
        support_count(chosen, present) == support_count(
            chosen,
            present.filter(|a: Seq<u8>| chosen.contains(a)),
        ),
    decreases chosen.len(),
{
    if chosen.len() > 0 {
        let rest = chosen.drop_last();
        law_support_counts_only_chosen_witnesses(rest, present);
        lemma_support_restrict(rest, present, chosen);
        let f = present.filter(|a: Seq<u8>| chosen.contains(a));
        assert(chosen.contains(chosen.last())) by {
            assert(chosen[chosen.len() - 1] == chosen.last());
        }
        assert(f.contains(chosen.last()) == present.contains(chosen.last()));
    }
}

/// Restricting the present witnesses to any superset of those chosen changes nothing.
proof fn lemma_support_restrict(chosen: Seq<Seq<u8>>, present: Set<Seq<u8>>, wider: Seq<Seq<u8>>)
    requires
        forall|i: int| 0 <= i < chosen.len() ==> wider.contains(#[trigger] chosen[i]),
    ensures
        support_count(chosen, present) == support_count(
            chosen,
            present.filter(|a: Seq<u8>| wider.contains(a)),
        ),
    decreases chosen.len(),
{
    if chosen.len() > 0 {
        let rest = chosen.drop_last();
        assert forall|i: int| 0 <= i < rest.len() implies wider.contains(#[trigger] rest[i]) by {
            assert(rest[i] == chosen[i]);
        }
        lemma_support_restrict(rest, present, wider);
        assert(wider.contains(chosen[chosen.len() - 1]));
    }
}

} // verus!
