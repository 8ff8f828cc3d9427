//! Capacity credentials that are earned and spent without linking the two.
//!
//! Acquisition is open and linkable; spending reveals only that someone holds a valid unit.
//! Every credential is worth exactly one unit. A verifier remembers the serials it has
//! accepted, so a credential is spent once per verifier; an earn ledger tracks service
//! performed against credentials drawn, so credentials cannot be minted from nothing.
use vstd::prelude::*;
use crate::codec::bytes_equal;

verus! {

/// Every credential is worth exactly one unit.
pub const UNIT: u64 = 1;

/// Bytes of a credential on the wire. Constant, so size says nothing about value.
pub const CREDENTIAL_BYTES: usize = 48;

#[derive(Debug, Clone, PartialEq, Eq)]
pub enum ValueError {
    /// Fewer partials than the issuer set's threshold.
    BelowThreshold { got: usize, need: usize },
    /// Two partials from the same issuer, which does not count twice.
    DuplicateIssuer(u64),
    /// The credential does not verify against the issuer set.
    Invalid,
    /// This serial has already been spent at this verifier.
    AlreadySpent,
    /// The earned-service warrant does not cover the requested amount.
    Unearned { requested: u64, earned: u64 },
}

/// Proof that a relay carried traffic, which is how credentials enter circulation.
#[derive(Clone, Debug, PartialEq, Eq)]
pub struct EarnedWarrant {
    pub relay: [u8; 32],
    pub units: u64,
    pub epoch: u64,
}

// ---------------------------------------------------------------- issuance

/// Why blinding, issuing or unblinding failed.
#[derive(Debug, Clone, Copy, PartialEq, Eq)]
pub enum BlindError {
    /// Key generation failed. Retried rather than worked around.
    KeyGeneration,
    /// The issuer's signature does not correspond to the blinded value it was given.
    BadSignature,
    /// The credential does not verify under this issuer's key.
    NotValid,
    /// A key or signature was not well formed.
    Malformed,
}

impl BlindError {
    /// What went wrong, in words.
    pub fn describe(&self) -> (s: &'static str)
        ensures
            s@ == match self {
                BlindError::KeyGeneration => "issuer key generation failed"@,
                BlindError::BadSignature => "issuer signature does not match the request"@,
                BlindError::NotValid => "credential does not verify"@,
                BlindError::Malformed => "malformed key or signature"@,
            },
    {
        match self {
            BlindError::KeyGeneration => "issuer key generation failed",
            BlindError::BadSignature => "issuer signature does not match the request",
            BlindError::NotValid => "credential does not verify",
            BlindError::Malformed => "malformed key or signature",
        }
    }
}

/// What a holder sends to issuers: a blind message, which carries no information about the
/// serial inside it.
pub struct BlindedMessage {
    bytes: Vec<u8>,
}

impl View for BlindedMessage {
    type V = Seq<u8>;

    closed spec fn view(&self) -> Seq<u8> {
        self.bytes@
    }
}

impl BlindedMessage {
    pub fn new(bytes: Vec<u8>) -> (m: Self)
        ensures
            m@ == bytes@,
    {
        BlindedMessage { bytes }
    }

    pub fn to_bytes(&self) -> (b: Vec<u8>)
        ensures
            b@ == self@,
    {
        let mut b: Vec<u8> = Vec::new();
        crate::codec::push_all(&mut b, self.bytes.as_slice());
        b
    }
}

/// What a holder sends to issuers: a blinded commitment and a warrant proving service was
/// performed. It does not carry the serial, and the serial is what a verifier later sees.
pub struct IssuanceRequest {
    pub blinded: BlindedMessage,
    pub warrant: EarnedWarrant,
}

/// An issuer set: how many issuers must cooperate, and the issuing key, of whatever scheme
/// issues credentials.
pub struct IssuerSet<K> {
    pub threshold: usize,
    key: K,
}

impl<K> IssuerSet<K> {
    /// The issuing key.
    pub closed spec fn key_spec(&self) -> K {
        self.key
    }

    /// How many issuers must cooperate.
    pub closed spec fn threshold_spec(&self) -> usize {
        self.threshold
    }

    /// An issuer set over a key, given what generating the key gave: refused when generation
    /// failed. The issuer count is not enforced by the credential.
    pub fn new(threshold: usize, count: usize, generated: Result<K, BlindError>) -> (r: Result<Self, ValueError>)
        ensures
            match generated {
                Ok(k) => r matches Ok(s) && s.threshold_spec() == threshold && s.key_spec() == k,
                Err(_) => r matches Err(e) && e == ValueError::Invalid,
            },
    {
        match generated {
            Ok(key) => Ok(IssuerSet { threshold, key }),
            Err(_) => Err(ValueError::Invalid),
        }
    }

    /// The issuing key, for signing a blinded request and for what a verifier needs.
    pub fn key(&self) -> (k: &K)
        ensures
            *k == self.key_spec(),
    {
        &self.key
    }
}

/// A spendable unit of capacity: a serial chosen by the holder, never shown to an issuer, and
/// the issuer's signature over it, produced without the issuer seeing it.
pub struct Credential<S> {
    pub serial: [u8; 32],
    signature: S,
}

impl<S> Credential<S> {
    /// The signature carried.
    pub closed spec fn signature_spec(&self) -> S {
        self.signature
    }

    /// The serial carried.
    pub closed spec fn serial_spec(&self) -> [u8; 32] {
        self.serial
    }

    /// A credential from a serial and what unblinding the issuer's answer for it gave. The
    /// issuer's work is checked at unblinding, before the credential is carried away, so a
    /// malicious issuer fails at issuance rather than at spending, where failing would identify
    /// the holder.
    pub fn assemble(serial: [u8; 32], unblinded: Result<S, BlindError>) -> (r: Result<Self, ValueError>)
        ensures
            match unblinded {
                Ok(sig) => r matches Ok(c) && c.serial_spec() == serial && c.signature_spec() == sig,
                Err(_) => r matches Err(e) && e == ValueError::Invalid,
            },
    {
        match unblinded {
            Ok(signature) => Ok(Credential { serial, signature }),
            Err(_) => Err(ValueError::Invalid),
        }
    }

    pub fn signature(&self) -> (s: &S)
        ensures
            *s == self.signature_spec(),
    {
        &self.signature
    }
}

/// A holder's wallet: the serials it has chosen and the blinding each used, most recent last.
pub struct Wallet<B> {
    pending: Vec<([u8; 32], B)>,
}

impl<B> Wallet<B> {
    /// Serials awaiting their issuer's answer, with their blindings, oldest first.
    pub closed spec fn pending_view(&self) -> Seq<(Seq<u8>, B)> {
        self.pending@.map_values(|p: ([u8; 32], B)| (p.0@, p.1))
    }

    pub fn new() -> (w: Self)
        ensures
            w.pending_view() == Seq::<(Seq<u8>, B)>::empty(),
    {
        let w = Wallet { pending: Vec::new() };
        assert(w.pending_view() =~= Seq::<(Seq<u8>, B)>::empty());
        w
    }

    /// How many serials await an answer.
    pub fn pending(&self) -> (n: usize)
        ensures
            n == self.pending_view().len(),
    {
        self.pending.len()
    }

    /// Ask for issuance of `serial` against earned service, given what blinding it under the
    /// issuer's key gave: the blind message goes out with the warrant, and the blinding is kept
    /// back. Refused, with nothing kept, when blinding failed.
    pub fn request(
        &mut self,
        serial: [u8; 32],
        blinded: Result<(BlindedMessage, B), BlindError>,
        warrant: EarnedWarrant,
    ) -> (r: Result<IssuanceRequest, ValueError>)
        ensures
            match blinded {
                Ok((m, b)) => {
                    &&& r matches Ok(q) && q.blinded@ == m@ && q.warrant == warrant
                    &&& final(self).pending_view() == old(self).pending_view().push((serial@, b))
                },
                Err(_) => {
                    &&& r matches Err(e) && e == ValueError::Invalid
                    &&& final(self).pending_view() == old(self).pending_view()
                },
            },
    {
        match blinded {
            Ok((m, b)) => {
                let ghost before = self.pending@;
                self.pending.push((serial, b));
                assert(self.pending_view() =~= old(self).pending_view().push((serial@, b))) by {
                    assert forall|k: int| 0 <= k < before.len() implies #[trigger] self.pending@[k] == before[k] by {}
                }
                Ok(IssuanceRequest { blinded: m, warrant })
            },
            Err(_) => Err(ValueError::Invalid),
        }
    }

    /// The most recent serial awaiting an answer, with its blinding, taken out to unblind the
    /// issuer's answer with. Refused when nothing is awaiting one.
    pub fn take_pending(&mut self) -> (r: Result<([u8; 32], B), ValueError>)
        ensures
            old(self).pending_view().len() == 0 ==> (r matches Err(e) && e == ValueError::Invalid
                && final(self).pending_view() == old(self).pending_view()),
            old(self).pending_view().len() > 0 ==> (r matches Ok((s, b)) && (s@, b) == old(
                self,
            ).pending_view().last() && final(self).pending_view() == old(self).pending_view().drop_last()),
    {
        match self.pending.pop() {
            Some(p) => {
                assert(self.pending_view() =~= old(self).pending_view().drop_last());
                Ok(p)
            },
            None => Err(ValueError::Invalid),
        }
    }
}

/// Law: a wallet hands back, for unblinding, the serial it most recently asked about and has not
/// yet taken, with the blinding it used, and is then as it was before that request.
pub proof fn law_the_latest_request_is_assembled_first<B>(pending: Seq<(Seq<u8>, B)>, serial: Seq<u8>, b: B)
    ensures
        pending.push((serial, b)).last() == (serial, b),
        pending.push((serial, b)).drop_last() == pending,
{
    assert(pending.push((serial, b)).drop_last() =~= pending);
}

/// What a verifier records when a credential is spent. It shares no field with what an issuer
/// sees.
#[derive(Clone, Copy, Debug, PartialEq, Eq)]
pub struct SpendRecord {
    pub serial: [u8; 32],
    pub units: u64,
}

/// A spend record as a value.
pub struct RecordView {
    pub serial: Seq<u8>,
    pub units: u64,
}

/// What accepting `serial` does to the records kept, and what it answers: an invalid
/// credential is refused, a serial already recorded is refused as spent, and otherwise the
/// serial is recorded at one unit.
pub open spec fn accept_spec(records: Seq<RecordView>, serial: Seq<u8>, valid: bool) -> (
    Seq<RecordView>,
    Result<RecordView, ValueError>,
) {
    if !valid {
        (records, Err(ValueError::Invalid))
    } else if exists|i: int| 0 <= i < records.len() && (#[trigger] records[i]).serial == serial {
        (records, Err(ValueError::AlreadySpent))
    } else {
        let rec = RecordView { serial, units: UNIT };
        (records.push(rec), Ok(rec))
    }
}

/// Verifier-side double-spend state. It catches a serial spent twice at this verifier;
/// two verifiers that cannot see each other both accept the same credential.
pub struct SpendLedger {
    records: Vec<SpendRecord>,
}

impl SpendRecord {
    pub open spec fn view(&self) -> RecordView {
        RecordView { serial: self.serial@, units: self.units }
    }
}

impl SpendLedger {
    /// The records kept, in the order the credentials were accepted.
    pub closed spec fn view(&self) -> Seq<RecordView> {
        self.records@.map_values(|r: SpendRecord| r.view())
    }

    #[verifier::type_invariant]
    closed spec fn distinct(&self) -> bool {
        forall|i: int, j: int|
            0 <= i < j < self.records@.len() ==> self.records@[i].serial@
                != self.records@[j].serial@
    }

    pub fn new() -> (l: Self)
        ensures
            l@ == Seq::<RecordView>::empty(),
    {
        let l = SpendLedger { records: Vec::new() };
        assert(l@ =~= Seq::<RecordView>::empty());
        l
    }

    /// Accept a credential with serial `serial`, given whether its signature verified under
    /// the issuer's public key.
    pub fn accept(&mut self, serial: [u8; 32], signature_valid: bool) -> (r: Result<
        SpendRecord,
        ValueError,
    >)
        ensures
            (final(self)@, match r {
                Ok(rec) => Ok(rec.view()),
                Err(e) => Err(e),
            }) == accept_spec(old(self)@, serial@, signature_valid),
    {
        proof {
            use_type_invariant(&*self);
        }
        if !signature_valid {
            return Err(ValueError::Invalid);
        }
        let ghost v0 = self@;
        let mut i: usize = 0;
        while i < self.records.len()
            invariant
                signature_valid,
                i <= self.records@.len(),
                v0 == self@,
                v0.len() == self.records@.len(),
                forall|j: int| 0 <= j < i ==> (#[trigger] v0[j]).serial != serial@,
            decreases self.records@.len() - i,
        {
            if bytes_equal(self.records[i].serial.as_slice(), serial.as_slice()) {
                assert(v0[i as int].serial == serial@);
                return Err(ValueError::AlreadySpent);
            }
            i = i + 1;
        }
        let rec = SpendRecord { serial, units: UNIT };
        let ghost before = self.records@;
        proof {
            assert forall|j: int| 0 <= j < before.len() implies before[j].serial@ != serial@ by {
                assert(v0[j].serial == before[j].serial@);
            }
        }
        let mut records: Vec<SpendRecord> = Vec::new();
        std::mem::swap(&mut self.records, &mut records);
        records.push(rec);
        self.records = records;
        assert(self@ =~= v0.push(rec.view()));
        Ok(rec)
    }

    /// How many distinct serials have been spent here.
    pub fn spent_count(&self) -> (n: usize)
        ensures
            n == self@.len(),
    {
        self.records.len()
    }

    /// Everything accepted, in order.
    pub fn records(&self) -> (r: &[SpendRecord])
        ensures
            r@.map_values(|x: SpendRecord| x.view()) == self@,
    {
        self.records.as_slice()
    }
}

impl Default for SpendLedger {
    fn default() -> (l: Self)
        ensures
            l@ == Seq::<RecordView>::empty(),
    {
        SpendLedger::new()
    }
}

/// A serial cannot be spent twice at one verifier: once accepted, the same serial is refused
/// whatever is presented with it, and every accepted credential carries exactly one unit.
pub proof fn law_a_serial_is_spent_once_here(
    records: Seq<RecordView>,
    serial: Seq<u8>,
    valid: bool,
)
    ensures
        accept_spec(records, serial, true).1 matches Ok(rec) ==> rec.units == UNIT && rec.serial
            == serial,
        accept_spec(records, serial, true).1 is Ok ==> accept_spec(
            accept_spec(records, serial, true).0,
            serial,
            valid,
        ).1 is Err,
{
    let r1 = accept_spec(records, serial, true).0;
    if accept_spec(records, serial, true).1 is Ok && valid {
        assert(r1[records.len() as int].serial == serial);
    }
}

/// One relay's account: service performed and credentials drawn against it.
struct Account {
    relay: [u8; 32],
    earned: u64,
    drawn: u64,
}

/// Service earned by `relay` in an account table, zero if it has none.
pub open spec fn earned_of(m: Map<Seq<u8>, (u64, u64)>, relay: Seq<u8>) -> u64 {
    if m.dom().contains(relay) {
        m[relay].0
    } else {
        0
    }
}

/// Credentials drawn by `relay`, zero if it has none.
pub open spec fn drawn_of(m: Map<Seq<u8>, (u64, u64)>, relay: Seq<u8>) -> u64 {
    if m.dom().contains(relay) {
        m[relay].1
    } else {
        0
    }
}

/// What `relay` may still draw.
pub open spec fn balance_of(m: Map<Seq<u8>, (u64, u64)>, relay: Seq<u8>) -> int {
    earned_of(m, relay) - drawn_of(m, relay)
}

/// Nobody has drawn more than they earned.
pub open spec fn covered(m: Map<Seq<u8>, (u64, u64)>) -> bool {
    forall|r: Seq<u8>| #[trigger] m.dom().contains(r) ==> m[r].1 <= m[r].0
}

/// The table after crediting `units` to `relay`.
pub open spec fn credit_spec(m: Map<Seq<u8>, (u64, u64)>, relay: Seq<u8>, units: u64) -> Map<
    Seq<u8>,
    (u64, u64),
> {
    m.insert(relay, ((earned_of(m, relay) + units) as u64, drawn_of(m, relay)))
}

/// What a draw against a warrant does to the table, and what it answers: refused, with what
/// is available, when the warrant asks for more than the balance.
pub open spec fn draw_spec(m: Map<Seq<u8>, (u64, u64)>, relay: Seq<u8>, units: u64) -> (
    Map<Seq<u8>, (u64, u64)>,
    Result<(), ValueError>,
) {
    if units > balance_of(m, relay) {
        (
            m,
            Err(
                ValueError::Unearned { requested: units, earned: balance_of(m, relay) as u64 },
            ),
        )
    } else {
        (m.insert(relay, (earned_of(m, relay), (drawn_of(m, relay) + units) as u64)), Ok(()))
    }
}

/// Tracks how much service a relay has performed and how much it has drawn against it, so
/// credentials cannot be minted from nothing.
pub struct EarnLedger {
    accounts: Vec<Account>,
}

spec fn accounts_map(s: Seq<Account>) -> Map<Seq<u8>, (u64, u64)>
    decreases s.len(),
{
    if s.len() == 0 {
        Map::empty()
    } else {
        accounts_map(s.drop_last()).insert(s.last().relay@, (s.last().earned, s.last().drawn))
    }
}

proof fn lemma_accounts_map(s: Seq<Account>)
    requires
        forall|i: int, j: int| 0 <= i < j < s.len() ==> s[i].relay@ != s[j].relay@,
    ensures
        forall|i: int|
            0 <= i < s.len() ==> #[trigger] accounts_map(s).dom().contains(s[i].relay@)
                && accounts_map(s)[s[i].relay@] == (s[i].earned, s[i].drawn),
        forall|r: Seq<u8>|
            #[trigger] accounts_map(s).dom().contains(r) ==> exists|i: int|
                0 <= i < s.len() && s[i].relay@ == r,
    decreases s.len(),
{
    if s.len() > 0 {
        let p = s.drop_last();
        assert forall|i: int, j: int| 0 <= i < j < p.len() implies p[i].relay@ != p[j].relay@ by {
            assert(p[i] == s[i] && p[j] == s[j]);
        }
        lemma_accounts_map(p);
        let last = s[s.len() - 1];
        assert forall|i: int| 0 <= i < s.len() implies #[trigger] accounts_map(s).dom().contains(
            s[i].relay@,
        ) && accounts_map(s)[s[i].relay@] == (s[i].earned, s[i].drawn) by {
            if i < s.len() - 1 {
                assert(s[i] == p[i]);
                assert(accounts_map(p).dom().contains(p[i].relay@));
                assert(s[i].relay@ != last.relay@);
            }
        }
        assert forall|r: Seq<u8>| #[trigger] accounts_map(s).dom().contains(r) implies exists|
            i: int,
        | 0 <= i < s.len() && s[i].relay@ == r by {
            if r != s.last().relay@ {
                assert(accounts_map(p).dom().contains(r));
                let i = choose|i: int| 0 <= i < p.len() && p[i].relay@ == r;
                assert(s[i] == p[i]);
            } else {
                assert(s[s.len() - 1].relay@ == r);
            }
        }
    }
}

impl EarnLedger {
    /// Each relay's service earned and credentials drawn; a relay not present has neither.
    pub closed spec fn view(&self) -> Map<Seq<u8>, (u64, u64)> {
        accounts_map(self.accounts@)
    }

    #[verifier::type_invariant]
    closed spec fn well_formed(&self) -> bool {
        &&& forall|i: int, j: int|
            0 <= i < j < self.accounts@.len() ==> self.accounts@[i].relay@
                != self.accounts@[j].relay@
        &&& forall|i: int|
            0 <= i < self.accounts@.len() ==> (#[trigger] self.accounts@[i]).drawn
                <= self.accounts@[i].earned
    }

    pub fn new() -> (l: Self)
        ensures
            l@ == Map::<Seq<u8>, (u64, u64)>::empty(),
            covered(l@),
    {
        EarnLedger { accounts: Vec::new() }
    }

    /// Where `relay`'s account is, if it has one.
    fn find(&self, relay: &[u8; 32]) -> (r: Option<usize>)
        ensures
            match r {
                Some(i) => i < self.accounts@.len() && self.accounts@[i as int].relay@ == relay@,
                None => forall|i: int|
                    0 <= i < self.accounts@.len() ==> (#[trigger] self.accounts@[i]).relay@
                        != relay@,
            },
    {
        let mut i: usize = 0;
        while i < self.accounts.len()
            invariant
                i <= self.accounts@.len(),
                forall|j: int| 0 <= j < i ==> (#[trigger] self.accounts@[j]).relay@ != relay@,
            decreases self.accounts@.len() - i,
        {
            if bytes_equal(self.accounts[i].relay.as_slice(), relay.as_slice()) {
                return Some(i);
            }
            i = i + 1;
        }
        None
    }

    /// Record service performed by `relay`.
    pub fn credit(&mut self, relay: [u8; 32], units: u64)
        requires
            earned_of(old(self)@, relay@) + units <= u64::MAX,
        ensures
            final(self)@ == credit_spec(old(self)@, relay@, units),
    {
        proof {
            use_type_invariant(&*self);
            lemma_accounts_map(self.accounts@);
        }
        let ghost s0 = self.accounts@;
        match self.find(&relay) {
            Some(i) => {
                let e = self.accounts[i].earned;
                let d = self.accounts[i].drawn;
                let a = Account { relay, earned: e + units, drawn: d };
                let mut accounts: Vec<Account> = Vec::new();
                std::mem::swap(&mut self.accounts, &mut accounts);
                accounts.set(i, a);
                proof {
                    lemma_update_map(s0, i as int, a);
                }
                self.accounts = accounts;
            },
            None => {
                let mut accounts: Vec<Account> = Vec::new();
                std::mem::swap(&mut self.accounts, &mut accounts);
                accounts.push(Account { relay, earned: units, drawn: 0 });
                proof {
                    assert(accounts@.drop_last() =~= s0);
                    assert(accounts_map(s0).dom().contains(relay@) == false);
                }
                self.accounts = accounts;
            },
        }
    }

    /// What `relay` may still draw.
    pub fn balance(&self, relay: &[u8; 32]) -> (b: u64)
        ensures
            b == balance_of(self@, relay@),
    {
        proof {
            use_type_invariant(self);
            lemma_accounts_map(self.accounts@);
        }
        match self.find(relay) {
            Some(i) => self.accounts[i].earned - self.accounts[i].drawn,
            None => 0,
        }
    }

    /// Authorise issuance against earned service.
    pub fn draw(&mut self, warrant: &EarnedWarrant) -> (r: Result<(), ValueError>)
        ensures
            (final(self)@, r) == draw_spec(old(self)@, warrant.relay@, warrant.units),
    {
        proof {
            use_type_invariant(&*self);
            lemma_accounts_map(self.accounts@);
        }
        let available = self.balance(&warrant.relay);
        if warrant.units > available {
            return Err(ValueError::Unearned { requested: warrant.units, earned: available });
        }
        let ghost s0 = self.accounts@;
        match self.find(&warrant.relay) {
            Some(i) => {
                let e = self.accounts[i].earned;
                let d = self.accounts[i].drawn;
                let a = Account { relay: warrant.relay, earned: e, drawn: d + warrant.units };
                let mut accounts: Vec<Account> = Vec::new();
                std::mem::swap(&mut self.accounts, &mut accounts);
                accounts.set(i, a);
                proof {
                    lemma_update_map(s0, i as int, a);
                }
                self.accounts = accounts;
            },
            None => {
                let mut accounts: Vec<Account> = Vec::new();
                std::mem::swap(&mut self.accounts, &mut accounts);
                accounts.push(Account { relay: warrant.relay, earned: 0, drawn: 0 });
                proof {
                    assert(accounts@.drop_last() =~= s0);
                }
                self.accounts = accounts;
            },
        }
        Ok(())
    }
}

impl Default for EarnLedger {
    fn default() -> (l: Self)
        ensures
            l@ == Map::<Seq<u8>, (u64, u64)>::empty(),
            covered(l@),
    {
        EarnLedger::new()
    }
}

proof fn lemma_update_map(s: Seq<Account>, i: int, a: Account)
    requires
        0 <= i < s.len(),
        a.relay@ == s[i].relay@,
        forall|x: int, y: int| 0 <= x < y < s.len() ==> s[x].relay@ != s[y].relay@,
    ensures
        accounts_map(s.update(i, a)) == accounts_map(s).insert(a.relay@, (a.earned, a.drawn)),
    decreases s.len(),
{
    let t = s.update(i, a);
    if i == s.len() - 1 {
        assert(t.drop_last() =~= s.drop_last());
        lemma_accounts_map(s.drop_last());
        assert forall|r: Seq<u8>| #![auto] accounts_map(s.drop_last()).dom().contains(r) implies r != a.relay@ by {
            let j = choose|j: int| 0 <= j < s.drop_last().len() && s.drop_last()[j].relay@ == r;
            assert(s[j] == s.drop_last()[j]);
        }
        assert(accounts_map(t) =~= accounts_map(s).insert(a.relay@, (a.earned, a.drawn)));
    } else {
        assert(t.drop_last() =~= s.drop_last().update(i, a));
        lemma_update_map(s.drop_last(), i, a);
        assert(s.last().relay@ != a.relay@);
        assert(accounts_map(t) =~= accounts_map(s).insert(a.relay@, (a.earned, a.drawn)));
    }
}

/// Credentials cannot be minted from nothing: a draw succeeds exactly when the warrant is
/// covered by what the relay earned and has not drawn, takes exactly that much off the
/// balance, and leaves nobody having drawn more than they earned; crediting adds to the
/// balance exactly what was credited.
pub proof fn law_credentials_cannot_be_minted_from_nothing(
    m: Map<Seq<u8>, (u64, u64)>,
    relay: Seq<u8>,
    units: u64,
)
    requires
        covered(m),
    ensures
        draw_spec(m, relay, units).1 is Ok <==> units <= balance_of(m, relay),
        draw_spec(m, relay, units).1 is Ok ==> balance_of(draw_spec(m, relay, units).0, relay)
            == balance_of(m, relay) - units,
        covered(draw_spec(m, relay, units).0),
        earned_of(m, relay) + units <= u64::MAX ==> balance_of(credit_spec(m, relay, units), relay)
            == balance_of(m, relay) + units,
        earned_of(m, relay) + units <= u64::MAX ==> covered(credit_spec(m, relay, units)),
{
    if m.dom().contains(relay) {
        assert(m[relay].1 <= m[relay].0);
    }
}


/// One thing done to an earnings ledger: service credited to a relay, or a draw against it.
pub enum LedgerStep {
    Credit(Seq<u8>, u64),
    Draw(Seq<u8>, u64),
}

/// The account table after `steps`, in order, from `m`.
pub open spec fn after_ledger(m: Map<Seq<u8>, (u64, u64)>, steps: Seq<LedgerStep>) -> Map<Seq<u8>, (u64, u64)>
    decreases steps.len(),
{
    if steps.len() == 0 {
        m
    } else {
        let before = after_ledger(m, steps.drop_last());
        match steps.last() {
            LedgerStep::Credit(r, u) => credit_spec(before, r, u),
            LedgerStep::Draw(r, u) => draw_spec(before, r, u).0,
        }
    }
}

/// All service credited to `relay` in `steps`.
pub open spec fn credited(steps: Seq<LedgerStep>, relay: Seq<u8>) -> nat
    decreases steps.len(),
{
    if steps.len() == 0 {
        0
    } else {
        credited(steps.drop_last(), relay) + match steps.last() {
            LedgerStep::Credit(r, u) => if r == relay {
                u as nat
            } else {
                0
            },
            LedgerStep::Draw(_, _) => 0,
        }
    }
}

/// All draws against `relay` in `steps`, from `m`, that succeeded.
pub open spec fn drawn_ok(m: Map<Seq<u8>, (u64, u64)>, steps: Seq<LedgerStep>, relay: Seq<u8>) -> nat
    decreases steps.len(),
{
    if steps.len() == 0 {
        0
    } else {
        drawn_ok(m, steps.drop_last(), relay) + match steps.last() {
            LedgerStep::Draw(r, u) => if r == relay && draw_spec(
                after_ledger(m, steps.drop_last()),
                r,
                u,
            ).1 is Ok {
                u as nat
            } else {
                0
            },
            LedgerStep::Credit(_, _) => 0,
        }
    }
}

/// A relay's balance is what it was credited less what it successfully drew: starting from an
/// empty ledger, whatever was done to any relay, its earnings are its credits, its draws are
/// its successful draws, and its balance is the difference.
pub proof fn law_a_balance_is_credits_less_successful_draws(steps: Seq<LedgerStep>, relay: Seq<u8>)
    requires
        credited(steps, relay) <= u64::MAX,
    ensures
        earned_of(after_ledger(Map::empty(), steps), relay) == credited(steps, relay),
        drawn_of(after_ledger(Map::empty(), steps), relay) == drawn_ok(Map::empty(), steps, relay),
        balance_of(after_ledger(Map::empty(), steps), relay) == credited(steps, relay) - drawn_ok(
            Map::empty(),
            steps,
            relay,
        ),
        drawn_ok(Map::empty(), steps, relay) <= credited(steps, relay),
    decreases steps.len(),
{
    if steps.len() > 0 {
        let q = steps.drop_last();
        assert(credited(q, relay) <= credited(steps, relay));
        law_a_balance_is_credits_less_successful_draws(q, relay);
    }
}

} // verus!
