//! Double spending, made self-incriminating rather than prevented.
//!
//! A credential carries its holder's address split into pairs of halves that XOR to it. Each
//! spend opens one half of every pair, chosen by the verifier's challenge, which discloses
//! nothing. Two spends against different challenges open both halves of some pair, and the
//! address falls out.
use vstd::prelude::*;
use crate::codec::{
    blake3_digest, blake3_hash, blake3_xof, blake3_xof_bytes, enc_bytes, push_all, push_u64_le,
    u64_le, Address, Cid, Enc,
};

verus! {

/// How many identity shares a credential carries.
pub const SHARES: usize = 64;

/// `karst.cfn.share`: hashed ahead of the blinding and position of each left half.
pub open spec fn share_domain() -> Seq<u8> {
    seq![107u8, 97, 114, 115, 116, 46, 99, 102, 110, 46, 115, 104, 97, 114, 101]
}

/// `karst.cfn.challenge`: hashed ahead of a verifier's seed.
pub open spec fn challenge_domain() -> Seq<u8> {
    seq![107u8, 97, 114, 115, 116, 46, 99, 102, 110, 46, 99, 104, 97, 108, 108, 101, 110, 103, 101]
}

/// `karst.cfn.commit.v1`: the first field of a commitment.
pub open spec fn commit_domain() -> Seq<u8> {
    seq![107u8, 97, 114, 115, 116, 46, 99, 102, 110, 46, 99, 111, 109, 109, 105, 116, 46, 118, 49]
}

/// The left half at position `i` for a blinding.
pub open spec fn left_half(blinding: Seq<u8>, i: nat) -> Seq<u8> {
    blake3_digest(share_domain() + blinding + u64_le(i as u64))
}

/// The bytewise XOR of two 32-byte strings.
pub open spec fn xor32(a: Seq<u8>, b: Seq<u8>) -> Seq<u8> {
    Seq::new(32, |j: int| a[j] ^ b[j])
}

/// The identity commitment carried by a credential, as values.
pub struct SharesView {
    pub left: Seq<Seq<u8>>,
    pub right: Seq<Seq<u8>>,
}

/// The identity commitment carried by a credential: for each position, two halves that XOR
/// to the holder's address.
#[derive(Clone, Copy)]
pub struct IdentityShares {
    left: [[u8; 32]; 64],
    right: [[u8; 32]; 64],
}

/// Bit `i` of a challenge, lowest bit of the first byte first.
pub open spec fn challenge_bit(c: Seq<u8>, i: int) -> bool {
    c[i / 8] & (1u8 << ((i % 8) as u8)) != 0
}

/// A verifier's per-spend challenge.
#[derive(Clone, Copy, Debug, PartialEq, Eq)]
pub struct Challenge([u8; 8]);

impl View for Challenge {
    type V = Seq<u8>;

    closed spec fn view(&self) -> Seq<u8> {
        self.0@
    }
}

impl Challenge {
    pub fn from_bytes(b: [u8; 8]) -> (c: Self)
        ensures
            c@ == b@,
    {
        Challenge(b)
    }

    /// Derived from verifier-local randomness by BLAKE3's extendable output.
    pub fn from_seed(seed: &[u8]) -> (c: Self)
        ensures
            c@ == blake3_xof_bytes(challenge_domain() + seed@, 8),
    {
        let domain: [u8; 19] = [
            107, 97, 114, 115, 116, 46, 99, 102, 110, 46, 99, 104, 97, 108, 108, 101, 110, 103,
            101,
        ];
        let mut input: Vec<u8> = Vec::new();
        push_all(&mut input, &domain);
        push_all(&mut input, seed);
        assert(input@ =~= challenge_domain() + seed@);
        let out = blake3_xof(input.as_slice(), 8);
        let mut b = [0u8; 8];
        let mut i: usize = 0;
        while i < 8
            invariant
                out@.len() == 8,
                i <= 8,
                forall|j: int| 0 <= j < i ==> b@[j] == out@[j],
            decreases 8 - i,
        {
            b[i] = out[i];
            i = i + 1;
        }
        assert(b@ =~= out@);
        Challenge(b)
    }

    /// Which half position `i` opens: the right one when set.
    pub fn bit(&self, i: usize) -> (r: bool)
        requires
            i < SHARES,
        ensures
            r == challenge_bit(self@, i as int),
    {
        self.0[i / 8] & (1u8 << ((i % 8) as u8)) != 0
    }
}

/// What a spender hands a verifier, as values.
pub struct OpeningView {
    pub challenge: Seq<u8>,
    pub halves: Seq<Seq<u8>>,
}

/// What a spender hands a verifier: one half of each pair.
#[derive(Clone)]
pub struct Opening {
    pub challenge: Challenge,
    halves: Vec<[u8; 32]>,
}

impl View for Opening {
    type V = OpeningView;

    closed spec fn view(&self) -> OpeningView {
        OpeningView {
            challenge: self.challenge@,
            halves: self.halves@.map_values(|h: [u8; 32]| h@),
        }
    }
}

impl Opening {
    pub fn len(&self) -> (n: usize)
        ensures
            n == self@.halves.len(),
    {
        self.halves.len()
    }

    pub fn is_empty(&self) -> (r: bool)
        ensures
            r == (self@.halves.len() == 0),
    {
        self.halves.len() == 0
    }
}

/// The shares opened under a challenge: the right half where its bit is set, else the left.
pub open spec fn open_spec(s: SharesView, c: Seq<u8>) -> OpeningView {
    OpeningView {
        challenge: c,
        halves: Seq::new(
            SHARES as nat,
            |i: int|
                if challenge_bit(c, i) {
                    s.right[i]
                } else {
                    s.left[i]
                },
        ),
    }
}

/// The pairs of a commitment, encoded in order.
pub open spec fn pairs_enc(l: Seq<Seq<u8>>, r: Seq<Seq<u8>>, n: nat) -> Seq<u8>
    decreases n,
{
    if n == 0 {
        Seq::empty()
    } else {
        pairs_enc(l, r, (n - 1) as nat) + enc_bytes(l[n - 1]) + enc_bytes(r[n - 1])
    }
}

/// What a commitment hashes: its domain, the share count, then every pair.
pub open spec fn commit_preimage(s: SharesView) -> Seq<u8> {
    enc_bytes(commit_domain()) + u64_le(SHARES as u64) + pairs_enc(s.left, s.right, SHARES as nat)
}

impl View for IdentityShares {
    type V = SharesView;

    closed spec fn view(&self) -> SharesView {
        SharesView {
            left: self.left@.map_values(|h: [u8; 32]| h@),
            right: self.right@.map_values(|h: [u8; 32]| h@),
        }
    }
}

impl IdentityShares {
    /// Split `holder` into `SHARES` pairs: left halves hashed from the blinding and position,
    /// right halves the address XOR the left.
    pub fn split(holder: Address, blinding: &[u8; 32]) -> (s: Self)
        ensures
            s@.left.len() == SHARES,
            s@.right.len() == SHARES,
            forall|i: int|
                0 <= i < SHARES ==> (#[trigger] s@.left[i]) == left_half(blinding@, i as nat)
                    && s@.right[i] == xor32(holder@, s@.left[i]),
    {
        let domain: [u8; 15] = [107, 97, 114, 115, 116, 46, 99, 102, 110, 46, 115, 104, 97, 114, 101];
        assert(domain@ =~= share_domain());
        let hb = holder.as_bytes();
        let mut left = [[0u8; 32]; 64];
        let mut right = [[0u8; 32]; 64];
        let mut i: usize = 0;
        while i < SHARES
            invariant
                i <= SHARES,
                domain@ == share_domain(),
                hb@ == holder@,
                forall|k: int|
                    0 <= k < i ==> (#[trigger] left@[k])@ == left_half(blinding@, k as nat)
                        && right@[k]@ == xor32(holder@, left@[k]@),
            decreases SHARES - i,
        {
            let mut input: Vec<u8> = Vec::new();
            push_all(&mut input, &domain);
            push_all(&mut input, blinding);
            push_u64_le(&mut input, i as u64);
            assert(input@ =~= share_domain() + blinding@ + u64_le(i as u64));
            let l = blake3_hash(input.as_slice());
            let mut r = [0u8; 32];
            let mut j: usize = 0;
            while j < 32
                invariant
                    j <= 32,
                    forall|k: int| 0 <= k < j ==> r@[k] == hb@[k] ^ l@[k],
                decreases 32 - j,
            {
                r[j] = hb[j] ^ l[j];
                j = j + 1;
            }
            assert(r@ =~= xor32(holder@, l@));
            left[i] = l;
            right[i] = r;
            i = i + 1;
        }
        let s = IdentityShares { left, right };
        assert forall|i: int| 0 <= i < SHARES implies (#[trigger] s@.left[i]) == left_half(
            blinding@,
            i as nat,
        ) && s@.right[i] == xor32(holder@, s@.left[i]) by {
            assert(s@.left[i] == s.left@[i]@);
        }
        s
    }

    /// A commitment the issuer signs over, so the shares cannot be swapped after issuance.
    pub fn commitment(&self) -> (c: Cid)
        ensures
            c@.alg == 1,
            c@.digest == blake3_digest(commit_preimage(self@)),
    {
        let domain: [u8; 19] = [
            107, 97, 114, 115, 116, 46, 99, 102, 110, 46, 99, 111, 109, 109, 105, 116, 46, 118, 49,
        ];
        assert(domain@ =~= commit_domain());
        let mut e = Enc::new();
        e.bytes(&domain);
        e.u64(SHARES as u64);
        let ghost head = e@;
        let mut i: usize = 0;
        while i < SHARES
            invariant
                i <= SHARES,
                e@ == head + pairs_enc(self@.left, self@.right, i as nat),
            decreases SHARES - i,
        {
            e.bytes(&self.left[i]);
            e.bytes(&self.right[i]);
            proof {
                assert(self@.left[i as int] == self.left@[i as int]@);
                assert(self@.right[i as int] == self.right@[i as int]@);
            }
            assert(e@ =~= head + pairs_enc(self@.left, self@.right, (i + 1) as nat));
            i = i + 1;
        }
        e.hash()
    }

    /// Open one half per position, as the verifier's challenge directs.
    pub fn open(&self, challenge: &Challenge) -> (o: Opening)
        ensures
            o@ == open_spec(self@, challenge@),
    {
        let mut halves: Vec<[u8; 32]> = Vec::new();
        let mut i: usize = 0;
        while i < SHARES
            invariant
                i <= SHARES,
                halves@.len() == i,
                forall|k: int|
                    0 <= k < i ==> (#[trigger] halves@[k])@ == open_spec(self@, challenge@).halves[k],
            decreases SHARES - i,
        {
            let h = if challenge.bit(i) {
                self.right[i]
            } else {
                self.left[i]
            };
            halves.push(h);
            i = i + 1;
        }
        let o = Opening { challenge: *challenge, halves };
        assert(o@.halves =~= open_spec(self@, challenge@).halves);
        o
    }
}

/// Evidence that one credential was spent twice, and who did it.
#[derive(Clone, Debug, PartialEq, Eq)]
pub struct DoubleSpendProof {
    pub serial: [u8; 32],
    pub holder: Address,
    /// Positions where the two challenges differed, which is what made recovery possible.
    pub revealing_positions: usize,
}

/// Walking the first `n` positions of two openings: whether every differing position so far
/// named the same address, the address named, and how many positions differed.
pub open spec fn scan(a: OpeningView, b: OpeningView, n: nat) -> (bool, Option<Seq<u8>>, nat)
    decreases n,
{
    if n == 0 {
        (true, None, 0)
    } else {
        let (ok, rec, c) = scan(a, b, (n - 1) as nat);
        let i = n - 1;
        if !ok || challenge_bit(a.challenge, i) == challenge_bit(b.challenge, i) {
            (ok, rec, c)
        } else {
            let cand = xor32(a.halves[i], b.halves[i]);
            match rec {
                None => (true, Some(cand), c + 1),
                Some(p) => (p == cand, rec, c + 1),
            }
        }
    }
}

/// What two openings of one credential reveal: the holder's address and how many positions
/// revealed it, when the openings have the same length, their challenges differ somewhere and
/// every differing position names the same address; otherwise nothing.
pub open spec fn recover_spec(a: OpeningView, b: OpeningView) -> Option<(Seq<u8>, nat)> {
    if a.halves.len() != b.halves.len() {
        None
    } else {
        let (ok, rec, c) = scan(a, b, a.halves.len());
        if ok && rec is Some {
            Some((rec->0, c))
        } else {
            None
        }
    }
}

/// Attempt to recover the holder from two openings of the same credential.
pub fn recover_holder(a: &Opening, b: &Opening, serial: [u8; 32]) -> (r: Option<DoubleSpendProof>)
    requires
        a@.halves.len() <= SHARES,
    ensures
        match (r, recover_spec(a@, b@)) {
            (None, None) => true,
            (Some(p), Some((h, c))) => p.serial == serial && p.holder@ == h
                && p.revealing_positions == c,
            _ => false,
        },
{
    if a.halves.len() != b.halves.len() {
        return None;
    }
    let n = a.halves.len();
    let mut differing: usize = 0;
    let mut recovered: Option<Address> = None;
    let mut i: usize = 0;
    while i < n
        invariant
            n == a@.halves.len(),
            n == b@.halves.len(),
            n == a.halves@.len(),
            n == b.halves@.len(),
            n <= SHARES,
            i <= n,
            differing <= i,
            scan(a@, b@, i as nat).0,
            scan(a@, b@, i as nat).2 == differing,
            match recovered {
                None => scan(a@, b@, i as nat).1 is None,
                Some(x) => scan(a@, b@, i as nat).1 == Some(x@),
            },
        decreases n - i,
    {
        if a.challenge.bit(i) != b.challenge.bit(i) {
            differing = differing + 1;
            let mut addr = [0u8; 32];
            let mut j: usize = 0;
            while j < 32
                invariant
                    j <= 32,
                    i < n,
                    n == a.halves@.len(),
                    n == b.halves@.len(),
                    forall|k: int| 0 <= k < j ==> addr@[k] == a.halves@[i as int]@[k] ^ b.halves@[i as int]@[k],
                decreases 32 - j,
            {
                addr[j] = a.halves[i][j] ^ b.halves[i][j];
                j = j + 1;
            }
            let candidate = Address::from_raw(addr);
            proof {
                assert(a@.halves[i as int] == a.halves@[i as int]@);
                assert(b@.halves[i as int] == b.halves@[i as int]@);
                assert(candidate@ =~= xor32(a@.halves[i as int], b@.halves[i as int]));
            }
            match recovered {
                None => {
                    recovered = Some(candidate);
                },
                Some(prev) => {
                    if !prev.same(&candidate) {
                        proof {
                            lemma_scan_stays_failed(a@, b@, (i + 1) as nat, n as nat);
                        }
                        return None;
                    }
                },
            }
        }
        i = i + 1;
    }
    match recovered {
        None => None,
        Some(holder) => Some(DoubleSpendProof { serial, holder, revealing_positions: differing }),
    }
}

proof fn lemma_scan_stays_failed(a: OpeningView, b: OpeningView, k: nat, n: nat)
    requires
        k <= n,
        !scan(a, b, k).0,
    ensures
        !scan(a, b, n).0,
    decreases n,
{
    if k < n {
        lemma_scan_stays_failed(a, b, k, (n - 1) as nat);
    }
}


/// How many of the first `n` positions two challenges set differently.
pub open spec fn differing(c1: Seq<u8>, c2: Seq<u8>, n: nat) -> nat
    decreases n,
{
    if n == 0 {
        0
    } else {
        differing(c1, c2, (n - 1) as nat) + if challenge_bit(c1, n - 1) != challenge_bit(
            c2,
            n - 1,
        ) {
            1nat
        } else {
            0nat
        }
    }
}

/// Shares that split `holder`: every right half is the address XOR its left half.
pub open spec fn splits(s: SharesView, holder: Seq<u8>) -> bool {
    &&& s.left.len() == SHARES
    &&& s.right.len() == SHARES
    &&& forall|i: int| 0 <= i < SHARES ==> (#[trigger] s.right[i]) == xor32(holder, s.left[i])
}

proof fn lemma_xor_cancels(x: u8, y: u8)
    ensures
        x ^ (y ^ x) == y,
        (y ^ x) ^ x == y,
{
    assert(x ^ (y ^ x) == y) by (bit_vector);
    assert((y ^ x) ^ x == y) by (bit_vector);
}

proof fn lemma_opposite_halves(s: SharesView, holder: Seq<u8>, c1: Seq<u8>, c2: Seq<u8>, i: int)
    requires
        splits(s, holder),
        holder.len() == 32,
        0 <= i < SHARES,
        challenge_bit(c1, i) != challenge_bit(c2, i),
    ensures
        xor32(open_spec(s, c1).halves[i], open_spec(s, c2).halves[i]) == holder,
{
    let a = open_spec(s, c1).halves[i];
    let b = open_spec(s, c2).halves[i];
    let l = s.left[i];
    assert forall|j: int| 0 <= j < 32 implies #[trigger] xor32(a, b)[j] == holder[j] by {
        lemma_xor_cancels(l[j], holder[j]);
    }
    assert(xor32(a, b) =~= holder);
}

proof fn lemma_scan_split(s: SharesView, holder: Seq<u8>, c1: Seq<u8>, c2: Seq<u8>, n: nat)
    requires
        splits(s, holder),
        holder.len() == 32,
        n <= SHARES,
    ensures
        scan(open_spec(s, c1), open_spec(s, c2), n) == (
            true,
            if differing(c1, c2, n) > 0 {
                Some(holder)
            } else {
                None
            },
            differing(c1, c2, n),
        ),
    decreases n,
{
    if n > 0 {
        lemma_scan_split(s, holder, c1, c2, (n - 1) as nat);
        let i = n - 1;
        if challenge_bit(c1, i) != challenge_bit(c2, i) {
            lemma_opposite_halves(s, holder, c1, c2, i);
        }
    }
}

/// Spending twice reveals the holder: two openings of shares that split an address, under
/// challenges that differ anywhere, give back exactly that address and how many positions
/// revealed it; under identical challenges they reveal nothing.
pub proof fn law_spending_twice_reveals_the_holder(
    s: SharesView,
    holder: Seq<u8>,
    c1: Seq<u8>,
    c2: Seq<u8>,
)
    requires
        splits(s, holder),
        holder.len() == 32,
    ensures
        differing(c1, c2, SHARES as nat) > 0 ==> recover_spec(open_spec(s, c1), open_spec(s, c2))
            == Some((holder, differing(c1, c2, SHARES as nat))),
        differing(c1, c2, SHARES as nat) == 0 ==> recover_spec(
            open_spec(s, c1),
            open_spec(s, c2),
        ) is None,
{
    lemma_scan_split(s, holder, c1, c2, SHARES as nat);
}

proof fn lemma_scan_self(a: OpeningView, n: nat)
    ensures
        scan(a, a, n) == (true, None::<Seq<u8>>, 0nat),
    decreases n,
{
    if n > 0 {
        lemma_scan_self(a, (n - 1) as nat);
    }
}

/// A single spend reveals nothing: an opening answers its challenge with one half of each of
/// the `SHARES` pairs, and opening the same shares twice under one challenge names no holder.
pub proof fn law_a_single_spend_reveals_nothing(s: SharesView, c: Seq<u8>)
    ensures
        open_spec(s, c).challenge == c,
        open_spec(s, c).halves.len() == SHARES,
        recover_spec(open_spec(s, c), open_spec(s, c)) is None,
{
    lemma_scan_self(open_spec(s, c), SHARES as nat);
}

} // verus!
