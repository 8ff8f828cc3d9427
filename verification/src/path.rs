//! Paths a sender composes from segments operators have signed.
//!
//! An operator signs the segments it is willing to carry, and a sender composes an
//! end-to-end path from segments it holds. There is nothing to converge on and nothing
//! allocated. A path names, in advance and verifiably, every party that must misbehave for it
//! to fail. Nothing here ranks, scores or prefers: composition returns paths in an order that
//! is a function of the paths alone.
use vstd::prelude::*;
use crate::codec::{bytes_equal, enc_bytes, u64_le, Address, Enc};
use crate::order::{compare_bytes, lex_lt, lemma_lex_asymmetric, lemma_lex_irreflexive, lemma_lex_total, lemma_lex_transitive};

verus! {

broadcast use vstd::std_specs::vec::group_vec_axioms;

/// The most segments in one path.
pub const MAX_SEGMENTS: usize = 8;

/// Segments a store keeps per starting point.
pub const MAX_PER_POINT: usize = 64;

/// Paths one composition will return.
pub const MAX_PATHS: usize = 256;

/// Search steps one composition will take, whether or not they reach anywhere.
pub const MAX_VISITS: usize = 65536;

#[derive(Debug, Clone, Copy, PartialEq, Eq)]
pub enum PathError {
    /// The signature did not check, or the key does not match the claimed operator.
    Unsigned,
    /// A segment had expired.
    Expired { at: u64 },
    /// Consecutive segments do not meet.
    Disjoint,
    /// A path visited the same point twice.
    Loop,
    /// No segments at all.
    Empty,
    /// Longer than a sender will carry.
    TooLong,
    /// The store already holds as many segments from this point as it will keep.
    TooMany,
}

/// A segment as values.
pub struct SegmentView {
    pub operator: Seq<u8>,
    pub from: Seq<u8>,
    pub to: Seq<u8>,
    pub expires_at: u64,
    pub signature: Seq<u8>,
    pub key: Seq<u8>,
}

/// One operator's signed statement that it will carry from `from` to `to`.
#[derive(Debug, Clone, Copy, PartialEq, Eq)]
pub struct Segment {
    /// Who is willing to carry it.
    pub operator: Address,
    pub from: Address,
    pub to: Address,
    /// Not valid at or after this.
    pub expires_at: u64,
    signature: [u8; 64],
    key: [u8; 32],
}

impl View for Segment {
    type V = SegmentView;

    closed spec fn view(&self) -> SegmentView {
        SegmentView {
            operator: self.operator@,
            from: self.from@,
            to: self.to@,
            expires_at: self.expires_at,
            signature: self.signature@,
            key: self.key@,
        }
    }
}

/// The domain that opens a segment's signing bytes.
pub open spec fn segment_domain() -> Seq<u8> {
    seq![107u8, 97, 114, 115, 116, 46, 112, 97, 116, 104, 46, 115, 101, 103, 109, 101, 110, 116, 46, 118, 49]
}

/// The bytes an operator signs to offer carriage from `from` to `to` until `expires_at`.
pub open spec fn segment_signing_bytes(
    operator: Seq<u8>,
    from: Seq<u8>,
    to: Seq<u8>,
    expires_at: u64,
) -> Seq<u8> {
    enc_bytes(segment_domain()) + operator + from + to + u64_le(expires_at)
}

/// The views of a list of segments.
pub open spec fn views(s: Seq<Segment>) -> Seq<SegmentView> {
    s.map_values(|x: Segment| x@)
}

impl Segment {
    /// A segment from its fields, the operator's signature over its signing bytes, and the
    /// operator's verifying key.
    pub fn new(
        operator: Address,
        from: Address,
        to: Address,
        expires_at: u64,
        signature: [u8; 64],
        key: [u8; 32],
    ) -> (s: Segment)
        ensures
            s@ == (SegmentView {
                operator: operator@,
                from: from@,
                to: to@,
                expires_at,
                signature: signature@,
                key: key@,
            }),
    {
        Segment { operator, from, to, expires_at, signature, key }
    }

    /// What the operator signs.
    pub fn signing_bytes(&self) -> (b: Vec<u8>)
        ensures
            b@ == segment_signing_bytes(self@.operator, self@.from, self@.to, self@.expires_at),
    {
        let domain: [u8; 21] = [
            107, 97, 114, 115, 116, 46, 112, 97, 116, 104, 46, 115, 101, 103, 109, 101, 110, 116, 46,
            118, 49,
        ];
        assert(domain@ =~= segment_domain());
        let mut e = Enc::new();
        e.bytes(&domain);
        e.addr(&self.operator);
        e.addr(&self.from);
        e.addr(&self.to);
        e.u64(self.expires_at);
        e.finish()
    }

    pub fn signature(&self) -> (s: [u8; 64])
        ensures
            s@ == self@.signature,
    {
        self.signature
    }

    pub fn key(&self) -> (k: [u8; 32])
        ensures
            k@ == self@.key,
    {
        self.key
    }

    /// Check what was found of the key and signature: `key_address` is the address the
    /// carried key hashes to, `None` when it is not a key at all, and `signature_valid` says
    /// whether the signature verifies under it over `signing_bytes`.
    ///
    /// The key must be the operator's. Checking only the signature would let anyone re-label a
    /// valid segment, or sign bytes naming somebody else and present their own key.
    pub fn verify(&self, key_address: Option<Address>, signature_valid: bool) -> (r: Result<
        (),
        PathError,
    >)
        ensures
            r is Ok <==> (key_address is Some && key_address.unwrap()@ == self@.operator
                && signature_valid),
            r is Err ==> r == Err::<(), PathError>(PathError::Unsigned),
    {
        match key_address {
            None => Err(PathError::Unsigned),
            Some(a) => {
                if !a.same(&self.operator) || !signature_valid {
                    Err(PathError::Unsigned)
                } else {
                    Ok(())
                }
            },
        }
    }

    pub fn valid_at(&self, now: u64) -> (r: bool)
        ensures
            r == (now < self@.expires_at),
    {
        now < self.expires_at
    }

    /// Whether two segments hold the same values.
    pub fn same(&self, other: &Segment) -> (r: bool)
        ensures
            r == (self@ == other@),
    {
        let r = self.operator.same(&other.operator) && self.from.same(&other.from) && self.to.same(
            &other.to,
        ) && self.expires_at == other.expires_at && bytes_equal(
            self.signature.as_slice(),
            other.signature.as_slice(),
        ) && bytes_equal(self.key.as_slice(), other.key.as_slice());
        r
    }
}

/// Whether point `p` has been visited by the first `i` segments of `s`: the start of the
/// first segment, or the end of any of them.
pub open spec fn visited(s: Seq<SegmentView>, i: int, p: Seq<u8>) -> bool {
    s[0].from == p || exists|j: int| 0 <= j < i && #[trigger] s[j].to == p
}

/// What is wrong with the `i`th segment of `s`, given whether it verified, in the order
/// checked: signature, expiry, contiguity, loop.
pub open spec fn segment_fault(s: Seq<SegmentView>, now: u64, verified: Seq<bool>, i: int) -> Option<
    PathError,
> {
    if !verified[i] {
        Some(PathError::Unsigned)
    } else if !(now < s[i].expires_at) {
        Some(PathError::Expired { at: s[i].expires_at })
    } else if i > 0 && s[i - 1].to != s[i].from {
        Some(PathError::Disjoint)
    } else if visited(s, i, s[i].to) {
        Some(PathError::Loop)
    } else {
        None
    }
}

/// The first fault among the first `n` segments.
pub open spec fn first_fault(s: Seq<SegmentView>, now: u64, verified: Seq<bool>, n: nat) -> Option<
    PathError,
>
    decreases n,
{
    if n == 0 {
        None
    } else {
        match first_fault(s, now, verified, (n - 1) as nat) {
            Some(e) => Some(e),
            None => segment_fault(s, now, verified, n - 1),
        }
    }
}

/// What assembling `s` at `now` yields, given which segments verified.
pub open spec fn assemble_spec(s: Seq<SegmentView>, now: u64, verified: Seq<bool>) -> Result<
    (),
    PathError,
> {
    if s.len() == 0 {
        Err(PathError::Empty)
    } else if s.len() > MAX_SEGMENTS {
        Err(PathError::TooLong)
    } else {
        match first_fault(s, now, verified, s.len()) {
            Some(e) => Err(e),
            None => Ok(()),
        }
    }
}

/// A composed end-to-end path.
#[derive(Debug, Clone, PartialEq, Eq)]
pub struct Path {
    segments: Vec<Segment>,
}

impl View for Path {
    type V = Seq<SegmentView>;

    closed spec fn view(&self) -> Seq<SegmentView> {
        views(self.segments@)
    }
}

impl Path {
    /// Build a path from segments, given for each whether its signature checked
    /// (`verified[i]` for `segments[i]`, as `Segment::verify` decides it).
    pub fn assemble(segments: Vec<Segment>, now: u64, verified: &[bool]) -> (r: Result<
        Path,
        PathError,
    >)
        requires
            verified.len() == segments.len(),
        ensures
            match assemble_spec(views(segments@), now, verified@) {
                Ok(()) => r is Ok && r.unwrap()@ == views(segments@),
                Err(e) => r == Err::<Path, PathError>(e),
            },
    {
        let ghost s = views(segments@);
        if segments.len() == 0 {
            return Err(PathError::Empty);
        }
        if segments.len() > MAX_SEGMENTS {
            return Err(PathError::TooLong);
        }
        let mut i: usize = 0;
        while i < segments.len()
            invariant
                s == views(segments@),
                1 <= segments.len() <= MAX_SEGMENTS,
                verified.len() == segments.len(),
                i <= segments.len(),
                first_fault(s, now, verified@, i as nat) is None,
            decreases segments.len() - i,
        {
            let seg = segments[i];
            if !verified[i] {
                proof {
                    lemma_first_fault_stays(s, now, verified@, (i + 1) as nat, s.len());
                }
                return Err(PathError::Unsigned);
            }
            if !seg.valid_at(now) {
                proof {
                    lemma_first_fault_stays(s, now, verified@, (i + 1) as nat, s.len());
                }
                return Err(PathError::Expired { at: seg.expires_at });
            }
            if i > 0 && !segments[i - 1].to.same(&seg.from) {
                proof {
                    lemma_first_fault_stays(s, now, verified@, (i + 1) as nat, s.len());
                }
                return Err(PathError::Disjoint);
            }
            let seen = visited_before(&segments, i, &seg.to);
            if seen {
                proof {
                    lemma_first_fault_stays(s, now, verified@, (i + 1) as nat, s.len());
                }
                return Err(PathError::Loop);
            }
            i += 1;
        }
        Ok(Path { segments })
    }

    pub fn source(&self) -> (p: Address)
        requires
            self@.len() > 0,
        ensures
            p@ == self@[0].from,
    {
        self.segments[0].from
    }

    pub fn destination(&self) -> (p: Address)
        requires
            self@.len() > 0,
        ensures
            p@ == self@[self@.len() - 1].to,
    {
        self.segments[self.segments.len() - 1].to
    }

    pub fn hops(&self) -> (n: usize)
        ensures
            n == self@.len(),
    {
        self.segments.len()
    }

    pub fn segments(&self) -> (s: &[Segment])
        ensures
            views(s@) == self@,
    {
        self.segments.as_slice()
    }
}

/// Once a fault is found among the first `n` segments, it stays the first fault.
proof fn lemma_first_fault_stays(s: Seq<SegmentView>, now: u64, verified: Seq<bool>, n: nat, m: nat)
    requires
        n <= m,
        first_fault(s, now, verified, n) is Some,
    ensures
        first_fault(s, now, verified, m) == first_fault(s, now, verified, n),
    decreases m - n,
{
    if n < m {
        lemma_first_fault_stays(s, now, verified, n, (m - 1) as nat);
    }
}

/// Whether `p` is the start of the first segment or the end of one of the first `i`.
fn visited_before(segments: &Vec<Segment>, i: usize, p: &Address) -> (r: bool)
    requires
        0 < segments.len(),
        i <= segments.len(),
    ensures
        r == visited(views(segments@), i as int, p@),
{
    let ghost s = views(segments@);
    if segments[0].from.same(p) {
        return true;
    }
    let mut j: usize = 0;
    while j < i
        invariant
            s == views(segments@),
            i <= segments.len(),
            j <= i,
            s[0].from != p@,
            forall|k: int| 0 <= k < j ==> #[trigger] s[k].to != p@,
        decreases i - j,
    {
        if segments[j].to.same(p) {
            assert(s[j as int].to == p@);
            return true;
        }
        j += 1;
    }
    false
}

/// Whether the address `b` is in the list `v`.
pub open spec fn lists(v: Seq<Address>, b: Seq<u8>) -> bool {
    exists|i: int| 0 <= i < v.len() && #[trigger] v[i]@ == b
}

/// Whether one of the first `n` segments of `s` is operated by `b`.
pub open spec fn operated_by(s: Seq<SegmentView>, n: int, b: Seq<u8>) -> bool {
    exists|k: int| 0 <= k < n && #[trigger] s[k].operator == b
}

impl Path {
    /// Every party that must misbehave for this path to fail: each operator once, in byte
    /// order.
    pub fn accountable(&self) -> (v: Vec<Address>)
        ensures
            forall|i: int, j: int| 0 <= i < j < v@.len() ==> lex_lt(v@[i]@, v@[j]@),
            forall|b: Seq<u8>| #[trigger] lists(v@, b) <==> operated_by(self@, self@.len() as int, b),
    {
        let ghost s = self@;
        let mut v: Vec<Address> = Vec::new();
        let mut k: usize = 0;
        while k < self.segments.len()
            invariant
                s == views(self.segments@),
                k <= self.segments.len(),
                forall|i: int, j: int| 0 <= i < j < v@.len() ==> lex_lt(v@[i]@, v@[j]@),
                forall|b: Seq<u8>| #[trigger] lists(v@, b) <==> operated_by(s, k as int, b),
            decreases self.segments.len() - k,
        {
            let a = self.segments[k].operator;
            assert(a@ == s[k as int].operator);
            let ghost v0 = v@;
            insert_unique(&mut v, a);
            assert forall|b: Seq<u8>| #[trigger] lists(v@, b) <==> operated_by(s, k + 1, b) by {
                if operated_by(s, k + 1, b) {
                    let m = choose|m: int| 0 <= m < k + 1 && #[trigger] s[m].operator == b;
                    if m < k {
                        assert(operated_by(s, k as int, b));
                    }
                }
                if lists(v@, b) && b != a@ {
                    assert(lists(v0, b));
                    let m = choose|m: int| 0 <= m < k && #[trigger] s[m].operator == b;
                    assert(operated_by(s, k + 1, b));
                }
            }
            k += 1;
        }
        v
    }
}

/// Add `a` to a list held in strictly increasing byte order, unless it is already there.
fn insert_unique(v: &mut Vec<Address>, a: Address)
    requires
        forall|i: int, j: int| 0 <= i < j < old(v)@.len() ==> lex_lt(old(v)@[i]@, old(v)@[j]@),
    ensures
        forall|i: int, j: int| 0 <= i < j < final(v)@.len() ==> lex_lt(final(v)@[i]@, final(v)@[j]@),
        forall|b: Seq<u8>| #[trigger] lists(final(v)@, b) <==> (b == a@ || lists(old(v)@, b)),
{
    let ghost v0 = v@;
    proof {
        a.lemma_len();
    }
    let mut j: usize = 0;
    while j < v.len() && compare_bytes(v[j].as_bytes().as_slice(), a.as_bytes().as_slice()) < 0
        invariant
            v@ == v0,
            j <= v@.len(),
            a@.len() == 32,
            forall|i: int| 0 <= i < j ==> lex_lt(#[trigger] v0[i]@, a@),
        decreases v@.len() - j,
    {
        proof {
            v[j as int].lemma_len();
        }
        j += 1;
    }
    if j < v.len() {
        proof {
            v[j as int].lemma_len();
        }
        if v[j].same(&a) {
            assert forall|b: Seq<u8>| #[trigger] lists(v@, b) <==> (b == a@ || lists(v0, b)) by {
                if b == a@ {
                    assert(v0[j as int]@ == b);
                }
            }
            return;
        }
        proof {
            assert(!lex_lt(v0[j as int]@, a@));
            lemma_lex_total(v0[j as int]@, a@);
        }
    }
    v.insert(j, a);
    proof {
        let w = v@;
        assert forall|i: int, k: int| 0 <= i < k < w.len() implies lex_lt(w[i]@, w[k]@) by {
            if i < j && k == j {
            } else if i < j && k > j {
                assert(lex_lt(v0[i]@, v0[k - 1]@));
            } else if i == j && k > j {
                if k - 1 > j {
                    lemma_lex_transitive(a@, v0[j as int]@, v0[k - 1]@);
                }
            } else if i > j {
                assert(lex_lt(v0[i - 1]@, v0[k - 1]@));
            }
        }
        assert forall|b: Seq<u8>| #[trigger] lists(w, b) <==> (b == a@ || lists(v0, b)) by {
            if lists(w, b) {
                let i = choose|i: int| 0 <= i < w.len() && #[trigger] w[i]@ == b;
                if i < j {
                    assert(v0[i]@ == b);
                } else if i > j {
                    assert(v0[i - 1]@ == b);
                }
            }
            if b == a@ {
                assert(w[j as int]@ == b);
            } else if lists(v0, b) {
                let i = choose|i: int| 0 <= i < v0.len() && #[trigger] v0[i]@ == b;
                if i < j {
                    assert(w[i]@ == b);
                } else {
                    assert(w[i + 1]@ == b);
                }
            }
        }
    }
}

/// The segments in `store` that start at `p`, in the order they were learned.
pub open spec fn outs(store: Seq<SegmentView>, p: Seq<u8>) -> Seq<SegmentView> {
    store.filter(starts_at(p))
}

/// Whether a segment starts at `p`.
pub open spec fn starts_at(p: Seq<u8>) -> spec_fn(SegmentView) -> bool {
    |x: SegmentView| x.from == p
}

/// What learning `seg` does to a store, given whether it verified.
pub open spec fn learn_spec(store: Seq<SegmentView>, seg: SegmentView, verified: bool) -> (
    Seq<SegmentView>,
    Result<(), PathError>,
) {
    if !verified {
        (store, Err(PathError::Unsigned))
    } else if outs(store, seg.from).contains(seg) {
        (store, Ok(()))
    } else if outs(store, seg.from).len() >= MAX_PER_POINT {
        (store, Err(PathError::TooMany))
    } else {
        (store.push(seg), Ok(()))
    }
}

/// Whether point `p` is already on the partial path `stack`.
pub open spec fn on_path(stack: Seq<SegmentView>, p: Seq<u8>) -> bool {
    (exists|j: int| 0 <= j < stack.len() && #[trigger] stack[j].to == p) || (stack.len() > 0
        && stack[0].from == p)
}

/// Every one of `n` segments verified.
pub open spec fn all_verified(n: nat) -> Seq<bool> {
    Seq::new(n, |i: int| true)
}

/// Whether a partial path of verified segments assembles at `now`.
pub open spec fn assembles(stack: Seq<SegmentView>, now: u64) -> bool {
    assemble_spec(stack, now, all_verified(stack.len())) is Ok
}

/// The depth-first search `compose` runs, from point `at` towards `to`, extending the
/// partial path `stack`, having found `found` and taken `visits` steps. It stops at
/// `MAX_SEGMENTS` segments, `MAX_PATHS` paths or `MAX_VISITS` steps, whichever comes first.
/// Yields what has been found and the steps taken.
pub open spec fn search_from(
    store: Seq<SegmentView>,
    at: Seq<u8>,
    to: Seq<u8>,
    now: u64,
    stack: Seq<SegmentView>,
    found: Seq<Seq<SegmentView>>,
    visits: nat,
) -> (Seq<Seq<SegmentView>>, nat)
    decreases MAX_SEGMENTS - stack.len(), 1int, 0int,
{
    if stack.len() >= MAX_SEGMENTS || found.len() >= MAX_PATHS || visits >= MAX_VISITS {
        (found, visits)
    } else {
        search_list(store, outs(store, at), 0, to, now, stack, found, visits + 1)
    }
}

/// The search over the ways out of one point, from the `i`th on.
pub open spec fn search_list(
    store: Seq<SegmentView>,
    list: Seq<SegmentView>,
    i: int,
    to: Seq<u8>,
    now: u64,
    stack: Seq<SegmentView>,
    found: Seq<Seq<SegmentView>>,
    visits: nat,
) -> (Seq<Seq<SegmentView>>, nat)
    decreases MAX_SEGMENTS - stack.len(), 0int, list.len() - i,
{
    if stack.len() >= MAX_SEGMENTS || i < 0 || i >= list.len() {
        (found, visits)
    } else {
        let s = list[i];
        if !(now < s.expires_at) || on_path(stack, s.to) {
            search_list(store, list, i + 1, to, now, stack, found, visits)
        } else {
            let st = stack.push(s);
            let (f2, v2) = if s.to == to {
                (
                    if assembles(st, now) {
                        found.push(st)
                    } else {
                        found
                    },
                    visits,
                )
            } else {
                search_from(store, s.to, to, now, st, found, visits)
            };
            if f2.len() >= MAX_PATHS || v2 >= MAX_VISITS {
                (f2, v2)
            } else {
                search_list(store, list, i + 1, to, now, stack, f2, v2)
            }
        }
    }
}

/// Whether `a` comes before `b` by operators, compared in byte order one segment at a time.
pub open spec fn ops_lt(a: Seq<SegmentView>, b: Seq<SegmentView>) -> bool {
    exists|k: int|
        0 <= k < a.len() && k < b.len() && lex_lt(a[k].operator, b[k].operator) && (forall|i: int|
            0 <= i < k ==> #[trigger] a[i].operator == b[i].operator)
}

/// The order `compose` returns paths in: fewer segments first, then by operators.
pub open spec fn path_lt(a: Seq<SegmentView>, b: Seq<SegmentView>) -> bool {
    a.len() < b.len() || (a.len() == b.len() && ops_lt(a, b))
}

/// Where `p` goes in `s`: after every path it does not come before.
pub open spec fn place(s: Seq<Seq<SegmentView>>, p: Seq<SegmentView>) -> nat
    decreases s.len(),
{
    if s.len() == 0 {
        0
    } else if !path_lt(p, s.last()) {
        s.len()
    } else {
        place(s.drop_last(), p)
    }
}

/// `s` in `path_lt` order, paths that neither comes before keeping their relative order.
pub open spec fn in_order(s: Seq<Seq<SegmentView>>) -> Seq<Seq<SegmentView>>
    decreases s.len(),
{
    if s.len() == 0 {
        s
    } else {
        let t = in_order(s.drop_last());
        t.insert(place(t, s.last()) as int, s.last())
    }
}

/// The paths from `from` to `to` that `compose` returns.
pub open spec fn compose_spec(store: Seq<SegmentView>, from: Seq<u8>, to: Seq<u8>, now: u64) -> Seq<
    Seq<SegmentView>,
> {
    in_order(search_from(store, from, to, now, Seq::empty(), Seq::empty(), 0).0)
}

/// The views of a list of paths.
pub open spec fn path_views(s: Seq<Path>) -> Seq<Seq<SegmentView>> {
    s.map_values(|p: Path| p@)
}

/// What a sender knows about who is willing to carry what. Deliberately not a routing table:
/// nothing here converges, and two senders holding different segments are both correct.
pub struct Segments {
    all: Vec<Segment>,
}

impl View for Segments {
    type V = Seq<SegmentView>;

    /// Every segment held, in the order learned.
    closed spec fn view(&self) -> Seq<SegmentView> {
        views(self.all@)
    }
}

impl Default for Segments {
    fn default() -> (s: Self)
        ensures
            s@ == Seq::<SegmentView>::empty(),
    {
        Segments::new()
    }
}

impl Segments {
    pub fn new() -> (s: Self)
        ensures
            s@ == Seq::<SegmentView>::empty(),
    {
        let s = Segments { all: Vec::new() };
        assert(s@ =~= Seq::<SegmentView>::empty());
        s
    }

    /// Take a segment, given whether it verified (as `Segment::verify` decides it).
    ///
    /// An unverified segment never enters the store, and a point keeps at most
    /// `MAX_PER_POINT` ways out.
    pub fn learn(&mut self, s: Segment, verified: bool) -> (r: Result<(), PathError>)
        ensures
            (final(self)@, r) == learn_spec(old(self)@, s@, verified),
    {
        if !verified {
            return Err(PathError::Unsigned);
        }
        let ghost st = self@;
        let ghost pred = starts_at(s@.from);
        let mut i: usize = 0;
        let mut count: usize = 0;
        let mut present = false;
        while i < self.all.len()
            invariant
                st == views(self.all@),
                pred == starts_at(s@.from),
                i <= self.all.len(),
                count == st.take(i as int).filter(pred).len(),
                count <= i,
                present == st.take(i as int).filter(pred).contains(s@),
            decreases self.all.len() - i,
        {
            let ghost t = st.take(i + 1);
            assert(t.drop_last() == st.take(i as int));
            assert(t.last() == self.all@[i as int]@);
            reveal(Seq::filter);
            let cur = self.all[i];
            assert(cur == self.all@[i as int]);
            if cur.from.same(&s.from) {
                count += 1;
                if cur.same(&s) {
                    present = true;
                } else {
                    proof {
                        assert(t.filter(pred) == st.take(i as int).filter(pred).push(t.last()));
                        let ghost prev = st.take(i as int).filter(pred);
                        assert(t.filter(pred).contains(s@) == prev.contains(s@)) by {
                            if t.filter(pred).contains(s@) {
                                let j = choose|j: int| 0 <= j < t.filter(pred).len() && t.filter(pred)[j] == s@;
                                if j < prev.len() {
                                    assert(prev[j] == s@);
                                }
                            }
                            if prev.contains(s@) {
                                let j = choose|j: int| 0 <= j < prev.len() && prev[j] == s@;
                                assert(t.filter(pred)[j] == s@);
                            }
                        }
                    }
                }
            }
            proof {
                if pred(t.last()) {
                    assert(t.filter(pred) == st.take(i as int).filter(pred).push(t.last()));
                    if self.all@[i as int]@ == s@ {
                        assert(t.filter(pred)[t.filter(pred).len() - 1] == s@);
                    }
                } else {
                    assert(t.filter(pred) == st.take(i as int).filter(pred));
                }
            }
            i += 1;
        }
        assert(st.take(i as int) == st);
        if present {
            return Ok(());
        }
        if count >= MAX_PER_POINT {
            return Err(PathError::TooMany);
        }
        self.all.push(s);
        assert(self@ == st.push(s@));
        Ok(())
    }

    /// Segments held.
    pub fn len(&self) -> (n: usize)
        ensures
            n == self@.len(),
    {
        self.all.len()
    }

    pub fn is_empty(&self) -> (b: bool)
        ensures
            b == (self@.len() == 0),
    {
        self.all.len() == 0
    }
}

impl Segments {
    /// The ways out of `p`, in the order learned.
    fn outs_from(&self, p: &Address) -> (v: Vec<Segment>)
        ensures
            views(v@) == outs(self@, p@),
    {
        let ghost st = self@;
        let ghost pred = starts_at(p@);
        let mut v: Vec<Segment> = Vec::new();
        let mut i: usize = 0;
        while i < self.all.len()
            invariant
                st == views(self.all@),
                pred == starts_at(p@),
                i <= self.all.len(),
                views(v@) == st.take(i as int).filter(pred),
            decreases self.all.len() - i,
        {
            let ghost t = st.take(i + 1);
            assert(t.drop_last() == st.take(i as int));
            reveal(Seq::filter);
            let cur = self.all[i];
            assert(t.last() == cur@);
            if cur.from.same(p) {
                v.push(cur);
                assert(views(v@) == t.filter(pred));
            } else {
                assert(views(v@) == t.filter(pred));
            }
            i += 1;
        }
        assert(st.take(i as int) == st);
        v
    }

    /// Every path from `from` to `to` that the segments held compose at `now`, fewer
    /// segments first and then by operators.
    ///
    /// The search is bounded on length (`MAX_SEGMENTS`), on output (`MAX_PATHS`) and on work
    /// (`MAX_VISITS`): a dense mesh of individually valid segments has exponentially many
    /// paths, and a search can explore exponentially many branches that reach nowhere.
    pub fn compose(&self, from: Address, to: Address, now: u64) -> (out: Vec<Path>)
        ensures
            path_views(out@) == compose_spec(self@, from@, to@, now),
    {
        let mut found: Vec<Path> = Vec::new();
        let mut stack: Vec<Segment> = Vec::new();
        let mut visits: usize = 0;
        assert(views(stack@) == Seq::<SegmentView>::empty());
        assert(path_views(found@) == Seq::<Seq<SegmentView>>::empty());
        self.walk(&from, &to, now, &mut stack, &mut found, &mut visits);
        sort_paths(found)
    }

    fn walk(
        &self,
        at: &Address,
        to: &Address,
        now: u64,
        stack: &mut Vec<Segment>,
        out: &mut Vec<Path>,
        visits: &mut usize,
    )
        requires
            *old(visits) <= MAX_VISITS,
        ensures
            final(stack)@ == old(stack)@,
            *final(visits) <= MAX_VISITS,
            (path_views(final(out)@), *final(visits) as nat) == search_from(
                self@,
                at@,
                to@,
                now,
                views(old(stack)@),
                path_views(old(out)@),
                *old(visits) as nat,
            ),
        decreases MAX_SEGMENTS - old(stack)@.len(),
    {
        if stack.len() >= MAX_SEGMENTS || out.len() >= MAX_PATHS || *visits >= MAX_VISITS {
            return;
        }
        *visits = *visits + 1;
        let next = self.outs_from(at);
        let ghost list = views(next@);
        let ghost s0 = stack@;
        let ghost st0 = views(stack@);
        let ghost f0 = path_views(out@);
        let ghost v1 = *visits as nat;
        assert(search_from(self@, at@, to@, now, views(old(stack)@), path_views(old(out)@), *old(visits) as nat)
            == search_list(self@, list, 0, to@, now, st0, f0, v1));
        let mut i: usize = 0;
        while i < next.len()
            invariant
                stack@ == s0,
                s0 == old(stack)@,
                st0 == views(s0),
                st0.len() < MAX_SEGMENTS,
                list == views(next@),
                list == outs(self@, at@),
                i <= next.len(),
                *visits <= MAX_VISITS,
                search_from(self@, at@, to@, now, views(old(stack)@), path_views(old(out)@), *old(visits) as nat)
                    == search_list(self@, list, 0, to@, now, st0, f0, v1),
                path_views(out@).len() < MAX_PATHS,
                search_list(self@, list, 0, to@, now, st0, f0, v1) == search_list(
                    self@,
                    list,
                    i as int,
                    to@,
                    now,
                    st0,
                    path_views(out@),
                    *visits as nat,
                ),
            decreases next.len() - i,
        {
            let s = next[i];
            assert(s@ == list[i as int]);
            let ghost fb = path_views(out@);
            let ghost vb = *visits as nat;
            if !s.valid_at(now) || on_stack(stack, &s.to) {
                i += 1;
            } else {
                stack.push(s);
                assert(views(stack@) == st0.push(s@));
                if s.to.same(to) {
                    let candidate = copy_segments(stack);
                    let verified = all_true(candidate.len());
                    match Path::assemble(candidate, now, verified.as_slice()) {
                        Ok(p) => {
                            out.push(p);
                            assert(path_views(out@) == fb.push(p@));
                        },
                        Err(_) => {},
                    }
                } else {
                    self.walk(&s.to, to, now, stack, out, visits);
                }
                stack.pop();
                assert(stack@ == s0);
                if out.len() >= MAX_PATHS || *visits >= MAX_VISITS {
                    return;
                }
                i += 1;
            }
        }
    }
}

/// Whether `p` is already on the partial path `stack`.
fn on_stack(stack: &Vec<Segment>, p: &Address) -> (r: bool)
    ensures
        r == on_path(views(stack@), p@),
{
    let ghost st = views(stack@);
    let mut j: usize = 0;
    while j < stack.len()
        invariant
            st == views(stack@),
            j <= stack.len(),
            forall|k: int| 0 <= k < j ==> #[trigger] st[k].to != p@,
        decreases stack.len() - j,
    {
        if stack[j].to.same(p) {
            assert(st[j as int].to == p@);
            return true;
        }
        j += 1;
    }
    stack.len() > 0 && stack[0].from.same(p)
}

/// An element-for-element copy.
fn copy_segments(v: &Vec<Segment>) -> (r: Vec<Segment>)
    ensures
        r@ == v@,
{
    let mut r: Vec<Segment> = Vec::new();
    let mut i: usize = 0;
    while i < v.len()
        invariant
            i <= v.len(),
            r@ == v@.take(i as int),
        decreases v.len() - i,
    {
        r.push(v[i]);
        assert(r@ == v@.take(i + 1));
        i += 1;
    }
    assert(v@.take(i as int) == v@);
    r
}

/// `n` results, all of them that the segment verified.
fn all_true(n: usize) -> (v: Vec<bool>)
    ensures
        v@ == all_verified(n as nat),
{
    let mut v: Vec<bool> = Vec::new();
    let mut i: usize = 0;
    while i < n
        invariant
            i <= n,
            v@ == all_verified(i as nat),
        decreases n - i,
    {
        v.push(true);
        assert(v@ == all_verified((i + 1) as nat));
        i += 1;
    }
    v
}

/// Whether `a` comes before `b` in the order `compose` returns paths in.
fn path_before(a: &Path, b: &Path) -> (r: bool)
    ensures
        r == path_lt(a@, b@),
{
    let n = a.segments.len();
    if n < b.segments.len() {
        return true;
    }
    if n > b.segments.len() {
        return false;
    }
    let ghost x = a@;
    let ghost y = b@;
    let mut k: usize = 0;
    while k < n
        invariant
            x == views(a.segments@),
            y == views(b.segments@),
            n == a.segments.len(),
            n == b.segments.len(),
            k <= n,
            forall|i: int| 0 <= i < k ==> #[trigger] x[i].operator == y[i].operator,
        decreases n - k,
    {
        let oa = a.segments[k].operator;
        let ob = b.segments[k].operator;
        proof {
            oa.lemma_len();
            ob.lemma_len();
        }
        let c = compare_bytes(oa.as_bytes().as_slice(), ob.as_bytes().as_slice());
        if c < 0 {
            assert(lex_lt(x[k as int].operator, y[k as int].operator));
            return true;
        }
        if c > 0 {
            proof {
                assert(lex_lt(y[k as int].operator, x[k as int].operator));
                if ops_lt(x, y) {
                    let m = choose|m: int|
                        0 <= m < x.len() && m < y.len() && lex_lt(x[m].operator, y[m].operator) && (
                        forall|i: int| 0 <= i < m ==> #[trigger] x[i].operator == y[i].operator);
                    if m < k {
                        lemma_lex_irreflexive(x[m].operator);
                    } else if m == k {
                        lemma_lex_asymmetric(y[k as int].operator, x[k as int].operator);
                    } else {
                        assert(x[k as int].operator == y[k as int].operator);
                        lemma_lex_irreflexive(x[k as int].operator);
                    }
                }
            }
            return false;
        }
        k += 1;
    }
    proof {
        if ops_lt(x, y) {
            let m = choose|m: int|
                0 <= m < x.len() && m < y.len() && lex_lt(x[m].operator, y[m].operator) && (forall|
                    i: int,
                | 0 <= i < m ==> #[trigger] x[i].operator == y[i].operator);
            lemma_lex_irreflexive(x[m].operator);
        }
    }
    false
}

/// The paths in `compose` order, stably.
fn sort_paths(found: Vec<Path>) -> (r: Vec<Path>)
    ensures
        path_views(r@) == in_order(path_views(found@)),
{
    let ghost src = path_views(found@);
    let total = found.len();
    assert(src.len() == total);
    let mut rest = found;
    let mut rev: Vec<Path> = Vec::new();
    assert(src.take(rest@.len() as int) == src);
    while rest.len() > 0
        invariant
            src.len() <= usize::MAX,
            path_views(rest@) == src.take(rest@.len() as int),
            rest@.len() + rev@.len() == src.len(),
            forall|i: int| 0 <= i < rev@.len() ==> #[trigger] rev@[i]@ == src[src.len() - 1 - i],
        decreases rest@.len(),
    {
        let ghost m = rest@.len();
        let ghost before = rest@;
        match rest.pop() {
            Some(p) => {
                assert(path_views(before)[m - 1] == p@);
                rev.push(p);
            },
            None => {},
        }
        assert(path_views(rest@) == src.take(m - 1));
    }
    let mut r: Vec<Path> = Vec::new();
    let mut j: usize = 0;
    while rev.len() > 0
        invariant
            src.len() <= usize::MAX,
            j + rev@.len() == src.len(),
            forall|i: int| 0 <= i < rev@.len() ==> #[trigger] rev@[i]@ == src[src.len() - 1 - i],
            path_views(r@) == in_order(src.take(j as int)),
        decreases rev@.len(),
    {
        let ghost t1 = src.take(j + 1);
        assert(t1.drop_last() == src.take(j as int));
        match rev.pop() {
            Some(p) => {
                assert(p@ == src[j as int]);
                let ghost before = path_views(r@);
                let mut k = r.len();
                assert(before.take(k as int) == before);
                while k > 0 && path_before(&p, &r[k - 1])
                    invariant
                        k <= r@.len(),
                        before == path_views(r@),
                        place(before, p@) == place(before.take(k as int), p@),
                    decreases k,
                {
                    assert(before.take(k as int).drop_last() == before.take(k - 1));
                    k -= 1;
                }
                if k == 0 {
                    assert(before.take(0) == Seq::<Seq<SegmentView>>::empty());
                }
                proof {
                    lemma_place_bound(before, p@);
                }
                let ghost pv = p@;
                r.insert(k, p);
                assert(path_views(r@) == before.insert(k as int, pv));
            },
            None => {},
        }
        j += 1;
    }
    assert(src.take(j as int) == src);
    r
}

proof fn lemma_place_bound(s: Seq<Seq<SegmentView>>, p: Seq<SegmentView>)
    ensures
        place(s, p) <= s.len(),
    decreases s.len(),
{
    if s.len() > 0 && path_lt(p, s.last()) {
        lemma_place_bound(s.drop_last(), p);
    }
}

/// A path `compose` may return: it assembles at `now` from segments that verified on entry
/// to the store, runs from `from` to `to`, and every segment in it is one the store holds.
pub open spec fn sound_path(
    store: Seq<SegmentView>,
    from: Seq<u8>,
    to: Seq<u8>,
    now: u64,
    p: Seq<SegmentView>,
) -> bool {
    &&& assembles(p, now)
    &&& p.len() > 0
    &&& p[0].from == from
    &&& p[p.len() - 1].to == to
    &&& forall|i: int| 0 <= i < p.len() ==> #[trigger] store.contains(p[i])
}

/// A partial path from `from` that has reached `at`, of segments the store holds.
pub open spec fn chain_to(store: Seq<SegmentView>, from: Seq<u8>, at: Seq<u8>, stack: Seq<SegmentView>) -> bool {
    &&& stack.len() == 0 ==> at == from
    &&& stack.len() > 0 ==> stack[0].from == from && stack[stack.len() - 1].to == at
    &&& forall|i: int| 0 <= i < stack.len() ==> #[trigger] store.contains(stack[i])
}

proof fn lemma_search_from_sound(
    store: Seq<SegmentView>,
    from: Seq<u8>,
    at: Seq<u8>,
    to: Seq<u8>,
    now: u64,
    stack: Seq<SegmentView>,
    found: Seq<Seq<SegmentView>>,
    visits: nat,
)
    requires
        chain_to(store, from, at, stack),
        found.len() <= MAX_PATHS,
        forall|k: int| 0 <= k < found.len() ==> sound_path(store, from, to, now, #[trigger] found[k]),
    ensures
        search_from(store, at, to, now, stack, found, visits).0.len() <= MAX_PATHS,
        forall|k: int|
            0 <= k < search_from(store, at, to, now, stack, found, visits).0.len() ==> sound_path(
                store,
                from,
                to,
                now,
                #[trigger] search_from(store, at, to, now, stack, found, visits).0[k],
            ),
    decreases MAX_SEGMENTS - stack.len(), 1int, 0int,
{
    if stack.len() >= MAX_SEGMENTS || found.len() >= MAX_PATHS || visits >= MAX_VISITS {
    } else {
        lemma_search_list_sound(store, from, at, outs(store, at), 0, to, now, stack, found, visits + 1);
    }
}

proof fn lemma_search_list_sound(
    store: Seq<SegmentView>,
    from: Seq<u8>,
    at: Seq<u8>,
    list: Seq<SegmentView>,
    i: int,
    to: Seq<u8>,
    now: u64,
    stack: Seq<SegmentView>,
    found: Seq<Seq<SegmentView>>,
    visits: nat,
)
    requires
        list == outs(store, at),
        chain_to(store, from, at, stack),
        found.len() < MAX_PATHS,
        forall|k: int| 0 <= k < found.len() ==> sound_path(store, from, to, now, #[trigger] found[k]),
    ensures
        search_list(store, list, i, to, now, stack, found, visits).0.len() <= MAX_PATHS,
        forall|k: int|
            0 <= k < search_list(store, list, i, to, now, stack, found, visits).0.len() ==> sound_path(
                store,
                from,
                to,
                now,
                #[trigger] search_list(store, list, i, to, now, stack, found, visits).0[k],
            ),
    decreases MAX_SEGMENTS - stack.len(), 0int, list.len() - i,
{
    if stack.len() >= MAX_SEGMENTS || i < 0 || i >= list.len() {
    } else {
        let s = list[i];
        if !(now < s.expires_at) || on_path(stack, s.to) {
            lemma_search_list_sound(store, from, at, list, i + 1, to, now, stack, found, visits);
        } else {
            let st = stack.push(s);
            assert(list.contains(s));
            store.lemma_filter_contains_rev(starts_at(at), s);
            store.lemma_filter_pred(starts_at(at), i);
            assert(chain_to(store, from, s.to, st)) by {
                assert forall|j: int| 0 <= j < st.len() implies #[trigger] store.contains(st[j]) by {
                    if j < stack.len() {
                        assert(store.contains(stack[j]));
                    }
                }
            }
            let (f2, v2) = if s.to == to {
                (
                    if assembles(st, now) {
                        found.push(st)
                    } else {
                        found
                    },
                    visits,
                )
            } else {
                search_from(store, s.to, to, now, st, found, visits)
            };
            if s.to == to {
                assert forall|k: int| 0 <= k < f2.len() implies sound_path(store, from, to, now, #[trigger] f2[k]) by {
                    if k < found.len() {
                        assert(f2[k] == found[k]);
                    }
                }
            } else {
                lemma_search_from_sound(store, from, s.to, to, now, st, found, visits);
            }
            if f2.len() >= MAX_PATHS || v2 >= MAX_VISITS {
            } else {
                lemma_search_list_sound(store, from, at, list, i + 1, to, now, stack, f2, v2);
            }
        }
    }
}

/// Ordering keeps every path and adds none.
proof fn lemma_in_order_keeps(s: Seq<Seq<SegmentView>>)
    ensures
        in_order(s).len() == s.len(),
        forall|x: Seq<SegmentView>| #[trigger] in_order(s).contains(x) <==> s.contains(x),
    decreases s.len(),
{
    if s.len() > 0 {
        let t = in_order(s.drop_last());
        lemma_in_order_keeps(s.drop_last());
        lemma_place_bound(t, s.last());
        let k = place(t, s.last()) as int;
        let r = t.insert(k, s.last());
        assert forall|x: Seq<SegmentView>| #[trigger] r.contains(x) <==> s.contains(x) by {
            if r.contains(x) {
                let j = choose|j: int| 0 <= j < r.len() && r[j] == x;
                if j < k {
                    assert(t.contains(x));
                    assert(s.drop_last().contains(x));
                    let m = choose|m: int| 0 <= m < s.drop_last().len() && s.drop_last()[m] == x;
                    assert(s[m] == x);
                } else if j == k {
                    assert(s[s.len() - 1] == x);
                } else {
                    assert(t[j - 1] == x);
                    assert(t.contains(x));
                    let m = choose|m: int| 0 <= m < s.drop_last().len() && s.drop_last()[m] == x;
                    assert(s[m] == x);
                }
            }
            if s.contains(x) {
                let m = choose|m: int| 0 <= m < s.len() && s[m] == x;
                if m == s.len() - 1 {
                    assert(r[k] == x);
                } else {
                    assert(s.drop_last()[m] == x);
                    assert(t.contains(x));
                    let j = choose|j: int| 0 <= j < t.len() && t[j] == x;
                    if j < k {
                        assert(r[j] == x);
                    } else {
                        assert(r[j + 1] == x);
                    }
                }
            }
        }
    }
}

/// Every path `compose` returns is sound: it assembles, it runs from `from` to `to`, it is
/// made of segments the store holds, it has between one and `MAX_SEGMENTS` segments, and it
/// never passes through a point twice; and there are at most `MAX_PATHS` of them.
pub proof fn law_composed_paths_are_sound(store: Seq<SegmentView>, from: Seq<u8>, to: Seq<u8>, now: u64)
    ensures
        compose_spec(store, from, to, now).len() <= MAX_PATHS,
        forall|k: int|
            0 <= k < compose_spec(store, from, to, now).len() ==> sound_path(
                store,
                from,
                to,
                now,
                #[trigger] compose_spec(store, from, to, now)[k],
            ),
        forall|k: int|
            0 <= k < compose_spec(store, from, to, now).len() ==> simple_path(
                #[trigger] compose_spec(store, from, to, now)[k],
            ),
{
    let found = search_from(store, from, to, now, Seq::empty(), Seq::empty(), 0).0;
    lemma_search_from_sound(store, from, from, to, now, Seq::empty(), Seq::empty(), 0);
    lemma_in_order_keeps(found);
    let r = in_order(found);
    assert forall|k: int| 0 <= k < r.len() implies sound_path(store, from, to, now, #[trigger] r[k]) by {
        assert(r.contains(r[k]));
        let m = choose|m: int| 0 <= m < found.len() && found[m] == r[k];
    }
    assert forall|k: int| 0 <= k < r.len() implies simple_path(#[trigger] r[k]) by {
        assert(sound_path(store, from, to, now, r[k]));
        law_an_assembled_path_is_simple(r[k], now, all_verified(r[k].len()));
    }
}

/// A path of one to `MAX_SEGMENTS` segments that never passes through a point twice.
pub open spec fn simple_path(p: Seq<SegmentView>) -> bool {
    &&& 1 <= p.len() <= MAX_SEGMENTS
    &&& forall|i: int, j: int| 0 <= i < j < p.len() ==> #[trigger] p[i].to != #[trigger] p[j].to
    &&& forall|j: int| 0 <= j < p.len() ==> p[0].from != #[trigger] p[j].to
}

proof fn lemma_no_fault_before(s: Seq<SegmentView>, now: u64, verified: Seq<bool>, n: nat, i: int)
    requires
        first_fault(s, now, verified, n) is None,
        0 <= i < n,
    ensures
        segment_fault(s, now, verified, i) is None,
    decreases n,
{
    if i < n - 1 {
        lemma_no_fault_before(s, now, verified, (n - 1) as nat, i);
    }
}

/// A path that assembles is made of segments that all verified and are valid at `now`;
/// consecutive segments meet; and no point is visited twice.
pub proof fn law_an_assembled_path_is_simple(s: Seq<SegmentView>, now: u64, verified: Seq<bool>)
    requires
        assemble_spec(s, now, verified) is Ok,
    ensures
        1 <= s.len() <= MAX_SEGMENTS,
        forall|i: int| 0 <= i < s.len() ==> #[trigger] verified[i] && now < s[i].expires_at,
        forall|i: int| 0 < i < s.len() ==> #[trigger] s[i].from == s[i - 1].to,
        forall|i: int, j: int| 0 <= i < j < s.len() ==> #[trigger] s[i].to != #[trigger] s[j].to,
        forall|j: int| 0 <= j < s.len() ==> s[0].from != #[trigger] s[j].to,
{
    assert forall|i: int| 0 <= i < s.len() implies segment_fault(s, now, verified, i) is None by {
        lemma_no_fault_before(s, now, verified, s.len(), i);
    }
    assert forall|i: int| 0 <= i < s.len() implies #[trigger] verified[i] && now < s[i].expires_at by {
        assert(segment_fault(s, now, verified, i) is None);
    }
    assert forall|i: int| 0 < i < s.len() implies #[trigger] s[i].from == s[i - 1].to by {
        assert(segment_fault(s, now, verified, i) is None);
    }
    assert forall|i: int, j: int| 0 <= i < j < s.len() implies #[trigger] s[i].to != #[trigger] s[j].to by {
        assert(segment_fault(s, now, verified, j) is None);
        if s[i].to == s[j].to {
            assert(visited(s, j, s[j].to));
        }
    }
    assert forall|j: int| 0 <= j < s.len() implies s[0].from != #[trigger] s[j].to by {
        assert(segment_fault(s, now, verified, j) is None);
    }
}

/// Learning never lets an unverified segment in, and never lets a point hold more than
/// `MAX_PER_POINT` ways out.
pub proof fn law_a_store_holds_only_what_it_may(store: Seq<SegmentView>, seg: SegmentView, verified: bool)
    requires
        forall|p: Seq<u8>| #[trigger] outs(store, p).len() <= MAX_PER_POINT,
    ensures
        !verified ==> learn_spec(store, seg, verified).0 == store,
        learn_spec(store, seg, verified).0 == store || learn_spec(store, seg, verified).0 == store.push(seg),
        forall|p: Seq<u8>| #[trigger] outs(learn_spec(store, seg, verified).0, p).len() <= MAX_PER_POINT,
{
    let after = learn_spec(store, seg, verified).0;
    assert forall|p: Seq<u8>| #[trigger] outs(after, p).len() <= MAX_PER_POINT by {
        if after != store {
            reveal(Seq::filter);
            assert(after.drop_last() == store);
            assert(after.last() == seg);
            assert(outs(store, seg.from).len() < MAX_PER_POINT);
            if seg.from == p {
                assert(starts_at(p)(seg));
                assert(outs(after, p) == outs(store, p).push(seg));
            } else {
                assert(!starts_at(p)(seg));
                assert(outs(after, p) == outs(store, p));
            }
        }
    }
}


/// Every segment of a path names its operator by a 32-byte address.
pub open spec fn ops_wide(p: Seq<SegmentView>) -> bool {
    forall|i: int| 0 <= i < p.len() ==> (#[trigger] p[i]).operator.len() == 32
}

/// `s` is in `path_lt` order: no path comes before one listed ahead of it.
pub open spec fn path_sorted(s: Seq<Seq<SegmentView>>) -> bool {
    forall|a: int, b: int| 0 <= a < b < s.len() ==> !path_lt(#[trigger] s[b], #[trigger] s[a])
}

proof fn lemma_ops_asymmetric(a: Seq<SegmentView>, b: Seq<SegmentView>)
    requires
        ops_lt(a, b),
    ensures
        !ops_lt(b, a),
{
    if ops_lt(b, a) {
        let k = choose|k: int|
            0 <= k < a.len() && k < b.len() && lex_lt(a[k].operator, b[k].operator) && (forall|i: int|
                0 <= i < k ==> #[trigger] a[i].operator == b[i].operator);
        let m = choose|m: int|
            0 <= m < b.len() && m < a.len() && lex_lt(b[m].operator, a[m].operator) && (forall|i: int|
                0 <= i < m ==> #[trigger] b[i].operator == a[i].operator);
        if k < m {
            assert(b[k].operator == a[k].operator);
            lemma_lex_irreflexive(a[k].operator);
        } else if m < k {
            assert(a[m].operator == b[m].operator);
            lemma_lex_irreflexive(a[m].operator);
        } else {
            lemma_lex_asymmetric(a[k].operator, b[k].operator);
        }
    }
}

/// The first position below `n` where `a` and `b` name different operators, or `n`.
proof fn lemma_first_difference(a: Seq<SegmentView>, b: Seq<SegmentView>, n: int) -> (m: int)
    requires
        0 <= n <= a.len(),
        n <= b.len(),
    ensures
        0 <= m <= n,
        forall|i: int| 0 <= i < m ==> #[trigger] a[i].operator == b[i].operator,
        m < n ==> a[m].operator != b[m].operator,
    decreases n,
{
    if n == 0 {
        0
    } else {
        let m = lemma_first_difference(a, b, n - 1);
        if m < n - 1 {
            m
        } else if a[n - 1].operator != b[n - 1].operator {
            n - 1
        } else {
            n
        }
    }
}

/// If `p` comes before `y`, then anything `x` comes after `p` or before `y`.
proof fn lemma_path_lt_split(p: Seq<SegmentView>, x: Seq<SegmentView>, y: Seq<SegmentView>)
    requires
        path_lt(p, y),
        ops_wide(p),
        ops_wide(x),
        ops_wide(y),
    ensures
        path_lt(p, x) || path_lt(x, y),
{
    if p.len() == y.len() && x.len() == p.len() {
        let k = choose|k: int|
            0 <= k < p.len() && k < y.len() && lex_lt(p[k].operator, y[k].operator) && (forall|i: int|
                0 <= i < k ==> #[trigger] p[i].operator == y[i].operator);
        let m = lemma_first_difference(x, p, k);
        if m < k {
            assert(p[m].operator == y[m].operator);
            lemma_lex_total(x[m].operator, p[m].operator);
            if lex_lt(p[m].operator, x[m].operator) {
                assert(forall|i: int| 0 <= i < m ==> #[trigger] p[i].operator == x[i].operator);
                assert(ops_lt(p, x));
            } else {
                assert(forall|i: int| 0 <= i < m ==> #[trigger] x[i].operator == y[i].operator);
                assert(ops_lt(x, y));
            }
        } else {
            assert(forall|i: int| 0 <= i < k ==> #[trigger] x[i].operator == y[i].operator);
            if x[k].operator == p[k].operator {
                assert(ops_lt(x, y));
            } else {
                lemma_lex_total(x[k].operator, p[k].operator);
                if lex_lt(x[k].operator, p[k].operator) {
                    lemma_lex_transitive(x[k].operator, p[k].operator, y[k].operator);
                    assert(ops_lt(x, y));
                } else {
                    assert(forall|i: int| 0 <= i < k ==> #[trigger] p[i].operator == x[i].operator);
                    assert(ops_lt(p, x));
                }
            }
        }
    }
}

/// Where `place` puts `p` in `t`: after everything `p` does not come before, and before the
/// rest, all of which `p` comes before.
proof fn lemma_place_facts(t: Seq<Seq<SegmentView>>, p: Seq<SegmentView>)
    ensures
        0 <= place(t, p) <= t.len(),
        place(t, p) > 0 ==> !path_lt(p, t[place(t, p) - 1]),
        forall|j: int| place(t, p) <= j < t.len() ==> path_lt(p, #[trigger] t[j]),
    decreases t.len(),
{
    if t.len() > 0 && path_lt(p, t.last()) {
        let d = t.drop_last();
        lemma_place_facts(d, p);
        assert forall|j: int| place(t, p) <= j < t.len() implies path_lt(p, #[trigger] t[j]) by {
            if j < t.len() - 1 {
                assert(t[j] == d[j]);
            }
        }
        if place(t, p) > 0 {
            assert(t[place(t, p) - 1] == d[place(t, p) - 1]);
        }
    }
}

proof fn lemma_in_order_sorted(s: Seq<Seq<SegmentView>>)
    requires
        forall|i: int| 0 <= i < s.len() ==> ops_wide(#[trigger] s[i]),
    ensures
        path_sorted(in_order(s)),
    decreases s.len(),
{
    if s.len() > 0 {
        let d = s.drop_last();
        assert forall|i: int| 0 <= i < d.len() implies ops_wide(#[trigger] d[i]) by {
            assert(d[i] == s[i]);
        }
        lemma_in_order_sorted(d);
        lemma_in_order_keeps(d);
        let t = in_order(d);
        let p = s.last();
        assert(ops_wide(p));
        assert forall|i: int| 0 <= i < t.len() implies ops_wide(#[trigger] t[i]) by {
            assert(t.contains(t[i]));
            assert(d.contains(t[i]));
            let m = choose|m: int| 0 <= m < d.len() && d[m] == t[i];
            assert(ops_wide(d[m]));
        }
        lemma_place_facts(t, p);
        let k = place(t, p) as int;
        let r = t.insert(k, p);
        assert(r == in_order(s));
        assert forall|a: int, b: int| 0 <= a < b < r.len() implies !path_lt(#[trigger] r[b], #[trigger] r[a]) by {
            if b < k {
                assert(r[a] == t[a] && r[b] == t[b]);
            } else if b == k {
                assert(r[a] == t[a]);
                if path_lt(p, t[a]) {
                    if a < k - 1 {
                        assert(!path_lt(t[k - 1], t[a]));
                        lemma_path_lt_split(p, t[k - 1], t[a]);
                    }
                }
            } else if a < k {
                assert(r[a] == t[a] && r[b] == t[b - 1]);
            } else if a == k {
                assert(r[b] == t[b - 1]);
                assert(path_lt(p, t[b - 1]));
                if path_lt(t[b - 1], p) {
                    if t[b - 1].len() == p.len() {
                        lemma_ops_asymmetric(p, t[b - 1]);
                    }
                }
            } else {
                assert(r[a] == t[a - 1] && r[b] == t[b - 1]);
            }
        }
    }
}

/// The paths `compose` returns come in order, fewer segments first and then by their
/// operators, when every segment the store holds names its operator by an address. The same
/// store, points and time always give the same list.
pub proof fn law_composed_paths_come_in_order(store: Seq<SegmentView>, from: Seq<u8>, to: Seq<u8>, now: u64)
    requires
        forall|i: int| 0 <= i < store.len() ==> (#[trigger] store[i]).operator.len() == 32,
    ensures
        path_sorted(compose_spec(store, from, to, now)),
{
    let found = search_from(store, from, to, now, Seq::empty(), Seq::empty(), 0).0;
    lemma_search_from_sound(store, from, from, to, now, Seq::empty(), Seq::empty(), 0);
    lemma_in_order_keeps(found);
    law_composed_paths_are_sound(store, from, to, now);
    assert forall|i: int| 0 <= i < found.len() implies ops_wide(#[trigger] found[i]) by {
        assert(in_order(found).contains(found[i]));
        let k = choose|k: int| 0 <= k < in_order(found).len() && in_order(found)[k] == found[i];
        assert(sound_path(store, from, to, now, in_order(found)[k]));
        assert forall|j: int| 0 <= j < found[i].len() implies (#[trigger] found[i][j]).operator.len() == 32 by {
            assert(store.contains(found[i][j]));
            let m = choose|m: int| 0 <= m < store.len() && store[m] == found[i][j];
        }
    }
    lemma_in_order_sorted(found);
}

proof fn lemma_search_from_keeps(
    store: Seq<SegmentView>,
    at: Seq<u8>,
    to: Seq<u8>,
    now: u64,
    stack: Seq<SegmentView>,
    found: Seq<Seq<SegmentView>>,
    visits: nat,
    x: Seq<SegmentView>,
)
    requires
        found.contains(x),
    ensures
        search_from(store, at, to, now, stack, found, visits).0.contains(x),
    decreases MAX_SEGMENTS - stack.len(), 1int, 0int,
{
    if stack.len() >= MAX_SEGMENTS || found.len() >= MAX_PATHS || visits >= MAX_VISITS {
    } else {
        lemma_search_list_keeps(store, outs(store, at), 0, to, now, stack, found, visits + 1, x);
    }
}

proof fn lemma_search_list_keeps(
    store: Seq<SegmentView>,
    list: Seq<SegmentView>,
    i: int,
    to: Seq<u8>,
    now: u64,
    stack: Seq<SegmentView>,
    found: Seq<Seq<SegmentView>>,
    visits: nat,
    x: Seq<SegmentView>,
)
    requires
        found.contains(x),
    ensures
        search_list(store, list, i, to, now, stack, found, visits).0.contains(x),
    decreases MAX_SEGMENTS - stack.len(), 0int, list.len() - i,
{
    if stack.len() >= MAX_SEGMENTS || i < 0 || i >= list.len() {
    } else {
        let s = list[i];
        if !(now < s.expires_at) || on_path(stack, s.to) {
            lemma_search_list_keeps(store, list, i + 1, to, now, stack, found, visits, x);
        } else {
            let st = stack.push(s);
            let (f2, v2) = if s.to == to {
                (
                    if assembles(st, now) {
                        found.push(st)
                    } else {
                        found
                    },
                    visits,
                )
            } else {
                search_from(store, s.to, to, now, st, found, visits)
            };
            if s.to == to {
                let k = choose|k: int| 0 <= k < found.len() && found[k] == x;
                assert(f2[k] == x);
            } else {
                lemma_search_from_keeps(store, s.to, to, now, st, found, visits, x);
            }
            if f2.len() >= MAX_PATHS || v2 >= MAX_VISITS {
            } else {
                lemma_search_list_keeps(store, list, i + 1, to, now, stack, f2, v2, x);
            }
        }
    }
}

/// The facts about a sound path that the search relies on.
proof fn lemma_sound_path_facts(store: Seq<SegmentView>, from: Seq<u8>, to: Seq<u8>, now: u64, p: Seq<SegmentView>)
    requires
        sound_path(store, from, to, now, p),
    ensures
        1 <= p.len() <= MAX_SEGMENTS,
        forall|i: int| 0 <= i < p.len() ==> now < (#[trigger] p[i]).expires_at,
        forall|i: int| 0 < i < p.len() ==> #[trigger] p[i].from == p[i - 1].to,
        forall|i: int, j: int| 0 <= i < j < p.len() ==> #[trigger] p[i].to != #[trigger] p[j].to,
        forall|j: int| 0 <= j < p.len() ==> p[0].from != #[trigger] p[j].to,
{
    let v = all_verified(p.len());
    assert(assemble_spec(p, now, v) is Ok);
    law_an_assembled_path_is_simple(p, now, v);
    assert forall|i: int| 0 <= i < p.len() implies now < (#[trigger] p[i]).expires_at by {
        assert(v[i] && now < p[i].expires_at);
    }
}

proof fn lemma_search_from_complete(
    store: Seq<SegmentView>,
    from: Seq<u8>,
    at: Seq<u8>,
    to: Seq<u8>,
    now: u64,
    stack: Seq<SegmentView>,
    found: Seq<Seq<SegmentView>>,
    visits: nat,
    p: Seq<SegmentView>,
)
    requires
        sound_path(store, from, to, now, p),
        stack.len() < p.len(),
        stack == p.take(stack.len() as int),
        at == p[stack.len() as int].from,
    ensures
        ({
            let (f, v) = search_from(store, at, to, now, stack, found, visits);
            f.len() < MAX_PATHS && v < MAX_VISITS ==> f.contains(p)
        }),
    decreases MAX_SEGMENTS - stack.len(), 1int, 0int,
{
    lemma_sound_path_facts(store, from, to, now, p);
    if stack.len() >= MAX_SEGMENTS || found.len() >= MAX_PATHS || visits >= MAX_VISITS {
    } else {
        let n = stack.len() as int;
        let q = p[n];
        assert(store.contains(q));
        let m = choose|m: int| 0 <= m < store.len() && store[m] == q;
        assert(starts_at(at)(store[m]));
        store.lemma_filter_contains(starts_at(at), m);
        let list = outs(store, at);
        let j = choose|j: int| 0 <= j < list.len() && list[j] == q;
        lemma_search_list_complete(store, from, at, list, 0, j, to, now, stack, found, visits + 1, p);
    }
}

proof fn lemma_search_list_complete(
    store: Seq<SegmentView>,
    from: Seq<u8>,
    at: Seq<u8>,
    list: Seq<SegmentView>,
    i: int,
    j: int,
    to: Seq<u8>,
    now: u64,
    stack: Seq<SegmentView>,
    found: Seq<Seq<SegmentView>>,
    visits: nat,
    p: Seq<SegmentView>,
)
    requires
        sound_path(store, from, to, now, p),
        stack.len() < p.len(),
        stack == p.take(stack.len() as int),
        at == p[stack.len() as int].from,
        0 <= i <= j < list.len(),
        list[j] == p[stack.len() as int],
    ensures
        ({
            let (f, v) = search_list(store, list, i, to, now, stack, found, visits);
            f.len() < MAX_PATHS && v < MAX_VISITS ==> f.contains(p)
        }),
    decreases MAX_SEGMENTS - stack.len(), 0int, list.len() - i,
{
    lemma_sound_path_facts(store, from, to, now, p);
    let n = stack.len() as int;
    let s = list[i];
    if s != p[n] {
        assert(i < j);
        if !(now < s.expires_at) || on_path(stack, s.to) {
            lemma_search_list_complete(store, from, at, list, i + 1, j, to, now, stack, found, visits, p);
        } else {
            let st = stack.push(s);
            let (f2, v2) = if s.to == to {
                (
                    if assembles(st, now) {
                        found.push(st)
                    } else {
                        found
                    },
                    visits,
                )
            } else {
                search_from(store, s.to, to, now, st, found, visits)
            };
            if f2.len() >= MAX_PATHS || v2 >= MAX_VISITS {
            } else {
                lemma_search_list_complete(store, from, at, list, i + 1, j, to, now, stack, f2, v2, p);
            }
        }
    } else {
        assert(now < p[n].expires_at);
        assert(!on_path(stack, s.to)) by {
            if exists|k: int| 0 <= k < stack.len() && #[trigger] stack[k].to == s.to {
                let k = choose|k: int| 0 <= k < stack.len() && #[trigger] stack[k].to == s.to;
                assert(stack[k] == p[k]);
                assert(p[k].to != p[n].to);
            }
            if stack.len() > 0 {
                assert(stack[0] == p[0]);
                assert(p[0].from != p[n].to);
            }
        }
        let st = stack.push(s);
        assert(st == p.take(n + 1));
        if s.to == to {
            if n + 1 < p.len() {
                assert(p[n].to != p[p.len() - 1].to);
                assert(false);
            }
            assert(st == p);
            let f2 = found.push(st);
            assert(f2[found.len() as int] == p);
            if f2.len() >= MAX_PATHS || visits >= MAX_VISITS {
            } else {
                lemma_search_list_keeps(store, list, i + 1, to, now, stack, f2, visits, p);
            }
        } else {
            if n + 1 >= p.len() {
                assert(p[p.len() - 1].to == to);
                assert(false);
            }
            assert(p[n + 1].from == p[n].to);
            lemma_search_from_complete(store, from, s.to, to, now, st, found, visits, p);
            let (f2, v2) = search_from(store, s.to, to, now, st, found, visits);
            if f2.len() >= MAX_PATHS || v2 >= MAX_VISITS {
            } else {
                lemma_search_list_keeps(store, list, i + 1, to, now, stack, f2, v2, p);
            }
        }
    }
}

/// Every path is found that can be: a path from `from` to `to` of segments the store holds,
/// one to `MAX_SEGMENTS` of them, meeting end to end, valid at `now` and never passing a point
/// twice, is among those `compose` returns, unless the search stopped early, holding
/// `MAX_PATHS` paths or having taken `MAX_VISITS` steps. Every way out of every point is
/// tried, not only the first that leads somewhere.
pub proof fn law_composed_paths_are_complete(
    store: Seq<SegmentView>,
    from: Seq<u8>,
    to: Seq<u8>,
    now: u64,
    p: Seq<SegmentView>,
)
    requires
        sound_path(store, from, to, now, p),
        search_from(store, from, to, now, Seq::empty(), Seq::empty(), 0).0.len() < MAX_PATHS,
        search_from(store, from, to, now, Seq::empty(), Seq::empty(), 0).1 < MAX_VISITS,
    ensures
        compose_spec(store, from, to, now).contains(p),
{
    assert(Seq::<SegmentView>::empty() == p.take(0));
    lemma_search_from_complete(store, from, from, to, now, Seq::empty(), Seq::empty(), 0, p);
    lemma_in_order_keeps(search_from(store, from, to, now, Seq::empty(), Seq::empty(), 0).0);
}

/// How many points a search of depth `d` may visit when every point has at most `w` ways out:
/// the point itself and, below each way out, a search of depth `d - 1`.
pub open spec fn search_size(w: nat, d: nat) -> nat
    decreases d,
{
    if d == 0 {
        0
    } else {
        1 + w * search_size(w, (d - 1) as nat)
    }
}

proof fn lemma_search_size_grows(w: nat, u: nat, d: nat)
    requires
        w <= u,
    ensures
        search_size(w, d) <= search_size(u, d),
    decreases d,
{
    if d > 0 {
        lemma_search_size_grows(w, u, (d - 1) as nat);
        let a = search_size(w, (d - 1) as nat);
        let b = search_size(u, (d - 1) as nat);
        assert(w * a <= u * b) by (nonlinear_arith)
            requires
                w <= u,
                a <= b,
        ;
    }
}

proof fn lemma_search_from_steps(
    store: Seq<SegmentView>,
    at: Seq<u8>,
    to: Seq<u8>,
    now: u64,
    stack: Seq<SegmentView>,
    found: Seq<Seq<SegmentView>>,
    visits: nat,
)
    requires
        stack.len() <= MAX_SEGMENTS,
    ensures
        search_from(store, at, to, now, stack, found, visits).1 <= visits + search_size(
            store.len(),
            (MAX_SEGMENTS - stack.len()) as nat,
        ),
    decreases MAX_SEGMENTS - stack.len(), 1int, 0int,
{
    if stack.len() >= MAX_SEGMENTS || found.len() >= MAX_PATHS || visits >= MAX_VISITS {
    } else {
        let list = outs(store, at);
        store.lemma_filter_len(starts_at(at));
        lemma_search_list_steps(store, list, 0, to, now, stack, found, visits + 1);
        let d = (MAX_SEGMENTS - stack.len()) as nat;
        let t = search_size(store.len(), (d - 1) as nat);
        let l = list.len();
        let w = store.len();
        assert(l * t <= w * t) by (nonlinear_arith)
            requires
                l <= w,
        ;
    }
}

proof fn lemma_search_list_steps(
    store: Seq<SegmentView>,
    list: Seq<SegmentView>,
    i: int,
    to: Seq<u8>,
    now: u64,
    stack: Seq<SegmentView>,
    found: Seq<Seq<SegmentView>>,
    visits: nat,
)
    requires
        stack.len() < MAX_SEGMENTS,
        0 <= i <= list.len(),
    ensures
        search_list(store, list, i, to, now, stack, found, visits).1 <= visits + (list.len() - i)
            * search_size(store.len(), (MAX_SEGMENTS - stack.len() - 1) as nat),
    decreases MAX_SEGMENTS - stack.len(), 0int, list.len() - i,
{
    let t = search_size(store.len(), (MAX_SEGMENTS - stack.len() - 1) as nat);
    let k = list.len() - i;
    if i >= list.len() {
    } else {
        assert(k * t == t + (k - 1) * t) by (nonlinear_arith);
        assert((k - 1) * t >= 0) by (nonlinear_arith)
            requires
                k >= 1,
        ;
        let s = list[i];
        if !(now < s.expires_at) || on_path(stack, s.to) {
            lemma_search_list_steps(store, list, i + 1, to, now, stack, found, visits);
        } else {
            let st = stack.push(s);
            let (f2, v2) = if s.to == to {
                (
                    if assembles(st, now) {
                        found.push(st)
                    } else {
                        found
                    },
                    visits,
                )
            } else {
                search_from(store, s.to, to, now, st, found, visits)
            };
            if s.to != to {
                lemma_search_from_steps(store, s.to, to, now, st, found, visits);
            }
            assert(v2 <= visits + t);
            if f2.len() >= MAX_PATHS || v2 >= MAX_VISITS {
            } else {
                lemma_search_list_steps(store, list, i + 1, to, now, stack, f2, v2);
            }
        }
    }
}

/// The steps a search takes are bounded by the store: from an empty start, `compose` visits
/// at most `search_size(store.len(), MAX_SEGMENTS)` points, however the search goes.
pub proof fn law_the_search_is_bounded_by_the_store(store: Seq<SegmentView>, from: Seq<u8>, to: Seq<u8>, now: u64)
    ensures
        search_from(store, from, to, now, Seq::empty(), Seq::empty(), 0).1 <= search_size(
            store.len(),
            MAX_SEGMENTS as nat,
        ),
{
    lemma_search_from_steps(store, from, to, now, Seq::empty(), Seq::empty(), 0);
}

/// Over a store of at most four segments the search never runs out of steps, so whenever
/// `compose` returns fewer than `MAX_PATHS` paths it returns every path there is: each path
/// from `from` to `to` of held segments, meeting end to end, valid at `now` and never passing
/// a point twice.
pub proof fn law_a_small_store_yields_every_path(
    store: Seq<SegmentView>,
    from: Seq<u8>,
    to: Seq<u8>,
    now: u64,
    p: Seq<SegmentView>,
)
    requires
        store.len() <= 4,
        compose_spec(store, from, to, now).len() < MAX_PATHS,
        sound_path(store, from, to, now, p),
    ensures
        compose_spec(store, from, to, now).contains(p),
{
    law_the_search_is_bounded_by_the_store(store, from, to, now);
    lemma_search_size_grows(store.len(), 4, MAX_SEGMENTS as nat);
    reveal_with_fuel(search_size, 9);
    assert(search_size(4, MAX_SEGMENTS as nat) == 21845);
    lemma_in_order_keeps(search_from(store, from, to, now, Seq::empty(), Seq::empty(), 0).0);
    law_composed_paths_are_complete(store, from, to, now, p);
}

/// Whether `q` goes on from the partial path `stack`.
spec fn goes_on_from(q: Seq<SegmentView>, stack: Seq<SegmentView>) -> bool {
    q.len() > stack.len() && q.take(stack.len() as int) == stack
}

proof fn lemma_search_from_distinct(
    store: Seq<SegmentView>,
    at: Seq<u8>,
    to: Seq<u8>,
    now: u64,
    stack: Seq<SegmentView>,
    found: Seq<Seq<SegmentView>>,
    visits: nat,
)
    requires
        forall|p: Seq<u8>| (#[trigger] outs(store, p)).no_duplicates(),
    ensures
        ({
            let f = search_from(store, at, to, now, stack, found, visits).0;
            &&& f.len() >= found.len()
            &&& forall|x: int| 0 <= x < found.len() ==> #[trigger] f[x] == found[x]
            &&& forall|x: int| found.len() <= x < f.len() ==> goes_on_from(#[trigger] f[x], stack)
            &&& forall|x: int, y: int| found.len() <= x < y < f.len() ==> #[trigger] f[x] != #[trigger] f[y]
        }),
    decreases MAX_SEGMENTS - stack.len(), 1int, 0int,
{
    if stack.len() >= MAX_SEGMENTS || found.len() >= MAX_PATHS || visits >= MAX_VISITS {
    } else {
        let list = outs(store, at);
        assert(list.no_duplicates());
        lemma_search_list_distinct(store, list, 0, to, now, stack, found, visits + 1);
    }
}

proof fn lemma_search_list_distinct(
    store: Seq<SegmentView>,
    list: Seq<SegmentView>,
    i: int,
    to: Seq<u8>,
    now: u64,
    stack: Seq<SegmentView>,
    found: Seq<Seq<SegmentView>>,
    visits: nat,
)
    requires
        forall|p: Seq<u8>| (#[trigger] outs(store, p)).no_duplicates(),
        list.no_duplicates(),
        0 <= i,
    ensures
        ({
            let f = search_list(store, list, i, to, now, stack, found, visits).0;
            &&& f.len() >= found.len()
            &&& forall|x: int| 0 <= x < found.len() ==> #[trigger] f[x] == found[x]
            &&& forall|x: int|
                found.len() <= x < f.len() ==> goes_on_from(#[trigger] f[x], stack) && exists|k: int|
                    i <= k < list.len() && list[k] == f[x][stack.len() as int]
            &&& forall|x: int, y: int| found.len() <= x < y < f.len() ==> #[trigger] f[x] != #[trigger] f[y]
        }),
    decreases MAX_SEGMENTS - stack.len(), 0int, list.len() - i,
{
    let n = stack.len() as int;
    if stack.len() >= MAX_SEGMENTS || i < 0 || i >= list.len() {
    } else {
        let s = list[i];
        if !(now < s.expires_at) || on_path(stack, s.to) {
            lemma_search_list_distinct(store, list, i + 1, to, now, stack, found, visits);
        } else {
            let st = stack.push(s);
            let (f2, v2) = if s.to == to {
                (
                    if assembles(st, now) {
                        found.push(st)
                    } else {
                        found
                    },
                    visits,
                )
            } else {
                search_from(store, s.to, to, now, st, found, visits)
            };
            if s.to != to {
                lemma_search_from_distinct(store, s.to, to, now, st, found, visits);
            } else {
                assert(st.take(n) == stack);
            }
            // What this way out added goes on through `s`.
            assert forall|x: int| found.len() <= x < f2.len() implies goes_on_from(#[trigger] f2[x], stack)
                && f2[x][n] == s by {
                if s.to == to {
                    assert(f2[x] == st);
                    assert(st.take(n) =~= stack);
                } else {
                    assert(goes_on_from(f2[x], st));
                    assert(f2[x].take(n + 1) == st);
                    assert(f2[x].take(n + 1)[n] == f2[x][n]);
                    assert(st[n] == s);
                    assert(f2[x].take(n) =~= st.take(n));
                    assert(st.take(n) =~= stack);
                }
            }
            if f2.len() >= MAX_PATHS || v2 >= MAX_VISITS {
                assert forall|x: int| #![trigger f2[x]] found.len() <= x < f2.len() implies exists|k: int|
                    i <= k < list.len() && list[k] == f2[x][n] by {
                    assert(list[i] == f2[x][n]);
                }
            } else {
                lemma_search_list_distinct(store, list, i + 1, to, now, stack, f2, v2);
                let f = search_list(store, list, i + 1, to, now, stack, f2, v2).0;
                assert forall|x: int| found.len() <= x < f.len() implies goes_on_from(#[trigger] f[x], stack)
                    && exists|k: int| i <= k < list.len() && list[k] == f[x][n] by {
                    if x < f2.len() {
                        assert(f[x] == f2[x]);
                        assert(list[i] == f[x][n]);
                    }
                }
                assert forall|x: int, y: int| found.len() <= x < y < f.len() implies #[trigger] f[x]
                    != #[trigger] f[y] by {
                    if y < f2.len() {
                        assert(f[x] == f2[x] && f[y] == f2[y]);
                    } else if x < f2.len() {
                        assert(f[x] == f2[x]);
                        assert(f[x][n] == s);
                        let k = choose|k: int| i + 1 <= k < list.len() && list[k] == f[y][n];
                        assert(list[i] != list[k]);
                    }
                }
            }
        }
    }
}

proof fn lemma_in_order_distinct(s: Seq<Seq<SegmentView>>)
    requires
        s.no_duplicates(),
    ensures
        in_order(s).no_duplicates(),
    decreases s.len(),
{
    if s.len() > 0 {
        let d = s.drop_last();
        assert(d.no_duplicates());
        lemma_in_order_distinct(d);
        lemma_in_order_keeps(d);
        let t = in_order(d);
        lemma_place_bound(t, s.last());
        let k = place(t, s.last()) as int;
        let r = t.insert(k, s.last());
        assert(!d.contains(s.last())) by {
            if d.contains(s.last()) {
                let m = choose|m: int| 0 <= m < d.len() && d[m] == s.last();
                assert(s[m] == s[s.len() - 1]);
            }
        }
        assert(!t.contains(s.last()));
        assert forall|a: int, b: int| 0 <= a < r.len() && 0 <= b < r.len() && a != b implies r[a] != r[b] by {
            let ia = if a < k { a } else if a == k { -1 } else { a - 1 };
            let ib = if b < k { b } else if b == k { -1 } else { b - 1 };
            if ia >= 0 && ib >= 0 {
                assert(r[a] == t[ia] && r[b] == t[ib]);
            } else if ia >= 0 {
                assert(r[a] == t[ia]);
                assert(t.contains(t[ia]));
            } else if ib >= 0 {
                assert(r[b] == t[ib]);
                assert(t.contains(t[ib]));
            }
        }
    }
}

/// `compose` never returns one path twice, over a store in which no point lists a way out
/// twice (as `learn` keeps it): ways out taken at different points of the search lead to
/// different paths.
pub proof fn law_composed_paths_are_distinct(store: Seq<SegmentView>, from: Seq<u8>, to: Seq<u8>, now: u64)
    requires
        forall|p: Seq<u8>| (#[trigger] outs(store, p)).no_duplicates(),
    ensures
        compose_spec(store, from, to, now).no_duplicates(),
{
    let found = search_from(store, from, to, now, Seq::empty(), Seq::empty(), 0).0;
    lemma_search_from_distinct(store, from, to, now, Seq::empty(), Seq::empty(), 0);
    assert(found.no_duplicates());
    lemma_in_order_distinct(found);
}

/// Learning never lists a way out of a point twice.
pub proof fn law_a_store_lists_each_way_out_once(store: Seq<SegmentView>, seg: SegmentView, verified: bool)
    requires
        forall|p: Seq<u8>| (#[trigger] outs(store, p)).no_duplicates(),
    ensures
        forall|p: Seq<u8>| (#[trigger] outs(learn_spec(store, seg, verified).0, p)).no_duplicates(),
{
    let after = learn_spec(store, seg, verified).0;
    assert forall|p: Seq<u8>| (#[trigger] outs(after, p)).no_duplicates() by {
        if after != store {
            reveal(Seq::filter);
            assert(after.drop_last() == store);
            assert(after.last() == seg);
            assert(!outs(store, seg.from).contains(seg));
            if seg.from == p {
                assert(starts_at(p)(seg));
                let o = outs(store, p);
                assert(outs(after, p) == o.push(seg));
                assert(o.no_duplicates());
                assert forall|a: int, b: int| 0 <= a < o.len() + 1 && 0 <= b < o.len() + 1 && a != b
                    implies o.push(seg)[a] != o.push(seg)[b] by {
                    if a == o.len() {
                        assert(o.contains(o[b]));
                    } else if b == o.len() {
                        assert(o.contains(o[a]));
                    }
                }
            } else {
                assert(!starts_at(p)(seg));
                assert(outs(after, p) == outs(store, p));
            }
        }
    }
}

} // verus!
