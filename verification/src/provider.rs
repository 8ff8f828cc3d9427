//! Somewhere for mail to wait.
//!
//! A provider files fixed-size sealed blobs under a mailbox tag and hands them out when the
//! box is collected. A full box refuses and counts the refusal, so loss is visible to the
//! owner. An emptied box with nothing to report is forgotten; one carrying a refusal count or
//! a drain counter is kept, up to `MAX_REFUSAL_MEMORY` empty boxes, oldest forgotten first and
//! counted.
use vstd::prelude::*;
use crate::codec::{bytes_equal, blake3_hash, blake3_digest, push_all};
use crate::frame::{ENVELOPE_BYTES, MAILBOX_BYTES};
use crate::client::{mailbox_tag, mailbox_tag_of};
use crate::order::{lex_lt, compare_bytes, lemma_lex_transitive, lemma_lex_irreflexive, lemma_lex_asymmetric, lemma_lex_total};

verus! {

broadcast use vstd::std_specs::vec::group_vec_axioms;

pub type Tag = [u8; 32];

/// Why a drain was refused. Never sent on the wire.
#[derive(Debug, Clone, Copy, PartialEq, Eq)]
pub enum DrainError {
    /// The tag is not the hash of the key presented, or the signature does not verify.
    NotYours,
    /// That counter has already been used for this box.
    Replayed,
}

#[derive(Debug, Clone, Copy, PartialEq, Eq)]
pub enum DepositError {
    /// Not the size everything on this network is.
    WrongSize,
    /// The box is full. Counted against the box so the owner learns of it.
    BoxFull,
    /// The provider as a whole is full.
    ProviderFull,
}

/// What a collector is handed.
#[derive(Debug, Clone, PartialEq, Eq)]
pub struct Collected {
    pub items: Vec<Vec<u8>>,
    /// Deposits refused since the last collection. Non-zero means mail was lost.
    pub refused: u64,
}

/// One box as a value.
pub struct BoxView {
    pub tag: Seq<u8>,
    pub items: Seq<Seq<u8>>,
    pub refused: u64,
    /// Creation order, for age-ordered eviction.
    pub seq: u64,
    /// Highest drain counter accepted for this box.
    pub drained_to: u64,
}

/// The most emptied boxes kept solely to report a refusal count or a drain counter.
pub const MAX_REFUSAL_MEMORY: usize = 16384;

/// `v + 1`, stopping at the largest value.
pub open spec fn sat_inc(v: u64) -> u64 {
    if v == u64::MAX {
        v
    } else {
        (v + 1) as u64
    }
}

/// Boxes in strictly increasing tag order, every tag 32 bytes.
pub open spec fn sorted(s: Seq<BoxView>) -> bool {
    &&& forall|i: int| 0 <= i < s.len() ==> (#[trigger] s[i]).tag.len() == 32
    &&& forall|i: int, j: int| 0 <= i < j < s.len() ==> lex_lt(s[i].tag, s[j].tag)
}

/// Items held across all boxes.
pub open spec fn item_count(s: Seq<BoxView>) -> nat
    decreases s.len(),
{
    if s.len() == 0 {
        0
    } else {
        item_count(s.drop_last()) + s.last().items.len()
    }
}

/// How many boxes satisfy `p`.
pub open spec fn count_where(s: Seq<BoxView>, p: spec_fn(BoxView) -> bool) -> nat
    decreases s.len(),
{
    if s.len() == 0 {
        0
    } else {
        count_where(s.drop_last(), p) + if p(s.last()) {
            1nat
        } else {
            0nat
        }
    }
}

/// A box holding nothing.
pub open spec fn is_empty_box(b: BoxView) -> bool {
    b.items.len() == 0
}

/// Boxes holding no items.
pub open spec fn empty_count(s: Seq<BoxView>) -> nat {
    count_where(s, |b: BoxView| is_empty_box(b))
}

/// Boxes with nothing to report.
pub open spec fn quiet_count(s: Seq<BoxView>) -> nat {
    count_where(s, |b: BoxView| !reports(b))
}

/// A box worth keeping: it holds mail, reports refusals, or remembers a drain counter.
pub open spec fn reports(b: BoxView) -> bool {
    b.items.len() > 0 || b.refused > 0 || b.drained_to > 0
}

/// The boxes worth keeping, in order.
pub open spec fn keep_reporting(s: Seq<BoxView>) -> Seq<BoxView>
    decreases s.len(),
{
    if s.len() == 0 {
        s
    } else if reports(s.last()) {
        keep_reporting(s.drop_last()).push(s.last())
    } else {
        keep_reporting(s.drop_last())
    }
}

/// Where the box with tag `t` is, if there is one.
pub open spec fn find(s: Seq<BoxView>, t: Seq<u8>) -> Option<int> {
    if exists|i: int| 0 <= i < s.len() && (#[trigger] s[i]).tag == t {
        Some(choose|i: int| 0 <= i < s.len() && (#[trigger] s[i]).tag == t)
    } else {
        None
    }
}

/// How many boxes sort before tag `t`: where a new box with that tag goes.
pub open spec fn rank(s: Seq<BoxView>, t: Seq<u8>) -> int
    decreases s.len(),
{
    if s.len() == 0 {
        0
    } else {
        rank(s.drop_last(), t) + if lex_lt(s.last().tag, t) {
            1int
        } else {
            0int
        }
    }
}

/// `a` was created before `b`: by creation order, ties broken by tag.
pub open spec fn older(a: BoxView, b: BoxView) -> bool {
    a.seq < b.seq || (a.seq == b.seq && lex_lt(a.tag, b.tag))
}

/// The position of the oldest empty box.
pub open spec fn oldest_empty(s: Seq<BoxView>) -> int {
    choose|i: int|
        0 <= i < s.len() && s[i].items.len() == 0 && (forall|j: int|
            0 <= j < s.len() && s[j].items.len() == 0 && j != i ==> older(s[i], s[j]))
}

/// Forget the oldest empty boxes until no more than `MAX_REFUSAL_MEMORY` remain; the boxes
/// left and how many were forgotten.
#[verifier::opaque]
pub open spec fn evict(s: Seq<BoxView>) -> (Seq<BoxView>, nat)
    decreases s.len(),
{
    let i = oldest_empty(s);
    if empty_count(s) > MAX_REFUSAL_MEMORY && 0 <= i < s.len() {
        let (rest, n) = evict(s.remove(i));
        (rest, n + 1)
    } else {
        (s, 0)
    }
}

/// Drop what carries no information, then bound what does.
pub open spec fn prune(s: Seq<BoxView>) -> (Seq<BoxView>, nat) {
    evict(keep_reporting(s))
}

/// `f + n`, stopping at the largest value.
pub open spec fn sat_add(f: u64, n: nat) -> u64 {
    if f + n > u64::MAX {
        u64::MAX
    } else {
        (f + n) as u64
    }
}

/// The boxes with a box for `t` present: unchanged if there is one, else a fresh one with
/// creation number `seq` in its place in tag order.
pub open spec fn with_box(s: Seq<BoxView>, t: Seq<u8>, seq: u64) -> Seq<BoxView> {
    if find(s, t) is Some {
        s
    } else {
        s.insert(
            rank(s, t),
            BoxView { tag: t, items: Seq::empty(), refused: 0, seq, drained_to: 0 },
        )
    }
}

/// No box holds more than `m` items.
pub open spec fn fits(s: Seq<BoxView>, m: nat) -> bool {
    forall|i: int| 0 <= i < s.len() ==> (#[trigger] s[i]).items.len() <= m
}

/// Every item a box holds is one envelope wide.
pub open spec fn box_sized(b: BoxView) -> bool {
    forall|j: int| 0 <= j < b.items.len() ==> (#[trigger] b.items[j]).len() == ENVELOPE_BYTES
}

/// Every item held is one envelope wide, so what is served never shows by its width whether
/// anything was there.
pub open spec fn sized(s: Seq<BoxView>) -> bool {
    forall|i: int| 0 <= i < s.len() ==> box_sized(#[trigger] s[i])
}

struct MailBox {
    tag: Tag,
    items: Vec<Vec<u8>>,
    refused: u64,
    seq: u64,
    drained_to: u64,
}

impl MailBox {
    spec fn view(&self) -> BoxView {
        BoxView {
            tag: self.tag@,
            items: self.items@.map_values(|v: Vec<u8>| v@),
            refused: self.refused,
            seq: self.seq,
            drained_to: self.drained_to,
        }
    }
}

spec fn boxes_view(v: Seq<MailBox>) -> Seq<BoxView> {
    v.map_values(|b: MailBox| b.view())
}

// ---------------------------------------------------------------- lemmas on box tables

proof fn lemma_item_count_update(s: Seq<BoxView>, i: int, b: BoxView)
    requires
        0 <= i < s.len(),
    ensures
        item_count(s.update(i, b)) == item_count(s) - s[i].items.len() + b.items.len(),
    decreases s.len(),
{
    let t = s.update(i, b);
    if i == s.len() - 1 {
        assert(t.drop_last() =~= s.drop_last());
    } else {
        assert(t.drop_last() =~= s.drop_last().update(i, b));
        lemma_item_count_update(s.drop_last(), i, b);
    }
}

proof fn lemma_item_count_remove(s: Seq<BoxView>, i: int)
    requires
        0 <= i < s.len(),
    ensures
        item_count(s.remove(i)) == item_count(s) - s[i].items.len(),
    decreases s.len(),
{
    let t = s.remove(i);
    if i == s.len() - 1 {
        assert(t =~= s.drop_last());
    } else {
        assert(t.drop_last() =~= s.drop_last().remove(i));
        lemma_item_count_remove(s.drop_last(), i);
    }
}

proof fn lemma_item_count_insert(s: Seq<BoxView>, i: int, b: BoxView)
    requires
        0 <= i <= s.len(),
    ensures
        item_count(s.insert(i, b)) == item_count(s) + b.items.len(),
    decreases s.len(),
{
    let t = s.insert(i, b);
    if i == s.len() {
        assert(t.drop_last() =~= s);
    } else {
        assert(t.drop_last() =~= s.drop_last().insert(i, b));
        lemma_item_count_insert(s.drop_last(), i, b);
    }
}

proof fn lemma_count_update(s: Seq<BoxView>, p: spec_fn(BoxView) -> bool, i: int, b: BoxView)
    requires
        0 <= i < s.len(),
    ensures
        count_where(s.update(i, b), p) == count_where(s, p) - (if p(s[i]) {
            1int
        } else {
            0int
        }) + (if p(b) {
            1int
        } else {
            0int
        }),
        p(s[i]) ==> count_where(s, p) >= 1,
    decreases s.len(),
{
    let t = s.update(i, b);
    if i == s.len() - 1 {
        assert(t.drop_last() =~= s.drop_last());
    } else {
        assert(t.drop_last() =~= s.drop_last().update(i, b));
        lemma_count_update(s.drop_last(), p, i, b);
    }
}

proof fn lemma_count_remove(s: Seq<BoxView>, p: spec_fn(BoxView) -> bool, i: int)
    requires
        0 <= i < s.len(),
    ensures
        count_where(s.remove(i), p) == count_where(s, p) - (if p(s[i]) {
            1int
        } else {
            0int
        }),
    decreases s.len(),
{
    let t = s.remove(i);
    if i == s.len() - 1 {
        assert(t =~= s.drop_last());
    } else {
        assert(t.drop_last() =~= s.drop_last().remove(i));
        lemma_count_remove(s.drop_last(), p, i);
    }
}

proof fn lemma_count_insert(s: Seq<BoxView>, p: spec_fn(BoxView) -> bool, i: int, b: BoxView)
    requires
        0 <= i <= s.len(),
    ensures
        count_where(s.insert(i, b), p) == count_where(s, p) + (if p(b) {
            1int
        } else {
            0int
        }),
    decreases s.len(),
{
    let t = s.insert(i, b);
    if i == s.len() {
        assert(t.drop_last() =~= s);
    } else {
        assert(t.drop_last() =~= s.drop_last().insert(i, b));
        lemma_count_insert(s.drop_last(), p, i, b);
    }
}

proof fn lemma_count_bound(s: Seq<BoxView>, p: spec_fn(BoxView) -> bool)
    ensures
        count_where(s, p) <= s.len(),
        count_where(s, p) > 0 ==> exists|i: int| 0 <= i < s.len() && p(#[trigger] s[i]),
        count_where(s, p) == 0 ==> forall|i: int| 0 <= i < s.len() ==> !p(#[trigger] s[i]),
    decreases s.len(),
{
    if s.len() > 0 {
        lemma_count_bound(s.drop_last(), p);
        if count_where(s.drop_last(), p) > 0 {
            let i = choose|i: int| 0 <= i < s.drop_last().len() && p(#[trigger] s.drop_last()[i]);
            assert(s[i] == s.drop_last()[i]);
        }
        if p(s.last()) {
            assert(p(s[s.len() - 1]));
        }
        assert forall|i: int| count_where(s, p) == 0 && 0 <= i < s.len() implies !p(
            #[trigger] s[i],
        ) by {
            if i < s.len() - 1 {
                assert(s[i] == s.drop_last()[i]);
            }
        }
    }
}

proof fn lemma_keep_all(s: Seq<BoxView>)
    requires
        forall|i: int| 0 <= i < s.len() ==> reports(#[trigger] s[i]),
    ensures
        keep_reporting(s) == s,
    decreases s.len(),
{
    if s.len() > 0 {
        assert forall|i: int| 0 <= i < s.drop_last().len() implies reports(
            #[trigger] s.drop_last()[i],
        ) by {
            assert(s.drop_last()[i] == s[i]);
        }
        lemma_keep_all(s.drop_last());
        assert(s.drop_last().push(s.last()) =~= s);
    }
}

proof fn lemma_sorted_find(s: Seq<BoxView>, k: int)
    requires
        sorted(s),
        0 <= k < s.len(),
    ensures
        find(s, s[k].tag) == Some(k),
{
    let t = s[k].tag;
    assert(s[k].tag == t);
    let c = choose|i: int| 0 <= i < s.len() && (#[trigger] s[i]).tag == t;
    if c < k {
        assert(lex_lt(s[c].tag, s[k].tag));
        lemma_lex_irreflexive(t);
    }
    if k < c {
        assert(lex_lt(s[k].tag, s[c].tag));
        lemma_lex_irreflexive(t);
    }
}

proof fn lemma_rank_split(s: Seq<BoxView>, t: Seq<u8>, k: int)
    requires
        0 <= k <= s.len(),
        forall|i: int| 0 <= i < k ==> lex_lt((#[trigger] s[i]).tag, t),
        forall|i: int| k <= i < s.len() ==> !lex_lt((#[trigger] s[i]).tag, t),
    ensures
        rank(s, t) == k,
    decreases s.len(),
{
    if s.len() > 0 {
        if k == s.len() {
            lemma_rank_split(s.drop_last(), t, k - 1);
            assert(lex_lt(s[s.len() - 1].tag, t));
        } else {
            lemma_rank_split(s.drop_last(), t, k);
            assert(!lex_lt(s[s.len() - 1].tag, t));
        }
    }
}

proof fn lemma_sorted_insert(s: Seq<BoxView>, k: int, b: BoxView)
    requires
        sorted(s),
        0 <= k <= s.len(),
        b.tag.len() == 32,
        forall|i: int| 0 <= i < k ==> lex_lt((#[trigger] s[i]).tag, b.tag),
        forall|i: int| k <= i < s.len() ==> lex_lt(b.tag, (#[trigger] s[i]).tag),
    ensures
        sorted(s.insert(k, b)),
{
    let t = s.insert(k, b);
    assert forall|i: int, j: int| 0 <= i < j < t.len() implies lex_lt(t[i].tag, t[j].tag) by {
        if j < k {
        } else if j == k {
        } else if i < k {
            assert(lex_lt(s[i].tag, b.tag));
            assert(lex_lt(b.tag, s[j - 1].tag));
            lemma_lex_transitive(s[i].tag, b.tag, s[j - 1].tag);
        } else if i == k {
        } else {
        }
    }
}

proof fn lemma_sorted_remove(s: Seq<BoxView>, k: int)
    requires
        sorted(s),
        0 <= k < s.len(),
    ensures
        sorted(s.remove(k)),
{
    let t = s.remove(k);
    assert forall|i: int, j: int| 0 <= i < j < t.len() implies lex_lt(t[i].tag, t[j].tag) by {
        let ii = if i < k {
            i
        } else {
            i + 1
        };
        let jj = if j < k {
            j
        } else {
            j + 1
        };
        assert(t[i] == s[ii] && t[j] == s[jj]);
    }
}

// ---------------------------------------------------------------- exec helpers

/// Where `tag` is, or where it would go.
fn locate(boxes: &Vec<MailBox>, tag: &Tag) -> (r: (bool, usize))
    requires
        sorted(boxes_view(boxes@)),
    ensures
        r.1 <= boxes@.len(),
        r.0 ==> r.1 < boxes@.len() && boxes_view(boxes@)[r.1 as int].tag == tag@,
        !r.0 ==> (forall|i: int| 0 <= i < r.1 ==> lex_lt(boxes_view(boxes@)[i].tag, tag@)),
        !r.0 ==> (forall|i: int|
            r.1 <= i < boxes@.len() ==> lex_lt(tag@, boxes_view(boxes@)[i].tag)),
{
    let ghost s = boxes_view(boxes@);
    let mut lo: usize = 0;
    let mut hi: usize = boxes.len();
    while lo < hi
        invariant
            s == boxes_view(boxes@),
            sorted(s),
            lo <= hi <= boxes@.len(),
            forall|i: int| 0 <= i < lo ==> lex_lt(s[i].tag, tag@),
            forall|i: int| hi <= i < boxes@.len() ==> lex_lt(tag@, s[i].tag),
        decreases hi - lo,
    {
        let mid = lo + (hi - lo) / 2;
        let c = compare_bytes(boxes[mid].tag.as_slice(), tag.as_slice());
        if c == 0 {
            return (true, mid);
        } else if c < 0 {
            proof {
                assert forall|i: int| 0 <= i <= mid implies lex_lt(s[i].tag, tag@) by {
                    if i < mid {
                        lemma_lex_transitive(s[i].tag, s[mid as int].tag, tag@);
                    }
                }
            }
            lo = mid + 1;
        } else {
            proof {
                assert forall|i: int| mid <= i < boxes@.len() implies lex_lt(tag@, s[i].tag) by {
                    if i > mid {
                        lemma_lex_transitive(tag@, s[mid as int].tag, s[i].tag);
                    }
                }
            }
            hi = mid;
        }
    }
    (false, lo)
}

proof fn lemma_locate_absent(s: Seq<BoxView>, t: Seq<u8>, k: int)
    requires
        sorted(s),
        t.len() == 32,
        0 <= k <= s.len(),
        forall|i: int| 0 <= i < k ==> lex_lt(s[i].tag, t),
        forall|i: int| k <= i < s.len() ==> lex_lt(t, s[i].tag),
    ensures
        find(s, t) is None,
        rank(s, t) == k,
{
    assert forall|i: int| 0 <= i < s.len() implies (#[trigger] s[i]).tag != t by {
        if i < k {
            lemma_lex_irreflexive(t);
        } else {
            lemma_lex_irreflexive(t);
        }
    }
    assert forall|i: int| k <= i < s.len() implies !lex_lt((#[trigger] s[i]).tag, t) by {
        lemma_lex_asymmetric(t, s[i].tag);
    }
    lemma_rank_split(s, t, k);
}

/// A fresh copy of a byte string.
pub fn copy_bytes(v: &Vec<u8>) -> (out: Vec<u8>)
    ensures
        out@ == v@,
{
    let mut out: Vec<u8> = Vec::new();
    push_all(&mut out, v.as_slice());
    out
}


proof fn lemma_keep_step(s: Seq<BoxView>, i: int)
    requires
        0 <= i < s.len(),
    ensures
        keep_reporting(s.take(i + 1)) == if reports(s[i]) {
            keep_reporting(s.take(i)).push(s[i])
        } else {
            keep_reporting(s.take(i))
        },
{
    assert(s.take(i + 1).drop_last() =~= s.take(i));
}

proof fn lemma_keep_sub(s: Seq<BoxView>)
    ensures
        forall|j: int|
            0 <= j < keep_reporting(s).len() ==> exists|k: int|
                0 <= k < s.len() && s[k] == #[trigger] keep_reporting(s)[j],
        keep_reporting(s).len() <= s.len(),
        forall|a: int, b: int|
            0 <= a < b < keep_reporting(s).len() ==> exists|x: int, y: int|
                0 <= x < y < s.len() && s[x] == #[trigger] keep_reporting(s)[a] && s[y]
                    == #[trigger] keep_reporting(s)[b],
        forall|j: int| 0 <= j < keep_reporting(s).len() ==> reports(#[trigger] keep_reporting(s)[j]),
    decreases s.len(),
{
    if s.len() > 0 {
        let p = s.drop_last();
        lemma_keep_sub(p);
        let kp = keep_reporting(p);
        let k = keep_reporting(s);
        assert forall|j: int| 0 <= j < k.len() implies exists|m: int|
            0 <= m < s.len() && s[m] == #[trigger] k[j] by {
            if j < kp.len() {
                let m = choose|m: int| 0 <= m < p.len() && p[m] == kp[j];
                assert(s[m] == p[m]);
            } else {
                assert(k[j] == s[s.len() - 1]);
            }
        }
        assert forall|a: int, b: int| 0 <= a < b < k.len() implies exists|x: int, y: int|
            0 <= x < y < s.len() && s[x] == #[trigger] k[a] && s[y] == #[trigger] k[b] by {
            if b < kp.len() {
                let (x, y) = choose|x: int, y: int|
                    0 <= x < y < p.len() && p[x] == kp[a] && p[y] == kp[b];
                assert(s[x] == p[x] && s[y] == p[y]);
            } else {
                let x = choose|m: int| 0 <= m < p.len() && p[m] == kp[a];
                assert(s[x] == p[x]);
                assert(k[b] == s[s.len() - 1]);
            }
        }
    }
}

proof fn lemma_keep_sorted(s: Seq<BoxView>)
    requires
        sorted(s),
    ensures
        sorted(keep_reporting(s)),
{
    lemma_keep_sub(s);
    let k = keep_reporting(s);
    assert forall|i: int| 0 <= i < k.len() implies (#[trigger] k[i]).tag.len() == 32 by {
        let m = choose|m: int| 0 <= m < s.len() && s[m] == k[i];
    }
    assert forall|i: int, j: int| 0 <= i < j < k.len() implies lex_lt(k[i].tag, k[j].tag) by {
        let (x, y) = choose|x: int, y: int| 0 <= x < y < s.len() && s[x] == k[i] && s[y] == k[j];
    }
}

proof fn lemma_keep_len(s: Seq<BoxView>)
    ensures
        keep_reporting(s).len() <= s.len(),
    decreases s.len(),
{
    if s.len() > 0 {
        lemma_keep_len(s.drop_last());
    }
}

proof fn lemma_evict_step(c: Seq<BoxView>, k: int)
    requires
        sorted(c),
        k == oldest_empty(c),
        0 <= k < c.len(),
        is_empty_box(c[k]),
        empty_count(c) > MAX_REFUSAL_MEMORY,
        quiet_count(c) == 0,
    ensures
        evict(c) == (evict(c.remove(k)).0, evict(c.remove(k)).1 + 1),
        sorted(c.remove(k)),
        empty_count(c.remove(k)) == empty_count(c) - 1,
        quiet_count(c.remove(k)) == 0,
        item_count(c.remove(k)) == item_count(c),
{
    reveal(evict);
    lemma_count_remove(c, |b: BoxView| is_empty_box(b), k);
    lemma_count_remove(c, |b: BoxView| !reports(b), k);
    lemma_sorted_remove(c, k);
    lemma_item_count_remove(c, k);
}

proof fn lemma_evict_done(c: Seq<BoxView>)
    requires
        empty_count(c) <= MAX_REFUSAL_MEMORY,
    ensures
        evict(c) == (c, 0nat),
{
    reveal(evict);
}

proof fn lemma_keep_counts(s: Seq<BoxView>)
    ensures
        empty_count(keep_reporting(s)) == empty_count(s) - quiet_count(s),
        quiet_count(keep_reporting(s)) == 0,
        item_count(keep_reporting(s)) == item_count(s),
    decreases s.len(),
{
    if s.len() > 0 {
        let p = s.drop_last();
        lemma_keep_counts(p);
        let kp = keep_reporting(p);
        if reports(s.last()) {
            assert(kp.push(s.last()).drop_last() =~= kp);
        }
    }
}

/// Drops boxes with nothing to report, keeping the rest in order.
fn keep_reporting_exec(boxes: Vec<MailBox>) -> (out: Vec<MailBox>)
    ensures
        boxes_view(out@) == keep_reporting(boxes_view(boxes@)),
{
    let ghost orig = boxes_view(boxes@);
    let n = boxes.len();
    let mut boxes = boxes;
    let mut rev: Vec<MailBox> = Vec::new();
    while boxes.len() > 0
        invariant
            boxes@.len() + rev@.len() == n,
            n == orig.len(),
            boxes_view(boxes@) == orig.take(boxes@.len() as int),
            forall|j: int| 0 <= j < rev@.len() ==> (#[trigger] rev@[j]).view() == orig[n - 1 - j],
        decreases boxes@.len(),
    {
        let ghost before = boxes@;
        let b = boxes.pop().unwrap();
        assert(boxes_view(boxes@) =~= orig.take(boxes@.len() as int));
        assert(b == before[before.len() - 1]);
        assert(boxes_view(before)[before.len() - 1] == orig[boxes@.len() as int]);
        let ghost rprev = rev@;
        rev.push(b);
        assert forall|j: int| 0 <= j < rev@.len() implies (#[trigger] rev@[j]).view() == orig[n - 1 - j] by {
            if j < rprev.len() {
                assert(rev@[j] == rprev[j]);
            }
        }
    }
    let mut out: Vec<MailBox> = Vec::new();
    let mut i: usize = 0;
    assert(orig.take(0) =~= Seq::<BoxView>::empty());
    assert(boxes_view(out@) =~= keep_reporting(orig.take(0)));
    while rev.len() > 0
        invariant
            rev@.len() + i == n,
            n == orig.len(),
            forall|j: int| 0 <= j < rev@.len() ==> (#[trigger] rev@[j]).view() == orig[n - 1 - j],
            boxes_view(out@) == keep_reporting(orig.take(i as int)),
        decreases rev@.len(),
    {
        let b = rev.pop().unwrap();
        proof {
            lemma_keep_step(orig, i as int);
        }
        if b.items.len() > 0 || b.refused > 0 || b.drained_to > 0 {
            let ghost prev = out@;
            out.push(b);
            assert(boxes_view(out@) =~= boxes_view(prev).push(b.view()));
        }
        i = i + 1;
    }
    assert(orig.take(n as int) =~= orig);
    out
}

proof fn lemma_older_asymmetric(a: BoxView, b: BoxView)
    requires
        older(a, b),
    ensures
        !older(b, a),
{
    if a.seq == b.seq {
        lemma_lex_asymmetric(a.tag, b.tag);
    }
}

/// The position of the oldest empty box.
fn find_oldest_empty(boxes: &Vec<MailBox>) -> (k: usize)
    requires
        sorted(boxes_view(boxes@)),
        empty_count(boxes_view(boxes@)) > 0,
    ensures
        k == oldest_empty(boxes_view(boxes@)),
        k < boxes@.len(),
        is_empty_box(boxes_view(boxes@)[k as int]),
{
    let ghost s = boxes_view(boxes@);
    proof {
        lemma_count_bound(s, |b: BoxView| is_empty_box(b));
    }
    let n = boxes.len();
    let mut best: usize = n;
    let mut i: usize = 0;
    while i < n
        invariant
            n == boxes@.len(),
            s == boxes_view(boxes@),
            sorted(s),
            i <= n,
            best == n || (best < i && is_empty_box(s[best as int])),
            best == n ==> forall|j: int| 0 <= j < i ==> !is_empty_box(#[trigger] s[j]),
            best < n ==> forall|j: int|
                0 <= j < i && is_empty_box(#[trigger] s[j]) && j != best ==> older(
                    s[best as int],
                    s[j],
                ),
        decreases n - i,
    {
        if boxes[i].items.len() == 0 {
            if best == n {
                best = i;
            } else {
                let bb = &boxes[best];
                let bi = &boxes[i];
                let take_i = bi.seq < bb.seq || (bi.seq == bb.seq && compare_bytes(
                    bi.tag.as_slice(),
                    bb.tag.as_slice(),
                ) < 0);
                proof {
                    let x = s[best as int];
                    let y = s[i as int];
                    if best < i {
                        assert(lex_lt(x.tag, y.tag));
                    }
                    if !take_i {
                        if x.seq == y.seq {
                            lemma_lex_asymmetric(x.tag, y.tag);
                        }
                        assert(older(x, y));
                    } else {
                        assert forall|j: int|
                            0 <= j < i && is_empty_box(#[trigger] s[j]) && j != best implies older(
                            y,
                            s[j],
                        ) by {
                            assert(older(x, s[j]));
                            if y.seq == x.seq && x.seq == s[j].seq {
                                lemma_lex_transitive(y.tag, x.tag, s[j].tag);
                            }
                        }
                    }
                }
                if take_i {
                    best = i;
                }
            }
        }
        i = i + 1;
    }
    proof {
        let c = oldest_empty(s);
        assert(0 <= best < s.len() && is_empty_box(s[best as int]) && (forall|j: int|
            0 <= j < s.len() && s[j].items.len() == 0 && j != best ==> older(s[best as int], s[j])));
        assert(0 <= c < s.len() && s[c].items.len() == 0);
        if c != best {
            assert(older(s[best as int], s[c]));
            assert(older(s[c], s[best as int]));
            lemma_older_asymmetric(s[c], s[best as int]);
        }
    }
    best
}

/// Forgets the oldest empty box.
fn evict_one(cur: Vec<MailBox>, empties: usize) -> (out: Vec<MailBox>)
    requires
        sorted(boxes_view(cur@)),
        empties == empty_count(boxes_view(cur@)),
        empties > MAX_REFUSAL_MEMORY,
        quiet_count(boxes_view(cur@)) == 0,
    ensures
        out@.len() + 1 == cur@.len(),
        evict(boxes_view(cur@)) == (evict(boxes_view(out@)).0, evict(boxes_view(out@)).1 + 1),
        sorted(boxes_view(out@)),
        empty_count(boxes_view(out@)) == empties - 1,
        quiet_count(boxes_view(out@)) == 0,
        item_count(boxes_view(out@)) == item_count(boxes_view(cur@)),
{
    let ghost c = boxes_view(cur@);
    proof {
        lemma_count_bound(c, |b: BoxView| is_empty_box(b));
    }
    let mut cur = cur;
    let k = find_oldest_empty(&cur);
    let ghost before = cur@;
    cur.remove(k);
    proof {
        lemma_view_remove(before, k as int);
        lemma_evict_step(c, k as int);
    }
    cur
}

proof fn lemma_view_remove(v: Seq<MailBox>, k: int)
    requires
        0 <= k < v.len(),
    ensures
        boxes_view(v.remove(k)) == boxes_view(v).remove(k),
{
    assert(boxes_view(v.remove(k)) =~= boxes_view(v).remove(k));
}

/// What pruning leaves and how many boxes it forgot.
fn prune_exec(boxes: Vec<MailBox>, quiet: usize, empties: usize) -> (r: (Vec<MailBox>, usize, u64))
    requires
        sorted(boxes_view(boxes@)),
        quiet == quiet_count(boxes_view(boxes@)),
        empties == empty_count(boxes_view(boxes@)),
    ensures
        boxes_view(r.0@) == prune(boxes_view(boxes@)).0,
        r.2 == prune(boxes_view(boxes@)).1,
        r.1 == empty_count(boxes_view(r.0@)),
        sorted(boxes_view(r.0@)),
        quiet_count(boxes_view(r.0@)) == 0,
        item_count(boxes_view(r.0@)) == item_count(boxes_view(boxes@)),
{
    let ghost s0 = boxes_view(boxes@);
    let len0 = boxes.len();
    proof {
        lemma_keep_len(s0);
    }
    let mut cur = boxes;
    let mut empties = empties;
    if quiet > 0 {
        cur = keep_reporting_exec(cur);
        proof {
            lemma_keep_sorted(s0);
            lemma_keep_counts(s0);
        }
        empties = empties - quiet;
    } else {
        proof {
            lemma_count_bound(s0, |b: BoxView| !reports(b));
            lemma_keep_all(s0);
        }
    }
    let mut n: u64 = 0;
    while empties > MAX_REFUSAL_MEMORY
        invariant
            sorted(boxes_view(cur@)),
            empties == empty_count(boxes_view(cur@)),
            evict(keep_reporting(s0)).0 == evict(boxes_view(cur@)).0,
            evict(keep_reporting(s0)).1 == evict(boxes_view(cur@)).1 + n,
            quiet_count(boxes_view(cur@)) == 0,
            item_count(boxes_view(cur@)) == item_count(s0),
            n + cur@.len() <= s0.len(),
            s0.len() == len0,
        decreases empties,
    {
        let ghost c = boxes_view(cur@);
        cur = evict_one(cur, empties);
        empties = empties - 1;
        n = n + 1;
    }
    proof {
        lemma_evict_done(boxes_view(cur@));
    }
    (cur, empties, n)
}


// ---------------------------------------------------------------- the provider

/// A provider as a value: its boxes in tag order, its limits, the next creation number and
/// how many refusal records it has had to forget.
pub struct ProviderView {
    pub boxes: Seq<BoxView>,
    pub per_box: usize,
    pub total: usize,
    pub next_seq: u64,
    pub forgotten: u64,
}

/// The box filed under `t`, if any.
pub open spec fn box_for(s: Seq<BoxView>, t: Seq<u8>) -> Option<BoxView> {
    match find(s, t) {
        Some(i) => Some(s[i]),
        None => None,
    }
}

/// The creation number after making sure a box for `t` exists.
pub open spec fn seq_after(s: Seq<BoxView>, t: Seq<u8>, next_seq: u64) -> u64 {
    if find(s, t) is Some {
        next_seq
    } else {
        sat_inc(next_seq)
    }
}

/// What a deposit of `payload` does, and what it answers.
pub open spec fn deposit_spec(p: ProviderView, payload: Seq<u8>) -> (
    ProviderView,
    Result<(), DepositError>,
) {
    if payload.len() != MAILBOX_BYTES + ENVELOPE_BYTES {
        (p, Err(DepositError::WrongSize))
    } else if item_count(p.boxes) >= p.total {
        (p, Err(DepositError::ProviderFull))
    } else {
        let t = payload.take(MAILBOX_BYTES as int);
        let s = with_box(p.boxes, t, p.next_seq);
        let i = rank(s, t);
        let b = s[i];
        let ns = seq_after(p.boxes, t, p.next_seq);
        if b.items.len() >= p.per_box {
            (
                ProviderView {
                    boxes: s.update(i, BoxView { refused: sat_inc(b.refused), ..b }),
                    next_seq: ns,
                    ..p
                },
                Err(DepositError::BoxFull),
            )
        } else {
            (
                ProviderView {
                    boxes: s.update(
                        i,
                        BoxView { items: b.items.push(payload.skip(MAILBOX_BYTES as int)), ..b },
                    ),
                    next_seq: ns,
                    ..p
                },
                Ok(()),
            )
        }
    }
}

/// What collecting `t` does, and the items and refusal count handed over.
pub open spec fn collect_spec(p: ProviderView, t: Seq<u8>) -> (ProviderView, (Seq<Seq<u8>>, u64)) {
    match find(p.boxes, t) {
        None => (p, (Seq::empty(), 0)),
        Some(i) => (ProviderView { boxes: p.boxes.remove(i), ..p }, (p.boxes[i].items, p.boxes[i].refused)),
    }
}

/// A box with its first item handed out, if it has one.
pub open spec fn pop_first(b: BoxView) -> BoxView {
    if b.items.len() > 0 {
        BoxView { items: b.items.drop_first(), ..b }
    } else {
        b
    }
}

/// The first item of a box, if it has one.
pub open spec fn first_item(b: BoxView) -> Option<Seq<u8>> {
    if b.items.len() > 0 {
        Some(b.items[0])
    } else {
        None
    }
}

/// The provider after its boxes became `s` and were pruned.
pub open spec fn pruned(p: ProviderView, s: Seq<BoxView>) -> ProviderView {
    ProviderView { boxes: prune(s).0, forgotten: sat_add(p.forgotten, prune(s).1), ..p }
}

/// What taking one item from `t` does, and the item and refusal count handed over.
pub open spec fn take_one_spec(p: ProviderView, t: Seq<u8>) -> (
    ProviderView,
    (Option<Seq<u8>>, u64),
) {
    match find(p.boxes, t) {
        None => (p, (None, 0)),
        Some(i) => {
            let b = p.boxes[i];
            (pruned(p, p.boxes.update(i, pop_first(b))), (first_item(b), b.refused))
        },
    }
}

/// The `index`-th item filed under `t` and the box's refusal count, read without removing.
pub open spec fn peek_spec(p: ProviderView, t: Seq<u8>, index: int) -> (Option<Seq<u8>>, u64) {
    match box_for(p.boxes, t) {
        None => (None, 0),
        Some(b) => (
            if 0 <= index < b.items.len() {
                Some(b.items[index])
            } else {
                None
            },
            b.refused,
        ),
    }
}

/// How many items are filed under `t`.
pub open spec fn depth_spec(p: ProviderView, t: Seq<u8>) -> nat {
    match box_for(p.boxes, t) {
        None => 0,
        Some(b) => b.items.len(),
    }
}

impl Default for Provider {
    fn default() -> (p: Self)
        ensures
            p@ == (ProviderView {
                boxes: Seq::empty(),
                per_box: DEFAULT_PER_BOX,
                total: DEFAULT_TOTAL,
                next_seq: 0,
                forgotten: 0,
            }),
    {
        Provider::new()
    }
}

pub struct Provider {
    boxes: Vec<MailBox>,
    per_box: usize,
    total: usize,
    held: usize,
    next_seq: u64,
    forgotten: u64,
    empties: usize,
    quiet: usize,
}

/// Items a box may hold by default.
pub const DEFAULT_PER_BOX: usize = 1024;

/// Items a provider may hold by default.
pub const DEFAULT_TOTAL: usize = 1048576;

impl Provider {
    pub closed spec fn view(&self) -> ProviderView {
        ProviderView {
            boxes: boxes_view(self.boxes@),
            per_box: self.per_box,
            total: self.total,
            next_seq: self.next_seq,
            forgotten: self.forgotten,
        }
    }

    #[verifier::type_invariant]
    closed spec fn well_formed(&self) -> bool {
        &&& sorted(boxes_view(self.boxes@))
        &&& self.held == item_count(boxes_view(self.boxes@))
        &&& self.empties == empty_count(boxes_view(self.boxes@))
        &&& self.quiet == quiet_count(boxes_view(self.boxes@))
        &&& fits(boxes_view(self.boxes@), self.per_box as nat)
        &&& sized(boxes_view(self.boxes@))
        &&& self.held <= self.total
    }

    /// A provider with the default limits.
    pub fn new() -> (p: Self)
        ensures
            p@ == (ProviderView {
                boxes: Seq::empty(),
                per_box: DEFAULT_PER_BOX,
                total: DEFAULT_TOTAL,
                next_seq: 0,
                forgotten: 0,
            }),
    {
        Self::with_limits(DEFAULT_PER_BOX, DEFAULT_TOTAL)
    }

    /// A provider holding at most `per_box` items in a box and `total` in all.
    pub fn with_limits(per_box: usize, total: usize) -> (p: Self)
        ensures
            p@ == (ProviderView {
                boxes: Seq::empty(),
                per_box,
                total,
                next_seq: 0,
                forgotten: 0,
            }),
    {
        let boxes: Vec<MailBox> = Vec::new();
        assert(boxes_view(boxes@) =~= Seq::<BoxView>::empty());
        Provider { boxes, per_box, total, held: 0, next_seq: 0, forgotten: 0, empties: 0, quiet: 0 }
    }

    /// Items held across all boxes.
    pub fn held(&self) -> (n: usize)
        ensures
            n == item_count(self@.boxes),
    {
        proof {
            use_type_invariant(self);
        }
        self.held
    }

    /// Boxes currently tracked.
    pub fn boxes(&self) -> (n: usize)
        ensures
            n == self@.boxes.len(),
    {
        self.boxes.len()
    }

    /// Refusal records dropped to stay inside `MAX_REFUSAL_MEMORY`.
    pub fn forgotten(&self) -> (n: u64)
        ensures
            n == self@.forgotten,
    {
        self.forgotten
    }

    /// Read the `index`-th item filed under `tag` without removing it, with the box's refusal
    /// count. An unknown tag reads like an empty box.
    pub fn peek(&self, tag: &Tag, index: usize) -> (r: (Option<Vec<u8>>, u64))
        ensures
            (match r.0 {
                Some(v) => Some(v@),
                None => None,
            }, r.1) == peek_spec(self@, tag@, index as int),
            valid(self@),
    {
        proof {
            use_type_invariant(self);
        }
        let (found, k) = locate(&self.boxes, tag);
        if !found {
            proof {
                lemma_locate_absent(boxes_view(self.boxes@), tag@, k as int);
            }
            return (None, 0);
        }
        proof {
            lemma_sorted_find(boxes_view(self.boxes@), k as int);
        }
        let b = &self.boxes[k];
        if index < b.items.len() {
            (Some(copy_bytes(&b.items[index])), b.refused)
        } else {
            (None, b.refused)
        }
    }

    /// How many items are filed under `tag`.
    pub fn depth(&self, tag: &Tag) -> (n: usize)
        ensures
            n == depth_spec(self@, tag@),
    {
        proof {
            use_type_invariant(self);
        }
        let (found, k) = locate(&self.boxes, tag);
        if !found {
            proof {
                lemma_locate_absent(boxes_view(self.boxes@), tag@, k as int);
            }
            return 0;
        }
        proof {
            lemma_sorted_find(boxes_view(self.boxes@), k as int);
        }
        self.boxes[k].items.len()
    }

    /// Empty the box filed under `tag`, handing over its items and refusal count. An unknown
    /// tag gives an empty collection, exactly as an emptied box does.
    pub fn collect(&mut self, tag: &Tag) -> (c: Collected)
        ensures
            (final(self)@, (c.items@.map_values(|v: Vec<u8>| v@), c.refused)) == collect_spec(
                old(self)@,
                tag@,
            ),
    {
        proof {
            use_type_invariant(&*self);
        }
        let ghost s0 = boxes_view(self.boxes@);
        let (found, k) = locate(&self.boxes, tag);
        if !found {
            proof {
                lemma_locate_absent(s0, tag@, k as int);
            }
            let items: Vec<Vec<u8>> = Vec::new();
            assert(items@.map_values(|v: Vec<u8>| v@) =~= Seq::<Seq<u8>>::empty());
            return Collected { items, refused: 0 };
        }
        proof {
            lemma_sorted_find(s0, k as int);
        }
        let mut p = Provider::with_limits(self.per_box, self.total);
        std::mem::swap(self, &mut p);
        let Provider { mut boxes, per_box, total, held, next_seq, forgotten, empties, quiet } = p;
        let ghost before = boxes@;
        let (e0, q0) = box_flags(&boxes[k]);
        let b = boxes.remove(k);
        proof {
            lemma_view_remove(before, k as int);
            lemma_sorted_remove(s0, k as int);
            lemma_remove_sized(s0, k as int);
            lemma_item_count_remove(s0, k as int);
            lemma_count_remove(s0, |b: BoxView| is_empty_box(b), k as int);
            lemma_count_remove(s0, |b: BoxView| !reports(b), k as int);
            lemma_count_bound(s0, |b: BoxView| is_empty_box(b));
        }
        let n = b.items.len();
        *self = Provider {
            boxes,
            per_box,
            total,
            held: held - n,
            next_seq,
            forgotten,
            empties: if e0 { empties - 1 } else { empties },
            quiet: if q0 { quiet - 1 } else { quiet },
        };
        let MailBox { items, refused, .. } = b;
        Collected { items, refused }
    }
}

impl Provider {
    /// File a delivered payload, `[tag][sealed]`, reading only the tag.
    pub fn deposit(&mut self, payload: &[u8]) -> (r: Result<(), DepositError>)
        ensures
            (final(self)@, r) == deposit_spec(old(self)@, payload@),
    {
        proof {
            use_type_invariant(&*self);
        }
        if payload.len() != MAILBOX_BYTES + ENVELOPE_BYTES {
            return Err(DepositError::WrongSize);
        }
        if self.held >= self.total {
            return Err(DepositError::ProviderFull);
        }
        let (tag, sealed) = split_payload(payload);
        let ghost s0 = boxes_view(self.boxes@);
        let mut p = Provider::with_limits(self.per_box, self.total);
        std::mem::swap(self, &mut p);
        let Provider { boxes, per_box, total, held, next_seq, forgotten, empties, quiet } = p;
        let (k, mut boxes, next_seq, empties, quiet) = ensure_box(
            boxes,
            &tag,
            next_seq,
            empties,
            quiet,
        );
        let ghost s1 = boxes_view(boxes@);
        let ghost v1 = boxes@;
        proof {
            lemma_with_box_fits(s0, tag@, old(self)@.next_seq, per_box as nat);
            lemma_with_box_sized(s0, tag@, old(self)@.next_seq);
        }
        let (e0, q0) = box_flags(&boxes[k]);
        proof {
            lemma_count_update(s1, |b: BoxView| is_empty_box(b), k as int, s1[k as int]);
            lemma_count_update(s1, |b: BoxView| !reports(b), k as int, s1[k as int]);
        }
        if boxes[k].items.len() >= per_box {
            let r = boxes[k].refused;
            boxes[k].refused = if r == u64::MAX {
                r
            } else {
                r + 1
            };
            let ghost nb = boxes@[k as int];
            proof {
                lemma_view_update(v1, k as int, nb);
                assert(nb.view().items == s1[k as int].items);
                lemma_count_update(s1, |b: BoxView| is_empty_box(b), k as int, nb.view());
                lemma_count_update(s1, |b: BoxView| !reports(b), k as int, nb.view());
                lemma_item_count_update(s1, k as int, nb.view());
                lemma_update_fits(s1, k as int, nb.view(), per_box as nat);
                assert(box_sized(s1[k as int]));
                lemma_update_sized(s1, k as int, nb.view());
                assert(nb.view() == (BoxView { refused: sat_inc(s1[k as int].refused), ..s1[k as int] }));
            }
            *self = Provider {
                boxes,
                per_box,
                total,
                held,
                next_seq,
                forgotten,
                empties,
                quiet: if q0 {
                    quiet - 1
                } else {
                    quiet
                },
            };
            return Err(DepositError::BoxFull);
        }
        let ghost sealed_v = sealed@;
        boxes[k].items.push(sealed);
        let ghost nb = boxes@[k as int];
        proof {
            lemma_view_update(v1, k as int, nb);
            assert(nb.view().items =~= s1[k as int].items.push(sealed_v));
            lemma_count_update(s1, |b: BoxView| is_empty_box(b), k as int, nb.view());
            lemma_count_update(s1, |b: BoxView| !reports(b), k as int, nb.view());
            lemma_item_count_update(s1, k as int, nb.view());
            lemma_update_fits(s1, k as int, nb.view(), per_box as nat);
            assert(box_sized(s1[k as int]));
            assert forall|j: int| 0 <= j < nb.view().items.len() implies (
            #[trigger] nb.view().items[j]).len() == ENVELOPE_BYTES by {
                if j < s1[k as int].items.len() {
                    assert(nb.view().items[j] == s1[k as int].items[j]);
                }
            }
            lemma_update_sized(s1, k as int, nb.view());
            assert(nb.view() == (BoxView {
                items: s1[k as int].items.push(sealed_v),
                ..s1[k as int]
            }));
        }
        *self = Provider {
            boxes,
            per_box,
            total,
            held: held + 1,
            next_seq,
            forgotten,
            empties: if e0 {
                empties - 1
            } else {
                empties
            },
            quiet: if q0 {
                quiet - 1
            } else {
                quiet
            },
        };
        Ok(())
    }
}

/// Box `b`, with its drain counter moved to `counter` when `mark` holds.
pub open spec fn marked(b: BoxView, mark: bool, counter: u64) -> BoxView {
    if mark {
        BoxView { drained_to: counter, ..b }
    } else {
        b
    }
}

/// What draining `t` with `counter` does once the drain key has been shown to be the owner's:
/// the box is made if missing, a used counter is refused, and otherwise the counter is recorded
/// and the first item handed over with the box's refusal count.
pub open spec fn drain_spec(p: ProviderView, t: Seq<u8>, counter: u64) -> (
    ProviderView,
    Result<(Option<Seq<u8>>, u64), DrainError>,
) {
    let s = with_box(p.boxes, t, p.next_seq);
    let i = rank(s, t);
    let b = s[i];
    let q = ProviderView { boxes: s, next_seq: seq_after(p.boxes, t, p.next_seq), ..p };
    if counter <= b.drained_to {
        (q, Err(DrainError::Replayed))
    } else {
        (
            pruned(q, s.update(i, pop_first(marked(b, true, counter)))),
            Ok((first_item(b), b.refused)),
        )
    }
}

/// Hands out the first item of box `k`, first moving its drain counter to `counter` when
/// `mark` holds; the boxes, the item, the box's refusal count and the new counts.
fn pop_box(
    boxes: Vec<MailBox>,
    k: usize,
    held: usize,
    empties: usize,
    quiet: usize,
    mark: bool,
    counter: u64,
) -> (r: (Vec<MailBox>, Option<Vec<u8>>, u64, usize, usize, usize))
    requires
        sorted(boxes_view(boxes@)),
        k < boxes@.len(),
        held == item_count(boxes_view(boxes@)),
        empties == empty_count(boxes_view(boxes@)),
        quiet == quiet_count(boxes_view(boxes@)),
    ensures
        boxes_view(r.0@) == boxes_view(boxes@).update(
            k as int,
            pop_first(marked(boxes_view(boxes@)[k as int], mark, counter)),
        ),
        (match r.1 {
            Some(v) => Some(v@),
            None => None,
        }) == first_item(boxes_view(boxes@)[k as int]),
        r.2 == boxes_view(boxes@)[k as int].refused,
        sorted(boxes_view(r.0@)),
        r.3 == item_count(boxes_view(r.0@)),
        r.3 <= held,
        r.4 == empty_count(boxes_view(r.0@)),
        r.5 == quiet_count(boxes_view(r.0@)),
{
    let ghost s0 = boxes_view(boxes@);
    let ghost v0 = boxes@;
    let mut boxes = boxes;
    let (e0, q0) = box_flags(&boxes[k]);
    if mark {
        boxes[k].drained_to = counter;
    }
    let item = if boxes[k].items.len() > 0 {
        Some(boxes[k].items.remove(0))
    } else {
        None
    };
    let refused = boxes[k].refused;
    let (e1, q1) = box_flags(&boxes[k]);
    let ghost nb = boxes@[k as int];
    let ghost ob = s0[k as int];
    assert(boxes@ =~= v0.update(k as int, nb));
    assert(nb.tag == v0[k as int].tag);
    proof {
        lemma_view_update(v0, k as int, nb);
        if ob.items.len() > 0 {
            assert(nb.view().items =~= ob.items.drop_first());
        }
        assert(nb.view() == pop_first(marked(ob, mark, counter)));
        let s1 = boxes_view(boxes@);
        assert(s1.len() == boxes@.len());
        lemma_count_update(s0, |b: BoxView| is_empty_box(b), k as int, nb.view());
        lemma_count_update(s0, |b: BoxView| !reports(b), k as int, nb.view());
        lemma_item_count_update(s0, k as int, nb.view());
        lemma_count_bound(s1, |b: BoxView| is_empty_box(b));
        lemma_count_bound(s1, |b: BoxView| !reports(b));
        lemma_sorted_update_same_tag(s0, k as int, nb.view());
    }
    let len = boxes.len();
    let held = if item.is_some() {
        held - 1
    } else {
        held
    };
    let empties = if e0 && !e1 {
        empties - 1
    } else if !e0 && e1 {
        empties + 1
    } else {
        empties
    };
    let quiet = if q0 && !q1 {
        quiet - 1
    } else if !q0 && q1 {
        quiet + 1
    } else {
        quiet
    };
    (boxes, item, refused, held, empties, quiet)
}

proof fn lemma_sorted_update_same_tag(s: Seq<BoxView>, k: int, b: BoxView)
    requires
        sorted(s),
        0 <= k < s.len(),
        b.tag == s[k].tag,
    ensures
        sorted(s.update(k, b)),
{
    let t = s.update(k, b);
    assert forall|i: int, j: int| 0 <= i < j < t.len() implies lex_lt(t[i].tag, t[j].tag) by {
        assert(t[i].tag == s[i].tag && t[j].tag == s[j].tag);
    }
}

impl Provider {
    /// Take one item from the box filed under `tag`, leaving the box and its refusal count in
    /// place; an unknown tag gives nothing and a zero count.
    pub fn take_one(&mut self, tag: &Tag) -> (r: (Option<Vec<u8>>, u64))
        ensures
            (final(self)@, (match r.0 {
                Some(v) => Some(v@),
                None => None,
            }, r.1)) == take_one_spec(old(self)@, tag@),
    {
        proof {
            use_type_invariant(&*self);
        }
        let ghost s0 = boxes_view(self.boxes@);
        let (found, k) = locate(&self.boxes, tag);
        if !found {
            proof {
                lemma_locate_absent(s0, tag@, k as int);
            }
            return (None, 0);
        }
        proof {
            lemma_sorted_find(s0, k as int);
        }
        let mut p = Provider::with_limits(self.per_box, self.total);
        std::mem::swap(self, &mut p);
        let Provider { boxes, per_box, total, held, next_seq, forgotten, empties, quiet } = p;
        let (boxes, item, refused, held, empties, quiet) = pop_box(
            boxes,
            k,
            held,
            empties,
            quiet,
            false,
            0,
        );
        proof {
            lemma_update_fits(s0, k as int, pop_first(marked(s0[k as int], false, 0)), per_box as nat);
            lemma_prune_fits(boxes_view(boxes@), per_box as nat);
            lemma_pop_sized(s0[k as int], false, 0);
            lemma_update_sized(s0, k as int, pop_first(marked(s0[k as int], false, 0)));
            lemma_prune_sized(boxes_view(boxes@));
        }
        let (boxes, empties, n) = prune_exec(boxes, quiet, empties);
        *self = Provider {
            boxes,
            per_box,
            total,
            held,
            next_seq,
            forgotten: forgotten.saturating_add(n),
            empties,
            quiet: 0,
        };
        (item, refused)
    }

    /// Take one item on the owner's authority: `drain_public` must hash to `tag`, and
    /// `signature_verified` says whether the signature presented over `drain_challenge(counter)`
    /// verified under `drain_public`. The counter must exceed every counter already accepted
    /// for this box, so a captured request does not work twice.
    pub fn drain_once(
        &mut self,
        tag: &Tag,
        drain_public: &[u8; 32],
        counter: u64,
        signature_verified: bool,
    ) -> (r: Result<(Option<Vec<u8>>, u64), DrainError>)
        ensures
            valid(old(self)@),
            valid(final(self)@),
            tag@ != mailbox_tag_of(drain_public@) || !signature_verified ==> final(self)@
                == old(self)@ && r == Err::<(Option<Vec<u8>>, u64), DrainError>(
                DrainError::NotYours,
            ),
            tag@ == mailbox_tag_of(drain_public@) && signature_verified ==> (final(self)@, match r {
                Ok((item, refused)) => Ok(
                    (
                        match item {
                            Some(v) => Some(v@),
                            None => None,
                        },
                        refused,
                    ),
                ),
                Err(e) => Err(e),
            }) == drain_spec(old(self)@, tag@, counter),
    {
        proof {
            use_type_invariant(&*self);
        }
        let expected = mailbox_tag(drain_public);
        if !bytes_equal(tag, &expected) {
            return Err(DrainError::NotYours);
        }
        if !signature_verified {
            return Err(DrainError::NotYours);
        }
        self.drain_authorised(tag, counter)
    }

    /// Take one item once the asker has been shown to hold the drain key for `tag`.
    pub fn drain_authorised(&mut self, tag: &Tag, counter: u64) -> (r: Result<
        (Option<Vec<u8>>, u64),
        DrainError,
    >)
        ensures
            (final(self)@, match r {
                Ok((item, refused)) => Ok(
                    (
                        match item {
                            Some(v) => Some(v@),
                            None => None,
                        },
                        refused,
                    ),
                ),
                Err(e) => Err(e),
            }) == drain_spec(old(self)@, tag@, counter),
            valid(old(self)@),
            valid(final(self)@),
    {
        proof {
            use_type_invariant(&*self);
        }
        let mut p = Provider::with_limits(self.per_box, self.total);
        std::mem::swap(self, &mut p);
        let Provider { boxes, per_box, total, held, next_seq, forgotten, empties, quiet } = p;
        let ghost s0 = boxes_view(boxes@);
        let (k, boxes, next_seq, empties, quiet) = ensure_box(
            boxes,
            tag,
            next_seq,
            empties,
            quiet,
        );
        let ghost s1 = boxes_view(boxes@);
        proof {
            lemma_with_box_fits(s0, tag@, old(self)@.next_seq, per_box as nat);
            lemma_with_box_sized(s0, tag@, old(self)@.next_seq);
        }
        if counter <= boxes[k].drained_to {
            *self = Provider { boxes, per_box, total, held, next_seq, forgotten, empties, quiet };
            return Err(DrainError::Replayed);
        }
        let (boxes, item, refused, held, empties, quiet) = pop_box(
            boxes,
            k,
            held,
            empties,
            quiet,
            true,
            counter,
        );
        proof {
            lemma_update_fits(s1, k as int, pop_first(marked(s1[k as int], true, counter)), per_box as nat);
            lemma_prune_fits(boxes_view(boxes@), per_box as nat);
            lemma_pop_sized(s1[k as int], true, counter);
            lemma_update_sized(s1, k as int, pop_first(marked(s1[k as int], true, counter)));
            lemma_prune_sized(boxes_view(boxes@));
        }
        let (boxes, empties, n) = prune_exec(boxes, quiet, empties);
        *self = Provider {
            boxes,
            per_box,
            total,
            held,
            next_seq,
            forgotten: forgotten.saturating_add(n),
            empties,
            quiet: 0,
        };
        Ok((item, refused))
    }
}

/// Whether a box is empty, and whether it has nothing to report.
fn box_flags(b: &MailBox) -> (r: (bool, bool))
    ensures
        r.0 == is_empty_box(b.view()),
        r.1 == !reports(b.view()),
{
    (b.items.len() == 0, !(b.items.len() > 0 || b.refused > 0 || b.drained_to > 0))
}


proof fn lemma_sorted_rank(s: Seq<BoxView>, k: int)
    requires
        sorted(s),
        0 <= k < s.len(),
    ensures
        rank(s, s[k].tag) == k,
{
    let t = s[k].tag;
    assert forall|i: int| k <= i < s.len() implies !lex_lt((#[trigger] s[i]).tag, t) by {
        if i == k {
            lemma_lex_irreflexive(t);
        } else {
            lemma_lex_asymmetric(t, s[i].tag);
        }
    }
    lemma_rank_split(s, t, k);
}

proof fn lemma_view_insert(v: Seq<MailBox>, k: int, b: MailBox)
    requires
        0 <= k <= v.len(),
    ensures
        boxes_view(v.insert(k, b)) == boxes_view(v).insert(k, b.view()),
{
    assert(boxes_view(v.insert(k, b)) =~= boxes_view(v).insert(k, b.view()));
}

proof fn lemma_view_update(v: Seq<MailBox>, k: int, b: MailBox)
    requires
        0 <= k < v.len(),
    ensures
        boxes_view(v.update(k, b)) == boxes_view(v).update(k, b.view()),
{
    assert(boxes_view(v.update(k, b)) =~= boxes_view(v).update(k, b.view()));
}

/// The tag and the sealed part of a deposit.
fn split_payload(payload: &[u8]) -> (r: (Tag, Vec<u8>))
    requires
        payload@.len() == MAILBOX_BYTES + ENVELOPE_BYTES,
    ensures
        r.0@ == payload@.take(MAILBOX_BYTES as int),
        r.1@ == payload@.skip(MAILBOX_BYTES as int),
{
    let mut tag = [0u8; 32];
    let mut i: usize = 0;
    while i < 32
        invariant
            payload@.len() == MAILBOX_BYTES + ENVELOPE_BYTES,
            i <= 32,
            forall|j: int| 0 <= j < i ==> tag@[j] == payload@[j],
        decreases 32 - i,
    {
        tag[i] = payload[i];
        i = i + 1;
    }
    let mut rest: Vec<u8> = Vec::new();
    let mut j: usize = 32;
    while j < payload.len()
        invariant
            payload@.len() == MAILBOX_BYTES + ENVELOPE_BYTES,
            32 <= j <= payload@.len(),
            rest@ == payload@.subrange(32, j as int),
        decreases payload@.len() - j,
    {
        rest.push(payload[j]);
        j = j + 1;
        assert(rest@ =~= payload@.subrange(32, j as int));
    }
    assert(tag@ =~= payload@.take(32));
    assert(rest@ =~= payload@.skip(32));
    (tag, rest)
}

/// Makes sure a box for `tag` exists: where it is, the boxes, the next creation number and the
/// empty and quiet counts afterwards.
fn ensure_box(boxes: Vec<MailBox>, tag: &Tag, next_seq: u64, empties: usize, quiet: usize) -> (r: (
    usize,
    Vec<MailBox>,
    u64,
    usize,
    usize,
))
    requires
        sorted(boxes_view(boxes@)),
        empties == empty_count(boxes_view(boxes@)),
        quiet == quiet_count(boxes_view(boxes@)),
    ensures
        boxes_view(r.1@) == with_box(boxes_view(boxes@), tag@, next_seq),
        r.0 < r.1@.len(),
        r.0 == rank(boxes_view(r.1@), tag@),
        boxes_view(r.1@)[r.0 as int].tag == tag@,
        r.2 == seq_after(boxes_view(boxes@), tag@, next_seq),
        sorted(boxes_view(r.1@)),
        r.3 == empty_count(boxes_view(r.1@)),
        r.4 == quiet_count(boxes_view(r.1@)),
        item_count(boxes_view(r.1@)) == item_count(boxes_view(boxes@)),
{
    let ghost s0 = boxes_view(boxes@);
    let (found, k) = locate(&boxes, tag);
    if found {
        proof {
            lemma_sorted_find(s0, k as int);
            lemma_sorted_rank(s0, k as int);
        }
        return (k, boxes, next_seq, empties, quiet);
    }
    proof {
        lemma_locate_absent(s0, tag@, k as int);
        lemma_count_bound(s0, |b: BoxView| is_empty_box(b));
        lemma_count_bound(s0, |b: BoxView| !reports(b));
    }
    let mut boxes = boxes;
    let nb = MailBox { tag: *tag, items: Vec::new(), refused: 0, seq: next_seq, drained_to: 0 };
    let ghost before = boxes@;
    boxes.insert(k, nb);
    proof {
        lemma_view_insert(before, k as int, nb);
        assert(nb.view().items =~= Seq::<Seq<u8>>::empty());
        let s1 = boxes_view(boxes@);
        lemma_sorted_insert(s0, k as int, nb.view());
        lemma_sorted_rank(s1, k as int);
        lemma_count_insert(s0, |b: BoxView| is_empty_box(b), k as int, nb.view());
        lemma_count_insert(s0, |b: BoxView| !reports(b), k as int, nb.view());
        lemma_item_count_insert(s0, k as int, nb.view());
        lemma_count_bound(s1, |b: BoxView| is_empty_box(b));
        lemma_count_bound(s1, |b: BoxView| !reports(b));
        assert(s1.len() == boxes@.len());
    }
    let len = boxes.len();
    assert(empties + 1 <= len && quiet + 1 <= len);
    let ns = if next_seq == u64::MAX {
        next_seq
    } else {
        next_seq + 1
    };
    (k, boxes, ns, empties + 1, quiet + 1)
}


proof fn lemma_with_box_fits(s: Seq<BoxView>, t: Seq<u8>, seq: u64, m: nat)
    requires
        fits(s, m),
    ensures
        fits(with_box(s, t, seq), m),
{
    if find(s, t) is None {
        let r = with_box(s, t, seq);
        let k = rank(s, t);
        lemma_rank_bounds(s, t);
        assert forall|i: int| 0 <= i < r.len() implies (#[trigger] r[i]).items.len() <= m by {
            if 0 <= k <= s.len() {
                if i < k {
                    assert(r[i] == s[i]);
                } else if i > k {
                    assert(r[i] == s[i - 1]);
                }
            }
        }
    }
}

proof fn lemma_rank_bounds(s: Seq<BoxView>, t: Seq<u8>)
    ensures
        0 <= rank(s, t) <= s.len(),
    decreases s.len(),
{
    if s.len() > 0 {
        lemma_rank_bounds(s.drop_last(), t);
    }
}

proof fn lemma_update_fits(s: Seq<BoxView>, k: int, b: BoxView, m: nat)
    requires
        fits(s, m),
        0 <= k < s.len(),
        b.items.len() <= m,
    ensures
        fits(s.update(k, b), m),
{
    let r = s.update(k, b);
    assert forall|i: int| 0 <= i < r.len() implies (#[trigger] r[i]).items.len() <= m by {
        if i != k {
            assert(r[i] == s[i]);
        }
    }
}

proof fn lemma_remove_fits(s: Seq<BoxView>, k: int, m: nat)
    requires
        fits(s, m),
        0 <= k < s.len(),
    ensures
        fits(s.remove(k), m),
{
    let r = s.remove(k);
    assert forall|i: int| 0 <= i < r.len() implies (#[trigger] r[i]).items.len() <= m by {
        if i < k {
            assert(r[i] == s[i]);
        } else {
            assert(r[i] == s[i + 1]);
        }
    }
}

/// Every box eviction leaves was there before it.
proof fn lemma_evict_sub(s: Seq<BoxView>)
    ensures
        forall|j: int|
            0 <= j < evict(s).0.len() ==> exists|k: int|
                0 <= k < s.len() && s[k] == #[trigger] evict(s).0[j],
        evict(s).0.len() + evict(s).1 == s.len(),
    decreases s.len(),
{
    reveal(evict);
    let i = oldest_empty(s);
    if empty_count(s) > MAX_REFUSAL_MEMORY && 0 <= i < s.len() {
        let r = s.remove(i);
        lemma_evict_sub(r);
        assert forall|j: int| 0 <= j < evict(s).0.len() implies exists|k: int|
            0 <= k < s.len() && s[k] == #[trigger] evict(s).0[j] by {
            let k = choose|k: int| 0 <= k < r.len() && r[k] == evict(r).0[j];
            if k < i {
                assert(s[k] == r[k]);
            } else {
                assert(s[k + 1] == r[k]);
            }
        }
    }
}

/// Every box pruning leaves was there before it.
proof fn lemma_prune_sub(s: Seq<BoxView>)
    ensures
        forall|j: int|
            0 <= j < prune(s).0.len() ==> exists|k: int|
                0 <= k < s.len() && s[k] == #[trigger] prune(s).0[j],
{
    let k = keep_reporting(s);
    lemma_keep_sub(s);
    lemma_evict_sub(k);
    assert forall|j: int| 0 <= j < prune(s).0.len() implies exists|m: int|
        0 <= m < s.len() && s[m] == #[trigger] prune(s).0[j] by {
        let a = choose|a: int| 0 <= a < k.len() && k[a] == evict(k).0[j];
        let m = choose|m: int| 0 <= m < s.len() && s[m] == k[a];
    }
}

proof fn lemma_prune_fits(s: Seq<BoxView>, m: nat)
    requires
        fits(s, m),
    ensures
        fits(prune(s).0, m),
{
    lemma_prune_sub(s);
    let r = prune(s).0;
    assert forall|i: int| 0 <= i < r.len() implies (#[trigger] r[i]).items.len() <= m by {
        let k = choose|k: int| 0 <= k < s.len() && s[k] == r[i];
    }
}


proof fn lemma_with_box_sized(s: Seq<BoxView>, t: Seq<u8>, seq: u64)
    requires
        sized(s),
    ensures
        sized(with_box(s, t, seq)),
{
    if find(s, t) is None {
        let r = with_box(s, t, seq);
        let k = rank(s, t);
        lemma_rank_bounds(s, t);
        assert forall|i: int| 0 <= i < r.len() implies box_sized(#[trigger] r[i]) by {
            if i < k {
                assert(r[i] == s[i]);
            } else if i > k {
                assert(r[i] == s[i - 1]);
            }
        }
    }
}

proof fn lemma_update_sized(s: Seq<BoxView>, k: int, b: BoxView)
    requires
        sized(s),
        0 <= k < s.len(),
        box_sized(b),
    ensures
        sized(s.update(k, b)),
{
    let r = s.update(k, b);
    assert forall|i: int| 0 <= i < r.len() implies box_sized(#[trigger] r[i]) by {
        if i != k {
            assert(r[i] == s[i]);
        }
    }
}

proof fn lemma_remove_sized(s: Seq<BoxView>, k: int)
    requires
        sized(s),
        0 <= k < s.len(),
    ensures
        sized(s.remove(k)),
{
    let r = s.remove(k);
    assert forall|i: int| 0 <= i < r.len() implies box_sized(#[trigger] r[i]) by {
        if i < k {
            assert(r[i] == s[i]);
        } else {
            assert(r[i] == s[i + 1]);
        }
    }
}

proof fn lemma_prune_sized(s: Seq<BoxView>)
    requires
        sized(s),
    ensures
        sized(prune(s).0),
{
    lemma_prune_sub(s);
    let r = prune(s).0;
    assert forall|i: int| 0 <= i < r.len() implies box_sized(#[trigger] r[i]) by {
        let k = choose|k: int| 0 <= k < s.len() && s[k] == r[i];
    }
}

/// Taking the first item, with or without moving the drain counter, keeps a box's items one
/// envelope wide.
proof fn lemma_pop_sized(b: BoxView, mark: bool, counter: u64)
    requires
        box_sized(b),
    ensures
        box_sized(pop_first(marked(b, mark, counter))),
        first_item(b) matches Some(x) ==> x.len() == ENVELOPE_BYTES,
{
    let m = marked(b, mark, counter);
    if m.items.len() > 0 {
        assert forall|j: int| 0 <= j < m.items.drop_first().len() implies (
        #[trigger] m.items.drop_first()[j]).len() == ENVELOPE_BYTES by {
            assert(m.items.drop_first()[j] == m.items[j + 1]);
        }
    }
    if b.items.len() > 0 {
        assert(b.items[0].len() == ENVELOPE_BYTES);
    }
}


/// Sorted boxes with an empty one have an oldest empty one.
proof fn lemma_oldest_exists(s: Seq<BoxView>)
    requires
        sorted(s),
        empty_count(s) > 0,
    ensures
        0 <= oldest_empty(s) < s.len(),
        is_empty_box(s[oldest_empty(s)]),
        forall|j: int|
            0 <= j < s.len() && is_empty_box(#[trigger] s[j]) && j != oldest_empty(s) ==> older(
                s[oldest_empty(s)],
                s[j],
            ),
{
    lemma_empty_count_witness(s);
    let w = lemma_oldest_witness(s, s.len() as int);
    assert(0 <= w < s.len() && s[w].items.len() == 0 && (forall|j: int|
        0 <= j < s.len() && s[j].items.len() == 0 && j != w ==> older(s[w], s[j])));
}

/// The oldest empty box among the first `n`, when there is one.
proof fn lemma_oldest_witness(s: Seq<BoxView>, n: int) -> (w: int)
    requires
        sorted(s),
        0 <= n <= s.len(),
        exists|i: int| 0 <= i < n && is_empty_box(#[trigger] s[i]),
    ensures
        0 <= w < n,
        is_empty_box(s[w]),
        forall|j: int| 0 <= j < n && is_empty_box(#[trigger] s[j]) && j != w ==> older(s[w], s[j]),
    decreases n,
{
    if exists|i: int| 0 <= i < n - 1 && is_empty_box(#[trigger] s[i]) {
        let w0 = lemma_oldest_witness(s, n - 1);
        if is_empty_box(s[n - 1]) && older(s[n - 1], s[w0]) {
            assert forall|j: int|
                0 <= j < n && is_empty_box(#[trigger] s[j]) && j != n - 1 implies older(
                s[n - 1],
                s[j],
            ) by {
                if j != w0 {
                    assert(older(s[w0], s[j]));
                    if s[n - 1].seq == s[w0].seq && s[w0].seq == s[j].seq {
                        lemma_lex_transitive(s[n - 1].tag, s[w0].tag, s[j].tag);
                    }
                }
            }
            n - 1
        } else {
            if is_empty_box(s[n - 1]) {
                assert(lex_lt(s[w0].tag, s[n - 1].tag));
                if s[w0].seq == s[n - 1].seq {
                } else {
                }
            }
            w0
        }
    } else {
        n - 1
    }
}

proof fn lemma_empty_count_witness(s: Seq<BoxView>)
    requires
        empty_count(s) > 0,
    ensures
        exists|i: int| 0 <= i < s.len() && is_empty_box(#[trigger] s[i]),
{
    lemma_count_bound(s, |b: BoxView| is_empty_box(b));
}


/// Eviction keeps the boxes sorted, keeps every box holding mail, and leaves no more than
/// `MAX_REFUSAL_MEMORY` empty ones.
#[verifier::spinoff_prover]
#[verifier::rlimit(40)]
proof fn lemma_evict_props(s: Seq<BoxView>)
    requires
        sorted(s),
    ensures
        sorted(evict(s).0),
        empty_count(evict(s).0) <= MAX_REFUSAL_MEMORY,
        forall|i: int|
            0 <= i < s.len() && !is_empty_box(#[trigger] s[i]) ==> exists|j: int|
                0 <= j < evict(s).0.len() && evict(s).0[j] == s[i],
    decreases s.len(),
{
    reveal(evict);
    let i = oldest_empty(s);
    if empty_count(s) > MAX_REFUSAL_MEMORY {
        lemma_oldest_exists(s);
        let r = s.remove(i);
        lemma_sorted_remove(s, i);
        lemma_evict_props(r);
        assert(evict(s).0 == evict(r).0);
        assert forall|m: int|
            0 <= m < s.len() && !is_empty_box(#[trigger] s[m]) implies exists|j: int|
            0 <= j < evict(s).0.len() && evict(s).0[j] == s[m] by {
            let mm = if m < i {
                m
            } else {
                m - 1
            };
            assert(m != i);
            assert(r[mm] == s[m]);
            assert(!is_empty_box(r[mm]));
        }
    }
}


/// Where an absent tag would go in sorted boxes.
proof fn lemma_rank_facts(s: Seq<BoxView>, t: Seq<u8>)
    requires
        sorted(s),
        t.len() == 32,
        find(s, t) is None,
    ensures
        0 <= rank(s, t) <= s.len(),
        forall|i: int| 0 <= i < rank(s, t) ==> lex_lt((#[trigger] s[i]).tag, t),
        forall|i: int| rank(s, t) <= i < s.len() ==> lex_lt(t, (#[trigger] s[i]).tag),
    decreases s.len(),
{
    if s.len() > 0 {
        let p = s.drop_last();
        assert(sorted(p)) by {
            assert forall|i: int| 0 <= i < p.len() implies (#[trigger] p[i]).tag.len() == 32 by {
                assert(p[i] == s[i]);
            }
            assert forall|i: int, j: int| 0 <= i < j < p.len() implies lex_lt(p[i].tag, p[j].tag) by {
                assert(p[i] == s[i] && p[j] == s[j]);
            }
        }
        assert(find(p, t) is None) by {
            assert forall|i: int| 0 <= i < p.len() implies (#[trigger] p[i]).tag != t by {
                assert(p[i] == s[i]);
            }
        }
        lemma_rank_facts(p, t);
        let last = s[s.len() - 1];
        assert(last.tag != t);
        lemma_lex_total(last.tag, t);
        if lex_lt(last.tag, t) {
            assert forall|i: int| 0 <= i < rank(s, t) implies lex_lt((#[trigger] s[i]).tag, t) by {
                if i < s.len() - 1 {
                    lemma_lex_transitive(s[i].tag, last.tag, t);
                }
            }
            assert forall|i: int| 0 <= i < p.len() implies lex_lt((#[trigger] p[i]).tag, t) by {
                assert(p[i] == s[i]);
                lemma_lex_transitive(s[i].tag, last.tag, t);
            }
            lemma_rank_split(p, t, p.len() as int);
        } else {
            assert forall|i: int| 0 <= i < rank(s, t) implies lex_lt((#[trigger] s[i]).tag, t) by {
                assert(s[i] == p[i]);
            }
            assert forall|i: int| rank(s, t) <= i < s.len() implies lex_lt(t, (#[trigger] s[i]).tag) by {
                if i < s.len() - 1 {
                    assert(s[i] == p[i]);
                }
            }
        }
    }
}

/// A box for `t` is where `rank` says, and the boxes stay sorted.
proof fn lemma_with_box_props(s: Seq<BoxView>, t: Seq<u8>, seq: u64)
    requires
        sorted(s),
        t.len() == 32,
    ensures
        sorted(with_box(s, t, seq)),
        0 <= rank(with_box(s, t, seq), t) < with_box(s, t, seq).len(),
        with_box(s, t, seq)[rank(with_box(s, t, seq), t)].tag == t,
        find(with_box(s, t, seq), t) == Some(rank(with_box(s, t, seq), t)),
        find(s, t) is Some ==> with_box(s, t, seq) == s && find(s, t) == Some(rank(s, t)),
        find(s, t) is None ==> with_box(s, t, seq)[rank(with_box(s, t, seq), t)] == (BoxView {
            tag: t,
            items: Seq::empty(),
            refused: 0,
            seq,
            drained_to: 0,
        }),
        find(s, t) is None ==> with_box(s, t, seq).len() == s.len() + 1,
{
    if find(s, t) is Some {
        let j = choose|i: int| 0 <= i < s.len() && (#[trigger] s[i]).tag == t;
        lemma_sorted_find(s, j);
        lemma_sorted_rank(s, j);
    } else {
        lemma_rank_facts(s, t);
        let k = rank(s, t);
        let nb = BoxView { tag: t, items: Seq::empty(), refused: 0, seq, drained_to: 0 };
        lemma_sorted_insert(s, k, nb);
        let w = s.insert(k, nb);
        lemma_sorted_rank(w, k);
        lemma_sorted_find(w, k);
    }
}

/// Eviction from boxes that all report keeps that so, and keeps the item count.
proof fn lemma_evict_counts(s: Seq<BoxView>)
    requires
        sorted(s),
        quiet_count(s) == 0,
    ensures
        quiet_count(evict(s).0) == 0,
        item_count(evict(s).0) == item_count(s),
    decreases s.len(),
{
    reveal(evict);
    let i = oldest_empty(s);
    if empty_count(s) > MAX_REFUSAL_MEMORY {
        lemma_oldest_exists(s);
        lemma_evict_step(s, i);
        lemma_evict_counts(s.remove(i));
    }
}

/// What pruning leaves: sorted boxes that all report, every box that held mail, the same
/// items, and no more than `MAX_REFUSAL_MEMORY` empty boxes.
proof fn lemma_prune_props(s: Seq<BoxView>)
    requires
        sorted(s),
    ensures
        sorted(prune(s).0),
        empty_count(prune(s).0) <= MAX_REFUSAL_MEMORY,
        quiet_count(prune(s).0) == 0,
        item_count(prune(s).0) == item_count(s),
        forall|i: int|
            0 <= i < s.len() && !is_empty_box(#[trigger] s[i]) ==> exists|j: int|
                0 <= j < prune(s).0.len() && prune(s).0[j] == s[i],
        forall|j: int|
            0 <= j < prune(s).0.len() ==> exists|k: int|
                0 <= k < s.len() && s[k] == #[trigger] prune(s).0[j],
{
    let k = keep_reporting(s);
    lemma_keep_sorted(s);
    lemma_keep_counts(s);
    lemma_evict_props(k);
    lemma_evict_counts(k);
    lemma_prune_sub(s);
    assert forall|i: int|
        0 <= i < s.len() && !is_empty_box(#[trigger] s[i]) implies exists|j: int|
        0 <= j < prune(s).0.len() && prune(s).0[j] == s[i] by {
        lemma_keep_has(s, i);
        let a = choose|a: int| 0 <= a < k.len() && k[a] == s[i];
        assert(!is_empty_box(k[a]));
    }
}

/// Every box that reports survives `keep_reporting`.
proof fn lemma_keep_has(s: Seq<BoxView>, i: int)
    requires
        0 <= i < s.len(),
        reports(s[i]),
    ensures
        exists|a: int| 0 <= a < keep_reporting(s).len() && keep_reporting(s)[a] == s[i],
    decreases s.len(),
{
    let p = s.drop_last();
    if i == s.len() - 1 {
        assert(keep_reporting(s) == keep_reporting(p).push(s.last()));
        let a = keep_reporting(p).len() as int;
        assert(keep_reporting(s)[a] == s[i]);
    } else {
        assert(p[i] == s[i]);
        lemma_keep_has(p, i);
        let a = choose|a: int| 0 <= a < keep_reporting(p).len() && keep_reporting(p)[a] == p[i];
        if reports(s.last()) {
            assert(keep_reporting(s) == keep_reporting(p).push(s.last()));
            assert(keep_reporting(s)[a] == keep_reporting(p)[a]);
        } else {
            assert(keep_reporting(s) == keep_reporting(p));
        }
    }
}


proof fn lemma_unique_tag(s: Seq<BoxView>, i: int, j: int)
    requires
        sorted(s),
        0 <= i < s.len(),
        0 <= j < s.len(),
        s[i].tag == s[j].tag,
    ensures
        i == j,
{
    if i < j {
        lemma_lex_irreflexive(s[i].tag);
    }
    if j < i {
        lemma_lex_irreflexive(s[i].tag);
    }
}

proof fn lemma_find_some(s: Seq<BoxView>, t: Seq<u8>)
    requires
        find(s, t) is Some,
    ensures
        0 <= find(s, t)->0 < s.len(),
        s[find(s, t)->0].tag == t,
{
}

proof fn lemma_with_box_items(s: Seq<BoxView>, t: Seq<u8>, seq: u64)
    requires
        sorted(s),
        t.len() == 32,
    ensures
        item_count(with_box(s, t, seq)) == item_count(s),
{
    if find(s, t) is None {
        lemma_rank_facts(s, t);
        lemma_item_count_insert(
            s,
            rank(s, t),
            BoxView { tag: t, items: Seq::empty(), refused: 0, seq, drained_to: 0 },
        );
    }
}

proof fn lemma_keep_len_exact(s: Seq<BoxView>)
    ensures
        keep_reporting(s).len() + quiet_count(s) == s.len(),
    decreases s.len(),
{
    if s.len() > 0 {
        lemma_keep_len_exact(s.drop_last());
    }
}

/// What holds of every provider: boxes sorted by tag, none holding more than `per_box` items,
/// every item one envelope wide, and no more than `total` items in all.
pub open spec fn valid(p: ProviderView) -> bool {
    &&& sorted(p.boxes)
    &&& fits(p.boxes, p.per_box as nat)
    &&& sized(p.boxes)
    &&& item_count(p.boxes) <= p.total
}

/// A fresh provider is valid.
pub proof fn law_a_new_provider_is_valid(per_box: usize, total: usize)
    ensures
        valid(
            ProviderView {
                boxes: Seq::empty(),
                per_box,
                total,
                next_seq: 0,
                forgotten: 0,
            },
        ),
{
}

/// Every operation keeps a provider valid: no box ever holds more than `per_box` items and
/// the provider never more than `total`, so one box cannot exhaust the provider, and every
/// item stays one envelope wide.
#[verifier::spinoff_prover]
#[verifier::rlimit(60)]
pub proof fn law_operations_keep_the_limits(
    p: ProviderView,
    payload: Seq<u8>,
    t: Seq<u8>,
    counter: u64,
)
    requires
        valid(p),
        t.len() == 32,
    ensures
        valid(deposit_spec(p, payload).0),
        valid(collect_spec(p, t).0),
        valid(take_one_spec(p, t).0),
        valid(drain_spec(p, t, counter).0),
{
    let m = p.per_box as nat;
    // deposit
    if payload.len() == MAILBOX_BYTES + ENVELOPE_BYTES && item_count(p.boxes) < p.total {
        let u = payload.take(MAILBOX_BYTES as int);
        let s = with_box(p.boxes, u, p.next_seq);
        let i = rank(s, u);
        let b = s[i];
        lemma_with_box_props(p.boxes, u, p.next_seq);
        lemma_with_box_fits(p.boxes, u, p.next_seq, m);
        lemma_with_box_sized(p.boxes, u, p.next_seq);
        lemma_with_box_items(p.boxes, u, p.next_seq);
        let nb = if b.items.len() >= p.per_box {
            BoxView { refused: sat_inc(b.refused), ..b }
        } else {
            BoxView { items: b.items.push(payload.skip(MAILBOX_BYTES as int)), ..b }
        };
        lemma_sorted_update_same_tag(s, i, nb);
        lemma_update_fits(s, i, nb, m);
        lemma_item_count_update(s, i, nb);
        assert(box_sized(b));
        assert(box_sized(nb)) by {
            if b.items.len() < p.per_box {
                assert forall|j: int| 0 <= j < nb.items.len() implies (#[trigger] nb.items[j]).len()
                    == ENVELOPE_BYTES by {
                    if j < b.items.len() {
                        assert(nb.items[j] == b.items[j]);
                    }
                }
            }
        }
        lemma_update_sized(s, i, nb);
    }
    // collect
    if find(p.boxes, t) is Some {
        let i = find(p.boxes, t)->0;
        lemma_find_some(p.boxes, t);
        lemma_sorted_remove(p.boxes, i);
        lemma_remove_fits(p.boxes, i, m);
        lemma_remove_sized(p.boxes, i);
        lemma_item_count_remove(p.boxes, i);
        // take_one
        let b = p.boxes[i];
        let s1 = p.boxes.update(i, pop_first(b));
        lemma_sorted_update_same_tag(p.boxes, i, pop_first(b));
        lemma_update_fits(p.boxes, i, pop_first(b), m);
        lemma_item_count_update(p.boxes, i, pop_first(b));
        lemma_prune_props(s1);
        lemma_prune_fits(s1, m);
        lemma_pop_sized(b, false, 0);
        lemma_update_sized(p.boxes, i, pop_first(b));
        lemma_prune_sized(s1);
    }
    // drain
    let s = with_box(p.boxes, t, p.next_seq);
    let i = rank(s, t);
    let b = s[i];
    lemma_with_box_props(p.boxes, t, p.next_seq);
    lemma_with_box_fits(p.boxes, t, p.next_seq, m);
    lemma_with_box_sized(p.boxes, t, p.next_seq);
    lemma_with_box_items(p.boxes, t, p.next_seq);
    let nb = pop_first(marked(b, true, counter));
    lemma_sorted_update_same_tag(s, i, nb);
    lemma_update_fits(s, i, nb, m);
    lemma_item_count_update(s, i, nb);
    lemma_prune_props(s.update(i, nb));
    lemma_prune_fits(s.update(i, nb), m);
    lemma_pop_sized(b, true, counter);
    lemma_update_sized(s, i, nb);
    lemma_prune_sized(s.update(i, nb));
}

/// What a provider serves is one envelope wide: an item read, taken or drained is never
/// shorter or longer than any other, so its width says nothing about which box it came from.
pub proof fn law_what_is_served_is_one_envelope_wide(p: ProviderView, t: Seq<u8>, index: int, counter: u64)
    requires
        valid(p),
        t.len() == 32,
    ensures
        peek_spec(p, t, index).0 matches Some(x) ==> x.len() == ENVELOPE_BYTES,
        take_one_spec(p, t).1.0 matches Some(x) ==> x.len() == ENVELOPE_BYTES,
        drain_spec(p, t, counter).1 matches Ok((Some(x), _)) ==> x.len() == ENVELOPE_BYTES,
{
    if find(p.boxes, t) is Some {
        let i = find(p.boxes, t)->0;
        lemma_find_some(p.boxes, t);
        assert(box_sized(p.boxes[i]));
        lemma_pop_sized(p.boxes[i], false, 0);
    }
    let s = with_box(p.boxes, t, p.next_seq);
    lemma_with_box_sized(p.boxes, t, p.next_seq);
    lemma_with_box_props(p.boxes, t, p.next_seq);
    let i = rank(s, t);
    assert(box_sized(s[i]));
    lemma_pop_sized(s[i], true, counter);
}

/// Collecting empties the box: a second collection of the same tag hands over nothing and
/// reports nothing.
pub proof fn law_collection_empties_the_box(p: ProviderView, t: Seq<u8>)
    requires
        valid(p),
    ensures
        collect_spec(collect_spec(p, t).0, t) == (collect_spec(p, t).0, (Seq::<Seq<u8>>::empty(), 0u64)),
{
    if find(p.boxes, t) is Some {
        let i = find(p.boxes, t)->0;
        lemma_find_some(p.boxes, t);
        let r = p.boxes.remove(i);
        assert forall|j: int| 0 <= j < r.len() implies (#[trigger] r[j]).tag != t by {
            let jj = if j < i {
                j
            } else {
                j + 1
            };
            assert(r[j] == p.boxes[jj]);
            if p.boxes[jj].tag == t {
                lemma_unique_tag(p.boxes, i, jj);
            }
        }
    }
}

/// An unknown tag reads exactly like an empty box: nothing to collect, take or peek, and a
/// zero refusal count, so reading cannot tell whether a tag is in use.
pub proof fn law_an_unknown_tag_reads_as_empty(p: ProviderView, t: Seq<u8>, index: int)
    requires
        find(p.boxes, t) is None,
    ensures
        collect_spec(p, t) == (p, (Seq::<Seq<u8>>::empty(), 0u64)),
        take_one_spec(p, t) == (p, (None::<Seq<u8>>, 0u64)),
        peek_spec(p, t, index) == (None::<Seq<u8>>, 0u64),
        depth_spec(p, t) == 0,
{
}

/// Pruning keeps every box that holds mail and every box still worth keeping up to
/// `MAX_REFUSAL_MEMORY` empty ones; every box it drops either had nothing to report or is
/// counted as forgotten.
pub proof fn law_pruning_bounds_what_is_remembered(s: Seq<BoxView>)
    requires
        sorted(s),
    ensures
        empty_count(prune(s).0) <= MAX_REFUSAL_MEMORY,
        forall|j: int| 0 <= j < prune(s).0.len() ==> reports(#[trigger] prune(s).0[j]),
        forall|i: int|
            0 <= i < s.len() && !is_empty_box(#[trigger] s[i]) ==> exists|j: int|
                0 <= j < prune(s).0.len() && prune(s).0[j] == s[i],
        item_count(prune(s).0) == item_count(s),
        prune(s).0.len() + prune(s).1 + quiet_count(s) == s.len(),
{
    lemma_prune_props(s);
    lemma_count_bound(prune(s).0, |b: BoxView| !reports(b));
    lemma_keep_len_exact(s);
    lemma_evict_sub(keep_reporting(s));
}

/// A box emptied by taking its last item, with no refusals and no drain counter to
/// remember, is dropped rather than kept forever.
pub proof fn law_draining_a_box_does_not_leave_it_behind(p: ProviderView, t: Seq<u8>)
    requires
        valid(p),
        find(p.boxes, t) is Some,
        p.boxes[find(p.boxes, t)->0].items.len() <= 1,
        p.boxes[find(p.boxes, t)->0].refused == 0,
        p.boxes[find(p.boxes, t)->0].drained_to == 0,
    ensures
        find(take_one_spec(p, t).0.boxes, t) is None,
{
    let i = find(p.boxes, t)->0;
    lemma_find_some(p.boxes, t);
    let b = p.boxes[i];
    let s1 = p.boxes.update(i, pop_first(b));
    lemma_sorted_update_same_tag(p.boxes, i, pop_first(b));
    lemma_prune_props(s1);
    let q = prune(s1).0;
    lemma_count_bound(q, |b: BoxView| !reports(b));
    assert forall|j: int| 0 <= j < q.len() implies (#[trigger] q[j]).tag != t by {
        let k = choose|k: int| 0 <= k < s1.len() && s1[k] == q[j];
        assert(reports(q[j]));
        if q[j].tag == t {
            assert(s1[k].tag == p.boxes[k].tag);
            lemma_unique_tag(p.boxes, i, k);
        }
    }
}

/// A drain counter, once accepted, stays spent: while the box is remembered, a request with
/// that counter or a lower one is refused as a replay and changes nothing.
pub proof fn law_a_spent_counter_stays_spent(p: ProviderView, t: Seq<u8>, c: u64, c2: u64)
    requires
        valid(p),
        t.len() == 32,
        drain_spec(p, t, c).1 is Ok,
        find(drain_spec(p, t, c).0.boxes, t) is Some,
        c2 <= c,
    ensures
        drain_spec(drain_spec(p, t, c).0, t, c2) == (
            drain_spec(p, t, c).0,
            Err::<(Option<Seq<u8>>, u64), DrainError>(DrainError::Replayed),
        ),
{
    let s = with_box(p.boxes, t, p.next_seq);
    let i = rank(s, t);
    lemma_with_box_props(p.boxes, t, p.next_seq);
    let nb = pop_first(marked(s[i], true, c));
    let s1 = s.update(i, nb);
    lemma_sorted_update_same_tag(s, i, nb);
    lemma_prune_props(s1);
    let q = drain_spec(p, t, c).0;
    assert(q.boxes == prune(s1).0);
    let j = find(q.boxes, t)->0;
    lemma_find_some(q.boxes, t);
    let k = choose|k: int| 0 <= k < s1.len() && s1[k] == q.boxes[j];
    lemma_unique_tag(s1, i, k);
    lemma_sorted_find(q.boxes, j);
    lemma_sorted_rank(q.boxes, j);
}

/// A full box refuses new mail rather than discarding what it holds, and counts the refusal.
pub proof fn law_a_full_box_keeps_what_it_holds(p: ProviderView, payload: Seq<u8>)
    requires
        valid(p),
        payload.len() == MAILBOX_BYTES + ENVELOPE_BYTES,
        item_count(p.boxes) < p.total,
        find(p.boxes, payload.take(MAILBOX_BYTES as int)) is Some,
        p.boxes[find(p.boxes, payload.take(MAILBOX_BYTES as int))->0].items.len() >= p.per_box,
    ensures
        ({
            let i = find(p.boxes, payload.take(MAILBOX_BYTES as int))->0;
            deposit_spec(p, payload) == (
                ProviderView {
                    boxes: p.boxes.update(
                        i,
                        BoxView { refused: sat_inc(p.boxes[i].refused), ..p.boxes[i] },
                    ),
                    ..p
                },
                Err::<(), DepositError>(DepositError::BoxFull),
            )
        }),
{
    lemma_with_box_props(p.boxes, payload.take(MAILBOX_BYTES as int), p.next_seq);
}

/// Taking one item from a box that keeps mail leaves the box in place with its refusal
/// count, and hands that count over with the item.
pub proof fn law_taking_one_keeps_the_refusal_count(p: ProviderView, t: Seq<u8>)
    requires
        valid(p),
        find(p.boxes, t) is Some,
        p.boxes[find(p.boxes, t)->0].items.len() >= 2,
    ensures
        ({
            let b = p.boxes[find(p.boxes, t)->0];
            &&& take_one_spec(p, t).1 == (Some(b.items[0]), b.refused)
            &&& box_for(take_one_spec(p, t).0.boxes, t) == Some(pop_first(b))
        }),
{
    let i = find(p.boxes, t)->0;
    lemma_find_some(p.boxes, t);
    let b = p.boxes[i];
    let s1 = p.boxes.update(i, pop_first(b));
    lemma_sorted_update_same_tag(p.boxes, i, pop_first(b));
    lemma_prune_props(s1);
    let q = prune(s1).0;
    assert(!is_empty_box(s1[i]));
    let j = choose|j: int| 0 <= j < q.len() && q[j] == s1[i];
    lemma_sorted_find(q, j);
}


/// The depths of the boxes filed under the first `n` of `tags`, added up.
pub open spec fn depth_sum(p: ProviderView, tags: Seq<Seq<u8>>, n: nat) -> nat
    decreases n,
{
    if n == 0 {
        0
    } else {
        depth_sum(p, tags, (n - 1) as nat) + depth_spec(p, tags[n - 1])
    }
}

/// The tags a provider has boxes for, in order.
pub open spec fn tags_of(p: ProviderView) -> Seq<Seq<u8>> {
    p.boxes.map_values(|b: BoxView| b.tag)
}

/// What a provider holds is the sum of the depths of its boxes, each tag counted once; a tag
/// it has no box for has depth zero, so this is the sum over every tag there is. What it
/// holds stays within its limit.
pub proof fn law_held_is_the_sum_of_the_depths(p: ProviderView, t: Seq<u8>)
    requires
        valid(p),
    ensures
        item_count(p.boxes) == depth_sum(p, tags_of(p), p.boxes.len()),
        !tags_of(p).contains(t) ==> depth_spec(p, t) == 0,
        item_count(p.boxes) <= p.total,
{
    lemma_depth_prefix(p, p.boxes.len());
    assert(p.boxes.take(p.boxes.len() as int) =~= p.boxes);
    if !tags_of(p).contains(t) {
        if find(p.boxes, t) is Some {
            let i = find(p.boxes, t)->0;
            assert(tags_of(p)[i] == t);
        }
    }
}

proof fn lemma_depth_prefix(p: ProviderView, n: nat)
    requires
        valid(p),
        n <= p.boxes.len(),
    ensures
        item_count(p.boxes.take(n as int)) == depth_sum(p, tags_of(p), n),
    decreases n,
{
    if n > 0 {
        lemma_depth_prefix(p, (n - 1) as nat);
        let k = n - 1;
        assert(p.boxes.take(n as int).drop_last() =~= p.boxes.take(k));
        lemma_sorted_find(p.boxes, k);
        assert(tags_of(p)[k] == p.boxes[k].tag);
    }
}

} // verus!
