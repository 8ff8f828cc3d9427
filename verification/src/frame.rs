//! Messages, cut to fit a packet.
//!
//! Every fragment fills the payload. Padding lives inside the sealed blob, so a one byte
//! message costs the same on the wire as a full one. What is not hidden is the number of
//! fragments.
use vstd::prelude::*;
use crate::codec::{u16_le, le_u16, lemma_u16_bytes, lemma_le_u16_canonical, bytes_equal};

verus! {

broadcast use vstd::std_specs::vec::group_vec_axioms;

/// Bytes a mix packet delivers at its final hop, before its own length prefix.
pub const PAYLOAD_BYTES: usize = 800;

/// Bytes usable in a delivered payload, once the packet has taken its length prefix.
pub const FRAGMENT_BYTES: usize = 796;

/// The mailbox a fragment is filed under, in clear, because a provider must read it to file it.
pub const MAILBOX_BYTES: usize = 32;

/// Space after the mailbox tag.
pub const SEALED_BYTES: usize = 764;

/// Bytes a sealed message adds: the encapsulated key, then the authentication tag.
pub const SEAL_OVERHEAD: usize = 48;

/// What a provider files under a tag: a kind byte, then a body.
pub const ENVELOPE_BYTES: usize = 764;

/// The body of an envelope, sealed or open. Both kinds are this width.
pub const BODY_BYTES: usize = 763;

/// Kind byte of an envelope sealed to a mailbox owner.
pub const ENV_SEALED: u8 = 1;

/// Kind byte of an open envelope in a public feed.
pub const ENV_OPEN: u8 = 2;

/// Space for the fragment once sealing has taken its overhead.
pub const INNER_BYTES: usize = 715;

/// Header inside the sealed blob: message id, index, total, and the used length.
pub const INNER_HEADER: usize = 22;

/// Message bytes carried by one fragment.
pub const DATA_BYTES: usize = 693;

/// The most fragments one message may have.
pub const MAX_FRAGMENTS: u16 = 512;

pub proof fn lemma_sizes_agree()
    ensures
        FRAGMENT_BYTES == PAYLOAD_BYTES - 4,
        SEALED_BYTES == FRAGMENT_BYTES - MAILBOX_BYTES,
        ENVELOPE_BYTES == SEALED_BYTES,
        BODY_BYTES == ENVELOPE_BYTES - 1,
        INNER_BYTES == BODY_BYTES - SEAL_OVERHEAD,
        DATA_BYTES == INNER_BYTES - INNER_HEADER,
        INNER_HEADER == 16 + 2 + 2 + 2,
{
}

#[derive(Debug, Clone, Copy, PartialEq, Eq)]
pub enum FrameError {
    TooLarge,
    Malformed,
    /// Fragments claiming to belong to the same message disagree about it.
    Inconsistent,
}

#[derive(Debug, Clone, PartialEq, Eq)]
pub struct Fragment {
    pub msg_id: [u8; 16],
    pub index: u16,
    pub total: u16,
    pub data: Vec<u8>,
}

/// A fragment as a value.
pub struct FragView {
    pub id: Seq<u8>,
    pub index: u16,
    pub total: u16,
    pub data: Seq<u8>,
}

impl View for Fragment {
    type V = FragView;

    open spec fn view(&self) -> FragView {
        FragView { id: self.msg_id@, index: self.index, total: self.total, data: self.data@ }
    }
}

/// A fragment claim a reassembler will consider at all.
pub open spec fn frag_claim_ok(index: u16, total: u16) -> bool {
    total != 0 && total <= MAX_FRAGMENTS && index < total
}

/// `n` zero bytes.
pub open spec fn zeros(n: nat) -> Seq<u8> {
    Seq::new(n, |i: int| 0u8)
}

/// The padded inner encoding of a fragment: id, index, total, used length, data, zeros.
pub open spec fn enc_fragment(f: FragView) -> Seq<u8> {
    f.id + u16_le(f.index) + u16_le(f.total) + u16_le(f.data.len() as u16) + f.data + zeros(
        (DATA_BYTES - f.data.len()) as nat,
    )
}

/// What decoding a fragment yields.
pub open spec fn dec_fragment(b: Seq<u8>) -> Result<FragView, FrameError> {
    if b.len() != INNER_BYTES {
        Err(FrameError::Malformed)
    } else {
        let index = le_u16(b.subrange(16, 18));
        let total = le_u16(b.subrange(18, 20));
        let len = le_u16(b.subrange(20, 22)) as int;
        if !frag_claim_ok(index, total) || len > DATA_BYTES {
            Err(FrameError::Malformed)
        } else if b.subrange(INNER_HEADER + len, INNER_BYTES as int) != zeros((DATA_BYTES - len) as nat) {
            Err(FrameError::Malformed)
        } else {
            Ok(
                FragView {
                    id: b.subrange(0, 16),
                    index,
                    total,
                    data: b.subrange(INNER_HEADER as int, INNER_HEADER + len),
                },
            )
        }
    }
}

fn write_u16_le(out: &mut [u8; 715], at: usize, v: u16)
    requires
        at + 2 <= 715,
    ensures
        final(out)@ == old(out)@.update(at as int, u16_le(v)[0]).update(at + 1, u16_le(v)[1]),
{
    out[at] = (v & 0xff) as u8;
    out[at + 1] = ((v >> 8) & 0xff) as u8;
}

impl Fragment {
    /// Serialise to exactly `INNER_BYTES`, padded with zeros.
    pub fn encode(&self) -> (out: [u8; INNER_BYTES])
        requires
            self.data@.len() <= DATA_BYTES,
        ensures
            out@ == enc_fragment(self@),
    {
        let mut out = [0u8; INNER_BYTES];
        let mut i: usize = 0;
        while i < 16
            invariant
                i <= 16,
                forall|j: int| 0 <= j < i ==> out@[j] == self.msg_id@[j],
                forall|j: int| 16 <= j < 715 ==> out@[j] == 0u8,
            decreases 16 - i,
        {
            out[i] = self.msg_id[i];
            i = i + 1;
        }
        write_u16_le(&mut out, 16, self.index);
        write_u16_le(&mut out, 18, self.total);
        let len = self.data.len();
        write_u16_le(&mut out, 20, len as u16);
        let mut k: usize = 0;
        while k < len
            invariant
                len == self.data@.len(),
                len <= DATA_BYTES,
                k <= len,
                forall|j: int| 0 <= j < 16 ==> out@[j] == self.msg_id@[j],
                out@[16] == u16_le(self.index)[0],
                out@[17] == u16_le(self.index)[1],
                out@[18] == u16_le(self.total)[0],
                out@[19] == u16_le(self.total)[1],
                out@[20] == u16_le(len as u16)[0],
                out@[21] == u16_le(len as u16)[1],
                forall|j: int| 0 <= j < k ==> out@[22 + j] == self.data@[j],
                forall|j: int| 22 + k <= j < 715 ==> out@[j] == 0u8,
            decreases len - k,
        {
            out[22 + k] = self.data[k];
            k = k + 1;
        }
        assert(out@ =~= enc_fragment(self@));
        out
    }

    pub fn decode(bytes: &[u8]) -> (r: Result<Fragment, FrameError>)
        ensures
            (match r {
                Ok(f) => Ok(f@),
                Err(e) => Err(e),
            }) == dec_fragment(bytes@),
    {
        if bytes.len() != INNER_BYTES {
            return Err(FrameError::Malformed);
        }
        let mut msg_id = [0u8; 16];
        let mut i: usize = 0;
        while i < 16
            invariant
                bytes@.len() == 715,
                i <= 16,
                forall|j: int| 0 <= j < i ==> msg_id@[j] == bytes@[j],
            decreases 16 - i,
        {
            msg_id[i] = bytes[i];
            i = i + 1;
        }
        let index = (bytes[16] as u16) | ((bytes[17] as u16) << 8);
        let total = (bytes[18] as u16) | ((bytes[19] as u16) << 8);
        let len = ((bytes[20] as u16) | ((bytes[21] as u16) << 8)) as usize;
        proof {
            assert(index == le_u16(bytes@.subrange(16, 18)));
            assert(total == le_u16(bytes@.subrange(18, 20)));
            assert(len == le_u16(bytes@.subrange(20, 22)));
        }
        if total == 0 || total > MAX_FRAGMENTS || index >= total || len > DATA_BYTES {
            return Err(FrameError::Malformed);
        }
        let mut k: usize = INNER_HEADER + len;
        while k < INNER_BYTES
            invariant
                bytes@.len() == 715,
                INNER_HEADER + len <= k <= INNER_BYTES,
                len <= DATA_BYTES,
                index == le_u16(bytes@.subrange(16, 18)),
                total == le_u16(bytes@.subrange(18, 20)),
                len == le_u16(bytes@.subrange(20, 22)),
                frag_claim_ok(index, total),
                forall|j: int| INNER_HEADER + len <= j < k ==> bytes@[j] == 0u8,
            decreases INNER_BYTES - k,
        {
            if bytes[k] != 0 {
                proof {
                    let pad = bytes@.subrange(INNER_HEADER + len, INNER_BYTES as int);
                    let z = zeros((DATA_BYTES - len) as nat);
                    let at = k - (INNER_HEADER + len);
                    assert(pad[at] != 0u8);
                    assert(z[at] == 0u8);
                    assert(pad != z);
                }
                return Err(FrameError::Malformed);
            }
            k = k + 1;
        }
        assert(bytes@.subrange(INNER_HEADER + len, INNER_BYTES as int) =~= zeros((DATA_BYTES - len) as nat));
        let data = vstd::slice::slice_to_vec(&bytes[INNER_HEADER..INNER_HEADER + len]);
        assert(msg_id@ =~= bytes@.subrange(0, 16));
        Ok(Fragment { msg_id, index, total, data })
    }
}

/// Decoding the encoding of a well-formed fragment gives the fragment back.
pub proof fn law_fragment_round_trip(f: FragView)
    requires
        f.id.len() == 16,
        frag_claim_ok(f.index, f.total),
        f.data.len() <= DATA_BYTES,
    ensures
        dec_fragment(enc_fragment(f)) == Ok::<FragView, FrameError>(f),
{
    let b = enc_fragment(f);
    assert(b.subrange(16, 18) =~= u16_le(f.index));
    assert(b.subrange(18, 20) =~= u16_le(f.total));
    assert(b.subrange(20, 22) =~= u16_le(f.data.len() as u16));
    lemma_u16_bytes(f.index);
    lemma_u16_bytes(f.total);
    lemma_u16_bytes(f.data.len() as u16);
    assert(b.subrange(0, 16) =~= f.id);
    assert(b.subrange(22, 22 + f.data.len() as int) =~= f.data);
    assert(b.subrange(22 + f.data.len() as int, 715) =~= zeros((DATA_BYTES - f.data.len()) as nat));
}

/// Bytes the decoder accepts are the encoding of what it returns: each fragment has exactly one
/// encoding, and padding that is not zero is refused rather than ignored.
pub proof fn law_an_accepted_fragment_has_one_encoding(b: Seq<u8>)
    requires
        dec_fragment(b) is Ok,
    ensures
        enc_fragment(dec_fragment(b)->Ok_0) == b,
{
    let f = dec_fragment(b)->Ok_0;
    let len = le_u16(b.subrange(20, 22)) as int;
    lemma_le_u16_canonical(b.subrange(16, 18));
    lemma_le_u16_canonical(b.subrange(18, 20));
    lemma_le_u16_canonical(b.subrange(20, 22));
    assert(f.data.len() as u16 == le_u16(b.subrange(20, 22)));
    assert(b =~= b.subrange(0, 16) + b.subrange(16, 18) + b.subrange(18, 20) + b.subrange(20, 22)
        + b.subrange(22, 22 + len) + b.subrange(22 + len, 715));
    assert(enc_fragment(f) =~= b);
}

// ---------------------------------------------------------------- splitting

/// How many fragments a message of `n` bytes takes. An empty message is one empty fragment.
pub open spec fn fragment_count(n: nat) -> nat {
    if n == 0 {
        1
    } else {
        ((n - 1) as nat / DATA_BYTES as nat) + 1
    }
}

/// The bytes fragment `i` of `m` carries.
pub open spec fn chunk(m: Seq<u8>, i: int) -> Seq<u8> {
    let start = i * DATA_BYTES;
    let end = if (i + 1) * DATA_BYTES <= m.len() {
        (i + 1) * DATA_BYTES
    } else {
        m.len() as int
    };
    m.subrange(start, end)
}

/// The concatenation of a sequence of byte strings, in order.
pub open spec fn concat_all(parts: Seq<Seq<u8>>) -> Seq<u8>
    decreases parts.len(),
{
    if parts.len() == 0 {
        Seq::empty()
    } else {
        concat_all(parts.drop_last()) + parts.last()
    }
}

/// Whether a body is an open envelope carrying a fragment. Random filler is neither, so this
/// is what tells a feed item from an empty answer.
pub open spec fn open_fragment(b: Seq<u8>) -> bool {
    &&& b.len() == ENVELOPE_BYTES
    &&& b[0] == ENV_OPEN
    &&& dec_fragment(b.subrange(1, 1 + INNER_BYTES)) is Ok
}

pub fn is_open_fragment(body: &[u8]) -> (r: bool)
    ensures
        r == open_fragment(body@),
{
    if body.len() != ENVELOPE_BYTES || body[0] != ENV_OPEN {
        return false;
    }
    let mut inner: Vec<u8> = Vec::new();
    let mut i: usize = 1;
    while i < 1 + INNER_BYTES
        invariant
            1 <= i <= 1 + INNER_BYTES,
            body@.len() == ENVELOPE_BYTES,
            inner@ == body@.subrange(1, i as int),
        decreases 1 + INNER_BYTES - i,
    {
        inner.push(body[i]);
        assert(inner@ == body@.subrange(1, i + 1));
        i += 1;
    }
    Fragment::decode(inner.as_slice()).is_ok()
}

/// Cut a message into fragments, in order, all carrying `msg_id` and the count.
pub fn split(msg_id: [u8; 16], message: &[u8]) -> (r: Result<Vec<Fragment>, FrameError>)
    ensures
        r is Err <==> fragment_count(message@.len()) > MAX_FRAGMENTS,
        r matches Err(e) ==> e == FrameError::TooLarge,
        r matches Ok(v) ==> {
            &&& v@.len() == fragment_count(message@.len())
            &&& forall|i: int|
                #![trigger v@[i]]
                0 <= i < v@.len() ==> v@[i]@ == (FragView {
                    id: msg_id@,
                    index: i as u16,
                    total: v@.len() as u16,
                    data: chunk(message@, i),
                })
        },
{
    let n = message.len();
    let total: usize = if n == 0 {
        1
    } else {
        (n - 1) / DATA_BYTES + 1
    };
    if total > MAX_FRAGMENTS as usize {
        return Err(FrameError::TooLarge);
    }
    let mut out: Vec<Fragment> = Vec::new();
    let mut i: usize = 0;
    while i < total
        invariant
            n == message@.len(),
            total == fragment_count(n as nat),
            total <= 512,
            i <= total,
            out@.len() == i,
            forall|j: int|
                #![trigger out@[j]]
                0 <= j < i ==> out@[j]@ == (FragView {
                    id: msg_id@,
                    index: j as u16,
                    total: total as u16,
                    data: chunk(message@, j),
                }),
        decreases total - i,
    {
        let start = i * DATA_BYTES;
        proof {
            if n > 0 {
                assert(i * DATA_BYTES < n) by (nonlinear_arith)
                    requires
                        i < total,
                        total == (n - 1) / 693 + 1,
                        DATA_BYTES == 693,
                        n > 0,
                ;
            }
        }
        let end = if start + DATA_BYTES <= n {
            start + DATA_BYTES
        } else {
            n
        };
        let data = vstd::slice::slice_to_vec(&message[start..end]);
        let f = Fragment { msg_id, index: i as u16, total: total as u16, data };
        out.push(f);
        i = i + 1;
    }
    Ok(out)
}

/// The fragments of a message, joined in order, are the message.
pub proof fn law_chunks_rebuild_message(m: Seq<u8>)
    requires
        m.len() < 0x1_0000_0000,
    ensures
        concat_all(Seq::new(fragment_count(m.len()), |i: int| chunk(m, i))) == m,
{
    let count = fragment_count(m.len());
    lemma_chunks_prefix(m, count as int);
    let full = if count * DATA_BYTES <= m.len() {
        count * DATA_BYTES
    } else {
        m.len() as int
    };
    if m.len() > 0 {
        assert((count - 1) * DATA_BYTES < m.len() && m.len() <= count * DATA_BYTES) by (
        nonlinear_arith)
            requires
                count == (m.len() - 1) / 693 + 1,
                DATA_BYTES == 693,
                m.len() > 0,
        ;
    }
    assert(m.subrange(0, m.len() as int) =~= m);
}

/// The first `k` chunks, joined, are the message up to the end of chunk `k - 1`.
proof fn lemma_chunks_prefix(m: Seq<u8>, k: int)
    requires
        0 <= k,
        (k - 1) * DATA_BYTES <= m.len() || k == 0,
    ensures
        concat_all(Seq::new(k as nat, |i: int| chunk(m, i))) == m.subrange(
            0,
            if k * DATA_BYTES <= m.len() {
                k * DATA_BYTES
            } else {
                m.len() as int
            },
        ),
    decreases k,
{
    let s = Seq::new(k as nat, |i: int| chunk(m, i));
    if k == 0 {
        assert(m.subrange(0, 0) =~= Seq::<u8>::empty());
    } else {
        let prev = Seq::new((k - 1) as nat, |i: int| chunk(m, i));
        assert(s.drop_last() =~= prev);
        assert((k - 2) * DATA_BYTES <= m.len() || k - 1 == 0) by (nonlinear_arith)
            requires
                (k - 1) * DATA_BYTES <= m.len(),
                DATA_BYTES == 693,
        ;
        lemma_chunks_prefix(m, k - 1);
        assert((k - 1) * DATA_BYTES <= m.len()) by (nonlinear_arith)
            requires
                (k - 1) * DATA_BYTES <= m.len() || k == 0,
                k > 0,
        ;
        let end_prev = (k - 1) * DATA_BYTES;
        assert(k * DATA_BYTES == end_prev + DATA_BYTES) by (nonlinear_arith)
            requires
                end_prev == (k - 1) * DATA_BYTES,
                DATA_BYTES == 693,
        ;
        assert(m.subrange(0, end_prev) + chunk(m, k - 1) =~= m.subrange(
            0,
            if k * DATA_BYTES <= m.len() {
                k * DATA_BYTES
            } else {
                m.len() as int
            },
        ));
    }
}


// ---------------------------------------------------------------- reassembly

/// How many slots are filled.
pub open spec fn count_some(s: Seq<Option<Seq<u8>>>) -> nat
    decreases s.len(),
{
    if s.len() == 0 {
        0
    } else {
        count_some(s.drop_last()) + if s.last() is Some {
            1nat
        } else {
            0nat
        }
    }
}

/// The filled slots, joined in index order.
pub open spec fn join_slots(s: Seq<Option<Seq<u8>>>) -> Seq<u8>
    decreases s.len(),
{
    if s.len() == 0 {
        Seq::empty()
    } else {
        join_slots(s.drop_last()) + match s.last() {
            Some(d) => d,
            None => Seq::empty(),
        }
    }
}

/// A message being collected: its id, claimed count, and what each index has received.
pub struct PartialView {
    pub id: Seq<u8>,
    pub total: u16,
    pub slots: Seq<Option<Seq<u8>>>,
}

/// No two messages being collected share an id.
pub open spec fn ids_distinct(es: Seq<PartialView>) -> bool {
    forall|a: int, b: int| 0 <= a < b < es.len() ==> (#[trigger] es[a]).id != (#[trigger] es[b]).id
}

pub open spec fn has_id(es: Seq<PartialView>, id: Seq<u8>) -> bool {
    exists|j: int| 0 <= j < es.len() && (#[trigger] es[j]).id == id
}

/// What accepting one fragment does to the messages being collected, and what it returns.
///
/// Malformed claims change nothing. A fragment disagreeing with its message about the count
/// drops the whole message. The first fragment for an index is kept and later ones for the
/// same index are ignored. A message completes when every index is present, and leaves the
/// buffer. A fragment for a message not yet tracked, arriving at a full buffer, first evicts
/// the message that has been waiting longest.
pub open spec fn accept_spec(es: Seq<PartialView>, cap: nat, f: FragView) -> (
    Seq<PartialView>,
    Result<Option<Seq<u8>>, FrameError>,
) {
    if !frag_claim_ok(f.index, f.total) {
        (es, Err(FrameError::Malformed))
    } else if has_id(es, f.id) {
        let j = choose|j: int| 0 <= j < es.len() && (#[trigger] es[j]).id == f.id;
        let e = es[j];
        if e.total != f.total {
            (es.remove(j), Err(FrameError::Inconsistent))
        } else {
            let slots = if e.slots[f.index as int] is None {
                e.slots.update(f.index as int, Some(f.data))
            } else {
                e.slots
            };
            if count_some(slots) == f.total {
                (es.remove(j), Ok(Some(join_slots(slots))))
            } else {
                (es.update(j, PartialView { id: e.id, total: e.total, slots }), Ok(None))
            }
        }
    } else {
        let base = if es.len() >= cap {
            es.drop_first()
        } else {
            es
        };
        if f.total == 1 {
            (base, Ok(Some(f.data)))
        } else {
            let slots = Seq::new(
                f.total as nat,
                |i: int|
                    if i == f.index {
                        Some(f.data)
                    } else {
                        None
                    },
            );
            (base.push(PartialView { id: f.id, total: f.total, slots }), Ok(None))
        }
    }
}

proof fn lemma_count_some_bound(s: Seq<Option<Seq<u8>>>)
    ensures
        count_some(s) <= s.len(),
    decreases s.len(),
{
    if s.len() > 0 {
        lemma_count_some_bound(s.drop_last());
    }
}

proof fn lemma_count_some_fill(s: Seq<Option<Seq<u8>>>, i: int, d: Seq<u8>)
    requires
        0 <= i < s.len(),
        s[i] is None,
    ensures
        count_some(s.update(i, Some(d))) == count_some(s) + 1,
    decreases s.len(),
{
    let t = s.update(i, Some(d));
    if i == s.len() - 1 {
        assert(t.drop_last() =~= s.drop_last());
    } else {
        assert(t.drop_last() =~= s.drop_last().update(i, Some(d)));
        lemma_count_some_fill(s.drop_last(), i, d);
    }
}

proof fn lemma_count_some_single(n: nat, k: int, d: Seq<u8>)
    requires
        0 <= k < n,
    ensures
        count_some(
            Seq::new(
                n,
                |i: int|
                    if i == k {
                        Some(d)
                    } else {
                        None
                    },
            ),
        ) == 1,
    decreases n,
{
    let s = Seq::new(
        n,
        |i: int|
            if i == k {
                Some(d)
            } else {
                None
            },
    );
    if k == n - 1 {
        lemma_count_none((n - 1) as nat);
        assert(s.drop_last() =~= Seq::new((n - 1) as nat, |i: int| None::<Seq<u8>>));
    } else {
        lemma_count_some_single((n - 1) as nat, k, d);
        assert(s.drop_last() =~= Seq::new(
            (n - 1) as nat,
            |i: int|
                if i == k {
                    Some(d)
                } else {
                    None
                },
        ));
    }
}

proof fn lemma_count_none(n: nat)
    ensures
        count_some(Seq::new(n, |i: int| None::<Seq<u8>>)) == 0,
    decreases n,
{
    if n > 0 {
        lemma_count_none((n - 1) as nat);
        assert(Seq::new(n, |i: int| None::<Seq<u8>>).drop_last() =~= Seq::new(
            (n - 1) as nat,
            |i: int| None::<Seq<u8>>,
        ));
    }
}

struct Partial {
    id: [u8; 16],
    total: u16,
    slots: Vec<Option<Vec<u8>>>,
    filled: usize,
}

spec fn opt_view(o: Option<Vec<u8>>) -> Option<Seq<u8>> {
    match o {
        Some(v) => Some(v@),
        None => None,
    }
}

impl Partial {
    spec fn view(&self) -> PartialView {
        PartialView { id: self.id@, total: self.total, slots: self.slots@.map_values(|o| opt_view(o)) }
    }

    spec fn wf(&self) -> bool {
        &&& self.slots@.len() == self.total
        &&& 1 <= self.total <= MAX_FRAGMENTS
        &&& self.filled == count_some(self@.slots)
        &&& self.filled < self.total
    }
}

/// Collect fragments until a message is whole.
pub struct Reassembler {
    partial: Vec<Partial>,
    capacity: usize,
}

impl View for Reassembler {
    type V = Seq<PartialView>;

    closed spec fn view(&self) -> Seq<PartialView> {
        parts_view(self.partial@)
    }
}

impl Reassembler {
    /// How many part-built messages are tracked at once, by default.
    pub const DEFAULT_CAPACITY: usize = 256;

    #[verifier::type_invariant]
    closed spec fn inv(self) -> bool {
        parts_wf(self.partial@, self.capacity as nat)
    }

    /// The most part-built messages this will track.
    pub closed spec fn capacity(&self) -> nat {
        self.capacity as nat
    }

    pub fn new() -> (r: Self)
        ensures
            r@ == Seq::<PartialView>::empty(),
            r.capacity() == Self::DEFAULT_CAPACITY,
    {
        let r = Reassembler { partial: Vec::new(), capacity: Self::DEFAULT_CAPACITY };
        assert(r@ =~= Seq::<PartialView>::empty());
        r
    }

    pub fn with_capacity(capacity: usize) -> (r: Self)
        ensures
            r@ == Seq::<PartialView>::empty(),
            r.capacity() == capacity,
    {
        let r = Reassembler { partial: Vec::new(), capacity };
        assert(r@ =~= Seq::<PartialView>::empty());
        r
    }

    /// How many part-built messages are held.
    pub fn tracking(&self) -> (n: usize)
        ensures
            n == self@.len(),
            ids_distinct(self@),
            self@.len() <= self.capacity(),
    {
        proof {
            use_type_invariant(self);
            assert forall|a: int, b: int| 0 <= a < b < self@.len() implies (#[trigger] self@[a]).id
                != (#[trigger] self@[b]).id by {
                assert(self@[a] == self.partial@[a].view());
                assert(self@[b] == self.partial@[b].view());
            }
        }
        self.partial.len()
    }

    /// Take a fragment. Returns the message if that was the last one missing.
    pub fn accept(&mut self, f: Fragment) -> (r: Result<Option<Vec<u8>>, FrameError>)
        requires
            old(self).capacity() > 0 || !frag_claim_ok(f.index, f.total),
        ensures
            final(self).capacity() == old(self).capacity(),
            (final(self)@, match r {
                Ok(Some(m)) => Ok(Some(m@)),
                Ok(None) => Ok(None),
                Err(e) => Err(e),
            }) == accept_spec(old(self)@, old(self).capacity(), f@),
            final(self)@.len() <= final(self).capacity(),
            ids_distinct(final(self)@),
    {
        proof {
            use_type_invariant(&*self);
        }
        let mut parts: Vec<Partial> = Vec::new();
        std::mem::swap(&mut parts, &mut self.partial);
        let r = accept_into(&mut parts, self.capacity, f);
        self.partial = parts;
        r
    }
}

spec fn parts_view(ps: Seq<Partial>) -> Seq<PartialView> {
    ps.map_values(|p: Partial| p.view())
}

spec fn parts_wf(ps: Seq<Partial>, cap: nat) -> bool {
    &&& ps.len() <= cap
    &&& forall|j: int| 0 <= j < ps.len() ==> (#[trigger] ps[j]).wf()
    &&& forall|a: int, b: int|
        0 <= a < b < ps.len() ==> (#[trigger] ps[a]).id@ != (#[trigger] ps[b]).id@
}

fn accept_into(parts: &mut Vec<Partial>, capacity: usize, f: Fragment) -> (r: Result<
    Option<Vec<u8>>,
    FrameError,
>)
    requires
        capacity > 0 || !frag_claim_ok(f.index, f.total),
        parts_wf(old(parts)@, capacity as nat),
    ensures
        parts_wf(final(parts)@, capacity as nat),
        (parts_view(final(parts)@), match r {
            Ok(Some(m)) => Ok(Some(m@)),
            Ok(None) => Ok(None),
            Err(e) => Err(e),
        }) == accept_spec(parts_view(old(parts)@), capacity as nat, f@),
{
    let ghost es = parts_view(parts@);
    if f.total == 0 || f.total > MAX_FRAGMENTS || f.index >= f.total {
        return Err(FrameError::Malformed);
    }
    let n = parts.len();
    let mut j: usize = 0;
    let mut found = false;
    while j < n && !found
        invariant
            n == parts@.len(),
            parts@ == old(parts)@,
            j <= n,
            found ==> j < n && parts@[j as int].id@ == f.msg_id@,
            forall|k: int| 0 <= k < j ==> parts@[k].id@ != f.msg_id@,
        decreases n - j + (if found { 0int } else { 1int }),
    {
        if bytes_equal(parts[j].id.as_slice(), f.msg_id.as_slice()) {
            found = true;
        } else {
            j = j + 1;
        }
    }
    if found {
        proof {
            assert(es[j as int].id == f.msg_id@);
            assert(has_id(es, f@.id));
            let c = choose|c: int| 0 <= c < es.len() && (#[trigger] es[c]).id == f@.id;
            assert(parts@[c].id@ == parts@[j as int].id@);
            assert(c == j as int);
        }
        let mut e = parts.remove(j);
        assert(parts_view(parts@) =~= es.remove(j as int));
        if e.total != f.total {
            return Err(FrameError::Inconsistent);
        }
        let idx = f.index as usize;
        let ghost before = e.view();
        if e.slots[idx].is_none() {
            proof {
                lemma_count_some_fill(before.slots, idx as int, f.data@);
            }
            e.slots.set(idx, Some(f.data));
            e.filled = e.filled + 1;
            assert(e.view().slots =~= before.slots.update(idx as int, Some(f@.data)));
        }
        proof {
            lemma_count_some_bound(e.view().slots);
        }
        if e.filled == e.total as usize {
            let out = join_vec_slots(&e.slots);
            return Ok(Some(out));
        }
        parts.insert(j, e);
        assert(parts_view(parts@) =~= es.update(j as int, e.view()));
        Ok(None)
    } else {
        proof {
            assert forall|k: int| 0 <= k < es.len() implies (#[trigger] es[k]).id != f@.id by {
                assert(es[k].id == parts@[k].id@);
            }
            assert(!has_id(es, f@.id));
        }
        if n >= capacity {
            parts.remove(0);
            assert(parts_view(parts@) =~= es.drop_first());
        }
        if f.total == 1 {
            return Ok(Some(f.data));
        }
        let total = f.total as usize;
        let mut slots: Vec<Option<Vec<u8>>> = Vec::new();
        let mut k: usize = 0;
        while k < total
            invariant
                k <= total,
                slots@.len() == k,
                forall|i: int| 0 <= i < k ==> (#[trigger] slots@[i]) is None,
            decreases total - k,
        {
            slots.push(None);
            k = k + 1;
        }
        slots.set(f.index as usize, Some(f.data));
        let e = Partial { id: f.msg_id, total: f.total, slots, filled: 1 };
        proof {
            let want = Seq::new(
                f.total as nat,
                |i: int|
                    if i == f.index {
                        Some(f@.data)
                    } else {
                        None
                    },
            );
            assert(e.view().slots =~= want);
            lemma_count_some_single(f.total as nat, f.index as int, f@.data);
        }
        let ghost prev = parts@;
        proof {
            assert(e.wf());
            assert forall|k: int| 0 <= k < prev.len() implies (#[trigger] prev[k]).id@ != e.id@ by {
                if n >= capacity {
                    assert(prev[k] == old(parts)@[k + 1]);
                } else {
                    assert(prev[k] == old(parts)@[k]);
                }
            }
        }
        parts.push(e);
        assert(parts_view(parts@) =~= parts_view(prev).push(e.view()));
        proof {
            assert forall|a: int, b: int|
                0 <= a < b < parts@.len() implies (#[trigger] parts@[a]).id@ != (
                #[trigger] parts@[b]).id@ by {
                if b < prev.len() {
                    assert(parts@[a] == prev[a] && parts@[b] == prev[b]);
                    if n >= capacity {
                        assert(prev[a] == old(parts)@[a + 1] && prev[b] == old(parts)@[b + 1]);
                    }
                }
            }
        }
        Ok(None)
    }
}

/// Joins the filled slots in index order.
fn join_vec_slots(slots: &Vec<Option<Vec<u8>>>) -> (out: Vec<u8>)
    ensures
        out@ == join_slots(slots@.map_values(|o| opt_view(o))),
{
    let mut out: Vec<u8> = Vec::new();
    let mut k: usize = 0;
    while k < slots.len()
        invariant
            k <= slots@.len(),
            out@ == join_slots(slots@.map_values(|o| opt_view(o)).subrange(0, k as int)),
        decreases slots@.len() - k,
    {
        let ghost sv = slots@.map_values(|o| opt_view(o));
        assert(sv.subrange(0, k + 1).drop_last() =~= sv.subrange(0, k as int));
        match &slots[k] {
            Some(d) => {
                crate::codec::push_all(&mut out, d.as_slice());
            },
            None => {},
        }
        k = k + 1;
    }
    assert(slots@.map_values(|o| opt_view(o)).subrange(0, slots@.len() as int) =~= slots@.map_values(
        |o| opt_view(o),
    ));
    out
}


/// Fragment `i` of message `m` under `id`, of `n` in all, as `split` makes it.
pub open spec fn piece(id: Seq<u8>, m: Seq<u8>, n: nat, i: int) -> FragView {
    FragView { id, index: i as u16, total: n as u16, data: chunk(m, i) }
}

/// What a reassembler holds and answers after accepting `fs` in turn, starting from `es`.
pub open spec fn feed(es: Seq<PartialView>, cap: nat, fs: Seq<FragView>) -> (
    Seq<PartialView>,
    Seq<Result<Option<Seq<u8>>, FrameError>>,
)
    decreases fs.len(),
{
    if fs.len() == 0 {
        (es, Seq::empty())
    } else {
        let (e1, rs) = feed(es, cap, fs.drop_last());
        let (e2, r) = accept_spec(e1, cap, fs.last());
        (e2, rs.push(r))
    }
}

/// `order` lists each of `0..n` exactly once.
pub open spec fn is_permutation(order: Seq<int>, n: nat) -> bool {
    &&& order.len() == n
    &&& forall|k: int| 0 <= k < n ==> 0 <= #[trigger] order[k] < n
    &&& forall|a: int, b: int| 0 <= a < b < n ==> #[trigger] order[a] != #[trigger] order[b]
}

/// The slots of message `m` once the pieces `order[..k]` have arrived.
pub open spec fn slots_after(m: Seq<u8>, n: nat, order: Seq<int>, k: int) -> Seq<Option<Seq<u8>>> {
    Seq::new(n, |i: int| if order.take(k).contains(i) { Some(chunk(m, i)) } else { None })
}

proof fn lemma_join_full(m: Seq<u8>, n: nat)
    ensures
        join_slots(Seq::new(n, |i: int| Some(chunk(m, i)))) == concat_all(Seq::new(n, |i: int| chunk(m, i))),
    decreases n,
{
    if n > 0 {
        lemma_join_full(m, (n - 1) as nat);
        assert(Seq::new(n, |i: int| Some(chunk(m, i))).drop_last() =~= Seq::new((n - 1) as nat, |i: int| Some(chunk(m, i))));
        assert(Seq::new(n, |i: int| chunk(m, i)).drop_last() =~= Seq::new((n - 1) as nat, |i: int| chunk(m, i)));
    }
}

proof fn lemma_feed_step(id: Seq<u8>, m: Seq<u8>, n: nat, order: Seq<int>, cap: nat, k: int)
    requires
        2 <= n <= MAX_FRAGMENTS,
        cap > 0,
        is_permutation(order, n),
        1 <= k < n,
    ensures
        ({
            let fs = order.take(k).map_values(|i: int| piece(id, m, n, i));
            let (es, rs) = feed(Seq::empty(), cap, fs);
            &&& es == seq![PartialView { id, total: n as u16, slots: slots_after(m, n, order, k) }]
            &&& count_some(slots_after(m, n, order, k)) == k
            &&& rs.len() == k
            &&& forall|j: int| 0 <= j < k ==> #[trigger] rs[j] == Ok::<Option<Seq<u8>>, FrameError>(None)
        }),
    decreases k,
{
    let fs = order.take(k).map_values(|i: int| piece(id, m, n, i));
    assert(fs.drop_last() =~= order.take(k - 1).map_values(|i: int| piece(id, m, n, i)));
    let f = fs.last();
    assert(f == piece(id, m, n, order[k - 1]));
    if k == 1 {
        let e0 = Seq::<PartialView>::empty();
        assert(order.take(0).map_values(|i: int| piece(id, m, n, i)) =~= Seq::<FragView>::empty());
        assert(!has_id(e0, id));
        let s1 = Seq::new(n, |i: int| if i == f.index { Some(f.data) } else { None });
        assert(s1 =~= slots_after(m, n, order, 1)) by {
            assert forall|i: int| 0 <= i < n implies s1[i] == slots_after(m, n, order, 1)[i] by {
                if order.take(1).contains(i) {
                    let j = choose|j: int| 0 <= j < 1 && #[trigger] order.take(1)[j] == i;
                    assert(j == 0);
                }
                if i == order[0] {
                    assert(order.take(1)[0] == i);
                }
            }
        }
        lemma_count_some_single(n, order[0], chunk(m, order[0]));
    } else {
        lemma_feed_step(id, m, n, order, cap, k - 1);
        let prev = slots_after(m, n, order, k - 1);
        let e = PartialView { id, total: n as u16, slots: prev };
        let es = seq![e];
        assert(es[0].id == id);
        assert(has_id(es, id));
        let j = choose|j: int| 0 <= j < es.len() && (#[trigger] es[j]).id == id;
        assert(j == 0);
        let x = order[k - 1];
        assert(!order.take(k - 1).contains(x)) by {
            if order.take(k - 1).contains(x) {
                let a = choose|a: int| 0 <= a < k - 1 && #[trigger] order.take(k - 1)[a] == x;
                assert(order[a] == order[k - 1]);
            }
        }
        assert(prev[x] is None);
        lemma_count_some_fill(prev, x, chunk(m, x));
        assert(prev.update(x, Some(chunk(m, x))) =~= slots_after(m, n, order, k)) by {
            assert forall|i: int| 0 <= i < n implies prev.update(x, Some(chunk(m, x)))[i]
                == slots_after(m, n, order, k)[i] by {
                if i == x {
                    assert(order.take(k)[k - 1] == x);
                } else {
                    if order.take(k).contains(i) {
                        let a = choose|a: int| 0 <= a < k && #[trigger] order.take(k)[a] == i;
                        assert(a != k - 1);
                        assert(order.take(k - 1)[a] == i);
                    }
                    if order.take(k - 1).contains(i) {
                        let a = choose|a: int| 0 <= a < k - 1 && #[trigger] order.take(k - 1)[a] == i;
                        assert(order.take(k)[a] == i);
                    }
                }
            }
        }
        assert(es.update(0, PartialView { id: e.id, total: e.total, slots: slots_after(m, n, order, k) })
            =~= seq![PartialView { id, total: n as u16, slots: slots_after(m, n, order, k) }]);
    }
}

/// Law: a fragment of a message not yet tracked, arriving at a full reassembler, evicts the
/// message tracked longest (the first held) and no other: every other message keeps its place
/// and its slots, and the evicted one is no longer tracked. The new message, unless whole in one
/// fragment, is tracked after all of them.
pub proof fn law_a_full_reassembler_evicts_the_oldest(es: Seq<PartialView>, cap: nat, f: FragView)
    requires
        frag_claim_ok(f.index, f.total),
        !has_id(es, f.id),
        1 <= cap <= es.len(),
        ids_distinct(es),
    ensures
        ({
            let (after, r) = accept_spec(es, cap, f);
            &&& r == (if f.total == 1 {
                Ok::<Option<Seq<u8>>, FrameError>(Some(f.data))
            } else {
                Ok::<Option<Seq<u8>>, FrameError>(None)
            })
            &&& !has_id(after, es[0].id)
            &&& forall|k: int| 1 <= k < es.len() ==> #[trigger] after[k - 1] == es[k]
            &&& after.len() == es.len() - 1 + (if f.total == 1 { 0int } else { 1int })
            &&& f.total != 1 ==> after[after.len() - 1].id == f.id
        }),
{
    let (after, r) = accept_spec(es, cap, f);
    if has_id(after, es[0].id) {
        let j = choose|j: int| 0 <= j < after.len() && (#[trigger] after[j]).id == es[0].id;
        if j < es.len() - 1 {
            assert(after[j] == es[j + 1]);
        } else {
            assert(es[0].id == f.id);
            assert(false);
        }
    }
}

/// Law: below capacity, a fragment of a message not yet tracked evicts nothing: every message
/// held stays where it was, with its slots.
pub proof fn law_below_capacity_nothing_is_evicted(es: Seq<PartialView>, cap: nat, f: FragView)
    requires
        frag_claim_ok(f.index, f.total),
        !has_id(es, f.id),
        es.len() < cap,
    ensures
        ({
            let (after, r) = accept_spec(es, cap, f);
            &&& forall|k: int| 0 <= k < es.len() ==> #[trigger] after[k] == es[k]
            &&& after.len() == es.len() + (if f.total == 1 { 0int } else { 1int })
        }),
{
}

/// Law: the fragments of a message reassemble it in any order they arrive. Fed to an empty
/// reassembler in any order, every fragment but the last is taken in silently, the last
/// returns the whole message, and nothing is left tracked.
pub proof fn law_any_arrival_order_reassembles(id: Seq<u8>, m: Seq<u8>, order: Seq<int>, cap: nat)
    requires
        fragment_count(m.len()) <= MAX_FRAGMENTS,
        cap > 0,
        is_permutation(order, fragment_count(m.len())),
    ensures
        ({
            let n = fragment_count(m.len());
            let fs = order.map_values(|i: int| piece(id, m, n, i));
            let (es, rs) = feed(Seq::empty(), cap, fs);
            &&& es.len() == 0
            &&& rs.len() == n
            &&& forall|j: int| 0 <= j < n - 1 ==> #[trigger] rs[j] == Ok::<Option<Seq<u8>>, FrameError>(None)
            &&& rs[n - 1] == Ok::<Option<Seq<u8>>, FrameError>(Some(m))
        }),
{
    let n = fragment_count(m.len());
    assert(m.len() < 0x1_0000_0000) by {
        if m.len() >= 0x1_0000_0000 {
            assert(fragment_count(m.len()) > MAX_FRAGMENTS) by (nonlinear_arith)
                requires
                    m.len() >= 0x1_0000_0000,
                    fragment_count(m.len()) == ((m.len() - 1) as nat / 693nat) + 1,
            ;
        }
    }
    law_chunks_rebuild_message(m);
    let fs = order.map_values(|i: int| piece(id, m, n, i));
    assert(order.take(n as int) =~= order);
    if n == 1 {
        assert(fs.drop_last() =~= Seq::<FragView>::empty());
        let e0 = Seq::<PartialView>::empty();
        assert(!has_id(e0, id));
        assert(order[0] == 0);
        let one = Seq::new(1, |i: int| chunk(m, i));
        assert(concat_all(one) == concat_all(one.drop_last()) + one.last());
        assert(one.drop_last() =~= Seq::<Seq<u8>>::empty());
        assert(concat_all(Seq::<Seq<u8>>::empty()) + chunk(m, 0) =~= chunk(m, 0));
        assert(fs.last() == piece(id, m, n, 0));
        assert(accept_spec(e0, cap, fs.last()) == (e0, Ok::<Option<Seq<u8>>, FrameError>(Some(m))));
        assert(feed(e0, cap, fs.drop_last()) == (e0, Seq::<Result<Option<Seq<u8>>, FrameError>>::empty()));
        let r = feed(e0, cap, fs);
        assert(r.0.len() == 0);
        assert(r.1.len() == 1);
        assert(r.1[0] == Ok::<Option<Seq<u8>>, FrameError>(Some(m)));
    } else {
        lemma_feed_step(id, m, n, order, cap, n - 1);
        assert(fs.drop_last() =~= order.take(n - 1).map_values(|i: int| piece(id, m, n, i)));
        let prev = slots_after(m, n, order, n - 1);
        let e = PartialView { id, total: n as u16, slots: prev };
        let es = seq![e];
        assert(es[0].id == id);
        assert(has_id(es, id));
        let j = choose|j: int| 0 <= j < es.len() && (#[trigger] es[j]).id == id;
        assert(j == 0);
        let x = order[n - 1];
        assert(fs.last() == piece(id, m, n, x));
        assert(!order.take(n - 1).contains(x)) by {
            if order.take(n - 1).contains(x) {
                let a = choose|a: int| 0 <= a < n - 1 && #[trigger] order.take(n - 1)[a] == x;
                assert(order[a] == order[n - 1]);
            }
        }
        lemma_count_some_fill(prev, x, chunk(m, x));
        let full = prev.update(x, Some(chunk(m, x)));
        assert(full =~= Seq::new(n, |i: int| Some(chunk(m, i)))) by {
            assert forall|i: int| 0 <= i < n implies full[i] == Some(chunk(m, i)) by {
                if i != x {
                    assert(exists|a: int| 0 <= a < n && order[a] == i) by {
                        lemma_permutation_covers(order, n, i);
                    }
                    let a = choose|a: int| 0 <= a < n && #[trigger] order[a] == i;
                    assert(a != n - 1);
                    assert(order.take(n - 1)[a] == i);
                }
            }
        }
        lemma_join_full(m, n);
        let r = feed(Seq::empty(), cap, fs);
        let before = feed(Seq::empty(), cap, fs.drop_last());
        assert(before.0 == es);
        assert(count_some(full) == n);
        assert(accept_spec(es, cap, fs.last()) == (es.remove(0), Ok::<Option<Seq<u8>>, FrameError>(Some(m))));
        assert(r.1 == before.1.push(Ok::<Option<Seq<u8>>, FrameError>(Some(m))));
        assert(es.remove(0).len() == 0);
        assert forall|j: int| 0 <= j < n - 1 implies #[trigger] r.1[j] == Ok::<Option<Seq<u8>>, FrameError>(None) by {
            assert(r.1[j] == before.1[j]);
        }
    }
}

/// A permutation of `0..n` lists every index.
proof fn lemma_permutation_covers(order: Seq<int>, n: nat, i: int)
    requires
        is_permutation(order, n),
        0 <= i < n,
    ensures
        exists|a: int| 0 <= a < n && order[a] == i,
{
    if !(exists|a: int| 0 <= a < n && order[a] == i) {
        let range = vstd::set_lib::set_int_range(0, n as int);
        vstd::set_lib::lemma_int_range(0, n as int);
        let missing = range.remove(i);
        assert(range.contains(i));
        assert(missing.len() == n - 1);
        let hit = order.to_set();
        assert(hit.subset_of(missing)) by {
            assert forall|v: int| hit.contains(v) implies missing.contains(v) by {
                let a = choose|a: int| 0 <= a < order.len() && #[trigger] order[a] == v;
            }
        }
        vstd::set_lib::lemma_len_subset(hit, missing);
        assert(order.no_duplicates()) by {
            assert forall|a: int, b: int| 0 <= a < order.len() && 0 <= b < order.len() && a != b
                implies order[a] != order[b] by {
                if a < b {
                    assert(order[a] != order[b]);
                } else {
                    assert(order[b] != order[a]);
                }
            }
        }
        order.unique_seq_to_set();
    }
}

} // verus!
