//! What a client puts on the wire, and what it takes out of its own box.
//!
//! Private mail is sealed to the recipient and filed under the recipient's mailbox tag, which
//! the seal authenticates, so a sealed blob cannot be lifted into another box. A publication
//! is open, padded to the same width as sealed mail, so a provider cannot tell the two apart by
//! size. A client's own mailbox honours sealed envelopes only: an open one is unsealed and
//! unauthenticated, and honouring it would let anyone who can deposit put chosen content into
//! the inbox.
use vstd::prelude::*;
use crate::codec::push_all;
use crate::frame::{accept_spec, dec_fragment, enc_fragment, FragView, Fragment, PartialView, Reassembler, BODY_BYTES, DATA_BYTES, ENVELOPE_BYTES, ENV_OPEN, ENV_SEALED, FRAGMENT_BYTES, INNER_BYTES, MAILBOX_BYTES};
use crate::seal::{holder_of, is_public_key, open_spec, seal, SealError, SealingKey, OVERHEAD};

verus! {

broadcast use vstd::std_specs::vec::group_vec_axioms;

/// The payload that files a sealed fragment under `mailbox`: the tag, the sealed kind, then
/// the fragment sealed to `recipient` and bound to the mailbox, so it opens for the recipient
/// and only as mail filed under that mailbox. `None` only when HPKE refuses the recipient,
/// which it never does for a real public key.
pub fn sealed_payload(mailbox: &[u8; 32], recipient: &[u8; 32], f: &Fragment) -> (r: Option<Vec<u8>>)
    requires
        f@.data.len() <= DATA_BYTES,
    ensures
        is_public_key(recipient@) ==> r is Some,
        r matches Some(out) ==> {
            let p = out@;
            &&& p.len() == FRAGMENT_BYTES
            &&& p.subrange(0, MAILBOX_BYTES as int) == mailbox@
            &&& p[MAILBOX_BYTES as int] == ENV_SEALED
            &&& forall|secret: Seq<u8>| #[trigger] holder_of(secret, recipient@) ==> open_spec(
                secret,
                mailbox@,
                p.subrange(MAILBOX_BYTES + 1, FRAGMENT_BYTES as int),
            ) == Ok::<Seq<u8>, SealError>(enc_fragment(f@))
        },
{
    let inner = f.encode();
    let sealed = match seal(recipient, mailbox, &inner) {
        Some(s) => s,
        None => {
            return None;
        },
    };
    assert(sealed@.len() == OVERHEAD + INNER_BYTES);
    let mut p: Vec<u8> = Vec::new();
    push_all(&mut p, mailbox);
    p.push(ENV_SEALED);
    push_all(&mut p, sealed.as_slice());
    assert(p@.subrange(0, MAILBOX_BYTES as int) == mailbox@);
    assert(p@.subrange(MAILBOX_BYTES + 1, FRAGMENT_BYTES as int) =~= sealed@);
    Some(p)
}

/// The payload that files an open fragment under a feed's tag: the tag, the open kind, the
/// fragment, then `padding`, so the body is as wide as a sealed one.
pub fn open_payload(feed: &[u8; 32], f: &Fragment, padding: &[u8]) -> (p: Vec<u8>)
    requires
        f@.data.len() <= DATA_BYTES,
        padding@.len() == BODY_BYTES - INNER_BYTES,
    ensures
        p@ == feed@ + seq![ENV_OPEN] + enc_fragment(f@) + padding@,
        p@.len() == FRAGMENT_BYTES,
{
    let inner = f.encode();
    let mut p: Vec<u8> = Vec::new();
    push_all(&mut p, feed);
    p.push(ENV_OPEN);
    push_all(&mut p, &inner);
    push_all(&mut p, padding);
    assert(p@ == feed@ + seq![ENV_OPEN] + enc_fragment(f@) + padding@);
    p
}

/// Whether an envelope is a sealed one of the size everything on this network is.
pub open spec fn sealed_envelope(e: Seq<u8>) -> bool {
    e.len() == ENVELOPE_BYTES && e[0] == ENV_SEALED
}

/// A client's own mailbox: its tag, the key mail to it is sealed to, and the reassembly of
/// sealed mail, which nothing else shares.
pub struct Mailbox {
    tag: [u8; 32],
    sealing: SealingKey,
    inbox: Reassembler,
}

impl Mailbox {
    #[verifier::type_invariant]
    closed spec fn inv(self) -> bool {
        self.inbox.capacity() > 0
    }

    pub closed spec fn tag_bytes(&self) -> Seq<u8> {
        self.tag@
    }

    pub closed spec fn secret(&self) -> Seq<u8> {
        self.sealing.secret()
    }

    pub closed spec fn collecting(&self) -> Seq<PartialView> {
        self.inbox@
    }

    pub closed spec fn room(&self) -> nat {
        self.inbox.capacity()
    }

    /// A mailbox filed under `tag`, opened with `sealing`.
    pub fn new(tag: [u8; 32], sealing: SealingKey) -> (m: Self)
        ensures
            m.tag_bytes() == tag@,
            m.secret() == sealing.secret(),
            m.collecting() == Seq::<PartialView>::empty(),
            m.room() == Reassembler::DEFAULT_CAPACITY,
    {
        Mailbox { tag, sealing, inbox: Reassembler::new() }
    }

    pub fn tag(&self) -> (t: [u8; 32])
        ensures
            t@ == self.tag_bytes(),
    {
        self.tag
    }

    /// The public half of the key mail to this box is sealed to.
    pub closed spec fn sealing_key(&self) -> Seq<u8> {
        self.sealing.public_key()
    }

    pub fn sealing_public(&self) -> (p: [u8; 32])
        ensures
            p@ == self.sealing_key(),
    {
        self.sealing.public()
    }

    /// Take an envelope out of this mailbox. Sealed only: it must open under this mailbox's
    /// key with its tag as associated data, decode as a fragment, and complete a message.
    pub fn accept(&mut self, envelope: &[u8]) -> (r: Option<Vec<u8>>)
        ensures
            final(self).tag_bytes() == old(self).tag_bytes(),
            final(self).secret() == old(self).secret(),
            final(self).room() == old(self).room(),
            !sealed_envelope(envelope@) ==> r is None && final(self).collecting() == old(self).collecting(),
            sealed_envelope(envelope@) ==> match open_spec(
                old(self).secret(),
                old(self).tag_bytes(),
                envelope@.subrange(1, envelope@.len() as int),
            ) {
                Err(_) => r is None && final(self).collecting() == old(self).collecting(),
                Ok(inner) => match dec_fragment(inner) {
                    Err(_) => r is None && final(self).collecting() == old(self).collecting(),
                    Ok(f) => {
                        let (parts, res) = accept_spec(old(self).collecting(), old(self).room(), f);
                        &&& final(self).collecting() == parts
                        &&& match res {
                            Ok(Some(m)) => r is Some && r.unwrap()@ == m,
                            _ => r is None,
                        }
                    },
                },
            },
    {
        proof {
            use_type_invariant(&*self);
        }
        if envelope.len() != ENVELOPE_BYTES || envelope[0] != ENV_SEALED {
            return None;
        }
        let mut body: Vec<u8> = Vec::new();
        let mut i: usize = 1;
        while i < envelope.len()
            invariant
                1 <= i <= envelope@.len(),
                body@ == envelope@.subrange(1, i as int),
            decreases envelope@.len() - i,
        {
            body.push(envelope[i]);
            assert(body@ == envelope@.subrange(1, i + 1));
            i += 1;
        }
        let inner = match self.sealing.open(&self.tag, body.as_slice()) {
            Ok(m) => m,
            Err(_) => {
                return None;
            },
        };
        let f = match Fragment::decode(inner.as_slice()) {
            Ok(f) => f,
            Err(_) => {
                return None;
            },
        };
        let mut taken = Mailbox::new(self.tag, SealingKey::from_seed([0u8; 32]));
        std::mem::swap(self, &mut taken);
        let Mailbox { tag, sealing, mut inbox } = taken;
        let r = inbox.accept(f);
        *self = Mailbox { tag, sealing, inbox };
        match r {
            Ok(Some(m)) => Some(m),
            _ => None,
        }
    }
}

/// Nothing but a sealed envelope that opens under the mailbox's own key and tag ever reaches
/// its reassembly; in particular an open envelope changes nothing.
pub proof fn law_an_open_envelope_never_reaches_a_private_inbox(e: Seq<u8>)
    requires
        e.len() == ENVELOPE_BYTES,
        e[0] == ENV_OPEN,
    ensures
        !sealed_envelope(e),
{
}

} // verus!
