//! What a client derives for itself: the tag of its mailbox and what it signs to drain it.
use vstd::prelude::*;
use crate::codec::{blake3_digest, blake3_hash, push_all, push_u64_le, u64_le};
use crate::frame::MAILBOX_BYTES;

verus! {

/// `karst.net.v2.mailbox`: hashed ahead of a drain key to make a mailbox tag.
pub open spec fn mailbox_domain() -> Seq<u8> {
    seq![107u8, 97, 114, 115, 116, 46, 110, 101, 116, 46, 118, 50, 46, 109, 97, 105, 108, 98, 111, 120]
}

/// `karst.net.v2.drain`: what a drain challenge starts with.
pub open spec fn drain_domain() -> Seq<u8> {
    seq![107u8, 97, 114, 115, 116, 46, 110, 101, 116, 46, 118, 50, 46, 100, 114, 97, 105, 110]
}

/// The mailbox tag of a drain key.
pub open spec fn mailbox_tag_of(drain_public: Seq<u8>) -> Seq<u8> {
    blake3_digest(mailbox_domain() + drain_public)
}

/// A mailbox tag is the hash of the drain key's public half, so only the holder of the key
/// can show that a box is theirs.
pub fn mailbox_tag(drain_public: &[u8; 32]) -> (t: [u8; MAILBOX_BYTES])
    ensures
        t@ == mailbox_tag_of(drain_public@),
{
    let domain: [u8; 20] = [
        107, 97, 114, 115, 116, 46, 110, 101, 116, 46, 118, 50, 46, 109, 97, 105, 108, 98, 111, 120,
    ];
    let mut input: Vec<u8> = Vec::new();
    push_all(&mut input, &domain);
    push_all(&mut input, drain_public);
    assert(domain@ =~= mailbox_domain());
    assert(input@ =~= mailbox_domain() + drain_public@);
    blake3_hash(input.as_slice())
}

/// What a client signs to drain its own box: the domain, then the counter little-endian.
pub fn drain_challenge(counter: u64) -> (v: Vec<u8>)
    ensures
        v@ == drain_domain() + u64_le(counter),
{
    let domain: [u8; 18] = [
        107, 97, 114, 115, 116, 46, 110, 101, 116, 46, 118, 50, 46, 100, 114, 97, 105, 110,
    ];
    let mut v: Vec<u8> = Vec::new();
    push_all(&mut v, &domain);
    push_u64_le(&mut v, counter);
    assert(domain@ =~= drain_domain());
    assert(v@ =~= drain_domain() + u64_le(counter));
    v
}

} // verus!
