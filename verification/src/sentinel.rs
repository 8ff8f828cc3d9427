//! Loops: messages a party addresses to a mailbox it owns, so that traffic disappearing is
//! something noticed. A loop is ordinary sealed mail; inside the seal, where only its sender can
//! read it, it carries a marker and a fresh nonce. This is what builds that body and what
//! recognises one coming back.
use vstd::prelude::*;
use crate::codec::{bytes_equal, push_all};

verus! {

/// `KARSTLP1`: marks a message as a loop, inside the seal.
pub open spec fn loop_magic() -> Seq<u8> {
    seq![75u8, 65, 82, 83, 84, 76, 80, 49]
}

/// The body of a loop carrying `nonce`.
pub open spec fn loop_body_spec(nonce: Seq<u8>) -> Seq<u8> {
    loop_magic() + nonce
}

/// What a collected message says as a loop: its nonce when it is exactly a marker and sixteen
/// bytes, nothing otherwise.
pub open spec fn loop_nonce_spec(m: Seq<u8>) -> Option<Seq<u8>> {
    if m.len() == 24 && m.subrange(0, 8) == loop_magic() {
        Some(m.subrange(8, 24))
    } else {
        None
    }
}

fn magic() -> (m: [u8; 8])
    ensures
        m@ == loop_magic(),
{
    let m: [u8; 8] = [75, 65, 82, 83, 84, 76, 80, 49];
    assert(m@ =~= loop_magic());
    m
}

/// The body of a loop carrying `nonce`: the marker, then the nonce.
pub fn loop_body(nonce: &[u8; 16]) -> (b: Vec<u8>)
    ensures
        b@ == loop_body_spec(nonce@),
{
    let mut b: Vec<u8> = Vec::new();
    push_all(&mut b, &magic());
    push_all(&mut b, nonce);
    b
}

/// The nonce a collected message carries when it is a loop. A message that is not one is left
/// for the application.
pub fn loop_nonce(message: &[u8]) -> (r: Option<[u8; 16]>)
    ensures
        match r {
            Some(n) => loop_nonce_spec(message@) == Some(n@),
            None => loop_nonce_spec(message@) is None,
        },
{
    if message.len() != 24 {
        return None;
    }
    let mut head: [u8; 8] = [0u8; 8];
    let mut nonce: [u8; 16] = [0u8; 16];
    let mut i: usize = 0;
    while i < 24
        invariant
            i <= 24,
            message@.len() == 24,
            forall|k: int| 0 <= k < i && k < 8 ==> head@[k] == message@[k],
            forall|k: int| 8 <= k < i ==> nonce@[k - 8] == message@[k],
        decreases 24 - i,
    {
        if i < 8 {
            head[i] = message[i];
        } else {
            nonce[i - 8] = message[i];
        }
        i += 1;
    }
    assert(head@ =~= message@.subrange(0, 8));
    assert(nonce@ =~= message@.subrange(8, 24));
    if bytes_equal(&head, &magic()) {
        Some(nonce)
    } else {
        None
    }
}

/// Law: a loop's body is recognised as a loop carrying the nonce it was built with, and nothing
/// of another width is.
pub proof fn law_a_loop_comes_back_as_itself(nonce: Seq<u8>, m: Seq<u8>)
    requires
        nonce.len() == 16,
    ensures
        loop_nonce_spec(loop_body_spec(nonce)) == Some(nonce),
        m.len() != 24 ==> loop_nonce_spec(m) is None,
{
    let b = loop_body_spec(nonce);
    assert(b.subrange(0, 8) =~= loop_magic());
    assert(b.subrange(8, 24) =~= nonce);
}

} // verus!
