use karst::client::mailbox_tag;
use karst::frame::{split, BODY_BYTES, ENVELOPE_BYTES, ENV_OPEN, FRAGMENT_BYTES, INNER_BYTES, MAILBOX_BYTES};
use karst::mail::{open_payload, sealed_payload, Mailbox};
use karst::seal::SealingKey;

fn mailbox(seed: u8) -> Mailbox {
    Mailbox::new(mailbox_tag(&[seed; 32]), SealingKey::from_seed([seed; 32]))
}

/// What a provider files: the payload less its tag.
fn envelope(payload: &[u8]) -> Vec<u8> {
    payload[MAILBOX_BYTES..].to_vec()
}

#[test]
fn two_clients_exchange_a_message() {
    let mut bob = mailbox(2);
    let frags = split([1; 16], b"hello bob").unwrap();
    let mut got = None;
    for f in &frags {
        let p = sealed_payload(&bob.tag(), &bob.sealing_public(), f).unwrap();
        assert_eq!(p.len(), FRAGMENT_BYTES);
        assert_eq!(&p[..MAILBOX_BYTES], &bob.tag());
        let e = envelope(&p);
        assert_eq!(e.len(), ENVELOPE_BYTES);
        got = bob.accept(&e).or(got);
    }
    assert_eq!(got.unwrap(), b"hello bob".to_vec());
}

#[test]
fn a_multi_fragment_message_arrives_whole() {
    let mut bob = mailbox(3);
    let big: Vec<u8> = (0..5000u32).map(|i| (i * 7) as u8).collect();
    let frags = split([2; 16], &big).unwrap();
    assert!(frags.len() > 5);
    let mut got = None;
    for f in frags.iter().rev() {
        let p = sealed_payload(&bob.tag(), &bob.sealing_public(), f).unwrap();
        got = bob.accept(&envelope(&p)).or(got);
    }
    assert_eq!(got.unwrap(), big);
}

#[test]
fn mail_does_not_open_for_the_wrong_recipient() {
    let bob = mailbox(2);
    let mut carol = mailbox(3);
    let f = &split([3; 16], b"for bob").unwrap()[0];
    let p = sealed_payload(&bob.tag(), &bob.sealing_public(), f).unwrap();
    assert!(carol.accept(&envelope(&p)).is_none());
}

#[test]
fn mail_lifted_into_another_box_does_not_open() {
    let mut bob = mailbox(2);
    let f = &split([4; 16], b"x").unwrap()[0];
    // Sealed to bob's key but filed under another tag.
    let p = sealed_payload(&mailbox_tag(&[9; 32]), &bob.sealing_public(), f).unwrap();
    assert!(bob.accept(&envelope(&p)).is_none());
}

#[test]
fn an_open_envelope_is_never_accepted_from_a_private_mailbox() {
    let mut bob = mailbox(2);
    let f = &split([5; 16], b"injected").unwrap()[0];
    let p = open_payload(&bob.tag(), f, &[0u8; BODY_BYTES - INNER_BYTES]);
    assert_eq!(p.len(), FRAGMENT_BYTES);
    assert_eq!(p[MAILBOX_BYTES], ENV_OPEN);
    assert!(bob.accept(&envelope(&p)).is_none());
}

#[test]
fn a_hostile_provider_cannot_inject_content() {
    let mut bob = mailbox(2);
    let f = &split([6; 16], b"genuine").unwrap()[0];
    let p = sealed_payload(&bob.tag(), &bob.sealing_public(), f).unwrap();
    let e = envelope(&p);
    for i in 0..e.len() {
        let mut bad = e.clone();
        bad[i] ^= 0x03;
        assert!(bob.accept(&bad).is_none(), "byte {i}");
    }
    assert_eq!(bob.accept(&e).unwrap(), b"genuine".to_vec());
}

#[test]
fn message_length_is_not_visible_to_the_provider() {
    let bob = mailbox(2);
    let short = &split([7; 16], b"a").unwrap()[0];
    let long = &split([8; 16], &[1u8; 600]).unwrap()[0];
    let a = sealed_payload(&bob.tag(), &bob.sealing_public(), short).unwrap();
    let b = sealed_payload(&bob.tag(), &bob.sealing_public(), long).unwrap();
    let c = open_payload(&bob.tag(), short, &[7u8; BODY_BYTES - INNER_BYTES]);
    assert_eq!(a.len(), b.len());
    assert_eq!(a.len(), c.len());
}
