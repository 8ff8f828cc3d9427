use karst::client::mailbox_tag;
use karst::frame::{ENVELOPE_BYTES, MAILBOX_BYTES};
use karst::provider::{DepositError, DrainError, Provider, MAX_REFUSAL_MEMORY};

fn payload(tag: u8, body: u8) -> Vec<u8> {
    let mut v = vec![tag; MAILBOX_BYTES];
    v.extend(std::iter::repeat(body).take(ENVELOPE_BYTES));
    v
}

fn tagged(tag: &[u8; MAILBOX_BYTES], body: u8) -> Vec<u8> {
    let mut v = tag.to_vec();
    v.extend(std::iter::repeat(body).take(ENVELOPE_BYTES));
    v
}

#[test]
fn draining_a_box_does_not_leave_it_behind() {
    let mut p = Provider::new();
    for i in 0..5_000u32 {
        let mut tag = [0u8; MAILBOX_BYTES];
        tag[..4].copy_from_slice(&i.to_le_bytes());
        p.deposit(&tagged(&tag, 7)).unwrap();
        assert!(p.take_one(&tag).0.is_some());
    }
    assert_eq!(p.held(), 0);
    assert_eq!(p.boxes(), 0, "an emptied box with nothing to report was kept");
}

#[test]
fn a_refusal_count_outlives_the_box_but_not_without_limit() {
    let mut p = Provider::with_limits(1, 1 << 20);
    let mut tag = [9u8; MAILBOX_BYTES];
    p.deposit(&tagged(&tag, 1)).unwrap();
    assert_eq!(p.deposit(&tagged(&tag, 2)), Err(DepositError::BoxFull));
    assert_eq!(p.take_one(&tag), (Some(vec![1u8; ENVELOPE_BYTES]), 1));
    assert_eq!(p.boxes(), 1, "the refusal count was dropped with the box");

    for i in 0..(MAX_REFUSAL_MEMORY as u32 + 64) {
        tag = [0u8; MAILBOX_BYTES];
        tag[..4].copy_from_slice(&i.to_le_bytes());
        p.deposit(&tagged(&tag, 1)).unwrap();
        p.deposit(&tagged(&tag, 2)).ok();
        p.take_one(&tag);
    }
    assert!(p.boxes() <= MAX_REFUSAL_MEMORY + 1);
    assert!(p.forgotten() > 0, "eviction must be countable, not silent");
}

#[test]
fn a_drain_request_authorises_exactly_one_drain() {
    let pk = [3u8; 32];
    let tag = mailbox_tag(&pk);

    let mut p = Provider::new();
    p.deposit(&tagged(&tag, 1)).unwrap();
    p.deposit(&tagged(&tag, 2)).unwrap();

    // The honest drain works.
    assert_eq!(p.drain_once(&tag, &pk, 1, true).unwrap().0, Some(vec![1u8; ENVELOPE_BYTES]));

    // The identical request, replayed, does not.
    assert_eq!(p.drain_once(&tag, &pk, 1, true), Err(DrainError::Replayed));
    assert_eq!(p.held(), 1, "a replay took a second item");

    // A stranger presenting their own key cannot drain this box.
    let thief = [4u8; 32];
    assert_eq!(p.drain_once(&tag, &thief, 9, true), Err(DrainError::NotYours));

    // Nor by claiming the owner's key without the signature to match.
    assert_eq!(p.drain_once(&tag, &pk, 2, false), Err(DrainError::NotYours));
    assert_eq!(p.held(), 1);

    // The owner's next counter still works.
    assert!(p.drain_once(&tag, &pk, 2, true).unwrap().0.is_some());
}

#[test]
fn an_emptied_box_remembers_what_has_already_been_spent() {
    let pk = [5u8; 32];
    let tag = mailbox_tag(&pk);

    let mut p = Provider::new();
    p.deposit(&tagged(&tag, 1)).unwrap();
    assert!(p.drain_once(&tag, &pk, 7, true).unwrap().0.is_some());
    assert_eq!(p.held(), 0);

    p.deposit(&tagged(&tag, 2)).unwrap();
    assert_eq!(p.drain_once(&tag, &pk, 7, true), Err(DrainError::Replayed));
    assert_eq!(p.held(), 1, "a replayed request stole newly arrived mail");
}

#[test]
fn mail_left_in_a_box_is_there_when_collected() {
    let mut p = Provider::new();
    p.deposit(&payload(1, 10)).unwrap();
    p.deposit(&payload(1, 11)).unwrap();
    p.deposit(&payload(2, 20)).unwrap();

    let c = p.collect(&[1u8; 32]);
    assert_eq!(c.items.len(), 2);
    assert_eq!(c.refused, 0);
    assert_eq!(p.collect(&[2u8; 32]).items.len(), 1);
}

#[test]
fn collection_empties_the_box() {
    let mut p = Provider::new();
    p.deposit(&payload(1, 10)).unwrap();
    assert_eq!(p.collect(&[1u8; 32]).items.len(), 1);
    assert_eq!(p.collect(&[1u8; 32]).items.len(), 0);
    assert_eq!(p.held(), 0);
}

#[test]
fn an_unknown_tag_is_indistinguishable_from_an_empty_box() {
    let mut p = Provider::new();
    p.deposit(&payload(1, 10)).unwrap();
    let emptied = p.collect(&[1u8; 32]);
    let never_used = p.collect(&[99u8; 32]);
    assert_eq!(p.collect(&[1u8; 32]), never_used);
    assert_eq!(emptied.refused, never_used.refused);
}

#[test]
fn a_full_box_preserves_what_it_holds() {
    let mut p = Provider::with_limits(4, 100);
    for i in 0..4 {
        p.deposit(&payload(1, i)).unwrap();
    }
    assert_eq!(p.deposit(&payload(1, 99)), Err(DepositError::BoxFull));

    let c = p.collect(&[1u8; 32]);
    assert_eq!(c.items.len(), 4);
    for (i, item) in c.items.iter().enumerate() {
        assert_eq!(item[0], i as u8);
    }
}

#[test]
fn refused_deposits_are_reported_on_collection() {
    let mut p = Provider::with_limits(2, 100);
    p.deposit(&payload(1, 0)).unwrap();
    p.deposit(&payload(1, 1)).unwrap();
    for _ in 0..17 {
        let _ = p.deposit(&payload(1, 2));
    }
    let c = p.collect(&[1u8; 32]);
    assert_eq!(c.items.len(), 2);
    assert_eq!(c.refused, 17, "the owner was not told mail was lost");
}

#[test]
fn one_box_cannot_exhaust_the_provider() {
    let mut p = Provider::with_limits(8, 32);
    for i in 0..100u8 {
        let _ = p.deposit(&payload(1, i));
    }
    assert_eq!(p.held(), 8);
    assert!(p.deposit(&payload(2, 0)).is_ok());
}

#[test]
fn wrong_sized_payloads_are_refused() {
    let mut p = Provider::new();
    for n in [0usize, 31, MAILBOX_BYTES, MAILBOX_BYTES + ENVELOPE_BYTES - 1, 4096] {
        assert_eq!(p.deposit(&vec![0u8; n]), Err(DepositError::WrongSize));
    }
    assert_eq!(p.held(), 0);
}

#[test]
fn taking_one_item_preserves_the_refusal_count() {
    let mut p = Provider::with_limits(2, 100);
    p.deposit(&payload(1, 0)).unwrap();
    p.deposit(&payload(1, 1)).unwrap();
    for _ in 0..9 {
        let _ = p.deposit(&payload(1, 2));
    }

    let (item, refused) = p.take_one(&[1u8; 32]);
    assert!(item.is_some());
    assert_eq!(refused, 9);
    let (item, refused) = p.take_one(&[1u8; 32]);
    assert!(item.is_some());
    assert_eq!(refused, 9, "the count was destroyed by reading");
    assert_eq!(p.take_one(&[1u8; 32]).0, None);
}

#[test]
fn peeking_does_not_drain_a_feed() {
    let mut p = Provider::new();
    for i in 0..5 {
        p.deposit(&payload(9, i)).unwrap();
    }
    let tag = [9u8; 32];
    for _ in 0..100 {
        for i in 0..5 {
            assert!(p.peek(&tag, i).0.is_some(), "an item vanished on read");
        }
    }
    assert_eq!(p.depth(&tag), 5);
    assert_eq!(p.peek(&tag, 5).0, None);
}

#[test]
fn peeking_an_unknown_tag_is_indistinguishable_from_an_empty_box() {
    let mut p = Provider::new();
    p.deposit(&payload(1, 0)).unwrap();
    let _ = p.take_one(&[1u8; 32]);
    assert_eq!(p.peek(&[1u8; 32], 0), p.peek(&[123u8; 32], 0));
}

// The provider as a whole refuses once it holds its total, and says so.
#[test]
fn a_full_provider_refuses_as_a_whole() {
    let mut p = Provider::with_limits(8, 3);
    for i in 0..3u8 {
        p.deposit(&payload(i, 0)).unwrap();
    }
    assert_eq!(p.deposit(&payload(7, 0)), Err(DepositError::ProviderFull));
    assert_eq!(p.held(), 3);
    assert_eq!(p.boxes(), 3);
}

// A tag is the hash of the drain key it belongs to, so changing the key changes the tag.
#[test]
fn a_mailbox_tag_is_bound_to_its_drain_key() {
    let a = mailbox_tag(&[1u8; 32]);
    let b = mailbox_tag(&[2u8; 32]);
    assert_ne!(a, b);
    assert_ne!(a, [1u8; 32]);
    assert_eq!(a, mailbox_tag(&[1u8; 32]));
}

// A drain on a box that never held mail records its counter, so that counter is spent.
#[test]
fn a_counter_is_spent_even_on_an_empty_box() {
    let pk = [6u8; 32];
    let tag = mailbox_tag(&pk);
    let mut p = Provider::new();
    assert_eq!(p.drain_once(&tag, &pk, 3, true), Ok((None, 0)));
    assert_eq!(p.drain_once(&tag, &pk, 3, true), Err(DrainError::Replayed));
    assert_eq!(p.boxes(), 1);
}
