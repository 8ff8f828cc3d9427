use karst::collect::{
    answer, parse_request, Collector, Request, MAX_OUTSTANDING, REQUEST_BYTES, REQ_DRAIN, REQ_READ,
    RESPONSE_BYTES,
};
use karst::frame::{split, ENVELOPE_BYTES};
use karst::mail::open_payload;
use karst::provider::Provider;

const PROVIDER: [u8; 18] = [1; 18];
const ELSEWHERE: [u8; 18] = [2; 18];
const FEED: [u8; 32] = [7; 32];

/// The answer a provider would send: the refusal count, the nonce echoed, the body.
fn reply(refused: u64, request: &[u8], body: &[u8]) -> Vec<u8> {
    let mut r = Vec::new();
    r.extend_from_slice(&refused.to_le_bytes());
    r.extend_from_slice(&request[41..49]);
    r.extend_from_slice(body);
    r
}

/// An open envelope carrying one fragment of a feed item.
fn feed_body(text: &[u8]) -> Vec<u8> {
    let frags = split([3u8; 16], text).unwrap();
    let p = open_payload(&FEED, &frags[0], &[0u8; 48]);
    p[32..].to_vec()
}

fn filler() -> Vec<u8> {
    vec![0x5a; ENVELOPE_BYTES]
}

#[test]
fn a_second_drain_is_not_discarded_as_stale() {
    let mut c = Collector::new();
    let mailbox = [9u8; 32];
    let r1 = c.request_drain(PROVIDER, mailbox, [4u8; 32], 1, [0u8; 64]);
    let r2 = c.request_drain(PROVIDER, mailbox, [4u8; 32], 2, [0u8; 64]);
    c.absorb(PROVIDER, &reply(0, &r1, &filler()));
    c.absorb(PROVIDER, &reply(0, &r2, &filler()));
    assert_eq!(c.take(&PROVIDER, &mailbox).len(), 2);
    assert_eq!(c.outstanding(), 0);
}

#[test]
fn an_empty_answer_does_not_advance_past_an_object_that_has_not_arrived() {
    let mut c = Collector::new();
    let r = c.request_read(PROVIDER, FEED);
    assert_eq!(r[0], REQ_READ);
    assert_eq!(&r[33..41], &0u64.to_le_bytes());
    c.absorb(PROVIDER, &reply(0, &r, &filler()));
    assert_eq!(c.cursor(&PROVIDER, &FEED), 0, "an empty answer advanced the cursor");

    let r = c.request_read(PROVIDER, FEED);
    c.absorb(PROVIDER, &reply(0, &r, &feed_body(b"first object")));
    assert_eq!(c.cursor(&PROVIDER, &FEED), 1, "a served item did not advance the cursor");

    let r = c.request_read(PROVIDER, FEED);
    assert_eq!(&r[33..41], &1u64.to_le_bytes());
}

#[test]
fn a_response_matching_every_public_field_is_still_refused() {
    let mut c = Collector::new();
    let r = c.request_read(PROVIDER, FEED);
    let mut forged = reply(0, &r, &feed_body(b"forged"));
    forged[8] ^= 1;
    c.absorb(PROVIDER, &forged);
    assert_eq!(c.cursor(&PROVIDER, &FEED), 0);
    assert!(c.take(&PROVIDER, &FEED).is_empty());
    assert_eq!(c.outstanding(), 1, "a forged answer retired the request");
}

#[test]
fn a_refusal_count_is_not_overwritten_by_a_later_poll() {
    let mut c = Collector::new();
    let r1 = c.request_read(PROVIDER, FEED);
    c.absorb(PROVIDER, &reply(7, &r1, &filler()));
    let r2 = c.request_drain(PROVIDER, [9u8; 32], [4u8; 32], 1, [0u8; 64]);
    c.absorb(PROVIDER, &reply(0, &r2, &filler()));
    assert_eq!(c.refused_seen(), 7);
}

#[test]
fn an_unsolicited_response_is_dropped() {
    let mut c = Collector::new();
    let r = c.request_read(PROVIDER, FEED);
    c.absorb(ELSEWHERE, &reply(3, &r, &feed_body(b"x")));
    assert!(c.take(&ELSEWHERE, &FEED).is_empty());
    assert!(c.take(&PROVIDER, &FEED).is_empty());
    assert_eq!(c.refused_seen(), 0);
    assert_eq!(c.outstanding(), 1);

    let mut short = reply(0, &r, &feed_body(b"x"));
    short.pop();
    c.absorb(PROVIDER, &short);
    assert_eq!(c.outstanding(), 1);
}

#[test]
fn nothing_on_the_wire_can_move_the_cursor() {
    let mut c = Collector::new();
    for i in 0..50u8 {
        let mut junk = vec![i; RESPONSE_BYTES];
        junk[16..].copy_from_slice(&feed_body(b"unasked"));
        c.absorb(PROVIDER, &junk);
    }
    assert_eq!(c.cursor(&PROVIDER, &FEED), 0);
    assert_eq!(c.refused_seen(), 0);
}

#[test]
fn a_delivery_and_an_empty_poll_look_the_same_on_the_wire() {
    let mut store = Provider::new();
    let item = feed_body(b"something");
    let mut payload = FEED.to_vec();
    payload.extend_from_slice(&item);
    store.deposit(&payload).unwrap();

    let mut c = Collector::new();
    let full = c.request_read(PROVIDER, FEED);
    let empty = {
        let mut e = full.clone();
        e[33] = 5;
        e
    };
    let q_full = parse_request(&full).unwrap();
    let q_empty = parse_request(&empty).unwrap();
    let a = answer(&mut store, &q_full, false);
    let b = answer(&mut store, &q_empty, false);
    assert_eq!(a.len(), RESPONSE_BYTES);
    assert_eq!(b.len(), RESPONSE_BYTES);
    assert_eq!(&a[16..], &item[..]);
    assert_eq!(&a[..16], &b[..16]);
    c.absorb(PROVIDER, &a);
    assert_eq!(c.take(&PROVIDER, &FEED), vec![item]);
}

#[test]
fn unanswered_requests_do_not_accumulate_without_limit() {
    let mut c = Collector::new();
    for _ in 0..(MAX_OUTSTANDING + 100) {
        c.request_read(PROVIDER, FEED);
    }
    assert_eq!(c.outstanding(), MAX_OUTSTANDING);
    assert_eq!(c.requests_made(), (MAX_OUTSTANDING + 100) as u64);
}

// A request is parsed only at its exact width, and reads back as what was asked.
#[test]
fn a_request_reads_back_as_asked() {
    let mut c = Collector::new();
    let r = c.request_drain(PROVIDER, [9u8; 32], [4u8; 32], 77, [6u8; 64]);
    assert_eq!(r.len(), REQUEST_BYTES);
    assert_eq!(r[0], REQ_DRAIN);
    let mut nonce = [0u8; 8];
    nonce.copy_from_slice(&r[41..49]);
    assert_eq!(
        parse_request(&r),
        Some(Request::Drain { key: [4u8; 32], counter: 77, signature: [6u8; 64], nonce })
    );
    assert_eq!(parse_request(&r[..REQUEST_BYTES - 1]), None);
    let mut odd = r.clone();
    odd[0] = 9;
    assert_eq!(parse_request(&odd), Some(Request::Other { nonce }));
}

// A drain whose signature did not verify takes nothing and answers like an empty box.
#[test]
fn an_unverified_drain_takes_nothing() {
    let mut store = Provider::new();
    let key = [4u8; 32];
    let tag = karst::client::mailbox_tag(&key);
    let mut payload = tag.to_vec();
    payload.extend_from_slice(&vec![1u8; ENVELOPE_BYTES]);
    store.deposit(&payload).unwrap();
    let q = Request::Drain { key, counter: 1, signature: [0u8; 64], nonce: [5u8; 8] };
    let a = answer(&mut store, &q, false);
    assert_eq!(a.len(), RESPONSE_BYTES);
    assert_eq!(&a[8..16], &[5u8; 8]);
    assert_eq!(store.held(), 1);
    let b = answer(&mut store, &q, true);
    assert_eq!(&b[16..], &vec![1u8; ENVELOPE_BYTES][..]);
    assert_eq!(store.held(), 0);
}
