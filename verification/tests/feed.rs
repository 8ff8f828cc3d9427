use karst::codec::Address;
use karst::feed::{feed_tag, FeedReader, FeedStats};
use karst::frame::{split, ENVELOPE_BYTES, ENV_OPEN, ENV_SEALED};

fn addr(n: u8) -> Address {
    Address::from_raw([n; 32])
}

/// An open envelope carrying one fragment.
fn envelopes(msg_id: [u8; 16], message: &[u8], kind: u8) -> Vec<Vec<u8>> {
    split(msg_id, message)
        .unwrap()
        .iter()
        .map(|f| {
            let mut e = vec![kind];
            e.extend_from_slice(&f.encode());
            e.resize(ENVELOPE_BYTES, 0);
            e
        })
        .collect()
}

#[test]
fn a_feed_rotates_between_epochs() {
    let a = addr(1);
    let b = addr(2);
    assert_ne!(feed_tag(&a, 0), feed_tag(&a, 1));
    assert_ne!(feed_tag(&a, 0), feed_tag(&b, 0));
}

#[test]
fn a_feed_tag_is_the_hash_of_the_domain_the_address_and_the_epoch() {
    let a = addr(7);
    let mut h = blake3::Hasher::new();
    h.update(b"karst.net.v1.feed");
    h.update(a.as_bytes());
    h.update(&42u64.to_le_bytes());
    assert_eq!(feed_tag(&a, 42), *h.finalize().as_bytes());
    assert_eq!(FeedReader::new(a).tag(42), feed_tag(&a, 42));
}

#[test]
fn a_multi_fragment_publication_arrives_whole() {
    let mut feed = FeedReader::new(addr(1));
    let big: Vec<u8> = (0..3000u32).map(|i| i as u8).collect();
    let envs = envelopes([3; 16], &big, ENV_OPEN);
    assert!(envs.len() >= 4);
    let mut got = None;
    for e in &envs {
        if let Some(m) = feed.open(e) {
            got = Some(m);
        }
    }
    assert_eq!(got.unwrap(), big);
}

#[test]
fn a_sealed_or_misshapen_envelope_is_not_read() {
    let mut feed = FeedReader::new(addr(1));
    let sealed = envelopes([4; 16], b"x", ENV_SEALED);
    assert!(feed.open(&sealed[0]).is_none());
    let mut short = envelopes([5; 16], b"x", ENV_OPEN)[0].clone();
    short.pop();
    assert!(feed.open(&short).is_none());
    let whole = envelopes([6; 16], b"x", ENV_OPEN);
    assert_eq!(feed.open(&whole[0]).unwrap(), b"x".to_vec());
}

#[test]
fn a_flood_into_a_public_feed_cannot_forge_content() {
    let alice = addr(1);
    let mut feed = FeedReader::new(alice);
    // Strangers' objects are counted and refused; a failure to decode is counted apart.
    for i in 0..30u8 {
        assert!(!feed.judge(Some(addr(100 + i))));
    }
    assert!(!feed.judge(None));
    assert!(feed.judge(Some(alice)));
    assert_eq!(
        feed.stats(),
        FeedStats {
            accepted: 1,
            undecodable: 1,
            wrong_author: 30,
            conflicting: 0
        }
    );
    assert_eq!(feed.publisher(), alice);
}
