use karst::sentinel::{loop_body, loop_nonce};

#[test]
fn ordinary_messages_are_not_absorbed() {
    assert!(loop_nonce(b"").is_none());
    assert!(loop_nonce(b"hello").is_none());
    assert!(loop_nonce(&vec![0u8; 24]).is_none());
    assert!(loop_nonce(&[b'X'; 24]).is_none());
}

// A loop's body comes back as a loop carrying its nonce, and nothing else is.
#[test]
fn a_loop_body_carries_its_nonce_back() {
    let nonce = [0xabu8; 16];
    let body = loop_body(&nonce);
    assert_eq!(body.len(), 24);
    assert_eq!(&body[..8], b"KARSTLP1");
    assert_eq!(loop_nonce(&body), Some(nonce));
    let mut longer = body.clone();
    longer.push(0);
    assert_eq!(loop_nonce(&longer), None);
}
