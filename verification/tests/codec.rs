use karst::codec::{Cid, Dec, DecodeError, Enc, HashAlg, CURRENT_HASH};

#[test]
fn encoding_is_deterministic() {
    let mut a = Enc::new();
    a.str("x").u64(7).bool(true);
    let mut b = Enc::new();
    b.str("x").u64(7).bool(true);
    assert_eq!(a.finish(), b.finish());
    assert_eq!(a.hash(), b.hash());
}

#[test]
fn length_prefixing_prevents_field_confusion() {
    let mut a = Enc::new();
    a.str("ab").str("c");
    let mut b = Enc::new();
    b.str("a").str("bc");
    assert_ne!(a.finish(), b.finish());
}

#[test]
fn an_unknown_hash_algorithm_is_refused_rather_than_guessed() {
    assert!(Cid::from_parts(0xEE, &[0u8; 32]).is_none());
    // Right algorithm, wrong length: also refused rather than truncated or padded.
    assert!(Cid::from_parts(HashAlg::Blake3.tag(), &[0u8; 31]).is_none());
    assert!(Cid::from_parts(HashAlg::Blake3.tag(), &[0u8; 32]).is_some());
}

#[test]
fn a_content_address_says_which_hash_produced_it() {
    let c = Cid::of(b"hello");
    assert_eq!(c.alg(), Some(CURRENT_HASH));
    assert_eq!(c.as_bytes().len(), CURRENT_HASH.digest_len());
    // The encoding carries the tag, so a decoder knows what to verify against.
    let mut e = Enc::new();
    e.cid(&c);
    let bytes = e.finish();
    assert_eq!(bytes[0], HashAlg::Blake3.tag());
    let mut d = Dec::new(&bytes);
    assert_eq!(d.cid().unwrap(), c);
    d.end().unwrap();
}

// Every value written reads back, in order, and the decoder ends exactly at the end.
#[test]
fn what_is_written_reads_back() {
    let c = Cid::of(b"x");
    let mut e = Enc::new();
    e.u8(9).u64(1 << 40).i64(-5).bool(false).bytes(&[1, 2, 3]).str("héllo").cid(&c).opt_cid(None).opt_cid(Some(&c));
    let bytes = e.finish();
    let mut d = Dec::new(&bytes);
    assert_eq!(d.u8(), Ok(9));
    assert_eq!(d.u64(), Ok(1 << 40));
    assert_eq!(d.i64(), Ok(-5));
    assert_eq!(d.bool(), Ok(false));
    assert_eq!(d.bytes(), Ok(&[1u8, 2, 3][..]));
    assert_eq!(d.str(), Ok("héllo".to_string()));
    assert_eq!(d.cid(), Ok(c));
    assert_eq!(d.opt_cid(), Ok(None));
    assert_eq!(d.opt_cid(), Ok(Some(c)));
    assert_eq!(d.end(), Ok(()));
}

// Each decoding error comes from the input that causes it.
#[test]
fn each_decoding_error_has_its_cause() {
    let mut d = Dec::new(&[1, 2, 3]);
    assert_eq!(d.u64(), Err(DecodeError::Truncated));
    let d = Dec::new(&[1]);
    assert_eq!(d.end(), Err(DecodeError::TrailingBytes));
    let mut d = Dec::new(&[2]);
    assert_eq!(d.bool(), Err(DecodeError::UnknownTag(2)));
    let mut d = Dec::new(&[2, 0, 0, 0, 0xff, 0xfe]);
    assert_eq!(d.str(), Err(DecodeError::BadUtf8));
    assert_eq!(DecodeError::Truncated.describe(), "input truncated");
    assert_eq!(DecodeError::UnknownTag(9).describe(), "unknown tag byte");
}

// Two encoders differing in one value produce different content identifiers.
#[test]
fn a_content_identifier_names_the_bytes() {
    let mut a = Enc::new();
    a.u64(1);
    let mut b = Enc::new();
    b.u64(2);
    assert_ne!(a.hash(), b.hash());
    assert_eq!(a.hash(), Cid::of(&a.finish()));
    assert_eq!(Cid::of(b"abc").as_bytes(), blake3::hash(b"abc").as_bytes());
}

// A short name is `c:` and the first five digest bytes in lowercase hexadecimal.
#[test]
fn a_short_name_is_the_first_five_digest_bytes() {
    let c = Cid::of(b"an earlier note");
    let expected: String = c.as_bytes()[..5].iter().map(|b| format!("{b:02x}")).collect();
    assert_eq!(c.short(), format!("c:{expected}"));
    assert_eq!(c.short().len(), 12);
    assert_ne!(c.short(), Cid::of(b"another note").short());
}
