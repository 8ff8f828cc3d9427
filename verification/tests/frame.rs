use karst::frame::{split, FrameError, Fragment, Reassembler, DATA_BYTES, INNER_BYTES, INNER_HEADER};

fn round_trip(msg: &[u8]) -> Vec<u8> {
    let frags = split([1u8; 16], msg).unwrap();
    let mut r = Reassembler::new();
    let mut out = None;
    for f in frags {
        let wire = f.encode();
        assert_eq!(wire.len(), INNER_BYTES, "a fragment was not full size");
        let back = Fragment::decode(&wire).unwrap();
        if let Some(m) = r.accept(back).unwrap() {
            out = Some(m);
        }
    }
    out.expect("never completed")
}

#[test]
fn messages_of_every_shape_round_trip() {
    assert_eq!(round_trip(b""), b"");
    assert_eq!(round_trip(b"hello"), b"hello");
    let big: Vec<u8> = (0..DATA_BYTES * 7 + 13).map(|i| (i % 251) as u8).collect();
    assert_eq!(round_trip(&big), big);
    let exact: Vec<u8> = vec![9u8; DATA_BYTES * 3];
    assert_eq!(round_trip(&exact), exact);
}

#[test]
fn a_one_byte_message_looks_exactly_like_a_full_one() {
    let a = split([1u8; 16], b"x").unwrap()[0].encode();
    let b = split([2u8; 16], &vec![7u8; DATA_BYTES]).unwrap()[0].encode();
    assert_eq!(a.len(), b.len());
    assert_eq!(a.len(), INNER_BYTES);
}

#[test]
fn order_does_not_matter() {
    let big: Vec<u8> = (0..DATA_BYTES * 5).map(|i| (i % 251) as u8).collect();
    let mut frags = split([3u8; 16], &big).unwrap();
    frags.reverse();
    let mut r = Reassembler::new();
    let mut out = None;
    for f in frags {
        if let Some(m) = r.accept(f).unwrap() {
            out = Some(m);
        }
    }
    assert_eq!(out.unwrap(), big);
}

#[test]
fn a_later_fragment_cannot_overwrite_an_earlier_one() {
    let big: Vec<u8> = vec![1u8; DATA_BYTES * 2];
    let frags = split([4u8; 16], &big).unwrap();
    let mut r = Reassembler::new();
    r.accept(frags[0].clone()).unwrap();

    let mut forged = frags[0].clone();
    forged.data = vec![0xFF; DATA_BYTES];
    r.accept(forged).unwrap();

    let out = r.accept(frags[1].clone()).unwrap().unwrap();
    assert_eq!(out, big, "a forged duplicate replaced genuine content");
}

#[test]
fn inconsistent_totals_are_refused() {
    let mut r = Reassembler::new();
    let base = Fragment {
        msg_id: [5u8; 16],
        index: 0,
        total: 4,
        data: vec![1],
    };
    r.accept(base.clone()).unwrap();
    let mut lying = base.clone();
    lying.total = 9;
    lying.index = 1;
    assert_eq!(r.accept(lying), Err(FrameError::Inconsistent));
}

#[test]
fn an_absurd_fragment_count_is_refused() {
    let mut r = Reassembler::new();
    assert_eq!(
        r.accept(Fragment {
            msg_id: [6u8; 16],
            index: 0,
            total: u16::MAX,
            data: vec![],
        }),
        Err(FrameError::Malformed)
    );
    assert_eq!(r.tracking(), 0);
}

#[test]
fn incomplete_messages_do_not_accumulate_without_bound() {
    let mut r = Reassembler::with_capacity(16);
    for i in 0..10_000u32 {
        let mut id = [0u8; 16];
        id[..4].copy_from_slice(&i.to_le_bytes());
        r.accept(Fragment {
            msg_id: id,
            index: 0,
            total: 8,
            data: vec![1],
        })
        .unwrap();
    }
    assert_eq!(r.tracking(), 16);
}

#[test]
fn short_and_long_encodings_are_refused() {
    let good = Fragment {
        msg_id: [7u8; 16],
        index: 0,
        total: 1,
        data: vec![1, 2, 3],
    }
    .encode();
    for n in [0usize, 1, INNER_HEADER, INNER_BYTES - 1] {
        assert_eq!(Fragment::decode(&good[..n]), Err(FrameError::Malformed));
    }
    let mut long = good.to_vec();
    long.push(0);
    assert_eq!(Fragment::decode(&long), Err(FrameError::Malformed));
}

#[test]
fn an_overlong_length_field_is_refused() {
    let mut bytes = Fragment {
        msg_id: [8u8; 16],
        index: 0,
        total: 1,
        data: vec![1],
    }
    .encode();
    bytes[20..22].copy_from_slice(&(DATA_BYTES as u16 + 1).to_le_bytes());
    assert_eq!(Fragment::decode(&bytes), Err(FrameError::Malformed));
}

// The fragment encoding read back gives exactly the fragment written.
#[test]
fn a_fragment_reads_back_as_written() {
    let f = Fragment {
        msg_id: [0xabu8; 16],
        index: 3,
        total: 9,
        data: vec![5, 6, 7, 8],
    };
    assert_eq!(Fragment::decode(&f.encode()), Ok(f));
}

// A message split into fragments carries its bytes in order, a full chunk per fragment but
// the last.
#[test]
fn split_chunks_rebuild_the_message() {
    let big: Vec<u8> = (0..DATA_BYTES * 2 + 5).map(|i| (i % 7) as u8).collect();
    let frags = split([9u8; 16], &big).unwrap();
    assert_eq!(frags.len(), 3);
    let mut joined = Vec::new();
    for (i, f) in frags.iter().enumerate() {
        assert_eq!(f.index as usize, i);
        assert_eq!(f.total, 3);
        joined.extend_from_slice(&f.data);
    }
    assert_eq!(joined, big);
    assert_eq!(frags[2].data.len(), 5);
}

// Padding that is not zero is refused, so an accepted fragment re-encodes to itself.
#[test]
fn non_zero_padding_is_refused() {
    let f = split([3u8; 16], b"short").unwrap().remove(0);
    let good = f.encode();
    assert_eq!(Fragment::decode(&good).unwrap().encode(), good);
    let mut bad = good;
    bad[INNER_HEADER + 5] = 1;
    assert_eq!(Fragment::decode(&bad), Err(FrameError::Malformed));
    let mut last = good;
    last[INNER_BYTES - 1] = 0xff;
    assert_eq!(Fragment::decode(&last), Err(FrameError::Malformed));
}
