use karst::codec::{Address, Cid};
use karst::object::{Object, ObjectError};
use karst::witness::{Acceptance, Checkpoint, Cosigned, Equivocation, Refusal, Witness, WitnessPolicy};

fn key(n: u32) -> [u8; 32] {
    let mut k = [0u8; 32];
    k[..4].copy_from_slice(&n.to_le_bytes());
    k
}

fn addr_of(k: &[u8; 32]) -> Address {
    Address::from_raw(*blake3::hash(k).as_bytes())
}

fn ident(n: u32) -> Address {
    addr_of(&key(n))
}

/// A stand-in for a signature: a keyed hash under the signer's key.
fn sign(signer: u32, bytes: &[u8]) -> [u8; 64] {
    let h = blake3::keyed_hash(&key(signer), bytes);
    let mut s = [0u8; 64];
    s[..32].copy_from_slice(h.as_bytes());
    s[32..].copy_from_slice(h.as_bytes());
    s
}

fn holds(signer_key: &[u8; 32], bytes: &[u8], sig: &[u8; 64]) -> bool {
    let mut n = [0u8; 4];
    n.copy_from_slice(&signer_key[..4]);
    sign(u32::from_le_bytes(n), bytes) == *sig
}

/// A chain of checkpoints for one publisher, each linking to the last.
fn chain(publisher: u32, digests: &[u8]) -> Vec<Checkpoint> {
    let mut out = Vec::new();
    let mut prev = None;
    for (i, d) in digests.iter().enumerate() {
        let c = Checkpoint {
            publisher: ident(publisher),
            sequence: i as u64 + 1,
            digest: Cid::of(&[*d]),
            prev,
        };
        prev = Some(c.id());
        out.push(c);
    }
    out
}

/// A witness countersigns, signing the bytes the decision names.
fn countersign(w: &mut Witness, who: u32, c: &Checkpoint) -> Result<[u8; 64], Refusal> {
    w.cosign(Some(*c)).map(|bytes| sign(who, &bytes))
}

fn attach(cos: &mut Cosigned, who_key: [u8; 32], sig: [u8; 64]) -> bool {
    let ok = holds(&who_key, &cos.checkpoint.signing_bytes(), &sig);
    cos.attach(Some(addr_of(&who_key)), ok)
}

#[test]
fn a_witness_countersigns_a_forward_checkpoint() {
    let mut w = Witness::new();
    for c in chain(1, &[1, 2, 3]) {
        assert!(w.cosign(Some(c)).is_ok());
    }
    assert_eq!(w.latest(&ident(1)).unwrap().sequence, 3);
}

#[test]
fn countersigned_bytes_are_the_signing_bytes() {
    let mut w = Witness::new();
    let c = chain(1, &[1])[0];
    assert_eq!(w.cosign(Some(c)).unwrap(), c.signing_bytes());
    let b = c.signing_bytes();
    let domain = b"karst.witness.checkpoint.v1";
    assert_eq!(&b[4..4 + domain.len()], domain);
    assert_eq!(&b[4 + domain.len()..4 + domain.len() + 32], ident(1).as_bytes());
}

#[test]
fn a_witness_refuses_anything_the_publisher_did_not_sign() {
    let mut w = Witness::new();
    // An object that did not verify yields no checkpoint at all.
    assert_eq!(w.cosign(None), Err(Refusal::Unsigned));
    // A forged object verifies as its real signer, so it is recorded against the attacker.
    let recovered = Checkpoint {
        publisher: ident(2),
        sequence: 1,
        digest: Cid::of(b"not mine"),
        prev: None,
    };
    assert!(w.cosign(Some(recovered)).is_ok());
    assert!(w.latest(&ident(1)).is_none());
}

#[test]
fn a_stranger_cannot_lock_a_publisher_out_of_a_witness() {
    let mut w = Witness::new();
    let poison = Checkpoint {
        publisher: ident(2),
        sequence: u64::MAX,
        digest: Cid::of(b"x"),
        prev: None,
    };
    let _ = w.cosign(Some(poison));
    let ch = chain(1, &[7]);
    assert!(w.cosign(Some(ch[0])).is_ok());
    assert_eq!(w.latest(&ident(1)).unwrap().sequence, 1);
}

#[test]
fn an_exact_repeat_returns_a_signature_rather_than_a_refusal() {
    let mut w = Witness::new();
    let ch = chain(1, &[1]);
    let first = countersign(&mut w, 100, &ch[0]).unwrap();
    let again = countersign(&mut w, 100, &ch[0]).unwrap();
    assert_eq!(first, again);
}

#[test]
fn two_histories_on_disjoint_sequences_do_not_both_get_countersigned() {
    let mut w = Witness::new();
    let history_a = chain(1, &[1, 2]);
    assert!(w.cosign(Some(history_a[0])).is_ok());
    assert!(w.cosign(Some(history_a[1])).is_ok());
    let forked = Checkpoint {
        publisher: ident(1),
        sequence: 9,
        digest: Cid::of(b"other history"),
        prev: None,
    };
    assert_eq!(w.cosign(Some(forked)), Err(Refusal::NotAChain));
    let wrong_link = Checkpoint {
        prev: Some(history_a[0].id()),
        ..forked
    };
    assert_eq!(w.cosign(Some(wrong_link)), Err(Refusal::NotAChain));
}

#[test]
fn a_witness_refuses_a_regression() {
    let mut w = Witness::new();
    let ch = chain(1, &[1, 2, 3, 4, 5]);
    for c in &ch {
        w.cosign(Some(*c)).unwrap();
    }
    assert_eq!(
        w.cosign(Some(ch[2])),
        Err(Refusal::NotForward { seen: 5, offered: 3 })
    );
}

#[test]
fn a_witness_catches_a_publisher_equivocating() {
    let mut w = Witness::new();
    let ch = chain(1, &[1]);
    w.cosign(Some(ch[0])).unwrap();
    let conflicting = Checkpoint {
        publisher: ident(1),
        sequence: 1,
        digest: Cid::of(b"different"),
        prev: None,
    };
    assert_eq!(
        w.cosign(Some(conflicting)),
        Err(Refusal::Equivocation {
            seen: ch[0].digest,
            offered: conflicting.digest
        })
    );
}

#[test]
fn a_witness_will_not_start_partway_through_a_chain() {
    let ch = chain(1, &[1, 2, 3]);
    let mut fresh = Witness::new();
    assert_eq!(fresh.cosign(Some(ch[2])), Err(Refusal::NotAChain));
    assert!(fresh.cosign(Some(ch[0])).is_ok());
}

#[test]
fn publishers_do_not_share_a_sequence_space() {
    let mut w = Witness::new();
    for c in chain(1, &[1, 2, 3, 4, 5]) {
        w.cosign(Some(c)).unwrap();
    }
    assert!(w.cosign(Some(chain(2, &[1])[0])).is_ok());
}

#[test]
fn a_countersignature_names_its_publisher() {
    let mut w = Witness::new();
    let ch_a = chain(1, &[5]);
    let sig = countersign(&mut w, 100, &ch_a[0]).unwrap();
    let ch_b = chain(2, &[5]);
    let mut lifted = Cosigned::new(ch_b[0]);
    assert!(!attach(&mut lifted, key(100), sig));
}

#[test]
fn a_forged_countersignature_is_refused_on_attachment() {
    let built = chain(1, &[1]);
    let c = built[0];
    let mut cos = Cosigned::new(c);
    assert!(!attach(&mut cos, key(100), sign(101, &c.signing_bytes())));
    assert_eq!(cos.witnesses().len(), 0);
    // A key that is not a key attaches nothing either.
    assert!(!cos.attach(None, true));
}

#[test]
fn signatures_from_unchosen_witnesses_do_not_count() {
    let ch = chain(1, &[1]);
    let mut cos = Cosigned::new(ch[0]);
    let mine: Vec<Address> = (200..203u32).map(ident).collect();
    for i in 1_000..3_000u32 {
        let mut w = Witness::new();
        let sig = countersign(&mut w, i, &ch[0]).unwrap();
        assert!(attach(&mut cos, key(i), sig));
    }
    assert_eq!(cos.witnesses().len(), 2_000);
    assert_eq!(
        WitnessPolicy::new(mine, 2).accept(None, &cos),
        Acceptance::Undersigned {
            support: 0,
            threshold: 2
        }
    );
}

#[test]
fn a_duplicated_witness_counts_once() {
    let ch = chain(1, &[1]);
    let mut cos = Cosigned::new(ch[0]);
    let mut w = Witness::new();
    let sig = countersign(&mut w, 200, &ch[0]).unwrap();
    assert!(attach(&mut cos, key(200), sig));
    // Attaching the same witness again holds it once.
    assert!(attach(&mut cos, key(200), sig));
    assert_eq!(cos.witnesses().len(), 1);
    let doubled = vec![ident(200), ident(200)];
    assert_eq!(
        WitnessPolicy::new(doubled, 2).accept(None, &cos),
        Acceptance::Undersigned {
            support: 1,
            threshold: 2
        }
    );
}

#[test]
fn a_threshold_is_met_by_chosen_witnesses() {
    let ch = chain(1, &[1]);
    let mut cos = Cosigned::new(ch[0]);
    let chosen: Vec<Address> = (200..204u32).map(ident).collect();
    for i in 200..202u32 {
        let mut w = Witness::new();
        let sig = countersign(&mut w, i, &ch[0]).unwrap();
        attach(&mut cos, key(i), sig);
    }
    let policy = WitnessPolicy::new(chosen, 3);
    assert_eq!(
        policy.accept(None, &cos),
        Acceptance::Undersigned {
            support: 2,
            threshold: 3
        }
    );
    let mut w = Witness::new();
    let sig = countersign(&mut w, 202, &ch[0]).unwrap();
    attach(&mut cos, key(202), sig);
    assert_eq!(policy.accept(None, &cos), Acceptance::Accepted);
}

#[test]
fn a_reader_refuses_a_rollback_even_when_fully_countersigned() {
    let ch = chain(1, &[1, 2, 3, 4]);
    let newer = ch[3];
    let mut cos = Cosigned::new(ch[1]);
    let chosen: Vec<Address> = (200..203u32).map(ident).collect();
    for i in 200..203u32 {
        let mut w = Witness::new();
        let _ = countersign(&mut w, i, &ch[0]).unwrap();
        let sig = countersign(&mut w, i, &ch[1]).unwrap();
        attach(&mut cos, key(i), sig);
    }
    let policy = WitnessPolicy::new(chosen, 3);
    assert_eq!(cos.support(&policy.chosen), 3);
    assert_eq!(policy.accept(Some(&newer), &cos), Acceptance::NotForward);
}

#[test]
fn a_reader_accepts_the_next_link_of_its_chain() {
    let ch = chain(1, &[1, 2]);
    let mut cos = Cosigned::new(ch[1]);
    let chosen: Vec<Address> = (200..202u32).map(ident).collect();
    for i in 200..202u32 {
        let mut w = Witness::new();
        let _ = countersign(&mut w, i, &ch[0]).unwrap();
        let sig = countersign(&mut w, i, &ch[1]).unwrap();
        attach(&mut cos, key(i), sig);
    }
    let policy = WitnessPolicy::new(chosen, 2);
    assert_eq!(policy.accept(Some(&ch[0]), &cos), Acceptance::Accepted);
    // A tampered carried checkpoint is no longer what the publisher signed.
    cos.checkpoint.sequence = 7;
    assert!(!cos.publisher_signature_holds());
    assert_eq!(policy.accept(Some(&ch[0]), &cos), Acceptance::Unsigned);
}

#[test]
fn equivocation_by_a_witness_is_provable_by_anyone() {
    let a = Checkpoint {
        publisher: ident(1),
        sequence: 3,
        digest: Cid::of(&[1]),
        prev: None,
    };
    let b = Checkpoint {
        publisher: ident(1),
        sequence: 3,
        digest: Cid::of(&[2]),
        prev: None,
    };
    let proof = Equivocation {
        witness: key(100),
        a,
        sig_a: sign(100, &a.signing_bytes()),
        b,
        sig_b: sign(100, &b.signing_bytes()),
    };
    let sigs = |e: &Equivocation| {
        holds(&e.witness, &e.a.signing_bytes(), &e.sig_a) && holds(&e.witness, &e.b.signing_bytes(), &e.sig_b)
    };
    assert!(proof.is_valid(sigs(&proof)));
    let framed = Equivocation {
        witness: key(101),
        a,
        sig_a: sign(100, &a.signing_bytes()),
        b,
        sig_b: sign(100, &b.signing_bytes()),
    };
    assert!(!framed.is_valid(sigs(&framed)));
}

#[test]
fn a_non_conflict_is_not_evidence() {
    let a = Checkpoint {
        publisher: ident(1),
        sequence: 3,
        digest: Cid::of(&[1]),
        prev: None,
    };
    let b = Checkpoint {
        publisher: ident(1),
        sequence: 4,
        digest: Cid::of(&[2]),
        prev: Some(a.id()),
    };
    let e = Equivocation {
        witness: key(100),
        a,
        sig_a: sign(100, &a.signing_bytes()),
        b,
        sig_b: sign(100, &b.signing_bytes()),
    };
    assert!(!e.conflicts());
    assert!(!e.is_valid(true));
}

#[test]
fn a_captured_witness_set_can_only_stall() {
    let ch = chain(1, &[1]);
    let chosen: Vec<Address> = (200..203u32).map(ident).collect();
    let cos = Cosigned::new(ch[0]);
    assert_eq!(
        WitnessPolicy::new(chosen, 2).accept(None, &cos),
        Acceptance::Undersigned {
            support: 0,
            threshold: 2
        }
    );
}

#[test]
fn a_captured_witness_set_cannot_forge_a_checkpoint() {
    let chosen = vec![ident(500), ident(501), ident(502)];
    let policy = WitnessPolicy::new(chosen, 2);
    // What comes back from an object the adversary signed names the adversary.
    let recovered = Checkpoint {
        publisher: ident(500),
        sequence: 5,
        digest: Cid::of(b"never published"),
        prev: None,
    };
    let mut cos = Cosigned::new(recovered);
    let bytes = cos.checkpoint.signing_bytes();
    assert!(attach(&mut cos, key(500), sign(500, &bytes)));
    assert!(attach(&mut cos, key(501), sign(501, &bytes)));
    assert_eq!(cos.support(&policy.chosen), 2);
    let alice_chain = chain(1, &[1]);
    assert_eq!(policy.accept(Some(&alice_chain[0]), &cos), Acceptance::NotForward);
}

#[test]
fn a_reader_refuses_a_higher_sequence_that_does_not_continue_its_chain() {
    let real = chain(1, &[1, 2, 3]);
    let held = real[2];
    let fabricated = Checkpoint {
        publisher: ident(1),
        sequence: 9,
        digest: Cid::of(b"fabricated"),
        prev: None,
    };
    let mut cos = Cosigned::new(fabricated);
    let chosen: Vec<Address> = (700..702u32).map(ident).collect();
    for i in 700..702u32 {
        let mut w = Witness::new();
        let sig = countersign(&mut w, i, &fabricated).expect("a fresh witness has nothing to refuse");
        attach(&mut cos, key(i), sig);
    }
    let policy = WitnessPolicy::new(chosen, 2);
    assert_eq!(cos.support(&policy.chosen), 2);
    assert_eq!(policy.accept(Some(&held), &cos), Acceptance::NotAChain);
}

#[test]
fn a_threshold_of_zero_is_refused_rather_than_satisfied() {
    let ch = chain(1, &[1]);
    let cos = Cosigned::new(ch[0]);
    assert_eq!(WitnessPolicy::new(vec![], 0).accept(None, &cos), Acceptance::BadPolicy);
}

#[test]
fn a_pair_across_publishers_or_a_repeat_is_not_evidence() {
    let a = Checkpoint {
        publisher: ident(1),
        sequence: 3,
        digest: Cid::of(&[1]),
        prev: None,
    };
    let b = Checkpoint {
        publisher: ident(2),
        sequence: 3,
        digest: Cid::of(&[2]),
        prev: None,
    };
    let e1 = Equivocation {
        witness: key(100),
        a,
        sig_a: sign(100, &a.signing_bytes()),
        b,
        sig_b: sign(100, &b.signing_bytes()),
    };
    assert!(!e1.is_valid(true));
    let e2 = Equivocation {
        witness: key(100),
        a,
        sig_a: sign(100, &a.signing_bytes()),
        b: a,
        sig_b: sign(100, &a.signing_bytes()),
    };
    assert!(!e2.is_valid(true));
    let conflicting = Checkpoint {
        publisher: ident(1),
        sequence: 3,
        digest: Cid::of(&[9]),
        prev: None,
    };
    let e3 = Equivocation {
        witness: key(100),
        a,
        sig_a: sign(100, &a.signing_bytes()),
        b: conflicting,
        sig_b: sign(100, &conflicting.signing_bytes()),
    };
    assert!(e3.is_valid(true));
}

/// A checkpoint published in a signed object of its kind.
fn publish(publisher: u32, c: &Checkpoint, kind: &str) -> Object {
    let payload = c.payload();
    let bytes = Object::signing_bytes(kind, &key(publisher), c.prev.as_ref(), c.sequence, &payload);
    Object::from_signed(kind, key(publisher), c.sequence, payload, c.prev, sign(publisher, &bytes))
}

/// What checking an object's signature finds.
fn verify(obj: &Object) -> Result<Address, ObjectError> {
    let bytes = Object::signing_bytes(
        obj.kind(),
        &obj.author_key(),
        obj.supersedes().as_ref(),
        obj.seq(),
        obj.payload(),
    );
    if holds(&obj.author_key(), &bytes, obj.signature()) {
        Ok(addr_of(&obj.author_key()))
    } else {
        Err(ObjectError::BadSignature)
    }
}

/// What a witness is offered for an object: the checkpoint it holds, if it holds one.
fn offered(obj: &Object) -> Option<Checkpoint> {
    Checkpoint::from_object(obj, verify(obj)).ok()
}

#[test]
fn a_tampered_checkpoint_object_is_refused_as_unsigned() {
    let pubr = ident(1);
    let mut w = Witness::new();
    let ch = chain(1, &[1]);
    let good = publish(1, &ch[0], "karst.witness.checkpoint.v1");

    let mut bad = good.clone();
    bad.payload[0] ^= 0x01;
    assert_eq!(w.cosign(offered(&bad)), Err(Refusal::Unsigned));
    assert!(w.latest(&pubr).is_none());

    let not_a_checkpoint = publish(1, &ch[0], "karst.something.else");
    assert_eq!(w.cosign(offered(&not_a_checkpoint)), Err(Refusal::Unsigned));

    assert!(w.cosign(offered(&good)).is_ok());
}

// A published checkpoint reads back as itself, with its signer as publisher.
#[test]
fn a_published_checkpoint_reads_back_as_itself() {
    for c in chain(3, &[4, 5, 6]) {
        let obj = publish(3, &c, "karst.witness.checkpoint.v1");
        assert_eq!(Checkpoint::from_object(&obj, verify(&obj)), Ok(c));
    }
    let c = chain(3, &[4])[0];
    let obj = publish(3, &c, "karst.witness.checkpoint.v1");
    assert_eq!(
        Checkpoint::from_object(&obj, Err(ObjectError::BadSignature)),
        Err(ObjectError::BadSignature)
    );
}

// The same sequence and digest with another back link is not equivocation: the digest is
// the same, so it is refused as not moving forward.
#[test]
fn a_restated_checkpoint_with_another_link_is_not_forward() {
    let mut w = Witness::new();
    let ch = chain(1, &[1, 2]);
    w.cosign(Some(ch[0])).unwrap();
    w.cosign(Some(ch[1])).unwrap();
    let relinked = Checkpoint { prev: None, ..ch[1] };
    assert_eq!(w.cosign(Some(relinked)), Err(Refusal::NotForward { seen: 2, offered: 2 }));
    assert_eq!(w.latest(&ident(1)), Some(&ch[1]));
}
