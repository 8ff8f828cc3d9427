use karst::codec::{Address, Cid};
use karst::lineage::{EdgeFault, Lineage, Rotation};
use karst::object::{Object, ObjectError, Resolution};

const ROTATION_KIND: &str = "karst.rotation.v1";

/// A stand-in identity: a key, the address that is its hash, and a keyed hash for a signature.
#[derive(Clone, Copy)]
struct Ident(u32);

impl Ident {
    fn key_bytes(&self) -> [u8; 32] {
        let mut k = [0u8; 32];
        k[..4].copy_from_slice(&self.0.to_le_bytes());
        k
    }

    fn address(&self) -> Address {
        Address::from_raw(*blake3::hash(&self.key_bytes()).as_bytes())
    }

    fn sign(&self, bytes: &[u8]) -> [u8; 64] {
        let h = blake3::keyed_hash(&self.key_bytes(), bytes);
        let mut s = [0u8; 64];
        s[..32].copy_from_slice(h.as_bytes());
        s[32..].copy_from_slice(h.as_bytes());
        s
    }

    fn create(&self, kind: &str, seq: u64, payload: Vec<u8>, supersedes: Option<Cid>) -> Object {
        let key = self.key_bytes();
        let bytes = Object::signing_bytes(kind, &key, supersedes.as_ref(), seq, &payload);
        let sig = self.sign(&bytes);
        Object::from_signed(kind, key, seq, payload, supersedes, sig)
    }

    fn verifies(&self, obj: &Object) -> bool {
        let bytes = Object::signing_bytes(
            obj.kind(),
            &obj.author_key(),
            obj.supersedes().as_ref(),
            obj.seq(),
            obj.payload(),
        );
        obj.author_key() == self.key_bytes() && self.sign(&bytes) == *obj.signature()
    }
}

fn forward(old: Ident, new: Ident, seq: u64) -> Object {
    old.create(ROTATION_KIND, seq, Rotation::forward_payload(&new.address()), None)
}

fn backward(new: Ident, old: Ident, seq: u64) -> Object {
    new.create(ROTATION_KIND, seq, Rotation::backward_payload(&old.address()), None)
}

/// Take an object signed by `by`, as a caller that verified it would hand it over.
fn take(lin: &mut Lineage, obj: Object, by: Ident) -> Cid {
    assert!(by.verifies(&obj));
    lin.insert(obj, Ok(by.address())).unwrap()
}

fn rotate(old: Ident, new: Ident, lin: &mut Lineage) {
    take(lin, forward(old, new, 0), old);
    take(lin, backward(new, old, 0), new);
}

#[test]
fn an_old_citation_still_resolves_and_still_verifies_after_edits() {
    let author = Ident(1);
    let mut lin = Lineage::new();

    let v1 = author.create("page", 0, b"the original claim".to_vec(), None);
    let c1 = take(&mut lin, v1, author);
    let v2 = author.create("page", 1, b"a revised claim".to_vec(), Some(c1));
    let c2 = take(&mut lin, v2, author);
    let v3 = author.create("page", 2, b"the final claim".to_vec(), Some(c2));
    let c3 = take(&mut lin, v3, author);

    let cited = lin.get(&c1).unwrap();
    assert_eq!(cited.payload, b"the original claim");
    assert!(author.verifies(cited));

    assert_eq!(lin.resolve(&c1), Resolution::Head(c3));
    assert_eq!(lin.history(&c3).len(), 3);
    assert_eq!(lin.history(&c3)[2].payload, b"the original claim");
}

#[test]
fn a_countersigned_rotation_lets_an_identity_move() {
    let old = Ident(1);
    let new = Ident(2);
    let mut lin = Lineage::new();

    let c1 = take(&mut lin, old.create("page", 0, b"before".to_vec(), None), old);

    rotate(old, new, &mut lin);
    assert_eq!(lin.rotations().len(), 1);
    assert_eq!(lin.current_identity(old.address()), new.address());

    let c2 = take(&mut lin, new.create("page", 1, b"after".to_vec(), Some(c1)), new);

    assert_eq!(lin.successors(&c1), vec![c2]);
    assert_eq!(lin.resolve(&c1), Resolution::Head(c2));
    assert_eq!(lin.history(&c2).len(), 2);
}

#[test]
fn a_one_sided_rotation_claim_moves_nothing() {
    let old = Ident(1);
    let attacker = Ident(66);

    let mut lin = Lineage::new();
    let c1 = take(&mut lin, old.create("page", 0, b"before".to_vec(), None), old);
    take(&mut lin, forward(old, attacker, 0), old);
    assert!(lin.rotations().is_empty(), "forward half alone was accepted");
    take(&mut lin, attacker.create("page", 1, b"seized".to_vec(), Some(c1)), attacker);
    assert!(lin.successors(&c1).is_empty());
    assert_eq!(lin.resolve(&c1), Resolution::Head(c1));

    let mut lin2 = Lineage::new();
    let d1 = take(&mut lin2, old.create("page", 0, b"before".to_vec(), None), old);
    take(&mut lin2, backward(attacker, old, 0), attacker);
    assert!(lin2.rotations().is_empty(), "backward half alone was accepted");
    take(&mut lin2, attacker.create("page", 1, b"claimed".to_vec(), Some(d1)), attacker);
    assert!(lin2.successors(&d1).is_empty());
}

#[test]
fn a_rotation_between_two_other_parties_does_not_help_an_attacker() {
    let alice = Ident(1);
    let bob = Ident(2);
    let carol = Ident(3);
    let attacker = Ident(66);
    let mut lin = Lineage::new();

    let c1 = take(&mut lin, alice.create("page", 0, b"alice".to_vec(), None), alice);
    rotate(bob, carol, &mut lin);

    take(&mut lin, attacker.create("page", 1, b"hijack".to_vec(), Some(c1)), attacker);
    assert!(lin.successors(&c1).is_empty());
    assert_eq!(lin.rejected_edges(&c1)[0].1, "different author, no countersigned rotation");
}

#[test]
fn rotations_chain_and_do_not_loop() {
    let a = Ident(1);
    let b = Ident(2);
    let c = Ident(3);
    let mut lin = Lineage::new();

    rotate(a, b, &mut lin);
    rotate(b, c, &mut lin);
    assert_eq!(lin.current_identity(a.address()), c.address());
    assert_eq!(lin.current_identity(c.address()), c.address());

    rotate(c, a, &mut lin);
    let _ = lin.current_identity(a.address());
}

#[test]
fn an_address_with_no_rotation_resolves_to_itself() {
    let a = Ident(1);
    let lin = Lineage::new();
    assert_eq!(lin.current_identity(a.address()), a.address());
}

#[test]
fn a_stranger_cannot_hijack_someone_elses_version_series() {
    let alice = Ident(1);
    let bob = Ident(2);
    let mut lin = Lineage::new();

    let c1 = take(&mut lin, alice.create("page", 0, b"alice's page".to_vec(), None), alice);

    let hijack = bob.create("page", 1, b"bob's replacement".to_vec(), Some(c1));
    let hijack_cid = take(&mut lin, hijack, bob);

    assert!(lin.successors(&c1).is_empty(), "hijack became a successor");
    assert_eq!(
        lin.resolve(&c1),
        Resolution::Head(c1),
        "Alice's page is still the head of her own series"
    );
    assert!(lin.equivocations().is_empty(), "Alice was blamed for Bob's object");

    assert_eq!(
        lin.rejected_edges(&c1),
        vec![(hijack_cid, "different author, no countersigned rotation")]
    );
}

#[test]
fn edges_must_stay_in_the_same_series_and_advance() {
    let alice = Ident(1);
    let mut lin = Lineage::new();
    let c1 = take(&mut lin, alice.create("page", 5, b"v1".to_vec(), None), alice);

    take(&mut lin, alice.create("note", 6, b"x".to_vec(), Some(c1)), alice);
    take(&mut lin, alice.create("page", 4, b"y".to_vec(), Some(c1)), alice);
    take(&mut lin, alice.create("page", 5, b"z".to_vec(), Some(c1)), alice);

    assert!(lin.successors(&c1).is_empty());
    assert_eq!(lin.rejected_edges(&c1).len(), 3);

    let good = alice.create("page", 6, b"real v2".to_vec(), Some(c1));
    let c2 = take(&mut lin, good, alice);
    assert_eq!(lin.successors(&c1), vec![c2]);
    assert_eq!(lin.resolve(&c1), Resolution::Head(c2));
}

#[test]
fn out_of_order_arrival_still_assembles_the_history() {
    let alice = Ident(1);
    let mut lin = Lineage::new();

    let v1 = alice.create("page", 0, b"one".to_vec(), None);
    let c1 = v1.cid();
    let v2 = alice.create("page", 1, b"two".to_vec(), Some(c1));
    let c2 = v2.cid();
    let v3 = alice.create("page", 2, b"three".to_vec(), Some(c2));

    take(&mut lin, v3, alice);
    take(&mut lin, v2, alice);
    take(&mut lin, v1, alice);

    assert_eq!(lin.history(&lin.resolve(&c1).head().unwrap()).len(), 3);
    assert_eq!(lin.successors(&c1), vec![c2]);
}

#[test]
fn an_author_showing_two_histories_is_detectable_rather_than_silent() {
    let author = Ident(1);
    let mut lin = Lineage::new();

    let c1 = take(&mut lin, author.create("page", 0, b"original".to_vec(), None), author);

    let a = author.create("page", 1, b"what I told you".to_vec(), Some(c1));
    let b = author.create("page", 1, b"what I told them".to_vec(), Some(c1));
    let ca = take(&mut lin, a, author);
    let cb = take(&mut lin, b, author);

    match lin.resolve(&c1) {
        Resolution::Forked(heads) => {
            assert_eq!(heads.len(), 2);
            assert!(heads.contains(&ca) && heads.contains(&cb));
        }
        other => panic!("equivocation must not resolve silently, got {other:?}"),
    }
    assert_eq!(lin.equivocations(), vec![c1]);
}

#[test]
fn holding_only_part_of_a_history_is_honest_about_it() {
    let author = Ident(1);
    let mut lin = Lineage::new();
    let v1 = author.create("page", 0, b"lost".to_vec(), None);
    let c1 = v1.cid();
    let v2 = author.create("page", 1, b"kept".to_vec(), Some(c1));
    let c2 = take(&mut lin, v2, author);

    assert_eq!(lin.history(&c2).len(), 1, "we hold only what we hold");
    assert_eq!(lin.resolve(&c1), Resolution::Unknown);
    assert!(lin.get(&c1).is_none());
}

#[test]
fn lineage_links_versions_without_mutating_anything() {
    let author = Ident(1);
    let v1 = author.create("note", 0, b"draft".to_vec(), None);
    let v2 = author.create("note", 1, b"final".to_vec(), Some(v1.cid()));
    assert_eq!(v2.supersedes, Some(v1.cid()));
    assert!(author.verifies(&v1));
    assert_ne!(v1.cid(), v2.cid());
}

// An object that did not verify is refused and nothing is recorded.
#[test]
fn an_unverified_object_is_refused_and_not_held() {
    let author = Ident(1);
    let mut lin = Lineage::new();
    let v1 = author.create("page", 0, b"x".to_vec(), None);
    let c1 = v1.cid();
    assert_eq!(lin.insert(v1, Err(ObjectError::BadSignature)), Err(ObjectError::BadSignature));
    assert!(lin.is_empty());
    assert!(lin.get(&c1).is_none());
}

// Arrival order changes nothing that is held.
#[test]
fn arrival_order_does_not_change_what_is_held() {
    let a = Ident(1);
    let x = a.create("page", 0, b"x".to_vec(), None);
    let y = a.create("page", 1, b"y".to_vec(), Some(x.cid()));
    let mut one = Lineage::new();
    let mut two = Lineage::new();
    take(&mut one, x.clone(), a);
    take(&mut one, y.clone(), a);
    take(&mut two, y.clone(), a);
    take(&mut two, x.clone(), a);
    assert_eq!(one.len(), 2);
    assert_eq!(two.len(), 2);
    assert_eq!(one.get(&x.cid()).unwrap().payload, two.get(&x.cid()).unwrap().payload);
    assert_eq!(one.resolve(&x.cid()), two.resolve(&x.cid()));
}

// Taking the same object twice holds it once.
#[test]
fn the_same_object_twice_is_held_once() {
    let a = Ident(1);
    let mut lin = Lineage::new();
    let x = a.create("page", 0, b"x".to_vec(), None);
    take(&mut lin, x.clone(), a);
    take(&mut lin, x, a);
    assert_eq!(lin.len(), 1);
}

// Each refusal has its own reason.
#[test]
fn each_refusal_names_its_reason() {
    assert_eq!(EdgeFault::DifferentAuthor.reason(), "different author, no countersigned rotation");
    assert_eq!(EdgeFault::DifferentKind.reason(), "different kind");
    assert_eq!(EdgeFault::NoAdvance.reason(), "sequence did not advance");

    let alice = Ident(1);
    let mut lin = Lineage::new();
    let c1 = take(&mut lin, alice.create("page", 5, b"v1".to_vec(), None), alice);
    let k = take(&mut lin, alice.create("note", 6, b"x".to_vec(), Some(c1)), alice);
    let reasons = lin.rejected_edges(&c1);
    assert_eq!(reasons, vec![(k, "different kind")]);
}

// The edge rule, checked on its own.
#[test]
fn the_edge_rule_needs_the_same_key_or_a_countersigned_rotation() {
    let alice = Ident(1);
    let bob = Ident(2);
    let v1 = alice.create("page", 0, b"a".to_vec(), None);
    let same = alice.create("page", 1, b"b".to_vec(), Some(v1.cid()));
    let other = bob.create("page", 1, b"c".to_vec(), Some(v1.cid()));
    assert!(Lineage::is_valid_edge(&v1, &same));
    assert!(!Lineage::is_valid_edge(&v1, &other));
    assert!(!Lineage::is_valid_edge(&same, &v1));

    let mut lin = Lineage::new();
    assert!(!lin.is_valid_edge_with_rotations(&v1, Ok(alice.address()), &other, Ok(bob.address())));
    rotate(alice, bob, &mut lin);
    assert!(lin.is_valid_edge_with_rotations(&v1, Ok(alice.address()), &other, Ok(bob.address())));
    assert!(lin.is_valid_edge_with_rotations(&v1, Ok(alice.address()), &same, Ok(alice.address())));
}

// Rotations come out ordered by old address, then new, each once.
#[test]
fn rotations_are_listed_once_in_order() {
    let a = Ident(1);
    let b = Ident(2);
    let c = Ident(3);
    let mut lin = Lineage::new();
    rotate(b, c, &mut lin);
    rotate(a, b, &mut lin);
    rotate(a, b, &mut lin);
    let r = lin.rotations();
    assert_eq!(r.len(), 2);
    assert!(r[0].from.as_bytes() < r[1].from.as_bytes());
}

// A cycle of rotations stops where it closes.
#[test]
fn a_cycle_stops_where_it_closes() {
    let a = Ident(1);
    let b = Ident(2);
    let mut lin = Lineage::new();
    rotate(a, b, &mut lin);
    rotate(b, a, &mut lin);
    assert_eq!(lin.current_identity(a.address()), a.address());
    assert_eq!(lin.current_identity(b.address()), b.address());
}
