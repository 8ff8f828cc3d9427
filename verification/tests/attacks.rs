use karst::provider::Provider;

#[test]
fn collecting_an_unused_tag_is_indistinguishable_from_an_empty_one() {
    let mut p = Provider::new();
    let a = p.collect(&[1u8; 32]);
    let b = p.collect(&[2u8; 32]);
    assert_eq!(a, b);
}
