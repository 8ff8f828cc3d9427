use karst::symmetry::{place_adversarially, realistic_population};

// The adversary puts equal shares in the four scarcest neighbourhoods and the remainder in the
// scarcest of all.
#[test]
fn the_adversary_goes_where_relays_are_scarce() {
    let honest = realistic_population();
    let adv = place_adversarially(&honest, 22);
    assert_eq!(adv.len(), honest.len());
    assert_eq!(adv.iter().sum::<usize>(), 22);
    // The scarcest are the three single-relay networks (indices 13, 14, 15) and then index 12.
    assert_eq!(adv[13], 5 + 2);
    assert_eq!(adv[14], 5);
    assert_eq!(adv[15], 5);
    assert_eq!(adv[12], 5);
    assert!(adv[..12].iter().all(|&a| a == 0));
}

// With fewer neighbourhoods than targets, every neighbourhood gets a share.
#[test]
fn few_neighbourhoods_each_take_a_share() {
    let adv = place_adversarially(&[10, 5], 7);
    assert_eq!(adv, vec![3, 4]);
    assert_eq!(place_adversarially(&[], 0), Vec::<usize>::new());
}

#[test]
fn the_population_is_skewed() {
    let p = realistic_population();
    assert_eq!(p.len(), 16);
    assert_eq!(p[0], 3000);
    assert_eq!(p.iter().sum::<usize>(), 8636);
}
