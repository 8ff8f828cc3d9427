use karst::directory::{Directory, NodeEntry, RouteError};
use karst::node::MAX_DELAY_MS;
use rand::rngs::StdRng;
use rand::SeedableRng;

const MAX_HOPS: usize = 5;

fn dir(per_layer: usize, layers: u8) -> Directory {
    let mut d = Directory::new();
    let mut id = 0u16;
    for layer in 0..layers {
        for _ in 0..per_layer {
            d.add(NodeEntry {
                id,
                mix_public: [(id + 1) as u8; 32],
                layer,
            });
            id += 1;
        }
    }
    d
}

fn delays(v: u64) -> Vec<u64> {
    vec![v; MAX_HOPS]
}

#[test]
fn a_route_takes_one_node_from_every_layer_and_ends_where_asked() {
    let d = dir(4, 4);
    let mut rng = StdRng::seed_from_u64(1);
    for _ in 0..200 {
        let r = d.route_to(12, MAX_HOPS, &mut rng, &delays(7)).unwrap();
        assert_eq!(r.len(), 4);
        assert_eq!(r[3].id, 12);
        for (i, h) in r.iter().enumerate().take(3) {
            let n = d.get(h.id).unwrap();
            assert_eq!(n.layer as usize, i, "hop {i} came from the wrong layer");
            assert_eq!(h.mix_public, n.mix_public);
            assert_eq!(h.delay_ms, 7);
        }
    }
    assert_eq!(d.layers(), 4);
}

#[test]
fn selection_within_a_layer_is_uniform() {
    let d = dir(8, 3);
    let mut rng = StdRng::seed_from_u64(2);
    let mut counts = [0u32; 8];
    let trials = 40_000;
    for _ in 0..trials {
        let r = d.route_to(16, MAX_HOPS, &mut rng, &delays(1)).unwrap();
        counts[r[0].id as usize] += 1;
    }
    let expected = trials as f64 / 8.0;
    for (i, c) in counts.iter().enumerate() {
        let dev = (*c as f64 - expected).abs() / expected;
        assert!(dev < 0.1, "node {i} took {c} of {trials}");
    }
}

#[test]
fn no_hop_asks_for_longer_than_a_node_will_hold() {
    let d = dir(1, 2);
    let mut rng = StdRng::seed_from_u64(3);
    for raw in [0u64, 1, 29_999, 30_000, 30_001, u64::MAX] {
        for h in d.route_to(1, MAX_HOPS, &mut rng, &delays(raw)).unwrap() {
            assert!(h.delay_ms <= MAX_DELAY_MS);
            assert_eq!(h.delay_ms as u64, raw.min(MAX_DELAY_MS as u64));
        }
    }
}

#[test]
fn a_missing_layer_is_an_error_rather_than_a_shorter_route() {
    let mut d = Directory::new();
    d.add(NodeEntry { id: 0, mix_public: [1; 32], layer: 0 });
    d.add(NodeEntry { id: 9, mix_public: [1; 32], layer: 3 });
    let mut rng = StdRng::seed_from_u64(4);
    assert_eq!(
        d.route_to(9, MAX_HOPS, &mut rng, &delays(1)).unwrap_err(),
        RouteError::EmptyLayer
    );
}

#[test]
fn a_route_longer_than_a_header_holds_is_refused() {
    let mut d = Directory::new();
    for layer in 0..=(MAX_HOPS as u8) {
        d.add(NodeEntry { id: layer as u16, mix_public: [1; 32], layer });
    }
    let mut rng = StdRng::seed_from_u64(5);
    assert_eq!(
        d.route_to(MAX_HOPS as u16, MAX_HOPS, &mut rng, &delays(1)).unwrap_err(),
        RouteError::TooManyLayers
    );
    // One layer fewer fits exactly.
    assert_eq!(d.route_to(MAX_HOPS as u16 - 1, MAX_HOPS, &mut rng, &delays(1)).unwrap().len(), MAX_HOPS);
}

#[test]
fn an_unknown_terminal_is_no_such_node() {
    let d = dir(2, 2);
    let mut rng = StdRng::seed_from_u64(6);
    assert_eq!(
        d.route_to(999, MAX_HOPS, &mut rng, &delays(1)).unwrap_err(),
        RouteError::NoSuchNode
    );
    assert_eq!(Directory::new().layers(), 0);
}
