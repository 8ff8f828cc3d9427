use karst::bulk::{plan, plan_with, Carriage, Policy, DEFAULT_MIXED_LIMIT};
use karst::codec::Cid;
use karst::frame::DATA_BYTES;

fn cid(n: u8) -> Cid {
    Cid::of(&[n])
}

fn seconds_if_all_mixed(total_bytes: u64, packets_per_sec: f64) -> f64 {
    total_bytes as f64 / (packets_per_sec * DATA_BYTES as f64)
}

#[test]
fn no_carriage_permits_substitution() {
    assert!(!Carriage::Mixed.exposure().can_substitute);
    assert!(!Carriage::Direct.exposure().can_substitute);
}

#[test]
fn the_direct_path_reveals_more_and_enumerates_what() {
    let m = Carriage::Mixed.exposure();
    let d = Carriage::Direct.exposure();
    assert!(!m.reader_address && d.reader_address);
    assert!(!m.content_requested && d.content_requested);
    assert!(!m.volume_and_timing && d.volume_and_timing);
}

#[test]
fn the_manifest_always_goes_over_the_mix_network() {
    let big = [(cid(1), 10_000_000u64), (cid(2), 10_000_000)];
    let p = plan(cid(0), &big, DEFAULT_MIXED_LIMIT);
    assert!(p.mixed.contains(&cid(0)));
    assert!(!p.direct.contains(&cid(0)));

    let p = plan(cid(0), &big, 0);
    assert_eq!(p.mixed, vec![cid(0)]);
    assert_eq!(p.direct.len(), 2);
}

#[test]
fn small_content_never_leaves_the_mix_network() {
    let small = [(cid(1), 900u64), (cid(2), 4_000), (cid(3), 64 * 1024)];
    let p = plan(cid(0), &small, DEFAULT_MIXED_LIMIT);
    assert!(p.direct.is_empty());
    assert!(!p.leaks());
    assert_eq!(p.exposed_bytes, 0);
    assert_eq!(p.mixed.len(), 4);
}

#[test]
fn a_plan_reports_what_the_private_path_would_have_cost() {
    let hour_of_video = 1_610_612_736u64;
    let generous = Policy {
        exposure_budget: u64::MAX,
        ..Policy::default()
    };
    let p = plan_with(cid(0), &[(cid(1), hour_of_video)], &generous);
    assert!(p.leaks());
    let secs = seconds_if_all_mixed(p.total_bytes, 60.0);
    assert!(
        secs > 30_000.0,
        "an hour of video should take many hours over the mix network, got {secs:.0}s"
    );
}

#[test]
fn a_publisher_cannot_chunk_a_reader_into_exposing_themselves() {
    let hostile: Vec<(Cid, u64)> = (0..200u8)
        .map(|i| (cid(i), DEFAULT_MIXED_LIMIT + 1))
        .collect();

    let p = plan_with(cid(255), &hostile, &Policy::private());
    assert!(!p.leaks(), "a reader who refuses exposure was exposed anyway");
    assert_eq!(p.exposed_bytes, 0);
    assert_eq!(p.mixed.len(), hostile.len() + 1);
}

#[test]
fn exposure_stops_at_the_readers_budget_however_the_content_is_chunked() {
    let budget = 4 * 1024 * 1024u64;
    let policy = Policy {
        exposure_budget: budget,
        ..Policy::default()
    };
    let many: Vec<(Cid, u64)> = (0..250u8)
        .map(|i| (cid(i), DEFAULT_MIXED_LIMIT * 2))
        .collect();
    let total: u64 = many.iter().map(|(_, s)| s).sum();
    assert!(total > budget, "vacuous: the content fits in the budget");

    let p = plan_with(cid(255), &many, &policy);
    assert!(
        p.exposed_bytes <= budget,
        "exposed {} against a budget of {budget}",
        p.exposed_bytes
    );
    assert_eq!(p.mixed.len() + p.direct.len(), many.len() + 1);
}

#[test]
fn refusing_exposure_costs_time_and_not_access() {
    let film = [(cid(1), 8 * 1024 * 1024 * 1024u64)];
    let p = plan_with(cid(0), &film, &Policy::private());
    assert!(!p.leaks());
    assert_eq!(p.mixed.len(), 2, "the chunk was dropped rather than queued");
    let days = seconds_if_all_mixed(p.total_bytes, 60.0) / 86_400.0;
    assert!(days > 1.0, "a film over the mix network should take days, got {days:.2}");
}

// Chunks go direct in order until the budget would be passed, and later chunks that still
// fit go direct too.
#[test]
fn the_budget_admits_what_still_fits() {
    let policy = Policy {
        mixed_limit: 10,
        exposure_budget: 100,
        never_expose: false,
    };
    let chunks = [(cid(1), 60u64), (cid(2), 50), (cid(3), 40), (cid(4), 5)];
    let p = plan_with(cid(0), &chunks, &policy);
    assert_eq!(p.direct, vec![cid(1), cid(3)]);
    assert_eq!(p.mixed, vec![cid(0), cid(2), cid(4)]);
    assert_eq!(p.exposed_bytes, 100);
    assert_eq!(p.total_bytes, 155);
}
