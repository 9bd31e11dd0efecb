use hexlife::{create_rng, GeoSampler, UniformSampler};

#[test]
fn sampler_deterministic_for_seed() {
    let mut r1 = create_rng(1234);
    let mut r2 = create_rng(1234);
    let s1: Vec<_> = (0..32).map(|_| UniformSampler::sample_coord(&mut r1)).collect();
    let s2: Vec<_> = (0..32).map(|_| UniformSampler::sample_coord(&mut r2)).collect();
    assert_eq!(s1, s2);
}

#[test]
fn sampler_stays_in_domain() {
    let mut r = create_rng(99);
    for _ in 0..200 {
        let c = UniformSampler::sample_coord(&mut r);
        assert!(c.lng_micro >= -180_000000 && c.lng_micro <= 180_000000);
        assert!(c.lat_micro >= -90_000000 && c.lat_micro <= 90_000000);
    }
}

#[test]
fn seeded_universes_are_reproducible() {
    let mut r1 = create_rng(5);
    let mut r2 = create_rng(5);
    let u1 = hexlife::Universe::new(20, 4, &mut r1).unwrap();
    let u2 = hexlife::Universe::new(20, 4, &mut r2).unwrap();
    let mut c1 = u1.live_cells();
    let mut c2 = u2.live_cells();
    c1.sort();
    c2.sort();
    assert_eq!(c1, c2);
}
