use geojson::GeoJson;
use h3o::{LatLng, Resolution};
use hexlife::{create_rng, format_micro, parse_fixed, project_ring, Universe};
use std::str::FromStr;

#[test]
fn render_purity_and_completeness() {
    let mut rng = create_rng(7);
    let mut u = Universe::new(40, 4, &mut rng).unwrap();
    u.tick();
    let live_before = u.live_count();
    let s = u.render();
    assert_eq!(u.tracked_count(), u.live_count());
    assert_eq!(u.live_count(), live_before);
    match GeoJson::from_str(&s).unwrap() {
        GeoJson::FeatureCollection(fc) => {
            assert_eq!(fc.features.len(), live_before);
            for f in &fc.features {
                let geom = f.geometry.as_ref().unwrap();
                match &geom.value {
                    geojson::GeometryValue::Polygon { coordinates: rings } => {
                        assert_eq!(rings.len(), 1);
                        let ring = &rings[0];
                        assert!(ring.len() >= 2);
                        assert_eq!(ring.first(), ring.last());
                    }
                    _ => panic!("expected a polygon"),
                }
            }
        }
        _ => panic!("expected a feature collection"),
    }
}

#[test]
fn render_twice_after_ticks_stays_pure() {
    let mut rng = create_rng(11);
    let mut u = Universe::new(25, 4, &mut rng).unwrap();
    for _ in 0..3 {
        u.tick();
        u.render();
        assert_eq!(u.tracked_count(), u.live_count());
    }
}

#[test]
fn antimeridian_ring_is_contiguous() {
    let pts = vec![
        (179_000000i64, 10_000000i64),
        (-179_000000, 11_000000),
        (179_500000, 12_000000),
    ];
    let ring = project_ring(&pts);
    assert_eq!(ring.len(), 4);
    assert_eq!(ring[0], ring[3]);
    for p in &ring {
        assert!(p.0 >= 0);
    }
    assert_eq!(ring[1].0, 181_000000);
    assert_eq!(ring[0], (179_000000, 10_000000));
    for w in ring.windows(2) {
        assert!((w[0].0 - w[1].0).abs() <= 180_000000);
    }
}

#[test]
fn ring_without_straddle_is_untouched() {
    let pts = vec![(10_000000i64, -5_000000i64), (11_000000, -4_000000)];
    let ring = project_ring(&pts);
    assert_eq!(
        ring,
        vec![(10_000000, -5_000000), (11_000000, -4_000000), (10_000000, -5_000000)]
    );
}

#[test]
fn decimal_writer_exact() {
    assert_eq!(format_micro(-179_123456), "-179.123456");
    assert_eq!(format_micro(0), "0.000000");
    assert_eq!(format_micro(90_000000), "90.000000");
    assert_eq!(format_micro(-7), "-0.000007");
    assert_eq!(format_micro(1234_567890), "1234.567890");
    assert_eq!(format_micro(181_000000), "181.000000");
}

#[test]
fn fixed_reader_exact() {
    assert_eq!(parse_fixed("+0179.123456"), Some(179_123456));
    assert_eq!(parse_fixed("-0179.123456"), Some(-179_123456));
    assert_eq!(parse_fixed("+0000.000000"), Some(0));
    assert_eq!(parse_fixed("-0000.000001"), Some(-1));
    assert_eq!(parse_fixed("179.123456"), None);
    assert_eq!(parse_fixed("+0179.12345"), None);
    assert_eq!(parse_fixed("+017a.123456"), None);
    assert_eq!(parse_fixed(""), None);
}

#[test]
fn render_coordinates_come_from_the_boundary() {
    // The rendered coordinates of a single-cell universe must match the
    // cell's boundary as the grid reports it, within microdegree rounding.
    let cell: u64 = LatLng::new(48.85, 2.35)
        .unwrap()
        .to_cell(Resolution::Five)
        .into();
    let mut u = Universe::from_cells(&vec![cell], 5).unwrap();
    let s = u.render();
    let c = h3o::CellIndex::try_from(cell).unwrap();
    let boundary: Vec<(f64, f64)> = c.boundary().iter().map(|v| (v.lng(), v.lat())).collect();
    match GeoJson::from_str(&s).unwrap() {
        GeoJson::FeatureCollection(fc) => {
            assert_eq!(fc.features.len(), 1);
            let geom = fc.features[0].geometry.as_ref().unwrap();
            match &geom.value {
                geojson::GeometryValue::Polygon { coordinates: rings } => {
                    let ring = &rings[0];
                    assert_eq!(ring.len(), boundary.len() + 1);
                    for (got, want) in ring.iter().zip(boundary.iter()) {
                        assert!((got[0] - want.0).abs() < 2e-6);
                        assert!((got[1] - want.1).abs() < 2e-6);
                    }
                }
                _ => panic!("expected a polygon"),
            }
        }
        _ => panic!("expected a feature collection"),
    }
}
