use h3o::{CellIndex, LatLng, Resolution};
use hexlife::{create_rng, Universe, UniverseError};

fn cell_at(lat: f64, lng: f64, res: Resolution) -> u64 {
    LatLng::new(lat, lng).unwrap().to_cell(res).into()
}

fn neighbors_of(c: u64) -> Vec<u64> {
    let cell = CellIndex::try_from(c).unwrap();
    cell.grid_disk::<Vec<_>>(1)
        .into_iter()
        .map(u64::from)
        .filter(|&n| n != c)
        .collect()
}

#[test]
fn population_bound() {
    let mut rng = create_rng(42);
    let u = Universe::new(100, 5, &mut rng).unwrap();
    assert!(u.live_count() <= 100);
    assert_eq!(u.live_count(), u.tracked_count());
    assert_eq!(u.resolution(), 5);

    let mut rng2 = create_rng(43);
    let u2 = Universe::new(1, 5, &mut rng2).unwrap();
    assert_eq!(u2.live_count(), 1);

    let mut rng3 = create_rng(44);
    let u3 = Universe::new(0, 5, &mut rng3).unwrap();
    assert_eq!(u3.live_count(), 0);
}

#[test]
fn invalid_resolution_rejected() {
    let mut rng = create_rng(1);
    match Universe::new(3, 16, &mut rng) {
        Err(UniverseError::InvalidResolution) => {}
        _ => panic!("expected InvalidResolution"),
    }
    match Universe::from_cells(&vec![], 99) {
        Err(UniverseError::InvalidResolution) => {}
        _ => panic!("expected InvalidResolution"),
    }
}

#[test]
fn invalid_cell_rejected() {
    match Universe::from_cells(&vec![0u64], 5) {
        Err(UniverseError::InvalidCell) => {}
        _ => panic!("expected InvalidCell"),
    }
}

#[test]
fn lonely_cell_dies() {
    let c = cell_at(48.85, 2.35, Resolution::Five);
    let mut u = Universe::from_cells(&vec![c], 5).unwrap();
    assert!(u.is_alive(c));
    assert_eq!(u.live_neighbor_count(c), Some(0));
    u.tick();
    assert!(!u.is_alive(c));
    assert_eq!(u.tracked_count(), 1);
    assert_eq!(u.live_count(), 0);
}

#[test]
fn stasis_triangle_survives() {
    let c = cell_at(10.0, 20.0, Resolution::Five);
    let nbs = neighbors_of(c);
    let mut pair = None;
    'outer: for &a in &nbs {
        for &b in &nbs {
            if a != b && neighbors_of(a).contains(&b) {
                pair = Some((a, b));
                break 'outer;
            }
        }
    }
    let (a, b) = pair.unwrap();
    let mut u = Universe::from_cells(&vec![c, a, b], 5).unwrap();
    assert_eq!(u.live_neighbor_count(c), Some(2));
    assert_eq!(u.live_neighbor_count(a), Some(2));
    assert_eq!(u.live_neighbor_count(b), Some(2));
    u.tick();
    assert!(u.is_alive(c));
    assert!(u.is_alive(a));
    assert!(u.is_alive(b));
}

#[test]
fn overcrowded_cell_dies() {
    let c = cell_at(-30.0, 100.0, Resolution::Five);
    let nbs = neighbors_of(c);
    let mut cells = vec![c];
    cells.extend(nbs.iter().take(4).cloned());
    let mut u = Universe::from_cells(&cells, 5).unwrap();
    assert_eq!(u.live_neighbor_count(c), Some(4));
    u.tick();
    assert!(!u.is_alive(c));
}

#[test]
fn birth_on_exactly_two_neighbors() {
    let c = cell_at(5.0, 5.0, Resolution::Five);
    let nbs = neighbors_of(c);
    let (a, b) = (nbs[0], nbs[2]);
    let mut u = Universe::from_cells(&vec![a, b], 5).unwrap();
    assert!(!u.is_alive(c));
    assert_eq!(u.live_neighbor_count(c), Some(2));
    u.tick();
    assert!(u.is_alive(c));
}

#[test]
fn no_spontaneous_birth_far_away() {
    let c = cell_at(0.0, 0.0, Resolution::Five);
    let far = cell_at(45.0, 90.0, Resolution::Five);
    let mut u = Universe::from_cells(&vec![c], 5).unwrap();
    u.tick();
    assert!(!u.is_alive(far));
    assert!(!u.is_alive(c));
}

#[test]
fn single_generation_rule_check() {
    // A five-cell cluster (a center and four of its neighbors); the live set
    // after one tick must match the rule table applied by hand against the
    // frozen pre-tick state.
    let c = cell_at(52.0, 13.0, Resolution::Five);
    let nbs = neighbors_of(c);
    let mut cells = vec![c];
    cells.extend(nbs.iter().take(4).cloned());
    let live: Vec<u64> = cells.clone();
    let count = |x: u64| -> usize {
        neighbors_of(x).iter().filter(|n| live.contains(n)).count()
    };
    let mut candidates: Vec<u64> = live.clone();
    for &t in &live {
        candidates.extend(neighbors_of(t));
    }
    let mut u = Universe::from_cells(&cells, 5).unwrap();
    u.tick();
    for &cand in &candidates {
        let k = count(cand);
        let expected = if live.contains(&cand) {
            k == 2 || k == 3
        } else {
            k == 2
        };
        assert_eq!(u.is_alive(cand), expected);
    }
}

#[test]
fn empty_universe_is_stable() {
    let mut u = Universe::from_cells(&vec![], 5).unwrap();
    u.tick();
    assert_eq!(u.tracked_count(), 0);
    let s = u.render();
    assert_eq!(s, "{\"type\":\"FeatureCollection\",\"features\":[]}");
}

#[test]
fn live_cells_lists_each_live_cell_once() {
    let c = cell_at(1.0, 1.0, Resolution::Five);
    let nbs = neighbors_of(c);
    let mut u = Universe::from_cells(&vec![c, nbs[0], c], 5).unwrap();
    let mut cells = u.live_cells();
    cells.sort();
    let mut expected = vec![c, nbs[0]];
    expected.sort();
    assert_eq!(cells, expected);
    u.tick();
    u.render();
    assert_eq!(u.tracked_count(), u.live_count());
}
