//! The universe: a sparse map from H3 cell index to cell state, advanced one
//! generation at a time.
//!
//! A cell absent from the map is dead.  One `tick` evaluates every tracked
//! cell against a frozen snapshot of the current state: a tracked cell
//! survives exactly when it is alive with two or three live neighbors, and
//! an untracked cell is born exactly when it neighbors a tracked cell and
//! has exactly two live neighbors.  Dead entries written by `tick` linger in
//! the map until the next `render` prunes them.

use vstd::prelude::*;
use crate::cellmap;
use crate::cellmap::{entries_map, keys_of, wf_entries};
use crate::geometry;
use crate::geometry::{point_in_domain, ring_closed, spec_project};
use crate::grid;
use crate::grid::{boundary_text_of, disk1_of, is_cell};
use crate::jsontext;
use crate::jsontext::{collection_text, features_join, writable};
use crate::numtext::{format_micro, parse_fixed, spec_parse_fixed};
use crate::sampler::{GeoSampler, UniformSampler};

verus! {

/// The state of one tracked cell.
#[derive(Clone, Copy, PartialEq, Eq, Structural, Debug)]
pub enum CellState {
    Dead,
    Alive,
}

/// Why a universe could not be constructed.
#[derive(Clone, Copy, PartialEq, Eq, Structural, Debug)]
pub enum UniverseError {
    /// The grid resolution is not one the grid capability accepts.
    InvalidResolution,
    /// A given cell index is not a valid cell of the grid.
    InvalidCell,
}

/// Whether the map tracks `c` as alive.
pub open spec fn is_live(m: Map<u64, CellState>, c: u64) -> bool {
    m.contains_key(c) && m[c] == CellState::Alive
}

/// The predicate satisfied by the live neighbors of `c`: a member of the
/// grid disk of `c` other than `c` itself that the map tracks as alive.
pub open spec fn nb_live_pred(m: Map<u64, CellState>, c: u64) -> spec_fn(u64) -> bool {
    |n: u64| n != c && is_live(m, n)
}

/// The number of live neighbors of `c` under map `m`, counted over the
/// grid-disk neighborhood of `c` (five neighbors for a pentagon cell, six
/// otherwise).
pub open spec fn nb_live_count(m: Map<u64, CellState>, c: u64) -> nat {
    disk1_of(c).filter(nb_live_pred(m, c)).len()
}

/// The live-neighbor count over only the first `k` disk members.
pub open spec fn nb_live_count_prefix(m: Map<u64, CellState>, c: u64, k: int) -> nat {
    disk1_of(c).take(k).filter(nb_live_pred(m, c)).len()
}

/// The rule table: a cell is alive in the next generation exactly when it
/// is alive now and has two or three live neighbors.  An alive cell with
/// fewer than two or more than three live neighbors dies; a dead cell stays
/// dead.
pub open spec fn next_state(s: CellState, k: nat) -> CellState {
    if s == CellState::Alive && (k == 2 || k == 3) {
        CellState::Alive
    } else {
        CellState::Dead
    }
}

/// Whether the untracked cell `k` is born by one generation step of `m`: it
/// neighbors some tracked cell (which is how the step discovers it) and has
/// exactly two live neighbors.
pub open spec fn born(m: Map<u64, CellState>, k: u64) -> bool {
    &&& !m.contains_key(k)
    &&& nb_live_count(m, k) == 2
    &&& exists|t: u64| m.contains_key(t) && k != t && disk1_of(t).contains(k)
}

/// One generation step of the whole map: every tracked cell moves by the
/// rule table, and every born cell enters as alive.
pub open spec fn spec_tick(m: Map<u64, CellState>) -> Map<u64, CellState> {
    Map::new(
        |c: u64| m.contains_key(c) || born(m, c),
        |c: u64|
            if m.contains_key(c) {
                next_state(m[c], nb_live_count(m, c))
            } else {
                CellState::Alive
            },
    )
}

/// The set of cells the map tracks as alive.
pub open spec fn live_set(m: Map<u64, CellState>) -> Set<u64> {
    m.dom().filter(|c: u64| m[c] == CellState::Alive)
}

/// Whether `c` is the cell of some coordinate of the sampling domain at the
/// given resolution: what every key of a freshly sampled universe satisfies.
pub open spec fn sampled_key(c: u64, resolution: u8) -> bool {
    exists|lng: int, lat: int|
        -180_000000 <= lng <= 180_000000 && -90_000000 <= lat <= 90_000000 && c == #[trigger] grid::cell_of(lng, lat, resolution)
}

/// The sparse universe: the tracked cells with their states, and the grid
/// resolution it was constructed with (never changed afterwards).
pub struct Universe {
    entries: Vec<(u64, CellState)>,
    resolution: u8,
}

impl View for Universe {
    type V = Map<u64, CellState>;

    closed spec fn view(&self) -> Map<u64, CellState> {
        entries_map(self.entries@)
    }
}

impl Universe {
    /// The entry list behind the map view, in its deterministic order.
    pub closed spec fn entries_seq(&self) -> Seq<(u64, CellState)> {
        self.entries@
    }

    /// The resolution the universe was constructed with.
    pub closed spec fn spec_resolution(&self) -> u8 {
        self.resolution
    }

    /// Well-formedness: each key is tracked at most once, the resolution is
    /// one the grid accepts, and every tracked key is a valid cell index.
    pub closed spec fn wf(&self) -> bool {
        &&& wf_entries(self.entries@)
        &&& self.resolution <= 15
        &&& forall|c: u64| self@.contains_key(c) ==> is_cell(c)
    }

    pub fn resolution(&self) -> (r: u8)
        ensures
            r == self.spec_resolution(),
    {
        self.resolution
    }

    /// How many cells the map currently tracks, dead entries included.
    pub fn tracked_count(&self) -> (r: usize)
        requires
            self.wf(),
        ensures
            r == self@.dom().len(),
            self@.dom().finite(),
    {
        proof {
            cellmap::lemma_entries_map_dom(self.entries@);
            keys_of(self.entries@).unique_seq_to_set();
        }
        self.entries.len()
    }

    /// Whether the map tracks `cell` as alive.
    pub fn is_alive(&self, cell: u64) -> (r: bool)
        ensures
            r == is_live(self@, cell),
    {
        match cellmap::map_get(&self.entries, cell) {
            Some(st) => st == CellState::Alive,
            None => false,
        }
    }

    /// The cells currently alive, without duplicates.
    pub fn live_cells(&self) -> (r: Vec<u64>)
        requires
            self.wf(),
        ensures
            forall|c: u64| r@.contains(c) <==> is_live(self@, c),
            r@.no_duplicates(),
    {
        broadcast use vstd::seq_lib::group_seq_properties;

        let ghost s = self.entries@;
        let mut out: Vec<u64> = Vec::new();
        let mut i: usize = 0;
        while i < self.entries.len()
            invariant
                i <= s.len(),
                s == self.entries@,
                wf_entries(s),
                out@.no_duplicates(),
                forall|c: u64|
                    out@.contains(c) <==> exists|j: int|
                        0 <= j < i && s[j] == (c, CellState::Alive),
            decreases s.len() - i,
        {
            let e = self.entries[i];
            let ghost prev = out@;
            if e.1 == CellState::Alive {
                proof {
                    if out@.contains(e.0) {
                        let j = choose|j: int| 0 <= j < i && s[j] == (e.0, CellState::Alive);
                        assert(keys_of(s)[j] == keys_of(s)[i as int]);
                    }
                }
                out.push(e.0);
            }
            proof {
                assert forall|c: u64| out@.contains(c) implies exists|j: int|
                    0 <= j < i + 1 && s[j] == (c, CellState::Alive) by {
                    if prev.contains(c) {
                        let j = choose|j: int| 0 <= j < i && s[j] == (c, CellState::Alive);
                        assert(0 <= j < i + 1 && s[j] == (c, CellState::Alive));
                    } else {
                        assert(s[i as int] == (c, CellState::Alive));
                    }
                }
                assert forall|c: u64|
                    (exists|j: int| 0 <= j < i + 1 && s[j] == (c, CellState::Alive)) implies out@
                    .contains(c) by {
                    let j = choose|j: int| 0 <= j < i + 1 && s[j] == (c, CellState::Alive);
                    if j < i {
                        assert(prev.contains(c));
                        let jj = choose|jj: int| 0 <= jj < prev.len() && prev[jj] == c;
                        assert(out@[jj] == c);
                    } else {
                        assert(s[i as int].1 == CellState::Alive);
                        assert(out@[out@.len() - 1] == c);
                    }
                }
            }
            i = i + 1;
        }
        proof {
            assert forall|c: u64| out@.contains(c) <==> is_live(self@, c) by {
                if out@.contains(c) {
                    let j = choose|j: int| 0 <= j < s.len() && s[j] == (c, CellState::Alive);
                    cellmap::lemma_entries_map_index(s, j);
                }
                if is_live(self@, c) {
                    cellmap::lemma_entries_map_dom(s);
                    assert(keys_of(s).to_set().contains(c));
                    let j = choose|j: int| 0 <= j < keys_of(s).len() && keys_of(s)[j] == c;
                    cellmap::lemma_entries_map_index(s, j);
                    assert(s[j] == (c, CellState::Alive));
                }
            }
        }
        out
    }

    /// How many cells the map currently tracks as alive.
    pub fn live_count(&self) -> (r: usize)
        requires
            self.wf(),
        ensures
            live_set(self@).finite(),
            r == live_set(self@).len(),
    {
        let live = self.live_cells();
        proof {
            live.view().unique_seq_to_set();
            assert(live@.to_set() =~= live_set(self@));
        }
        live.len()
    }

    /// The number of live neighbors of `cell`, or nothing when `cell` is
    /// not a valid cell index of the grid.
    pub fn live_neighbor_count(&self, cell: u64) -> (r: Option<usize>)
        requires
            self.wf(),
        ensures
            r == (if is_cell(cell) {
                Some(nb_live_count(self@, cell) as usize)
            } else {
                None::<usize>
            }),
            is_cell(cell) ==> nb_live_count(self@, cell) <= 7,
    {
        if grid::check_cell(cell) {
            Some(count_live_in(&self.entries, cell))
        } else {
            None
        }
    }
}

/// Counts the live neighbors of `c` against the given entry list.
fn count_live_in(entries: &Vec<(u64, CellState)>, c: u64) -> (cnt: usize)
    requires
        is_cell(c),
    ensures
        cnt == nb_live_count(entries_map(entries@), c),
        cnt <= 7,
{
    broadcast use vstd::seq_lib::group_seq_properties;

    let ghost m = entries_map(entries@);
    let disk = grid::grid_disk1(c);
    let mut cnt: usize = 0;
    let mut j: usize = 0;
    while j < disk.len()
        invariant
            j <= disk@.len(),
            disk@ == disk1_of(c),
            disk@.len() <= 7,
            m == entries_map(entries@),
            cnt == nb_live_count_prefix(m, c, j as int),
            cnt <= j,
        decreases disk@.len() - j,
    {
        let n = disk[j];
        let mut hit = false;
        if n != c {
            match cellmap::map_get(entries, n) {
                Some(st) => hit = st == CellState::Alive,
                None => {},
            }
        }
        proof {
            assert(disk1_of(c).take(j as int + 1) =~= disk1_of(c).take(j as int).push(
                disk1_of(c)[j as int],
            ));
            disk1_of(c).take(j as int).lemma_filter_push(disk1_of(c)[j as int], nb_live_pred(m, c));
            assert(hit == nb_live_pred(m, c)(disk1_of(c)[j as int]));
        }
        if hit {
            cnt = cnt + 1;
        }
        j = j + 1;
    }
    proof {
        assert(disk1_of(c).take(disk@.len() as int) =~= disk1_of(c));
    }
    cnt
}

/// The rule table as executable code.
fn transition(s: CellState, k: usize) -> (r: CellState)
    ensures
        r == next_state(s, k as nat),
{
    if s == CellState::Alive && (k == 2 || k == 3) {
        CellState::Alive
    } else {
        CellState::Dead
    }
}

/// A copy of the entry list, used as the frozen pre-tick snapshot.
fn clone_entries(entries: &Vec<(u64, CellState)>) -> (r: Vec<(u64, CellState)>)
    ensures
        r@ == entries@,
{
    let mut r: Vec<(u64, CellState)> = Vec::new();
    let mut i: usize = 0;
    while i < entries.len()
        invariant
            i <= entries@.len(),
            r@ == entries@.take(i as int),
        decreases entries@.len() - i,
    {
        r.push(entries[i]);
        proof {
            assert(entries@.take(i + 1 as int) =~= entries@.take(i as int).push(entries@[i as int]));
        }
        i = i + 1;
    }
    proof {
        assert(entries@.take(entries@.len() as int) =~= entries@);
    }
    r
}

/// Births discovered while processing the first `i` tracked entries: `k`
/// neighbors one of them and has exactly two live neighbors.
spec fn born_upto(m: Map<u64, CellState>, s: Seq<(u64, CellState)>, i: int, k: u64) -> bool {
    nb_live_count(m, k) == 2 && exists|t: int|
        0 <= t < i && k != (#[trigger] s[t]).0 && disk1_of(s[t].0).contains(k)
}

/// Births discovered among the first `j` disk members of the tracked cell
/// `c`.
spec fn born_in_disk(m: Map<u64, CellState>, c: u64, j: int, k: u64) -> bool {
    nb_live_count(m, k) == 2 && k != c && exists|jj: int|
        0 <= jj < j && disk1_of(c)[jj] == k
}

impl Universe {
    /// Advances the universe by exactly one generation.  Every read during
    /// the step sees the pre-tick state: the next map is built on the side
    /// and installed at the end of the call.
    pub fn tick(&mut self)
        requires
            old(self).wf(),
        ensures
            final(self).wf(),
            final(self)@ == spec_tick(old(self)@),
            final(self).spec_resolution() == old(self).spec_resolution(),
    {
        broadcast use vstd::seq_lib::group_seq_properties;

        let ghost s0 = self.entries@;
        let ghost m0 = entries_map(s0);
        let mut next = clone_entries(&self.entries);
        proof {
            assert forall|idx: int| 0 <= idx < s0.len() implies entries_map(next@).contains_key(
                (#[trigger] s0[idx]).0,
            ) && entries_map(next@)[s0[idx].0] == s0[idx].1 by {
                cellmap::lemma_entries_map_index(s0, idx);
            }
        }
        let n = self.entries.len();
        let mut i: usize = 0;
        while i < n
            invariant
                old(self).wf(),
                s0 == old(self).entries@,
                m0 == entries_map(s0),
                self == old(self),
                n == s0.len(),
                i <= n,
                wf_entries(next@),
                forall|idx: int|
                    0 <= idx < i ==> entries_map(next@).contains_key((#[trigger] s0[idx]).0)
                        && entries_map(next@)[s0[idx].0] == next_state(
                        s0[idx].1,
                        nb_live_count(m0, s0[idx].0),
                    ),
                forall|idx: int|
                    i <= idx < n ==> entries_map(next@).contains_key((#[trigger] s0[idx]).0)
                        && entries_map(next@)[s0[idx].0] == s0[idx].1,
                forall|k: u64|
                    !m0.contains_key(k) ==> ((#[trigger] entries_map(next@).contains_key(k))
                        <==> born_upto(m0, s0, i as int, k)),
                forall|k: u64|
                    !m0.contains_key(k) && #[trigger] entries_map(next@).contains_key(k)
                        ==> entries_map(next@)[k] == CellState::Alive,
                forall|k: u64| #[trigger] entries_map(next@).contains_key(k) ==> is_cell(k),
            decreases n - i,
        {
            let e = self.entries[i];
            let c = e.0;
            let st = e.1;
            proof {
                cellmap::lemma_entries_map_index(s0, i as int);
            }
            let disk = grid::grid_disk1(c);
            let mut j: usize = 0;
            while j < disk.len()
                invariant
                    old(self).wf(),
                    s0 == old(self).entries@,
                    m0 == entries_map(s0),
                    self == old(self),
                    n == s0.len(),
                    i < n,
                    c == s0[i as int].0,
                    m0.contains_key(c),
                    disk@ == disk1_of(c),
                    forall|x: int| 0 <= x < disk@.len() ==> is_cell(#[trigger] disk@[x]),
                    j <= disk@.len(),
                    wf_entries(next@),
                    forall|idx: int|
                        0 <= idx < i ==> entries_map(next@).contains_key((#[trigger] s0[idx]).0)
                            && entries_map(next@)[s0[idx].0] == next_state(
                            s0[idx].1,
                            nb_live_count(m0, s0[idx].0),
                        ),
                    forall|idx: int|
                        i <= idx < n ==> entries_map(next@).contains_key((#[trigger] s0[idx]).0)
                            && entries_map(next@)[s0[idx].0] == s0[idx].1,
                    forall|k: u64|
                        !m0.contains_key(k) ==> ((#[trigger] entries_map(next@).contains_key(k))
                            <==> (born_upto(m0, s0, i as int, k) || born_in_disk(
                            m0,
                            c,
                            j as int,
                            k,
                        ))),
                    forall|k: u64|
                        !m0.contains_key(k) && #[trigger] entries_map(next@).contains_key(k)
                            ==> entries_map(next@)[k] == CellState::Alive,
                    forall|k: u64| #[trigger] entries_map(next@).contains_key(k) ==> is_cell(k),
                decreases disk@.len() - j,
            {
                let nb = disk[j];
                let ghost prev = next@;
                if nb != c {
                    let tracked_nb = match cellmap::map_get(&self.entries, nb) {
                        Some(_) => true,
                        None => false,
                    };
                    if !tracked_nb {
                        let cnt = count_live_in(&self.entries, nb);
                        if cnt == 2 {
                            cellmap::map_set(&mut next, nb, CellState::Alive);
                        }
                    }
                }
                proof {
                    assert forall|k: u64| !m0.contains_key(k) implies ((
                    #[trigger] entries_map(next@).contains_key(k)) <==> (born_upto(
                        m0,
                        s0,
                        i as int,
                        k,
                    ) || born_in_disk(m0, c, j + 1 as int, k))) by {
                        let dk = disk1_of(c)[j as int];
                        if entries_map(next@).contains_key(k) {
                            if entries_map(prev).contains_key(k) {
                                if born_in_disk(m0, c, j as int, k) {
                                    let jj = choose|jj: int|
                                        0 <= jj < j && disk1_of(c)[jj] == k;
                                    assert(born_in_disk(m0, c, j + 1 as int, k));
                                }
                            } else {
                                // only the birth insert adds a key
                                assert(k == dk && k != c && nb_live_count(m0, k) == 2);
                                assert(born_in_disk(m0, c, j + 1 as int, k));
                            }
                        } else {
                            if born_in_disk(m0, c, j + 1 as int, k) {
                                let jj = choose|jj: int|
                                    0 <= jj < j + 1 && disk1_of(c)[jj] == k;
                                if jj == j {
                                    assert(k == dk);
                                    assert(false);
                                } else {
                                    assert(born_in_disk(m0, c, j as int, k));
                                }
                            }
                            assert(!born_upto(m0, s0, i as int, k));
                        }
                    }
                }
                j = j + 1;
            }
            let cnt = count_live_in(&self.entries, c);
            let ns = transition(st, cnt);
            cellmap::map_set(&mut next, c, ns);
            proof {
                assert forall|idx: int| 0 <= idx < i + 1 implies entries_map(next@).contains_key(
                    (#[trigger] s0[idx]).0,
                ) && entries_map(next@)[s0[idx].0] == next_state(
                    s0[idx].1,
                    nb_live_count(m0, s0[idx].0),
                ) by {
                    if idx < i {
                        assert(keys_of(s0)[idx] != keys_of(s0)[i as int]);
                        assert(s0[idx].0 != c);
                    }
                }
                assert forall|idx: int| i + 1 <= idx < n implies entries_map(next@).contains_key(
                    (#[trigger] s0[idx]).0,
                ) && entries_map(next@)[s0[idx].0] == s0[idx].1 by {
                    assert(keys_of(s0)[idx] != keys_of(s0)[i as int]);
                    assert(s0[idx].0 != c);
                }
                assert forall|k: u64| !m0.contains_key(k) implies ((
                #[trigger] entries_map(next@).contains_key(k)) <==> born_upto(
                    m0,
                    s0,
                    i + 1 as int,
                    k,
                )) by {
                    assert(k != c);
                    if entries_map(next@).contains_key(k) {
                        if born_upto(m0, s0, i as int, k) {
                            let t = choose|t: int|
                                0 <= t < i && k != (#[trigger] s0[t]).0 && disk1_of(
                                    s0[t].0,
                                ).contains(k);
                            assert(born_upto(m0, s0, i + 1 as int, k));
                        } else {
                            assert(born_in_disk(m0, c, disk1_of(c).len() as int, k));
                            let jj = choose|jj: int|
                                0 <= jj < disk1_of(c).len() && disk1_of(c)[jj] == k;
                            assert(disk1_of(c).contains(k));
                            assert(k != (s0[i as int]).0 && disk1_of(s0[i as int].0).contains(k));
                            assert(born_upto(m0, s0, i + 1 as int, k));
                        }
                    } else {
                        if born_upto(m0, s0, i + 1 as int, k) {
                            let t = choose|t: int|
                                0 <= t < i + 1 && k != (#[trigger] s0[t]).0 && disk1_of(
                                    s0[t].0,
                                ).contains(k);
                            if t == i {
                                let jj = choose|jj: int|
                                    0 <= jj < disk1_of(c).len() && disk1_of(c)[jj] == k;
                                assert(born_in_disk(m0, c, disk1_of(c).len() as int, k));
                                assert(false);
                            } else {
                                assert(born_upto(m0, s0, i as int, k));
                                assert(false);
                            }
                        }
                    }
                }
            }
            i = i + 1;
        }
        self.entries = next;
        proof {
            cellmap::lemma_entries_map_dom(s0);
            assert forall|k: u64| #[trigger] entries_map(next@).contains_key(k) implies (
            m0.contains_key(k) || born(m0, k)) && entries_map(next@)[k] == (if m0.contains_key(k) {
                next_state(m0[k], nb_live_count(m0, k))
            } else {
                CellState::Alive
            }) by {
                if m0.contains_key(k) {
                    assert(keys_of(s0).to_set().contains(k));
                    let idx = choose|idx: int|
                        0 <= idx < keys_of(s0).len() && keys_of(s0)[idx] == k;
                    assert(s0[idx].0 == k);
                    cellmap::lemma_entries_map_index(s0, idx);
                } else {
                    let t = choose|t: int|
                        0 <= t < n && k != (#[trigger] s0[t]).0 && disk1_of(s0[t].0).contains(k);
                    cellmap::lemma_entries_map_index(s0, t);
                    assert(m0.contains_key(s0[t].0) && k != s0[t].0 && disk1_of(
                        s0[t].0,
                    ).contains(k));
                }
            }
            assert forall|k: u64| m0.contains_key(k) || born(m0, k) implies
                #[trigger] entries_map(next@).contains_key(k) by {
                if m0.contains_key(k) {
                    assert(keys_of(s0).to_set().contains(k));
                    let idx = choose|idx: int|
                        0 <= idx < keys_of(s0).len() && keys_of(s0)[idx] == k;
                    assert(s0[idx].0 == k);
                } else {
                    let t = choose|t: u64| m0.contains_key(t) && k != t && disk1_of(t).contains(k);
                    assert(keys_of(s0).to_set().contains(t));
                    let idx = choose|idx: int|
                        0 <= idx < keys_of(s0).len() && keys_of(s0)[idx] == t;
                    assert(s0[idx].0 == t);
                    assert(born_upto(m0, s0, n as int, k));
                }
            }
            assert(entries_map(next@) =~= spec_tick(m0));
        }
    }

    /// Builds a universe by drawing `num_init` coordinates uniformly from
    /// the whole coordinate domain and marking the cell containing each one
    /// alive at `resolution`: every key is the cell of one of the draws, and
    /// with at least one draw at least one cell is tracked.  Draws that land
    /// in the same cell coalesce, so the universe may track fewer than
    /// `num_init` cells.  Fails exactly when the grid does not accept
    /// `resolution`.
    pub fn new(num_init: usize, resolution: u8, rng: &mut rand::rngs::StdRng) -> (r: Result<
        Universe,
        UniverseError,
    >)
        ensures
            r is Ok <==> resolution <= 15,
            match r {
                Ok(u) => {
                    &&& u.wf()
                    &&& u.spec_resolution() == resolution
                    &&& u@.dom().finite()
                    &&& u@.dom().len() <= num_init
                    &&& (num_init >= 1 ==> u@.dom().len() >= 1)
                    &&& forall|c: u64| u@.contains_key(c) ==> u@[c] == CellState::Alive
                    &&& forall|c: u64| u@.contains_key(c) ==> sampled_key(c, resolution)
                },
                Err(e) => e == UniverseError::InvalidResolution,
            },
    {
        if resolution > 15 {
            return Err(UniverseError::InvalidResolution);
        }
        let mut entries: Vec<(u64, CellState)> = Vec::new();
        let mut k: usize = 0;
        while k < num_init
            invariant
                k <= num_init,
                resolution <= 15,
                wf_entries(entries@),
                entries@.len() <= k,
                k >= 1 ==> entries@.len() >= 1,
                forall|c: u64|
                    #[trigger] entries_map(entries@).contains_key(c) ==> is_cell(c) && entries_map(
                        entries@,
                    )[c] == CellState::Alive && sampled_key(c, resolution),
            decreases num_init - k,
        {
            let coord = UniformSampler::sample_coord(rng);
            let lng_s = format_micro(coord.lng_micro);
            let lat_s = format_micro(coord.lat_micro);
            let cell = grid::micro_to_cell(
                lng_s.as_str(),
                lat_s.as_str(),
                coord.lng_micro,
                coord.lat_micro,
                resolution,
            );
            cellmap::map_set(&mut entries, cell, CellState::Alive);
            proof {
                assert(cell == grid::cell_of(
                    coord.lng_micro as int,
                    coord.lat_micro as int,
                    resolution,
                ));
                assert(sampled_key(cell, resolution));
            }
            k = k + 1;
        }
        proof {
            cellmap::lemma_entries_map_dom(entries@);
            keys_of(entries@).unique_seq_to_set();
            broadcast use vstd::seq_lib::seq_to_set_is_finite;

        }
        Ok(Universe { entries, resolution })
    }

    /// Builds a universe that tracks exactly the given cells as alive, for
    /// seeding an explicit pattern.  Fails with `InvalidResolution` when the
    /// grid does not accept `resolution`, and with `InvalidCell` when one of
    /// the given indexes is not a valid cell.
    pub fn from_cells(cells: &Vec<u64>, resolution: u8) -> (r: Result<Universe, UniverseError>)
        ensures
            match r {
                Ok(u) => {
                    &&& resolution <= 15
                    &&& forall|i: int| 0 <= i < cells@.len() ==> is_cell(#[trigger] cells@[i])
                    &&& u.wf()
                    &&& u.spec_resolution() == resolution
                    &&& u@.dom() == cells@.to_set()
                    &&& forall|c: u64| u@.contains_key(c) ==> u@[c] == CellState::Alive
                },
                Err(e) => if e == UniverseError::InvalidResolution {
                    resolution > 15
                } else {
                    e == UniverseError::InvalidCell && resolution <= 15 && exists|i: int|
                        0 <= i < cells@.len() && !is_cell(#[trigger] cells@[i])
                },
            },
    {
        broadcast use vstd::seq_lib::group_seq_properties;

        if resolution > 15 {
            return Err(UniverseError::InvalidResolution);
        }
        let mut entries: Vec<(u64, CellState)> = Vec::new();
        let mut k: usize = 0;
        while k < cells.len()
            invariant
                k <= cells@.len(),
                resolution <= 15,
                wf_entries(entries@),
                forall|i: int| 0 <= i < k ==> is_cell(#[trigger] cells@[i]),
                keys_of(entries@).to_set() == cells@.take(k as int).to_set(),
                forall|c: u64|
                    #[trigger] entries_map(entries@).contains_key(c) ==> is_cell(c) && entries_map(
                        entries@,
                    )[c] == CellState::Alive,
            decreases cells@.len() - k,
        {
            let cell = cells[k];
            if !grid::check_cell(cell) {
                return Err(UniverseError::InvalidCell);
            }
            cellmap::map_set(&mut entries, cell, CellState::Alive);
            proof {
                assert(cells@.take(k + 1 as int) =~= cells@.take(k as int).push(cells@[k as int]));
                Seq::<u64>::lemma_to_set_insert_commutes(cells@.take(k as int), cells@[k as int]);
                assert(cells@.take(k as int).push(cells@[k as int]) =~= cells@.take(k as int)
                    + seq![cells@[k as int]]);
                assert(keys_of(entries@).to_set() =~= cells@.take(k + 1 as int).to_set());
            }
            k = k + 1;
        }
        proof {
            cellmap::lemma_entries_map_dom(entries@);
            assert(cells@.take(cells@.len() as int) =~= cells@);
        }
        Ok(Universe { entries, resolution })
    }
}

/// Reads a cell boundary's coordinate texts into microdegree points, all of
/// them or nothing.
pub open spec fn parse_pairs(ts: Seq<(Seq<char>, Seq<char>)>) -> Option<Seq<(i64, i64)>>
    decreases ts.len(),
{
    if ts.len() == 0 {
        Some(Seq::empty())
    } else {
        match parse_pairs(ts.drop_last()) {
            Some(ps) => match (spec_parse_fixed(ts.last().0), spec_parse_fixed(ts.last().1)) {
                (Some(a), Some(b)) => Some(ps.push((a as i64, b as i64))),
                _ => None,
            },
            None => None,
        }
    }
}

/// The projected ring of one cell: its boundary texts read as microdegree
/// points and run through the boundary projector.  A boundary that does not
/// read back (which the grid capability never produces) yields the empty
/// ring.
pub open spec fn spec_ring_of(c: u64) -> Seq<(i64, i64)> {
    match parse_pairs(boundary_text_of(c)) {
        Some(ps) => spec_project(ps),
        None => Seq::empty(),
    }
}

/// The projected rings of a sequence of cells.
pub open spec fn rings_of(cells: Seq<u64>) -> Seq<Seq<(i64, i64)>> {
    cells.map_values(|c: u64| spec_ring_of(c))
}

/// The predicate satisfied by an entry tracked as alive.
pub open spec fn live_entry_pred() -> spec_fn((u64, CellState)) -> bool {
    |e: (u64, CellState)| e.1 == CellState::Alive
}

/// The keys of the alive entries, in entry order.
pub open spec fn live_keys(s: Seq<(u64, CellState)>) -> Seq<u64> {
    keys_of(s.filter(live_entry_pred()))
}

/// In a well-formed entry list, the alive keys list the live set exactly
/// once each.
pub proof fn lemma_live_keys_count(s: Seq<(u64, CellState)>)
    requires
        wf_entries(s),
    ensures
        live_keys(s).no_duplicates(),
        live_set(entries_map(s)).finite(),
        live_keys(s).len() == live_set(entries_map(s)).len(),
        forall|c: u64| live_keys(s).contains(c) <==> is_live(entries_map(s), c),
{
    broadcast use vstd::seq_lib::group_seq_properties;

    let f = s.filter(live_entry_pred());
    cellmap::lemma_entries_map_filter(s, live_entry_pred());
    cellmap::lemma_entries_map_dom(f);
    assert forall|c: u64| live_keys(s).contains(c) implies is_live(entries_map(s), c) by {
        assert(keys_of(f).to_set().contains(c));
        assert(entries_map(f).contains_key(c));
    }
    assert forall|c: u64| is_live(entries_map(s), c) implies live_keys(s).contains(c) by {
        assert(entries_map(f).contains_key(c));
        assert(keys_of(f).to_set().contains(c));
    }
    assert(live_set(entries_map(s)) =~= keys_of(f).to_set());
    keys_of(f).unique_seq_to_set();
}

/// Reads a cell's boundary from the grid and projects it into a closed
/// ring of microdegree points.
fn build_ring(cell: u64) -> (r: Vec<(i64, i64)>)
    requires
        is_cell(cell),
    ensures
        r@ == spec_ring_of(cell),
        ring_closed(r@),
        forall|i: int|
            0 <= i < r@.len() ==> writable((#[trigger] r@[i]).0) && writable(r@[i].1),
{
    let btext = grid::cell_boundary_text(cell);
    let ghost ts = boundary_text_of(cell);
    let mut pts: Vec<(i64, i64)> = Vec::new();
    let mut i: usize = 0;
    while i < btext.len()
        invariant
            i <= btext@.len(),
            btext@.len() == ts.len(),
            ts == boundary_text_of(cell),
            forall|x: int|
                0 <= x < btext@.len() ==> (#[trigger] btext@[x]).0@ == ts[x].0 && btext@[x].1@
                    == ts[x].1,
            forall|x: int|
                0 <= x < ts.len() ==> match spec_parse_fixed((#[trigger] ts[x]).0) {
                    Some(v) => -180_000000 <= v <= 180_000000,
                    None => false,
                },
            forall|x: int|
                0 <= x < ts.len() ==> match spec_parse_fixed((#[trigger] ts[x]).1) {
                    Some(v) => -90_000000 <= v <= 90_000000,
                    None => false,
                },
            parse_pairs(ts.take(i as int)) == Some(pts@),
            forall|x: int| 0 <= x < pts@.len() ==> point_in_domain(#[trigger] pts@[x]),
        decreases btext@.len() - i,
    {
        let lng = parse_fixed(btext[i].0.as_str());
        let lat = parse_fixed(btext[i].1.as_str());
        let a = match lng {
            Some(a) => a,
            None => {
                proof {
                    assert(false);
                }
                0
            },
        };
        let b = match lat {
            Some(b) => b,
            None => {
                proof {
                    assert(false);
                }
                0
            },
        };
        pts.push((a, b));
        proof {
            assert(ts.take(i + 1 as int).drop_last() =~= ts.take(i as int));
            assert(ts.take(i + 1 as int).last() == ts[i as int]);
        }
        i = i + 1;
    }
    proof {
        assert(ts.take(ts.len() as int) =~= ts);
        assert(ts.len() >= 1);
        assert(pts@.len() >= 1);
    }
    let ring = geometry::project_ring(&pts);
    proof {
        let base = if geometry::straddles(pts@) {
            pts@.map_values(|p: (i64, i64)| geometry::shift_point(p))
        } else {
            pts@
        };
        assert forall|x: int| 0 <= x < ring@.len() implies writable((#[trigger] ring@[x]).0)
            && writable(ring@[x].1) by {
            if x < base.len() {
                assert(ring@[x] == base[x]);
            } else {
                assert(ring@[x] == base[0]);
            }
        }
    }
    ring
}

impl Universe {
    /// Renders every alive cell as one polygon feature in a GeoJSON
    /// feature-collection document, and prunes every dead entry from the
    /// map.  The document holds exactly one closed ring per alive cell, in
    /// the map's entry order.
    pub fn render(&mut self) -> (out: String)
        requires
            old(self).wf(),
        ensures
            final(self).wf(),
            final(self).spec_resolution() == old(self).spec_resolution(),
            forall|c: u64| #[trigger] final(self)@.contains_key(c) <==> is_live(old(self)@, c),
            forall|c: u64|
                #[trigger] final(self)@.contains_key(c) ==> final(self)@[c] == CellState::Alive,
            out@ == collection_text(rings_of(live_keys(old(self).entries_seq()))),
            rings_of(live_keys(old(self).entries_seq())).len() == live_set(old(self)@).len(),
            forall|i: int|
                0 <= i < rings_of(live_keys(old(self).entries_seq())).len() ==> ring_closed(
                    #[trigger] rings_of(live_keys(old(self).entries_seq()))[i],
                ),
    {
        broadcast use vstd::seq_lib::group_seq_properties;

        let ghost s0 = self.entries@;
        let ghost m0 = entries_map(s0);
        let mut kept: Vec<(u64, CellState)> = Vec::new();
        let mut out = String::new();
        proof {
            reveal_strlit("{\"type\":\"FeatureCollection\",\"features\":[");
            reveal_strlit("]}");
        }
        out.append("{\"type\":\"FeatureCollection\",\"features\":[");
        let ghost header = out@;
        let n = self.entries.len();
        let mut first = true;
        let mut i: usize = 0;
        while i < n
            invariant
                old(self).wf(),
                s0 == old(self).entries@,
                m0 == entries_map(s0),
                self == old(self),
                n == s0.len(),
                i <= n,
                header == ("{\"type\":\"FeatureCollection\",\"features\":[")@,
                kept@ == s0.take(i as int).filter(live_entry_pred()),
                out@ == header + features_join(rings_of(live_keys(s0.take(i as int)))),
                first == (live_keys(s0.take(i as int)).len() == 0),
                forall|x: int|
                    0 <= x < live_keys(s0.take(i as int)).len() ==> ring_closed(
                        #[trigger] rings_of(live_keys(s0.take(i as int)))[x],
                    ),
            decreases n - i,
        {
            let e = self.entries[i];
            let ghost lk = live_keys(s0.take(i as int));
            proof {
                assert(s0.take(i + 1 as int) =~= s0.take(i as int).push(s0[i as int]));
                s0.take(i as int).lemma_filter_push(s0[i as int], live_entry_pred());
            }
            if e.1 == CellState::Alive {
                proof {
                    cellmap::lemma_entries_map_index(s0, i as int);
                    assert(keys_of(
                        s0.take(i as int).filter(live_entry_pred()).push(s0[i as int]),
                    ) =~= lk.push(e.0));
                    assert(live_keys(s0.take(i + 1 as int)) == lk.push(e.0));
                    assert(rings_of(lk.push(e.0)) =~= rings_of(lk).push(spec_ring_of(e.0)));
                    assert(rings_of(lk.push(e.0)).drop_last() =~= rings_of(lk));
                }
                if !first {
                    proof {
                        reveal_strlit(",");
                    }
                    out.append(",");
                }
                first = false;
                let ring = build_ring(e.0);
                jsontext::append_feature(&mut out, &ring);
                kept.push(e);
                proof {
                    let lk1 = live_keys(s0.take(i + 1 as int));
                    assert(rings_of(lk1).last() == spec_ring_of(e.0));
                    if lk.len() == 0 {
                        assert(rings_of(lk1).len() == 1);
                        assert(features_join(rings_of(lk1)) == jsontext::feature_text(
                            spec_ring_of(e.0),
                        ));
                        assert(out@ =~= header + features_join(rings_of(lk1)));
                    } else {
                        assert(features_join(rings_of(lk1)) == features_join(rings_of(lk))
                            + seq![','] + jsontext::feature_text(spec_ring_of(e.0)));
                        assert(out@ =~= header + features_join(rings_of(lk1)));
                    }
                    assert forall|x: int| 0 <= x < lk1.len() implies ring_closed(
                        #[trigger] rings_of(lk1)[x],
                    ) by {
                        if x < lk.len() {
                            assert(rings_of(lk1)[x] == rings_of(lk)[x]);
                        } else {
                            assert(rings_of(lk1)[x] == spec_ring_of(e.0));
                        }
                    }
                }
            } else {
                proof {
                    assert(s0.take(i + 1 as int).filter(live_entry_pred()) == s0.take(
                        i as int,
                    ).filter(live_entry_pred()));
                    assert(live_keys(s0.take(i + 1 as int)) == lk);
                }
            }
            i = i + 1;
        }
        out.append("]}");
        self.entries = kept;
        proof {
            assert(s0.take(n as int) =~= s0);
            cellmap::lemma_entries_map_filter(s0, live_entry_pred());
            lemma_live_keys_count(s0);
            assert(out@ =~= collection_text(rings_of(live_keys(s0))));
        }
        out
    }
}

/// The stasis law: an alive cell with exactly two or three live neighbors
/// is still alive after one generation step.
pub proof fn lemma_stasis(m: Map<u64, CellState>, c: u64)
    requires
        is_live(m, c),
        nb_live_count(m, c) == 2 || nb_live_count(m, c) == 3,
    ensures
        is_live(spec_tick(m), c),
{
}

/// The death law: an alive cell with fewer than two or more than three
/// live neighbors is dead after one generation step (it stays tracked,
/// marked dead, until the next render prunes it).
pub proof fn lemma_death(m: Map<u64, CellState>, c: u64)
    requires
        is_live(m, c),
        nb_live_count(m, c) != 2 && nb_live_count(m, c) != 3,
    ensures
        spec_tick(m).contains_key(c),
        spec_tick(m)[c] == CellState::Dead,
{
}

/// The birth law: an untracked cell that neighbors some tracked cell and
/// has exactly two live neighbors is alive after one generation step.
pub proof fn lemma_birth(m: Map<u64, CellState>, c: u64, t: u64)
    requires
        !m.contains_key(c),
        m.contains_key(t),
        c != t,
        disk1_of(t).contains(c),
        nb_live_count(m, c) == 2,
    ensures
        is_live(spec_tick(m), c),
{
}

/// The discovery limit: an untracked cell that neighbors no tracked cell is
/// never discovered, so it stays untracked (and dead) after one generation
/// step, whatever its live-neighbor count would be.
pub proof fn lemma_no_spontaneous_birth(m: Map<u64, CellState>, c: u64)
    requires
        !m.contains_key(c),
        forall|t: u64| m.contains_key(t) ==> !(#[trigger] disk1_of(t)).contains(c),
    ensures
        !spec_tick(m).contains_key(c),
{
}

/// A tracked dead cell stays tracked and dead after one generation step:
/// `tick` never removes entries, only `render` does.
pub proof fn lemma_dead_stays_tracked(m: Map<u64, CellState>, c: u64)
    requires
        m.contains_key(c),
        m[c] == CellState::Dead,
    ensures
        spec_tick(m).contains_key(c),
        spec_tick(m)[c] == CellState::Dead,
{
}

} // verus!
