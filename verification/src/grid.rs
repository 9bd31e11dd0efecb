//! The hexagonal grid capability, supplied by the `h3o` crate.
//!
//! Cell indexes cross this boundary as their `u64` bit patterns, and
//! boundary vertices cross it as fixed-width decimal degree texts, so that
//! everything the simulation reads is a plain value.  Each function here is
//! a thin trusted wrapper around one chain of `h3o` calls.

use vstd::prelude::*;
use crate::numtext::{spec_micro_text, spec_parse_fixed};

verus! {

/// Whether `h` is the bit pattern of a valid H3 cell index: names the
/// success of `h3o::CellIndex::try_from(u64)`, which depends on `h` alone.
pub uninterp spec fn is_cell(h: u64) -> bool;

/// The cells within grid distance 1 of a cell (the cell itself included),
/// in the order `h3o::CellIndex::grid_disk` yields them; the disk is a pure
/// function of the cell index.
pub uninterp spec fn disk1_of(h: u64) -> Seq<u64>;

/// The boundary vertices of a cell, each as the pair of fixed-width decimal
/// degree texts (longitude, latitude); a pure function of the cell index.
pub uninterp spec fn boundary_text_of(h: u64) -> Seq<(Seq<char>, Seq<char>)>;

/// The cell that contains the coordinate written as (longitude, latitude)
/// microdegrees, at the given resolution; names `h3o::LatLng::to_cell`.
pub uninterp spec fn cell_of(lng_micro: int, lat_micro: int, resolution: u8) -> u64;

/// Relies on `h3o::CellIndex::try_from(u64)`: it accepts exactly the valid
/// cell-index bit patterns.
#[verifier::external_body]
pub fn check_cell(h: u64) -> (r: bool)
    ensures
        r == is_cell(h),
{
    h3o::CellIndex::try_from(h).is_ok()
}

/// Relies on `h3o::CellIndex::grid_disk` with `k == 1`: it yields the cells
/// within one grid step of the center — the center itself among them, at
/// most seven in all, pairwise distinct — and every element is a valid cell
/// index.
#[verifier::external_body]
pub(crate) fn grid_disk1(h: u64) -> (r: Vec<u64>)
    requires
        is_cell(h),
    ensures
        r@ == disk1_of(h),
        r@.no_duplicates(),
        r@.contains(h),
        1 <= r@.len() <= 7,
        forall|i: int| 0 <= i < r@.len() ==> is_cell(#[trigger] r@[i]),
{
    let cell = h3o::CellIndex::try_from(h).unwrap();
    cell.grid_disk::<Vec<_>>(1).into_iter().map(u64::from).collect()
}

/// Relies on `h3o::CellIndex::boundary` and `h3o::LatLng::{lng, lat}`: the
/// boundary of a valid cell has at least one vertex, and each vertex is a
/// finite coordinate with longitude in [-180, 180] and latitude in
/// [-90, 90] degrees, written here with six fraction digits.
#[verifier::external_body]
pub(crate) fn cell_boundary_text(h: u64) -> (r: Vec<(String, String)>)
    requires
        is_cell(h),
    ensures
        r@.len() == boundary_text_of(h).len(),
        forall|i: int|
            0 <= i < r@.len() ==> (#[trigger] r@[i]).0@ == boundary_text_of(h)[i].0 && r@[i].1@
                == boundary_text_of(h)[i].1,
        1 <= r@.len(),
        forall|i: int|
            0 <= i < r@.len() ==> match spec_parse_fixed((#[trigger] boundary_text_of(h)[i]).0) {
                Some(v) => -180_000000 <= v <= 180_000000,
                None => false,
            },
        forall|i: int|
            0 <= i < r@.len() ==> match spec_parse_fixed((#[trigger] boundary_text_of(h)[i]).1) {
                Some(v) => -90_000000 <= v <= 90_000000,
                None => false,
            },
{
    let cell = h3o::CellIndex::try_from(h).unwrap();
    cell.boundary()
        .iter()
        .map(|v| (format!("{:+012.6}", v.lng()), format!("{:+012.6}", v.lat())))
        .collect()
}

/// Relies on `str::parse::<f64>`, `h3o::LatLng::new`,
/// `h3o::Resolution::try_from` (which accepts 0 through 15) and
/// `h3o::LatLng::to_cell`: for a coordinate given as plain decimal degree
/// texts the chain returns the valid index of the cell containing it at the
/// requested resolution.
#[verifier::external_body]
pub(crate) fn micro_to_cell(lng_s: &str, lat_s: &str, lng: i64, lat: i64, res: u8) -> (r: u64)
    requires
        lng_s@ == spec_micro_text(lng as int),
        lat_s@ == spec_micro_text(lat as int),
        -180_000000 <= lng <= 180_000000,
        -90_000000 <= lat <= 90_000000,
        res <= 15,
    ensures
        is_cell(r),
        r == cell_of(lng as int, lat as int, res),
{
    let ll = h3o::LatLng::new(lat_s.parse().unwrap(), lng_s.parse().unwrap()).unwrap();
    let resolution = h3o::Resolution::try_from(res).unwrap();
    ll.to_cell(resolution).into()
}

} // verus!
