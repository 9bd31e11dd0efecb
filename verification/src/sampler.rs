//! Coordinate sampling for the initial population.
//!
//! Randomness comes from an explicit `rand::rngs::StdRng` handed in by the
//! caller, so that a test can seed the source and replay a sequence.  The
//! sampler draws longitude and latitude independently and uniformly over
//! the whole coordinate domain, at microdegree granularity.

use vstd::prelude::*;

verus! {

#[verifier::external_type_specification]
#[verifier::external_body]
pub struct ExStdRng(rand::rngs::StdRng);

/// Relies on `rand::SeedableRng::seed_from_u64` for `StdRng`: a
/// deterministic generator built from the seed.
#[verifier::external_body]
pub fn create_rng(seed: u64) -> rand::rngs::StdRng {
    <rand::rngs::StdRng as rand::SeedableRng>::seed_from_u64(seed)
}

/// Relies on `rand::Rng::gen_range` over a nonempty inclusive range: the
/// draw lies within the range.  Nothing else is assumed of the value.
#[verifier::external_body]
fn rand_in_range(rng: &mut rand::rngs::StdRng, lo: i64, hi: i64) -> (r: i64)
    requires
        lo <= hi,
    ensures
        lo <= r <= hi,
{
    rand::Rng::gen_range(rng, lo..=hi)
}

/// A geographic coordinate in signed microdegrees.
#[derive(Clone, Copy, PartialEq, Eq, Structural, Debug)]
pub struct GeoCoord {
    pub lng_micro: i64,
    pub lat_micro: i64,
}

/// The coordinate domain: longitude within [-180, 180] degrees and latitude
/// within [-90, 90] degrees.
pub open spec fn coord_in_domain(c: GeoCoord) -> bool {
    -180_000000 <= c.lng_micro <= 180_000000 && -90_000000 <= c.lat_micro <= 90_000000
}

/// A source of geographic coordinates for seeding a universe.
pub trait GeoSampler {
    /// Draws one coordinate; every draw lies in the coordinate domain.
    fn sample_coord(rng: &mut rand::rngs::StdRng) -> (c: GeoCoord)
        ensures
            coord_in_domain(c),
    ;
}

/// Samples longitude and latitude independently and uniformly.
pub struct UniformSampler;

impl GeoSampler for UniformSampler {
    fn sample_coord(rng: &mut rand::rngs::StdRng) -> (c: GeoCoord) {
        let lng = rand_in_range(rng, -180_000000, 180_000000);
        let lat = rand_in_range(rng, -90_000000, 90_000000);
        GeoCoord { lng_micro: lng, lat_micro: lat }
    }
}

} // verus!
