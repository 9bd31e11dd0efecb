//! The feature serializer: builds the GeoJSON feature-collection document
//! as text, with an exact character-level specification.
//!
//! Every feature is a polygon with one outer ring and no properties; the
//! collection carries no bounding box.  Coordinates are written as plain
//! decimal degrees with six fraction digits.

use vstd::prelude::*;
use crate::numtext::format_micro;
use crate::numtext::spec_micro_text;

verus! {

/// The text of one `[longitude, latitude]` position.
pub open spec fn point_text(p: (i64, i64)) -> Seq<char> {
    seq!['['] + spec_micro_text(p.0 as int) + seq![','] + spec_micro_text(p.1 as int) + seq![']']
}

/// The positions of one ring, comma separated.
pub open spec fn points_join(ps: Seq<(i64, i64)>) -> Seq<char>
    decreases ps.len(),
{
    if ps.len() == 0 {
        Seq::empty()
    } else if ps.len() == 1 {
        point_text(ps[0])
    } else {
        points_join(ps.drop_last()) + seq![','] + point_text(ps.last())
    }
}

/// The text of one polygon feature whose geometry has the given outer ring
/// and no holes, and whose properties are empty.
pub open spec fn feature_text(ring: Seq<(i64, i64)>) -> Seq<char> {
    ("{\"type\":\"Feature\",\"geometry\":{\"type\":\"Polygon\",\"coordinates\":[[")@
        + points_join(ring) + ("]]},\"properties\":null}")@
}

/// The features of the collection, comma separated.
pub open spec fn features_join(rings: Seq<Seq<(i64, i64)>>) -> Seq<char>
    decreases rings.len(),
{
    if rings.len() == 0 {
        Seq::empty()
    } else if rings.len() == 1 {
        feature_text(rings[0])
    } else {
        features_join(rings.drop_last()) + seq![','] + feature_text(rings.last())
    }
}

/// The whole feature-collection document.
pub open spec fn collection_text(rings: Seq<Seq<(i64, i64)>>) -> Seq<char> {
    ("{\"type\":\"FeatureCollection\",\"features\":[")@ + features_join(rings) + ("]}")@
}

/// A coordinate value the decimal writer accepts; projected longitudes can
/// exceed the raw domain by a full turn, so the bound is generous.
pub open spec fn writable(v: i64) -> bool {
    -9999_999999 <= v <= 9999_999999
}

/// Appends the text of one position.
fn append_point(s: &mut String, p: (i64, i64))
    requires
        writable(p.0),
        writable(p.1),
    ensures
        final(s)@ == old(s)@ + point_text(p),
{
    proof {
        reveal_strlit("[");
        reveal_strlit(",");
        reveal_strlit("]");
    }
    s.append("[");
    let lng = format_micro(p.0);
    s.append(lng.as_str());
    s.append(",");
    let lat = format_micro(p.1);
    s.append(lat.as_str());
    s.append("]");
    assert(s@ =~= old(s)@ + point_text(p));
}

/// Appends the comma-separated positions of one ring.
fn append_ring_points(s: &mut String, ring: &Vec<(i64, i64)>)
    requires
        forall|i: int|
            0 <= i < ring@.len() ==> writable((#[trigger] ring@[i]).0) && writable(ring@[i].1),
    ensures
        final(s)@ == old(s)@ + points_join(ring@),
{
    let ghost base = old(s)@;
    let mut i: usize = 0;
    while i < ring.len()
        invariant
            i <= ring@.len(),
            base == old(s)@,
            forall|x: int|
                0 <= x < ring@.len() ==> writable((#[trigger] ring@[x]).0) && writable(
                    ring@[x].1,
                ),
            s@ == base + points_join(ring@.take(i as int)),
        decreases ring@.len() - i,
    {
        if i > 0 {
            proof {
                reveal_strlit(",");
            }
            s.append(",");
        }
        let p = ring[i];
        append_point(s, p);
        proof {
            assert(ring@.take(i + 1 as int).drop_last() =~= ring@.take(i as int));
            assert(ring@.take(i + 1 as int).last() == ring@[i as int]);
            if i == 0 {
                assert(ring@.take(1).len() == 1);
                assert(points_join(ring@.take(1)) == point_text(ring@[0]));
                assert(s@ =~= base + points_join(ring@.take(i + 1 as int)));
            } else {
                assert(s@ =~= base + points_join(ring@.take(i + 1 as int)));
            }
        }
        i = i + 1;
    }
    proof {
        assert(ring@.take(ring@.len() as int) =~= ring@);
    }
}

/// Appends the text of one polygon feature.
pub fn append_feature(s: &mut String, ring: &Vec<(i64, i64)>)
    requires
        forall|i: int|
            0 <= i < ring@.len() ==> writable((#[trigger] ring@[i]).0) && writable(ring@[i].1),
    ensures
        final(s)@ == old(s)@ + feature_text(ring@),
{
    proof {
        reveal_strlit("{\"type\":\"Feature\",\"geometry\":{\"type\":\"Polygon\",\"coordinates\":[[");
        reveal_strlit("]]},\"properties\":null}");
    }
    s.append("{\"type\":\"Feature\",\"geometry\":{\"type\":\"Polygon\",\"coordinates\":[[");
    append_ring_points(s, ring);
    s.append("]]},\"properties\":null}");
    assert(s@ =~= old(s)@ + feature_text(ring@));
}

} // verus!
