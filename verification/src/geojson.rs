//! Feature collections in the layout of GeoJSON: the lines of a route, the
//! rings of coastlines and rectangles, the points of water nodes.

use crate::coast::Coasts;
use crate::graph::Graph;
use crate::overlay::rect_fits;
use crate::raster::{lat_of_row, lemma_cell_of, lon_of_column, Coordinate, Node, Nodes};
use vstd::prelude::*;

verus! {

/// A collection of features, laid out as GeoJSON wants it.
pub struct GEOJson<T> {
    pub kind: &'static str,
    pub features: Vec<GEOJsonFeature<T>>,
}

/// One feature of a collection.
pub struct GEOJsonFeature<T> {
    pub kind: &'static str,
    pub geometry: GEOJsonGeometry<T>,
    pub properties: GEOJsonProperty,
}

/// The shape of a feature.
pub struct GEOJsonGeometry<T> {
    pub kind: &'static str,
    pub coordinates: T,
}

/// The properties of a feature: none.
pub struct GEOJsonProperty {}

/// The point sequences of the features.
pub open spec fn feature_lines(features: Seq<GEOJsonFeature<Vec<Coordinate>>>) -> Seq<
    Seq<Coordinate>,
> {
    features.map_values(|f: GEOJsonFeature<Vec<Coordinate>>| f.geometry.coordinates@)
}

/// Every feature is a line string.
pub open spec fn all_line_strings(features: Seq<GEOJsonFeature<Vec<Coordinate>>>) -> bool {
    forall|i: int|
        0 <= i < features.len() ==> (#[trigger] features[i]).kind@ == "Feature"@
            && features[i].geometry.kind@ == "LineString"@
}

/// `geo` is a feature collection of one line string for each of `lines`.
pub open spec fn is_line_collection(geo: GEOJson<Vec<Coordinate>>, lines: Seq<Seq<Coordinate>>) -> bool {
    &&& geo.kind@ == "FeatureCollection"@
    &&& all_line_strings(geo.features@)
    &&& feature_lines(geo.features@) == lines
}

/// The rings of the features: each feature holds one.
pub open spec fn feature_rings(features: Seq<GEOJsonFeature<Vec<Vec<Coordinate>>>>) -> Seq<
    Seq<Coordinate>,
> {
    features.map_values(|f: GEOJsonFeature<Vec<Vec<Coordinate>>>| f.geometry.coordinates@[0]@)
}

/// `geo` is a feature collection of one polygon of a single ring for each
/// of `rings`.
pub open spec fn is_polygon_collection(
    geo: GEOJson<Vec<Vec<Coordinate>>>,
    rings: Seq<Seq<Coordinate>>,
) -> bool {
    &&& geo.kind@ == "FeatureCollection"@
    &&& forall|i: int|
        0 <= i < geo.features@.len() ==> (#[trigger] geo.features@[i]).kind@ == "Feature"@
            && geo.features@[i].geometry.kind@ == "Polygon"@
            && geo.features@[i].geometry.coordinates@.len() == 1
    &&& feature_rings(geo.features@) == rings
}

/// `geo` is a feature collection of one point for each of `points`.
pub open spec fn is_point_collection(geo: GEOJson<Coordinate>, points: Seq<Coordinate>) -> bool {
    &&& geo.kind@ == "FeatureCollection"@
    &&& forall|i: int|
        0 <= i < geo.features@.len() ==> (#[trigger] geo.features@[i]).kind@ == "Feature"@
            && geo.features@[i].geometry.kind@ == "Point"@
    &&& geo.features@.map_values(|f: GEOJsonFeature<Coordinate>| f.geometry.coordinates) == points
}

/// The corners of a rectangle, clockwise from the north-west corner and
/// back to it.
pub open spec fn rect_ring(cols: int, rows: int, rect: (usize, usize, usize, usize)) -> Seq<
    Coordinate,
> {
    let west = lon_of_column(cols, rect.0 as int) as i32;
    let east = lon_of_column(cols, rect.2 as int) as i32;
    let north = lat_of_row(rows, rect.1 as int) as i32;
    let south = lat_of_row(rows, rect.3 as int) as i32;
    seq![
        Coordinate { lon: west, lat: north },
        Coordinate { lon: east, lat: north },
        Coordinate { lon: east, lat: south },
        Coordinate { lon: west, lat: south },
        Coordinate { lon: west, lat: north },
    ]
}

/// The places of the water nodes among the first `upto` nodes.
pub open spec fn water_points(nodes: Seq<Node>, upto: int) -> Seq<Coordinate>
    decreases upto,
{
    if upto <= 0 {
        Seq::empty()
    } else if nodes[upto - 1].is_water {
        water_points(nodes, upto - 1).push(nodes[upto - 1].coordinate)
    } else {
        water_points(nodes, upto - 1)
    }
}

/// One polygon feature of a single ring.
fn polygon(ring: Vec<Coordinate>) -> (feature: GEOJsonFeature<Vec<Vec<Coordinate>>>)
    ensures
        feature.kind@ == "Feature"@,
        feature.geometry.kind@ == "Polygon"@,
        feature.geometry.coordinates@.len() == 1,
        feature.geometry.coordinates@[0]@ == ring@,
{
    let mut rings: Vec<Vec<Coordinate>> = Vec::new();
    rings.push(ring);
    GEOJsonFeature {
        kind: "Feature",
        geometry: GEOJsonGeometry { kind: "Polygon", coordinates: rings },
        properties: GEOJsonProperty {  },
    }
}

impl Graph {
    /// The outlines of the rectangles as polygons.
    pub fn create_geojson(&self, rects: &Vec<(usize, usize, usize, usize)>) -> (geo: GEOJson<
        Vec<Vec<Coordinate>>,
    >)
        requires
            self.has_raster(),
            self.raster_rows_count * self.raster_columns_count <= usize::MAX,
            forall|k: int|
                0 <= k < rects@.len() ==> rect_fits(
                    #[trigger] rects@[k],
                    self.raster_columns_count as int,
                    self.raster_rows_count as int,
                ),
        ensures
            is_polygon_collection(
                geo,
                rects@.map_values(
                    |r: (usize, usize, usize, usize)|
                        rect_ring(
                            self.raster_columns_count as int,
                            self.raster_rows_count as int,
                            r,
                        ),
                ),
            ),
    {
        let ghost cols = self.raster_columns_count as int;
        let ghost rows = self.raster_rows_count as int;
        let ghost wanted = rects@.map_values(|r: (usize, usize, usize, usize)| rect_ring(cols, rows, r));
        let mut features: Vec<GEOJsonFeature<Vec<Vec<Coordinate>>>> = Vec::new();
        let mut k: usize = 0;
        while k < rects.len()
            invariant
                self.has_raster(),
                self.raster_rows_count * self.raster_columns_count <= usize::MAX,
                cols == self.raster_columns_count,
                rows == self.raster_rows_count,
                wanted == rects@.map_values(
                    |r: (usize, usize, usize, usize)| rect_ring(cols, rows, r),
                ),
                forall|m: int| 0 <= m < rects@.len() ==> rect_fits(#[trigger] rects@[m], cols, rows),
                k <= rects@.len(),
                forall|i: int|
                    0 <= i < features@.len() ==> (#[trigger] features@[i]).kind@ == "Feature"@
                        && features@[i].geometry.kind@ == "Polygon"@
                        && features@[i].geometry.coordinates@.len() == 1,
                feature_rings(features@) == wanted.take(k as int),
            decreases rects@.len() - k,
        {
            let rect = rects[k];
            proof {
                assert(rect_fits(rect, cols, rows));
                lemma_cell_of(rows, cols, 0, rect.1 as int);
                lemma_cell_of(rows, cols, 0, rect.3 as int);
                lemma_cell_of(rows, cols, rect.0 as int, 0);
                lemma_cell_of(rows, cols, rect.2 as int, 0);
            }
            let west: i32 = self.get_lon(rect.0);
            let east: i32 = self.get_lon(rect.2);
            let north: i32 = self.get_lat(self.get_index(0, rect.1));
            let south: i32 = self.get_lat(self.get_index(0, rect.3));
            let mut ring: Vec<Coordinate> = Vec::new();
            ring.push(Coordinate { lon: west, lat: north });
            ring.push(Coordinate { lon: east, lat: north });
            ring.push(Coordinate { lon: east, lat: south });
            ring.push(Coordinate { lon: west, lat: south });
            ring.push(Coordinate { lon: west, lat: north });
            let ghost earlier = features@;
            proof {
                assert(ring@ =~= rect_ring(cols, rows, rect));
            }
            features.push(polygon(ring));
            proof {
                assert(feature_rings(features@) =~= feature_rings(earlier).push(
                    rect_ring(cols, rows, rect),
                ));
                assert(wanted.take(k + 1) =~= wanted.take(k as int).push(wanted[k as int]));
            }
            k += 1;
        }
        proof {
            assert(wanted.take(rects@.len() as int) =~= wanted);
        }
        GEOJson { kind: "FeatureCollection", features }
    }
}

impl Coasts {
    /// The coastlines as polygons, each ring walked backwards.
    pub fn to_geojson(&self) -> (geo: GEOJson<Vec<Vec<Coordinate>>>)
        ensures
            is_polygon_collection(
                geo,
                self.actual_coasts@.map_values(|c: crate::coast::Coast| c.coordinates@.reverse()),
            ),
    {
        let ghost wanted = self.actual_coasts@.map_values(
            |c: crate::coast::Coast| c.coordinates@.reverse(),
        );
        let mut features: Vec<GEOJsonFeature<Vec<Vec<Coordinate>>>> = Vec::new();
        let mut k: usize = 0;
        while k < self.actual_coasts.len()
            invariant
                wanted == self.actual_coasts@.map_values(
                    |c: crate::coast::Coast| c.coordinates@.reverse(),
                ),
                k <= self.actual_coasts@.len(),
                forall|i: int|
                    0 <= i < features@.len() ==> (#[trigger] features@[i]).kind@ == "Feature"@
                        && features@[i].geometry.kind@ == "Polygon"@
                        && features@[i].geometry.coordinates@.len() == 1,
                feature_rings(features@) == wanted.take(k as int),
            decreases self.actual_coasts@.len() - k,
        {
            let coast = &self.actual_coasts[k];
            let count: usize = coast.coordinates.len();
            let mut ring: Vec<Coordinate> = Vec::new();
            let mut i: usize = 0;
            while i < count
                invariant
                    count == coast.coordinates@.len(),
                    i <= count,
                    ring@.len() == i,
                    forall|m: int|
                        0 <= m < i ==> #[trigger] ring@[m] == coast.coordinates@[count - 1 - m],
                decreases count - i,
            {
                ring.push(coast.coordinates[count - 1 - i]);
                i += 1;
            }
            let ghost earlier = features@;
            proof {
                assert(ring@ =~= coast.coordinates@.reverse());
            }
            features.push(polygon(ring));
            proof {
                assert(feature_rings(features@) =~= feature_rings(earlier).push(
                    coast.coordinates@.reverse(),
                ));
                assert(wanted.take(k + 1) =~= wanted.take(k as int).push(wanted[k as int]));
            }
            k += 1;
        }
        proof {
            assert(wanted.take(self.actual_coasts@.len() as int) =~= wanted);
        }
        GEOJson { kind: "FeatureCollection", features }
    }
}

impl Nodes {
    /// The water nodes as points.
    pub fn to_geojson(&self) -> (geo: GEOJson<Coordinate>)
        ensures
            is_point_collection(geo, water_points(self.nodes@, self.nodes@.len() as int)),
    {
        let mut features: Vec<GEOJsonFeature<Coordinate>> = Vec::new();
        let mut k: usize = 0;
        while k < self.nodes.len()
            invariant
                k <= self.nodes@.len(),
                forall|i: int|
                    0 <= i < features@.len() ==> (#[trigger] features@[i]).kind@ == "Feature"@
                        && features@[i].geometry.kind@ == "Point"@,
                features@.map_values(|f: GEOJsonFeature<Coordinate>| f.geometry.coordinates)
                    == water_points(self.nodes@, k as int),
            decreases self.nodes@.len() - k,
        {
            let node = self.nodes[k];
            if node.is_water {
                let ghost earlier = features@;
                features.push(
                    GEOJsonFeature {
                        kind: "Feature",
                        geometry: GEOJsonGeometry { kind: "Point", coordinates: node.coordinate },
                        properties: GEOJsonProperty {  },
                    },
                );
                proof {
                    assert(features@.map_values(
                        |f: GEOJsonFeature<Coordinate>| f.geometry.coordinates,
                    ) =~= earlier.map_values(
                        |f: GEOJsonFeature<Coordinate>| f.geometry.coordinates,
                    ).push(node.coordinate));
                }
            }
            k += 1;
        }
        GEOJson { kind: "FeatureCollection", features }
    }
}

} // verus!
