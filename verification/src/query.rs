//! Answering a query: snapping a point to the raster, running the chosen
//! search, and laying the route out as lines that never jump across the
//! antimeridian.

use crate::execution::ExecutionType;
use crate::geojson::{
    all_line_strings, feature_lines, is_line_collection, GEOJson, GEOJsonFeature, GEOJsonGeometry,
    GEOJsonProperty,
};
use crate::graph::Graph;
use crate::raster::{
    lat_step, lemma_cell_of, lon_step, Coordinate, FULL_TURN, HALF_TURN, QUARTER_TURN,
};
use crate::search::PathResult;
use crate::state::{AlgorithmState, UNREACHED};
use vstd::prelude::*;

verus! {

/// Two points lie more than 180 degrees of longitude apart.
pub open spec fn crosses_antimeridian(a: Coordinate, b: Coordinate) -> bool {
    a.lon - b.lon > HALF_TURN || b.lon - a.lon > HALF_TURN
}

/// The antimeridian on the side of `a`: 180 degrees west for a point of the
/// western half, 180 degrees east for any other.
pub open spec fn edge_lon(a: Coordinate) -> i32 {
    if a.lon < 0 {
        (-HALF_TURN) as i32
    } else {
        HALF_TURN
    }
}

/// Where a line that leaves from `a` across the antimeridian ends.
pub open spec fn exit_point(a: Coordinate) -> Coordinate {
    Coordinate { lon: edge_lon(a), lat: a.lat }
}

/// Where the line that arrives at `b`, having left from `a`, begins.
pub open spec fn entry_point(a: Coordinate, b: Coordinate) -> Coordinate {
    Coordinate { lon: (-edge_lon(a)) as i32, lat: b.lat }
}

/// The lines that `points[from..]` adds to the line in progress `line`:
/// where two consecutive points cross the antimeridian, the line in
/// progress ends with an extra point on the antimeridian, and a new line
/// begins with an extra point on the antimeridian's other side.
pub open spec fn split_from(points: Seq<Coordinate>, from: int, line: Seq<Coordinate>) -> Seq<
    Seq<Coordinate>,
>
    decreases points.len() - from,
{
    if from >= points.len() {
        seq![line]
    } else if from >= 1 && crosses_antimeridian(points[from - 1], points[from]) {
        seq![line.push(exit_point(points[from - 1]))] + split_from(
            points,
            from + 1,
            seq![entry_point(points[from - 1], points[from]), points[from]],
        )
    } else {
        split_from(points, from + 1, line.push(points[from]))
    }
}

/// The lines of the polyline `points`, cut wherever it crosses the
/// antimeridian.
pub open spec fn split_lines(points: Seq<Coordinate>) -> Seq<Seq<Coordinate>> {
    split_from(points, 0, Seq::empty())
}

/// No two consecutive points of `line` cross the antimeridian.
pub open spec fn stays_on_one_side(line: Seq<Coordinate>) -> bool {
    forall|i: int|
        0 <= i < line.len() - 1 ==> !crosses_antimeridian(#[trigger] line[i], line[i + 1])
}

/// Every longitude lies between 180 degrees west and 180 degrees east.
pub open spec fn on_the_globe(points: Seq<Coordinate>) -> bool {
    forall|i: int| 0 <= i < points.len() ==> -HALF_TURN <= (#[trigger] points[i]).lon <= HALF_TURN
}

/// How many pairs of consecutive points before position `upto` cross the
/// antimeridian.
pub open spec fn crossings_before(points: Seq<Coordinate>, upto: int) -> int
    decreases upto,
{
    if upto <= 1 {
        0
    } else {
        crossings_before(points, upto - 1) + if crosses_antimeridian(
            points[upto - 2],
            points[upto - 1],
        ) {
            1int
        } else {
            0int
        }
    }
}

/// A polyline on the globe is cut into lines none of which crosses the
/// antimeridian, one more than it has crossings.
pub proof fn lemma_split_lines(points: Seq<Coordinate>)
    requires
        on_the_globe(points),
    ensures
        forall|k: int|
            0 <= k < split_lines(points).len() ==> stays_on_one_side(
                #[trigger] split_lines(points)[k],
            ),
        split_lines(points).len() == 1 + crossings_before(points, points.len() as int),
{
    lemma_split_from(points, 0, Seq::empty());
    lemma_crossings_split(points, 0, points.len() as int);
}

/// How many pairs of consecutive points from position `from` on cross the
/// antimeridian.
pub open spec fn crossings_from(points: Seq<Coordinate>, from: int) -> int
    decreases points.len() - from,
{
    if from >= points.len() {
        0
    } else {
        crossings_from(points, from + 1) + if from >= 1 && crosses_antimeridian(
            points[from - 1],
            points[from],
        ) {
            1int
        } else {
            0int
        }
    }
}

proof fn lemma_crossings_split(points: Seq<Coordinate>, from: int, upto: int)
    requires
        0 <= from <= upto <= points.len(),
    ensures
        crossings_before(points, upto) + crossings_from(points, upto) == crossings_before(
            points,
            from,
        ) + crossings_from(points, from),
    decreases upto - from,
{
    if from < upto {
        lemma_crossings_split(points, from + 1, upto);
        if from >= 1 {
            assert(crossings_before(points, from + 1) == crossings_before(points, from) + if crosses_antimeridian(
                points[from - 1],
                points[from],
            ) {
                1int
            } else {
                0int
            });
        }
    }
}

proof fn lemma_split_from(points: Seq<Coordinate>, from: int, line: Seq<Coordinate>)
    requires
        on_the_globe(points),
        0 <= from <= points.len(),
        stays_on_one_side(line),
        from >= 1 ==> line.len() >= 1 && line.last() == points[from - 1],
        from == 0 ==> line.len() == 0,
    ensures
        forall|k: int|
            0 <= k < split_from(points, from, line).len() ==> stays_on_one_side(
                #[trigger] split_from(points, from, line)[k],
            ),
        split_from(points, from, line).len() == 1 + crossings_from(points, from),
    decreases points.len() - from,
{
    if from >= points.len() {
    } else if from >= 1 && crosses_antimeridian(points[from - 1], points[from]) {
        let a = points[from - 1];
        let b = points[from];
        let closed = line.push(exit_point(a));
        let fresh = seq![entry_point(a, b), b];
        assert(stays_on_one_side(closed)) by {
            assert forall|i: int| 0 <= i < closed.len() - 1 implies !crosses_antimeridian(
                #[trigger] closed[i],
                closed[i + 1],
            ) by {
                if i < line.len() - 1 {
                    assert(!crosses_antimeridian(line[i], line[i + 1]));
                }
            }
        }
        assert(stays_on_one_side(fresh));
        lemma_split_from(points, from + 1, fresh);
        let rest = split_from(points, from + 1, fresh);
        let all = seq![closed] + rest;
        assert forall|k: int| 0 <= k < all.len() implies stays_on_one_side(#[trigger] all[k]) by {
            if k > 0 {
                assert(all[k] == rest[k - 1]);
            }
        }
    } else {
        let longer = line.push(points[from]);
        assert(stays_on_one_side(longer)) by {
            assert forall|i: int| 0 <= i < longer.len() - 1 implies !crosses_antimeridian(
                #[trigger] longer[i],
                longer[i + 1],
            ) by {
                if i < line.len() - 1 {
                    assert(!crosses_antimeridian(line[i], line[i + 1]));
                }
            }
        }
        lemma_split_from(points, from + 1, longer);
    }
}

/// Whether two points lie more than 180 degrees of longitude apart.
pub fn is_across(a: Coordinate, b: Coordinate) -> (r: bool)
    ensures
        r == crosses_antimeridian(a, b),
{
    let gap: i64 = a.lon as i64 - b.lon as i64;
    gap > HALF_TURN as i64 || -gap > HALF_TURN as i64
}

/// Cuts the polyline `points` wherever two consecutive points lie more than
/// 180 degrees of longitude apart, and returns one line string per piece.
pub fn split_at_antimeridian(points: &Vec<Coordinate>) -> (geo: GEOJson<Vec<Coordinate>>)
    ensures
        is_line_collection(geo, split_lines(points@)),
{
    let mut features: Vec<GEOJsonFeature<Vec<Coordinate>>> = Vec::new();
    let mut line: Vec<Coordinate> = Vec::new();
    let mut i: usize = 0;
    proof {
        assert(feature_lines(features@) =~= Seq::<Seq<Coordinate>>::empty());
        assert(feature_lines(features@) + split_from(points@, 0, line@) =~= split_lines(points@));
    }
    while i < points.len()
        invariant
            i <= points@.len(),
            all_line_strings(features@),
            feature_lines(features@) + split_from(points@, i as int, line@) == split_lines(
                points@,
            ),
        decreases points@.len() - i,
    {
        let here = points[i];
        if i >= 1 && is_across(points[i - 1], here) {
            let before = points[i - 1];
            let side: i32 = if before.lon < 0 {
                -HALF_TURN
            } else {
                HALF_TURN
            };
            line.push(Coordinate { lon: side, lat: before.lat });
            let ghost closed = line@;
            let ghost earlier = features@;
            features.push(
                GEOJsonFeature {
                    kind: "Feature",
                    geometry: GEOJsonGeometry { kind: "LineString", coordinates: line },
                    properties: GEOJsonProperty {  },
                },
            );
            line = Vec::new();
            line.push(Coordinate { lon: -side, lat: here.lat });
            line.push(here);
            proof {
                assert(line@ =~= seq![entry_point(before, here), here]);
                assert(feature_lines(features@) =~= feature_lines(earlier) + seq![closed]);
                assert(feature_lines(features@) + split_from(points@, i + 1, line@)
                    =~= feature_lines(earlier) + (seq![closed] + split_from(
                    points@,
                    i + 1,
                    line@,
                )));
            }
        } else {
            line.push(here);
        }
        i += 1;
    }
    let ghost earlier = features@;
    let ghost last = line@;
    features.push(
        GEOJsonFeature {
            kind: "Feature",
            geometry: GEOJsonGeometry { kind: "LineString", coordinates: line },
            properties: GEOJsonProperty {  },
        },
    );
    proof {
        assert(feature_lines(features@) =~= feature_lines(earlier) + seq![last]);
    }
    GEOJson { kind: "FeatureCollection", features }
}

/// A cell number as a mathematical integer.
pub open spec fn cell_view(cell: Option<usize>) -> Option<int> {
    match cell {
        Some(c) => Some(c as int),
        None => None,
    }
}

impl Graph {
    /// The column at or west of `point`.
    pub open spec fn snap_column(&self, point: Coordinate) -> int {
        let shifted = point.lon + 1_800_000_000;
        (if shifted < 0 {
            0
        } else {
            shifted
        }) / lon_step(self.raster_columns_count as int)
    }

    /// The row at or north of `point`.
    pub open spec fn snap_row(&self, point: Coordinate) -> int {
        let shifted = 900_000_000 - point.lat;
        (if shifted < 0 {
            0
        } else {
            shifted
        }) / lat_step(self.raster_rows_count as int)
    }

    /// The cell in column `col` of row `row`, if the raster has it.
    pub open spec fn cell_at(&self, row: int, col: int) -> Option<int> {
        if 0 <= row < self.raster_rows_count && 0 <= col < self.raster_columns_count {
            Some(row * self.raster_columns_count + col)
        } else {
            None
        }
    }

    /// The four cells that bracket `point`: north-west, north-east,
    /// south-west, south-east. The column east of the last is the first, and
    /// so is the row south of the last.
    pub open spec fn snap_cells(&self, point: Coordinate) -> Seq<Option<int>> {
        let left = self.snap_column(point);
        let right = (left + 1) % (self.raster_columns_count as int);
        let top = self.snap_row(point);
        let bottom = (top + 1) % (self.raster_rows_count as int);
        seq![
            self.cell_at(top, left),
            self.cell_at(top, right),
            self.cell_at(bottom, left),
            self.cell_at(bottom, right),
        ]
    }

    /// Cell `j` of `cells` is a water node at a distance below the
    /// "unreached" value.
    pub open spec fn snap_ok(&self, cells: Seq<Option<int>>, distances: Seq<u32>, j: int) -> bool {
        cells[j] matches Some(c) && self.is_water_node(c) && distances[j] < UNREACHED
    }

    /// Among the first `upto` cells, the position of the closest water node;
    /// of several equally close, the first.
    pub open spec fn best_slot(&self, cells: Seq<Option<int>>, distances: Seq<u32>, upto: int) -> Option<
        int,
    >
        decreases upto,
    {
        if upto <= 0 {
            None
        } else {
            let earlier = self.best_slot(cells, distances, upto - 1);
            if self.snap_ok(cells, distances, upto - 1) && (earlier matches Some(p)
                ==> distances[upto - 1] < distances[p]) {
                Some(upto - 1)
            } else {
                earlier
            }
        }
    }

    /// Which of the four cells that bracket `point` is the closest water
    /// node, given the distance of each from `point`.
    pub open spec fn nearest_slot(&self, point: Coordinate, distances: Seq<u32>) -> Option<int> {
        self.best_slot(self.snap_cells(point), distances, 4)
    }

    /// The closest water node among the four cells that bracket `point`.
    pub open spec fn nearest_node(&self, point: Coordinate, distances: Seq<u32>) -> Option<int> {
        match self.nearest_slot(point, distances) {
            Some(j) => self.snap_cells(point)[j],
            None => None,
        }
    }

    /// The best slot is a water node, and no water node among the cells is
    /// closer; where there is no best slot, none of the cells is a water
    /// node at a distance below the "unreached" value.
    pub proof fn lemma_best_slot(&self, cells: Seq<Option<int>>, distances: Seq<u32>, upto: int)
        requires
            0 <= upto,
        ensures
            match self.best_slot(cells, distances, upto) {
                Some(j) => {
                    &&& 0 <= j < upto
                    &&& self.snap_ok(cells, distances, j)
                    &&& forall|i: int|
                        0 <= i < upto && #[trigger] self.snap_ok(cells, distances, i)
                            ==> distances[j] <= distances[i]
                    &&& forall|i: int|
                        0 <= i < j && #[trigger] self.snap_ok(cells, distances, i) ==> distances[j]
                            < distances[i]
                },
                None => forall|i: int| 0 <= i < upto ==> !#[trigger] self.snap_ok(cells, distances, i),
            },
        decreases upto,
    {
        if upto > 0 {
            self.lemma_best_slot(cells, distances, upto - 1);
        }
    }

    /// The cell in column `col` of row `row`, if the raster has it.
    fn cell_number(&self, row: u64, col: u64) -> (cell: Option<usize>)
        requires
            self.raster_rows_count * self.raster_columns_count <= usize::MAX,
        ensures
            cell_view(cell) == self.cell_at(row as int, col as int),
    {
        if row < self.raster_rows_count as u64 && col < self.raster_columns_count as u64 {
            proof {
                lemma_cell_of(
                    self.raster_rows_count as int,
                    self.raster_columns_count as int,
                    col as int,
                    row as int,
                );
                assert(0 <= row * self.raster_columns_count) by (nonlinear_arith);
            }
            Some(row as usize * self.raster_columns_count + col as usize)
        } else {
            None
        }
    }

    /// The four cells that bracket `point`, in the order north-west,
    /// north-east, south-west, south-east; `None` for one that the raster
    /// does not have.
    pub fn snap_candidates(&self, point: Coordinate) -> (cells: Vec<Option<usize>>)
        requires
            self.has_raster(),
            self.raster_rows_count * self.raster_columns_count <= usize::MAX,
        ensures
            cells@.len() == 4,
            cells@.map_values(|c: Option<usize>| cell_view(c)) == self.snap_cells(point),
    {
        let step_lon: u64 = FULL_TURN / (self.raster_columns_count as u64);
        let step_lat: u64 = 1_800_000_000 / (self.raster_rows_count as u64);
        proof {
            lemma_step_positive(3_600_000_000, self.raster_columns_count as int);
            lemma_step_positive(1_800_000_000, self.raster_rows_count as int);
        }
        let east: i64 = point.lon as i64 + HALF_TURN as i64;
        let south: i64 = QUARTER_TURN as i64 - point.lat as i64;
        let left: u64 = (if east < 0 {
            0
        } else {
            east as u64
        }) / step_lon;
        let top: u64 = (if south < 0 {
            0
        } else {
            south as u64
        }) / step_lat;
        let right: u64 = (left + 1) % (self.raster_columns_count as u64);
        let bottom: u64 = (top + 1) % (self.raster_rows_count as u64);
        let mut cells: Vec<Option<usize>> = Vec::new();
        cells.push(self.cell_number(top, left));
        cells.push(self.cell_number(top, right));
        cells.push(self.cell_number(bottom, left));
        cells.push(self.cell_number(bottom, right));
        proof {
            assert(cells@.map_values(|c: Option<usize>| cell_view(c)) =~= self.snap_cells(point));
        }
        cells
    }

    /// Which of the four cells that bracket `point` is the closest water
    /// node. `distances[j]` is the distance in metres from `point` to cell
    /// `j` of `snap_candidates`. `None` where none of the cells is a water
    /// node.
    pub fn find_nearest_slot(&self, point: Coordinate, distances: &Vec<u32>) -> (slot: Option<usize>)
        requires
            self.wf(),
            self.has_raster(),
            distances@.len() == 4,
        ensures
            cell_view(slot) == self.nearest_slot(point, distances@),
            slot matches Some(j) ==> j < 4,
            slot matches Some(j) ==> (self.snap_cells(point)[j as int] matches Some(c) && c
                < self.node_count()),
    {
        let cells = self.snap_candidates(point);
        let ghost wanted = self.snap_cells(point);
        let mut best: Option<usize> = None;
        let mut min_distance: u32 = UNREACHED;
        let mut j: usize = 0;
        while j < 4
            invariant
                self.wf(),
                j <= 4,
                distances@.len() == 4,
                wanted == self.snap_cells(point),
                cells@.len() == 4,
                cells@.map_values(|c: Option<usize>| cell_view(c)) == wanted,
                cell_view(best) == self.best_slot(wanted, distances@, j as int),
                best matches Some(p) ==> p < j && min_distance == distances@[p as int],
                best matches Some(p) ==> (wanted[p as int] matches Some(c) && c
                    < self.node_count()),
                best is None ==> min_distance == UNREACHED,
            decreases 4 - j,
        {
            assert(cell_view(cells@[j as int]) == wanted[j as int]) by {
                assert(cells@.map_values(|c: Option<usize>| cell_view(c))[j as int] == cell_view(
                    cells@[j as int],
                ));
            }
            let distance: u32 = distances[j];
            let water: bool = match cells[j] {
                Some(c) => c < self.offsets.len() - 1 && self.is_water(c),
                None => false,
            };
            if water && distance < min_distance {
                best = Some(j);
                min_distance = distance;
            }
            j += 1;
        }
        best
    }

    /// The closest water node among the four cells that bracket `point`, or
    /// `None` where none of them is water. `distances[j]` is the distance in
    /// metres from `point` to cell `j` of `snap_candidates`.
    pub fn find_nearest_node(&self, point: Coordinate, distances: &Vec<u32>) -> (node: Option<usize>)
        requires
            self.wf(),
            self.has_raster(),
            distances@.len() == 4,
        ensures
            cell_view(node) == self.nearest_node(point, distances@),
            node matches Some(c) ==> self.is_water_node(c as int),
            (forall|j: int| 0 <= j < 4 ==> !#[trigger] self.snap_ok(
                self.snap_cells(point),
                distances@,
                j,
            )) ==> node is None,
    {
        proof {
            self.lemma_best_slot(self.snap_cells(point), distances@, 4);
        }
        match self.find_nearest_slot(point, distances) {
            Some(j) => {
                let cells = self.snap_candidates(point);
                assert(cell_view(cells@[j as int]) == self.snap_cells(point)[j as int]) by {
                    assert(cells@.map_values(|c: Option<usize>| cell_view(c))[j as int]
                        == cell_view(cells@[j as int]));
                }
                cells[j]
            },
            None => None,
        }
    }

    /// Where node `v` lies.
    pub open spec fn coordinate_of(&self, v: int) -> Coordinate {
        Coordinate { lon: self.lon_of(v) as i32, lat: self.lat_of(v) as i32 }
    }

    /// The polyline of a route: the point asked for last, then the nodes of
    /// `path`, then the point asked for first.
    pub open spec fn route_points(&self, start: Coordinate, end: Coordinate, path: Seq<usize>) -> Seq<
        Coordinate,
    > {
        seq![end] + path.map_values(|v: usize| self.coordinate_of(v as int)) + seq![start]
    }

    /// The nodes that the variant may enter on its way from `a` to `b`.
    pub open spec fn open_for(&self, variant: ExecutionType, a: int, b: int) -> Seq<bool> {
        if variant is ShortcutAStar {
            self.open_around(a, b)
        } else {
            self.all_open()
        }
    }

    /// The variant is sure to find a route from `a` to `b` where one exists.
    /// The search from both ends is so on an undirected graph.
    pub open spec fn finds_routes(&self, variant: ExecutionType, a: int, b: int) -> bool {
        variant is BiDijkstra ==> self.is_undirected()
    }

    /// The variant is sure to find a shortest route where one exists.
    pub open spec fn finds_shortest(
        &self,
        variant: ExecutionType,
        heuristic: Seq<u32>,
        a: int,
        b: int,
    ) -> bool {
        match variant {
            ExecutionType::Dijkstra => true,
            ExecutionType::BiDijkstra => self.is_undirected(),
            _ => self.consistent(self.open_for(variant, a, b), heuristic, b),
        }
    }

    /// `result` is the whole result of the variant's search from `a` to
    /// `b`: its route, its distance and its number of pops.
    pub open spec fn variant_result_is(
        &self,
        variant: ExecutionType,
        heuristic: Seq<u32>,
        a: int,
        b: int,
        result: PathResult,
    ) -> bool {
        match variant {
            ExecutionType::Dijkstra => self.search_result_is(
                self.all_open(),
                crate::rounds::no_estimates(self.node_count()),
                a,
                b,
                result,
            ),
            ExecutionType::BiDijkstra => self.both_result_is(a, b, result),
            ExecutionType::AStar => self.search_result_is(self.all_open(), heuristic, a, b, result),
            ExecutionType::ShortcutAStar => self.search_result_is(
                self.open_around(a, b),
                heuristic,
                a,
                b,
                result,
            ),
        }
    }

    /// What the search of a variant guarantees.
    pub open spec fn variant_result_ok(
        &self,
        variant: ExecutionType,
        heuristic: Seq<u32>,
        a: int,
        b: int,
        result: PathResult,
    ) -> bool {
        let open = self.open_for(variant, a, b);
        &&& result.path.is_some() == result.distance.is_some()
        &&& self.path_in_graph(result)
        &&& self.variant_result_is(variant, heuristic, a, b, result)
        &&& (result.distance matches Some(d) ==> d < u32::MAX)
        &&& (self.finds_routes(variant, a, b) ==> self.search_result_ok(open, a, b, result))
        &&& (self.finds_shortest(variant, heuristic, a, b) ==> self.search_result_exact(
            open,
            a,
            b,
            result,
        ))
    }

    /// Runs the search that `execution_type` names from `start` to `end`.
    pub fn search(
        &self,
        execution_type: &ExecutionType,
        start: usize,
        end: usize,
        heuristic: &Vec<u32>,
        state: &mut AlgorithmState,
    ) -> (result: PathResult)
        requires
            self.wf(),
            start < self.node_count(),
            end < self.node_count(),
            execution_type.needs_estimate() ==> heuristic@.len() == self.node_count(),
            old(state).sized_for(self.node_count()),
        ensures
            final(state).sized_for(self.node_count()),
            self.variant_result_ok(*execution_type, heuristic@, start as int, end as int, result),
    {
        match execution_type {
            ExecutionType::Dijkstra => self.dijkstra(start, end, state),
            ExecutionType::BiDijkstra => self.bi_dijkstra(start, end, state),
            ExecutionType::AStar => self.a_star(start, end, heuristic, state),
            ExecutionType::ShortcutAStar => self.shortcut_a_star(start, end, heuristic, state),
        }
    }

    /// `geo` and `total` lay out the route `path` of length `d` between the
    /// nodes `a` and `b`: the lines are those of the route's polyline, and
    /// the total adds the two legs between the points asked for and their
    /// nodes.
    pub open spec fn is_answer(
        &self,
        variant: ExecutionType,
        heuristic: Seq<u32>,
        a: int,
        b: int,
        start: Coordinate,
        end: Coordinate,
        leg_a: u32,
        leg_b: u32,
        path: Seq<usize>,
        d: int,
        geo: GEOJson<Vec<Coordinate>>,
        total: u64,
    ) -> bool {
        let open = self.open_for(variant, a, b);
        &&& is_line_collection(geo, split_lines(self.route_points(start, end, path)))
        &&& 0 <= d < UNREACHED
        &&& total == d + leg_a + leg_b
        &&& (self.finds_routes(variant, a, b) ==> self.is_route_within(open, path, a, b, d))
        &&& (self.finds_shortest(variant, heuristic, a, b) ==> self.shortest_distance(open, a, b)
            == Some(d) && self.is_route(open, path, a, b, d))
    }

    /// `out` lays out `result`: it is nothing where `result` holds no route,
    /// else the lines of the route's polyline and the route's length plus
    /// the two legs.
    pub open spec fn lays_out(
        &self,
        result: PathResult,
        start: Coordinate,
        end: Coordinate,
        leg_a: u32,
        leg_b: u32,
        out: Option<(GEOJson<Vec<Coordinate>>, u64)>,
    ) -> bool {
        match (result.path, result.distance) {
            (Some(p), Some(d)) => out matches Some(answer) && answer.1 == d + leg_a + leg_b
                && is_line_collection(answer.0, split_lines(self.route_points(start, end, p@))),
            _ => out is None,
        }
    }

    /// What a query between two distinct nodes `a` and `b` is answered with:
    /// the layout of what the variant's search returns, which is nothing
    /// where no route exists.
    pub open spec fn answers_query(
        &self,
        variant: ExecutionType,
        heuristic: Seq<u32>,
        a: int,
        b: int,
        start: Coordinate,
        end: Coordinate,
        leg_a: u32,
        leg_b: u32,
        out: Option<(GEOJson<Vec<Coordinate>>, u64)>,
    ) -> bool {
        &&& (self.finds_routes(variant, a, b) ==> out.is_some() == self.shortest_distance(
            self.open_for(variant, a, b),
            a,
            b,
        ).is_some())
        &&& exists|result: PathResult| #[trigger]
            self.variant_result_is(variant, heuristic, a, b, result) && self.lays_out(
                result,
                start,
                end,
                leg_a,
                leg_b,
                out,
            )
        &&& (out matches Some(answer) ==> exists|path: Seq<usize>, d: int| #[trigger]
            self.is_answer(
                variant,
                heuristic,
                a,
                b,
                start,
                end,
                leg_a,
                leg_b,
                path,
                d,
                answer.0,
                answer.1,
            ))
    }

    /// Answers a query from `start` to `end`. Both points are snapped to the
    /// closest water node among the four cells that bracket them;
    /// `start_legs` and `end_legs` give the distance in metres from each
    /// point to its four cells, `direct` the distance between the two
    /// points, and `heuristic` the estimate for the A* variants.
    ///
    /// Where a point has no water node to snap to, or no route exists, the
    /// answer is `None`. Where both points snap to the same node, no search
    /// runs and the answer is the line between the two points and `direct`.
    /// Else the answer is the route of the chosen variant, from `end` back
    /// to `start`, cut at the antimeridian, and its length plus the two
    /// legs.
    pub fn find_path(
        &self,
        start: Coordinate,
        end: Coordinate,
        start_legs: &Vec<u32>,
        end_legs: &Vec<u32>,
        direct: u32,
        execution_type: &ExecutionType,
        heuristic: &Vec<u32>,
        state: &mut AlgorithmState,
    ) -> (out: Option<(GEOJson<Vec<Coordinate>>, u64)>)
        requires
            self.wf(),
            self.has_raster(),
            start_legs@.len() == 4,
            end_legs@.len() == 4,
            execution_type.needs_estimate() ==> heuristic@.len() == self.node_count(),
            old(state).sized_for(self.node_count()),
        ensures
            final(state).sized_for(self.node_count()),
            match (self.nearest_slot(start, start_legs@), self.nearest_slot(end, end_legs@)) {
                (Some(i), Some(j)) => {
                    let a = self.snap_cells(start)[i].unwrap();
                    let b = self.snap_cells(end)[j].unwrap();
                    if a == b {
                        &&& out matches Some(answer) && answer.1 == direct && is_line_collection(
                            answer.0,
                            split_lines(seq![end, start]),
                        )
                        &&& *final(state) == *old(state)
                    } else {
                        self.answers_query(
                            *execution_type,
                            heuristic@,
                            a,
                            b,
                            start,
                            end,
                            start_legs@[i],
                            end_legs@[j],
                            out,
                        )
                    }
                },
                _ => out is None && *final(state) == *old(state),
            },
    {
        let start_cells = self.snap_candidates(start);
        let end_cells = self.snap_candidates(end);
        let start_slot = self.find_nearest_slot(start, start_legs);
        let end_slot = self.find_nearest_slot(end, end_legs);
        let (i, j) = match (start_slot, end_slot) {
            (Some(i), Some(j)) => (i, j),
            _ => {
                return None;
            },
        };
        proof {
            assert(cell_view(start_cells@[i as int]) == self.snap_cells(start)[i as int]) by {
                assert(start_cells@.map_values(|c: Option<usize>| cell_view(c))[i as int]
                    == cell_view(start_cells@[i as int]));
            }
            assert(cell_view(end_cells@[j as int]) == self.snap_cells(end)[j as int]) by {
                assert(end_cells@.map_values(|c: Option<usize>| cell_view(c))[j as int]
                    == cell_view(end_cells@[j as int]));
            }
        }
        let a: usize = start_cells[i].unwrap();
        let b: usize = end_cells[j].unwrap();
        let mut points: Vec<Coordinate> = Vec::new();
        points.push(end);
        if a == b {
            points.push(start);
            proof {
                assert(points@ =~= seq![end, start]);
            }
            return Some((split_at_antimeridian(&points), direct as u64));
        }
        let result = self.search(execution_type, a, b, heuristic, state);
        let ghost whole = result;
        let (path, d) = match (result.path, result.distance) {
            (Some(path), Some(d)) => (path, d),
            _ => {
                proof {
                    assert(self.lays_out(
                        whole,
                        start,
                        end,
                        start_legs@[i as int],
                        end_legs@[j as int],
                        None,
                    ));
                }
                return None;
            },
        };
        let mut k: usize = 0;
        while k < path.len()
            invariant
                self.wf(),
                self.has_raster(),
                k <= path@.len(),
                forall|m: int| 0 <= m < path@.len() ==> #[trigger] path@[m] < self.node_count(),
                points@ == seq![end] + path@.take(k as int).map_values(
                    |v: usize| self.coordinate_of(v as int),
                ),
            decreases path@.len() - k,
        {
            let node: usize = path[k];
            proof {
                crate::raster::lemma_cell(
                    self.raster_rows_count as int,
                    self.raster_columns_count as int,
                    node as int,
                );
                assert(path@.take(k + 1) =~= path@.take(k as int).push(node));
                assert(path@.take(k + 1).map_values(|v: usize| self.coordinate_of(v as int))
                    =~= path@.take(k as int).map_values(
                    |v: usize| self.coordinate_of(v as int),
                ).push(self.coordinate_of(node as int)));
            }
            points.push(Coordinate { lon: self.get_lon(node), lat: self.get_lat(node) });
            k += 1;
        }
        points.push(start);
        let total: u64 = d as u64 + start_legs[i] as u64 + end_legs[j] as u64;
        proof {
            assert(path@.take(path@.len() as int) =~= path@);
            assert(points@ =~= self.route_points(start, end, path@));
        }
        let out = Some((split_at_antimeridian(&points), total));
        proof {
            assert(self.lays_out(
                whole,
                start,
                end,
                start_legs@[i as int],
                end_legs@[j as int],
                out,
            ));
            assert(self.is_answer(
                *execution_type,
                heuristic@,
                a as int,
                b as int,
                start,
                end,
                start_legs@[i as int],
                end_legs@[j as int],
                path@,
                d as int,
                out.unwrap().0,
                out.unwrap().1,
            ));
        }
        out
    }
}

/// A raster step is at least one coordinate unit long where the raster has
/// no more cells than units.
pub proof fn lemma_step_positive(whole: int, parts: int)
    requires
        0 < parts <= whole,
    ensures
        whole / parts >= 1,
{
    vstd::arithmetic::div_mod::lemma_fundamental_div_mod(whole, parts);
    vstd::arithmetic::div_mod::lemma_mod_bound(whole, parts);
    let q = whole / parts;
    assert(q >= 1) by (nonlinear_arith)
        requires
            whole == parts * q + whole % parts,
            whole % parts < parts,
            parts <= whole,
            0 < parts,
    ;
}

} // verus!
