//! The latitude/longitude raster: where a cell lies, which cells touch it,
//! and how a land/water mask becomes a graph.

use crate::graph::{Edge, Graph};
use vstd::prelude::*;

verus! {

/// One degree in coordinate units of a ten-millionth of a degree.
pub const DEGREE: i32 = 10_000_000;

/// 90 degrees in coordinate units.
pub const QUARTER_TURN: i32 = 900_000_000;

/// 180 degrees in coordinate units.
pub const HALF_TURN: i32 = 1_800_000_000;

/// 360 degrees in coordinate units.
pub const FULL_TURN: u64 = 3_600_000_000;

/// A point on the globe in ten-millionths of a degree.
#[derive(Clone, Copy, Debug, PartialEq, Eq, Hash, Structural)]
pub struct Coordinate {
    pub lon: i32,
    pub lat: i32,
}

/// A raster cell: where it lies and whether it is water.
#[derive(Clone, Copy, Debug, PartialEq, Eq, Structural)]
pub struct Node {
    pub coordinate: Coordinate,
    pub is_water: bool,
}

/// The cells of a raster, row by row from the north-west corner.
pub struct Nodes {
    pub nodes: Vec<Node>,
}

/// The lengths in metres of the four steps out of one cell.
#[derive(Clone, Copy, Debug, PartialEq, Eq, Structural)]
pub struct StepLengths {
    pub top: u32,
    pub bottom: u32,
    pub right: u32,
    pub left: u32,
}

/// Longitude step between two columns of a raster with `cols` columns.
pub open spec fn lon_step(cols: int) -> int {
    3_600_000_000int / cols
}

/// Latitude step between two rows of a raster with `rows` rows.
pub open spec fn lat_step(rows: int) -> int {
    1_800_000_000int / rows
}

/// Longitude of the cells in column `col`.
pub open spec fn lon_of_column(cols: int, col: int) -> int {
    col * lon_step(cols) - 1_800_000_000
}

/// Latitude of the cells in row `row`.
pub open spec fn lat_of_row(rows: int, row: int) -> int {
    900_000_000 - row * lat_step(rows)
}

/// The cell above `i`, if `i` is not in the top row.
pub open spec fn top_of(cols: int, i: int) -> Option<int> {
    if i / cols > 0 {
        Some(i - cols)
    } else {
        None
    }
}

/// The cell below `i`, if `i` is not in the bottom row.
pub open spec fn bottom_of(rows: int, cols: int, i: int) -> Option<int> {
    if i / cols < rows - 1 {
        Some(i + cols)
    } else {
        None
    }
}

/// The cell east of `i`; from the last column the step leads to the first.
pub open spec fn right_of(cols: int, i: int) -> int {
    if i % cols == cols - 1 {
        i - (cols - 1)
    } else {
        i + 1
    }
}

/// The cell west of `i`; from the first column the step leads to the last.
pub open spec fn left_of(cols: int, i: int) -> int {
    if i % cols == 0 {
        i + (cols - 1)
    } else {
        i - 1
    }
}

/// One step up, down, east or west leads from cell `u` to cell `v`.
pub open spec fn touches(rows: int, cols: int, u: int, v: int) -> bool {
    top_of(cols, u) == Some(v) || bottom_of(rows, cols, u) == Some(v) || right_of(cols, u) == v
        || left_of(cols, u) == v
}

/// The cells that touch `i`: above, below, east, west.
pub open spec fn neighbors_of(rows: int, cols: int, i: int) -> Seq<int> {
    let above = match top_of(cols, i) {
        Some(t) => seq![t],
        None => Seq::empty(),
    };
    let below = match bottom_of(rows, cols, i) {
        Some(b) => seq![b],
        None => Seq::empty(),
    };
    above + below + seq![right_of(cols, i), left_of(cols, i)]
}

/// What division and remainder by the column count say of a cell number.
pub proof fn lemma_cell(rows: int, cols: int, i: int)
    requires
        0 <= i < rows * cols,
        0 <= rows,
        0 <= cols,
    ensures
        cols > 0,
        0 <= i / cols < rows,
        0 <= i % cols < cols,
        i == (i / cols) * cols + i % cols,
        (i / cols) * cols + cols <= rows * cols,
{
    assert(cols > 0) by (nonlinear_arith)
        requires
            0 <= i < rows * cols,
            0 <= cols,
    ;
    vstd::arithmetic::div_mod::lemma_fundamental_div_mod(i, cols);
    vstd::arithmetic::div_mod::lemma_mod_bound(i, cols);
    let q = i / cols;
    let r = i % cols;
    assert(cols * q == q * cols) by (nonlinear_arith);
    assert(0 <= q) by (nonlinear_arith)
        requires
            i == q * cols + r,
            0 <= i,
            r < cols,
            cols > 0,
    ;
    assert(q < rows) by (nonlinear_arith)
        requires
            i == q * cols + r,
            0 <= r,
            i < rows * cols,
            cols > 0,
    ;
    assert(q * cols + cols <= rows * cols) by (nonlinear_arith)
        requires
            q < rows,
            cols > 0,
    ;
}

/// The cell in column `col` of row `row` has that row and that column.
pub proof fn lemma_cell_of(rows: int, cols: int, col: int, row: int)
    requires
        0 <= col < cols,
        0 <= row < rows,
    ensures
        0 <= row * cols + col < rows * cols,
        (row * cols + col) / cols == row,
        (row * cols + col) % cols == col,
{
    assert(0 <= row * cols && row * cols + cols <= rows * cols) by (nonlinear_arith)
        requires
            0 <= row < rows,
            cols > 0,
    ;
    vstd::arithmetic::div_mod::lemma_fundamental_div_mod_converse(
        row * cols + col,
        cols,
        row,
        col,
    );
}

/// Each step out of a cell of the raster leads to a cell of the raster, and
/// a step east is undone by a step west, a step down by a step up.
pub proof fn lemma_steps_stay_inside(rows: int, cols: int, i: int)
    requires
        0 <= i < rows * cols,
        0 <= rows,
        0 <= cols,
    ensures
        0 <= right_of(cols, i) < rows * cols,
        0 <= left_of(cols, i) < rows * cols,
        left_of(cols, right_of(cols, i)) == i,
        right_of(cols, left_of(cols, i)) == i,
        top_of(cols, i) matches Some(t) ==> 0 <= t < rows * cols && bottom_of(rows, cols, t)
            == Some(i),
        bottom_of(rows, cols, i) matches Some(b) ==> 0 <= b < rows * cols && top_of(cols, b)
            == Some(i),
{
    lemma_cell(rows, cols, i);
    let row = i / cols;
    let col = i % cols;
    if col == cols - 1 {
        lemma_cell_of(rows, cols, 0, row);
    } else {
        lemma_cell_of(rows, cols, col + 1, row);
    }
    if col == 0 {
        lemma_cell_of(rows, cols, cols - 1, row);
    } else {
        lemma_cell_of(rows, cols, col - 1, row);
    }
    if row > 0 {
        lemma_cell_of(rows, cols, col, row - 1);
        assert((row - 1) * cols + col == i - cols) by (nonlinear_arith)
            requires
                i == row * cols + col,
        ;
    }
    if row < rows - 1 {
        lemma_cell_of(rows, cols, col, row + 1);
        assert((row + 1) * cols + col == i + cols) by (nonlinear_arith)
            requires
                i == row * cols + col,
        ;
    }
}

/// The step east from the last column of any row leads to the first column
/// of that row.
pub proof fn lemma_east_of_last_column(rows: int, cols: int, row: int)
    requires
        0 <= row < rows,
        0 < cols,
    ensures
        right_of(cols, row * cols + (cols - 1)) == row * cols,
        left_of(cols, row * cols) == row * cols + (cols - 1),
{
    lemma_cell_of(rows, cols, cols - 1, row);
    lemma_cell_of(rows, cols, 0, row);
}

/// The edges that a raster gives cell `i`: none if `i` is land, else one to
/// each water cell that touches it, in the order above, below, east, west.
pub open spec fn raster_edges(
    water: Seq<bool>,
    lengths: Seq<StepLengths>,
    rows: int,
    cols: int,
    i: int,
) -> Seq<Edge> {
    if !water[i] {
        Seq::empty()
    } else {
        let above = match top_of(cols, i) {
            Some(t) => if water[t] {
                seq![Edge { destination: t as u32, distance: lengths[i].top }]
            } else {
                Seq::empty()
            },
            None => Seq::empty(),
        };
        let below = match bottom_of(rows, cols, i) {
            Some(b) => if water[b] {
                seq![Edge { destination: b as u32, distance: lengths[i].bottom }]
            } else {
                Seq::empty()
            },
            None => Seq::empty(),
        };
        let east = if water[right_of(cols, i)] {
            seq![Edge { destination: right_of(cols, i) as u32, distance: lengths[i].right }]
        } else {
            Seq::empty()
        };
        let west = if water[left_of(cols, i)] {
            seq![Edge { destination: left_of(cols, i) as u32, distance: lengths[i].left }]
        } else {
            Seq::empty()
        };
        above + below + east + west
    }
}

/// The edges of the cells before `i`, cell by cell.
pub open spec fn edges_before(
    water: Seq<bool>,
    lengths: Seq<StepLengths>,
    rows: int,
    cols: int,
    i: int,
) -> Seq<Edge>
    decreases i,
{
    if i <= 0 {
        Seq::empty()
    } else {
        edges_before(water, lengths, rows, cols, i - 1) + raster_edges(
            water,
            lengths,
            rows,
            cols,
            i - 1,
        )
    }
}

/// Which cells of `nodes` are water.
pub open spec fn water_of(nodes: Seq<Node>) -> Seq<bool> {
    nodes.map_values(|n: Node| n.is_water)
}

proof fn lemma_raster_edges_shape(
    water: Seq<bool>,
    lengths: Seq<StepLengths>,
    rows: int,
    cols: int,
    i: int,
)
    requires
        0 <= i < rows * cols,
        0 <= rows,
        0 <= cols,
    ensures
        raster_edges(water, lengths, rows, cols, i).len() <= 4,
        forall|k: int|
            0 <= k < raster_edges(water, lengths, rows, cols, i).len() ==> (
            #[trigger] raster_edges(water, lengths, rows, cols, i)[k]).destination < rows * cols,
        rows * cols <= u32::MAX ==> forall|k: int|
            0 <= k < raster_edges(water, lengths, rows, cols, i).len() ==> water[(
            #[trigger] raster_edges(water, lengths, rows, cols, i)[k]).destination as int],
{
    lemma_steps_stay_inside(rows, cols, i);
}

proof fn lemma_edges_before_grow(
    water: Seq<bool>,
    lengths: Seq<StepLengths>,
    rows: int,
    cols: int,
    i: int,
    j: int,
)
    requires
        0 <= i <= j <= rows * cols,
        0 <= rows,
        0 <= cols,
    ensures
        edges_before(water, lengths, rows, cols, i).len() <= edges_before(
            water,
            lengths,
            rows,
            cols,
            j,
        ).len(),
        edges_before(water, lengths, rows, cols, j).len() <= 4 * j,
        edges_before(water, lengths, rows, cols, j).take(
            edges_before(water, lengths, rows, cols, i).len() as int,
        ) == edges_before(water, lengths, rows, cols, i),
        forall|k: int|
            0 <= k < edges_before(water, lengths, rows, cols, j).len() ==> (
            #[trigger] edges_before(water, lengths, rows, cols, j)[k]).destination < rows * cols,
    decreases j,
{
    if j > 0 {
        lemma_raster_edges_shape(water, lengths, rows, cols, j - 1);
        if i < j {
            lemma_edges_before_grow(water, lengths, rows, cols, i, j - 1);
            let shorter = edges_before(water, lengths, rows, cols, j - 1);
            let whole = edges_before(water, lengths, rows, cols, j);
            let first = edges_before(water, lengths, rows, cols, i);
            assert(whole.take(first.len() as int) =~= shorter.take(first.len() as int));
        } else {
            lemma_edges_before_grow(water, lengths, rows, cols, j - 1, j - 1);
            let whole = edges_before(water, lengths, rows, cols, j);
            assert(whole.take(whole.len() as int) =~= whole);
        }
    } else {
        assert(edges_before(water, lengths, rows, cols, j).take(0) =~= edges_before(
            water,
            lengths,
            rows,
            cols,
            i,
        ));
    }
}

/// The cell above `i` in a raster of `rows` rows and `cols` columns; rows do
/// not wrap, so the top row has none.
pub fn top_cell(rows: usize, cols: usize, i: usize) -> (r: Option<usize>)
    requires
        i < rows * cols,
        rows * cols <= usize::MAX,
    ensures
        match r {
            Some(t) => top_of(cols as int, i as int) == Some(t as int),
            None => top_of(cols as int, i as int).is_none(),
        },
        r matches Some(t) ==> t < rows * cols,
{
    proof {
        lemma_steps_stay_inside(rows as int, cols as int, i as int);
    }
    if i / cols > 0 {
        Some(i - cols)
    } else {
        None
    }
}

/// The cell below `i`; rows do not wrap, so the bottom row has none.
pub fn bottom_cell(rows: usize, cols: usize, i: usize) -> (r: Option<usize>)
    requires
        i < rows * cols,
        rows * cols <= usize::MAX,
    ensures
        match r {
            Some(b) => bottom_of(rows as int, cols as int, i as int) == Some(b as int),
            None => bottom_of(rows as int, cols as int, i as int).is_none(),
        },
        r matches Some(b) ==> b < rows * cols,
{
    proof {
        lemma_steps_stay_inside(rows as int, cols as int, i as int);
        lemma_cell(rows as int, cols as int, i as int);
    }
    if i / cols < rows - 1 {
        Some(i + cols)
    } else {
        None
    }
}

/// The cell east of `i`. Longitude wraps: east of the last column lies the
/// first column of the same row.
pub fn right_cell(rows: usize, cols: usize, i: usize) -> (r: usize)
    requires
        i < rows * cols,
        rows * cols <= usize::MAX,
    ensures
        r == right_of(cols as int, i as int),
        r < rows * cols,
        r / cols == i / cols,
        i % cols == cols - 1 ==> r % cols == 0,
{
    proof {
        lemma_steps_stay_inside(rows as int, cols as int, i as int);
        lemma_cell(rows as int, cols as int, i as int);
        if i as int % (cols as int) == cols - 1 {
            lemma_cell_of(rows as int, cols as int, 0, i as int / (cols as int));
        } else {
            lemma_cell_of(
                rows as int,
                cols as int,
                i as int % (cols as int) + 1,
                i as int / (cols as int),
            );
        }
    }
    if i % cols == cols - 1 {
        i - (cols - 1)
    } else {
        i + 1
    }
}

/// The cell west of `i`. Longitude wraps: west of the first column lies the
/// last column of the same row.
pub fn left_cell(rows: usize, cols: usize, i: usize) -> (r: usize)
    requires
        i < rows * cols,
        rows * cols <= usize::MAX,
    ensures
        r == left_of(cols as int, i as int),
        r < rows * cols,
        r / cols == i / cols,
{
    proof {
        lemma_steps_stay_inside(rows as int, cols as int, i as int);
        lemma_cell(rows as int, cols as int, i as int);
        if i as int % (cols as int) == 0 {
            lemma_cell_of(rows as int, cols as int, cols - 1, i as int / (cols as int));
        } else {
            lemma_cell_of(
                rows as int,
                cols as int,
                i as int % (cols as int) - 1,
                i as int / (cols as int),
            );
        }
    }
    if i % cols == 0 {
        i + (cols - 1)
    } else {
        i - 1
    }
}

impl Nodes {
    /// The cells of a raster of `rows` rows and `cols` columns, every one
    /// marked as water: cell `row * cols + col` lies at the longitude of its
    /// column and the latitude of its row.
    pub fn new_generate_not_equally_distributed(rows: usize, cols: usize) -> (out: Nodes)
        requires
            0 < rows <= 1_800_000_000,
            0 < cols <= 3_600_000_000,
            rows * cols <= usize::MAX,
        ensures
            out.nodes@.len() == rows * cols,
            forall|i: int|
                0 <= i < rows * cols ==> {
                    &&& (#[trigger] out.nodes@[i]).is_water
                    &&& out.nodes@[i].coordinate.lon == lon_of_column(cols as int, i % (cols as int))
                    &&& out.nodes@[i].coordinate.lat == lat_of_row(rows as int, i / (cols as int))
                },
    {
        let step_lat: u64 = 1_800_000_000 / (rows as u64);
        let step_lon: u64 = FULL_TURN / (cols as u64);
        let mut nodes: Vec<Node> = Vec::new();
        let mut row: usize = 0;
        while row < rows
            invariant
                0 < rows <= 1_800_000_000,
                0 < cols <= 3_600_000_000,
                rows * cols <= usize::MAX,
                step_lat == lat_step(rows as int),
                step_lon == lon_step(cols as int),
                row <= rows,
                nodes@.len() == row * cols,
                forall|i: int|
                    0 <= i < row * cols ==> {
                        &&& (#[trigger] nodes@[i]).is_water
                        &&& nodes@[i].coordinate.lon == lon_of_column(
                            cols as int,
                            i % (cols as int),
                        )
                        &&& nodes@[i].coordinate.lat == lat_of_row(rows as int, i / (cols as int))
                    },
            decreases rows - row,
        {
            proof {
                lemma_scaled_step(1_800_000_000, rows as int, row as int);
            }
            let lat: i32 = (QUARTER_TURN as i64 - (row as u64 * step_lat) as i64) as i32;
            let mut col: usize = 0;
            while col < cols
                invariant
                    0 < rows <= 1_800_000_000,
                    0 < cols <= 3_600_000_000,
                    rows * cols <= usize::MAX,
                    step_lon == lon_step(cols as int),
                    row < rows,
                    col <= cols,
                    lat == lat_of_row(rows as int, row as int),
                    nodes@.len() == row * cols + col,
                    forall|i: int|
                        0 <= i < row * cols + col ==> {
                            &&& (#[trigger] nodes@[i]).is_water
                            &&& nodes@[i].coordinate.lon == lon_of_column(
                                cols as int,
                                i % (cols as int),
                            )
                            &&& nodes@[i].coordinate.lat == lat_of_row(
                                rows as int,
                                i / (cols as int),
                            )
                        },
                decreases cols - col,
            {
                proof {
                    lemma_scaled_step(3_600_000_000, cols as int, col as int);
                    lemma_cell_of(rows as int, cols as int, col as int, row as int);
                }
                let lon: i32 = ((col as u64 * step_lon) as i64 - HALF_TURN as i64) as i32;
                nodes.push(Node { coordinate: Coordinate { lon, lat }, is_water: true });
                col += 1;
            }
            proof {
                assert((row + 1) * cols == row * cols + cols) by (nonlinear_arith);
            }
            row += 1;
        }
        Nodes { nodes }
    }
}

/// `count` steps of the size that divides `whole` into `parts` stay within
/// `whole`.
pub proof fn lemma_scaled_step(whole: int, parts: int, count: int)
    requires
        0 <= whole,
        0 < parts,
        0 <= count <= parts,
    ensures
        0 <= count * (whole / parts) <= whole,
{
    vstd::arithmetic::div_mod::lemma_fundamental_div_mod(whole, parts);
    vstd::arithmetic::div_mod::lemma_mod_bound(whole, parts);
    let step = whole / parts;
    assert(0 <= step) by (nonlinear_arith)
        requires
            whole == parts * step + whole % parts,
            whole % parts < parts,
            0 <= whole,
            0 < parts,
    ;
    assert(0 <= count * step <= parts * step) by (nonlinear_arith)
        requires
            0 <= count <= parts,
            0 <= step,
    ;
}

impl Graph {
    /// The raster has at least one row and one column and no more of either
    /// than a step of one coordinate unit allows.
    pub open spec fn has_raster(&self) -> bool {
        &&& 0 < self.raster_columns_count <= 3_600_000_000
        &&& 0 < self.raster_rows_count <= 1_800_000_000
    }

    /// Longitude of cell `i`.
    pub open spec fn lon_of(&self, i: int) -> int {
        lon_of_column(self.raster_columns_count as int, i % (self.raster_columns_count as int))
    }

    /// Latitude of cell `i`.
    pub open spec fn lat_of(&self, i: int) -> int {
        lat_of_row(self.raster_rows_count as int, i / (self.raster_columns_count as int))
    }

    /// The edges stored for node `i`.
    pub open spec fn adjacency(&self, i: int) -> Seq<Edge> {
        self.edges@.subrange(self.offsets@[i].0 as int, self.offsets@[i + 1].0 as int)
    }

    /// Number of the cell in column `col` of row `row`.
    pub fn get_index(&self, col: usize, row: usize) -> (i: usize)
        requires
            col < self.raster_columns_count,
            row < self.raster_rows_count,
            self.raster_rows_count * self.raster_columns_count <= usize::MAX,
        ensures
            i == row * self.raster_columns_count + col,
            i < self.raster_rows_count * self.raster_columns_count,
            i / self.raster_columns_count == row,
            i % self.raster_columns_count == col,
    {
        proof {
            lemma_cell_of(
                self.raster_rows_count as int,
                self.raster_columns_count as int,
                col as int,
                row as int,
            );
            assert(0 <= row * self.raster_columns_count) by (nonlinear_arith);
        }
        row * self.raster_columns_count + col
    }

    /// Longitude of cell `i` in ten-millionths of a degree.
    pub fn get_lon(&self, i: usize) -> (lon: i32)
        requires
            0 < self.raster_columns_count <= 3_600_000_000,
        ensures
            lon == self.lon_of(i as int),
            -1_800_000_000 <= lon <= 1_800_000_000,
    {
        let step: u64 = FULL_TURN / (self.raster_columns_count as u64);
        let col: u64 = (i % self.raster_columns_count) as u64;
        proof {
            lemma_scaled_step(3_600_000_000, self.raster_columns_count as int, col as int);
        }
        ((col * step) as i64 - HALF_TURN as i64) as i32
    }

    /// Latitude of cell `i` in ten-millionths of a degree.
    pub fn get_lat(&self, i: usize) -> (lat: i32)
        requires
            self.has_raster(),
            i / self.raster_columns_count < self.raster_rows_count,
        ensures
            lat == self.lat_of(i as int),
            -900_000_000 <= lat <= 900_000_000,
    {
        let step: u64 = 1_800_000_000 / (self.raster_rows_count as u64);
        let row: u64 = (i / self.raster_columns_count) as u64;
        proof {
            lemma_scaled_step(1_800_000_000, self.raster_rows_count as int, row as int);
        }
        (QUARTER_TURN as i64 - (row * step) as i64) as i32
    }

    /// Whether node `i` is water, that is has an edge.
    pub fn is_water(&self, i: usize) -> (b: bool)
        requires
            i < self.node_count(),
        ensures
            b == self.is_water_node(i as int),
    {
        let stored: usize = self.offsets.len();
        self.offsets[i].0 != self.offsets[i + 1].0
    }

    /// The cell above `i`; rows do not wrap, so the top row has none.
    pub fn get_neighbour_top(&self, i: usize) -> (r: Option<usize>)
        requires
            i < self.raster_rows_count * self.raster_columns_count,
            self.raster_rows_count * self.raster_columns_count <= usize::MAX,
        ensures
            match r {
                Some(t) => top_of(self.raster_columns_count as int, i as int) == Some(t as int),
                None => top_of(self.raster_columns_count as int, i as int).is_none(),
            },
            r matches Some(t) ==> t < self.raster_rows_count * self.raster_columns_count,
    {
        top_cell(self.raster_rows_count, self.raster_columns_count, i)
    }

    /// The cell below `i`; rows do not wrap, so the bottom row has none.
    pub fn get_neighbour_bottom(&self, i: usize) -> (r: Option<usize>)
        requires
            i < self.raster_rows_count * self.raster_columns_count,
            self.raster_rows_count * self.raster_columns_count <= usize::MAX,
        ensures
            match r {
                Some(b) => bottom_of(
                    self.raster_rows_count as int,
                    self.raster_columns_count as int,
                    i as int,
                ) == Some(b as int),
                None => bottom_of(
                    self.raster_rows_count as int,
                    self.raster_columns_count as int,
                    i as int,
                ).is_none(),
            },
            r matches Some(b) ==> b < self.raster_rows_count * self.raster_columns_count,
    {
        bottom_cell(self.raster_rows_count, self.raster_columns_count, i)
    }

    /// The cell east of `i`. Longitude wraps: east of the last column lies
    /// the first column of the same row.
    pub fn get_neighbour_right(&self, i: usize) -> (r: usize)
        requires
            i < self.raster_rows_count * self.raster_columns_count,
            self.raster_rows_count * self.raster_columns_count <= usize::MAX,
        ensures
            r == right_of(self.raster_columns_count as int, i as int),
            r < self.raster_rows_count * self.raster_columns_count,
            r / self.raster_columns_count == i / self.raster_columns_count,
            i % self.raster_columns_count == self.raster_columns_count - 1 ==> r
                % self.raster_columns_count == 0,
    {
        right_cell(self.raster_rows_count, self.raster_columns_count, i)
    }

    /// The cell west of `i`. Longitude wraps: west of the first column lies
    /// the last column of the same row.
    pub fn get_neighbour_left(&self, i: usize) -> (r: usize)
        requires
            i < self.raster_rows_count * self.raster_columns_count,
            self.raster_rows_count * self.raster_columns_count <= usize::MAX,
        ensures
            r == left_of(self.raster_columns_count as int, i as int),
            r < self.raster_rows_count * self.raster_columns_count,
            r / self.raster_columns_count == i / self.raster_columns_count,
    {
        left_cell(self.raster_rows_count, self.raster_columns_count, i)
    }

    /// The cells that touch `i`, in the order above, below, east, west.
    pub fn get_neighbors(&self, i: usize) -> (out: Vec<usize>)
        requires
            i < self.raster_rows_count * self.raster_columns_count,
            self.raster_rows_count * self.raster_columns_count <= usize::MAX,
        ensures
            out@.map_values(|v: usize| v as int) == neighbors_of(
                self.raster_rows_count as int,
                self.raster_columns_count as int,
                i as int,
            ),
            forall|k: int|
                0 <= k < out@.len() ==> #[trigger] out@[k] < self.raster_rows_count
                    * self.raster_columns_count,
    {
        let mut out: Vec<usize> = Vec::new();
        if let Some(t) = self.get_neighbour_top(i) {
            out.push(t);
        }
        if let Some(b) = self.get_neighbour_bottom(i) {
            out.push(b);
        }
        out.push(self.get_neighbour_right(i));
        out.push(self.get_neighbour_left(i));
        proof {
            assert(out@.map_values(|v: usize| v as int) =~= neighbors_of(
                self.raster_rows_count as int,
                self.raster_columns_count as int,
                i as int,
            ));
        }
        out
    }

    /// The water cells among those that touch `i`, in the order above,
    /// below, east, west.
    pub fn get_neighbours_in_water(&self, i: usize) -> (out: Vec<usize>)
        requires
            self.wf(),
            i < self.node_count(),
        ensures
            out@.map_values(|v: usize| v as int) == neighbors_of(
                self.raster_rows_count as int,
                self.raster_columns_count as int,
                i as int,
            ).filter(|v: int| self.is_water_node(v)),
    {
        let all = self.get_neighbors(i);
        let mut out: Vec<usize> = Vec::new();
        let ghost wanted = |v: int| self.is_water_node(v);
        let ghost cells = all@.map_values(|v: usize| v as int);
        let mut k: usize = 0;
        while k < all.len()
            invariant
                self.wf(),
                k <= all@.len(),
                cells == all@.map_values(|v: usize| v as int),
                wanted == (|v: int| self.is_water_node(v)),
                forall|j: int| 0 <= j < all@.len() ==> #[trigger] all@[j] < self.node_count(),
                out@.map_values(|v: usize| v as int) == cells.take(k as int).filter(wanted),
            decreases all@.len() - k,
        {
            let v: usize = all[k];
            proof {
                assert(cells.take(k + 1) =~= cells.take(k as int).push(v as int));
                lemma_filter_push(cells.take(k as int), v as int, wanted);
            }
            if self.is_water(v) {
                out.push(v);
                proof {
                    assert(out@.map_values(|v: usize| v as int) =~= cells.take(k as int).filter(
                        wanted,
                    ).push(v as int));
                }
            }
            k += 1;
        }
        proof {
            assert(cells.take(all@.len() as int) =~= cells);
        }
        out
    }

    /// The graph of a raster: every water cell has an edge to each water
    /// cell that touches it, of the length that `lengths` gives for that
    /// step; land cells have no edge. No rectangle is recorded.
    pub fn new_from_nodes(
        nodes: &Nodes,
        lengths: &Vec<StepLengths>,
        raster_columns_count: usize,
        raster_rows_count: usize,
    ) -> (graph: Graph)
        requires
            nodes.nodes@.len() == raster_rows_count * raster_columns_count,
            lengths@.len() == nodes.nodes@.len(),
            4 * nodes.nodes@.len() < u32::MAX,
        ensures
            graph.wf(),
            graph.raster_columns_count == raster_columns_count,
            graph.raster_rows_count == raster_rows_count,
            graph.shortcut_rectangles@.len() == 0,
            graph.node_count() == nodes.nodes@.len(),
            forall|i: int| 0 <= i <= graph.node_count() ==> (#[trigger] graph.offsets@[i]).1.is_none(),
            forall|i: int|
                0 <= i < graph.node_count() ==> #[trigger] graph.adjacency(i) == raster_edges(
                    water_of(nodes.nodes@),
                    lengths@,
                    raster_rows_count as int,
                    raster_columns_count as int,
                    i,
                ),
    {
        let n: usize = nodes.nodes.len();
        let ghost water = water_of(nodes.nodes@);
        let ghost rows = raster_rows_count as int;
        let ghost cols = raster_columns_count as int;
        let mut graph = Graph {
            offsets: Vec::new(),
            edges: Vec::new(),
            raster_columns_count,
            raster_rows_count,
            shortcut_rectangles: Vec::new(),
        };
        let mut i: usize = 0;
        while i < n
            invariant
                n == nodes.nodes@.len(),
                n == rows * cols,
                rows == raster_rows_count,
                cols == raster_columns_count,
                lengths@.len() == n,
                4 * n < u32::MAX,
                water == water_of(nodes.nodes@),
                graph.raster_columns_count == raster_columns_count,
                graph.raster_rows_count == raster_rows_count,
                graph.shortcut_rectangles@.len() == 0,
                i <= n,
                graph.offsets@.len() == i,
                graph.edges@ == edges_before(water, lengths@, rows, cols, i as int),
                forall|j: int|
                    0 <= j < i ==> (#[trigger] graph.offsets@[j]).0 == edges_before(
                        water,
                        lengths@,
                        rows,
                        cols,
                        j,
                    ).len() && graph.offsets@[j].1.is_none(),
            decreases n - i,
        {
            proof {
                lemma_edges_before_grow(water, lengths@, rows, cols, i as int, i as int);
                lemma_steps_stay_inside(rows, cols, i as int);
            }
            let ghost before = graph.edges@;
            graph.offsets.push((graph.edges.len() as u32, None));
            let mut found = cell_edges(nodes, lengths, raster_columns_count, raster_rows_count, i);
            graph.edges.append(&mut found);
            i += 1;
        }
        proof {
            lemma_edges_before_grow(water, lengths@, rows, cols, n as int, n as int);
        }
        graph.offsets.push((graph.edges.len() as u32, None));
        proof {
            assert forall|a: int, b: int| 0 <= a <= b <= graph.node_count() implies (
            #[trigger] graph.offsets@[a]).0 <= (#[trigger] graph.offsets@[b]).0 by {
                lemma_edges_before_grow(water, lengths@, rows, cols, a, b);
            }
            assert forall|k: int| 0 <= k < graph.edges@.len() implies (
            #[trigger] graph.edges@[k]).destination < graph.node_count() by {
                lemma_edges_before_grow(water, lengths@, rows, cols, n as int, n as int);
            }
            assert forall|j: int| 0 <= j < graph.node_count() implies #[trigger] graph.adjacency(j)
                == raster_edges(water, lengths@, rows, cols, j) by {
                lemma_edges_before_grow(water, lengths@, rows, cols, j, j + 1);
                lemma_edges_before_grow(water, lengths@, rows, cols, j + 1, n as int);
                let upto = edges_before(water, lengths@, rows, cols, j + 1);
                let first = edges_before(water, lengths@, rows, cols, j);
                assert(graph.edges@.take(upto.len() as int) == upto);
                assert(graph.adjacency(j) =~= upto.subrange(first.len() as int, upto.len() as int));
                assert(upto.subrange(first.len() as int, upto.len() as int) =~= raster_edges(
                    water,
                    lengths@,
                    rows,
                    cols,
                    j,
                ));
            }
        }
        graph
    }
}

/// One optional edge: to `to`, of length `distance`, if `to` is water.
fn step_edge(nodes: &Nodes, to: Option<usize>, distance: u32) -> (out: Vec<Edge>)
    requires
        to matches Some(t) ==> t < nodes.nodes@.len() && t <= u32::MAX,
    ensures
        out@ == match to {
            Some(t) => if water_of(nodes.nodes@)[t as int] {
                seq![Edge { destination: t as u32, distance }]
            } else {
                Seq::empty()
            },
            None => Seq::empty(),
        },
{
    let mut out: Vec<Edge> = Vec::new();
    if let Some(t) = to {
        if nodes.nodes[t].is_water {
            out.push(Edge { destination: t as u32, distance });
        }
    }
    out
}

/// The edges that the raster gives cell `i`.
fn cell_edges(
    nodes: &Nodes,
    lengths: &Vec<StepLengths>,
    raster_columns_count: usize,
    raster_rows_count: usize,
    i: usize,
) -> (out: Vec<Edge>)
    requires
        nodes.nodes@.len() == raster_rows_count * raster_columns_count,
        lengths@.len() == nodes.nodes@.len(),
        nodes.nodes@.len() <= u32::MAX,
        i < nodes.nodes@.len(),
    ensures
        out@ == raster_edges(
            water_of(nodes.nodes@),
            lengths@,
            raster_rows_count as int,
            raster_columns_count as int,
            i as int,
        ),
{
    let mut out: Vec<Edge> = Vec::new();
    if !nodes.nodes[i].is_water {
        return out;
    }
    let here = lengths[i];
    let rows: usize = raster_rows_count;
    let cols: usize = raster_columns_count;
    let mut above = step_edge(nodes, top_cell(rows, cols, i), here.top);
    let mut below = step_edge(nodes, bottom_cell(rows, cols, i), here.bottom);
    let mut east = step_edge(nodes, Some(right_cell(rows, cols, i)), here.right);
    let mut west = step_edge(nodes, Some(left_cell(rows, cols, i)), here.left);
    out.append(&mut above);
    out.append(&mut below);
    out.append(&mut east);
    out.append(&mut west);
    out
}

/// Each step is as long as the step that undoes it.
pub open spec fn steps_match(lengths: Seq<StepLengths>, rows: int, cols: int) -> bool {
    forall|i: int|
        0 <= i < rows * cols ==> {
            &&& (#[trigger] lengths[i]).right == lengths[right_of(cols, i)].left
            &&& lengths[i].left == lengths[left_of(cols, i)].right
            &&& (top_of(cols, i) matches Some(t) ==> lengths[i].top == lengths[t].bottom)
            &&& (bottom_of(rows, cols, i) matches Some(b) ==> lengths[i].bottom == lengths[b].top)
        }
}

/// Where a step leads and how long it is, for each of the four steps that
/// the raster may give a cell an edge for.
pub open spec fn is_step(
    water: Seq<bool>,
    lengths: Seq<StepLengths>,
    rows: int,
    cols: int,
    i: int,
    edge: Edge,
) -> bool {
    &&& water[i]
    &&& water[edge.destination as int]
    &&& {
        ||| top_of(cols, i) == Some(edge.destination as int) && edge.distance == lengths[i].top
        ||| bottom_of(rows, cols, i) == Some(edge.destination as int) && edge.distance
            == lengths[i].bottom
        ||| right_of(cols, i) == edge.destination && edge.distance == lengths[i].right
        ||| left_of(cols, i) == edge.destination && edge.distance == lengths[i].left
    }
}

/// The edges that the raster gives a cell are exactly its steps to water.
pub proof fn lemma_raster_edges_are_steps(
    water: Seq<bool>,
    lengths: Seq<StepLengths>,
    rows: int,
    cols: int,
    i: int,
)
    requires
        0 <= i < rows * cols,
        rows * cols <= u32::MAX,
        0 <= rows,
        0 <= cols,
    ensures
        forall|p: int|
            0 <= p < raster_edges(water, lengths, rows, cols, i).len() ==> is_step(
                water,
                lengths,
                rows,
                cols,
                i,
                #[trigger] raster_edges(water, lengths, rows, cols, i)[p],
            ),
        forall|edge: Edge| #[trigger]
            is_step(water, lengths, rows, cols, i, edge) && edge.destination < rows * cols
                ==> raster_edges(water, lengths, rows, cols, i).contains(edge),
{
    lemma_steps_stay_inside(rows, cols, i);
    let all = raster_edges(water, lengths, rows, cols, i);
    assert forall|edge: Edge| #[trigger]
        is_step(water, lengths, rows, cols, i, edge) && edge.destination < rows * cols implies all.contains(
        edge,
    ) by {
        let above = match top_of(cols, i) {
            Some(t) => if water[t] {
                seq![Edge { destination: t as u32, distance: lengths[i].top }]
            } else {
                Seq::empty()
            },
            None => Seq::empty(),
        };
        let below = match bottom_of(rows, cols, i) {
            Some(b) => if water[b] {
                seq![Edge { destination: b as u32, distance: lengths[i].bottom }]
            } else {
                Seq::empty()
            },
            None => Seq::empty(),
        };
        let east = if water[right_of(cols, i)] {
            seq![Edge { destination: right_of(cols, i) as u32, distance: lengths[i].right }]
        } else {
            Seq::empty()
        };
        let west = if water[left_of(cols, i)] {
            seq![Edge { destination: left_of(cols, i) as u32, distance: lengths[i].left }]
        } else {
            Seq::empty()
        };
        assert(all == above + below + east + west);
        let d = edge.destination as int;
        if top_of(cols, i) == Some(d) && edge.distance == lengths[i].top {
            assert(all[0] == edge);
        } else if bottom_of(rows, cols, i) == Some(d) && edge.distance == lengths[i].bottom {
            assert(all[above.len() as int] == edge);
        } else if right_of(cols, i) == d && edge.distance == lengths[i].right {
            assert(all[(above.len() + below.len()) as int] == edge);
        } else {
            assert(all[(above.len() + below.len() + east.len()) as int] == edge);
        }
    }
}

impl Graph {
    /// Every edge leads one step up, down, east or west.
    pub open spec fn steps_only(&self) -> bool {
        forall|k: int, u: int| #[trigger]
            self.leaves(k, u) ==> touches(
                self.raster_rows_count as int,
                self.raster_columns_count as int,
                u,
                self.target(k),
            )
    }

    /// A graph whose nodes have the edges that a raster gives them has
    /// steps of the raster for edges.
    pub proof fn lemma_raster_graph_steps(&self, water: Seq<bool>, lengths: Seq<StepLengths>)
        requires
            self.wf(),
            forall|i: int|
                0 <= i < self.node_count() ==> #[trigger] self.adjacency(i) == raster_edges(
                    water,
                    lengths,
                    self.raster_rows_count as int,
                    self.raster_columns_count as int,
                    i,
                ),
        ensures
            self.steps_only(),
    {
        let rows = self.raster_rows_count as int;
        let cols = self.raster_columns_count as int;
        assert forall|k: int, u: int| #[trigger] self.leaves(k, u) implies touches(
            rows,
            cols,
            u,
            self.target(k),
        ) by {
            self.lemma_edge_in_range(k, u);
            let p = k - self.offsets@[u].0;
            let edge = self.edges@[k];
            assert(self.adjacency(u)[p] == edge);
            lemma_raster_edges_are_steps(water, lengths, rows, cols, u);
            assert(is_step(water, lengths, rows, cols, u, edge));
        }
    }

    /// A graph whose nodes have the edges that a raster gives them is
    /// undirected where each step is as long as the step that undoes it.
    pub proof fn lemma_raster_graph_undirected(&self, water: Seq<bool>, lengths: Seq<StepLengths>)
        requires
            self.wf(),
            steps_match(
                lengths,
                self.raster_rows_count as int,
                self.raster_columns_count as int,
            ),
            forall|i: int|
                0 <= i < self.node_count() ==> #[trigger] self.adjacency(i) == raster_edges(
                    water,
                    lengths,
                    self.raster_rows_count as int,
                    self.raster_columns_count as int,
                    i,
                ),
        ensures
            self.is_undirected(),
    {
        let rows = self.raster_rows_count as int;
        let cols = self.raster_columns_count as int;
        let n = self.node_count();
        assert forall|u: int, k: int| #[trigger] self.has_way_back(k, u) by {
            if self.leaves(k, u) {
                self.lemma_edge_in_range(k, u);
                let p = k - self.offsets@[u].0;
                let edge = self.edges@[k];
                let t = edge.destination as int;
                assert(self.adjacency(u)[p] == edge);
                lemma_raster_edges_are_steps(water, lengths, rows, cols, u);
                lemma_raster_edges_are_steps(water, lengths, rows, cols, t);
                lemma_steps_stay_inside(rows, cols, u);
                lemma_steps_stay_inside(rows, cols, t);
                assert(is_step(water, lengths, rows, cols, u, edge));
                let home = Edge { destination: u as u32, distance: edge.distance };
                assert(is_step(water, lengths, rows, cols, t, home));
                assert(self.adjacency(t).contains(home));
                let q = choose|q: int| 0 <= q < self.adjacency(t).len() && self.adjacency(t)[q] == home;
                let back = self.offsets@[t].0 + q;
                assert(self.offsets@[t].0 <= self.offsets@[t + 1].0);
                assert(self.offsets@[t + 1].0 <= self.offsets@[n].0);
                assert(self.edges@[back] == home);
                assert(self.is_back_edge(back, k, u));
            }
        }
    }
}

/// Filtering a sequence with one more element at its end.
pub proof fn lemma_filter_push(s: Seq<int>, x: int, keep: spec_fn(int) -> bool)
    ensures
        s.push(x).filter(keep) == if keep(x) {
            s.filter(keep).push(x)
        } else {
            s.filter(keep)
        },
{
    reveal(Seq::filter);
    assert(s.push(x).drop_last() =~= s);
}

} // verus!
