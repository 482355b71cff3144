//! The shortcut overlay: for each rectangle of open water, an edge between
//! every two border cells, as long as the shortest route between them.

use crate::graph::{Edge, Graph};
use crate::sequences::lemma_swap_keeps_multiset;
use crate::state::AlgorithmState;
use vstd::prelude::*;

verus! {

/// An edge to be added both ways between two border cells.
#[derive(Clone, Copy, Debug, PartialEq, Eq, Structural)]
pub struct Shortcut {
    pub from: usize,
    pub to: usize,
    pub distance: u32,
}

/// Why an overlay could not be built.
#[derive(Clone, Copy, Debug, PartialEq, Eq, Structural)]
pub enum OverlayError {
    /// The rectangle of this number does not lie in the raster, or its
    /// right or bottom side comes before its left or top side.
    OutOfRaster(usize),
    /// No route leads from the first to the second of these border cells.
    NoPath(usize, usize),
    /// The overlay would hold more edges than an offset can count.
    TooManyEdges,
}

/// The rectangle lies in a raster of `rows` rows and `cols` columns.
pub open spec fn rect_fits(rect: (usize, usize, usize, usize), cols: int, rows: int) -> bool {
    rect.0 <= rect.2 < cols && rect.1 <= rect.3 < rows
}

/// The cells of column `col` from row `top` through row `bottom`.
pub open spec fn column_side(cols: int, col: int, top: int, bottom: int) -> Seq<int> {
    Seq::new((bottom - top + 1) as nat, |k: int| (top + k) * cols + col)
}

/// The cells of row `row` from column `left` through column `right`.
pub open spec fn row_side(cols: int, row: int, left: int, right: int) -> Seq<int> {
    Seq::new((right - left + 1) as nat, |k: int| row * cols + left + k)
}

/// Cell `a` paired with each of `targets`.
pub open spec fn fan(a: int, targets: Seq<int>) -> Seq<(int, int)> {
    targets.map_values(|b: int| (a, b))
}

/// Each cell of `cells` before place `upto` paired with each cell that
/// comes after it, cell by cell.
pub open spec fn pairs_among(cells: Seq<int>, upto: int) -> Seq<(int, int)>
    decreases upto,
{
    if upto <= 0 {
        Seq::empty()
    } else {
        pairs_among(cells, upto - 1) + fan(cells[upto - 1], cells.skip(upto))
    }
}

/// The border cells of a rectangle, once each: down its left side, along
/// its top side from the second column on, down its right side from the
/// second row on, and along its bottom side between the corners.
pub open spec fn border_cells(cols: int, rect: (usize, usize, usize, usize)) -> Seq<int> {
    let left = rect.0 as int;
    let top = rect.1 as int;
    let right = rect.2 as int;
    let bottom = rect.3 as int;
    column_side(cols, left, top, bottom) + row_side(cols, top, left + 1, right) + (if left
        < right {
        column_side(cols, right, top + 1, bottom)
    } else {
        Seq::empty()
    }) + (if left < right && top < bottom {
        row_side(cols, bottom, left + 1, right - 1)
    } else {
        Seq::empty()
    })
}

/// Cell `v` lies on the border of `rect`: in the rectangle, and in its
/// first or last column or row.
pub open spec fn on_border(cols: int, rect: (usize, usize, usize, usize), v: int) -> bool {
    let col = v % cols;
    let row = v / cols;
    &&& rect.0 <= col <= rect.2
    &&& rect.1 <= row <= rect.3
    &&& (col == rect.0 || col == rect.2 || row == rect.1 || row == rect.3)
}

/// The column and the row of the border cell at place `k`.
pub open spec fn border_place(rect: (usize, usize, usize, usize), k: int) -> (int, int) {
    let left = rect.0 as int;
    let top = rect.1 as int;
    let right = rect.2 as int;
    let bottom = rect.3 as int;
    let high = bottom - top + 1;
    let wide = right - left;
    if k < high {
        (left, top + k)
    } else if k < high + wide {
        (left + 1 + (k - high), top)
    } else if k < high + wide + high - 1 {
        (right, top + 1 + (k - high - wide))
    } else {
        (left + 1 + (k - high - wide - high + 1), bottom)
    }
}

/// Every two cells on the border of a rectangle in the raster are paired
/// once.
pub proof fn lemma_rect_pairs_once(rows: int, cols: int, rect: (usize, usize, usize, usize))
    requires
        rect_fits(rect, cols, rows),
    ensures
        forall|k: int|
            0 <= k < rect_pairs(cols, rect).len() ==> (#[trigger] rect_pairs(cols, rect)[k]).0
                != rect_pairs(cols, rect)[k].1,
        forall|k: int, m: int|
            0 <= k < m < rect_pairs(cols, rect).len() ==> {
                let one = #[trigger] rect_pairs(cols, rect)[k];
                let other = #[trigger] rect_pairs(cols, rect)[m];
                one != other && one != (other.1, other.0)
            },
        forall|a: int, b: int|
            0 <= a < rows * cols && 0 <= b < rows * cols && a != b && on_border(cols, rect, a)
                && on_border(cols, rect, b) ==> rect_pairs(cols, rect).contains((a, b))
                || rect_pairs(cols, rect).contains((b, a)),
{
    let border = border_cells(cols, rect);
    lemma_border_cells(rows, cols, rect);
    lemma_paired_once(border);
    assert forall|a: int, b: int|
        0 <= a < rows * cols && 0 <= b < rows * cols && a != b && on_border(cols, rect, a)
            && on_border(cols, rect, b) implies rect_pairs(cols, rect).contains((a, b))
        || rect_pairs(cols, rect).contains((b, a)) by {
        let i = choose|i: int| 0 <= i < border.len() && border[i] == a;
        let j = choose|j: int| 0 <= j < border.len() && border[j] == b;
        if i < j {
            lemma_among_contains(border, border.len() as int, i, j);
        } else {
            lemma_among_contains(border, border.len() as int, j, i);
        }
    }
}

/// The border cells of a rectangle in the raster are cells of the raster
/// on the border of the rectangle, each stands there once, and every cell
/// on the border is among them.
pub proof fn lemma_border_cells(rows: int, cols: int, rect: (usize, usize, usize, usize))
    requires
        rect_fits(rect, cols, rows),
    ensures
        border_cells(cols, rect).no_duplicates(),
        forall|k: int|
            0 <= k < border_cells(cols, rect).len() ==> 0 <= #[trigger] border_cells(cols, rect)[k]
                < rows * cols && on_border(cols, rect, border_cells(cols, rect)[k]),
        forall|v: int|
            0 <= v < rows * cols && on_border(cols, rect, v) ==> border_cells(cols, rect).contains(
                v,
            ),
{
    let border = border_cells(cols, rect);
    let left = rect.0 as int;
    let top = rect.1 as int;
    let right = rect.2 as int;
    let bottom = rect.3 as int;
    let high = bottom - top + 1;
    let wide = right - left;
    assert forall|k: int| 0 <= k < border.len() implies {
        let place = border_place(rect, k);
        &&& #[trigger] border[k] == place.1 * cols + place.0
        &&& left <= place.0 <= right
        &&& top <= place.1 <= bottom
        &&& (place.0 == left || place.0 == right || place.1 == top || place.1 == bottom)
    } by {}
    assert forall|k: int| 0 <= k < border.len() implies 0 <= #[trigger] border[k] < rows * cols
        && on_border(cols, rect, border[k]) by {
        let place = border_place(rect, k);
        crate::raster::lemma_cell_of(rows, cols, place.0, place.1);
    }
    assert forall|k: int, m: int| 0 <= k < border.len() && 0 <= m < border.len() && k != m implies border[k]
        != border[m] by {
        let one = border_place(rect, k);
        let other = border_place(rect, m);
        crate::raster::lemma_cell_of(rows, cols, one.0, one.1);
        crate::raster::lemma_cell_of(rows, cols, other.0, other.1);
        assert(one != other);
    }
    assert forall|v: int| 0 <= v < rows * cols && on_border(cols, rect, v) implies border.contains(
        v,
    ) by {
        crate::raster::lemma_cell(rows, cols, v);
        let col = v % cols;
        let row = v / cols;
        let k = if col == left {
            row - top
        } else if row == top {
            high + (col - left - 1)
        } else if col == right {
            high + wide + (row - top - 1)
        } else {
            high + wide + high - 1 + (col - left - 1)
        };
        assert(0 <= k < border.len());
        assert(border_place(rect, k) == (col, row));
        assert(border[k] == v);
    }
}

/// The pairs of border cells of a rectangle that get a shortcut: every
/// border cell with every border cell that comes after it, so that every
/// two border cells are paired once.
pub open spec fn rect_pairs(cols: int, rect: (usize, usize, usize, usize)) -> Seq<(int, int)> {
    pairs_among(border_cells(cols, rect), border_cells(cols, rect).len() as int)
}

/// The two places of `cells` whose cells make pair `k` of `pairs_among`.
pub open spec fn places_of(cells: Seq<int>, upto: int, k: int) -> (int, int)
    decreases upto,
{
    if upto <= 0 {
        (0, 0)
    } else {
        let before = pairs_among(cells, upto - 1).len();
        if k < before {
            places_of(cells, upto - 1, k)
        } else {
            (upto - 1, upto + (k - before))
        }
    }
}

/// Each pair is made of the cells at two places, the earlier first, and
/// later pairs are made of later places.
proof fn lemma_places(cells: Seq<int>, upto: int, k: int, m: int)
    requires
        0 <= upto <= cells.len(),
        0 <= k <= m < pairs_among(cells, upto).len(),
    ensures
        ({
            let one = places_of(cells, upto, k);
            let other = places_of(cells, upto, m);
            &&& 0 <= one.0 < one.1 < cells.len()
            &&& one.0 < upto
            &&& pairs_among(cells, upto)[k] == (cells[one.0], cells[one.1])
            &&& k < m ==> one.0 < other.0 || (one.0 == other.0 && one.1 < other.1)
        }),
    decreases upto,
{
    if upto > 0 {
        let rest = pairs_among(cells, upto - 1);
        let last = fan(cells[upto - 1], cells.skip(upto));
        if m < rest.len() {
            lemma_places(cells, upto - 1, k, m);
        } else if k < rest.len() {
            lemma_places(cells, upto - 1, k, k);
        }
    }
}

/// Cells that are all different are paired once each: no pair joins a cell
/// with itself, and no two pairs join the same two cells, whichever way
/// round.
pub proof fn lemma_paired_once(cells: Seq<int>)
    requires
        cells.no_duplicates(),
    ensures
        forall|k: int|
            0 <= k < pairs_among(cells, cells.len() as int).len() ==> (#[trigger] pairs_among(
                cells,
                cells.len() as int,
            )[k]).0 != pairs_among(cells, cells.len() as int)[k].1,
        forall|k: int, m: int|
            0 <= k < m < pairs_among(cells, cells.len() as int).len() ==> {
                let one = #[trigger] pairs_among(cells, cells.len() as int)[k];
                let other = #[trigger] pairs_among(cells, cells.len() as int)[m];
                one != other && one != (other.1, other.0)
            },
{
    let n = cells.len() as int;
    let pairs = pairs_among(cells, n);
    assert forall|k: int| 0 <= k < pairs.len() implies (#[trigger] pairs[k]).0 != pairs[k].1 by {
        lemma_places(cells, n, k, k);
    }
    assert forall|k: int, m: int| 0 <= k < m < pairs.len() implies {
        let one = #[trigger] pairs[k];
        let other = #[trigger] pairs[m];
        one != other && one != (other.1, other.0)
    } by {
        lemma_places(cells, n, k, m);
        lemma_places(cells, n, m, m);
    }
}

/// The pairs of the first `upto` rectangles, rectangle by rectangle.
pub open spec fn pairs_before(cols: int, rects: Seq<(usize, usize, usize, usize)>, upto: int) -> Seq<
    (int, int),
>
    decreases upto,
{
    if upto <= 0 {
        Seq::empty()
    } else {
        pairs_before(cols, rects, upto - 1) + rect_pairs(cols, rects[upto - 1])
    }
}

impl Graph {
    /// The shortcut between `a` and `b`: as long as the shortest route.
    pub open spec fn shortcut_for(&self, a: int, b: int) -> Shortcut {
        Shortcut {
            from: a as usize,
            to: b as usize,
            distance: self.shortest_distance(self.all_open(), a, b).unwrap() as u32,
        }
    }

    /// The shortcuts of `pairs`, pair by pair; a cell gets none to itself.
    pub open spec fn joined(&self, pairs: Seq<(int, int)>) -> Seq<Shortcut>
        decreases pairs.len(),
    {
        if pairs.len() == 0 {
            Seq::empty()
        } else if pairs.last().0 != pairs.last().1 {
            self.joined(pairs.drop_last()).push(self.shortcut_for(pairs.last().0, pairs.last().1))
        } else {
            self.joined(pairs.drop_last())
        }
    }

    /// A route leads between the two cells of every pair.
    pub open spec fn all_joinable(&self, pairs: Seq<(int, int)>) -> bool {
        forall|k: int|
            0 <= k < pairs.len() && (#[trigger] pairs[k]).0 != pairs[k].1
                ==> self.shortest_distance(self.all_open(), pairs[k].0, pairs[k].1).is_some()
    }

    /// A pair of two distinct cells without a route between them.
    pub open spec fn is_unjoinable(&self, pairs: Seq<(int, int)>, a: int, b: int) -> bool {
        a != b && pairs.contains((a, b)) && self.shortest_distance(self.all_open(), a, b).is_none()
    }

    pub proof fn lemma_joined_concat(&self, first: Seq<(int, int)>, second: Seq<(int, int)>)
        ensures
            self.joined(first + second) == self.joined(first) + self.joined(second),
            self.all_joinable(first + second) <==> self.all_joinable(first) && self.all_joinable(
                second,
            ),
        decreases second.len(),
    {
        if second.len() == 0 {
            assert(first + second =~= first);
        } else {
            self.lemma_joined_concat(first, second.drop_last());
            assert((first + second).drop_last() =~= first + second.drop_last());
            assert((first + second).last() == second.last());
            assert(self.joined(first + second) =~= self.joined(first) + self.joined(second));
        }
        if self.all_joinable(first + second) {
            assert forall|k: int| 0 <= k < first.len() && (#[trigger] first[k]).0 != first[k].1 implies self.shortest_distance(
                self.all_open(),
                first[k].0,
                first[k].1,
            ).is_some() by {
                assert((first + second)[k] == first[k]);
            }
            assert forall|k: int|
                0 <= k < second.len() && (#[trigger] second[k]).0 != second[k].1 implies self.shortest_distance(
                self.all_open(),
                second[k].0,
                second[k].1,
            ).is_some() by {
                assert((first + second)[first.len() + k] == second[k]);
            }
        }
        if self.all_joinable(first) && self.all_joinable(second) {
            assert forall|k: int|
                0 <= k < (first + second).len() && (#[trigger] (first + second)[k]).0 != (first
                    + second)[k].1 implies self.shortest_distance(
                self.all_open(),
                (first + second)[k].0,
                (first + second)[k].1,
            ).is_some() by {
                if k < first.len() {
                    assert((first + second)[k] == first[k]);
                } else {
                    assert((first + second)[k] == second[k - first.len()]);
                }
            }
        }
    }

    /// The cells of column `col` from row `top` through row `bottom`.
    fn column_cells(&self, col: usize, top: usize, bottom: usize) -> (out: Vec<usize>)
        requires
            self.wf(),
            col < self.raster_columns_count,
            top <= bottom < self.raster_rows_count,
        ensures
            out@.map_values(|v: usize| v as int) == column_side(
                self.raster_columns_count as int,
                col as int,
                top as int,
                bottom as int,
            ),
            forall|k: int| 0 <= k < out@.len() ==> #[trigger] out@[k] < self.node_count(),
    {
        let mut out: Vec<usize> = Vec::new();
        let mut row: usize = top;
        while row <= bottom
            invariant
                self.wf(),
                col < self.raster_columns_count,
                top <= row <= bottom + 1,
                bottom < self.raster_rows_count,
                out@.len() == row - top,
                forall|k: int|
                    0 <= k < out@.len() ==> #[trigger] out@[k] == (top + k)
                        * self.raster_columns_count + col && out@[k] < self.node_count(),
            decreases bottom + 1 - row,
        {
            out.push(self.get_index(col, row));
            row += 1;
        }
        proof {
            assert(out@.map_values(|v: usize| v as int) =~= column_side(
                self.raster_columns_count as int,
                col as int,
                top as int,
                bottom as int,
            ));
        }
        out
    }

    /// The cells of row `row` from column `left` through column `right`.
    fn row_cells(&self, row: usize, left: usize, right: usize) -> (out: Vec<usize>)
        requires
            self.wf(),
            row < self.raster_rows_count,
            left <= right < self.raster_columns_count,
        ensures
            out@.map_values(|v: usize| v as int) == row_side(
                self.raster_columns_count as int,
                row as int,
                left as int,
                right as int,
            ),
            forall|k: int| 0 <= k < out@.len() ==> #[trigger] out@[k] < self.node_count(),
    {
        let mut out: Vec<usize> = Vec::new();
        let mut col: usize = left;
        while col <= right
            invariant
                self.wf(),
                row < self.raster_rows_count,
                left <= col <= right + 1,
                right < self.raster_columns_count,
                out@.len() == col - left,
                forall|k: int|
                    0 <= k < out@.len() ==> #[trigger] out@[k] == row * self.raster_columns_count
                        + left + k && out@[k] < self.node_count(),
            decreases right + 1 - col,
        {
            out.push(self.get_index(col, row));
            col += 1;
        }
        proof {
            assert(out@.map_values(|v: usize| v as int) =~= row_side(
                self.raster_columns_count as int,
                row as int,
                left as int,
                right as int,
            ));
        }
        out
    }

    /// Finds the shortest route between `index1` and `index2` and records a
    /// shortcut of that length; a cell gets none to itself.
    pub fn add_edges(
        &self,
        shortcuts: &mut Vec<Shortcut>,
        index1: usize,
        index2: usize,
        state: &mut AlgorithmState,
    ) -> (result: Result<(), OverlayError>)
        requires
            self.wf(),
            self.is_undirected(),
            index1 < self.node_count(),
            index2 < self.node_count(),
            old(state).sized_for(self.node_count()),
        ensures
            final(state).sized_for(self.node_count()),
            match result {
                Ok(_) => final(shortcuts)@ == old(shortcuts)@ + self.joined(
                    seq![(index1 as int, index2 as int)],
                ) && self.all_joinable(seq![(index1 as int, index2 as int)]),
                Err(e) => e == OverlayError::NoPath(index1, index2) && index1 != index2
                    && self.shortest_distance(self.all_open(), index1 as int, index2 as int).is_none()
                    && final(shortcuts)@ == old(shortcuts)@,
            },
    {
        let ghost pair = seq![(index1 as int, index2 as int)];
        proof {
            assert(pair.drop_last() =~= Seq::<(int, int)>::empty());
            reveal_with_fuel(Graph::joined, 2);
        }
        if index1 == index2 {
            proof {
                assert(shortcuts@ + self.joined(pair) =~= shortcuts@);
            }
            return Ok(());
        }
        let found = self.bi_dijkstra(index1, index2, state);
        match found.distance {
            Some(distance) => {
                shortcuts.push(Shortcut { from: index1, to: index2, distance });
                proof {
                    assert(shortcuts@ =~= old(shortcuts)@ + self.joined(pair));
                }
                Ok(())
            },
            None => Err(OverlayError::NoPath(index1, index2)),
        }
    }

    /// Records a shortcut from each of `cells` to each cell that comes after
    /// it.
    fn join_each(
        &self,
        cells: &Vec<usize>,
        shortcuts: &mut Vec<Shortcut>,
        state: &mut AlgorithmState,
    ) -> (result: Result<(), OverlayError>)
        requires
            self.wf(),
            self.is_undirected(),
            forall|k: int| 0 <= k < cells@.len() ==> #[trigger] cells@[k] < self.node_count(),
            old(state).sized_for(self.node_count()),
        ensures
            final(state).sized_for(self.node_count()),
            match result {
                Ok(_) => {
                    let pairs = pairs_among(
                        cells@.map_values(|v: usize| v as int),
                        cells@.len() as int,
                    );
                    final(shortcuts)@ == old(shortcuts)@ + self.joined(pairs) && self.all_joinable(
                        pairs,
                    )
                },
                Err(e) => e matches OverlayError::NoPath(a, b) && self.is_unjoinable(
                    pairs_among(cells@.map_values(|v: usize| v as int), cells@.len() as int),
                    a as int,
                    b as int,
                ),
            },
    {
        let ghost all = cells@.map_values(|v: usize| v as int);
        let mut i: usize = 0;
        proof {
            assert(old(shortcuts)@ + self.joined(pairs_among(all, 0)) =~= old(shortcuts)@);
        }
        while i < cells.len()
            invariant
                self.wf(),
                self.is_undirected(),
                all == cells@.map_values(|v: usize| v as int),
                forall|k: int| 0 <= k < cells@.len() ==> #[trigger] cells@[k] < self.node_count(),
                state.sized_for(self.node_count()),
                i <= cells@.len(),
                shortcuts@ == old(shortcuts)@ + self.joined(pairs_among(all, i as int)),
                self.all_joinable(pairs_among(all, i as int)),
            decreases cells@.len() - i,
        {
            let a: usize = cells[i];
            let ghost done = pairs_among(all, i as int);
            let mut j: usize = i + 1;
            proof {
                assert(all.subrange(i + 1, i + 1) =~= Seq::<int>::empty());
                assert(fan(a as int, all.subrange(i + 1, i + 1)) =~= Seq::<(int, int)>::empty());
                assert(done + fan(a as int, all.subrange(i + 1, i + 1)) =~= done);
            }
            while j < cells.len()
                invariant
                    self.wf(),
                    self.is_undirected(),
                    all == cells@.map_values(|v: usize| v as int),
                    forall|k: int| 0 <= k < cells@.len() ==> #[trigger] cells@[k] < self.node_count(),
                    state.sized_for(self.node_count()),
                    i < cells@.len(),
                    a == cells@[i as int],
                    a < self.node_count(),
                    i < j <= cells@.len(),
                    done == pairs_among(all, i as int),
                    shortcuts@ == old(shortcuts)@ + self.joined(
                        done + fan(a as int, all.subrange(i + 1, j as int)),
                    ),
                    self.all_joinable(done + fan(a as int, all.subrange(i + 1, j as int))),
                decreases cells@.len() - j,
            {
                let b: usize = cells[j];
                let ghost so_far = done + fan(a as int, all.subrange(i + 1, j as int));
                let ghost one = seq![(a as int, b as int)];
                proof {
                    assert(all.subrange(i + 1, j + 1) =~= all.subrange(i + 1, j as int).push(
                        b as int,
                    ));
                    assert(fan(a as int, all.subrange(i + 1, j + 1)) =~= fan(
                        a as int,
                        all.subrange(i + 1, j as int),
                    ) + one);
                    assert(done + fan(a as int, all.subrange(i + 1, j + 1)) =~= so_far + one);
                    self.lemma_joined_concat(so_far, one);
                }
                match self.add_edges(shortcuts, a, b, state) {
                    Ok(_) => {},
                    Err(e) => {
                        proof {
                            lemma_among_contains(all, all.len() as int, i as int, j as int);
                        }
                        return Err(e);
                    },
                }
                proof {
                    assert(shortcuts@ =~= old(shortcuts)@ + (self.joined(so_far) + self.joined(
                        one,
                    )));
                }
                j += 1;
            }
            proof {
                assert(all.subrange(i + 1, cells@.len() as int) =~= all.skip(i + 1));
                assert(pairs_among(all, i + 1) == done + fan(a as int, all.skip(i + 1)));
            }
            i += 1;
        }
        Ok(())
    }

    /// The shortcuts of one rectangle.
    pub fn rect_shortcuts(
        &self,
        rect: &(usize, usize, usize, usize),
        shortcuts: &mut Vec<Shortcut>,
        state: &mut AlgorithmState,
    ) -> (result: Result<(), OverlayError>)
        requires
            self.wf(),
            self.is_undirected(),
            rect_fits(*rect, self.raster_columns_count as int, self.raster_rows_count as int),
            old(state).sized_for(self.node_count()),
        ensures
            final(state).sized_for(self.node_count()),
            match result {
                Ok(_) => final(shortcuts)@ == old(shortcuts)@ + self.joined(
                    rect_pairs(self.raster_columns_count as int, *rect),
                ) && self.all_joinable(rect_pairs(self.raster_columns_count as int, *rect)),
                Err(e) => e matches OverlayError::NoPath(a, b) && self.is_unjoinable(
                    rect_pairs(self.raster_columns_count as int, *rect),
                    a as int,
                    b as int,
                ),
            },
    {
        let ghost cols = self.raster_columns_count as int;
        let mut border = self.column_cells(rect.0, rect.1, rect.3);
        if rect.0 < rect.2 {
            let top = self.row_cells(rect.1, rect.0 + 1, rect.2);
            extend(&mut border, &top);
            if rect.1 < rect.3 {
                let right = self.column_cells(rect.2, rect.1 + 1, rect.3);
                extend(&mut border, &right);
                if rect.0 + 1 < rect.2 {
                    let bottom = self.row_cells(rect.3, rect.0 + 1, rect.2 - 1);
                    extend(&mut border, &bottom);
                }
            }
        }
        proof {
            assert(border@.map_values(|v: usize| v as int) =~= border_cells(cols, *rect));
            lemma_border_cells(self.raster_rows_count as int, cols, *rect);
        }
        self.join_each(&border, shortcuts, state)
    }
}

/// The edges that the shortcuts add to node `i`, shortcut by shortcut: one
/// to the far end of each shortcut that begins or ends at `i`.
pub open spec fn extras_for(shortcuts: Seq<Shortcut>, i: int) -> Seq<Edge>
    decreases shortcuts.len(),
{
    if shortcuts.len() == 0 {
        Seq::empty()
    } else {
        let s = shortcuts.last();
        let out = if s.from == i {
            seq![Edge { destination: s.to as u32, distance: s.distance }]
        } else {
            Seq::empty()
        };
        let back = if s.to == i {
            seq![Edge { destination: s.from as u32, distance: s.distance }]
        } else {
            Seq::empty()
        };
        extras_for(shortcuts.drop_last(), i) + out + back
    }
}

/// Edge `a` comes strictly before edge `b`: it leads to the node of the
/// smaller number, or to the same node and is shorter.
pub open spec fn edge_before(a: Edge, b: Edge) -> bool {
    a.destination < b.destination || (a.destination == b.destination && a.distance < b.distance)
}

/// Edge `a` comes no later than edge `b`.
pub open spec fn edge_no_later(a: Edge, b: Edge) -> bool {
    !edge_before(b, a)
}

/// The edges are in ascending order of their destinations, and edges to one
/// destination in ascending order of their lengths.
pub open spec fn sorted_by_destination(edges: Seq<Edge>) -> bool {
    forall|a: int, b: int|
        0 <= a < b < edges.len() ==> edge_no_later(#[trigger] edges[a], #[trigger] edges[b])
}

/// The edges of the first `upto` lists, list by list.
pub open spec fn flat(lists: Seq<Vec<Edge>>, upto: int) -> Seq<Edge>
    decreases upto,
{
    if upto <= 0 {
        Seq::empty()
    } else {
        flat(lists, upto - 1) + lists[upto - 1]@
    }
}

proof fn lemma_flat_grow(lists: Seq<Vec<Edge>>, i: int, j: int)
    requires
        0 <= i <= j <= lists.len(),
    ensures
        flat(lists, i).len() <= flat(lists, j).len(),
        flat(lists, j).take(flat(lists, i).len() as int) == flat(lists, i),
    decreases j,
{
    if i < j {
        lemma_flat_grow(lists, i, j - 1);
        assert(flat(lists, j).take(flat(lists, i).len() as int) =~= flat(lists, j - 1).take(
            flat(lists, i).len() as int,
        ));
    } else {
        assert(flat(lists, j).take(flat(lists, j).len() as int) =~= flat(lists, j));
    }
}

impl Graph {
    /// The edges of node `i` and the edges that the shortcuts add to it.
    pub open spec fn merged(&self, shortcuts: Seq<Shortcut>, i: int) -> Seq<Edge> {
        self.adjacency(i) + extras_for(shortcuts, i)
    }

    /// How many edges the first `upto` nodes have together with those that
    /// the shortcuts add to them.
    pub open spec fn merged_count(&self, shortcuts: Seq<Shortcut>, upto: int) -> int
        decreases upto,
    {
        if upto <= 0 {
            0
        } else {
            self.merged_count(shortcuts, upto - 1) + self.merged(shortcuts, upto - 1).len()
        }
    }

    /// The first rectangle from number `from` on whose interior holds
    /// `node`.
    pub open spec fn first_rect_from(
        &self,
        rects: Seq<(usize, usize, usize, usize)>,
        node: int,
        from: int,
    ) -> Option<usize>
        decreases rects.len() - from,
    {
        if from >= rects.len() {
            None
        } else if self.inside_rect(node, rects[from]) {
            Some(from as usize)
        } else {
            self.first_rect_from(rects, node, from + 1)
        }
    }

    /// `overlay` is this graph with the shortcuts added: the raster is the
    /// same, the rectangles are `rects`, every node inside a rectangle is
    /// marked with the first such rectangle, and every node has its edges
    /// and those that the shortcuts add to it, in ascending order of their
    /// destinations and, to one destination, of their lengths.
    pub open spec fn is_overlay(
        &self,
        rects: Seq<(usize, usize, usize, usize)>,
        shortcuts: Seq<Shortcut>,
        overlay: Graph,
    ) -> bool {
        &&& overlay.wf()
        &&& overlay.node_count() == self.node_count()
        &&& overlay.raster_columns_count == self.raster_columns_count
        &&& overlay.raster_rows_count == self.raster_rows_count
        &&& overlay.shortcut_rectangles@ == rects
        &&& overlay.offsets@[overlay.node_count()].1.is_none()
        &&& forall|i: int|
            0 <= i < self.node_count() ==> {
                &&& (#[trigger] overlay.offsets@[i]).1 == self.first_rect_from(rects, i, 0)
                &&& sorted_by_destination(overlay.adjacency(i))
                &&& overlay.adjacency(i).to_multiset() == self.merged(shortcuts, i).to_multiset()
            }
    }

    /// Each node's own edges followed by the edges that the shortcuts add.
    fn merge_lists(&self, shortcuts: &Vec<Shortcut>) -> (lists: Vec<Vec<Edge>>)
        requires
            self.wf(),
            forall|k: int|
                0 <= k < shortcuts@.len() ==> (#[trigger] shortcuts@[k]).from < self.node_count()
                    && shortcuts@[k].to < self.node_count(),
        ensures
            lists@.len() == self.node_count(),
            forall|i: int|
                0 <= i < self.node_count() ==> (#[trigger] lists@[i])@ == self.merged(
                    shortcuts@,
                    i,
                ),
    {
        let n: usize = self.offsets.len() - 1;
        let mut lists: Vec<Vec<Edge>> = Vec::new();
        let mut i: usize = 0;
        while i < n
            invariant
                self.wf(),
                n == self.node_count(),
                i <= n,
                lists@.len() == i,
                forall|j: int| 0 <= j < i ==> (#[trigger] lists@[j])@ == self.adjacency(j),
            decreases n - i,
        {
            let first: usize = self.offsets[i].0 as usize;
            let last: usize = self.offsets[i + 1].0 as usize;
            proof {
                assert(self.offsets@[i as int].0 <= self.offsets@[i + 1].0);
                assert(self.offsets@[i + 1].0 <= self.offsets@[n as int].0);
            }
            let mut own: Vec<Edge> = Vec::new();
            let mut e: usize = first;
            while e < last
                invariant
                    first <= e <= last,
                    last <= self.edges@.len(),
                    own@ == self.edges@.subrange(first as int, e as int),
                decreases last - e,
            {
                own.push(self.edges[e]);
                proof {
                    assert(own@ =~= self.edges@.subrange(first as int, e + 1));
                }
                e += 1;
            }
            lists.push(own);
            i += 1;
        }
        let mut k: usize = 0;
        proof {
            assert(shortcuts@.take(0) =~= Seq::<Shortcut>::empty());
            assert forall|j: int| 0 <= j < n implies (#[trigger] lists@[j])@ == self.merged(
                shortcuts@.take(0),
                j,
            ) by {
                assert(self.adjacency(j) + extras_for(shortcuts@.take(0), j) =~= self.adjacency(j));
            }
        }
        while k < shortcuts.len()
            invariant
                self.wf(),
                n == self.node_count(),
                k <= shortcuts@.len(),
                lists@.len() == n,
                forall|m: int|
                    0 <= m < shortcuts@.len() ==> (#[trigger] shortcuts@[m]).from < n
                        && shortcuts@[m].to < n,
                forall|j: int|
                    0 <= j < n ==> (#[trigger] lists@[j])@ == self.merged(
                        shortcuts@.take(k as int),
                        j,
                    ),
            decreases shortcuts@.len() - k,
        {
            let s = shortcuts[k];
            let ghost before = lists@;
            let ghost shorter = shortcuts@.take(k as int);
            let ghost longer = shortcuts@.take(k + 1);
            assert(s.from < n && s.to < n);
            lists[s.from].push(Edge { destination: s.to as u32, distance: s.distance });
            lists[s.to].push(Edge { destination: s.from as u32, distance: s.distance });
            proof {
                assert(longer.drop_last() =~= shorter);
                assert(longer.last() == s);
                assert forall|j: int| 0 <= j < n implies (#[trigger] lists@[j])@ == self.merged(
                    longer,
                    j,
                ) by {
                    assert(before[j]@ == self.merged(shorter, j));
                    assert(lists@[j]@ =~= self.adjacency(j) + extras_for(longer, j));
                }
            }
            k += 1;
        }
        proof {
            assert(shortcuts@.take(shortcuts@.len() as int) =~= shortcuts@);
        }
        lists
    }

    /// For each node the first rectangle whose interior holds it.
    fn memberships(&self, rects: &Vec<(usize, usize, usize, usize)>) -> (marks: Vec<Option<usize>>)
        requires
            self.wf(),
        ensures
            marks@.len() == self.node_count(),
            forall|i: int|
                0 <= i < self.node_count() ==> #[trigger] marks@[i] == self.first_rect_from(
                    rects@,
                    i,
                    0,
                ),
    {
        let n: usize = self.offsets.len() - 1;
        let mut marks: Vec<Option<usize>> = Vec::new();
        let mut i: usize = 0;
        while i < n
            invariant
                self.wf(),
                n == self.node_count(),
                i <= n,
                marks@.len() == i,
                forall|j: int|
                    0 <= j < i ==> #[trigger] marks@[j] == self.first_rect_from(rects@, j, 0),
            decreases n - i,
        {
            assert(self.raster_columns_count > 0) by (nonlinear_arith)
                requires
                    self.raster_rows_count * self.raster_columns_count == self.node_count(),
                    self.node_count() > 0,
            ;
            let mut mark: Option<usize> = None;
            let mut r: usize = 0;
            while r < rects.len()
                invariant_except_break
                    mark is None,
                    self.first_rect_from(rects@, i as int, 0) == self.first_rect_from(
                        rects@,
                        i as int,
                        r as int,
                    ),
                invariant
                    self.raster_columns_count > 0,
                    r <= rects@.len(),
                ensures
                    mark == self.first_rect_from(rects@, i as int, 0),
                decreases rects@.len() - r,
            {
                if self.is_node_inside_rect(i, &rects[r]) {
                    mark = Some(r);
                    break ;
                }
                r += 1;
            }
            marks.push(mark);
            i += 1;
        }
        marks
    }

    /// This graph with `shortcuts` added and `rects` recorded.
    pub fn create_graph_with(
        &self,
        rects: &Vec<(usize, usize, usize, usize)>,
        shortcuts: &Vec<Shortcut>,
    ) -> (result: Result<Graph, OverlayError>)
        requires
            self.wf(),
            forall|k: int|
                0 <= k < shortcuts@.len() ==> (#[trigger] shortcuts@[k]).from < self.node_count()
                    && shortcuts@[k].to < self.node_count(),
        ensures
            match result {
                Ok(overlay) => self.is_overlay(rects@, shortcuts@, overlay) && self.merged_count(
                    shortcuts@,
                    self.node_count(),
                ) <= u32::MAX,
                Err(e) => e == OverlayError::TooManyEdges && self.merged_count(
                    shortcuts@,
                    self.node_count(),
                ) > u32::MAX,
            },
    {
        let n: usize = self.offsets.len() - 1;
        let mut lists = self.merge_lists(shortcuts);
        let marks = self.memberships(rects);
        let mut i: usize = 0;
        proof {
            assert forall|j: int, k: int|
                0 <= j < n && 0 <= k < lists@[j]@.len() implies (#[trigger] lists@[j]@[k]).destination
                < n by {
                self.lemma_merged_in_range(shortcuts@, j, k);
            }
        }
        while i < n
            invariant
                self.wf(),
                n == self.node_count(),
                i <= n,
                lists@.len() == n,
                forall|j: int, k: int|
                    0 <= j < n && 0 <= k < lists@[j]@.len() ==> (#[trigger] lists@[j]@[k]).destination
                        < n,
                forall|j: int|
                    0 <= j < i ==> sorted_by_destination((#[trigger] lists@[j])@) && lists@[j]@.to_multiset()
                        == self.merged(shortcuts@, j).to_multiset(),
                forall|j: int| i <= j < n ==> (#[trigger] lists@[j])@ == self.merged(shortcuts@, j),
            decreases n - i,
        {
            let ghost before = lists@;
            sort_by_destination(&mut lists[i]);
            proof {
                assert forall|j: int, k: int|
                    0 <= j < n && 0 <= k < lists@[j]@.len() implies (
                #[trigger] lists@[j]@[k]).destination < n by {
                    if j == i {
                        assert(lists@[j]@.contains(lists@[j]@[k]));
                        let at = choose|at: int|
                            0 <= at < before[j]@.len() && before[j]@[at] == lists@[j]@[k];
                        assert(before[j]@[at].destination < n);
                    } else {
                        assert(lists@[j] == before[j]);
                    }
                }
            }
            i += 1;
        }
        let mut overlay = Graph {
            offsets: Vec::new(),
            edges: Vec::new(),
            raster_columns_count: self.raster_columns_count,
            raster_rows_count: self.raster_rows_count,
            shortcut_rectangles: copy_rects(rects),
        };
        proof {
            broadcast use vstd::seq_lib::group_to_multiset_ensures;

            assert forall|j: int| 0 <= j < n implies (#[trigger] lists@[j])@.len() == self.merged(
                shortcuts@,
                j,
            ).len() by {
                assert(lists@[j]@.to_multiset().len() == self.merged(shortcuts@, j).to_multiset().len());
            }
        }
        let mut i: usize = 0;
        while i < n
            invariant
                self.wf(),
                n == self.node_count(),
                i <= n,
                lists@.len() == n,
                marks@.len() == n,
                overlay.raster_columns_count == self.raster_columns_count,
                overlay.raster_rows_count == self.raster_rows_count,
                overlay.shortcut_rectangles@ == rects@,
                forall|j: int|
                    0 <= j < n ==> (#[trigger] lists@[j])@.len() == self.merged(shortcuts@, j).len(),
                forall|j: int, k: int|
                    0 <= j < n && 0 <= k < lists@[j]@.len() ==> (#[trigger] lists@[j]@[k]).destination
                        < n,
                overlay.offsets@.len() == i,
                overlay.edges@ == flat(lists@, i as int),
                overlay.edges@.len() == self.merged_count(shortcuts@, i as int),
                overlay.edges@.len() <= u32::MAX,
                forall|j: int|
                    0 <= j < i ==> (#[trigger] overlay.offsets@[j]).0 == flat(lists@, j).len()
                        && overlay.offsets@[j].1 == marks@[j],
            decreases n - i,
        {
            let list = &lists[i];
            if list.len() > u32::MAX as usize - overlay.edges.len() {
                proof {
                    lemma_count_grows(self, shortcuts@, i + 1, n as int);
                }
                return Err(OverlayError::TooManyEdges);
            }
            overlay.offsets.push((overlay.edges.len() as u32, marks[i]));
            let mut e: usize = 0;
            let ghost base = overlay.edges@;
            while e < list.len()
                invariant
                    e <= list@.len(),
                    overlay.edges@ == base + list@.take(e as int),
                    overlay.raster_columns_count == self.raster_columns_count,
                    overlay.raster_rows_count == self.raster_rows_count,
                    overlay.shortcut_rectangles@ == rects@,
                    overlay.offsets@.len() == i + 1,
                    forall|j: int|
                        0 <= j < i + 1 ==> (#[trigger] overlay.offsets@[j]).0 == flat(lists@, j).len()
                            && overlay.offsets@[j].1 == marks@[j],
                decreases list@.len() - e,
            {
                overlay.edges.push(list[e]);
                proof {
                    assert(list@.take(e + 1) =~= list@.take(e as int).push(list@[e as int]));
                    assert(overlay.edges@ =~= base + list@.take(e + 1));
                }
                e += 1;
            }
            proof {
                assert(list@.take(list@.len() as int) =~= list@);
            }
            i += 1;
        }
        overlay.offsets.push((overlay.edges.len() as u32, None));
        proof {
            assert forall|a: int, b: int| 0 <= a <= b <= overlay.node_count() implies (
            #[trigger] overlay.offsets@[a]).0 <= (#[trigger] overlay.offsets@[b]).0 by {
                lemma_flat_grow(lists@, a, b);
            }
            assert forall|k: int| 0 <= k < overlay.edges@.len() implies (
            #[trigger] overlay.edges@[k]).destination < overlay.node_count() by {
                lemma_flat_in_range(lists@, n as int, n as int, k);
            }
            assert forall|j: int| 0 <= j < n implies #[trigger] overlay.adjacency(j) == lists@[j]@ by {
                lemma_flat_grow(lists@, j, j + 1);
                lemma_flat_grow(lists@, j + 1, n as int);
                let upto = flat(lists@, j + 1);
                let first = flat(lists@, j);
                assert(overlay.edges@.take(upto.len() as int) == upto);
                assert(overlay.adjacency(j) =~= upto.subrange(first.len() as int, upto.len() as int));
                assert(upto.subrange(first.len() as int, upto.len() as int) =~= lists@[j]@);
            }
            assert forall|j: int| 0 <= j < self.node_count() implies {
                &&& (#[trigger] overlay.offsets@[j]).1 == self.first_rect_from(rects@, j, 0)
                &&& sorted_by_destination(overlay.adjacency(j))
                &&& overlay.adjacency(j).to_multiset() == self.merged(shortcuts@, j).to_multiset()
            } by {
                assert(overlay.adjacency(j) == lists@[j]@);
            }
        }
        Ok(overlay)
    }

    /// This graph with a shortcut between every two border cells of each
    /// rectangle. Fails where a rectangle does not
    /// lie in the raster, where no route leads between two border cells, or
    /// where the edges would be too many to count.
    pub fn create_graph(&self, rects: &Vec<(usize, usize, usize, usize)>) -> (result: Result<
        Graph,
        OverlayError,
    >)
        requires
            self.wf(),
            self.is_undirected(),
        ensures
            match result {
                Ok(overlay) => {
                    let pairs = pairs_before(
                        self.raster_columns_count as int,
                        rects@,
                        rects@.len() as int,
                    );
                    &&& forall|k: int|
                        0 <= k < rects@.len() ==> rect_fits(
                            #[trigger] rects@[k],
                            self.raster_columns_count as int,
                            self.raster_rows_count as int,
                        )
                    &&& self.all_joinable(pairs)
                    &&& self.merged_count(self.joined(pairs), self.node_count()) <= u32::MAX
                    &&& self.is_overlay(rects@, self.joined(pairs), overlay)
                },
                Err(OverlayError::OutOfRaster(k)) => k < rects@.len() && !rect_fits(
                    rects@[k as int],
                    self.raster_columns_count as int,
                    self.raster_rows_count as int,
                ) && forall|j: int|
                    0 <= j < k ==> rect_fits(
                        #[trigger] rects@[j],
                        self.raster_columns_count as int,
                        self.raster_rows_count as int,
                    ),
                Err(OverlayError::NoPath(a, b)) => (forall|k: int|
                    0 <= k < rects@.len() ==> rect_fits(
                        #[trigger] rects@[k],
                        self.raster_columns_count as int,
                        self.raster_rows_count as int,
                    )) && self.is_unjoinable(
                    pairs_before(self.raster_columns_count as int, rects@, rects@.len() as int),
                    a as int,
                    b as int,
                ),
                Err(OverlayError::TooManyEdges) => (forall|k: int|
                    0 <= k < rects@.len() ==> rect_fits(
                        #[trigger] rects@[k],
                        self.raster_columns_count as int,
                        self.raster_rows_count as int,
                    )) && self.all_joinable(
                    pairs_before(self.raster_columns_count as int, rects@, rects@.len() as int),
                ) && self.merged_count(
                    self.joined(
                        pairs_before(self.raster_columns_count as int, rects@, rects@.len() as int),
                    ),
                    self.node_count(),
                ) > u32::MAX,
            },
    {
        let ghost cols = self.raster_columns_count as int;
        let mut k: usize = 0;
        while k < rects.len()
            invariant
                k <= rects@.len(),
                forall|j: int|
                    0 <= j < k ==> rect_fits(
                        #[trigger] rects@[j],
                        self.raster_columns_count as int,
                        self.raster_rows_count as int,
                    ),
            decreases rects@.len() - k,
        {
            if !self.holds_rect(&rects[k]) {
                return Err(OverlayError::OutOfRaster(k));
            }
            k += 1;
        }
        let mut state = AlgorithmState::new(self.offsets.len() - 1);
        let mut shortcuts: Vec<Shortcut> = Vec::new();
        let mut k: usize = 0;
        proof {
            assert(shortcuts@ =~= self.joined(pairs_before(cols, rects@, 0)));
        }
        while k < rects.len()
            invariant
                self.wf(),
                self.is_undirected(),
                cols == self.raster_columns_count,
                k <= rects@.len(),
                state.sized_for(self.node_count()),
                forall|j: int|
                    0 <= j < rects@.len() ==> rect_fits(
                        #[trigger] rects@[j],
                        self.raster_columns_count as int,
                        self.raster_rows_count as int,
                    ),
                shortcuts@ == self.joined(pairs_before(cols, rects@, k as int)),
                self.all_joinable(pairs_before(cols, rects@, k as int)),
            decreases rects@.len() - k,
        {
            let ghost done = pairs_before(cols, rects@, k as int);
            let ghost more = rect_pairs(cols, rects@[k as int]);
            proof {
                self.lemma_joined_concat(done, more);
                lemma_pairs_grow(self, cols, rects@, k + 1, rects@.len() as int);
            }
            match self.rect_shortcuts(&rects[k], &mut shortcuts, &mut state) {
                Ok(_) => {},
                Err(e) => {
                    proof {
                        let a = e->NoPath_0 as int;
                        let b = e->NoPath_1 as int;
                        lemma_contains_in_concat(done, more, a, b);
                        lemma_pairs_contain(cols, rects@, k + 1, rects@.len() as int, a, b);
                    }
                    return Err(e);
                },
            }
            k += 1;
        }
        proof {
            self.lemma_pairs_in_range(rects@, rects@.len() as int);
            self.lemma_joined_in_range(pairs_before(cols, rects@, rects@.len() as int));
        }
        self.create_graph_with(rects, &shortcuts)
    }

    /// Every cell of every pair of rectangles that lie in the raster is a
    /// node.
    pub proof fn lemma_pairs_in_range(&self, rects: Seq<(usize, usize, usize, usize)>, upto: int)
        requires
            self.wf(),
            0 <= upto <= rects.len(),
            forall|j: int|
                0 <= j < rects.len() ==> rect_fits(
                    #[trigger] rects[j],
                    self.raster_columns_count as int,
                    self.raster_rows_count as int,
                ),
        ensures
            pairs_in_range(
                pairs_before(self.raster_columns_count as int, rects, upto),
                self.node_count(),
            ),
        decreases upto,
    {
        let cols = self.raster_columns_count as int;
        let rows = self.raster_rows_count as int;
        if upto > 0 {
            self.lemma_pairs_in_range(rects, upto - 1);
            let rect = rects[upto - 1];
            assert(rect_fits(rect, cols, rows));
            let n = self.node_count();
            let border = border_cells(cols, rect);
            lemma_border_cells(rows, cols, rect);
            lemma_among_in_range(border, border.len() as int, n);
            lemma_concat_in_range(pairs_before(cols, rects, upto - 1), rect_pairs(cols, rect), n);
        }
    }

    /// The shortcuts of pairs of nodes lie between nodes.
    pub proof fn lemma_joined_in_range(&self, pairs: Seq<(int, int)>)
        requires
            self.wf(),
            pairs_in_range(pairs, self.node_count()),
        ensures
            forall|k: int|
                0 <= k < self.joined(pairs).len() ==> (#[trigger] self.joined(pairs)[k]).from
                    < self.node_count() && self.joined(pairs)[k].to < self.node_count(),
        decreases pairs.len(),
    {
        if pairs.len() > 0 {
            let shorter = pairs.drop_last();
            assert(pairs_in_range(shorter, self.node_count())) by {
                assert forall|k: int| 0 <= k < shorter.len() implies 0 <= (#[trigger] shorter[k]).0
                    < self.node_count() && 0 <= shorter[k].1 < self.node_count() by {
                    assert(shorter[k] == pairs[k]);
                }
            }
            self.lemma_joined_in_range(shorter);
            let last = pairs[pairs.len() - 1];
            assert(0 <= last.0 < self.node_count() && 0 <= last.1 < self.node_count());
            let all = self.joined(pairs);
            let rest = self.joined(shorter);
            assert forall|k: int| 0 <= k < all.len() implies (#[trigger] all[k]).from
                < self.node_count() && all[k].to < self.node_count() by {
                if k < rest.len() {
                    assert(all[k] == rest[k]);
                } else {
                    assert(all[k] == self.shortcut_for(last.0, last.1));
                }
            }
        }
    }

    /// Every edge of a node and every edge that shortcuts between nodes add
    /// to it leads to a node.
    pub proof fn lemma_merged_in_range(&self, shortcuts: Seq<Shortcut>, i: int, k: int)
        requires
            self.wf(),
            0 <= i < self.node_count(),
            forall|m: int|
                0 <= m < shortcuts.len() ==> (#[trigger] shortcuts[m]).from < self.node_count()
                    && shortcuts[m].to < self.node_count(),
            0 <= k < self.merged(shortcuts, i).len(),
        ensures
            self.merged(shortcuts, i)[k].destination < self.node_count(),
    {
        let own = self.adjacency(i);
        assert(self.offsets@[i].0 <= self.offsets@[i + 1].0);
        assert(self.offsets@[i + 1].0 <= self.offsets@[self.node_count()].0);
        if k < own.len() {
            assert(own[k] == self.edges@[self.offsets@[i].0 + k]);
        } else {
            lemma_extras_in_range(shortcuts, i, self.node_count(), k - own.len());
        }
    }
}

/// Both cells of every pair are nodes of a graph with `n` nodes.
pub open spec fn pairs_in_range(pairs: Seq<(int, int)>, n: int) -> bool {
    forall|k: int|
        0 <= k < pairs.len() ==> 0 <= (#[trigger] pairs[k]).0 < n && 0 <= pairs[k].1 < n
}

proof fn lemma_concat_in_range(first: Seq<(int, int)>, second: Seq<(int, int)>, n: int)
    requires
        pairs_in_range(first, n),
        pairs_in_range(second, n),
    ensures
        pairs_in_range(first + second, n),
{
    assert forall|k: int| 0 <= k < (first + second).len() implies 0 <= (#[trigger] (first
        + second)[k]).0 < n && 0 <= (first + second)[k].1 < n by {
        if k < first.len() {
            assert((first + second)[k] == first[k]);
        } else {
            assert((first + second)[k] == second[k - first.len()]);
        }
    }
}

proof fn lemma_extras_in_range(shortcuts: Seq<Shortcut>, i: int, n: int, k: int)
    requires
        n <= u32::MAX,
        forall|m: int|
            0 <= m < shortcuts.len() ==> (#[trigger] shortcuts[m]).from < n && shortcuts[m].to < n,
        0 <= k < extras_for(shortcuts, i).len(),
    ensures
        extras_for(shortcuts, i)[k].destination < n,
    decreases shortcuts.len(),
{
    if shortcuts.len() > 0 {
        let s = shortcuts.last();
        let shorter = shortcuts.drop_last();
        let rest = extras_for(shorter, i);
        assert(s.from < n && s.to < n);
        if k < rest.len() {
            assert forall|m: int| 0 <= m < shorter.len() implies (#[trigger] shorter[m]).from < n
                && shorter[m].to < n by {
                assert(shorter[m] == shortcuts[m]);
            }
            lemma_extras_in_range(shorter, i, n, k);
        }
    }
}

proof fn lemma_among_in_range(cells: Seq<int>, upto: int, n: int)
    requires
        0 <= upto <= cells.len(),
        forall|k: int| 0 <= k < cells.len() ==> 0 <= #[trigger] cells[k] < n,
    ensures
        pairs_in_range(pairs_among(cells, upto), n),
    decreases upto,
{
    if upto > 0 {
        lemma_among_in_range(cells, upto - 1, n);
        let last = fan(cells[upto - 1], cells.skip(upto));
        assert forall|k: int| 0 <= k < last.len() implies 0 <= (#[trigger] last[k]).0 < n && 0
            <= last[k].1 < n by {
            assert(last[k] == (cells[upto - 1], cells[upto + k]));
        }
        lemma_concat_in_range(pairs_among(cells, upto - 1), last, n);
    }
}

/// What the pairs of the first rectangles contain, the pairs of more
/// rectangles contain too.
proof fn lemma_pairs_contain(
    cols: int,
    rects: Seq<(usize, usize, usize, usize)>,
    i: int,
    j: int,
    a: int,
    b: int,
)
    requires
        0 <= i <= j <= rects.len(),
        pairs_before(cols, rects, i).contains((a, b)),
    ensures
        pairs_before(cols, rects, j).contains((a, b)),
    decreases j,
{
    if i < j {
        lemma_pairs_contain(cols, rects, i, j - 1, a, b);
        lemma_contains_in_concat(pairs_before(cols, rects, j - 1), rect_pairs(cols, rects[j - 1]), a, b);
    }
}

proof fn lemma_pairs_grow(
    g: &Graph,
    cols: int,
    rects: Seq<(usize, usize, usize, usize)>,
    i: int,
    j: int,
)
    requires
        0 <= i <= j <= rects.len(),
    ensures
        g.all_joinable(pairs_before(cols, rects, j)) ==> g.all_joinable(pairs_before(cols, rects, i)),
    decreases j,
{
    if i < j {
        lemma_pairs_grow(g, cols, rects, i, j - 1);
        g.lemma_joined_concat(pairs_before(cols, rects, j - 1), rect_pairs(cols, rects[j - 1]));
    }
}

proof fn lemma_count_grows(g: &Graph, shortcuts: Seq<Shortcut>, i: int, j: int)
    requires
        0 <= i <= j,
    ensures
        g.merged_count(shortcuts, i) <= g.merged_count(shortcuts, j),
    decreases j,
{
    if i < j {
        lemma_count_grows(g, shortcuts, i, j - 1);
    }
}

proof fn lemma_flat_in_range(lists: Seq<Vec<Edge>>, upto: int, n: int, k: int)
    requires
        0 <= upto <= lists.len(),
        forall|j: int, m: int|
            0 <= j < lists.len() && 0 <= m < lists[j]@.len() ==> (#[trigger] lists[j]@[m]).destination
                < n,
        0 <= k < flat(lists, upto).len(),
    ensures
        flat(lists, upto)[k].destination < n,
    decreases upto,
{
    if upto > 0 {
        if k < flat(lists, upto - 1).len() {
            lemma_flat_in_range(lists, upto - 1, n, k);
        } else {
            let m = k - flat(lists, upto - 1).len();
            assert(flat(lists, upto)[k] == lists[upto - 1]@[m]);
        }
    }
}

/// Whether edge `a` comes strictly before edge `b`.
fn comes_before(a: &Edge, b: &Edge) -> (r: bool)
    ensures
        r == edge_before(*a, *b),
{
    a.destination < b.destination || (a.destination == b.destination && a.distance < b.distance)
}

/// Sorts `list` by destination, and edges to one destination by length.
pub fn sort_by_destination(list: &mut Vec<Edge>)
    ensures
        sorted_by_destination(final(list)@),
        final(list)@.to_multiset() == old(list)@.to_multiset(),
        final(list)@.len() == old(list)@.len(),
        forall|x: Edge| final(list)@.contains(x) ==> old(list)@.contains(x),
{
    let n: usize = list.len();
    let mut i: usize = 1;
    while i < n
        invariant
            n == list@.len(),
            1 <= i,
            list@.to_multiset() == old(list)@.to_multiset(),
            n == old(list)@.len(),
            forall|a: int, b: int|
                0 <= a < b < i && b < n ==> edge_no_later(#[trigger] list@[a], #[trigger] list@[b]),
        decreases n - i,
    {
        let mut j: usize = i;
        while j > 0 && comes_before(&list[j], &list[j - 1])
            invariant
                n == list@.len(),
                j <= i < n,
                list@.to_multiset() == old(list)@.to_multiset(),
                n == old(list)@.len(),
                forall|a: int, b: int|
                    0 <= a < b <= i && a != j && b != j ==> edge_no_later(
                        #[trigger] list@[a],
                        #[trigger] list@[b],
                    ),
                forall|b: int| j < b <= i ==> edge_before(list@[j as int], #[trigger] list@[b]),
            decreases j,
        {
            let ghost before = list@;
            let here = list[j];
            let earlier = list[j - 1];
            proof {
                lemma_swap_keeps_multiset(list@, j as int, j - 1);
            }
            list[j] = earlier;
            list[j - 1] = here;
            proof {
                assert(list@ == before.update(j as int, before[j - 1]).update(
                    j - 1,
                    before[j as int],
                ));
                assert forall|a: int, b: int|
                    0 <= a < b <= i && a != j - 1 && b != j - 1 implies edge_no_later(
                    #[trigger] list@[a],
                    #[trigger] list@[b],
                ) by {
                    if a == j {
                        assert(edge_no_later(before[j - 1], before[b]));
                    } else if b == j {
                        assert(edge_no_later(before[a], before[j - 1]));
                    } else {
                        assert(edge_no_later(before[a], before[b]));
                    }
                }
                assert forall|b: int| j - 1 < b <= i implies edge_before(
                    list@[j - 1],
                    #[trigger] list@[b],
                ) by {
                    if b > j {
                        assert(edge_before(before[j as int], before[b]));
                    }
                }
            }
            j -= 1;
        }
        i += 1;
    }
    proof {
        broadcast use vstd::seq_lib::group_to_multiset_ensures;

        assert forall|x: Edge| list@.contains(x) implies old(list)@.contains(x) by {
            assert(list@.to_multiset().count(x) > 0);
        }
    }
}

/// Two lists that hold the same edges in sorted order are the same list.
pub proof fn lemma_sorted_edges_unique(first: Seq<Edge>, second: Seq<Edge>)
    requires
        sorted_by_destination(first),
        sorted_by_destination(second),
        first.to_multiset() == second.to_multiset(),
    ensures
        first == second,
{
    let leq = |a: Edge, b: Edge| edge_no_later(a, b);
    assert(vstd::relations::total_ordering(leq)) by {
        assert(vstd::relations::reflexive(leq));
        assert(vstd::relations::antisymmetric(leq)) by {
            assert forall|a: Edge, b: Edge| #[trigger] leq(a, b) && #[trigger] leq(b, a) implies a
                == b by {}
        }
        assert(vstd::relations::transitive(leq));
        assert(vstd::relations::strongly_connected(leq));
    }
    assert(vstd::relations::sorted_by(first, leq));
    assert(vstd::relations::sorted_by(second, leq));
    vstd::seq_lib::lemma_sorted_unique(first, second, leq);
}

impl Graph {
    /// The shortcut of every pair of two distinct cells is among the
    /// shortcuts of the pairs.
    pub proof fn lemma_joined_has(&self, pairs: Seq<(int, int)>, k: int)
        requires
            0 <= k < pairs.len(),
            pairs[k].0 != pairs[k].1,
        ensures
            self.joined(pairs).contains(self.shortcut_for(pairs[k].0, pairs[k].1)),
        decreases pairs.len(),
    {
        let rest = self.joined(pairs.drop_last());
        let all = self.joined(pairs);
        if k == pairs.len() - 1 {
            assert(all[all.len() - 1] == self.shortcut_for(pairs[k].0, pairs[k].1));
        } else {
            assert(pairs.drop_last()[k] == pairs[k]);
            self.lemma_joined_has(pairs.drop_last(), k);
            let m = choose|m: int|
                0 <= m < rest.len() && rest[m] == self.shortcut_for(pairs[k].0, pairs[k].1);
            assert(all[m] == rest[m]);
        }
    }

    /// Every two distinct cells on the border of a rectangle are joined in
    /// the overlay, both ways, by an edge as long as the shortest route
    /// between them.
    pub proof fn lemma_border_cells_joined(
        &self,
        rects: Seq<(usize, usize, usize, usize)>,
        overlay: Graph,
        r: int,
        a: int,
        b: int,
    )
        requires
            self.wf(),
            self.is_undirected(),
            forall|j: int|
                0 <= j < rects.len() ==> rect_fits(
                    #[trigger] rects[j],
                    self.raster_columns_count as int,
                    self.raster_rows_count as int,
                ),
            self.all_joinable(
                pairs_before(self.raster_columns_count as int, rects, rects.len() as int),
            ),
            self.is_overlay(
                rects,
                self.joined(
                    pairs_before(self.raster_columns_count as int, rects, rects.len() as int),
                ),
                overlay,
            ),
            0 <= r < rects.len(),
            0 <= a < self.node_count(),
            0 <= b < self.node_count(),
            a != b,
            on_border(self.raster_columns_count as int, rects[r], a),
            on_border(self.raster_columns_count as int, rects[r], b),
        ensures
            self.shortest_distance(self.all_open(), a, b) matches Some(d) && overlay.has_edge(
                a,
                b,
                d,
            ) && overlay.has_edge(b, a, d),
    {
        let cols = self.raster_columns_count as int;
        let rows = self.raster_rows_count as int;
        let pairs = pairs_before(cols, rects, rects.len() as int);
        let border = border_cells(cols, rects[r]);
        lemma_border_cells(rows, cols, rects[r]);
        let i = choose|i: int| 0 <= i < border.len() && border[i] == a;
        let j = choose|j: int| 0 <= j < border.len() && border[j] == b;
        self.lemma_distance_symmetric(a, b);
        if i < j {
            self.lemma_pair_joined(rects, overlay, r, i, j);
        } else {
            self.lemma_pair_joined(rects, overlay, r, j, i);
        }
    }

    /// The border cells at two places of a rectangle's border are joined in
    /// the overlay, both ways, by an edge as long as the shortest route from
    /// the earlier to the later.
    proof fn lemma_pair_joined(
        &self,
        rects: Seq<(usize, usize, usize, usize)>,
        overlay: Graph,
        r: int,
        i: int,
        j: int,
    )
        requires
            self.wf(),
            forall|m: int|
                0 <= m < rects.len() ==> rect_fits(
                    #[trigger] rects[m],
                    self.raster_columns_count as int,
                    self.raster_rows_count as int,
                ),
            self.all_joinable(
                pairs_before(self.raster_columns_count as int, rects, rects.len() as int),
            ),
            self.is_overlay(
                rects,
                self.joined(
                    pairs_before(self.raster_columns_count as int, rects, rects.len() as int),
                ),
                overlay,
            ),
            0 <= r < rects.len(),
            0 <= i < j < border_cells(self.raster_columns_count as int, rects[r]).len(),
        ensures
            ({
                let border = border_cells(self.raster_columns_count as int, rects[r]);
                self.shortest_distance(self.all_open(), border[i], border[j]) matches Some(d)
                    && overlay.has_edge(border[i], border[j], d) && overlay.has_edge(
                    border[j],
                    border[i],
                    d,
                )
            }),
    {
        broadcast use vstd::seq_lib::group_to_multiset_ensures;

        let cols = self.raster_columns_count as int;
        let rows = self.raster_rows_count as int;
        let n = self.node_count();
        let pairs = pairs_before(cols, rects, rects.len() as int);
        let border = border_cells(cols, rects[r]);
        let a = border[i];
        let b = border[j];
        lemma_border_cells(rows, cols, rects[r]);
        assert(a != b);
        lemma_among_contains(border, border.len() as int, i, j);
        lemma_contains_in_concat(pairs_before(cols, rects, r), rect_pairs(cols, rects[r]), a, b);
        lemma_pairs_contain(cols, rects, r + 1, rects.len() as int, a, b);
        let k = choose|k: int| 0 <= k < pairs.len() && pairs[k] == (a, b);
        self.lemma_joined_has(pairs, k);
        let shortcuts = self.joined(pairs);
        let sc = self.shortcut_for(a, b);
        let m = choose|m: int| 0 <= m < shortcuts.len() && shortcuts[m] == sc;
        let d = self.shortest_distance(self.all_open(), a, b).unwrap();
        self.lemma_distance_is_shortest(self.all_open(), a, b);
        assert(0 <= d < u32::MAX);
        lemma_shortcut_gives_extras(shortcuts, m);
        let out = Edge { destination: b as u32, distance: d as u32 };
        let back = Edge { destination: a as u32, distance: d as u32 };
        assert(sc.from as int == a && sc.to as int == b && sc.distance == d as u32);
        let from_a = extras_for(shortcuts, a);
        let from_b = extras_for(shortcuts, b);
        let at = choose|at: int| 0 <= at < from_a.len() && from_a[at] == out;
        assert(self.merged(shortcuts, a)[self.adjacency(a).len() + at] == out);
        let at2 = choose|at2: int| 0 <= at2 < from_b.len() && from_b[at2] == back;
        assert(self.merged(shortcuts, b)[self.adjacency(b).len() + at2] == back);
        overlay.lemma_holds_edge(self.merged(shortcuts, a), a, out);
        overlay.lemma_holds_edge(self.merged(shortcuts, b), b, back);
    }

    /// A node whose edges are those of `all` in some order has an edge for
    /// each of them.
    pub proof fn lemma_holds_edge(&self, all: Seq<Edge>, u: int, edge: Edge)
        requires
            self.wf(),
            0 <= u < self.node_count(),
            self.adjacency(u).to_multiset() == all.to_multiset(),
            all.contains(edge),
        ensures
            self.has_edge(u, edge.destination as int, edge.distance as int),
    {
        broadcast use vstd::seq_lib::group_to_multiset_ensures;

        let n = self.node_count();
        assert(self.offsets@[u].0 <= self.offsets@[u + 1].0);
        assert(self.offsets@[u + 1].0 <= self.offsets@[n].0);
        assert(all.to_multiset().count(edge) > 0);
        assert(self.adjacency(u).to_multiset().count(edge) > 0);
        assert(self.adjacency(u).contains(edge));
        let q = choose|q: int| 0 <= q < self.adjacency(u).len() && self.adjacency(u)[q] == edge;
        let k = self.offsets@[u].0 + q;
        assert(self.edges@[k] == edge);
        assert(self.leaves(k, u));
    }

    /// The edges of a node of an overlay are fixed by the graph, the
    /// rectangles and the shortcuts.
    pub proof fn lemma_overlay_unique(
        &self,
        rects: Seq<(usize, usize, usize, usize)>,
        shortcuts: Seq<Shortcut>,
        one: Graph,
        other: Graph,
        i: int,
    )
        requires
            self.is_overlay(rects, shortcuts, one),
            self.is_overlay(rects, shortcuts, other),
            0 <= i < self.node_count(),
        ensures
            one.adjacency(i) == other.adjacency(i),
            one.offsets@[i].1 == other.offsets@[i].1,
    {
        assert(one.offsets@[i].1 == self.first_rect_from(rects, i, 0));
        assert(other.offsets@[i].1 == self.first_rect_from(rects, i, 0));
        lemma_sorted_edges_unique(one.adjacency(i), other.adjacency(i));
    }
}

/// The number of the first rectangle of `rects` that overlaps `rect`.
pub fn find_colliding_rect(
    rects: &Vec<(usize, usize, usize, usize)>,
    rect: (usize, usize, usize, usize),
) -> (found: Option<usize>)
    ensures
        match found {
            Some(i) => i < rects@.len() && overlaps(rects@[i as int], rect) && forall|j: int|
                0 <= j < i ==> !overlaps(#[trigger] rects@[j], rect),
            None => forall|j: int| 0 <= j < rects@.len() ==> !overlaps(#[trigger] rects@[j], rect),
        },
{
    let mut i: usize = 0;
    while i < rects.len()
        invariant
            i <= rects@.len(),
            forall|j: int| 0 <= j < i ==> !overlaps(#[trigger] rects@[j], rect),
        decreases rects@.len() - i,
    {
        let other = rects[i];
        if rect.0 < other.2 && rect.2 > other.0 && rect.1 < other.3 && rect.3 > other.1 {
            return Some(i);
        }
        i += 1;
    }
    None
}

/// Two rectangles, each given as (left, top, right, bottom), share more
/// than a border.
pub open spec fn overlaps(
    placed: (usize, usize, usize, usize),
    rect: (usize, usize, usize, usize),
) -> bool {
    rect.0 < placed.2 && rect.2 > placed.0 && rect.1 < placed.3 && rect.3 > placed.1
}

/// A copy of `rects`.
fn copy_rects(rects: &Vec<(usize, usize, usize, usize)>) -> (out: Vec<(usize, usize, usize, usize)>)
    ensures
        out@ == rects@,
{
    let mut out: Vec<(usize, usize, usize, usize)> = Vec::new();
    let mut k: usize = 0;
    while k < rects.len()
        invariant
            k <= rects@.len(),
            out@ == rects@.take(k as int),
        decreases rects@.len() - k,
    {
        out.push(rects[k]);
        proof {
            assert(out@ =~= rects@.take(k + 1));
        }
        k += 1;
    }
    proof {
        assert(rects@.take(rects@.len() as int) =~= rects@);
    }
    out
}

/// Appends the cells of `more` to `cells`.
fn extend(cells: &mut Vec<usize>, more: &Vec<usize>)
    ensures
        final(cells)@ == old(cells)@ + more@,
{
    let mut k: usize = 0;
    while k < more.len()
        invariant
            k <= more@.len(),
            cells@ == old(cells)@ + more@.take(k as int),
        decreases more@.len() - k,
    {
        cells.push(more[k]);
        proof {
            assert(more@.take(k + 1) =~= more@.take(k as int).push(more@[k as int]));
            assert(cells@ =~= old(cells)@ + more@.take(k + 1));
        }
        k += 1;
    }
    proof {
        assert(more@.take(more@.len() as int) =~= more@);
    }
}

/// The cells at two places of `cells` are paired, the earlier one first.
pub proof fn lemma_among_contains(cells: Seq<int>, upto: int, i: int, j: int)
    requires
        0 <= i < j < cells.len(),
        i < upto <= cells.len(),
    ensures
        pairs_among(cells, upto).contains((cells[i], cells[j])),
    decreases upto,
{
    let rest = pairs_among(cells, upto - 1);
    let last = fan(cells[upto - 1], cells.skip(upto));
    if i == upto - 1 {
        assert(last[j - i - 1] == (cells[i], cells[j]));
        assert((rest + last)[rest.len() + j - i - 1] == (cells[i], cells[j]));
    } else {
        lemma_among_contains(cells, upto - 1, i, j);
        let k = choose|k: int| 0 <= k < rest.len() && rest[k] == (cells[i], cells[j]);
        assert((rest + last)[k] == (cells[i], cells[j]));
    }
}

/// A shortcut adds an edge to each of its two cells, to the other cell.
proof fn lemma_shortcut_gives_extras(shortcuts: Seq<Shortcut>, m: int)
    requires
        0 <= m < shortcuts.len(),
    ensures
        extras_for(shortcuts, shortcuts[m].from as int).contains(
            Edge { destination: shortcuts[m].to as u32, distance: shortcuts[m].distance },
        ),
        extras_for(shortcuts, shortcuts[m].to as int).contains(
            Edge { destination: shortcuts[m].from as u32, distance: shortcuts[m].distance },
        ),
    decreases shortcuts.len(),
{
    let sc = shortcuts[m];
    let out = Edge { destination: sc.to as u32, distance: sc.distance };
    let back = Edge { destination: sc.from as u32, distance: sc.distance };
    let shorter = shortcuts.drop_last();
    let last = shortcuts.last();
    let from_all = extras_for(shortcuts, sc.from as int);
    let to_all = extras_for(shortcuts, sc.to as int);
    if m == shortcuts.len() - 1 {
        let base = extras_for(shorter, sc.from as int);
        assert(from_all[base.len() as int] == out);
        let base2 = extras_for(shorter, sc.to as int);
        if sc.from == sc.to {
            assert(to_all[base2.len() as int] == back);
        } else {
            assert(to_all[base2.len() as int] == back);
        }
    } else {
        assert(shorter[m] == sc);
        lemma_shortcut_gives_extras(shorter, m);
        let base = extras_for(shorter, sc.from as int);
        let at = choose|at: int| 0 <= at < base.len() && base[at] == out;
        assert(from_all[at] == out);
        let base2 = extras_for(shorter, sc.to as int);
        let at2 = choose|at2: int| 0 <= at2 < base2.len() && base2[at2] == back;
        assert(to_all[at2] == back);
    }
}

/// What one of two sequences contains, both together contain.
proof fn lemma_contains_in_concat(first: Seq<(int, int)>, second: Seq<(int, int)>, a: int, b: int)
    requires
        first.contains((a, b)) || second.contains((a, b)),
    ensures
        (first + second).contains((a, b)),
{
    if first.contains((a, b)) {
        let k = choose|k: int| 0 <= k < first.len() && first[k] == (a, b);
        assert((first + second)[k] == (a, b));
    } else {
        let k = choose|k: int| 0 <= k < second.len() && second[k] == (a, b);
        assert((first + second)[first.len() + k] == (a, b));
    }
}

} // verus!
