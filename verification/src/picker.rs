//! Placing a shortcut rectangle by hand: from a chosen cell the rectangle
//! grows to all four sides for as long as it takes in water only and stays
//! clear of the rectangles placed before.

use crate::crossing::rects_apart;
use crate::graph::Graph;
use crate::overlay::{find_colliding_rect, overlaps};
use crate::raster::{lemma_cell, lemma_cell_of};
use vstd::prelude::*;

verus! {

/// The number of the cell in column `col` of row `row`.
pub open spec fn cell_in(cols: int, col: int, row: int) -> int {
    row * cols + col
}

/// One of the placed rectangles overlaps `rect`.
pub open spec fn collides(
    placed: Seq<(usize, usize, usize, usize)>,
    rect: (usize, usize, usize, usize),
) -> bool {
    exists|i: int| 0 <= i < placed.len() && overlaps(#[trigger] placed[i], rect)
}

/// Rectangle `i` is the first of the placed ones that overlaps `rect`.
pub open spec fn is_first_overlap(
    placed: Seq<(usize, usize, usize, usize)>,
    rect: (usize, usize, usize, usize),
    i: int,
) -> bool {
    &&& 0 <= i < placed.len()
    &&& overlaps(placed[i], rect)
    &&& forall|j: int| 0 <= j < i ==> !overlaps(#[trigger] placed[j], rect)
}

/// `outer` holds `inner`.
pub open spec fn holds(
    outer: (usize, usize, usize, usize),
    inner: (usize, usize, usize, usize),
) -> bool {
    outer.0 <= inner.0 && outer.1 <= inner.1 && inner.2 <= outer.2 && inner.3 <= outer.3
}

/// What overlaps a rectangle overlaps every rectangle that holds it.
pub proof fn lemma_collision_grows(
    placed: Seq<(usize, usize, usize, usize)>,
    inner: (usize, usize, usize, usize),
    outer: (usize, usize, usize, usize),
)
    requires
        collides(placed, inner),
        holds(outer, inner),
    ensures
        collides(placed, outer),
{
    let i = choose|i: int| 0 <= i < placed.len() && overlaps(#[trigger] placed[i], inner);
    assert(overlaps(placed[i], outer));
}

/// A rectangle in the making and the sides of it that are done growing.
pub struct Growth {
    pub left: usize,
    pub top: usize,
    pub right: usize,
    pub bottom: usize,
    pub is_left_done: bool,
    pub is_top_done: bool,
    pub is_right_done: bool,
    pub is_bottom_done: bool,
}

impl Growth {
    /// The rectangle as it stands.
    pub open spec fn rect(self) -> (usize, usize, usize, usize) {
        (self.left, self.top, self.right, self.bottom)
    }

    /// No side is left to grow.
    pub open spec fn is_done(self) -> bool {
        self.is_left_done && self.is_top_done && self.is_right_done && self.is_bottom_done
    }
}

impl Graph {
    /// Some cell of column `col` between the rows `top` and `bottom` is not
    /// water.
    pub open spec fn column_has_land(&self, col: int, top: int, bottom: int) -> bool {
        exists|row: int|
            top <= row <= bottom && !self.is_water_node(
                #[trigger] cell_in(self.raster_columns_count as int, col, row),
            )
    }

    /// Some cell of row `row` between the columns `left` and `right` is not
    /// water.
    pub open spec fn row_has_land(&self, row: int, left: int, right: int) -> bool {
        exists|col: int|
            left <= col <= right && !self.is_water_node(
                #[trigger] cell_in(self.raster_columns_count as int, col, row),
            )
    }

    /// Every cell of `rect` but `cell` is water.
    pub open spec fn is_water_around(&self, rect: (usize, usize, usize, usize), cell: int) -> bool {
        forall|col: int, row: int|
            rect.0 <= col <= rect.2 && rect.1 <= row <= rect.3 && #[trigger] cell_in(
                self.raster_columns_count as int,
                col,
                row,
            ) != cell ==> self.is_water_node(cell_in(self.raster_columns_count as int, col, row))
    }

    /// The rectangle cannot grow to the west: it touches the first column,
    /// or the column to its west holds land, or one column wider it would
    /// overlap a placed rectangle.
    pub open spec fn blocked_left(
        &self,
        placed: Seq<(usize, usize, usize, usize)>,
        r: (usize, usize, usize, usize),
    ) -> bool {
        r.0 == 0 || self.column_has_land(r.0 - 1, r.1 as int, r.3 as int) || collides(
            placed,
            ((r.0 - 1) as usize, r.1, r.2, r.3),
        )
    }

    /// The rectangle cannot grow to the north.
    pub open spec fn blocked_top(
        &self,
        placed: Seq<(usize, usize, usize, usize)>,
        r: (usize, usize, usize, usize),
    ) -> bool {
        r.1 == 0 || self.row_has_land(r.1 - 1, r.0 as int, r.2 as int) || collides(
            placed,
            (r.0, (r.1 - 1) as usize, r.2, r.3),
        )
    }

    /// The rectangle cannot grow to the east.
    pub open spec fn blocked_right(
        &self,
        placed: Seq<(usize, usize, usize, usize)>,
        r: (usize, usize, usize, usize),
    ) -> bool {
        r.2 == self.raster_columns_count - 1 || self.column_has_land(
            r.2 + 1,
            r.1 as int,
            r.3 as int,
        ) || collides(placed, (r.0, r.1, (r.2 + 1) as usize, r.3))
    }

    /// The rectangle cannot grow to the south.
    pub open spec fn blocked_bottom(
        &self,
        placed: Seq<(usize, usize, usize, usize)>,
        r: (usize, usize, usize, usize),
    ) -> bool {
        r.3 == self.raster_rows_count - 1 || self.row_has_land(r.3 + 1, r.0 as int, r.2 as int)
            || collides(placed, (r.0, r.1, r.2, (r.3 + 1) as usize))
    }

    /// `r` lies in the raster, holds `cell`, is water but for `cell` and
    /// overlaps none of the placed rectangles.
    pub open spec fn is_clear(
        &self,
        placed: Seq<(usize, usize, usize, usize)>,
        cell: int,
        r: (usize, usize, usize, usize),
    ) -> bool {
        let col = cell % (self.raster_columns_count as int);
        let row = cell / (self.raster_columns_count as int);
        &&& r.0 <= col <= r.2 < self.raster_columns_count
        &&& r.1 <= row <= r.3 < self.raster_rows_count
        &&& self.is_water_around(r, cell)
        &&& !collides(placed, r)
    }

    /// The single cell `cell`, with the sides done that lie on the rim of
    /// the raster.
    pub open spec fn start_growth(&self, cell: int) -> Growth {
        let col = (cell % (self.raster_columns_count as int)) as usize;
        let row = (cell / (self.raster_columns_count as int)) as usize;
        Growth {
            left: col,
            top: row,
            right: col,
            bottom: row,
            is_left_done: col == 0,
            is_top_done: row == 0,
            is_right_done: col == self.raster_columns_count - 1,
            is_bottom_done: row == self.raster_rows_count - 1,
        }
    }

    /// The growth after its turn to the west: a side that is done stays; a
    /// blocked side is done; else the rectangle takes in the column to its
    /// west, and is done on that side where it has come to the first column.
    pub open spec fn after_left(&self, placed: Seq<(usize, usize, usize, usize)>, g: Growth) -> Growth {
        if g.is_left_done {
            g
        } else if self.blocked_left(placed, g.rect()) {
            Growth { is_left_done: true, ..g }
        } else {
            Growth { left: (g.left - 1) as usize, is_left_done: g.left == 1, ..g }
        }
    }

    /// The growth after its turn to the north.
    pub open spec fn after_top(&self, placed: Seq<(usize, usize, usize, usize)>, g: Growth) -> Growth {
        if g.is_top_done {
            g
        } else if self.blocked_top(placed, g.rect()) {
            Growth { is_top_done: true, ..g }
        } else {
            Growth { top: (g.top - 1) as usize, is_top_done: g.top == 1, ..g }
        }
    }

    /// The growth after its turn to the east.
    pub open spec fn after_right(&self, placed: Seq<(usize, usize, usize, usize)>, g: Growth) -> Growth {
        if g.is_right_done {
            g
        } else if self.blocked_right(placed, g.rect()) {
            Growth { is_right_done: true, ..g }
        } else {
            Growth {
                right: (g.right + 1) as usize,
                is_right_done: g.right + 1 == self.raster_columns_count - 1,
                ..g
            }
        }
    }

    /// The growth after its turn to the south.
    pub open spec fn after_bottom(&self, placed: Seq<(usize, usize, usize, usize)>, g: Growth) -> Growth {
        if g.is_bottom_done {
            g
        } else if self.blocked_bottom(placed, g.rect()) {
            Growth { is_bottom_done: true, ..g }
        } else {
            Growth {
                bottom: (g.bottom + 1) as usize,
                is_bottom_done: g.bottom + 1 == self.raster_rows_count - 1,
                ..g
            }
        }
    }

    /// The growth from `cell` after `rounds` rounds of one turn to the west,
    /// the north, the east and the south each.
    pub open spec fn grown_after(
        &self,
        placed: Seq<(usize, usize, usize, usize)>,
        cell: int,
        rounds: nat,
    ) -> Growth
        decreases rounds,
    {
        if rounds == 0 {
            self.start_growth(cell)
        } else {
            self.after_bottom(
                placed,
                self.after_right(
                    placed,
                    self.after_top(
                        placed,
                        self.after_left(placed, self.grown_after(placed, cell, (rounds - 1) as nat)),
                    ),
                ),
            )
        }
    }

    /// The growth from `cell` is done after `rounds` rounds and not before,
    /// and has then come to `r`.
    pub open spec fn is_growth_end(
        &self,
        placed: Seq<(usize, usize, usize, usize)>,
        cell: int,
        rounds: nat,
        r: (usize, usize, usize, usize),
    ) -> bool {
        &&& forall|i: nat| i < rounds ==> !(#[trigger] self.grown_after(placed, cell, i)).is_done()
        &&& self.grown_after(placed, cell, rounds).is_done()
        &&& self.grown_after(placed, cell, rounds).rect() == r
    }

    /// `r` is the rectangle that grows from `cell`.
    pub open spec fn grows_to(
        &self,
        placed: Seq<(usize, usize, usize, usize)>,
        cell: int,
        r: (usize, usize, usize, usize),
    ) -> bool {
        exists|rounds: nat| #[trigger] self.is_growth_end(placed, cell, rounds, r)
    }

    /// Only one rectangle grows from a cell.
    pub proof fn lemma_growth_unique(
        &self,
        placed: Seq<(usize, usize, usize, usize)>,
        cell: int,
        r: (usize, usize, usize, usize),
        s: (usize, usize, usize, usize),
    )
        requires
            self.grows_to(placed, cell, r),
            self.grows_to(placed, cell, s),
        ensures
            r == s,
    {
        let a = choose|rounds: nat| #[trigger] self.is_growth_end(placed, cell, rounds, r);
        let b = choose|rounds: nat| #[trigger] self.is_growth_end(placed, cell, rounds, s);
        if a < b {
            assert(!self.grown_after(placed, cell, a).is_done());
        }
        if b < a {
            assert(!self.grown_after(placed, cell, b).is_done());
        }
    }

    /// `r` is clear and cannot grow to any side.
    pub open spec fn is_grown(
        &self,
        placed: Seq<(usize, usize, usize, usize)>,
        cell: int,
        r: (usize, usize, usize, usize),
    ) -> bool {
        &&& self.is_clear(placed, cell, r)
        &&& self.blocked_left(placed, r)
        &&& self.blocked_top(placed, r)
        &&& self.blocked_right(placed, r)
        &&& self.blocked_bottom(placed, r)
    }

    /// Whether some cell of column `col` between the rows `top` and `bottom`
    /// is not water.
    fn has_land_in_column(&self, col: usize, top: usize, bottom: usize) -> (r: bool)
        requires
            self.wf(),
            col < self.raster_columns_count,
            top <= bottom < self.raster_rows_count,
        ensures
            r == self.column_has_land(col as int, top as int, bottom as int),
    {
        let mut row: usize = top;
        while row <= bottom
            invariant
                self.wf(),
                col < self.raster_columns_count,
                top <= row <= bottom + 1,
                bottom < self.raster_rows_count,
                forall|w: int|
                    top <= w < row ==> self.is_water_node(
                        #[trigger] cell_in(self.raster_columns_count as int, col as int, w),
                    ),
            decreases bottom + 1 - row,
        {
            if !self.is_water(self.get_index(col, row)) {
                proof {
                    assert(!self.is_water_node(
                        cell_in(self.raster_columns_count as int, col as int, row as int),
                    ));
                }
                return true;
            }
            row += 1;
        }
        false
    }

    /// Whether some cell of row `row` between the columns `left` and `right`
    /// is not water.
    fn has_land_in_row(&self, row: usize, left: usize, right: usize) -> (r: bool)
        requires
            self.wf(),
            row < self.raster_rows_count,
            left <= right < self.raster_columns_count,
        ensures
            r == self.row_has_land(row as int, left as int, right as int),
    {
        let mut col: usize = left;
        while col <= right
            invariant
                self.wf(),
                row < self.raster_rows_count,
                left <= col <= right + 1,
                right < self.raster_columns_count,
                forall|c: int|
                    left <= c < col ==> self.is_water_node(
                        #[trigger] cell_in(self.raster_columns_count as int, c, row as int),
                    ),
            decreases right + 1 - col,
        {
            if !self.is_water(self.get_index(col, row)) {
                proof {
                    assert(!self.is_water_node(
                        cell_in(self.raster_columns_count as int, col as int, row as int),
                    ));
                }
                return true;
            }
            col += 1;
        }
        false
    }

    /// Places or removes a rectangle at the cell `clicked_pos`. Where the
    /// cell lies in a placed rectangle, the first such rectangle is removed.
    /// Else a rectangle grows from the cell, in turn to the west, north,
    /// east and south, each time by one column or row of water that overlaps
    /// no placed rectangle, until no side can grow; it is placed unless it
    /// is only one column wide or one row high. A side that has once failed
    /// to grow is done for good, so the turns fix which rectangle it is.
    /// Rectangles of which no two overlap stay so.
    pub fn place_rectangle(&self, placed: &mut Vec<(usize, usize, usize, usize)>, clicked_pos: usize)
        requires
            self.wf(),
            clicked_pos < self.node_count(),
        ensures
            rects_apart(old(placed)@) ==> rects_apart(final(placed)@),
            ({
                let col = (clicked_pos % self.raster_columns_count) as usize;
                let row = (clicked_pos / self.raster_columns_count) as usize;
                if collides(old(placed)@, (col, row, col, row)) {
                    exists|i: int| #[trigger]
                        is_first_overlap(old(placed)@, (col, row, col, row), i) && final(placed)@
                            == old(placed)@.remove(i)
                } else {
                    exists|r: (usize, usize, usize, usize)| #[trigger]
                        self.is_grown(old(placed)@, clicked_pos as int, r) && self.grows_to(
                            old(placed)@,
                            clicked_pos as int,
                            r,
                        ) && final(placed)@ == if r.0 == r.2 || r.1 == r.3 {
                            old(placed)@
                        } else {
                            old(placed)@.push(r)
                        }
                }
            }),
    {
        proof {
            lemma_cell(
                self.raster_rows_count as int,
                self.raster_columns_count as int,
                clicked_pos as int,
            );
        }
        let cols: usize = self.raster_columns_count;
        let rows: usize = self.raster_rows_count;
        let mut left: usize = clicked_pos % cols;
        let mut right: usize = left;
        let mut top: usize = clicked_pos / cols;
        let mut bottom: usize = top;
        let ghost before = placed@;

        match find_colliding_rect(placed, (left, top, right, bottom)) {
            Some(rect) => {
                placed.remove(rect);
                proof {
                    assert(is_first_overlap(before, (left, top, right, bottom), rect as int));
                    if rects_apart(before) {
                        assert forall|i: int, j: int|
                            0 <= i < placed@.len() && 0 <= j < placed@.len() && i != j implies !overlaps(
                            #[trigger] placed@[i],
                            #[trigger] placed@[j],
                        ) by {
                            let a = if i < rect { i } else { i + 1 };
                            let b = if j < rect { j } else { j + 1 };
                            assert(placed@[i] == before[a] && placed@[j] == before[b]);
                        }
                    }
                }
                return ;
            },
            None => {},
        }
        let mut g = Growth {
            left,
            top,
            right,
            bottom,
            is_left_done: left == 0,
            is_top_done: top == 0,
            is_right_done: right == cols - 1,
            is_bottom_done: bottom == rows - 1,
        };
        proof {
            assert(self.is_water_around((left, top, right, bottom), clicked_pos as int)) by {
                assert forall|c: int, w: int|
                    left <= c <= right && top <= w <= bottom && #[trigger] cell_in(
                        cols as int,
                        c,
                        w,
                    ) != clicked_pos implies self.is_water_node(cell_in(cols as int, c, w)) by {}
            }
        }
        let ghost mut rounds: nat = 0;
        while !g.is_left_done || !g.is_top_done || !g.is_right_done || !g.is_bottom_done
            invariant
                self.wf(),
                placed@ == before,
                self.growth_ok(before, clicked_pos as int, g),
                g == self.grown_after(before, clicked_pos as int, rounds),
                forall|i: nat|
                    i < rounds ==> !(#[trigger] self.grown_after(
                        before,
                        clicked_pos as int,
                        i,
                    )).is_done(),
            decreases self.room(g),
        {
            let ghost g0 = g;
            if !g.is_left_done {
                self.grow_left(placed, &mut g, Ghost(clicked_pos as int));
            }
            if !g.is_top_done {
                self.grow_top(placed, &mut g, Ghost(clicked_pos as int));
            }
            if !g.is_right_done {
                self.grow_right(placed, &mut g, Ghost(clicked_pos as int));
            }
            if !g.is_bottom_done {
                self.grow_bottom(placed, &mut g, Ghost(clicked_pos as int));
            }
            proof {
                assert(!g0.is_done());
                assert(g == self.grown_after(before, clicked_pos as int, rounds + 1));
                rounds = rounds + 1;
            }
        }
        proof {
            assert(self.is_grown(before, clicked_pos as int, g.rect()));
            assert(self.is_growth_end(before, clicked_pos as int, rounds, g.rect()));
        }
        if g.left == g.right || g.top == g.bottom {
            return ;
        }
        placed.push((g.left, g.top, g.right, g.bottom));
        proof {
            if rects_apart(before) {
                let grown = g.rect();
                assert forall|i: int, j: int|
                    0 <= i < placed@.len() && 0 <= j < placed@.len() && i != j implies !overlaps(
                    #[trigger] placed@[i],
                    #[trigger] placed@[j],
                ) by {
                    if i < before.len() && j < before.len() {
                        assert(placed@[i] == before[i] && placed@[j] == before[j]);
                    } else if i < before.len() {
                        assert(placed@[i] == before[i]);
                        assert(!overlaps(before[i], grown));
                    } else {
                        assert(placed@[j] == before[j]);
                        assert(!overlaps(before[j], grown));
                    }
                }
            }
        }
    }

    /// The rectangle in the making is clear, a side that may still grow has
    /// room to grow, and a side that is done cannot grow.
    spec fn growth_ok(&self, placed: Seq<(usize, usize, usize, usize)>, cell: int, g: Growth) -> bool {
        &&& self.is_clear(placed, cell, g.rect())
        &&& (!g.is_left_done ==> g.left > 0)
        &&& (!g.is_top_done ==> g.top > 0)
        &&& (!g.is_right_done ==> g.right < self.raster_columns_count - 1)
        &&& (!g.is_bottom_done ==> g.bottom < self.raster_rows_count - 1)
        &&& (g.is_left_done ==> self.blocked_left(placed, g.rect()))
        &&& (g.is_top_done ==> self.blocked_top(placed, g.rect()))
        &&& (g.is_right_done ==> self.blocked_right(placed, g.rect()))
        &&& (g.is_bottom_done ==> self.blocked_bottom(placed, g.rect()))
    }

    /// The columns and rows left to grow into, and one for each side that is
    /// not done.
    spec fn room(&self, g: Growth) -> int {
        g.left + (self.raster_columns_count - 1 - g.right) + g.top + (self.raster_rows_count - 1
            - g.bottom) + (if g.is_left_done {
            0int
        } else {
            1int
        }) + (if g.is_top_done {
            0int
        } else {
            1int
        }) + (if g.is_right_done {
            0int
        } else {
            1int
        }) + (if g.is_bottom_done {
            0int
        } else {
            1int
        })
    }

    /// One step to the west: the rectangle takes in the column to its west,
    /// or its west side is done.
    fn grow_left(
        &self,
        placed: &Vec<(usize, usize, usize, usize)>,
        g: &mut Growth,
        Ghost(cell): Ghost<int>,
    )
        requires
            self.wf(),
            self.growth_ok(placed@, cell, *old(g)),
            !old(g).is_left_done,
        ensures
            self.growth_ok(placed@, cell, *final(g)),
            0 <= self.room(*final(g)) < self.room(*old(g)),
            *final(g) == self.after_left(placed@, *old(g)),
    {
        let wider = (g.left - 1, g.top, g.right, g.bottom);
        if self.has_land_in_column(g.left - 1, g.top, g.bottom) || find_colliding_rect(
            placed,
            wider,
        ).is_some() {
            g.is_left_done = true;
        } else {
            proof {
                self.lemma_grown_by_column(placed@, cell, g.rect(), wider, g.left - 1);
                self.lemma_still_blocked(
                    placed@,
                    g.rect(),
                    wider,
                    false,
                    g.is_top_done,
                    g.is_right_done,
                    g.is_bottom_done,
                );
            }
            g.left -= 1;
            if g.left == 0 {
                g.is_left_done = true;
            }
        }
    }

    /// One step to the north.
    fn grow_top(
        &self,
        placed: &Vec<(usize, usize, usize, usize)>,
        g: &mut Growth,
        Ghost(cell): Ghost<int>,
    )
        requires
            self.wf(),
            self.growth_ok(placed@, cell, *old(g)),
            !old(g).is_top_done,
        ensures
            self.growth_ok(placed@, cell, *final(g)),
            0 <= self.room(*final(g)) < self.room(*old(g)),
            *final(g) == self.after_top(placed@, *old(g)),
    {
        let wider = (g.left, g.top - 1, g.right, g.bottom);
        if self.has_land_in_row(g.top - 1, g.left, g.right) || find_colliding_rect(
            placed,
            wider,
        ).is_some() {
            g.is_top_done = true;
        } else {
            proof {
                self.lemma_grown_by_row(placed@, cell, g.rect(), wider, g.top - 1);
                self.lemma_still_blocked(
                    placed@,
                    g.rect(),
                    wider,
                    g.is_left_done,
                    false,
                    g.is_right_done,
                    g.is_bottom_done,
                );
            }
            g.top -= 1;
            if g.top == 0 {
                g.is_top_done = true;
            }
        }
    }

    /// One step to the east.
    fn grow_right(
        &self,
        placed: &Vec<(usize, usize, usize, usize)>,
        g: &mut Growth,
        Ghost(cell): Ghost<int>,
    )
        requires
            self.wf(),
            self.growth_ok(placed@, cell, *old(g)),
            !old(g).is_right_done,
        ensures
            self.growth_ok(placed@, cell, *final(g)),
            0 <= self.room(*final(g)) < self.room(*old(g)),
            *final(g) == self.after_right(placed@, *old(g)),
    {
        let wider = (g.left, g.top, g.right + 1, g.bottom);
        if self.has_land_in_column(g.right + 1, g.top, g.bottom) || find_colliding_rect(
            placed,
            wider,
        ).is_some() {
            g.is_right_done = true;
        } else {
            proof {
                self.lemma_grown_by_column(placed@, cell, g.rect(), wider, g.right + 1);
                self.lemma_still_blocked(
                    placed@,
                    g.rect(),
                    wider,
                    g.is_left_done,
                    g.is_top_done,
                    false,
                    g.is_bottom_done,
                );
            }
            g.right += 1;
            if g.right == self.raster_columns_count - 1 {
                g.is_right_done = true;
            }
        }
    }

    /// One step to the south.
    fn grow_bottom(
        &self,
        placed: &Vec<(usize, usize, usize, usize)>,
        g: &mut Growth,
        Ghost(cell): Ghost<int>,
    )
        requires
            self.wf(),
            self.growth_ok(placed@, cell, *old(g)),
            !old(g).is_bottom_done,
        ensures
            self.growth_ok(placed@, cell, *final(g)),
            0 <= self.room(*final(g)) < self.room(*old(g)),
            *final(g) == self.after_bottom(placed@, *old(g)),
    {
        let wider = (g.left, g.top, g.right, g.bottom + 1);
        if self.has_land_in_row(g.bottom + 1, g.left, g.right) || find_colliding_rect(
            placed,
            wider,
        ).is_some() {
            g.is_bottom_done = true;
        } else {
            proof {
                self.lemma_grown_by_row(placed@, cell, g.rect(), wider, g.bottom + 1);
                self.lemma_still_blocked(
                    placed@,
                    g.rect(),
                    wider,
                    g.is_left_done,
                    g.is_top_done,
                    g.is_right_done,
                    false,
                );
            }
            g.bottom += 1;
            if g.bottom == self.raster_rows_count - 1 {
                g.is_bottom_done = true;
            }
        }
    }

    /// A clear rectangle that takes in one more column of water and still
    /// overlaps no placed rectangle is clear.
    proof fn lemma_grown_by_column(
        &self,
        placed: Seq<(usize, usize, usize, usize)>,
        cell: int,
        r: (usize, usize, usize, usize),
        wider: (usize, usize, usize, usize),
        col: int,
    )
        requires
            self.is_clear(placed, cell, r),
            wider.1 == r.1 && wider.3 == r.3,
            (wider.0 == col && col == r.0 - 1 && wider.2 == r.2) || (wider.2 == col && col == r.2
                + 1 && wider.0 == r.0),
            0 <= col < self.raster_columns_count,
            !self.column_has_land(col, r.1 as int, r.3 as int),
            !collides(placed, wider),
        ensures
            self.is_clear(placed, cell, wider),
    {
        let cols = self.raster_columns_count as int;
        assert forall|c: int, w: int|
            wider.0 <= c <= wider.2 && wider.1 <= w <= wider.3 && #[trigger] cell_in(cols, c, w)
                != cell implies self.is_water_node(cell_in(cols, c, w)) by {
            if c == col {
                assert(self.is_water_node(cell_in(cols, col, w)));
            }
        }
    }

    /// A clear rectangle that takes in one more row of water and still
    /// overlaps no placed rectangle is clear.
    proof fn lemma_grown_by_row(
        &self,
        placed: Seq<(usize, usize, usize, usize)>,
        cell: int,
        r: (usize, usize, usize, usize),
        wider: (usize, usize, usize, usize),
        row: int,
    )
        requires
            self.is_clear(placed, cell, r),
            wider.0 == r.0 && wider.2 == r.2,
            (wider.1 == row && row == r.1 - 1 && wider.3 == r.3) || (wider.3 == row && row == r.3
                + 1 && wider.1 == r.1),
            0 <= row < self.raster_rows_count,
            !self.row_has_land(row, r.0 as int, r.2 as int),
            !collides(placed, wider),
        ensures
            self.is_clear(placed, cell, wider),
    {
        let cols = self.raster_columns_count as int;
        assert forall|c: int, w: int|
            wider.0 <= c <= wider.2 && wider.1 <= w <= wider.3 && #[trigger] cell_in(cols, c, w)
                != cell implies self.is_water_node(cell_in(cols, c, w)) by {
            if w == row {
                assert(self.is_water_node(cell_in(cols, c, row)));
            }
        }
    }

    /// A side that cannot grow still cannot grow when the rectangle has
    /// grown to another side.
    proof fn lemma_still_blocked(
        &self,
        placed: Seq<(usize, usize, usize, usize)>,
        r: (usize, usize, usize, usize),
        wider: (usize, usize, usize, usize),
        left: bool,
        top: bool,
        right: bool,
        bottom: bool,
    )
        requires
            holds(wider, r),
            r.0 <= r.2,
            r.1 <= r.3,
            left ==> wider.0 == r.0 && self.blocked_left(placed, r),
            top ==> wider.1 == r.1 && self.blocked_top(placed, r),
            right ==> wider.2 == r.2 && self.blocked_right(placed, r),
            bottom ==> wider.3 == r.3 && self.blocked_bottom(placed, r),
        ensures
            left ==> self.blocked_left(placed, wider),
            top ==> self.blocked_top(placed, wider),
            right ==> self.blocked_right(placed, wider),
            bottom ==> self.blocked_bottom(placed, wider),
    {
        let cols = self.raster_columns_count as int;
        if left && r.0 > 0 {
            if self.column_has_land(r.0 - 1, r.1 as int, r.3 as int) {
                let w = choose|w: int|
                    r.1 <= w <= r.3 && !self.is_water_node(#[trigger] cell_in(cols, r.0 - 1, w));
                assert(!self.is_water_node(cell_in(cols, wider.0 - 1, w)));
            } else {
                lemma_collision_grows(
                    placed,
                    ((r.0 - 1) as usize, r.1, r.2, r.3),
                    ((wider.0 - 1) as usize, wider.1, wider.2, wider.3),
                );
            }
        }
        if top && r.1 > 0 {
            if self.row_has_land(r.1 - 1, r.0 as int, r.2 as int) {
                let c = choose|c: int|
                    r.0 <= c <= r.2 && !self.is_water_node(#[trigger] cell_in(cols, c, r.1 - 1));
                assert(!self.is_water_node(cell_in(cols, c, wider.1 - 1)));
            } else {
                lemma_collision_grows(
                    placed,
                    (r.0, (r.1 - 1) as usize, r.2, r.3),
                    (wider.0, (wider.1 - 1) as usize, wider.2, wider.3),
                );
            }
        }
        if right && r.2 != self.raster_columns_count - 1 {
            if self.column_has_land(r.2 + 1, r.1 as int, r.3 as int) {
                let w = choose|w: int|
                    r.1 <= w <= r.3 && !self.is_water_node(#[trigger] cell_in(cols, r.2 + 1, w));
                assert(!self.is_water_node(cell_in(cols, wider.2 + 1, w)));
            } else {
                lemma_collision_grows(
                    placed,
                    (r.0, r.1, (r.2 + 1) as usize, r.3),
                    (wider.0, wider.1, (wider.2 + 1) as usize, wider.3),
                );
            }
        }
        if bottom && r.3 != self.raster_rows_count - 1 {
            if self.row_has_land(r.3 + 1, r.0 as int, r.2 as int) {
                let c = choose|c: int|
                    r.0 <= c <= r.2 && !self.is_water_node(#[trigger] cell_in(cols, c, r.3 + 1));
                assert(!self.is_water_node(cell_in(cols, c, wider.3 + 1)));
            } else {
                lemma_collision_grows(
                    placed,
                    (r.0, r.1, r.2, (r.3 + 1) as usize),
                    (wider.0, wider.1, wider.2, (wider.3 + 1) as usize),
                );
            }
        }
    }
}

} // verus!
