//! The board: a fixed-size rectangular grid of cells advanced by
//! Conway's rule with non-toroidal edges.

use vstd::prelude::*;
use vstd::arithmetic::div_mod::{
    lemma_fundamental_div_mod, lemma_fundamental_div_mod_converse,
    lemma_fundamental_div_mod_converse_mod, lemma_mod_bound, lemma_mod_multiples_basic,
};
use vstd::arithmetic::mul::lemma_mul_is_distributive_add_other_way;

verus! {

/// The state of one grid position.
#[derive(Clone, Copy, Debug, PartialEq, Eq, Structural)]
pub enum Cell {
    Alive,
    Dead,
}

/// Why a board could not be constructed.
#[derive(Clone, Copy, Debug, PartialEq, Eq, Structural)]
pub enum BoardError {
    /// The canvas width or height is zero.
    DegenerateGrid,
    /// The offset plus the pattern's dimensions exceed the canvas.
    Placement,
    /// The pattern's cell count does not equal its width times its height.
    PatternSize,
}

/// A rectangular grid stored in row-major order: index `i` holds the
/// cell at row `i / width`, column `i % width`.
#[derive(Debug, PartialEq, Eq)]
pub struct Board {
    pub width: usize,
    pub cells: Vec<Cell>,
}

/// The row of flat index `i` on a grid `w` columns wide.
pub open spec fn row_of(i: int, w: int) -> int {
    i / w
}

/// The column of flat index `i` on a grid `w` columns wide.
pub open spec fn col_of(i: int, w: int) -> int {
    i % w
}

/// The eight compass directions as (row delta, column delta) pairs, in
/// the order NW, N, NE, W, E, SW, S, SE.
pub open spec fn delta_at(t: int) -> (int, int) {
    if t == 0 {
        (-1, -1)
    } else if t == 1 {
        (-1, 0)
    } else if t == 2 {
        (-1, 1)
    } else if t == 3 {
        (0, -1)
    } else if t == 4 {
        (0, 1)
    } else if t == 5 {
        (1, -1)
    } else if t == 6 {
        (1, 0)
    } else {
        (1, 1)
    }
}

/// Whether moving from `i` by (`dr`, `dc`) stays on a `w` by `h` grid.
pub open spec fn delta_ok(w: int, h: int, i: int, dr: int, dc: int) -> bool {
    &&& 0 <= row_of(i, w) + dr < h
    &&& 0 <= col_of(i, w) + dc < w
}

/// The flat index reached from `i` by (`dr`, `dc`).
pub open spec fn nbr_index(w: int, i: int, dr: int, dc: int) -> int {
    (row_of(i, w) + dr) * w + (col_of(i, w) + dc)
}

/// The neighbor index in direction `t`, as a sequence: a singleton
/// when the move stays on the grid, empty when it crosses a boundary.
pub open spec fn opt_at(w: int, h: int, i: int, t: int) -> Seq<int> {
    let (dr, dc) = delta_at(t);
    if delta_ok(w, h, i, dr, dc) {
        seq![nbr_index(w, i, dr, dc)]
    } else {
        Seq::empty()
    }
}

/// The neighbor indices of `i` in the first `t` compass directions.
pub open spec fn nbr_seq_upto(w: int, h: int, i: int, t: int) -> Seq<int>
    decreases t,
{
    if t <= 0 {
        Seq::empty()
    } else {
        nbr_seq_upto(w, h, i, t - 1) + opt_at(w, h, i, t - 1)
    }
}

/// All neighbor indices of `i` on a `w` by `h` grid, in compass order
/// NW, N, NE, W, E, SW, S, SE, with directions that cross a boundary
/// left out.
pub open spec fn neighbor_seq(w: int, h: int, i: int) -> Seq<int> {
    nbr_seq_upto(w, h, i, 8)
}

/// Adjacency on a `w` by `h` grid: `j` is on the grid, differs from
/// `i`, and lies within one row and one column of it.
pub open spec fn is_neighbor(w: int, h: int, i: int, j: int) -> bool {
    &&& 0 <= j < w * h
    &&& j != i
    &&& -1 <= row_of(j, w) - row_of(i, w) <= 1
    &&& -1 <= col_of(j, w) - col_of(i, w) <= 1
}

/// How many of the indices in `ns` hold an Alive cell of `cells`.
pub open spec fn alive_sum(cells: Seq<Cell>, ns: Seq<int>) -> int
    decreases ns.len(),
{
    if ns.len() == 0 {
        0
    } else {
        alive_sum(cells, ns.drop_last()) + if 0 <= ns.last() < cells.len()
            && cells[ns.last()] is Alive {
            1int
        } else {
            0int
        }
    }
}

/// The number of Alive cells among the neighbors of `i`.
pub open spec fn live_neighbors(cells: Seq<Cell>, w: int, h: int, i: int) -> int {
    alive_sum(cells, neighbor_seq(w, h, i))
}

/// Conway's transition rule: an Alive cell survives exactly with 2 or
/// 3 live neighbors; a Dead cell becomes Alive exactly with 3.
pub open spec fn conway(c: Cell, live: int) -> Cell {
    match c {
        Cell::Alive => if live == 2 || live == 3 {
            Cell::Alive
        } else {
            Cell::Dead
        },
        Cell::Dead => if live == 3 {
            Cell::Alive
        } else {
            Cell::Dead
        },
    }
}

/// The next state of cell `i`.
pub open spec fn step_cell(cells: Seq<Cell>, w: int, h: int, i: int) -> Cell {
    conway(cells[i], live_neighbors(cells, w, h, i))
}

/// The whole next generation, cell by cell, from a read-only snapshot
/// of the current one.
pub open spec fn step_board(cells: Seq<Cell>, w: int, h: int) -> Seq<Cell> {
    Seq::new(cells.len(), |i: int| step_cell(cells, w, h, i))
}

/// The cell at flat index `k` of a `cw`-wide canvas holding `initial`
/// (an `iw` by `ih` matrix) at offset (`x`, `y`), Dead elsewhere.
pub open spec fn embedded_cell(
    initial: Seq<Cell>,
    iw: int,
    ih: int,
    cw: int,
    x: int,
    y: int,
    k: int,
) -> Cell {
    let r = k / cw;
    let c = k % cw;
    if y <= r < y + ih && x <= c < x + iw {
        initial[(r - y) * iw + (c - x)]
    } else {
        Cell::Dead
    }
}

/// The byte a cell is drawn as: `0` for Alive, a space for Dead.
pub open spec fn glyph(c: Cell) -> u8 {
    if c is Alive {
        48u8
    } else {
        32u8
    }
}

/// The rendering of a grid: each row preceded by a newline, then its
/// cells' glyphs, so the whole text starts with a blank line.
pub open spec fn render_bytes(cells: Seq<Cell>, w: int) -> Seq<u8> {
    let h = cells.len() as int / w;
    Seq::new(
        (h * (w + 1)) as nat,
        |p: int|
            if p % (w + 1) == 0 {
                10u8
            } else {
                glyph(cells[(p / (w + 1)) * w + (p % (w + 1) - 1)])
            },
    )
}

/// Whether `v` is `s` written with machine integers.
pub open spec fn matches_ints(v: Seq<usize>, s: Seq<int>) -> bool {
    &&& v.len() == s.len()
    &&& forall|k: int| 0 <= k < v.len() ==> v[k] as int == s[k]
}

impl Board {
    /// The number of rows, derived from the cell count and the width.
    pub open spec fn spec_height(&self) -> int {
        self.cells.len() as int / self.width as int
    }

    /// The structural invariant: at least one column, at least one
    /// full row, and a whole number of rows.
    pub open spec fn well_formed(&self) -> bool {
        &&& 1 <= self.width
        &&& self.width <= self.cells.len()
        &&& self.cells.len() as int % self.width as int == 0
    }

    /// The number of rows.
    pub fn height(&self) -> (h: usize)
        requires
            self.well_formed(),
        ensures
            h as int == self.spec_height(),
    {
        self.cells.len() / self.width
    }

    /// Build a canvas of `end_size.0` by `end_size.1` cells that
    /// holds `initial_state` (an `initial_size.0` by `initial_size.1`
    /// matrix in row-major order) unchanged at offset `end_pos`, with
    /// every other cell Dead. A zero-sized canvas, a placement that
    /// exceeds the canvas, and a pattern whose cell count does not
    /// match its dimensions are each rejected.
    pub fn new(
        initial_state: Vec<Cell>,
        initial_size: (usize, usize),
        end_size: (usize, usize),
        end_pos: (usize, usize),
    ) -> (result: Result<Board, BoardError>)
        requires
            end_size.0 as int * end_size.1 as int <= usize::MAX as int,
        ensures
            ({
                let iw = initial_size.0 as int;
                let ih = initial_size.1 as int;
                let cw = end_size.0 as int;
                let ch = end_size.1 as int;
                let x = end_pos.0 as int;
                let y = end_pos.1 as int;
                &&& (result matches Err(BoardError::DegenerateGrid) <==> (cw == 0 || ch == 0))
                &&& (result matches Err(BoardError::Placement) <==> (cw >= 1 && ch >= 1 && (x
                    + iw > cw || y + ih > ch)))
                &&& (result matches Err(BoardError::PatternSize) <==> (cw >= 1 && ch >= 1 && x
                    + iw <= cw && y + ih <= ch && initial_state@.len() != iw * ih))
                &&& (result is Ok <==> (cw >= 1 && ch >= 1 && x + iw <= cw && y + ih <= ch
                    && initial_state@.len() == iw * ih))
                &&& (result matches Ok(b) ==> {
                    &&& b.width as int == cw
                    &&& b.cells@.len() == cw * ch
                    &&& b.well_formed()
                    &&& b.spec_height() == ch
                    &&& forall|k: int|
                        0 <= k < cw * ch ==> b.cells@[k] == embedded_cell(
                            initial_state@,
                            iw,
                            ih,
                            cw,
                            x,
                            y,
                            k,
                        )
                })
            }),
    {
        let (iw, ih) = initial_size;
        let (cw, ch) = end_size;
        let (x, y) = end_pos;
        if cw == 0 || ch == 0 {
            return Err(BoardError::DegenerateGrid);
        }
        if x > cw || iw > cw - x || y > ch || ih > ch - y {
            return Err(BoardError::Placement);
        }
        proof {
            assert(iw as int * ih as int <= cw as int * ch as int) by (nonlinear_arith)
                requires
                    iw as int <= cw as int,
                    ih as int <= ch as int,
                    0 <= iw as int,
                    0 <= ih as int,
            ;
        }
        let area = iw * ih;
        if initial_state.len() != area {
            return Err(BoardError::PatternSize);
        }
        let mut cs: Vec<Cell> = Vec::new();
        let mut r: usize = 0;
        while r < ch
            invariant
                1 <= cw,
                1 <= ch,
                x as int + iw as int <= cw as int,
                y as int + ih as int <= ch as int,
                cw as int * ch as int <= usize::MAX as int,
                initial_state@.len() == iw as int * ih as int,
                r <= ch,
                cs@.len() == r as int * cw as int,
                forall|k: int|
                    0 <= k < cs@.len() ==> cs@[k] == embedded_cell(
                        initial_state@,
                        iw as int,
                        ih as int,
                        cw as int,
                        x as int,
                        y as int,
                        k,
                    ),
            decreases ch - r,
        {
            let mut c: usize = 0;
            while c < cw
                invariant
                    1 <= cw,
                    1 <= ch,
                    x as int + iw as int <= cw as int,
                    y as int + ih as int <= ch as int,
                    cw as int * ch as int <= usize::MAX as int,
                    initial_state@.len() == iw as int * ih as int,
                    r < ch,
                    c <= cw,
                    cs@.len() == r as int * cw as int + c as int,
                    forall|k: int|
                        0 <= k < cs@.len() ==> cs@[k] == embedded_cell(
                            initial_state@,
                            iw as int,
                            ih as int,
                            cw as int,
                            x as int,
                            y as int,
                            k,
                        ),
                decreases cw - c,
            {
                proof {
                    lemma_cell_pos(cw as int, ch as int, r as int, c as int);
                    lemma_fundamental_div_mod_converse(
                        r as int * cw as int + c as int,
                        cw as int,
                        r as int,
                        c as int,
                    );
                }
                let v = if y <= r && r < y + ih && x <= c && c < x + iw {
                    proof {
                        let ri = r as int;
                        let ci = c as int;
                        let xi = x as int;
                        let yi = y as int;
                        let iwi = iw as int;
                        let ihi = ih as int;
                        assert(0 <= (ri - yi) * iwi + (ci - xi) < iwi * ihi) by (nonlinear_arith)
                            requires
                                0 <= ri - yi,
                                ri - yi < ihi,
                                0 <= ci - xi,
                                ci - xi < iwi,
                        ;
                    }
                    initial_state[(r - y) * iw + (c - x)]
                } else {
                    Cell::Dead
                };
                cs.push(v);
                c = c + 1;
            }
            proof {
                assert((r as int + 1) * cw as int == r as int * cw as int + cw as int)
                    by (nonlinear_arith);
            }
            r = r + 1;
        }
        proof {
            assert(ch as int * cw as int == cw as int * ch as int) by (nonlinear_arith);
            assert(cw as int <= cw as int * ch as int) by (nonlinear_arith)
                requires
                    1 <= cw as int,
                    1 <= ch as int,
            ;
            lemma_mod_multiples_basic(ch as int, cw as int);
            lemma_fundamental_div_mod_converse(
                cs@.len() as int,
                cw as int,
                ch as int,
                0,
            );
        }
        Ok(Board { width: cw, cells: cs })
    }

    /// The indices adjacent to `i`, in compass order NW, N, NE, W, E,
    /// SW, S, SE, with directions that cross a boundary left out: an
    /// index is listed exactly when it lies on the grid within one
    /// row and one column of `i` and differs from `i`.
    #[verifier::rlimit(60)]
    pub fn neighbours(&self, i: usize) -> (ns: Vec<usize>)
        requires
            self.well_formed(),
            i < self.cells.len(),
        ensures
            matches_ints(ns@, neighbor_seq(self.width as int, self.spec_height(), i as int)),
            forall|j: usize| #[trigger]
                ns@.contains(j) <==> is_neighbor(
                    self.width as int,
                    self.spec_height(),
                    i as int,
                    j as int,
                ),
            ns@.no_duplicates(),
    {
        let w = self.width;
        let n = self.cells.len();
        let ghost wi = w as int;
        let ghost h = self.spec_height();
        let ghost ii = i as int;
        proof {
            lemma_area(n as int, wi);
            assert(1 <= h) by (nonlinear_arith)
                requires
                    n as int == wi * h,
                    1 <= wi,
                    wi <= n as int,
            ;
            lemma_grid_facts(wi, h, ii);
        }
        let ghost r = ii / wi;
        let ghost c = ii % wi;
        let is_top = i < w;
        let is_bottom = i >= n - w;
        let is_left = i % w == 0;
        let is_right = (i + 1) % w == 0;
        proof {
            assert(is_top <==> r == 0);
            assert(is_bottom <==> r == h - 1);
            assert(is_left <==> c == 0);
            assert(is_right <==> c == w - 1);
        }
        let mut ns: Vec<usize> = Vec::new();
        proof {
            assert(nbr_seq_upto(wi, h, ii, 0) == Seq::<int>::empty());
        }
        if !is_top && !is_left {
            ns.push(i - w - 1);
        }
        proof {
            assert(matches_ints(ns@, nbr_seq_upto(wi, h, ii, 1)));
        }
        if !is_top {
            ns.push(i - w);
        }
        proof {
            assert(matches_ints(ns@, nbr_seq_upto(wi, h, ii, 2)));
        }
        if !is_top && !is_right {
            ns.push(i - w + 1);
        }
        proof {
            assert(matches_ints(ns@, nbr_seq_upto(wi, h, ii, 3)));
        }
        if !is_left {
            ns.push(i - 1);
        }
        proof {
            assert(matches_ints(ns@, nbr_seq_upto(wi, h, ii, 4)));
        }
        if !is_right {
            ns.push(i + 1);
        }
        proof {
            assert(matches_ints(ns@, nbr_seq_upto(wi, h, ii, 5)));
        }
        if !is_bottom && !is_left {
            ns.push(i + w - 1);
        }
        proof {
            assert(matches_ints(ns@, nbr_seq_upto(wi, h, ii, 6)));
        }
        if !is_bottom {
            ns.push(i + w);
        }
        proof {
            assert(matches_ints(ns@, nbr_seq_upto(wi, h, ii, 7)));
        }
        if !is_bottom && !is_right {
            ns.push(i + w + 1);
        }
        proof {
            assert(matches_ints(ns@, nbr_seq_upto(wi, h, ii, 8)));
            lemma_neighbor_seq_exact(wi, h, ii);
            let s = neighbor_seq(wi, h, ii);
            assert forall|j: usize| #[trigger] ns@.contains(j) <==> is_neighbor(
                wi,
                h,
                ii,
                j as int,
            ) by {
                if ns@.contains(j) {
                    let k = choose|k: int| 0 <= k < ns@.len() && ns@[k] == j;
                    assert(s[k] == j as int);
                    assert(s.contains(j as int));
                }
                if is_neighbor(wi, h, ii, j as int) {
                    assert(s.contains(j as int));
                    let k = choose|k: int| 0 <= k < s.len() && s[k] == j as int;
                    assert(ns@[k] as int == j as int);
                    assert(ns@.contains(ns@[k]));
                }
            }
            assert forall|k1: int, k2: int|
                0 <= k1 < ns@.len() && 0 <= k2 < ns@.len() && k1 != k2 implies ns@[k1]
                != ns@[k2] by {
                assert(s[k1] != s[k2]);
            }
        }
        ns
    }

    /// The next state of cell `i`: its live neighbors are counted on
    /// the current generation and Conway's rule applied.
    pub fn next_cell(&self, i: usize) -> (c: Cell)
        requires
            self.well_formed(),
            i < self.cells.len(),
        ensures
            c == step_cell(self.cells@, self.width as int, self.spec_height(), i as int),
    {
        let ghost wi = self.width as int;
        let ghost h = self.spec_height();
        let ghost s = neighbor_seq(wi, h, i as int);
        let ns = self.neighbours(i);
        let n = self.cells.len();
        let mut live_count: usize = 0;
        let mut j: usize = 0;
        while j < ns.len()
            invariant
                self.well_formed(),
                n == self.cells.len(),
                j <= ns@.len(),
                matches_ints(ns@, s),
                live_count <= j,
                live_count == alive_sum(self.cells@, s.take(j as int)),
            decreases ns@.len() - j,
        {
            let idx = ns[j];
            proof {
                lemma_alive_sum_take_step(self.cells@, s, j as int);
            }
            if idx < n && self.cells[idx] == Cell::Alive {
                live_count = live_count + 1;
            }
            j = j + 1;
        }
        proof {
            assert(s.take(ns@.len() as int) =~= s);
        }
        match self.cells[i] {
            Cell::Alive => if live_count == 2 || live_count == 3 {
                Cell::Alive
            } else {
                Cell::Dead
            },
            Cell::Dead => if live_count == 3 {
                Cell::Alive
            } else {
                Cell::Dead
            },
        }
    }

    /// Advance the whole board one generation: every next state is
    /// computed from a snapshot of the current cells, which the new
    /// array then replaces wholesale.
    pub fn next_board(&mut self)
        requires
            old(self).well_formed(),
        ensures
            final(self).width == old(self).width,
            final(self).cells@.len() == old(self).cells@.len(),
            final(self).cells@ == step_board(
                old(self).cells@,
                old(self).width as int,
                old(self).spec_height(),
            ),
            final(self).well_formed(),
    {
        let ghost wi = self.width as int;
        let ghost h = self.spec_height();
        let n = self.cells.len();
        let mut next_cells: Vec<Cell> = Vec::new();
        let mut i: usize = 0;
        while i < n
            invariant
                self.width == old(self).width,
                self.cells@ == old(self).cells@,
                old(self).well_formed(),
                wi == self.width as int,
                h == self.spec_height(),
                n == self.cells.len(),
                i <= n,
                next_cells@.len() == i as int,
                forall|k: int| 0 <= k < i as int ==> next_cells@[k] == step_cell(
                    self.cells@,
                    wi,
                    h,
                    k,
                ),
            decreases n - i,
        {
            next_cells.push(self.next_cell(i));
            i = i + 1;
        }
        proof {
            assert(next_cells@ =~= step_board(old(self).cells@, wi, h));
        }
        self.cells = next_cells;
    }

    /// Draw the board: each of the `height` rows preceded by a
    /// newline and written as one glyph per cell.
    pub fn render(&self) -> (out: Vec<u8>)
        requires
            self.well_formed(),
            self.cells.len() + self.spec_height() <= usize::MAX,
        ensures
            out@ == render_bytes(self.cells@, self.width as int),
    {
        let w = self.width;
        let n = self.cells.len();
        let h = n / w;
        let ghost wi = w as int;
        proof {
            lemma_area(n as int, wi);
        }
        let mut out: Vec<u8> = Vec::new();
        let mut r: usize = 0;
        while r < h
            invariant
                self.well_formed(),
                w == self.width,
                n == self.cells.len(),
                wi == w as int,
                h as int == self.spec_height(),
                n as int == wi * h as int,
                n + h <= usize::MAX,
                r <= h,
                out@.len() == r as int * (wi + 1),
                forall|p: int| 0 <= p < out@.len() ==> out@[p] == render_bytes(
                    self.cells@,
                    wi,
                )[p],
            decreases h - r,
        {
            proof {
                lemma_row_bounds(wi, h as int, r as int);
                lemma_mod_multiples_basic(r as int, wi + 1);
            }
            out.push(10u8);
            let mut c: usize = 0;
            while c < w
                invariant
                    self.well_formed(),
                    w == self.width,
                    n == self.cells.len(),
                    wi == w as int,
                    h as int == self.spec_height(),
                    n as int == wi * h as int,
                    n + h <= usize::MAX,
                    r < h,
                    c <= w,
                    out@.len() == r as int * (wi + 1) + 1 + c as int,
                    forall|p: int| 0 <= p < out@.len() ==> out@[p] == render_bytes(
                        self.cells@,
                        wi,
                    )[p],
                decreases w - c,
            {
                proof {
                    lemma_row_bounds(wi, h as int, r as int);
                    lemma_fundamental_div_mod_converse(
                        r as int * (wi + 1) + 1 + c as int,
                        wi + 1,
                        r as int,
                        1 + c as int,
                    );
                }
                let cell = self.cells[r * w + c];
                let g = match cell {
                    Cell::Alive => 48u8,
                    Cell::Dead => 32u8,
                };
                out.push(g);
                c = c + 1;
            }
            r = r + 1;
        }
        proof {
            assert(out@ =~= render_bytes(self.cells@, wi));
        }
        out
    }
}

/// A well-formed board's cell count is exactly width times height.
pub proof fn lemma_area(n: int, w: int)
    requires
        w >= 1,
        n >= 0,
        n % w == 0,
    ensures
        n == w * (n / w),
{
    lemma_fundamental_div_mod(n, w);
}

/// Counting the Alive cells among `s.take(j + 1)` adds the indicator
/// of `s[j]` to the count for `s.take(j)`.
proof fn lemma_alive_sum_take_step(cells: Seq<Cell>, s: Seq<int>, j: int)
    requires
        0 <= j < s.len(),
    ensures
        alive_sum(cells, s.take(j + 1)) == alive_sum(cells, s.take(j)) + if 0 <= s[j]
            < cells.len() && cells[s[j]] is Alive {
            1int
        } else {
            0int
        },
{
    assert(s.take(j + 1).drop_last() =~= s.take(j));
    assert(s.take(j + 1).last() == s[j]);
}

/// Position arithmetic for one cell of a `w` by `h` grid.
proof fn lemma_cell_pos(w: int, h: int, r: int, c: int)
    requires
        1 <= w,
        1 <= h,
        0 <= r < h,
        0 <= c < w,
    ensures
        0 <= r * w + c < w * h,
        (r + 1) * w == r * w + w,
{
    assert(0 <= r * w + c < w * h) by (nonlinear_arith)
        requires
            1 <= w,
            0 <= r < h,
            0 <= c < w,
    ;
    assert((r + 1) * w == r * w + w) by (nonlinear_arith);
}

/// Position arithmetic for one row of the rendering, whose rows are
/// `w + 1` bytes long: a newline and `w` glyphs.
proof fn lemma_row_bounds(w: int, h: int, r: int)
    requires
        1 <= w,
        1 <= h,
        0 <= r < h,
    ensures
        0 <= r * (w + 1),
        r * (w + 1) + 1 + w <= h * (w + 1),
        (r + 1) * (w + 1) == r * (w + 1) + w + 1,
        r * w + w <= w * h,
        0 <= r * w,
{
    assert(0 <= r * (w + 1) && r * (w + 1) + 1 + w <= h * (w + 1)) by (nonlinear_arith)
        requires
            1 <= w,
            0 <= r < h,
    ;
    assert((r + 1) * (w + 1) == r * (w + 1) + w + 1) by (nonlinear_arith);
    assert(0 <= r * w && r * w + w <= w * h) by (nonlinear_arith)
        requires
            1 <= w,
            0 <= r < h,
    ;
}

/// Arithmetic facts linking a flat index to its row and column, and
/// the boundary tests to them.
pub proof fn lemma_grid_facts(w: int, h: int, i: int)
    requires
        1 <= w,
        1 <= h,
        0 <= i < w * h,
    ensures
        ({
            let r = i / w;
            let c = i % w;
            &&& 0 <= c < w
            &&& 0 <= r < h
            &&& i == r * w + c
            &&& (i < w <==> r == 0)
            &&& (i >= w * h - w <==> r == h - 1)
            &&& ((i + 1) % w == 0 <==> c == w - 1)
            &&& i >= c
            &&& (r >= 1 ==> i >= w + c)
            &&& (r < h - 1 ==> i + w < w * h)
            &&& (r < h - 1 && c < w - 1 ==> i + w + 1 < w * h)
            &&& forall|dr: int, dc: int| #[trigger] nbr_index(w, i, dr, dc) == i + dr * w + dc
        }),
{
    let r = i / w;
    let c = i % w;
    lemma_fundamental_div_mod(i, w);
    lemma_mod_bound(i, w);
    assert(i == w * r + c);
    assert(r * w == w * r) by (nonlinear_arith);
    assert(r >= 0) by (nonlinear_arith)
        requires
            i >= 0,
            w >= 1,
            0 <= c < w,
            i == r * w + c,
    ;
    assert(r < h) by (nonlinear_arith)
        requires
            i < w * h,
            w >= 1,
            0 <= c < w,
            i == r * w + c,
            r >= 0,
    ;
    assert(r >= 1 ==> i >= w + c) by (nonlinear_arith)
        requires
            w >= 1,
            i == r * w + c,
    ;
    assert(i >= c) by (nonlinear_arith)
        requires
            w >= 1,
            r >= 0,
            i == r * w + c,
    ;
    assert(i < w ==> r == 0);
    assert(r == 0 ==> i < w) by (nonlinear_arith)
        requires
            i == r * w + c,
            0 <= c < w,
    ;
    assert(r == h - 1 ==> i >= w * h - w) by (nonlinear_arith)
        requires
            i == r * w + c,
            c >= 0,
    ;
    assert(r <= h - 2 ==> i < w * h - w) by (nonlinear_arith)
        requires
            i == r * w + c,
            c < w,
            w >= 1,
    ;
    assert(r < h - 1 ==> i + w < w * h);
    assert(r < h - 1 && c < w - 1 ==> i + w + 1 < w * h) by (nonlinear_arith)
        requires
            i == r * w + c,
            w >= 1,
            r < h - 1 ==> i + w < w * h,
    ;
    if c == w - 1 {
        assert(i + 1 == (r + 1) * w) by (nonlinear_arith)
            requires
                i == r * w + c,
                c == w - 1,
        ;
        lemma_mod_multiples_basic(r + 1, w);
    } else {
        assert(i + 1 == r * w + (c + 1));
        lemma_fundamental_div_mod_converse_mod(i + 1, w, r, c + 1);
    }
    assert forall|dr: int, dc: int| #[trigger] nbr_index(w, i, dr, dc) == i + dr * w + dc by {
        lemma_mul_is_distributive_add_other_way(w, r, dr);
    }
}

/// Whether direction `u`'s move from `i` stays on the grid.
pub open spec fn dir_ok(w: int, h: int, i: int, u: int) -> bool {
    let (dr, dc) = delta_at(u);
    delta_ok(w, h, i, dr, dc)
}

/// The index reached from `i` by direction `u`.
pub open spec fn dir_index(w: int, i: int, u: int) -> int {
    let (dr, dc) = delta_at(u);
    nbr_index(w, i, dr, dc)
}

proof fn lemma_delta_at_injective(u1: int, u2: int)
    requires
        0 <= u1 < 8,
        0 <= u2 < 8,
        u1 != u2,
    ensures
        delta_at(u1) != delta_at(u2),
{
}

proof fn lemma_dir_props(w: int, h: int, i: int, u: int)
    requires
        1 <= w,
        1 <= h,
        0 <= i < w * h,
        0 <= u < 8,
        dir_ok(w, h, i, u),
    ensures
        is_neighbor(w, h, i, dir_index(w, i, u)),
        row_of(dir_index(w, i, u), w) == row_of(i, w) + delta_at(u).0,
        col_of(dir_index(w, i, u), w) == col_of(i, w) + delta_at(u).1,
{
    lemma_grid_facts(w, h, i);
    let r = i / w;
    let c = i % w;
    let (dr, dc) = delta_at(u);
    let j = nbr_index(w, i, dr, dc);
    assert(j == (r + dr) * w + (c + dc));
    assert(0 <= j < w * h) by (nonlinear_arith)
        requires
            j == (r + dr) * w + (c + dc),
            0 <= r + dr,
            r + dr < h,
            0 <= c + dc,
            c + dc < w,
            1 <= w,
    ;
    lemma_fundamental_div_mod_converse(j, w, r + dr, c + dc);
}

proof fn lemma_upto_chars(w: int, h: int, i: int, t: int)
    requires
        1 <= w,
        1 <= h,
        0 <= i < w * h,
        0 <= t <= 8,
    ensures
        forall|j: int|
            #[trigger] nbr_seq_upto(w, h, i, t).contains(j) <==> exists|u: int|
                0 <= u < t && dir_ok(w, h, i, u) && j == #[trigger] dir_index(w, i, u),
        nbr_seq_upto(w, h, i, t).no_duplicates(),
    decreases t,
{
    let s = nbr_seq_upto(w, h, i, t);
    if t == 0 {
        assert(s =~= Seq::<int>::empty());
    } else {
        lemma_upto_chars(w, h, i, t - 1);
        let prev = nbr_seq_upto(w, h, i, t - 1);
        let o = opt_at(w, h, i, t - 1);
        assert(s == prev + o);
        assert forall|j: int| #[trigger] s.contains(j) implies exists|u: int|
            0 <= u < t && dir_ok(w, h, i, u) && j == #[trigger] dir_index(w, i, u) by {
            let k = choose|k: int| 0 <= k < s.len() && s[k] == j;
            if k < prev.len() {
                assert(prev[k] == j);
                assert(prev.contains(j));
            } else {
                assert(o[k - prev.len()] == j);
                assert(dir_ok(w, h, i, t - 1) && j == dir_index(w, i, t - 1));
            }
        }
        assert forall|u: int| 0 <= u < t && dir_ok(w, h, i, u) implies s.contains(
            #[trigger] dir_index(w, i, u),
        ) by {
            if u < t - 1 {
                assert(prev.contains(dir_index(w, i, u)));
                let k = choose|k: int| 0 <= k < prev.len() && prev[k] == dir_index(w, i, u);
                assert(s[k] == dir_index(w, i, u));
            } else {
                assert(o[0] == dir_index(w, i, u));
                assert(s[prev.len() as int] == dir_index(w, i, u));
            }
        }
        if dir_ok(w, h, i, t - 1) {
            let e = dir_index(w, i, t - 1);
            assert(!prev.contains(e)) by {
                if prev.contains(e) {
                    let u = choose|u: int|
                        0 <= u < t - 1 && dir_ok(w, h, i, u) && e == #[trigger] dir_index(
                            w,
                            i,
                            u,
                        );
                    lemma_dir_props(w, h, i, u);
                    lemma_dir_props(w, h, i, t - 1);
                    lemma_delta_at_injective(u, t - 1);
                    assert(false);
                }
            }
            assert(s.no_duplicates()) by {
                assert forall|k1: int, k2: int|
                    0 <= k1 < s.len() && 0 <= k2 < s.len() && k1 != k2 implies s[k1] != s[k2] by {
                    if k1 < prev.len() && k2 < prev.len() {
                        assert(prev[k1] != prev[k2]);
                    } else if k1 < prev.len() {
                        assert(prev.contains(prev[k1]));
                        assert(s[k2] == e);
                    } else {
                        assert(prev.contains(prev[k2]));
                        assert(s[k1] == e);
                    }
                }
            }
        } else {
            assert(s =~= prev);
        }
    }
}

/// The neighbor sequence is the adjacency relation of the grid, made
/// exact: an index appears in it if and only if it lies on the grid
/// within one row and one column of `i` and differs from `i`, and no
/// index appears twice.
pub proof fn lemma_neighbor_seq_exact(w: int, h: int, i: int)
    requires
        1 <= w,
        1 <= h,
        0 <= i < w * h,
    ensures
        forall|j: int| #[trigger] neighbor_seq(w, h, i).contains(j) <==> is_neighbor(w, h, i, j),
        neighbor_seq(w, h, i).no_duplicates(),
{
    lemma_upto_chars(w, h, i, 8);
    lemma_grid_facts(w, h, i);
    let r = i / w;
    let c = i % w;
    assert forall|j: int| #[trigger] neighbor_seq(w, h, i).contains(j) implies is_neighbor(
        w,
        h,
        i,
        j,
    ) by {
        let u = choose|u: int|
            0 <= u < 8 && dir_ok(w, h, i, u) && j == #[trigger] dir_index(w, i, u);
        lemma_dir_props(w, h, i, u);
    }
    assert forall|j: int| is_neighbor(w, h, i, j) implies #[trigger] neighbor_seq(
        w,
        h,
        i,
    ).contains(j) by {
        lemma_grid_facts(w, h, j);
        let dr = j / w - r;
        let dc = j % w - c;
        assert(!(dr == 0 && dc == 0));
        let u: int = if dr == -1 {
            if dc == -1 {
                0
            } else if dc == 0 {
                1
            } else {
                2
            }
        } else if dr == 0 {
            if dc == -1 {
                3
            } else {
                4
            }
        } else {
            if dc == -1 {
                5
            } else if dc == 0 {
                6
            } else {
                7
            }
        };
        assert(delta_at(u) == (dr, dc));
        assert(j == (j / w) * w + (j % w));
        assert(dir_index(w, i, u) == (r + dr) * w + (c + dc));
        assert(j == dir_index(w, i, u));
        assert(dir_ok(w, h, i, u));
    }
}

/// Whether direction `u` from `i` reaches an Alive cell, as a count
/// of one or zero.
pub open spec fn dir_live(cells: Seq<Cell>, w: int, h: int, i: int, u: int) -> int {
    if dir_ok(w, h, i, u) && 0 <= dir_index(w, i, u) < cells.len() && cells[dir_index(
        w,
        i,
        u,
    )] is Alive {
        1int
    } else {
        0int
    }
}

proof fn lemma_alive_sum_concat(cells: Seq<Cell>, a: Seq<int>, b: Seq<int>)
    ensures
        alive_sum(cells, a + b) == alive_sum(cells, a) + alive_sum(cells, b),
    decreases b.len(),
{
    if b.len() == 0 {
        assert(a + b =~= a);
    } else {
        assert((a + b).drop_last() =~= a + b.drop_last());
        assert((a + b).last() == b.last());
        lemma_alive_sum_concat(cells, a, b.drop_last());
    }
}

proof fn lemma_alive_sum_single(cells: Seq<Cell>, j: int)
    ensures
        alive_sum(cells, seq![j]) == if 0 <= j < cells.len() && cells[j] is Alive {
            1int
        } else {
            0int
        },
{
    assert(alive_sum(cells, Seq::<int>::empty()) == 0);
    assert(seq![j].drop_last() =~= Seq::<int>::empty());
    assert(seq![j].last() == j);
}

/// The live-neighbor count split direction by direction.
pub proof fn lemma_live_neighbors_by_dir(cells: Seq<Cell>, w: int, h: int, i: int)
    ensures
        live_neighbors(cells, w, h, i) == dir_live(cells, w, h, i, 0) + dir_live(
            cells,
            w,
            h,
            i,
            1,
        ) + dir_live(cells, w, h, i, 2) + dir_live(cells, w, h, i, 3) + dir_live(
            cells,
            w,
            h,
            i,
            4,
        ) + dir_live(cells, w, h, i, 5) + dir_live(cells, w, h, i, 6) + dir_live(cells, w, h, i, 7),
{
    reveal_with_fuel(nbr_seq_upto, 9);
    assert forall|u: int| 0 <= u < 8 implies alive_sum(cells, opt_at(w, h, i, u)) == dir_live(
        cells,
        w,
        h,
        i,
        u,
    ) by {
        if dir_ok(w, h, i, u) {
            lemma_alive_sum_single(cells, dir_index(w, i, u));
        }
    }
    lemma_alive_sum_concat(cells, nbr_seq_upto(w, h, i, 0), opt_at(w, h, i, 0));
    lemma_alive_sum_concat(cells, nbr_seq_upto(w, h, i, 1), opt_at(w, h, i, 1));
    lemma_alive_sum_concat(cells, nbr_seq_upto(w, h, i, 2), opt_at(w, h, i, 2));
    lemma_alive_sum_concat(cells, nbr_seq_upto(w, h, i, 3), opt_at(w, h, i, 3));
    lemma_alive_sum_concat(cells, nbr_seq_upto(w, h, i, 4), opt_at(w, h, i, 4));
    lemma_alive_sum_concat(cells, nbr_seq_upto(w, h, i, 5), opt_at(w, h, i, 5));
    lemma_alive_sum_concat(cells, nbr_seq_upto(w, h, i, 6), opt_at(w, h, i, 6));
    lemma_alive_sum_concat(cells, nbr_seq_upto(w, h, i, 7), opt_at(w, h, i, 7));
}

/// Conway's transition table, stated for every current state and
/// every neighbor count: an Alive cell survives exactly with 2 or 3
/// live neighbors, a Dead cell is born exactly with 3.
pub proof fn lemma_conway_rule(c: Cell, live: int)
    ensures
        c is Alive && (live == 2 || live == 3) ==> conway(c, live) is Alive,
        c is Alive && live != 2 && live != 3 ==> conway(c, live) is Dead,
        c is Dead && live == 3 ==> conway(c, live) is Alive,
        c is Dead && live != 3 ==> conway(c, live) is Dead,
{
}

/// An interior cell, touching no boundary, has exactly eight
/// neighbors, all on the grid and none equal to the cell itself.
pub proof fn lemma_interior_neighbors(w: int, h: int, i: int)
    requires
        1 <= w,
        1 <= h,
        0 <= i < w * h,
        row_of(i, w) != 0,
        row_of(i, w) != h - 1,
        col_of(i, w) != 0,
        col_of(i, w) != w - 1,
    ensures
        neighbor_seq(w, h, i) =~= seq![
            i - w - 1,
            i - w,
            i - w + 1,
            i - 1,
            i + 1,
            i + w - 1,
            i + w,
            i + w + 1,
        ],
        neighbor_seq(w, h, i).len() == 8,
        forall|k: int| 0 <= k < 8 ==> 0 <= #[trigger] neighbor_seq(w, h, i)[k] < w * h,
        forall|k: int| 0 <= k < 8 ==> #[trigger] neighbor_seq(w, h, i)[k] != i,
{
    lemma_grid_facts(w, h, i);
    reveal_with_fuel(nbr_seq_upto, 9);
    assert(neighbor_seq(w, h, i) =~= seq![
        i - w - 1,
        i - w,
        i - w + 1,
        i - 1,
        i + 1,
        i + w - 1,
        i + w,
        i + w + 1,
    ]);
}

/// Each of the four corners of a grid with at least two rows and two
/// columns has exactly three neighbors.
pub proof fn lemma_corner_neighbors(w: int, h: int)
    requires
        2 <= w,
        2 <= h,
    ensures
        neighbor_seq(w, h, 0).len() == 3,
        neighbor_seq(w, h, w - 1).len() == 3,
        neighbor_seq(w, h, (h - 1) * w).len() == 3,
        neighbor_seq(w, h, w * h - 1).len() == 3,
{
    reveal_with_fuel(nbr_seq_upto, 9);
    assert(0 < w * h && (h - 1) * w >= 0 && (h - 1) * w < w * h && w * h - 1 == (h - 1) * w + (w
        - 1)) by (nonlinear_arith)
        requires
            2 <= w,
            2 <= h,
    ;
    lemma_fundamental_div_mod_converse(0, w, 0, 0);
    lemma_grid_facts(w, h, 0);
    lemma_fundamental_div_mod_converse(w - 1, w, 0, w - 1);
    lemma_grid_facts(w, h, w - 1);
    lemma_fundamental_div_mod_converse((h - 1) * w, w, h - 1, 0);
    lemma_grid_facts(w, h, (h - 1) * w);
    lemma_fundamental_div_mod_converse(w * h - 1, w, h - 1, w - 1);
    lemma_grid_facts(w, h, w * h - 1);
}

/// A 2x2 block of Alive cells with its top-left corner at column `x`
/// and row `y` of an otherwise Dead `w` by `h` canvas.
pub open spec fn block_cells(w: int, h: int, x: int, y: int) -> Seq<Cell> {
    Seq::new(
        (w * h) as nat,
        |k: int|
            if y <= row_of(k, w) <= y + 1 && x <= col_of(k, w) <= x + 1 {
                Cell::Alive
            } else {
                Cell::Dead
            },
    )
}

/// The block is a still life: wherever a 2x2 block of Alive cells
/// stands on an otherwise Dead canvas, one step changes nothing.
pub proof fn lemma_block_still_life(w: int, h: int, x: int, y: int)
    requires
        1 <= w,
        1 <= h,
        0 <= x,
        x + 2 <= w,
        0 <= y,
        y + 2 <= h,
    ensures
        step_board(block_cells(w, h, x, y), w, h) == block_cells(w, h, x, y),
{
    let cells = block_cells(w, h, x, y);
    assert(cells.len() == w * h);
    assert forall|i: int| 0 <= i < w * h implies #[trigger] step_board(cells, w, h)[i]
        == cells[i] by {
        lemma_grid_facts(w, h, i);
        lemma_live_neighbors_by_dir(cells, w, h, i);
        if dir_ok(w, h, i, 0) {
            lemma_dir_props(w, h, i, 0);
        }
        if dir_ok(w, h, i, 1) {
            lemma_dir_props(w, h, i, 1);
        }
        if dir_ok(w, h, i, 2) {
            lemma_dir_props(w, h, i, 2);
        }
        if dir_ok(w, h, i, 3) {
            lemma_dir_props(w, h, i, 3);
        }
        if dir_ok(w, h, i, 4) {
            lemma_dir_props(w, h, i, 4);
        }
        if dir_ok(w, h, i, 5) {
            lemma_dir_props(w, h, i, 5);
        }
        if dir_ok(w, h, i, 6) {
            lemma_dir_props(w, h, i, 6);
        }
        if dir_ok(w, h, i, 7) {
            lemma_dir_props(w, h, i, 7);
        }
    }
    assert(step_board(cells, w, h) =~= cells);
}

/// A horizontal line of three Alive cells starting at column `x` of
/// row `y` on an otherwise Dead `w` by `h` canvas.
pub open spec fn blinker_row(w: int, h: int, x: int, y: int) -> Seq<Cell> {
    Seq::new(
        (w * h) as nat,
        |k: int|
            if row_of(k, w) == y && x <= col_of(k, w) <= x + 2 {
                Cell::Alive
            } else {
                Cell::Dead
            },
    )
}

/// A vertical line of three Alive cells starting at row `y` of
/// column `x` on an otherwise Dead `w` by `h` canvas.
pub open spec fn blinker_column(w: int, h: int, x: int, y: int) -> Seq<Cell> {
    Seq::new(
        (w * h) as nat,
        |k: int|
            if col_of(k, w) == x && y <= row_of(k, w) <= y + 2 {
                Cell::Alive
            } else {
                Cell::Dead
            },
    )
}

/// The blinker oscillates with period two: wherever a horizontal
/// line of three Alive cells stands clear of the left, right, top
/// and bottom boundaries, one step turns it into the vertical line
/// through its middle cell, and a second step restores it.
pub proof fn lemma_blinker_period_two(w: int, h: int, x: int, y: int)
    requires
        1 <= w,
        0 <= x,
        x + 3 <= w,
        1 <= y,
        y + 2 <= h,
    ensures
        step_board(blinker_row(w, h, x, y), w, h) == blinker_column(w, h, x + 1, y - 1),
        step_board(blinker_column(w, h, x + 1, y - 1), w, h) == blinker_row(w, h, x, y),
{
    let row_cells = blinker_row(w, h, x, y);
    let col_cells = blinker_column(w, h, x + 1, y - 1);
    assert(row_cells.len() == w * h);
    assert(col_cells.len() == w * h);
    assert forall|i: int| 0 <= i < w * h implies #[trigger] step_board(row_cells, w, h)[i]
        == col_cells[i] by {
        lemma_grid_facts(w, h, i);
        lemma_live_neighbors_by_dir(row_cells, w, h, i);
        if dir_ok(w, h, i, 0) {
            lemma_dir_props(w, h, i, 0);
        }
        if dir_ok(w, h, i, 1) {
            lemma_dir_props(w, h, i, 1);
        }
        if dir_ok(w, h, i, 2) {
            lemma_dir_props(w, h, i, 2);
        }
        if dir_ok(w, h, i, 3) {
            lemma_dir_props(w, h, i, 3);
        }
        if dir_ok(w, h, i, 4) {
            lemma_dir_props(w, h, i, 4);
        }
        if dir_ok(w, h, i, 5) {
            lemma_dir_props(w, h, i, 5);
        }
        if dir_ok(w, h, i, 6) {
            lemma_dir_props(w, h, i, 6);
        }
        if dir_ok(w, h, i, 7) {
            lemma_dir_props(w, h, i, 7);
        }
    }
    assert(step_board(row_cells, w, h) =~= col_cells);
    assert forall|i: int| 0 <= i < w * h implies #[trigger] step_board(col_cells, w, h)[i]
        == row_cells[i] by {
        lemma_grid_facts(w, h, i);
        lemma_live_neighbors_by_dir(col_cells, w, h, i);
        if dir_ok(w, h, i, 0) {
            lemma_dir_props(w, h, i, 0);
        }
        if dir_ok(w, h, i, 1) {
            lemma_dir_props(w, h, i, 1);
        }
        if dir_ok(w, h, i, 2) {
            lemma_dir_props(w, h, i, 2);
        }
        if dir_ok(w, h, i, 3) {
            lemma_dir_props(w, h, i, 3);
        }
        if dir_ok(w, h, i, 4) {
            lemma_dir_props(w, h, i, 4);
        }
        if dir_ok(w, h, i, 5) {
            lemma_dir_props(w, h, i, 5);
        }
        if dir_ok(w, h, i, 6) {
            lemma_dir_props(w, h, i, 6);
        }
        if dir_ok(w, h, i, 7) {
            lemma_dir_props(w, h, i, 7);
        }
    }
    assert(step_board(col_cells, w, h) =~= row_cells);
}

/// No index of `ns` holds an Alive cell of an all-Dead board.
pub proof fn lemma_alive_sum_dead(cells: Seq<Cell>, ns: Seq<int>)
    requires
        forall|k: int| 0 <= k < cells.len() ==> cells[k] is Dead,
    ensures
        alive_sum(cells, ns) == 0,
    decreases ns.len(),
{
    if ns.len() > 0 {
        lemma_alive_sum_dead(cells, ns.drop_last());
    }
}

/// A canvas whose only Alive cell is at index `a`.
pub open spec fn lone_cell(w: int, h: int, a: int) -> Seq<Cell> {
    Seq::new(
        (w * h) as nat,
        |k: int|
            if k == a {
                Cell::Alive
            } else {
                Cell::Dead
            },
    )
}

/// An isolated Alive cell has no live neighbors, so one step kills
/// it and leaves the whole canvas Dead.
pub proof fn lemma_lone_cell_dies(w: int, h: int, a: int)
    requires
        1 <= w,
        1 <= h,
        0 <= a < w * h,
    ensures
        forall|i: int|
            0 <= i < w * h ==> #[trigger] step_board(lone_cell(w, h, a), w, h)[i] is Dead,
{
    let cells = lone_cell(w, h, a);
    assert(cells.len() == w * h);
    assert forall|i: int| 0 <= i < w * h implies #[trigger] step_board(
        cells,
        w,
        h,
    )[i] is Dead by {
        lemma_grid_facts(w, h, i);
        lemma_grid_facts(w, h, a);
        lemma_live_neighbors_by_dir(cells, w, h, i);
        if dir_ok(w, h, i, 0) {
            lemma_dir_props(w, h, i, 0);
        }
        if dir_ok(w, h, i, 1) {
            lemma_dir_props(w, h, i, 1);
        }
        if dir_ok(w, h, i, 2) {
            lemma_dir_props(w, h, i, 2);
        }
        if dir_ok(w, h, i, 3) {
            lemma_dir_props(w, h, i, 3);
        }
        if dir_ok(w, h, i, 4) {
            lemma_dir_props(w, h, i, 4);
        }
        if dir_ok(w, h, i, 5) {
            lemma_dir_props(w, h, i, 5);
        }
        if dir_ok(w, h, i, 6) {
            lemma_dir_props(w, h, i, 6);
        }
        if dir_ok(w, h, i, 7) {
            lemma_dir_props(w, h, i, 7);
        }
    }
}

/// Extinction is final: one step of an all-Dead board leaves every
/// cell Dead, so the board stays empty for all later generations.
pub proof fn lemma_all_dead_stays_dead(cells: Seq<Cell>, w: int, h: int)
    requires
        forall|k: int| 0 <= k < cells.len() ==> cells[k] is Dead,
    ensures
        forall|i: int| 0 <= i < cells.len() ==> #[trigger] step_board(cells, w, h)[i] is Dead,
{
    assert forall|i: int| 0 <= i < cells.len() implies #[trigger] step_board(
        cells,
        w,
        h,
    )[i] is Dead by {
        lemma_alive_sum_dead(cells, neighbor_seq(w, h, i));
    }
}

} // verus!
