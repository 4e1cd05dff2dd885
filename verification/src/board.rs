use vstd::prelude::*;
use vstd::multiset::Multiset;
use rand::seq::SliceRandom;
use crate::cell::{Cell, CellState, GameError};
use crate::grid::is_adjacent;

verus! {

/// A rectangular minesweeper board: `width * height` cells stored
/// row-major (`index = y * width + x`), plus the requested mine count.
/// Cell states move only through the engine's operations (`uncover`,
/// `toggle_flag`, `disclose_mines`), which keep `wf` intact.
#[derive(Debug)]
pub struct Board {
    pub width: usize,
    pub height: usize,
    /// The mine count the board was requested with; the number actually
    /// placed is `min(mines, width * height)`.
    pub mines: usize,
    pub cells: Vec<Cell>,
}

/// Number of `true` entries of a boolean sequence.
pub open spec fn count_trues(s: Seq<bool>) -> nat
    decreases s.len(),
{
    if s.len() == 0 {
        0
    } else {
        count_trues(s.drop_last()) + if s.last() {
            1nat
        } else {
            0nat
        }
    }
}

/// Number of mine cells of a cell sequence.
pub open spec fn count_mines(s: Seq<Cell>) -> nat
    decreases s.len(),
{
    if s.len() == 0 {
        0
    } else {
        count_mines(s.drop_last()) + if s.last().is_mine {
            1nat
        } else {
            0nat
        }
    }
}

/// Number of `Covered` cells of a cell sequence (the reveal engine's
/// termination measure).
pub open spec fn count_covered(s: Seq<Cell>) -> nat
    decreases s.len(),
{
    if s.len() == 0 {
        0
    } else {
        count_covered(s.drop_last()) + if s.last().state == CellState::Covered {
            1nat
        } else {
            0nat
        }
    }
}

/// `min(a, b)` over naturals, spelled out.
pub open spec fn min_nat(a: nat, b: nat) -> nat {
    if a <= b {
        a
    } else {
        b
    }
}

impl Board {
    /// The dimensions are positive, the cell vector has exactly
    /// `width * height` entries, and that product fits the index type.
    pub open spec fn dims_ok(self) -> bool {
        &&& 1 <= self.width
        &&& 1 <= self.height
        &&& self.width * self.height <= usize::MAX
        &&& self.cells@.len() == self.width * self.height
    }

    pub open spec fn in_bounds(self, x: int, y: int) -> bool {
        0 <= x < self.width && 0 <= y < self.height
    }

    pub open spec fn idx_of(self, x: int, y: int) -> int {
        y * self.width + x
    }

    pub open spec fn cell_of(self, x: int, y: int) -> Cell {
        self.cells@[self.idx_of(x, y)]
    }

    pub open spec fn state_of(self, x: int, y: int) -> CellState {
        self.cell_of(x, y).state
    }

    /// 1 when `(x, y)` is an in-bounds mine cell, else 0. The redundant
    /// index guard keeps the value independent of out-of-range entries,
    /// so it is preserved verbatim by any state-only board change.
    pub open spec fn mine_at(self, x: int, y: int) -> nat {
        if self.in_bounds(x, y) && 0 <= self.idx_of(x, y) < self.cells@.len()
            && self.cell_of(x, y).is_mine {
            1
        } else {
            0
        }
    }

    /// 1 when `(x, y)` is an in-bounds `Flagged` cell, else 0.
    pub open spec fn flag_at(self, x: int, y: int) -> nat {
        if self.in_bounds(x, y) && 0 <= self.idx_of(x, y) < self.cells@.len()
            && self.state_of(x, y) == CellState::Flagged {
            1
        } else {
            0
        }
    }

    /// The exact number of mines among the (up to 8) in-bounds neighbors.
    pub open spec fn adj_mines(self, x: int, y: int) -> nat {
        self.mine_at(x - 1, y - 1) + self.mine_at(x, y - 1) + self.mine_at(x + 1, y - 1)
            + self.mine_at(x - 1, y) + self.mine_at(x + 1, y) + self.mine_at(x - 1, y + 1)
            + self.mine_at(x, y + 1) + self.mine_at(x + 1, y + 1)
    }

    /// The number of `Flagged` cells among the in-bounds neighbors.
    pub open spec fn adj_flags(self, x: int, y: int) -> nat {
        self.flag_at(x - 1, y - 1) + self.flag_at(x, y - 1) + self.flag_at(x + 1, y - 1)
            + self.flag_at(x - 1, y) + self.flag_at(x + 1, y) + self.flag_at(x - 1, y + 1)
            + self.flag_at(x, y + 1) + self.flag_at(x + 1, y + 1)
    }

    /// Per-cell well-formedness: a `Revealed(k)` cell is not a mine and
    /// shows the exact neighbor mine count; an `Exploded` cell is a mine.
    pub open spec fn wf_cell_at(self, x: int, y: int) -> bool {
        match self.state_of(x, y) {
            CellState::Revealed(k) => !self.cell_of(x, y).is_mine
                && k as nat == self.adj_mines(x, y),
            CellState::Exploded => self.cell_of(x, y).is_mine,
            _ => true,
        }
    }

    /// The board invariant: proper dimensions plus per-cell well-formedness.
    pub open spec fn wf(self) -> bool {
        &&& self.dims_ok()
        &&& forall|x: int, y: int| self.in_bounds(x, y) ==> #[trigger] self.wf_cell_at(x, y)
    }

    /// Number of mines actually placed on the board.
    pub open spec fn mine_total(self) -> nat {
        count_mines(self.cells@)
    }

    /// Every cell is `Covered` (a board no command has touched yet).
    pub open spec fn all_covered(self) -> bool {
        forall|x: int, y: int| self.in_bounds(x, y)
            ==> #[trigger] self.state_of(x, y) == CellState::Covered
    }

    /// The win condition: every non-mine cell has been revealed.
    pub open spec fn win_cond(self) -> bool {
        forall|x: int, y: int| self.in_bounds(x, y) && !(#[trigger] self.cell_of(x, y)).is_mine
            ==> self.state_of(x, y).is_revealed()
    }
}

/// What `Board::new(width, height, mines)` delivers: a well-formed,
/// fully covered board of the requested dimensions carrying exactly
/// `min(mines, width * height)` mines.
pub open spec fn fresh_board(b: Board, width: usize, height: usize, mines: usize) -> bool {
    &&& b.wf()
    &&& b.width == width
    &&& b.height == height
    &&& b.mines == mines
    &&& b.all_covered()
    &&& b.mine_total() == min_nat(mines as nat, (width * height) as nat)
}

pub proof fn lemma_mul_index_bound(w: int, h: int, x: int, y: int)
    by (nonlinear_arith)
    requires
        1 <= w,
        1 <= h,
        0 <= x < w,
        0 <= y < h,
    ensures
        0 <= y * w + x < w * h,
{
}

pub proof fn lemma_index_injective(w: int, x: int, y: int, u: int, v: int)
    by (nonlinear_arith)
    requires
        1 <= w,
        0 <= x < w,
        0 <= u < w,
        0 <= y,
        0 <= v,
        !(x == u && y == v),
    ensures
        y * w + x != v * w + u,
{
}

pub proof fn lemma_index_bound(b: Board, x: int, y: int)
    requires
        b.dims_ok(),
        b.in_bounds(x, y),
    ensures
        0 <= b.idx_of(x, y) < b.cells@.len(),
{
    lemma_mul_index_bound(b.width as int, b.height as int, x, y);
}

/// `mine_at` without the index guard, valid on boards with sound dimensions.
pub proof fn lemma_mine_at_is(b: Board, u: int, v: int)
    requires
        b.dims_ok(),
    ensures
        b.mine_at(u, v) == if b.in_bounds(u, v) && b.cell_of(u, v).is_mine {
            1nat
        } else {
            0nat
        },
{
    if b.in_bounds(u, v) {
        lemma_index_bound(b, u, v);
    }
}

/// `flag_at` without the index guard, valid on boards with sound dimensions.
pub proof fn lemma_flag_at_is(b: Board, u: int, v: int)
    requires
        b.dims_ok(),
    ensures
        b.flag_at(u, v) == if b.in_bounds(u, v) && b.state_of(u, v) == CellState::Flagged {
            1nat
        } else {
            0nat
        },
{
    if b.in_bounds(u, v) {
        lemma_index_bound(b, u, v);
    }
}

/// A neighbor of a cell with zero adjacent mines is not a mine.
pub proof fn lemma_zero_adj_no_mine(b: Board, x: int, y: int, u: int, v: int)
    requires
        b.dims_ok(),
        b.adj_mines(x, y) == 0,
        is_adjacent(x, y, u, v),
        b.in_bounds(u, v),
    ensures
        !b.cell_of(u, v).is_mine,
{
    lemma_mine_at_is(b, u, v);
    if u == x - 1 && v == y - 1 {
        assert(b.mine_at(u, v) == b.mine_at(x - 1, y - 1));
    } else if u == x && v == y - 1 {
        assert(b.mine_at(u, v) == b.mine_at(x, y - 1));
    } else if u == x + 1 && v == y - 1 {
        assert(b.mine_at(u, v) == b.mine_at(x + 1, y - 1));
    } else if u == x - 1 && v == y {
        assert(b.mine_at(u, v) == b.mine_at(x - 1, y));
    } else if u == x + 1 && v == y {
        assert(b.mine_at(u, v) == b.mine_at(x + 1, y));
    } else if u == x - 1 && v == y + 1 {
        assert(b.mine_at(u, v) == b.mine_at(x - 1, y + 1));
    } else if u == x && v == y + 1 {
        assert(b.mine_at(u, v) == b.mine_at(x, y + 1));
    } else {
        assert(u == x + 1 && v == y + 1);
        assert(b.mine_at(u, v) == b.mine_at(x + 1, y + 1));
    }
}

impl Board {
    /// Counts the mines among the in-bounds neighbors of `(x, y)`.
    pub fn count_adjacent_mines(&self, x: usize, y: usize) -> (m: u8)
        requires
            self.dims_ok(),
            x < self.width,
            y < self.height,
        ensures
            m as nat == self.adj_mines(x as int, y as int),
            m <= 8,
    {
        let xi: Ghost<int> = Ghost(x as int);
        let yi: Ghost<int> = Ghost(y as int);
        let mut m: u8 = 0;
        if x > 0 && y > 0 && self.mine_cell(x - 1, y - 1) {
            m = m + 1;
        }
        proof {
            lemma_mine_at_is(*self, xi@ - 1, yi@ - 1);
            assert(m as nat == self.mine_at(xi@ - 1, yi@ - 1));
        }
        if y > 0 && self.mine_cell(x, y - 1) {
            m = m + 1;
        }
        proof {
            lemma_mine_at_is(*self, xi@, yi@ - 1);
            assert(m as nat == self.mine_at(xi@ - 1, yi@ - 1) + self.mine_at(xi@, yi@ - 1));
        }
        if x + 1 < self.width && y > 0 && self.mine_cell(x + 1, y - 1) {
            m = m + 1;
        }
        proof {
            lemma_mine_at_is(*self, xi@ + 1, yi@ - 1);
            assert(m as nat == self.mine_at(xi@ - 1, yi@ - 1) + self.mine_at(xi@, yi@ - 1)
                + self.mine_at(xi@ + 1, yi@ - 1));
        }
        if x > 0 && self.mine_cell(x - 1, y) {
            m = m + 1;
        }
        proof {
            lemma_mine_at_is(*self, xi@ - 1, yi@);
            assert(m as nat == self.mine_at(xi@ - 1, yi@ - 1) + self.mine_at(xi@, yi@ - 1)
                + self.mine_at(xi@ + 1, yi@ - 1) + self.mine_at(xi@ - 1, yi@));
        }
        if x + 1 < self.width && self.mine_cell(x + 1, y) {
            m = m + 1;
        }
        proof {
            lemma_mine_at_is(*self, xi@ + 1, yi@);
            assert(m as nat == self.mine_at(xi@ - 1, yi@ - 1) + self.mine_at(xi@, yi@ - 1)
                + self.mine_at(xi@ + 1, yi@ - 1) + self.mine_at(xi@ - 1, yi@)
                + self.mine_at(xi@ + 1, yi@));
        }
        if x > 0 && y + 1 < self.height && self.mine_cell(x - 1, y + 1) {
            m = m + 1;
        }
        proof {
            lemma_mine_at_is(*self, xi@ - 1, yi@ + 1);
            assert(m as nat == self.mine_at(xi@ - 1, yi@ - 1) + self.mine_at(xi@, yi@ - 1)
                + self.mine_at(xi@ + 1, yi@ - 1) + self.mine_at(xi@ - 1, yi@)
                + self.mine_at(xi@ + 1, yi@) + self.mine_at(xi@ - 1, yi@ + 1));
        }
        if y + 1 < self.height && self.mine_cell(x, y + 1) {
            m = m + 1;
        }
        proof {
            lemma_mine_at_is(*self, xi@, yi@ + 1);
            assert(m as nat == self.mine_at(xi@ - 1, yi@ - 1) + self.mine_at(xi@, yi@ - 1)
                + self.mine_at(xi@ + 1, yi@ - 1) + self.mine_at(xi@ - 1, yi@)
                + self.mine_at(xi@ + 1, yi@) + self.mine_at(xi@ - 1, yi@ + 1)
                + self.mine_at(xi@, yi@ + 1));
        }
        if x + 1 < self.width && y + 1 < self.height && self.mine_cell(x + 1, y + 1) {
            m = m + 1;
        }
        proof {
            lemma_mine_at_is(*self, xi@ + 1, yi@ + 1);
            assert(m as nat == self.adj_mines(xi@, yi@));
        }
        m
    }

    /// Counts the `Flagged` cells among the in-bounds neighbors of `(x, y)`.
    pub fn count_adjacent_flags(&self, x: usize, y: usize) -> (m: u8)
        requires
            self.dims_ok(),
            x < self.width,
            y < self.height,
        ensures
            m as nat == self.adj_flags(x as int, y as int),
            m <= 8,
    {
        let xi: Ghost<int> = Ghost(x as int);
        let yi: Ghost<int> = Ghost(y as int);
        let mut m: u8 = 0;
        if x > 0 && y > 0 && self.flag_cell(x - 1, y - 1) {
            m = m + 1;
        }
        proof {
            lemma_flag_at_is(*self, xi@ - 1, yi@ - 1);
            assert(m as nat == self.flag_at(xi@ - 1, yi@ - 1));
        }
        if y > 0 && self.flag_cell(x, y - 1) {
            m = m + 1;
        }
        proof {
            lemma_flag_at_is(*self, xi@, yi@ - 1);
            assert(m as nat == self.flag_at(xi@ - 1, yi@ - 1) + self.flag_at(xi@, yi@ - 1));
        }
        if x + 1 < self.width && y > 0 && self.flag_cell(x + 1, y - 1) {
            m = m + 1;
        }
        proof {
            lemma_flag_at_is(*self, xi@ + 1, yi@ - 1);
            assert(m as nat == self.flag_at(xi@ - 1, yi@ - 1) + self.flag_at(xi@, yi@ - 1)
                + self.flag_at(xi@ + 1, yi@ - 1));
        }
        if x > 0 && self.flag_cell(x - 1, y) {
            m = m + 1;
        }
        proof {
            lemma_flag_at_is(*self, xi@ - 1, yi@);
            assert(m as nat == self.flag_at(xi@ - 1, yi@ - 1) + self.flag_at(xi@, yi@ - 1)
                + self.flag_at(xi@ + 1, yi@ - 1) + self.flag_at(xi@ - 1, yi@));
        }
        if x + 1 < self.width && self.flag_cell(x + 1, y) {
            m = m + 1;
        }
        proof {
            lemma_flag_at_is(*self, xi@ + 1, yi@);
            assert(m as nat == self.flag_at(xi@ - 1, yi@ - 1) + self.flag_at(xi@, yi@ - 1)
                + self.flag_at(xi@ + 1, yi@ - 1) + self.flag_at(xi@ - 1, yi@)
                + self.flag_at(xi@ + 1, yi@));
        }
        if x > 0 && y + 1 < self.height && self.flag_cell(x - 1, y + 1) {
            m = m + 1;
        }
        proof {
            lemma_flag_at_is(*self, xi@ - 1, yi@ + 1);
            assert(m as nat == self.flag_at(xi@ - 1, yi@ - 1) + self.flag_at(xi@, yi@ - 1)
                + self.flag_at(xi@ + 1, yi@ - 1) + self.flag_at(xi@ - 1, yi@)
                + self.flag_at(xi@ + 1, yi@) + self.flag_at(xi@ - 1, yi@ + 1));
        }
        if y + 1 < self.height && self.flag_cell(x, y + 1) {
            m = m + 1;
        }
        proof {
            lemma_flag_at_is(*self, xi@, yi@ + 1);
            assert(m as nat == self.flag_at(xi@ - 1, yi@ - 1) + self.flag_at(xi@, yi@ - 1)
                + self.flag_at(xi@ + 1, yi@ - 1) + self.flag_at(xi@ - 1, yi@)
                + self.flag_at(xi@ + 1, yi@) + self.flag_at(xi@ - 1, yi@ + 1)
                + self.flag_at(xi@, yi@ + 1));
        }
        if x + 1 < self.width && y + 1 < self.height && self.flag_cell(x + 1, y + 1) {
            m = m + 1;
        }
        proof {
            lemma_flag_at_is(*self, xi@ + 1, yi@ + 1);
            assert(m as nat == self.adj_flags(xi@, yi@));
        }
        m
    }

    fn mine_cell(&self, x: usize, y: usize) -> (r: bool)
        requires
            self.dims_ok(),
            x < self.width,
            y < self.height,
        ensures
            r == self.cell_of(x as int, y as int).is_mine,
    {
        proof {
            lemma_index_bound(*self, x as int, y as int);
        }
        self.cells[y * self.width + x].is_mine
    }

    fn flag_cell(&self, x: usize, y: usize) -> (r: bool)
        requires
            self.dims_ok(),
            x < self.width,
            y < self.height,
        ensures
            r == (self.state_of(x as int, y as int) == CellState::Flagged),
    {
        proof {
            lemma_index_bound(*self, x as int, y as int);
        }
        match self.cells[y * self.width + x].state {
            CellState::Flagged => true,
            _ => false,
        }
    }

    /// Reads one cell, reporting `OutOfBounds` exactly on invalid coordinates.
    pub fn get(&self, x: usize, y: usize) -> (r: Result<Cell, GameError>)
        requires
            self.dims_ok(),
        ensures
            match r {
                Ok(c) => self.in_bounds(x as int, y as int) && c == self.cell_of(
                    x as int,
                    y as int,
                ),
                Err(e) => !self.in_bounds(x as int, y as int) && e == GameError::OutOfBounds,
            },
    {
        if x < self.width && y < self.height {
            proof {
                lemma_index_bound(*self, x as int, y as int);
            }
            Ok(self.cells[y * self.width + x])
        } else {
            Err(GameError::OutOfBounds)
        }
    }

    /// Hands out a copy of every cell, in row-major order, for scans
    /// such as the win check.
    pub fn iter(&self) -> (r: Vec<Cell>)
        ensures
            r@ == self.cells@,
    {
        let mut r: Vec<Cell> = Vec::new();
        let mut i: usize = 0;
        while i < self.cells.len()
            invariant
                i <= self.cells@.len(),
                r@ == self.cells@.subrange(0, i as int),
            decreases self.cells@.len() - i,
        {
            r.push(self.cells[i]);
            proof {
                assert(r@ =~= self.cells@.subrange(0, i + 1 as int));
            }
            i = i + 1;
        }
        proof {
            assert(r@ =~= self.cells@);
        }
        r
    }
}

/// Every index of the cell vector is the index of exactly one in-bounds
/// coordinate (`x = i mod width`, `y = i div width`).
pub proof fn lemma_coord_of_index(b: Board, i: int)
    requires
        b.dims_ok(),
        0 <= i < b.cells@.len(),
    ensures
        b.in_bounds(i % (b.width as int), i / (b.width as int)),
        b.idx_of(i % (b.width as int), i / (b.width as int)) == i,
{
    let w = b.width as int;
    let h = b.height as int;
    vstd::arithmetic::div_mod::lemma_fundamental_div_mod(i, w);
    vstd::arithmetic::div_mod::lemma_mod_bound(i, w);
    assert(0 <= i / w < h) by (nonlinear_arith)
        requires
            i == w * (i / w) + (i % w),
            0 <= i % w < w,
            0 <= i < w * h,
            1 <= w,
            1 <= h,
    ;
}

/// Boards of the same dimensions that agree on every in-bounds
/// coordinate hold equal cell vectors.
pub proof fn lemma_cells_equal_by_coords(a: Board, b: Board)
    requires
        a.dims_ok(),
        b.width == a.width,
        b.height == a.height,
        b.cells@.len() == a.cells@.len(),
        forall|x: int, y: int| #![trigger b.cell_of(x, y)]
            a.in_bounds(x, y) ==> b.cell_of(x, y) == a.cell_of(x, y),
    ensures
        b.cells@ == a.cells@,
{
    assert forall|i: int| 0 <= i < a.cells@.len() implies a.cells@[i] == b.cells@[i] by {
        lemma_coord_of_index(a, i);
        let x = i % (a.width as int);
        let y = i / (a.width as int);
        assert(b.cell_of(x, y) == a.cell_of(x, y));
    }
    assert(a.cells@ =~= b.cells@);
}

/// Replacing a `Covered` cell by a non-`Covered` one lowers the covered
/// count by exactly one (the reveal loop's termination argument).
pub proof fn lemma_count_covered_update(s: Seq<Cell>, i: int, c: Cell)
    requires
        0 <= i < s.len(),
        s[i].state == CellState::Covered,
        c.state != CellState::Covered,
    ensures
        count_covered(s.update(i, c)) + 1 == count_covered(s),
    decreases s.len(),
{
    let t = s.update(i, c);
    if i == s.len() - 1 {
        assert(t.drop_last() =~= s.drop_last());
        assert(t.last() == c);
    } else {
        assert(t.drop_last() =~= s.drop_last().update(i, c));
        assert(t.last() == s.last());
        lemma_count_covered_update(s.drop_last(), i, c);
    }
}

/// Mine placement equal cell by cell (and equal dimensions) keeps every
/// neighbor mine count unchanged, whatever happened to the cell states.
pub proof fn lemma_adj_mines_preserved(b0: Board, b1: Board, x: int, y: int)
    requires
        b1.width == b0.width,
        b1.height == b0.height,
        b1.cells@.len() == b0.cells@.len(),
        forall|i: int| 0 <= i < b0.cells@.len()
            ==> (#[trigger] b1.cells@[i]).is_mine == b0.cells@[i].is_mine,
    ensures
        b1.adj_mines(x, y) == b0.adj_mines(x, y),
{
    assert forall|u: int, v: int| #[trigger] b1.mine_at(u, v) == b0.mine_at(u, v) by {
        if b0.in_bounds(u, v) && 0 <= b0.idx_of(u, v) < b0.cells@.len() {
            assert(b1.cells@[b0.idx_of(u, v)].is_mine == b0.cells@[b0.idx_of(u, v)].is_mine);
        }
    }
}

/// What end-of-game disclosure does to one cell.
pub open spec fn disclosed_cell(c: Cell) -> Cell {
    if c.is_mine && (c.state == CellState::Covered || c.state == CellState::Flagged) {
        Cell { is_mine: true, state: CellState::Exploded }
    } else {
        c
    }
}

/// Relation between a board and its end-of-game disclosure: every still
/// covered or flagged mine is flipped to `Exploded`; nothing else moves.
pub open spec fn disclose_post(b0: Board, b1: Board) -> bool {
    &&& b1.width == b0.width
    &&& b1.height == b0.height
    &&& b1.mines == b0.mines
    &&& b1.cells@.len() == b0.cells@.len()
    &&& forall|i: int| 0 <= i < b0.cells@.len()
        ==> b1.cells@[i] == disclosed_cell(#[trigger] b0.cells@[i])
}

impl Board {
    /// End-of-game disclosure: flips every remaining `Covered` or
    /// `Flagged` mine to the `Exploded` display state, leaving every
    /// non-mine cell untouched.
    pub fn disclose_mines(&mut self)
        requires
            old(self).wf(),
        ensures
            final(self).wf(),
            disclose_post(*old(self), *final(self)),
    {
        let ghost b0 = *self;
        let n = self.cells.len();
        let mut i: usize = 0;
        while i < n
            invariant
                self.width == b0.width,
                self.height == b0.height,
                self.mines == b0.mines,
                self.cells@.len() == b0.cells@.len(),
                n == b0.cells@.len(),
                i <= n,
                forall|j: int| 0 <= j < i
                    ==> self.cells@[j] == disclosed_cell(#[trigger] b0.cells@[j]),
                forall|j: int| i <= j < n ==> self.cells@[j] == b0.cells@[j],
            decreases n - i,
        {
            let c = self.cells[i];
            if c.is_mine {
                match c.state {
                    CellState::Covered | CellState::Flagged => {
                        self.cells[i] = Cell { is_mine: true, state: CellState::Exploded };
                    },
                    _ => {},
                }
            }
            i = i + 1;
        }
        proof {
            assert forall|x: int, y: int| self.in_bounds(x, y) implies #[trigger] self.wf_cell_at(
                x,
                y,
            ) by {
                assert(b0.wf_cell_at(x, y));
                lemma_index_bound(b0, x, y);
                lemma_adj_mines_preserved(b0, *self, x, y);
                assert(self.cells@[b0.idx_of(x, y)] == disclosed_cell(b0.cells@[b0.idx_of(x, y)]));
            }
        }
    }

    /// The win check of the session controller: true exactly when every
    /// non-mine cell has been revealed.
    #[verifier::loop_isolation(false)]
    pub fn check_win(&self) -> (r: bool)
        requires
            self.dims_ok(),
        ensures
            r == self.win_cond(),
    {
        let mut y: usize = 0;
        while y < self.height
            invariant
                y <= self.height,
                forall|u: int, v: int|
                    0 <= v < y && 0 <= u < self.width && !(#[trigger] self.cell_of(u, v)).is_mine
                        ==> self.state_of(u, v).is_revealed(),
            decreases self.height - y,
        {
            let mut x: usize = 0;
            while x < self.width
                invariant
                    x <= self.width,
                    y < self.height,
                    forall|u: int|
                        0 <= u < x && !(#[trigger] self.cell_of(u, y as int)).is_mine
                            ==> self.state_of(u, y as int).is_revealed(),
                decreases self.width - x,
            {
                proof {
                    lemma_index_bound(*self, x as int, y as int);
                }
                let c = self.cells[y * self.width + x];
                if !c.is_mine {
                    match c.state {
                        CellState::Revealed(_) => {},
                        _ => {
                            proof {
                                assert(self.cell_of(x as int, y as int) == c);
                            }
                            return false;
                        },
                    }
                }
                proof {
                    assert(self.cell_of(x as int, y as int) == c);
                }
                x = x + 1;
            }
            y = y + 1;
        }
        true
    }
}

/// Relies on `rand::seq::SliceRandom::shuffle` with `rand::rng()`: an
/// in-place Fisher-Yates permutation of the slice, so the length and the
/// multiset of elements are unchanged. Its documentation promises a
/// permutation picked uniformly at random, but which one comes out
/// depends on the thread-local generator, so nothing more is assumed.
#[verifier::external_body]
fn shuffle_flags(v: &mut Vec<bool>)
    ensures
        final(v)@.len() == old(v)@.len(),
        final(v)@.to_multiset() == old(v)@.to_multiset(),
{
    let mut rng = rand::rng();
    v.shuffle(&mut rng);
}

pub proof fn lemma_count_trues_multiset(s: Seq<bool>)
    ensures
        count_trues(s) == s.to_multiset().count(true),
    decreases s.len(),
{
    broadcast use vstd::seq_lib::group_to_multiset_ensures;
    broadcast use vstd::multiset::group_multiset_axioms;

    if s.len() == 0 {
        assert(s.to_multiset() =~= Multiset::<bool>::empty());
    } else {
        let t = s.drop_last();
        lemma_count_trues_multiset(t);
        assert(t.push(s.last()) =~= s);
        assert(t.push(s.last()).to_multiset() =~= t.to_multiset().insert(s.last()));
    }
}

impl Board {
    /// Generates a fresh board: `width * height` covered cells with
    /// exactly `min(mines, width * height)` of them mines, the placement
    /// drawn by shuffling the mine slots (uniformly random placement).
    pub fn new(width: usize, height: usize, mines: usize) -> (b: Board)
        requires
            1 <= width,
            1 <= height,
            width * height <= usize::MAX,
        ensures
            fresh_board(b, width, height, mines),
    {
        let n = width * height;
        let mut flags: Vec<bool> = Vec::new();
        let mut i: usize = 0;
        while i < n
            invariant
                i <= n,
                n == width * height,
                mines <= usize::MAX,
                flags@.len() == i,
                count_trues(flags@) == min_nat(i as nat, mines as nat),
            decreases n - i,
        {
            let ghost prev = flags@;
            flags.push(i < mines);
            proof {
                assert(flags@.drop_last() =~= prev);
            }
            i = i + 1;
        }
        proof {
            lemma_count_trues_multiset(flags@);
        }
        shuffle_flags(&mut flags);
        proof {
            lemma_count_trues_multiset(flags@);
            assert(count_trues(flags@) == min_nat(n as nat, mines as nat));
        }
        let mut cells: Vec<Cell> = Vec::new();
        let mut i: usize = 0;
        while i < n
            invariant
                i <= n,
                flags@.len() == n,
                cells@.len() == i,
                count_mines(cells@) == count_trues(flags@.subrange(0, i as int)),
                forall|k: int| 0 <= k < i ==> (#[trigger] cells@[k]).state == CellState::Covered,
            decreases n - i,
        {
            let ghost prevc = cells@;
            cells.push(Cell { is_mine: flags[i], state: CellState::Covered });
            proof {
                assert(cells@.drop_last() =~= prevc);
                assert(flags@.subrange(0, i + 1 as int).drop_last() =~= flags@.subrange(
                    0,
                    i as int,
                ));
                assert(flags@.subrange(0, i + 1 as int).last() == flags@[i as int]);
            }
            i = i + 1;
        }
        proof {
            assert(flags@.subrange(0, n as int) =~= flags@);
        }
        let b = Board { width, height, mines, cells };
        proof {
            assert forall|x: int, y: int| b.in_bounds(x, y) implies #[trigger] b.wf_cell_at(
                x,
                y,
            ) by {
                lemma_index_bound(b, x, y);
            }
            assert forall|x: int, y: int| b.in_bounds(x, y) implies #[trigger] b.state_of(x, y)
                == CellState::Covered by {
                lemma_index_bound(b, x, y);
            }
            assert(min_nat(n as nat, mines as nat) == min_nat(mines as nat, (width * height) as nat));
        }
        b
    }

    /// Builds a board from an explicit mine layout (row-major, one flag
    /// per cell), for deterministic setups. Returns `None` exactly when
    /// the dimensions are unusable or the layout length does not match.
    pub fn from_layout(width: usize, height: usize, layout: Vec<bool>) -> (r: Option<Board>)
        ensures
            match r {
                Some(b) => {
                    &&& 1 <= width && 1 <= height
                    &&& width * height <= usize::MAX
                    &&& layout@.len() == width * height
                    &&& b.wf()
                    &&& b.width == width
                    &&& b.height == height
                    &&& b.mines as nat == count_trues(layout@)
                    &&& b.all_covered()
                    &&& b.mine_total() == count_trues(layout@)
                    &&& forall|k: int| 0 <= k < layout@.len()
                        ==> (#[trigger] b.cells@[k]).is_mine == layout@[k]
                },
                None => !(1 <= width && 1 <= height && width * height <= usize::MAX
                    && layout@.len() == width * height),
            },
    {
        if width < 1 || height < 1 {
            return None;
        }
        proof {
            assert((width as u128) * (height as u128) <= u128::MAX) by (nonlinear_arith)
                requires
                    width <= u64::MAX,
                    height <= u64::MAX,
            ;
        }
        let n_wide = (width as u128) * (height as u128);
        if n_wide > usize::MAX as u128 {
            return None;
        }
        let n = width * height;
        if layout.len() != n {
            return None;
        }
        let mut cells: Vec<Cell> = Vec::new();
        let mut mine_count: usize = 0;
        let mut i: usize = 0;
        while i < n
            invariant
                i <= n,
                layout@.len() == n,
                cells@.len() == i,
                mine_count <= i,
                mine_count as nat == count_trues(layout@.subrange(0, i as int)),
                count_mines(cells@) == count_trues(layout@.subrange(0, i as int)),
                forall|k: int| 0 <= k < i ==> (#[trigger] cells@[k]).state == CellState::Covered,
                forall|k: int| 0 <= k < i ==> (#[trigger] cells@[k]).is_mine == layout@[k],
            decreases n - i,
        {
            let ghost prevc = cells@;
            let is_mine = layout[i];
            cells.push(Cell { is_mine, state: CellState::Covered });
            if is_mine {
                mine_count = mine_count + 1;
            }
            proof {
                assert(cells@.drop_last() =~= prevc);
                assert(layout@.subrange(0, i + 1 as int).drop_last() =~= layout@.subrange(
                    0,
                    i as int,
                ));
                assert(layout@.subrange(0, i + 1 as int).last() == layout@[i as int]);
            }
            i = i + 1;
        }
        proof {
            assert(layout@.subrange(0, n as int) =~= layout@);
        }
        let b = Board { width, height, mines: mine_count, cells };
        proof {
            assert forall|x: int, y: int| b.in_bounds(x, y) implies #[trigger] b.wf_cell_at(
                x,
                y,
            ) by {
                lemma_index_bound(b, x, y);
            }
            assert forall|x: int, y: int| b.in_bounds(x, y) implies #[trigger] b.state_of(x, y)
                == CellState::Covered by {
                lemma_index_bound(b, x, y);
            }
        }
        Some(b)
    }
}

} // verus!
