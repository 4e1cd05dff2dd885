use vstd::prelude::*;
use crate::board::{Board, lemma_adj_mines_preserved, lemma_index_bound, lemma_index_injective,
    lemma_zero_adj_no_mine};
use crate::cell::{Cell, CellState};
use crate::grid::{coords_have, is_adjacent, lemma_coords_have_append, lemma_coords_have_pop,
    lemma_coords_have_prefix, neighbors};

verus! {

/// Dimensions, requested mine count and mine placement are unchanged.
pub open spec fn same_layout(b0: Board, b1: Board) -> bool {
    &&& b1.width == b0.width
    &&& b1.height == b0.height
    &&& b1.mines == b0.mines
    &&& b1.cells@.len() == b0.cells@.len()
    &&& forall|i: int| 0 <= i < b0.cells@.len()
        ==> (#[trigger] b1.cells@[i]).is_mine == b0.cells@[i].is_mine
}

/// The states of `(x, y)` in `b0` and `b1` differ.
pub open spec fn changed(b0: Board, b1: Board, x: int, y: int) -> bool {
    b1.state_of(x, y) != b0.state_of(x, y)
}

/// How one cell may move during a reveal command: it stays put, or it
/// was `Covered` and is now opened the only way its mine flag allows —
/// `Exploded` for a mine, `Revealed(adj_mines)` otherwise.
pub open spec fn reveal_step_cell(b0: Board, b1: Board, x: int, y: int) -> bool {
    ||| b1.cell_of(x, y) == b0.cell_of(x, y)
    ||| (b0.state_of(x, y) == CellState::Covered && if b0.cell_of(x, y).is_mine {
        b1.state_of(x, y) == CellState::Exploded
    } else {
        b1.state_of(x, y) == CellState::Revealed(b0.adj_mines(x, y) as u8)
    })
}

/// Every cell moved legally (see `reveal_step_cell`) and the layout is
/// unchanged. This pins the new value of every changed cell.
pub open spec fn step_legal(b0: Board, b1: Board) -> bool {
    &&& same_layout(b0, b1)
    &&& forall|x: int, y: int| #![trigger b1.cell_of(x, y)]
        b0.in_bounds(x, y) ==> reveal_step_cell(b0, b1, x, y)
}

/// At most the cell `(x, y)` differs between `b0` and `b1`.
pub open spec fn only_cell_changed(b0: Board, b1: Board, x: int, y: int) -> bool {
    forall|u: int, v: int| #![trigger b1.cell_of(u, v)]
        b0.in_bounds(u, v) && !(u == x && v == y) ==> b1.cell_of(u, v) == b0.cell_of(u, v)
}

/// Closure of the cascade: whenever a zero-adjacency non-mine cell was
/// opened by this command, every covered in-bounds neighbor of it was
/// opened too.
pub open spec fn cascade_closed(b0: Board, b1: Board) -> bool {
    forall|x: int, y: int, u: int, v: int| #![trigger is_adjacent(x, y, u, v), b1.cell_of(x, y)]
        (b0.in_bounds(x, y) && changed(b0, b1, x, y) && !b0.cell_of(x, y).is_mine
            && b0.adj_mines(x, y) == 0 && b0.in_bounds(u, v) && is_adjacent(x, y, u, v)
            && b0.state_of(u, v) == CellState::Covered)
            ==> b1.state_of(u, v) != CellState::Covered
}

/// Some cell newly shows `Exploded` (a mine was hit by this command).
pub open spec fn some_new_explosion(b0: Board, b1: Board) -> bool {
    exists|x: int, y: int| #![trigger b1.cell_of(x, y)]
        b0.in_bounds(x, y) && b1.state_of(x, y) == CellState::Exploded
            && b0.state_of(x, y) != CellState::Exploded
}

/// A flood-fill path on the pre-command board `bd`: every cell on it is
/// covered and in bounds, consecutive cells are adjacent, and every cell
/// but the last is a zero-adjacency non-mine cell (so the cascade walks
/// through it).
pub open spec fn path_ok(bd: Board, p: Seq<(int, int)>) -> bool {
    &&& p.len() >= 1
    &&& (forall|i: int| 0 <= i < p.len() ==> bd.in_bounds((#[trigger] p[i]).0, p[i].1)
        && bd.state_of(p[i].0, p[i].1) == CellState::Covered)
    &&& (forall|i: int| 0 <= i < p.len() - 1 ==> is_adjacent(
        (#[trigger] p[i]).0,
        p[i].1,
        p[i + 1].0,
        p[i + 1].1,
    ) && !bd.cell_of(p[i].0, p[i].1).is_mine && bd.adj_mines(p[i].0, p[i].1) == 0)
}

/// `(tx, ty)` lies in the flood-fill region grown from `(sx, sy)`: the
/// connected zero-adjacency region plus its border.
pub open spec fn reach(bd: Board, sx: int, sy: int, tx: int, ty: int) -> bool {
    exists|p: Seq<(int, int)>| #[trigger] path_ok(bd, p) && p[0] == (sx, sy)
        && p[p.len() - 1] == (tx, ty)
}

/// `(tx, ty)` is reached by a chord on `(cx, cy)`: a reveal started at
/// some covered in-bounds neighbor of `(cx, cy)` arrives at it.
pub open spec fn chord_reach(bd: Board, cx: int, cy: int, tx: int, ty: int) -> bool {
    exists|u: int, v: int| #![trigger is_adjacent(cx, cy, u, v)]
        bd.in_bounds(u, v) && is_adjacent(cx, cy, u, v)
            && bd.state_of(u, v) == CellState::Covered && reach(bd, u, v, tx, ty)
}

/// The full contract of `Board::uncover(x, y)` relating the old board
/// `b0` to the new board `b1` and the mine-hit signal.
pub open spec fn reveal_post(b0: Board, x: int, y: int, b1: Board, hit: bool) -> bool {
    &&& step_legal(b0, b1)
    &&& (hit <==> some_new_explosion(b0, b1))
    &&& match b0.state_of(x, y) {
        CellState::Flagged => b1.cells@ == b0.cells@,
        CellState::Exploded => b1.cells@ == b0.cells@,
        CellState::Covered => if b0.cell_of(x, y).is_mine {
            &&& b1.state_of(x, y) == CellState::Exploded
            &&& only_cell_changed(b0, b1, x, y)
            &&& hit
        } else if b0.adj_mines(x, y) != 0 {
            &&& b1.state_of(x, y) == CellState::Revealed(b0.adj_mines(x, y) as u8)
            &&& only_cell_changed(b0, b1, x, y)
            &&& !hit
        } else {
            &&& b1.state_of(x, y) == CellState::Revealed(0)
            &&& cascade_closed(b0, b1)
            &&& (forall|u: int, v: int| #![trigger b1.cell_of(u, v)]
                b0.in_bounds(u, v) && changed(b0, b1, u, v) ==> reach(b0, x, y, u, v))
            &&& !hit
        },
        CellState::Revealed(_) => if b0.adj_flags(x, y) >= b0.adj_mines(x, y) {
            &&& (forall|u: int, v: int| #![trigger is_adjacent(x, y, u, v)]
                b0.in_bounds(u, v) && is_adjacent(x, y, u, v)
                    && b0.state_of(u, v) == CellState::Covered
                    ==> b1.state_of(u, v) != CellState::Covered)
            &&& cascade_closed(b0, b1)
            &&& (forall|u: int, v: int| #![trigger b1.cell_of(u, v)]
                b0.in_bounds(u, v) && changed(b0, b1, u, v) ==> chord_reach(b0, x, y, u, v))
        } else {
            b1.cells@ == b0.cells@ && !hit
        },
    }
}

/// What `toggleFlag` does to the targeted state; all other states are
/// protected from toggling.
pub open spec fn toggle_result(s: CellState) -> CellState {
    match s {
        CellState::Covered => CellState::Flagged,
        CellState::Flagged => CellState::Covered,
        other => other,
    }
}

/// The full contract of `Board::toggle_flag(x, y)`.
pub open spec fn toggle_post(b0: Board, x: int, y: int, b1: Board) -> bool {
    &&& b1.width == b0.width
    &&& b1.height == b0.height
    &&& b1.mines == b0.mines
    &&& b1.cells@.len() == b0.cells@.len()
    &&& b1.cell_of(x, y).is_mine == b0.cell_of(x, y).is_mine
    &&& b1.state_of(x, y) == toggle_result(b0.state_of(x, y))
    &&& only_cell_changed(b0, b1, x, y)
}

/// Writing one cell by index changes exactly that coordinate.
pub proof fn lemma_update_cell(pre: Board, post: Board, x: int, y: int, c: Cell)
    requires
        pre.dims_ok(),
        post.width == pre.width,
        post.height == pre.height,
        post.mines == pre.mines,
        pre.in_bounds(x, y),
        post.cells@ == pre.cells@.update(pre.idx_of(x, y), c),
    ensures
        post.dims_ok(),
        post.cell_of(x, y) == c,
        forall|u: int, v: int| #![trigger post.cell_of(u, v)]
            pre.in_bounds(u, v) && !(u == x && v == y) ==> post.cell_of(u, v) == pre.cell_of(u, v),
{
    lemma_index_bound(pre, x, y);
    assert forall|u: int, v: int| pre.in_bounds(u, v) && !(u == x && v == y)
        implies #[trigger] post.cell_of(u, v) == pre.cell_of(u, v) by {
        lemma_index_bound(pre, u, v);
        lemma_index_injective(pre.width as int, x, y, u, v);
    }
}

/// A cell still covered after a legal step was covered before it.
pub proof fn lemma_covered_back(b0: Board, b1: Board, x: int, y: int)
    requires
        step_legal(b0, b1),
        b0.in_bounds(x, y),
        b1.state_of(x, y) == CellState::Covered,
    ensures
        b0.state_of(x, y) == CellState::Covered,
{
    assert(reveal_step_cell(b0, b1, x, y));
}

pub proof fn lemma_step_legal_refl(b: Board)
    ensures
        step_legal(b, b),
{
}

pub proof fn lemma_step_legal_trans(b0: Board, b1: Board, b2: Board)
    requires
        b0.dims_ok(),
        step_legal(b0, b1),
        step_legal(b1, b2),
    ensures
        step_legal(b0, b2),
{
    assert forall|x: int, y: int| #![trigger b2.cell_of(x, y)] b0.in_bounds(x, y)
        implies reveal_step_cell(b0, b2, x, y) by {
        assert(reveal_step_cell(b0, b1, x, y));
        assert(reveal_step_cell(b1, b2, x, y));
        lemma_adj_mines_preserved(b0, b1, x, y);
    }
}

/// A covered cell reaches itself (the one-cell path).
pub proof fn lemma_reach_self(bd: Board, x: int, y: int)
    requires
        bd.in_bounds(x, y),
        bd.state_of(x, y) == CellState::Covered,
    ensures
        reach(bd, x, y, x, y),
{
    let p: Seq<(int, int)> = seq![(x, y)];
    assert(p[0] == (x, y));
    assert(path_ok(bd, p));
}

/// A flood-fill path extends across one more adjacency step when its
/// end is a covered zero-adjacency non-mine cell.
pub proof fn lemma_reach_extend(bd: Board, sx: int, sy: int, dx: int, dy: int, u: int, v: int)
    requires
        reach(bd, sx, sy, dx, dy),
        bd.in_bounds(dx, dy),
        bd.state_of(dx, dy) == CellState::Covered,
        !bd.cell_of(dx, dy).is_mine,
        bd.adj_mines(dx, dy) == 0,
        is_adjacent(dx, dy, u, v),
        bd.in_bounds(u, v),
        bd.state_of(u, v) == CellState::Covered,
    ensures
        reach(bd, sx, sy, u, v),
{
    let p = choose|p: Seq<(int, int)>| #[trigger] path_ok(bd, p) && p[0] == (sx, sy)
        && p[p.len() - 1] == (dx, dy);
    let q = p.push((u, v));
    assert(q[q.len() - 1] == (u, v));
    assert(q[0] == (sx, sy));
    assert forall|i: int| 0 <= i < q.len() implies bd.in_bounds((#[trigger] q[i]).0, q[i].1)
        && bd.state_of(q[i].0, q[i].1) == CellState::Covered by {
        if i < p.len() {
            assert(q[i] == p[i]);
        } else {
            assert(q[i] == (u, v));
        }
    }
    assert forall|i: int| 0 <= i < q.len() - 1 implies is_adjacent(
        (#[trigger] q[i]).0,
        q[i].1,
        q[i + 1].0,
        q[i + 1].1,
    ) && !bd.cell_of(q[i].0, q[i].1).is_mine && bd.adj_mines(q[i].0, q[i].1) == 0 by {
        if i < p.len() - 1 {
            assert(q[i] == p[i]);
            assert(q[i + 1] == p[i + 1]);
        } else {
            assert(q[i] == p[p.len() - 1]);
            assert(q[i + 1] == (u, v));
        }
    }
    assert(path_ok(bd, q));
}

/// When the start cell is a mine or shows a nonzero count, nothing but
/// the start itself is reached.
pub proof fn lemma_reach_blocked(bd: Board, sx: int, sy: int, tx: int, ty: int)
    requires
        reach(bd, sx, sy, tx, ty),
        bd.cell_of(sx, sy).is_mine || bd.adj_mines(sx, sy) != 0,
    ensures
        tx == sx && ty == sy,
{
    let p = choose|p: Seq<(int, int)>| #[trigger] path_ok(bd, p) && p[0] == (sx, sy)
        && p[p.len() - 1] == (tx, ty);
    if p.len() >= 2 {
        assert(!bd.cell_of((p[0]).0, (p[0]).1).is_mine && bd.adj_mines((p[0]).0, (p[0]).1) == 0);
    }
}

/// Nothing reached from a non-mine start is a mine (the cascade can
/// never hit one).
pub proof fn lemma_reach_no_mine(bd: Board, sx: int, sy: int, tx: int, ty: int)
    requires
        bd.dims_ok(),
        reach(bd, sx, sy, tx, ty),
        !bd.cell_of(sx, sy).is_mine,
    ensures
        !bd.cell_of(tx, ty).is_mine,
{
    let p = choose|p: Seq<(int, int)>| #[trigger] path_ok(bd, p) && p[0] == (sx, sy)
        && p[p.len() - 1] == (tx, ty);
    if p.len() >= 2 {
        let i = p.len() - 2;
        assert(is_adjacent((p[i]).0, (p[i]).1, (p[i + 1]).0, (p[i + 1]).1)
            && !bd.cell_of((p[i]).0, (p[i]).1).is_mine && bd.adj_mines((p[i]).0, (p[i]).1) == 0);
        lemma_zero_adj_no_mine(bd, (p[i]).0, (p[i]).1, tx, ty);
    }
}

/// `(u, v)` is reached from some cell of `wl0` that was covered on `b0`.
pub open spec fn reach_from_init(b0: Board, wl0: Seq<(usize, usize)>, u: int, v: int) -> bool {
    exists|k: int|
        0 <= k < wl0.len() && b0.state_of((#[trigger] wl0[k]).0 as int, wl0[k].1 as int)
            == CellState::Covered && reach(b0, wl0[k].0 as int, wl0[k].1 as int, u, v)
}

pub proof fn lemma_reach_from_init_extend(
    b0: Board,
    wl0: Seq<(usize, usize)>,
    dx: int,
    dy: int,
    u: int,
    v: int,
)
    requires
        reach_from_init(b0, wl0, dx, dy),
        b0.in_bounds(dx, dy),
        b0.state_of(dx, dy) == CellState::Covered,
        !b0.cell_of(dx, dy).is_mine,
        b0.adj_mines(dx, dy) == 0,
        is_adjacent(dx, dy, u, v),
        b0.in_bounds(u, v),
        b0.state_of(u, v) == CellState::Covered,
    ensures
        reach_from_init(b0, wl0, u, v),
{
    let k = choose|k: int|
        0 <= k < wl0.len() && b0.state_of((#[trigger] wl0[k]).0 as int, wl0[k].1 as int)
            == CellState::Covered && reach(b0, wl0[k].0 as int, wl0[k].1 as int, dx, dy);
    lemma_reach_extend(b0, wl0[k].0 as int, wl0[k].1 as int, dx, dy, u, v);
}

/// Changing one cell away from / to anything but `Exploded` neither
/// creates nor removes a new explosion relative to `b0`.
pub proof fn lemma_explosion_transfer(b0: Board, b1: Board, b2: Board, x: int, y: int)
    requires
        b1.width == b0.width,
        b1.height == b0.height,
        b2.width == b0.width,
        b2.height == b0.height,
        only_cell_changed(b1, b2, x, y),
        b1.state_of(x, y) != CellState::Exploded,
        b2.state_of(x, y) != CellState::Exploded,
    ensures
        some_new_explosion(b0, b2) <==> some_new_explosion(b0, b1),
{
    if some_new_explosion(b0, b1) {
        let (u, v) = choose|u: int, v: int| #![trigger b1.cell_of(u, v)]
            b0.in_bounds(u, v) && b1.state_of(u, v) == CellState::Exploded && b0.state_of(u, v)
                != CellState::Exploded;
        assert(b2.cell_of(u, v) == b1.cell_of(u, v));
        assert(some_new_explosion(b0, b2));
    }
    if some_new_explosion(b0, b2) {
        let (u, v) = choose|u: int, v: int| #![trigger b2.cell_of(u, v)]
            b0.in_bounds(u, v) && b2.state_of(u, v) == CellState::Exploded && b0.state_of(u, v)
                != CellState::Exploded;
        assert(b2.cell_of(u, v) == b1.cell_of(u, v));
        assert(some_new_explosion(b0, b1));
    }
}

/// One worklist step: opening the covered cell `(x, y)` the only legal
/// way keeps the board well-formed and every step relation intact.
pub proof fn lemma_worklist_step(b0: Board, prev: Board, post: Board, x: int, y: int, c: Cell)
    requires
        b0.wf(),
        prev.wf(),
        step_legal(b0, prev),
        prev.in_bounds(x, y),
        prev.state_of(x, y) == CellState::Covered,
        c.is_mine == prev.cell_of(x, y).is_mine,
        c.state == if c.is_mine {
            CellState::Exploded
        } else {
            CellState::Revealed(prev.adj_mines(x, y) as u8)
        },
        post.width == prev.width,
        post.height == prev.height,
        post.mines == prev.mines,
        post.cells@ == prev.cells@.update(prev.idx_of(x, y), c),
    ensures
        post.wf(),
        step_legal(b0, post),
        step_legal(prev, post),
        only_cell_changed(prev, post, x, y),
        post.cell_of(x, y) == c,
        b0.state_of(x, y) == CellState::Covered,
        b0.cell_of(x, y).is_mine == c.is_mine,
        b0.adj_mines(x, y) == prev.adj_mines(x, y),
{
    lemma_update_cell(prev, post, x, y, c);
    lemma_index_bound(prev, x, y);
    assert forall|i: int| 0 <= i < prev.cells@.len()
        implies (#[trigger] post.cells@[i]).is_mine == prev.cells@[i].is_mine by {}
    assert forall|u: int, v: int| #![trigger post.cell_of(u, v)] prev.in_bounds(u, v)
        implies reveal_step_cell(prev, post, u, v) by {
        if u == x && v == y {
            assert(post.cell_of(x, y) == c);
        } else {
            assert(post.cell_of(u, v) == prev.cell_of(u, v));
        }
    }
    assert(step_legal(prev, post));
    lemma_step_legal_trans(b0, prev, post);
    lemma_covered_back(b0, prev, x, y);
    assert(reveal_step_cell(b0, prev, x, y));
    lemma_adj_mines_preserved(b0, prev, x, y);
    assert forall|u: int, v: int| post.in_bounds(u, v) implies #[trigger] post.wf_cell_at(u, v) by {
        assert(prev.wf_cell_at(u, v));
        lemma_adj_mines_preserved(prev, post, u, v);
        if u == x && v == y {
            assert(post.cell_of(x, y) == c);
        } else {
            assert(post.cell_of(u, v) == prev.cell_of(u, v));
        }
    }
}

impl Board {
    /// Toggles the flag of a covered cell: `Covered` becomes `Flagged`
    /// and back; any revealed or exploded cell is silently left alone.
    /// No other cell is touched and the mine layout is unchanged.
    pub fn toggle_flag(&mut self, x: usize, y: usize)
        requires
            old(self).wf(),
            x < old(self).width,
            y < old(self).height,
        ensures
            final(self).wf(),
            toggle_post(*old(self), x as int, y as int, *final(self)),
    {
        let ghost b0 = *self;
        let ghost xi = x as int;
        let ghost yi = y as int;
        proof {
            lemma_index_bound(b0, xi, yi);
        }
        let idx = y * self.width + x;
        let c = self.cells[idx];
        match c.state {
            CellState::Covered => {
                self.cells[idx] = Cell { is_mine: c.is_mine, state: CellState::Flagged };
            },
            CellState::Flagged => {
                self.cells[idx] = Cell { is_mine: c.is_mine, state: CellState::Covered };
            },
            _ => {},
        }
        proof {
            match c.state {
                CellState::Covered | CellState::Flagged => {
                    lemma_update_cell(
                        b0,
                        *self,
                        xi,
                        yi,
                        Cell { is_mine: c.is_mine, state: toggle_result(c.state) },
                    );
                    assert forall|i: int| 0 <= i < b0.cells@.len()
                        implies (#[trigger] self.cells@[i]).is_mine == b0.cells@[i].is_mine by {}
                },
                _ => {
                    assert(self.cells@ =~= b0.cells@);
                },
            }
            assert forall|u: int, v: int| self.in_bounds(u, v)
                implies #[trigger] self.wf_cell_at(u, v) by {
                assert(b0.wf_cell_at(u, v));
                lemma_adj_mines_preserved(b0, *self, u, v);
            }
        }
    }
}

/// Every worklist entry is an in-bounds coordinate.
pub open spec fn wl_sound(b0: Board, wl: Seq<(usize, usize)>) -> bool {
    forall|k: int| 0 <= k < wl.len() ==> b0.in_bounds((#[trigger] wl[k]).0 as int, wl[k].1 as int)
}

/// Every still-covered worklist entry is reached from the initial items.
pub open spec fn wl_reachable(b0: Board, wl0: Seq<(usize, usize)>, wl: Seq<(usize, usize)>) -> bool {
    forall|k: int|
        0 <= k < wl.len() && b0.state_of((#[trigger] wl[k]).0 as int, wl[k].1 as int)
            == CellState::Covered ==> reach_from_init(b0, wl0, wl[k].0 as int, wl[k].1 as int)
}

/// The cascade closure, weakened by the pending worklist: a covered
/// neighbor of an opened zero cell is opened or still queued.
pub open spec fn closure_pending(b0: Board, cur: Board, wl: Seq<(usize, usize)>) -> bool {
    forall|x: int, y: int, u: int, v: int|
        #![trigger is_adjacent(x, y, u, v), cur.cell_of(x, y)]
        (b0.in_bounds(x, y) && changed(b0, cur, x, y) && !b0.cell_of(x, y).is_mine
            && b0.adj_mines(x, y) == 0 && b0.in_bounds(u, v) && is_adjacent(x, y, u, v)
            && b0.state_of(u, v) == CellState::Covered) ==> (cur.state_of(u, v)
            != CellState::Covered || coords_have(wl, u, v))
}

/// Every initially queued covered item is opened or still queued.
pub open spec fn init_pending(
    b0: Board,
    cur: Board,
    wl0: Seq<(usize, usize)>,
    wl: Seq<(usize, usize)>,
) -> bool {
    forall|k: int|
        0 <= k < wl0.len() && b0.state_of((#[trigger] wl0[k]).0 as int, wl0[k].1 as int)
            == CellState::Covered ==> (cur.state_of(wl0[k].0 as int, wl0[k].1 as int)
            != CellState::Covered || coords_have(wl, wl0[k].0 as int, wl0[k].1 as int))
}

/// Every change so far is reached from the initial items.
pub open spec fn changes_reachable(b0: Board, cur: Board, wl0: Seq<(usize, usize)>) -> bool {
    forall|u: int, v: int| #![trigger cur.cell_of(u, v)]
        b0.in_bounds(u, v) && changed(b0, cur, u, v) ==> reach_from_init(b0, wl0, u, v)
}

/// Popping an item whose cell is (by now) not covered keeps every
/// worklist invariant.
proof fn lemma_after_skip(
    b0: Board,
    cur: Board,
    prev_wl: Seq<(usize, usize)>,
    cur_wl: Seq<(usize, usize)>,
    wl0: Seq<(usize, usize)>,
    x: int,
    y: int,
)
    requires
        prev_wl.len() >= 1,
        cur_wl == prev_wl.subrange(0, prev_wl.len() - 1),
        prev_wl[prev_wl.len() - 1].0 as int == x,
        prev_wl[prev_wl.len() - 1].1 as int == y,
        cur.state_of(x, y) != CellState::Covered,
        wl_sound(b0, prev_wl),
        wl_reachable(b0, wl0, prev_wl),
        closure_pending(b0, cur, prev_wl),
        init_pending(b0, cur, wl0, prev_wl),
    ensures
        wl_sound(b0, cur_wl),
        wl_reachable(b0, wl0, cur_wl),
        closure_pending(b0, cur, cur_wl),
        init_pending(b0, cur, wl0, cur_wl),
{
    assert forall|k: int| 0 <= k < cur_wl.len() implies b0.in_bounds(
        (#[trigger] cur_wl[k]).0 as int,
        cur_wl[k].1 as int,
    ) by {
        assert(cur_wl[k] == prev_wl[k]);
    }
    assert forall|k: int|
        0 <= k < cur_wl.len() && b0.state_of((#[trigger] cur_wl[k]).0 as int, cur_wl[k].1 as int)
            == CellState::Covered implies reach_from_init(
        b0,
        wl0,
        cur_wl[k].0 as int,
        cur_wl[k].1 as int,
    ) by {
        assert(cur_wl[k] == prev_wl[k]);
    }
    assert forall|x2: int, y2: int, u: int, v: int|
        #![trigger is_adjacent(x2, y2, u, v), cur.cell_of(x2, y2)]
        (b0.in_bounds(x2, y2) && changed(b0, cur, x2, y2) && !b0.cell_of(x2, y2).is_mine
            && b0.adj_mines(x2, y2) == 0 && b0.in_bounds(u, v) && is_adjacent(x2, y2, u, v)
            && b0.state_of(u, v) == CellState::Covered) implies (cur.state_of(u, v)
        != CellState::Covered || coords_have(cur_wl, u, v)) by {
        if cur.state_of(u, v) == CellState::Covered {
            assert(coords_have(prev_wl, u, v));
            lemma_coords_have_pop(prev_wl, cur_wl, u, v);
        }
    }
    assert forall|k: int|
        0 <= k < wl0.len() && b0.state_of((#[trigger] wl0[k]).0 as int, wl0[k].1 as int)
            == CellState::Covered implies (cur.state_of(wl0[k].0 as int, wl0[k].1 as int)
        != CellState::Covered || coords_have(cur_wl, wl0[k].0 as int, wl0[k].1 as int)) by {
        if cur.state_of(wl0[k].0 as int, wl0[k].1 as int) == CellState::Covered {
            assert(coords_have(prev_wl, wl0[k].0 as int, wl0[k].1 as int));
            lemma_coords_have_pop(prev_wl, cur_wl, wl0[k].0 as int, wl0[k].1 as int);
        }
    }
}

/// Opening the popped covered cell (a mine or a numbered cell, so no
/// neighbors are enqueued) keeps every worklist invariant.
proof fn lemma_after_open_plain(
    b0: Board,
    prev: Board,
    post: Board,
    prev_wl: Seq<(usize, usize)>,
    cur_wl: Seq<(usize, usize)>,
    wl0: Seq<(usize, usize)>,
    x: int,
    y: int,
)
    requires
        prev_wl.len() >= 1,
        cur_wl == prev_wl.subrange(0, prev_wl.len() - 1),
        prev_wl[prev_wl.len() - 1].0 as int == x,
        prev_wl[prev_wl.len() - 1].1 as int == y,
        b0.state_of(x, y) == CellState::Covered,
        only_cell_changed(prev, post, x, y),
        b0.width == prev.width,
        b0.height == prev.height,
        post.width == prev.width,
        post.height == prev.height,
        post.state_of(x, y) != CellState::Covered,
        b0.cell_of(x, y).is_mine || b0.adj_mines(x, y) != 0,
        wl_sound(b0, wl0),
        wl_sound(b0, prev_wl),
        wl_reachable(b0, wl0, prev_wl),
        closure_pending(b0, prev, prev_wl),
        init_pending(b0, prev, wl0, prev_wl),
        changes_reachable(b0, prev, wl0),
    ensures
        wl_sound(b0, cur_wl),
        wl_reachable(b0, wl0, cur_wl),
        closure_pending(b0, post, cur_wl),
        init_pending(b0, post, wl0, cur_wl),
        changes_reachable(b0, post, wl0),
{
    assert forall|k: int| 0 <= k < cur_wl.len() implies b0.in_bounds(
        (#[trigger] cur_wl[k]).0 as int,
        cur_wl[k].1 as int,
    ) by {
        assert(cur_wl[k] == prev_wl[k]);
    }
    assert forall|k: int|
        0 <= k < cur_wl.len() && b0.state_of((#[trigger] cur_wl[k]).0 as int, cur_wl[k].1 as int)
            == CellState::Covered implies reach_from_init(
        b0,
        wl0,
        cur_wl[k].0 as int,
        cur_wl[k].1 as int,
    ) by {
        assert(cur_wl[k] == prev_wl[k]);
    }
    assert forall|u: int, v: int| #![trigger post.cell_of(u, v)]
        b0.in_bounds(u, v) && changed(b0, post, u, v) implies reach_from_init(b0, wl0, u, v) by {
        if u == x && v == y {
            assert(prev_wl[prev_wl.len() - 1].0 as int == x);
            assert(reach_from_init(b0, wl0, x, y));
        } else {
            assert(post.cell_of(u, v) == prev.cell_of(u, v));
        }
    }
    assert forall|x2: int, y2: int, u: int, v: int|
        #![trigger is_adjacent(x2, y2, u, v), post.cell_of(x2, y2)]
        (b0.in_bounds(x2, y2) && changed(b0, post, x2, y2) && !b0.cell_of(x2, y2).is_mine
            && b0.adj_mines(x2, y2) == 0 && b0.in_bounds(u, v) && is_adjacent(x2, y2, u, v)
            && b0.state_of(u, v) == CellState::Covered) implies (post.state_of(u, v)
        != CellState::Covered || coords_have(cur_wl, u, v)) by {
        if post.state_of(u, v) == CellState::Covered {
            assert(!(u == x && v == y));
            assert(post.cell_of(u, v) == prev.cell_of(u, v));
            if x2 == x && y2 == y {
                assert(false);
            } else {
                assert(post.cell_of(x2, y2) == prev.cell_of(x2, y2));
                assert(changed(b0, prev, x2, y2));
                assert(coords_have(prev_wl, u, v));
                lemma_coords_have_pop(prev_wl, cur_wl, u, v);
            }
        }
    }
    assert forall|k: int|
        0 <= k < wl0.len() && b0.state_of((#[trigger] wl0[k]).0 as int, wl0[k].1 as int)
            == CellState::Covered implies (post.state_of(wl0[k].0 as int, wl0[k].1 as int)
        != CellState::Covered || coords_have(cur_wl, wl0[k].0 as int, wl0[k].1 as int)) by {
        let u = wl0[k].0 as int;
        let v = wl0[k].1 as int;
        assert(b0.in_bounds((wl0[k]).0 as int, wl0[k].1 as int));
        if post.state_of(u, v) == CellState::Covered {
            assert(!(u == x && v == y));
            assert(post.cell_of(u, v) == prev.cell_of(u, v));
            assert(coords_have(prev_wl, u, v));
            lemma_coords_have_pop(prev_wl, cur_wl, u, v);
        }
    }
}

/// Opening the popped covered cell as a zero-adjacency reveal and
/// appending its whole in-bounds neighborhood keeps every invariant.
proof fn lemma_after_open_zero(
    b0: Board,
    prev: Board,
    post: Board,
    prev_wl: Seq<(usize, usize)>,
    nss: Seq<(usize, usize)>,
    fin_wl: Seq<(usize, usize)>,
    wl0: Seq<(usize, usize)>,
    x: int,
    y: int,
)
    requires
        prev_wl.len() >= 1,
        fin_wl == prev_wl.subrange(0, prev_wl.len() - 1) + nss,
        prev_wl[prev_wl.len() - 1].0 as int == x,
        prev_wl[prev_wl.len() - 1].1 as int == y,
        b0.state_of(x, y) == CellState::Covered,
        !b0.cell_of(x, y).is_mine,
        b0.adj_mines(x, y) == 0,
        only_cell_changed(prev, post, x, y),
        b0.width == prev.width,
        b0.height == prev.height,
        post.width == prev.width,
        post.height == prev.height,
        post.state_of(x, y) != CellState::Covered,
        forall|j: int| 0 <= j < nss.len() ==> b0.in_bounds(
            (#[trigger] nss[j]).0 as int,
            nss[j].1 as int,
        ) && is_adjacent(x, y, nss[j].0 as int, nss[j].1 as int),
        forall|u: int, v: int|
            b0.in_bounds(u, v) && #[trigger] is_adjacent(x, y, u, v) ==> coords_have(nss, u, v),
        wl_sound(b0, wl0),
        wl_sound(b0, prev_wl),
        wl_reachable(b0, wl0, prev_wl),
        closure_pending(b0, prev, prev_wl),
        init_pending(b0, prev, wl0, prev_wl),
        changes_reachable(b0, prev, wl0),
    ensures
        wl_sound(b0, fin_wl),
        wl_reachable(b0, wl0, fin_wl),
        closure_pending(b0, post, fin_wl),
        init_pending(b0, post, wl0, fin_wl),
        changes_reachable(b0, post, wl0),
{
    let cur_wl = prev_wl.subrange(0, prev_wl.len() - 1);
    assert forall|k: int| 0 <= k < cur_wl.len() implies cur_wl[k] == fin_wl[k] by {}
    assert forall|k: int| 0 <= k < fin_wl.len() implies b0.in_bounds(
        (#[trigger] fin_wl[k]).0 as int,
        fin_wl[k].1 as int,
    ) by {
        if k < cur_wl.len() {
            assert(fin_wl[k] == prev_wl[k]);
        } else {
            assert(fin_wl[k] == nss[k - cur_wl.len()]);
        }
    }
    assert(reach_from_init(b0, wl0, x, y)) by {
        assert(prev_wl[prev_wl.len() - 1].0 as int == x);
    }
    assert forall|k: int|
        0 <= k < fin_wl.len() && b0.state_of((#[trigger] fin_wl[k]).0 as int, fin_wl[k].1 as int)
            == CellState::Covered implies reach_from_init(
        b0,
        wl0,
        fin_wl[k].0 as int,
        fin_wl[k].1 as int,
    ) by {
        if k < cur_wl.len() {
            assert(fin_wl[k] == prev_wl[k]);
        } else {
            assert(fin_wl[k] == nss[k - cur_wl.len()]);
            let u = fin_wl[k].0 as int;
            let v = fin_wl[k].1 as int;
            lemma_reach_from_init_extend(b0, wl0, x, y, u, v);
        }
    }
    assert forall|u: int, v: int| #![trigger post.cell_of(u, v)]
        b0.in_bounds(u, v) && changed(b0, post, u, v) implies reach_from_init(b0, wl0, u, v) by {
        if !(u == x && v == y) {
            assert(post.cell_of(u, v) == prev.cell_of(u, v));
        }
    }
    assert forall|x2: int, y2: int, u: int, v: int|
        #![trigger is_adjacent(x2, y2, u, v), post.cell_of(x2, y2)]
        (b0.in_bounds(x2, y2) && changed(b0, post, x2, y2) && !b0.cell_of(x2, y2).is_mine
            && b0.adj_mines(x2, y2) == 0 && b0.in_bounds(u, v) && is_adjacent(x2, y2, u, v)
            && b0.state_of(u, v) == CellState::Covered) implies (post.state_of(u, v)
        != CellState::Covered || coords_have(fin_wl, u, v)) by {
        if post.state_of(u, v) == CellState::Covered {
            assert(!(u == x && v == y));
            assert(post.cell_of(u, v) == prev.cell_of(u, v));
            if x2 == x && y2 == y {
                assert(coords_have(nss, u, v));
                lemma_coords_have_append(cur_wl, nss, u, v);
            } else {
                assert(post.cell_of(x2, y2) == prev.cell_of(x2, y2));
                assert(changed(b0, prev, x2, y2));
                assert(coords_have(prev_wl, u, v));
                lemma_coords_have_pop(prev_wl, cur_wl, u, v);
                assert(coords_have(cur_wl, u, v));
                lemma_coords_have_prefix(cur_wl, fin_wl, u, v);
            }
        }
    }
    assert forall|k: int|
        0 <= k < wl0.len() && b0.state_of((#[trigger] wl0[k]).0 as int, wl0[k].1 as int)
            == CellState::Covered implies (post.state_of(wl0[k].0 as int, wl0[k].1 as int)
        != CellState::Covered || coords_have(fin_wl, wl0[k].0 as int, wl0[k].1 as int)) by {
        let u = wl0[k].0 as int;
        let v = wl0[k].1 as int;
        assert(b0.in_bounds((wl0[k]).0 as int, wl0[k].1 as int));
        if post.state_of(u, v) == CellState::Covered {
            assert(!(u == x && v == y));
            assert(post.cell_of(u, v) == prev.cell_of(u, v));
            assert(coords_have(prev_wl, u, v));
            lemma_coords_have_pop(prev_wl, cur_wl, u, v);
            assert(coords_have(cur_wl, u, v));
            lemma_coords_have_prefix(cur_wl, fin_wl, u, v);
        }
    }
}

impl Board {
    /// Runs the reveal worklist to exhaustion: every covered coordinate
    /// handed in is opened the only legal way, an opened zero-adjacency
    /// cell enqueues its whole neighborhood, and the returned flag says
    /// whether some mine was opened along the way.
    #[verifier::loop_isolation(false)]
    #[verifier::rlimit(100)]
    fn run_worklist(&mut self, init: Vec<(usize, usize)>) -> (hit: bool)
        requires
            old(self).wf(),
            forall|k: int| 0 <= k < init@.len() ==> old(self).in_bounds(
                (#[trigger] init@[k]).0 as int,
                init@[k].1 as int,
            ),
        ensures
            final(self).wf(),
            step_legal(*old(self), *final(self)),
            hit <==> some_new_explosion(*old(self), *final(self)),
            cascade_closed(*old(self), *final(self)),
            forall|k: int|
                0 <= k < init@.len() && old(self).state_of(
                    (#[trigger] init@[k]).0 as int,
                    init@[k].1 as int,
                ) == CellState::Covered ==> final(self).state_of(
                    init@[k].0 as int,
                    init@[k].1 as int,
                ) != CellState::Covered,
            changes_reachable(*old(self), *final(self), init@),
    {
        let ghost b0 = *self;
        let ghost wl0 = init@;
        let mut wl = init;
        let mut hit = false;
        proof {
            lemma_step_legal_refl(b0);
            assert forall|k: int|
                0 <= k < wl0.len() && b0.state_of(
                    (#[trigger] wl0[k]).0 as int,
                    wl0[k].1 as int,
                ) == CellState::Covered implies reach_from_init(
                b0,
                wl0,
                wl0[k].0 as int,
                wl0[k].1 as int,
            ) by {
                lemma_reach_self(b0, wl0[k].0 as int, wl0[k].1 as int);
            }
        }
        while wl.len() > 0
            invariant
                self.wf(),
                step_legal(b0, *self),
                hit <==> some_new_explosion(b0, *self),
                wl_sound(b0, wl@),
                wl_reachable(b0, wl0, wl@),
                closure_pending(b0, *self, wl@),
                init_pending(b0, *self, wl0, wl@),
                changes_reachable(b0, *self, wl0),
            decreases crate::board::count_covered(self.cells@) * 9 + wl@.len(),
        {
            let ghost prev_wl = wl@;
            let ghost prev_b = *self;
            let c = wl.pop().unwrap();
            let cx = c.0;
            let cy = c.1;
            let ghost cxi = cx as int;
            let ghost cyi = cy as int;
            proof {
                assert(c == prev_wl[prev_wl.len() - 1]);
                assert(b0.in_bounds(cxi, cyi));
                lemma_index_bound(*self, cxi, cyi);
            }
            let idx = cy * self.width + cx;
            let cell = self.cells[idx];
            proof {
                assert(cell == self.cell_of(cxi, cyi));
            }
            match cell.state {
                CellState::Covered => {
                    if cell.is_mine {
                        let newc = Cell { is_mine: true, state: CellState::Exploded };
                        self.cells[idx] = newc;
                        hit = true;
                        proof {
                            lemma_worklist_step(b0, prev_b, *self, cxi, cyi, newc);
                            crate::board::lemma_count_covered_update(
                                prev_b.cells@,
                                prev_b.idx_of(cxi, cyi),
                                newc,
                            );
                            assert(some_new_explosion(b0, *self));
                            lemma_after_open_plain(
                                b0,
                                prev_b,
                                *self,
                                prev_wl,
                                wl@,
                                wl0,
                                cxi,
                                cyi,
                            );
                        }
                    } else {
                        let m = self.count_adjacent_mines(cx, cy);
                        let newc = Cell { is_mine: false, state: CellState::Revealed(m) };
                        self.cells[idx] = newc;
                        proof {
                            lemma_worklist_step(b0, prev_b, *self, cxi, cyi, newc);
                            crate::board::lemma_count_covered_update(
                                prev_b.cells@,
                                prev_b.idx_of(cxi, cyi),
                                newc,
                            );
                            lemma_explosion_transfer(b0, prev_b, *self, cxi, cyi);
                        }
                        if m == 0 {
                            let mut ns = crate::grid::neighbors(self.width, self.height, cx, cy);
                            let ghost nss = ns@;
                            wl.append(&mut ns);
                            proof {
                                lemma_after_open_zero(
                                    b0,
                                    prev_b,
                                    *self,
                                    prev_wl,
                                    nss,
                                    wl@,
                                    wl0,
                                    cxi,
                                    cyi,
                                );
                            }
                        } else {
                            proof {
                                lemma_after_open_plain(
                                    b0,
                                    prev_b,
                                    *self,
                                    prev_wl,
                                    wl@,
                                    wl0,
                                    cxi,
                                    cyi,
                                );
                            }
                        }
                    }
                },
                _ => {
                    proof {
                        lemma_after_skip(b0, *self, prev_wl, wl@, wl0, cxi, cyi);
                    }
                },
            }
        }
        proof {
            assert forall|x: int, y: int, u: int, v: int|
                #![trigger is_adjacent(x, y, u, v), self.cell_of(x, y)]
                (b0.in_bounds(x, y) && changed(b0, *self, x, y) && !b0.cell_of(x, y).is_mine
                    && b0.adj_mines(x, y) == 0 && b0.in_bounds(u, v) && is_adjacent(x, y, u, v)
                    && b0.state_of(u, v) == CellState::Covered) implies self.state_of(u, v)
                != CellState::Covered by {
                assert(!coords_have(wl@, u, v));
            }
            assert forall|k: int|
                0 <= k < wl0.len() && b0.state_of((#[trigger] wl0[k]).0 as int, wl0[k].1 as int)
                    == CellState::Covered implies self.state_of(
                wl0[k].0 as int,
                wl0[k].1 as int,
            ) != CellState::Covered by {
                assert(!coords_have(wl@, wl0[k].0 as int, wl0[k].1 as int));
            }
        }
        hit
    }
}

/// A worklist of one item reaches only what that item reaches.
proof fn lemma_single_init_reach(
    b0: Board,
    init: Seq<(usize, usize)>,
    x: int,
    y: int,
    u: int,
    v: int,
)
    requires
        init.len() == 1,
        init[0].0 as int == x,
        init[0].1 as int == y,
        reach_from_init(b0, init, u, v),
    ensures
        reach(b0, x, y, u, v),
{
    let k = choose|k: int|
        0 <= k < init.len() && b0.state_of((#[trigger] init[k]).0 as int, init[k].1 as int)
            == CellState::Covered && reach(b0, init[k].0 as int, init[k].1 as int, u, v);
    assert(k == 0);
}

impl Board {
    /// The reveal command on `(x, y)` (see `reveal_post` for the exact
    /// relation): a flagged or exploded cell is protected; a covered
    /// mine explodes; a covered numbered cell opens alone; a covered
    /// zero-adjacency cell floods its whole connected zero region plus
    /// that region's numbered border; a revealed cell with at least as
    /// many adjacent flags as adjacent mines opens all its covered
    /// neighbors (the chord, which can explode a misflagged mine).
    /// Returns whether some mine was opened.
    #[verifier::loop_isolation(false)]
    #[verifier::rlimit(60)]
    pub fn uncover(&mut self, x: usize, y: usize) -> (hit: bool)
        requires
            old(self).wf(),
            x < old(self).width,
            y < old(self).height,
        ensures
            final(self).wf(),
            reveal_post(*old(self), x as int, y as int, *final(self), hit),
    {
        let ghost b0 = *self;
        let ghost xi = x as int;
        let ghost yi = y as int;
        proof {
            lemma_index_bound(b0, xi, yi);
        }
        let idx = y * self.width + x;
        let cell = self.cells[idx];
        proof {
            assert(cell == b0.cell_of(xi, yi));
        }
        match cell.state {
            CellState::Covered => {
                let mut init: Vec<(usize, usize)> = Vec::new();
                init.push((x, y));
                let ghost initg = init@;
                let hit = self.run_worklist(init);
                proof {
                    let fin = *self;
                    assert(initg[0].0 as int == xi && initg[0].1 as int == yi);
                    assert(b0.state_of(initg[0].0 as int, initg[0].1 as int)
                        == CellState::Covered);
                    assert(fin.state_of(xi, yi) != CellState::Covered);
                    assert(reveal_step_cell(b0, fin, xi, yi));
                    if cell.is_mine {
                        assert(fin.state_of(xi, yi) == CellState::Exploded);
                        assert forall|u: int, v: int| #![trigger fin.cell_of(u, v)]
                            b0.in_bounds(u, v) && !(u == xi && v == yi) implies fin.cell_of(u, v)
                            == b0.cell_of(u, v) by {
                            if changed(b0, fin, u, v) {
                                lemma_single_init_reach(b0, initg, xi, yi, u, v);
                                lemma_reach_blocked(b0, xi, yi, u, v);
                            }
                            lemma_index_bound(b0, u, v);
                            assert(fin.cells@[b0.idx_of(u, v)].is_mine == b0.cells@[b0.idx_of(
                                u,
                                v,
                            )].is_mine);
                        }
                        assert(some_new_explosion(b0, fin));
                    } else if b0.adj_mines(xi, yi) != 0 {
                        assert(fin.state_of(xi, yi) == CellState::Revealed(
                            b0.adj_mines(xi, yi) as u8,
                        ));
                        assert forall|u: int, v: int| #![trigger fin.cell_of(u, v)]
                            b0.in_bounds(u, v) && !(u == xi && v == yi) implies fin.cell_of(u, v)
                            == b0.cell_of(u, v) by {
                            if changed(b0, fin, u, v) {
                                lemma_single_init_reach(b0, initg, xi, yi, u, v);
                                lemma_reach_blocked(b0, xi, yi, u, v);
                            }
                            lemma_index_bound(b0, u, v);
                            assert(fin.cells@[b0.idx_of(u, v)].is_mine == b0.cells@[b0.idx_of(
                                u,
                                v,
                            )].is_mine);
                        }
                        if hit {
                            let (u, v) = choose|u: int, v: int| #![trigger fin.cell_of(u, v)]
                                b0.in_bounds(u, v) && fin.state_of(u, v) == CellState::Exploded
                                    && b0.state_of(u, v) != CellState::Exploded;
                            assert(changed(b0, fin, u, v));
                            lemma_single_init_reach(b0, initg, xi, yi, u, v);
                            lemma_reach_blocked(b0, xi, yi, u, v);
                            assert(false);
                        }
                    } else {
                        assert(fin.state_of(xi, yi) == CellState::Revealed(
                            b0.adj_mines(xi, yi) as u8,
                        ));
                        assert(b0.adj_mines(xi, yi) as u8 == 0);
                        assert forall|u: int, v: int| #![trigger fin.cell_of(u, v)]
                            b0.in_bounds(u, v) && changed(b0, fin, u, v) implies reach(
                            b0,
                            xi,
                            yi,
                            u,
                            v,
                        ) by {
                            lemma_single_init_reach(b0, initg, xi, yi, u, v);
                        }
                        if hit {
                            let (u, v) = choose|u: int, v: int| #![trigger fin.cell_of(u, v)]
                                b0.in_bounds(u, v) && fin.state_of(u, v) == CellState::Exploded
                                    && b0.state_of(u, v) != CellState::Exploded;
                            assert(changed(b0, fin, u, v));
                            lemma_single_init_reach(b0, initg, xi, yi, u, v);
                            lemma_reach_no_mine(b0, xi, yi, u, v);
                            assert(fin.wf_cell_at(u, v));
                            lemma_index_bound(b0, u, v);
                            assert(fin.cells@[b0.idx_of(u, v)].is_mine == b0.cells@[b0.idx_of(
                                u,
                                v,
                            )].is_mine);
                            assert(false);
                        }
                    }
                }
                hit
            },
            CellState::Revealed(_) => {
                let fl = self.count_adjacent_flags(x, y);
                let mn = self.count_adjacent_mines(x, y);
                if fl >= mn {
                    let ns = neighbors(self.width, self.height, x, y);
                    let mut init: Vec<(usize, usize)> = Vec::new();
                    let mut k: usize = 0;
                    while k < ns.len()
                        invariant
                            k <= ns@.len(),
                            forall|j: int| 0 <= j < init@.len() ==> b0.in_bounds(
                                (#[trigger] init@[j]).0 as int,
                                init@[j].1 as int,
                            ) && is_adjacent(xi, yi, init@[j].0 as int, init@[j].1 as int)
                                && b0.state_of(init@[j].0 as int, init@[j].1 as int)
                                == CellState::Covered,
                            forall|j: int|
                                0 <= j < k && b0.state_of(
                                    (#[trigger] ns@[j]).0 as int,
                                    ns@[j].1 as int,
                                ) == CellState::Covered ==> coords_have(
                                    init@,
                                    ns@[j].0 as int,
                                    ns@[j].1 as int,
                                ),
                        decreases ns@.len() - k,
                    {
                        let p = ns[k];
                        proof {
                            lemma_index_bound(b0, p.0 as int, p.1 as int);
                        }
                        let cc = self.cells[p.1 * self.width + p.0];
                        let ghost prev_init = init@;
                        match cc.state {
                            CellState::Covered => {
                                init.push(p);
                            },
                            _ => {},
                        }
                        proof {
                            assert(cc == b0.cell_of(p.0 as int, p.1 as int));
                            assert forall|j: int|
                                0 <= j < k + 1 && b0.state_of(
                                    (#[trigger] ns@[j]).0 as int,
                                    ns@[j].1 as int,
                                ) == CellState::Covered implies coords_have(
                                init@,
                                ns@[j].0 as int,
                                ns@[j].1 as int,
                            ) by {
                                if j < k {
                                    lemma_coords_have_prefix(
                                        prev_init,
                                        init@,
                                        ns@[j].0 as int,
                                        ns@[j].1 as int,
                                    );
                                } else {
                                    assert(init@[init@.len() - 1] == p);
                                }
                            }
                        }
                        k = k + 1;
                    }
                    let ghost initg = init@;
                    let hit = self.run_worklist(init);
                    proof {
                        let fin = *self;
                        assert forall|u: int, v: int| #![trigger is_adjacent(xi, yi, u, v)]
                            b0.in_bounds(u, v) && is_adjacent(xi, yi, u, v) && b0.state_of(u, v)
                                == CellState::Covered implies fin.state_of(u, v)
                            != CellState::Covered by {
                            assert(coords_have(ns@, u, v));
                            let j = choose|j: int|
                                0 <= j < ns@.len() && (#[trigger] ns@[j]).0 == u && ns@[j].1 == v;
                            assert(b0.state_of(ns@[j].0 as int, ns@[j].1 as int)
                                == CellState::Covered);
                            assert(coords_have(initg, u, v));
                            let j2 = choose|j2: int|
                                0 <= j2 < initg.len() && (#[trigger] initg[j2]).0 == u
                                    && initg[j2].1 == v;
                            assert(b0.state_of(initg[j2].0 as int, initg[j2].1 as int)
                                == CellState::Covered);
                            assert(fin.state_of(initg[j2].0 as int, initg[j2].1 as int)
                                != CellState::Covered);
                        }
                        assert forall|u: int, v: int| #![trigger fin.cell_of(u, v)]
                            b0.in_bounds(u, v) && changed(b0, fin, u, v) implies chord_reach(
                            b0,
                            xi,
                            yi,
                            u,
                            v,
                        ) by {
                            let k2 = choose|k2: int|
                                0 <= k2 < initg.len() && b0.state_of(
                                    (#[trigger] initg[k2]).0 as int,
                                    initg[k2].1 as int,
                                ) == CellState::Covered && reach(
                                    b0,
                                    initg[k2].0 as int,
                                    initg[k2].1 as int,
                                    u,
                                    v,
                                );
                            assert(is_adjacent(xi, yi, initg[k2].0 as int, initg[k2].1 as int));
                        }
                    }
                    hit
                } else {
                    proof {
                        if some_new_explosion(b0, *self) {
                            let (u, v) = choose|u: int, v: int| #![trigger self.cell_of(u, v)]
                                b0.in_bounds(u, v) && self.state_of(u, v) == CellState::Exploded
                                    && b0.state_of(u, v) != CellState::Exploded;
                            assert(false);
                        }
                    }
                    false
                }
            },
            _ => {
                proof {
                    if some_new_explosion(b0, *self) {
                        let (u, v) = choose|u: int, v: int| #![trigger self.cell_of(u, v)]
                            b0.in_bounds(u, v) && self.state_of(u, v) == CellState::Exploded
                                && b0.state_of(u, v) != CellState::Exploded;
                        assert(false);
                    }
                }
                false
            },
        }
    }
}

} // verus!
