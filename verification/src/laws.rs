use vstd::prelude::*;
use crate::board::{Board, disclose_post, disclosed_cell, lemma_cells_equal_by_coords,
    lemma_index_bound};
use crate::cell::CellState;
use crate::engine::{cascade_closed, changed, chord_reach, path_ok, reach, reveal_post,
    reveal_step_cell, step_legal, toggle_post};
use crate::grid::is_adjacent;

verus! {

/// Toggling the flag of the same cell twice restores the board exactly:
/// `Covered` goes through `Flagged` back to `Covered`, `Flagged` back to
/// `Flagged`, and any revealed or exploded cell is left alone twice.
pub proof fn lemma_toggle_flag_idempotent(b0: Board, b1: Board, b2: Board, x: int, y: int)
    requires
        b0.dims_ok(),
        b0.in_bounds(x, y),
        toggle_post(b0, x, y, b1),
        toggle_post(b1, x, y, b2),
    ensures
        b2.cells@ == b0.cells@,
{
    assert forall|u: int, v: int| #![trigger b2.cell_of(u, v)] b0.in_bounds(u, v)
        implies b2.cell_of(u, v) == b0.cell_of(u, v) by {
        if u == x && v == y {
            assert(b2.cell_of(u, v).is_mine == b0.cell_of(u, v).is_mine);
        } else {
            assert(b1.cell_of(u, v) == b0.cell_of(u, v));
        }
    }
    lemma_cells_equal_by_coords(b0, b2);
}

/// Revealed and exploded cells never revert: any legal reveal step
/// leaves them untouched.
pub proof fn lemma_no_revert(b0: Board, b1: Board, x: int, y: int)
    requires
        step_legal(b0, b1),
        b0.in_bounds(x, y),
        b0.state_of(x, y).is_revealed() || b0.state_of(x, y) == CellState::Exploded,
    ensures
        b1.cell_of(x, y) == b0.cell_of(x, y),
{
    assert(reveal_step_cell(b0, b1, x, y));
}

/// Walking a flood-fill path from a changed cell through a board that
/// is cascade-closed shows every cell on the path changed.
proof fn lemma_region_changed(b0: Board, b1: Board, p: Seq<(int, int)>)
    requires
        step_legal(b0, b1),
        cascade_closed(b0, b1),
        path_ok(b0, p),
        changed(b0, b1, (p[0]).0, (p[0]).1),
    ensures
        changed(b0, b1, (p[p.len() - 1]).0, (p[p.len() - 1]).1),
    decreases p.len(),
{
    if p.len() > 1 {
        let x = (p[0]).0;
        let y = (p[0]).1;
        assert(is_adjacent((p[0]).0, (p[0]).1, (p[1]).0, (p[1]).1)
            && !b0.cell_of(x, y).is_mine && b0.adj_mines(x, y) == 0);
        assert(b1.state_of((p[1]).0, (p[1]).1) != CellState::Covered);
        assert(changed(b0, b1, (p[1]).0, (p[1]).1));
        let q = p.subrange(1, p.len() as int);
        assert forall|i: int| 0 <= i < q.len() implies b0.in_bounds((#[trigger] q[i]).0, q[i].1)
            && b0.state_of((q[i]).0, (q[i]).1) == CellState::Covered by {
            assert(q[i] == p[i + 1]);
        }
        assert forall|i: int| 0 <= i < q.len() - 1 implies is_adjacent(
            (#[trigger] q[i]).0,
            (q[i]).1,
            (q[i + 1]).0,
            (q[i + 1]).1,
        ) && !b0.cell_of((q[i]).0, (q[i]).1).is_mine && b0.adj_mines((q[i]).0, (q[i]).1) == 0 by {
            assert(q[i] == p[i + 1]);
            assert(q[i + 1] == p[i + 2]);
        }
        assert(path_ok(b0, q));
        assert(q[0] == p[1]);
        lemma_region_changed(b0, b1, q);
        assert(q[q.len() - 1] == p[p.len() - 1]);
    }
}

/// Cascade correctness: revealing a covered zero-adjacency non-mine
/// cell changes exactly its flood-fill region — the connected zero
/// region plus that region's numbered border — and nothing beyond it.
pub proof fn lemma_cascade_region(
    b0: Board,
    x: int,
    y: int,
    b1: Board,
    hit: bool,
    tx: int,
    ty: int,
)
    requires
        b0.wf(),
        b0.in_bounds(x, y),
        b0.state_of(x, y) == CellState::Covered,
        !b0.cell_of(x, y).is_mine,
        b0.adj_mines(x, y) == 0,
        reveal_post(b0, x, y, b1, hit),
    ensures
        reach(b0, x, y, tx, ty) ==> changed(b0, b1, tx, ty),
        b0.in_bounds(tx, ty) && changed(b0, b1, tx, ty) ==> reach(b0, x, y, tx, ty),
{
    if reach(b0, x, y, tx, ty) {
        let p = choose|p: Seq<(int, int)>| #[trigger] path_ok(b0, p) && p[0] == (x, y)
            && p[p.len() - 1] == (tx, ty);
        assert(b1.state_of(x, y) == CellState::Revealed(0));
        assert(changed(b0, b1, x, y));
        lemma_region_changed(b0, b1, p);
    }
    if b0.in_bounds(tx, ty) && changed(b0, b1, tx, ty) {
        assert(b1.cell_of(tx, ty) == b1.cell_of(tx, ty));
    }
}

/// Whatever a chord reaches is changed by the chord.
proof fn lemma_chord_changed(b0: Board, x: int, y: int, b2: Board, tx: int, ty: int)
    requires
        step_legal(b0, b2),
        cascade_closed(b0, b2),
        forall|u: int, v: int| #![trigger is_adjacent(x, y, u, v)]
            b0.in_bounds(u, v) && is_adjacent(x, y, u, v) && b0.state_of(u, v)
                == CellState::Covered ==> b2.state_of(u, v) != CellState::Covered,
        chord_reach(b0, x, y, tx, ty),
    ensures
        changed(b0, b2, tx, ty),
{
    let (u, v) = choose|u: int, v: int| #![trigger is_adjacent(x, y, u, v)]
        b0.in_bounds(u, v) && is_adjacent(x, y, u, v) && b0.state_of(u, v)
            == CellState::Covered && reach(b0, u, v, tx, ty);
    assert(b2.state_of(u, v) != CellState::Covered);
    assert(changed(b0, b2, u, v));
    let p = choose|p: Seq<(int, int)>| #[trigger] path_ok(b0, p) && p[0] == (u, v)
        && p[p.len() - 1] == (tx, ty);
    lemma_region_changed(b0, b2, p);
}

/// Two boards that moved legally from `b0` and changed the same cells
/// agree on every cell: a legal step pins every changed cell's value.
proof fn lemma_changed_cells_agree(b0: Board, b1: Board, b2: Board, u: int, v: int)
    requires
        b0.dims_ok(),
        step_legal(b0, b1),
        step_legal(b0, b2),
        b0.in_bounds(u, v),
        changed(b0, b1, u, v) <==> changed(b0, b2, u, v),
    ensures
        b1.cell_of(u, v) == b2.cell_of(u, v),
{
    assert(reveal_step_cell(b0, b1, u, v));
    assert(reveal_step_cell(b0, b2, u, v));
    lemma_index_bound(b0, u, v);
    assert(b1.cells@[b0.idx_of(u, v)].is_mine == b0.cells@[b0.idx_of(u, v)].is_mine);
    assert(b2.cells@[b0.idx_of(u, v)].is_mine == b0.cells@[b0.idx_of(u, v)].is_mine);
}

/// Boards with equal cells show a new explosion over `b0` together.
proof fn lemma_explosion_same(b0: Board, b1: Board, b2: Board)
    requires
        b1.width == b2.width,
        b1.height == b2.height,
        b1.cells@ == b2.cells@,
    ensures
        crate::engine::some_new_explosion(b0, b1) <==> crate::engine::some_new_explosion(b0, b2),
{
    if crate::engine::some_new_explosion(b0, b1) {
        let (u, v) = choose|u: int, v: int| #![trigger b1.cell_of(u, v)]
            b0.in_bounds(u, v) && b1.state_of(u, v) == CellState::Exploded && b0.state_of(u, v)
                != CellState::Exploded;
        assert(b2.cell_of(u, v) == b1.cell_of(u, v));
        assert(crate::engine::some_new_explosion(b0, b2));
    }
    if crate::engine::some_new_explosion(b0, b2) {
        let (u, v) = choose|u: int, v: int| #![trigger b2.cell_of(u, v)]
            b0.in_bounds(u, v) && b2.state_of(u, v) == CellState::Exploded && b0.state_of(u, v)
                != CellState::Exploded;
        assert(b1.cell_of(u, v) == b2.cell_of(u, v));
        assert(crate::engine::some_new_explosion(b0, b1));
    }
}

/// Reveal determinism: the reveal relation pins its result, so the full
/// grid after a reveal command — cascade and chord included — does not
/// depend on the order in which neighbors were processed. Every other
/// command's contract is an exact function of the pre-state, so a fixed
/// command sequence on a fixed board has exactly one outcome.
pub proof fn lemma_reveal_deterministic(
    b0: Board,
    x: int,
    y: int,
    b1: Board,
    h1: bool,
    b2: Board,
    h2: bool,
)
    requires
        b0.wf(),
        b0.in_bounds(x, y),
        reveal_post(b0, x, y, b1, h1),
        reveal_post(b0, x, y, b2, h2),
    ensures
        b1.cells@ == b2.cells@,
        h1 == h2,
{
    match b0.state_of(x, y) {
        CellState::Flagged => {},
        CellState::Exploded => {},
        CellState::Covered => {
            if b0.cell_of(x, y).is_mine || b0.adj_mines(x, y) != 0 {
                assert forall|u: int, v: int| #![trigger b2.cell_of(u, v)] b0.in_bounds(u, v)
                    implies b2.cell_of(u, v) == b1.cell_of(u, v) by {
                    if u == x && v == y {
                        lemma_changed_cells_agree(b0, b1, b2, u, v);
                    } else {
                        assert(b1.cell_of(u, v) == b0.cell_of(u, v));
                        assert(b2.cell_of(u, v) == b0.cell_of(u, v));
                    }
                }
                lemma_cells_equal_by_coords(b1, b2);
            } else {
                assert forall|u: int, v: int| #![trigger b2.cell_of(u, v)] b0.in_bounds(u, v)
                    implies b2.cell_of(u, v) == b1.cell_of(u, v) by {
                    if changed(b0, b1, u, v) {
                        lemma_cascade_region(b0, x, y, b1, h1, u, v);
                        lemma_cascade_region(b0, x, y, b2, h2, u, v);
                    }
                    if changed(b0, b2, u, v) {
                        lemma_cascade_region(b0, x, y, b2, h2, u, v);
                        lemma_cascade_region(b0, x, y, b1, h1, u, v);
                    }
                    lemma_changed_cells_agree(b0, b1, b2, u, v);
                }
                lemma_cells_equal_by_coords(b1, b2);
            }
        },
        CellState::Revealed(_) => {
            if b0.adj_flags(x, y) >= b0.adj_mines(x, y) {
                assert forall|u: int, v: int| #![trigger b2.cell_of(u, v)] b0.in_bounds(u, v)
                    implies b2.cell_of(u, v) == b1.cell_of(u, v) by {
                    if changed(b0, b1, u, v) {
                        assert(b1.cell_of(u, v) == b1.cell_of(u, v));
                        lemma_chord_changed(b0, x, y, b2, u, v);
                    }
                    if changed(b0, b2, u, v) {
                        lemma_chord_changed(b0, x, y, b1, u, v);
                    }
                    lemma_changed_cells_agree(b0, b1, b2, u, v);
                }
                lemma_cells_equal_by_coords(b1, b2);
                lemma_explosion_same(b0, b1, b2);
            }
        },
    }
}

/// Loss disclosure: after end-of-game disclosure every mine cell stands
/// `Exploded`, and no non-mine cell's state was altered by the
/// disclosure step.
pub proof fn lemma_loss_disclosure(b0: Board, b1: Board, x: int, y: int)
    requires
        b0.wf(),
        disclose_post(b0, b1),
        b0.in_bounds(x, y),
    ensures
        b0.cell_of(x, y).is_mine ==> b1.state_of(x, y) == CellState::Exploded,
        !b0.cell_of(x, y).is_mine ==> b1.cell_of(x, y) == b0.cell_of(x, y),
{
    lemma_index_bound(b0, x, y);
    assert(b1.cells@[b0.idx_of(x, y)] == disclosed_cell(b0.cells@[b0.idx_of(x, y)]));
    assert(b0.wf_cell_at(x, y));
}

} // verus!
