use minesweeper::{Board, CellState, Command, GameError, Phase, Session};

fn layout_with_mines(width: usize, height: usize, mines: &[(usize, usize)]) -> Vec<bool> {
    let mut l = vec![false; width * height];
    for &(x, y) in mines {
        l[y * width + x] = true;
    }
    l
}

fn session_with_mines(width: usize, height: usize, mines: &[(usize, usize)]) -> Session {
    let board = Board::from_layout(width, height, layout_with_mines(width, height, mines))
        .expect("valid layout");
    Session::with_board(board)
}

fn state_at(s: &Session, x: usize, y: usize) -> CellState {
    s.query_cell(x, y).expect("in bounds")
}

#[test]
fn new_board_has_requested_mine_count() {
    let b = Board::new(5, 5, 7);
    let mine_count = b.iter().iter().filter(|c| c.is_mine).count();
    assert_eq!(mine_count, 7);
    assert!(b.iter().iter().all(|c| c.state == CellState::Covered));
}

#[test]
fn new_board_with_excess_mines_is_all_mines() {
    let b = Board::new(2, 2, 9);
    let mine_count = b.iter().iter().filter(|c| c.is_mine).count();
    assert_eq!(mine_count, 4);
}

#[test]
fn new_board_mine_positions_vary() {
    // Not a statistical test, only a smoke check that placement is not
    // pinned to the first slots on every draw.
    let mut saw_difference = false;
    let reference: Vec<bool> = Board::new(6, 6, 18).iter().iter().map(|c| c.is_mine).collect();
    for _ in 0..32 {
        let other: Vec<bool> = Board::new(6, 6, 18).iter().iter().map(|c| c.is_mine).collect();
        if other != reference {
            saw_difference = true;
            break;
        }
    }
    assert!(saw_difference);
}

#[test]
fn from_layout_rejects_bad_dimensions() {
    assert!(Board::from_layout(0, 3, vec![]).is_none());
    assert!(Board::from_layout(3, 0, vec![]).is_none());
    assert!(Board::from_layout(2, 2, vec![false; 3]).is_none());
}

#[test]
fn neighbors_respect_bounds() {
    let corner = minesweeper::grid::neighbors(3, 3, 0, 0);
    assert_eq!(corner.len(), 3);
    let middle = minesweeper::grid::neighbors(3, 3, 1, 1);
    assert_eq!(middle.len(), 8);
    for &(x, y) in middle.iter() {
        assert!(x < 3 && y < 3 && !(x == 1 && y == 1));
    }
}

#[test]
fn adjacent_mine_counts_are_exact() {
    let b = Board::from_layout(3, 3, layout_with_mines(3, 3, &[(2, 2)])).unwrap();
    assert_eq!(b.count_adjacent_mines(1, 1), 1);
    assert_eq!(b.count_adjacent_mines(2, 1), 1);
    assert_eq!(b.count_adjacent_mines(1, 2), 1);
    assert_eq!(b.count_adjacent_mines(0, 0), 0);
    assert_eq!(b.count_adjacent_mines(2, 0), 0);
}

#[test]
fn toggle_flag_twice_restores_covered() {
    let mut s = session_with_mines(3, 3, &[(2, 2)]);
    s.apply_command(Command::ToggleFlag { x: 0, y: 0 });
    assert_eq!(state_at(&s, 0, 0), CellState::Flagged);
    s.apply_command(Command::ToggleFlag { x: 0, y: 0 });
    assert_eq!(state_at(&s, 0, 0), CellState::Covered);
}

#[test]
fn flagged_cell_is_protected_from_reveal() {
    let mut s = session_with_mines(3, 3, &[(2, 2)]);
    s.apply_command(Command::ToggleFlag { x: 2, y: 2 });
    let out = s.apply_command(Command::Reveal { x: 2, y: 2 });
    assert_eq!(state_at(&s, 2, 2), CellState::Flagged);
    assert_eq!(out.changed_cells.len(), 0);
    assert_eq!(s.phase(), Phase::Playing);
}

#[test]
fn revealed_cell_cannot_be_flagged() {
    let mut s = session_with_mines(3, 3, &[(0, 0)]);
    s.apply_command(Command::Reveal { x: 1, y: 1 });
    assert_eq!(state_at(&s, 1, 1), CellState::Revealed(1));
    let out = s.apply_command(Command::ToggleFlag { x: 1, y: 1 });
    assert_eq!(state_at(&s, 1, 1), CellState::Revealed(1));
    assert_eq!(out.changed_cells.len(), 0);
}

#[test]
fn cascade_reveals_whole_region_and_wins() {
    let mut s = session_with_mines(3, 3, &[(2, 2)]);
    s.apply_command(Command::Reveal { x: 0, y: 0 });
    assert_eq!(state_at(&s, 0, 0), CellState::Revealed(0));
    assert_eq!(state_at(&s, 1, 0), CellState::Revealed(0));
    assert_eq!(state_at(&s, 2, 0), CellState::Revealed(0));
    assert_eq!(state_at(&s, 0, 1), CellState::Revealed(0));
    assert_eq!(state_at(&s, 0, 2), CellState::Revealed(0));
    assert_eq!(state_at(&s, 1, 1), CellState::Revealed(1));
    assert_eq!(state_at(&s, 2, 1), CellState::Revealed(1));
    assert_eq!(state_at(&s, 1, 2), CellState::Revealed(1));
    assert_eq!(s.phase(), Phase::Ended { won: true });
    // end-of-game disclosure shows the remaining mine
    assert_eq!(state_at(&s, 2, 2), CellState::Exploded);
}

#[test]
fn cascade_stops_at_numbered_border() {
    // A vertical wall of mines at x = 2 splits the board: revealing the
    // left edge floods the zero column, opens its numbered border, and
    // leaves everything beyond the wall untouched.
    let mut s = session_with_mines(4, 3, &[(2, 0), (2, 1), (2, 2)]);
    s.apply_command(Command::Reveal { x: 0, y: 0 });
    assert_eq!(state_at(&s, 0, 0), CellState::Revealed(0));
    assert_eq!(state_at(&s, 0, 1), CellState::Revealed(0));
    assert_eq!(state_at(&s, 0, 2), CellState::Revealed(0));
    assert_eq!(state_at(&s, 1, 0), CellState::Revealed(2));
    assert_eq!(state_at(&s, 1, 1), CellState::Revealed(3));
    assert_eq!(state_at(&s, 1, 2), CellState::Revealed(2));
    for y in 0..3 {
        assert_eq!(state_at(&s, 2, y), CellState::Covered);
        assert_eq!(state_at(&s, 3, y), CellState::Covered);
    }
    assert_eq!(s.phase(), Phase::Playing);
}

#[test]
fn revealing_a_mine_explodes_without_cascade() {
    let mut s = session_with_mines(3, 3, &[(2, 2)]);
    let out = s.apply_command(Command::Reveal { x: 2, y: 2 });
    assert_eq!(state_at(&s, 2, 2), CellState::Exploded);
    assert_eq!(s.phase(), Phase::Ended { won: false });
    assert_eq!(out.phase, Phase::Ended { won: false });
    // no cascade: every non-mine cell is still covered
    for y in 0..3 {
        for x in 0..3 {
            if !(x == 2 && y == 2) {
                assert_eq!(state_at(&s, x, y), CellState::Covered);
            }
        }
    }
}

#[test]
fn chord_reveals_unflagged_neighbors() {
    let mut s = session_with_mines(3, 3, &[(0, 0)]);
    s.apply_command(Command::Reveal { x: 1, y: 1 });
    assert_eq!(state_at(&s, 1, 1), CellState::Revealed(1));
    s.apply_command(Command::ToggleFlag { x: 0, y: 0 });
    s.apply_command(Command::Reveal { x: 1, y: 1 });
    assert_eq!(state_at(&s, 1, 0), CellState::Revealed(1));
    assert_eq!(state_at(&s, 0, 1), CellState::Revealed(1));
    assert_eq!(state_at(&s, 2, 0), CellState::Revealed(0));
    assert_eq!(state_at(&s, 0, 2), CellState::Revealed(0));
    assert_eq!(state_at(&s, 2, 1), CellState::Revealed(0));
    assert_eq!(state_at(&s, 1, 2), CellState::Revealed(0));
    assert_eq!(state_at(&s, 2, 2), CellState::Revealed(0));
    assert_eq!(s.phase(), Phase::Ended { won: true });
    // disclosure flips the flagged mine to its mine display state
    assert_eq!(state_at(&s, 0, 0), CellState::Exploded);
}

#[test]
fn chord_without_enough_flags_changes_nothing() {
    let mut s = session_with_mines(3, 3, &[(0, 0)]);
    s.apply_command(Command::Reveal { x: 1, y: 1 });
    let out = s.apply_command(Command::Reveal { x: 1, y: 1 });
    assert_eq!(out.changed_cells.len(), 0);
    assert_eq!(state_at(&s, 0, 1), CellState::Covered);
    assert_eq!(state_at(&s, 1, 0), CellState::Covered);
}

#[test]
fn chord_with_misplaced_flag_can_hit_a_mine() {
    // The permissive chord counts flags, not correctness: flagging a
    // safe neighbor still arms the chord, which then opens the mine.
    let mut s = session_with_mines(3, 3, &[(0, 0)]);
    s.apply_command(Command::Reveal { x: 1, y: 1 });
    s.apply_command(Command::ToggleFlag { x: 1, y: 0 });
    s.apply_command(Command::Reveal { x: 1, y: 1 });
    assert_eq!(state_at(&s, 0, 0), CellState::Exploded);
    assert_eq!(s.phase(), Phase::Ended { won: false });
    // the flagged safe cell was protected
    assert_eq!(state_at(&s, 1, 0), CellState::Flagged);
}

#[test]
fn win_is_detected_when_last_safe_cell_opens() {
    let mut s = session_with_mines(2, 1, &[(1, 0)]);
    s.apply_command(Command::Reveal { x: 0, y: 0 });
    assert_eq!(state_at(&s, 0, 0), CellState::Revealed(1));
    assert_eq!(s.phase(), Phase::Ended { won: true });
    assert_eq!(state_at(&s, 1, 0), CellState::Exploded);
}

#[test]
fn loss_discloses_every_mine_and_nothing_else() {
    let mut s = session_with_mines(3, 3, &[(0, 0), (2, 2)]);
    s.apply_command(Command::Reveal { x: 1, y: 1 });
    assert_eq!(state_at(&s, 1, 1), CellState::Revealed(2));
    s.apply_command(Command::ToggleFlag { x: 0, y: 0 });
    s.apply_command(Command::Reveal { x: 2, y: 2 });
    assert_eq!(s.phase(), Phase::Ended { won: false });
    // every mine is disclosed, the flagged one included
    assert_eq!(state_at(&s, 2, 2), CellState::Exploded);
    assert_eq!(state_at(&s, 0, 0), CellState::Exploded);
    // non-mine cells keep the state they had when the game ended
    assert_eq!(state_at(&s, 1, 1), CellState::Revealed(2));
    assert_eq!(state_at(&s, 1, 0), CellState::Covered);
    assert_eq!(state_at(&s, 0, 1), CellState::Covered);
}

#[test]
fn commands_are_ignored_after_the_game_ends() {
    let mut s = session_with_mines(3, 3, &[(2, 2)]);
    s.apply_command(Command::Reveal { x: 2, y: 2 });
    assert_eq!(s.phase(), Phase::Ended { won: false });
    let out = s.apply_command(Command::Reveal { x: 0, y: 0 });
    assert_eq!(out.changed_cells.len(), 0);
    assert_eq!(state_at(&s, 0, 0), CellState::Covered);
    let out = s.apply_command(Command::ToggleFlag { x: 0, y: 0 });
    assert_eq!(out.changed_cells.len(), 0);
    assert_eq!(state_at(&s, 0, 0), CellState::Covered);
}

#[test]
fn restart_regenerates_a_covered_board() {
    let mut s = session_with_mines(4, 3, &[(0, 0)]);
    s.apply_command(Command::Reveal { x: 0, y: 0 });
    assert_eq!(s.phase(), Phase::Ended { won: false });
    s.apply_command(Command::Restart);
    assert_eq!(s.phase(), Phase::Playing);
    for y in 0..3 {
        for x in 0..4 {
            assert_eq!(state_at(&s, x, y), CellState::Covered);
        }
    }
}

#[test]
fn restart_is_ignored_while_playing() {
    let mut s = session_with_mines(3, 3, &[(0, 0), (0, 2)]);
    s.apply_command(Command::Reveal { x: 2, y: 2 });
    let before: Vec<_> = (0..9).map(|i| state_at(&s, i % 3, i / 3)).collect();
    let out = s.apply_command(Command::Restart);
    let after: Vec<_> = (0..9).map(|i| state_at(&s, i % 3, i / 3)).collect();
    assert_eq!(before, after);
    assert_eq!(out.changed_cells.len(), 0);
    assert_eq!(s.phase(), Phase::Playing);
}

#[test]
fn query_cell_reports_out_of_bounds() {
    let s = session_with_mines(3, 3, &[(0, 0)]);
    assert_eq!(s.query_cell(3, 0), Err(GameError::OutOfBounds));
    assert_eq!(s.query_cell(0, 3), Err(GameError::OutOfBounds));
    assert!(s.query_cell(2, 2).is_ok());
}

#[test]
fn board_get_reports_out_of_bounds() {
    let b = Board::from_layout(2, 2, layout_with_mines(2, 2, &[(1, 1)])).unwrap();
    assert!(b.get(1, 1).is_ok());
    assert_eq!(b.get(2, 0).unwrap_err(), GameError::OutOfBounds);
}

#[test]
fn outcome_lists_exactly_the_changed_cells() {
    let mut s = session_with_mines(3, 3, &[(0, 0)]);
    let out = s.apply_command(Command::Reveal { x: 1, y: 1 });
    assert_eq!(out.changed_cells.len(), 1);
    assert_eq!(out.changed_cells[0], ((1, 1), CellState::Revealed(1)));
    assert_eq!(out.phase, Phase::Playing);
    let out = s.apply_command(Command::ToggleFlag { x: 2, y: 2 });
    assert_eq!(out.changed_cells.len(), 1);
    assert_eq!(out.changed_cells[0], ((2, 2), CellState::Flagged));
}

#[test]
fn fixed_command_sequence_is_deterministic() {
    let run = || {
        let mut s = session_with_mines(4, 4, &[(3, 3), (0, 3)]);
        s.apply_command(Command::Reveal { x: 1, y: 0 });
        s.apply_command(Command::ToggleFlag { x: 3, y: 3 });
        s.apply_command(Command::Reveal { x: 2, y: 2 });
        (0..16).map(|i| state_at(&s, i % 4, i / 4)).collect::<Vec<_>>()
    };
    assert_eq!(run(), run());
}

#[test]
fn phase_is_running_only_while_playing() {
    assert!(Phase::Playing.is_running());
    assert!(!Phase::Preparing.is_running());
    assert!(!(Phase::Ended { won: true }).is_running());
    assert!(!(Phase::Ended { won: false }).is_running());
}
