use vstd::prelude::*;
use crate::board::{Board, disclose_post, fresh_board, lemma_index_bound};
use crate::cell::{Cell, CellState, GameError};
use crate::engine::{changed, reveal_post, toggle_post};

verus! {

/// The session-level state machine: `Preparing` regenerates the board
/// and immediately yields to `Playing`; `Ended` freezes the board until
/// an explicit restart command.
#[derive(Clone, Copy, Debug, PartialEq, Eq, Structural)]
pub enum Phase {
    Preparing,
    Playing,
    Ended { won: bool },
}

impl Phase {
    /// True exactly while player commands are accepted.
    pub fn is_running(&self) -> (r: bool)
        ensures
            r == (*self == Phase::Playing),
    {
        match self {
            Phase::Playing => true,
            _ => false,
        }
    }
}

/// A player command, as handed over by the input collaborator.
#[derive(Clone, Copy, Debug, PartialEq, Eq, Structural)]
pub enum Command {
    Reveal { x: usize, y: usize },
    ToggleFlag { x: usize, y: usize },
    Restart,
}

/// What one command did: the cells whose state changed (with their new
/// state) and the phase the session is in afterwards.
pub struct CommandOutcome {
    pub changed_cells: Vec<((usize, usize), CellState)>,
    pub phase: Phase,
}

/// The coordinate list `d` mentions `(u, v)`.
pub open spec fn diff_has(d: Seq<((usize, usize), CellState)>, u: int, v: int) -> bool {
    exists|k: int| 0 <= k < d.len() && ((#[trigger] d[k]).0).0 == u && (d[k].0).1 == v
}

/// `d` lists exactly the coordinates whose state differs between `b0`
/// and `b1`, each with its state in `b1`.
pub open spec fn diff_ok(b0: Board, b1: Board, d: Seq<((usize, usize), CellState)>) -> bool {
    &&& (forall|k: int|
        0 <= k < d.len() ==> b0.in_bounds(
            ((#[trigger] d[k]).0).0 as int,
            (d[k].0).1 as int,
        ) && changed(b0, b1, (d[k].0).0 as int, (d[k].0).1 as int) && d[k].1 == b1.state_of(
            (d[k].0).0 as int,
            (d[k].0).1 as int,
        ))
    &&& (forall|u: int, v: int| #![trigger b1.cell_of(u, v)]
        b0.in_bounds(u, v) && changed(b0, b1, u, v) ==> diff_has(d, u, v))
}

proof fn lemma_diff_has_prefix(
    a: Seq<((usize, usize), CellState)>,
    b: Seq<((usize, usize), CellState)>,
    u: int,
    v: int,
)
    requires
        a.len() <= b.len(),
        forall|k: int| 0 <= k < a.len() ==> a[k] == b[k],
        diff_has(a, u, v),
    ensures
        diff_has(b, u, v),
{
    let k = choose|k: int| 0 <= k < a.len() && ((#[trigger] a[k]).0).0 == u && (a[k].0).1 == v;
    assert(((b[k]).0).0 == u && ((b[k]).0).1 == v);
}

/// Collects the coordinates whose state differs from the snapshot
/// `prev` (the cells of the ghost board `b0`), with their new states.
#[verifier::loop_isolation(false)]
fn board_diff(b1: &Board, prev: &Vec<Cell>, Ghost(b0): Ghost<Board>) -> (d: Vec<
    ((usize, usize), CellState),
>)
    requires
        b0.dims_ok(),
        b1.dims_ok(),
        b1.width == b0.width,
        b1.height == b0.height,
        prev@ == b0.cells@,
    ensures
        diff_ok(b0, *b1, d@),
{
    let mut d: Vec<((usize, usize), CellState)> = Vec::new();
    let mut y: usize = 0;
    while y < b1.height
        invariant
            y <= b1.height,
            forall|k: int|
                0 <= k < d@.len() ==> b0.in_bounds(
                    ((#[trigger] d@[k]).0).0 as int,
                    (d@[k].0).1 as int,
                ) && changed(b0, *b1, (d@[k].0).0 as int, (d@[k].0).1 as int) && d@[k].1
                    == b1.state_of((d@[k].0).0 as int, (d@[k].0).1 as int),
            forall|u: int, v: int| #![trigger b1.cell_of(u, v)]
                b0.in_bounds(u, v) && changed(b0, *b1, u, v) && v < y ==> diff_has(d@, u, v),
        decreases b1.height - y,
    {
        let mut x: usize = 0;
        while x < b1.width
            invariant
                x <= b1.width,
                y < b1.height,
                forall|k: int|
                    0 <= k < d@.len() ==> b0.in_bounds(
                        ((#[trigger] d@[k]).0).0 as int,
                        (d@[k].0).1 as int,
                    ) && changed(b0, *b1, (d@[k].0).0 as int, (d@[k].0).1 as int) && d@[k].1
                        == b1.state_of((d@[k].0).0 as int, (d@[k].0).1 as int),
                forall|u: int, v: int| #![trigger b1.cell_of(u, v)]
                    b0.in_bounds(u, v) && changed(b0, *b1, u, v) && v < y ==> diff_has(d@, u, v),
                forall|u: int| #![trigger b1.cell_of(u, y as int)]
                    0 <= u < x && changed(b0, *b1, u, y as int) ==> diff_has(d@, u, y as int),
            decreases b1.width - x,
        {
            proof {
                lemma_index_bound(b0, x as int, y as int);
            }
            let i = y * b1.width + x;
            let c1 = b1.cells[i];
            let c0 = prev[i];
            let ghost prevd = d@;
            if c0.state != c1.state {
                d.push(((x, y), c1.state));
            }
            proof {
                assert(c1 == b1.cell_of(x as int, y as int));
                assert(c0 == b0.cell_of(x as int, y as int));
                assert forall|u: int, v: int| #![trigger b1.cell_of(u, v)]
                    b0.in_bounds(u, v) && changed(b0, *b1, u, v) && v < y implies diff_has(
                    d@,
                    u,
                    v,
                ) by {
                    lemma_diff_has_prefix(prevd, d@, u, v);
                }
                assert forall|u: int| #![trigger b1.cell_of(u, y as int)]
                    0 <= u < x + 1 && changed(b0, *b1, u, y as int) implies diff_has(
                    d@,
                    u,
                    y as int,
                ) by {
                    if u < x {
                        lemma_diff_has_prefix(prevd, d@, u, y as int);
                    } else {
                        assert(d@[d@.len() - 1].0.0 == x);
                    }
                }
            }
            x = x + 1;
        }
        y = y + 1;
    }
    d
}

/// The session: the current board plus the phase of play.
pub struct Session {
    pub board: Board,
    pub phase: Phase,
}

/// What one command does to the session. Out-of-phase and out-of-bounds
/// commands are silent no-ops. A reveal that hits a mine ends the game
/// lost; a reveal after which every non-mine cell stands revealed ends
/// it won; either way the remaining covered or flagged mines are
/// disclosed as `Exploded`. Restart regenerates a fresh board with the
/// same configuration, and only from `Ended`.
pub open spec fn apply_post(s0: Session, cmd: Command, s1: Session) -> bool {
    match cmd {
        Command::Restart => match s0.phase {
            Phase::Ended { .. } => {
                &&& fresh_board(s1.board, s0.board.width, s0.board.height, s0.board.mines)
                &&& s1.phase == Phase::Playing
            },
            _ => s1 == s0,
        },
        Command::ToggleFlag { x, y } => if s0.phase == Phase::Playing && s0.board.in_bounds(
            x as int,
            y as int,
        ) {
            &&& toggle_post(s0.board, x as int, y as int, s1.board)
            &&& s1.phase == Phase::Playing
        } else {
            s1 == s0
        },
        Command::Reveal { x, y } => if s0.phase == Phase::Playing && s0.board.in_bounds(
            x as int,
            y as int,
        ) {
            exists|mid: Board, hit: bool|
                #![trigger reveal_post(s0.board, x as int, y as int, mid, hit)]
                {
                    &&& reveal_post(s0.board, x as int, y as int, mid, hit)
                    &&& mid.wf()
                    &&& if hit {
                        &&& s1.phase == (Phase::Ended { won: false })
                        &&& disclose_post(mid, s1.board)
                    } else if mid.win_cond() {
                        &&& s1.phase == (Phase::Ended { won: true })
                        &&& disclose_post(mid, s1.board)
                    } else {
                        &&& s1.phase == Phase::Playing
                        &&& s1.board == mid
                    }
                }
        } else {
            s1 == s0
        },
    }
}

impl Session {
    pub open spec fn wf(self) -> bool {
        self.board.wf()
    }

    /// Starts a session: generates a fresh random board (the transient
    /// `Preparing` step) and immediately enters `Playing`.
    pub fn new_game(width: usize, height: usize, mine_count: usize) -> (s: Session)
        requires
            1 <= width,
            1 <= height,
            width * height <= usize::MAX,
        ensures
            s.wf(),
            s.phase == Phase::Playing,
            fresh_board(s.board, width, height, mine_count),
    {
        Session { board: Board::new(width, height, mine_count), phase: Phase::Playing }
    }

    /// Starts a session on a caller-supplied board, for deterministic
    /// setups.
    pub fn with_board(board: Board) -> (s: Session)
        requires
            board.wf(),
        ensures
            s.wf(),
            s.phase == Phase::Playing,
            s.board == board,
    {
        Session { board, phase: Phase::Playing }
    }

    pub fn phase(&self) -> (p: Phase)
        ensures
            p == self.phase,
    {
        self.phase
    }

    /// Reads one cell's state, reporting `OutOfBounds` exactly on
    /// invalid coordinates.
    pub fn query_cell(&self, x: usize, y: usize) -> (r: Result<CellState, GameError>)
        requires
            self.wf(),
        ensures
            match r {
                Ok(st) => self.board.in_bounds(x as int, y as int) && st == self.board.state_of(
                    x as int,
                    y as int,
                ),
                Err(e) => !self.board.in_bounds(x as int, y as int) && e == GameError::OutOfBounds,
            },
    {
        match self.board.get(x, y) {
            Ok(c) => Ok(c.state),
            Err(e) => Err(e),
        }
    }

    /// Routes one player command (see `apply_post` for the exact state
    /// machine), returning the diff of changed cells and the phase
    /// reached.
    pub fn apply_command(&mut self, cmd: Command) -> (out: CommandOutcome)
        requires
            old(self).wf(),
        ensures
            final(self).wf(),
            apply_post(*old(self), cmd, *final(self)),
            diff_ok(old(self).board, final(self).board, out.changed_cells@),
            out.phase == final(self).phase,
    {
        let ghost s0 = *self;
        let prev = self.board.iter();
        match cmd {
            Command::Restart => {
                let restart = match self.phase {
                    Phase::Ended { .. } => true,
                    _ => false,
                };
                if restart {
                    let w = self.board.width;
                    let h = self.board.height;
                    let m = self.board.mines;
                    self.board = Board::new(w, h, m);
                    self.phase = Phase::Playing;
                }
            },
            Command::ToggleFlag { x, y } => {
                let playing = self.phase.is_running();
                if playing && x < self.board.width && y < self.board.height {
                    self.board.toggle_flag(x, y);
                }
            },
            Command::Reveal { x, y } => {
                let playing = self.phase.is_running();
                if playing && x < self.board.width && y < self.board.height {
                    let hit = self.board.uncover(x, y);
                    let ghost mid = self.board;
                    if hit {
                        self.phase = Phase::Ended { won: false };
                        self.board.disclose_mines();
                    } else if self.board.check_win() {
                        self.phase = Phase::Ended { won: true };
                        self.board.disclose_mines();
                    }
                    proof {
                        assert(reveal_post(s0.board, x as int, y as int, mid, hit));
                    }
                }
            },
        }
        let d = board_diff(&self.board, &prev, Ghost(s0.board));
        CommandOutcome { changed_cells: d, phase: self.phase }
    }
}

} // verus!
