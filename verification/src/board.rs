//! The board: a grid of cells kept exact under adding and removing queens.

use vstd::prelude::*;
use crate::attack::{attacks, safe_for, Square};
use crate::cell::{CellState, Change};
use crate::counter::MAX_SIDE;
use crate::grid::{
    empty_grid, is_square, lemma_empty_grid, lemma_lifting_admitted, lemma_placing_admitted,
    lemma_vacant_iff_safe, lemma_with_queen, lemma_without_queen, queens_of, ripple,
    ripple_admitted, well_formed, with_cell, with_queen, without_queen, Grid,
};

verus! {

/// Why a board cannot be made.
#[derive(Clone, Copy, Debug, PartialEq, Eq, Structural)]
pub enum BoardError {
    /// A board has at least one square.
    ZeroSize,
    /// The side is more than `MAX_SIDE`, so the counter could not hold `side - 1`.
    CounterTooNarrow,
}

/// Why a queen was not put on a square or taken off it.
#[derive(Clone, Copy, Debug, PartialEq, Eq, Structural)]
pub enum MoveError {
    /// The row or the column lies outside the board.
    OffBoard,
    /// The square holds a queen or is attacked by one.
    NotFree,
    /// The square holds no queen.
    NoQueen,
}

/// A square board of queens in which every empty cell counts the queens that attack it.
pub struct QueenBoard {
    board: Vec<Vec<CellState>>,
}

impl View for QueenBoard {
    type V = Grid;

    closed spec fn view(&self) -> Grid {
        Seq::new(self.board@.len(), |i: int| self.board@[i]@)
    }
}

/// The larger of the row distance and the column distance between two squares.
spec fn reach(a: Square, b: Square) -> int {
    let dr = if a.0 <= b.0 { b.0 - a.0 } else { a.0 - b.0 };
    let dc = if a.1 <= b.1 { b.1 - a.1 } else { a.1 - b.1 };
    if dr <= dc { dc } else { dr }
}

/// The place of the ray from `q` through `x` in the order in which a queen's
/// rays are walked: down, down-right, right, up-right, up, up-left, left, down-left.
spec fn ray_of(q: Square, x: Square) -> int {
    if x.0 > q.0 {
        if x.1 == q.1 { 0 } else if x.1 > q.1 { 1 } else { 7 }
    } else if x.0 == q.0 {
        if x.1 > q.1 { 2 } else { 6 }
    } else {
        if x.1 > q.1 { 3 } else if x.1 == q.1 { 4 } else { 5 }
    }
}

/// `g` with the count of every cell that a queen on `q` attacks moved one step,
/// as far as the walk has come: every such cell less than `k` squares away, and
/// at `k` squares those on the first `rays` rays.
spec fn ripple_within(g: Grid, q: Square, change: Change, k: int, rays: int) -> Grid {
    Seq::new(
        g.len(),
        |i: int|
            Seq::new(
                g[i].len(),
                |j: int|
                    if attacks(q, (i, j)) && (reach(q, (i, j)) < k || (reach(q, (i, j)) == k
                        && ray_of(q, (i, j)) < rays)) {
                        g[i][j].shifted(change)
                    } else {
                        g[i][j]
                    },
            ),
    )
}

/// Whether `x` is the square that a queen on `q` attacks at distance `k` on the
/// given ray.
spec fn on_ray(q: Square, x: Square, k: int, ray: int) -> bool {
    attacks(q, x) && reach(q, x) == k && ray_of(q, x) == ray
}

/// A ray that has left the board at distance `k` changes nothing there.
proof fn lemma_ray_off_board(g: Grid, q: Square, change: Change, k: int, ray: int)
    requires
        forall|i: int, j: int|
            0 <= i < g.len() && 0 <= j < g[i].len() ==> !#[trigger] on_ray(q, (i, j), k, ray),
    ensures
        ripple_within(g, q, change, k, ray) == ripple_within(g, q, change, k, ray + 1),
{
    let a = ripple_within(g, q, change, k, ray);
    let b = ripple_within(g, q, change, k, ray + 1);
    assert forall|i: int| 0 <= i < g.len() implies a[i] =~= b[i] by {
        assert forall|j: int| 0 <= j < g[i].len() implies a[i][j] == b[i][j] by {
            assert(!on_ray(q, (i, j), k, ray));
        }
    }
    assert(a =~= b);
}

/// Once all eight rays are walked at distance `k`, the walk stands at `k + 1`.
proof fn lemma_rays_done(g: Grid, q: Square, change: Change, k: int)
    ensures
        ripple_within(g, q, change, k, 8) == ripple_within(g, q, change, k + 1, 0),
{
    let a = ripple_within(g, q, change, k, 8);
    let b = ripple_within(g, q, change, k + 1, 0);
    assert forall|i: int| 0 <= i < g.len() implies a[i] =~= b[i] by {
        assert forall|j: int| 0 <= j < g[i].len() implies a[i][j] == b[i][j] by {
            assert(0 <= ray_of(q, (i, j)) < 8);
        }
    }
    assert(a =~= b);
}

impl QueenBoard {
    /// The number of rows, which is the number of columns.
    pub open spec fn side(&self) -> nat {
        self@.len()
    }

    /// The squares that hold a queen.
    pub open spec fn queens(&self) -> Set<Square> {
        queens_of(self@)
    }

    /// The board's invariant.
    pub open spec fn wf(&self) -> bool {
        well_formed(self@)
    }

    /// An empty board of `size` rows and columns. A side of zero, or one whose
    /// largest possible count the counter cannot hold, is refused.
    pub fn new(size: usize) -> (made: Result<QueenBoard, BoardError>)
        ensures
            match made {
                Ok(b) => 1 <= size <= MAX_SIDE && b.wf() && b@ == empty_grid(size as nat),
                Err(BoardError::ZeroSize) => size == 0,
                Err(BoardError::CounterTooNarrow) => size > MAX_SIDE,
            },
    {
        if size == 0 {
            return Err(BoardError::ZeroSize);
        }
        if size > MAX_SIDE {
            return Err(BoardError::CounterTooNarrow);
        }
        let mut board: Vec<Vec<CellState>> = Vec::new();
        let mut i: usize = 0;
        while i < size
            invariant
                i <= size,
                board@.len() == i,
                forall|a: int| 0 <= a < i ==> (#[trigger] board@[a])@ == empty_grid(size as nat)[a],
            decreases size - i,
        {
            let mut row: Vec<CellState> = Vec::new();
            let mut j: usize = 0;
            while j < size
                invariant
                    j <= size,
                    row@.len() == j,
                    forall|b: int| 0 <= b < j ==> #[trigger] row@[b] == CellState::QueenSeen(0),
                decreases size - j,
            {
                row.push(CellState::default());
                j += 1;
            }
            assert(row@ =~= empty_grid(size as nat)[i as int]);
            board.push(row);
            i += 1;
        }
        let made = QueenBoard { board };
        proof {
            assert(made@ =~= empty_grid(size as nat));
            lemma_empty_grid(size as nat);
        }
        Ok(made)
    }

    /// The number of rows, which is the number of columns.
    pub fn size(&self) -> (n: usize)
        ensures
            n == self.side(),
    {
        self.board.len()
    }

    /// The cell at row `r`, column `c`.
    pub fn cell(&self, r: usize, c: usize) -> (cell: CellState)
        requires
            is_square(self@),
            r < self.side(),
            c < self.side(),
        ensures
            cell == self@[r as int][c as int],
    {
        self.board[r][c]
    }

    /// Whether a queen may be put on (r, c): the square is empty and no queen on
    /// the board attacks it.
    pub fn can_place_queen(&self, r: usize, c: usize) -> (ok: bool)
        requires
            self.wf(),
            r < self.side(),
            c < self.side(),
        ensures
            ok == (self@[r as int][c as int] == CellState::QueenSeen(0)),
            ok == safe_for(self.queens(), (r as int, c as int)),
    {
        proof {
            lemma_vacant_iff_safe(self@, (r as int, c as int));
        }
        self.board[r][c].queen_candidate()
    }

    /// Puts a queen on (r, c), a square that `can_place_queen` admits, and counts
    /// it on every square that it attacks.
    pub fn add_queen(&mut self, r: usize, c: usize)
        requires
            old(self).wf(),
            r < old(self).side(),
            c < old(self).side(),
            old(self)@[r as int][c as int] == CellState::QueenSeen(0),
        ensures
            final(self).wf(),
            final(self)@ == with_queen(old(self)@, (r as int, c as int)),
            final(self).queens() == old(self).queens().insert((r as int, c as int)),
    {
        let ghost q: Square = (r as int, c as int);
        self.board[r][c] = CellState::Queen;
        proof {
            assert(self@ =~~= with_cell(old(self)@, q, CellState::Queen));
            lemma_placing_admitted(old(self)@, q);
        }
        self.modify_board_other_cells(r, c, Change::Increase);
        proof {
            lemma_with_queen(old(self)@, q);
        }
    }

    /// Takes the queen off (r, c) and uncounts it on every square that it attacks.
    pub fn remove_queen(&mut self, r: usize, c: usize)
        requires
            old(self).wf(),
            r < old(self).side(),
            c < old(self).side(),
            old(self)@[r as int][c as int] == CellState::Queen,
        ensures
            final(self).wf(),
            final(self)@ == without_queen(old(self)@, (r as int, c as int)),
            final(self).queens() == old(self).queens().remove((r as int, c as int)),
    {
        let ghost q: Square = (r as int, c as int);
        self.board[r][c] = CellState::default();
        proof {
            assert(self@ =~~= with_cell(old(self)@, q, CellState::QueenSeen(0)));
            lemma_lifting_admitted(old(self)@, q);
        }
        self.modify_board_other_cells(r, c, Change::Decrease);
        proof {
            lemma_without_queen(old(self)@, q);
        }
    }

    /// Puts a queen on (r, c) where `add_queen` admits it, and says why where it
    /// does not; the board is then left as it was.
    pub fn try_add_queen(&mut self, r: usize, c: usize) -> (done: Result<(), MoveError>)
        requires
            old(self).wf(),
        ensures
            final(self).wf(),
            match done {
                Ok(_) => r < old(self).side() && c < old(self).side() && old(self)@[r as int][c as int]
                    == CellState::QueenSeen(0) && final(self)@ == with_queen(
                    old(self)@,
                    (r as int, c as int),
                ),
                Err(MoveError::OffBoard) => !(r < old(self).side() && c < old(self).side())
                    && final(self)@ == old(self)@,
                Err(MoveError::NotFree) => r < old(self).side() && c < old(self).side() && old(
                    self,
                )@[r as int][c as int] != CellState::QueenSeen(0) && final(self)@ == old(self)@,
                Err(MoveError::NoQueen) => false,
            },
    {
        let n = self.size();
        if r >= n || c >= n {
            return Err(MoveError::OffBoard);
        }
        if !self.can_place_queen(r, c) {
            return Err(MoveError::NotFree);
        }
        self.add_queen(r, c);
        Ok(())
    }

    /// Takes the queen off (r, c) where `remove_queen` admits it, and says why
    /// where it does not; the board is then left as it was.
    pub fn try_remove_queen(&mut self, r: usize, c: usize) -> (done: Result<(), MoveError>)
        requires
            old(self).wf(),
        ensures
            final(self).wf(),
            match done {
                Ok(_) => r < old(self).side() && c < old(self).side() && old(self)@[r as int][c as int]
                    == CellState::Queen && final(self)@ == without_queen(
                    old(self)@,
                    (r as int, c as int),
                ),
                Err(MoveError::OffBoard) => !(r < old(self).side() && c < old(self).side())
                    && final(self)@ == old(self)@,
                Err(MoveError::NoQueen) => r < old(self).side() && c < old(self).side() && old(
                    self,
                )@[r as int][c as int] != CellState::Queen && final(self)@ == old(self)@,
                Err(MoveError::NotFree) => false,
            },
    {
        let n = self.size();
        if r >= n || c >= n {
            return Err(MoveError::OffBoard);
        }
        if !self.cell(r, c).is_queen() {
            return Err(MoveError::NoQueen);
        }
        self.remove_queen(r, c);
        Ok(())
    }

    /// Moves the count of the one square that lies at distance `k` on the given ray.
    fn shift_on_ray(
        &mut self,
        r: usize,
        c: usize,
        change: Change,
        Ghost(g): Ghost<Grid>,
        Ghost(q): Ghost<Square>,
        Ghost(k): Ghost<int>,
        Ghost(ray): Ghost<int>,
    )
        requires
            is_square(g),
            r < g.len(),
            c < g.len(),
            ripple_admitted(g, q, change),
            old(self)@ == ripple_within(g, q, change, k, ray),
            on_ray(q, (r as int, c as int), k, ray),
            forall|i: int, j: int| #[trigger] on_ray(q, (i, j), k, ray) ==> (i, j) == (r as int, c as int),
        ensures
            final(self)@ == ripple_within(g, q, change, k, ray + 1),
    {
        let ghost before = self@;
        assert(before.len() == g.len());
        assert(before[r as int].len() == g[r as int].len());
        assert(g[r as int][c as int].admits(change));
        assert(before[r as int][c as int] == g[r as int][c as int]);
        self.board[r][c].apply(change);
        assert(self@ =~~= with_cell(
            before,
            (r as int, c as int),
            g[r as int][c as int].shifted(change),
        ));
        let ghost b = ripple_within(g, q, change, k, ray + 1);
        assert forall|i: int| 0 <= i < g.len() implies self@[i] =~= b[i] by {
            assert(g[i].len() == g.len());
            assert(before[i].len() == g[i].len());
            assert forall|j: int| 0 <= j < g.len() implies self@[i][j] == b[i][j] by {
                if (i, j) != (r as int, c as int) {
                    assert(!on_ray(q, (i, j), k, ray));
                    assert(self@[i][j] == before[i][j]);
                }
            }
        }
        assert(self@ =~= b);
    }

    /// Moves the count of every square that a queen on (r, c) attacks one step:
    /// at each distance the up to eight squares along the row, the column and the
    /// two diagonals, each only where it lies on the board.
    pub fn modify_board_other_cells(&mut self, r: usize, c: usize, inc: Change)
        requires
            is_square(old(self)@),
            r < old(self).side(),
            c < old(self).side(),
            ripple_admitted(old(self)@, (r as int, c as int), inc),
        ensures
            final(self)@ == ripple(old(self)@, (r as int, c as int), inc),
    {
        let n = self.board.len();
        let ghost q: Square = (r as int, c as int);
        let ghost g = self@;
        let mut k: usize = 1;
        assert(self@ =~~= ripple_within(g, q, inc, 1, 0));
        while k < n
            invariant
                1 <= k,
                n == g.len(),
                r < n,
                c < n,
                q == (r as int, c as int),
                is_square(g),
                ripple_admitted(g, q, inc),
                self@ == ripple_within(g, q, inc, k as int, 0),
            decreases n - k,
        {
            if k < n - r {
                self.shift_on_ray(r + k, c, inc, Ghost(g), Ghost(q), Ghost(k as int), Ghost(0));
            } else {
                proof {
                    lemma_ray_off_board(g, q, inc, k as int, 0);
                }
            }
            if k < n - r && k < n - c {
                self.shift_on_ray(r + k, c + k, inc, Ghost(g), Ghost(q), Ghost(k as int), Ghost(1));
            } else {
                proof {
                    lemma_ray_off_board(g, q, inc, k as int, 1);
                }
            }
            if k < n - c {
                self.shift_on_ray(r, c + k, inc, Ghost(g), Ghost(q), Ghost(k as int), Ghost(2));
            } else {
                proof {
                    lemma_ray_off_board(g, q, inc, k as int, 2);
                }
            }
            if r >= k && k < n - c {
                self.shift_on_ray(r - k, c + k, inc, Ghost(g), Ghost(q), Ghost(k as int), Ghost(3));
            } else {
                proof {
                    lemma_ray_off_board(g, q, inc, k as int, 3);
                }
            }
            if r >= k {
                self.shift_on_ray(r - k, c, inc, Ghost(g), Ghost(q), Ghost(k as int), Ghost(4));
            } else {
                proof {
                    lemma_ray_off_board(g, q, inc, k as int, 4);
                }
            }
            if r >= k && c >= k {
                self.shift_on_ray(r - k, c - k, inc, Ghost(g), Ghost(q), Ghost(k as int), Ghost(5));
            } else {
                proof {
                    lemma_ray_off_board(g, q, inc, k as int, 5);
                }
            }
            if c >= k {
                self.shift_on_ray(r, c - k, inc, Ghost(g), Ghost(q), Ghost(k as int), Ghost(6));
            } else {
                proof {
                    lemma_ray_off_board(g, q, inc, k as int, 6);
                }
            }
            if c >= k && k < n - r {
                self.shift_on_ray(r + k, c - k, inc, Ghost(g), Ghost(q), Ghost(k as int), Ghost(7));
            } else {
                proof {
                    lemma_ray_off_board(g, q, inc, k as int, 7);
                }
            }
            proof {
                lemma_rays_done(g, q, inc, k as int);
            }
            k += 1;
        }
        assert(self@ =~~= ripple(g, q, inc));
    }
}

} // verus!
