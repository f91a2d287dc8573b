//! The board as a value: a square grid of cells, the queens on it, and what
//! putting a queen on it or taking one off does to every cell.

use vstd::prelude::*;
use crate::attack::{
    attackers, attacks, lemma_attackers_bound, lemma_attackers_finite, lemma_attackers_insert,
    lemma_attackers_none, lemma_attackers_remove, on_board, peaceful, safe_for, Square,
};
use crate::cell::{CellState, Change};
use crate::counter::MAX_SIDE;

verus! {

/// A grid of cells, row by row.
pub type Grid = Seq<Seq<CellState>>;

/// Every row is as long as the grid is high.
pub open spec fn is_square(g: Grid) -> bool {
    forall|i: int| 0 <= i < g.len() ==> (#[trigger] g[i]).len() == g.len()
}

/// The squares of `g` that hold a queen.
pub open spec fn queens_of(g: Grid) -> Set<Square> {
    Set::new(|p: Square| on_board(p, g.len() as int) && g[p.0][p.1] == CellState::Queen)
}

/// Every empty cell holds exactly the number of queens on the grid that attack it.
pub open spec fn counts_exact(g: Grid) -> bool {
    forall|r: int, c: int|
        0 <= r < g.len() && 0 <= c < g.len() && (#[trigger] g[r][c]) != CellState::Queen
            ==> g[r][c] == CellState::QueenSeen(attackers(queens_of(g), (r, c)).len() as u16)
            && attackers(queens_of(g), (r, c)).len() <= u16::MAX
}

/// The invariant of a board: a square grid of a side that the counter can serve,
/// on which no queen attacks another and every count is exact.
pub open spec fn well_formed(g: Grid) -> bool {
    &&& 1 <= g.len() <= MAX_SIDE
    &&& is_square(g)
    &&& queens_of(g).finite()
    &&& peaceful(queens_of(g))
    &&& counts_exact(g)
}

/// The grid of the given side with no queen on it.
pub open spec fn empty_grid(side: nat) -> Grid {
    Seq::new(side, |i: int| Seq::new(side, |j: int| CellState::QueenSeen(0)))
}

/// `g` with the cell at `p` replaced.
pub open spec fn with_cell(g: Grid, p: Square, cell: CellState) -> Grid {
    g.update(p.0, g[p.0].update(p.1, cell))
}

/// `g` with the count of every cell that a queen on `q` attacks moved one step.
pub open spec fn ripple(g: Grid, q: Square, change: Change) -> Grid {
    Seq::new(
        g.len(),
        |i: int|
            Seq::new(
                g[i].len(),
                |j: int|
                    if attacks(q, (i, j)) {
                        g[i][j].shifted(change)
                    } else {
                        g[i][j]
                    },
            ),
    )
}

/// `g` after a queen is put on `q`.
pub open spec fn with_queen(g: Grid, q: Square) -> Grid {
    ripple(with_cell(g, q, CellState::Queen), q, Change::Increase)
}

/// `g` after the queen on `q` is taken off.
pub open spec fn without_queen(g: Grid, q: Square) -> Grid {
    ripple(with_cell(g, q, CellState::QueenSeen(0)), q, Change::Decrease)
}

/// Every cell that a queen on `q` attacks can take `change`.
pub open spec fn ripple_admitted(g: Grid, q: Square, change: Change) -> bool {
    forall|i: int, j: int|
        0 <= i < g.len() && 0 <= j < g.len() && attacks(q, (i, j)) ==> (#[trigger] g[i][j]).admits(
            change,
        )
}

/// The empty grid is well formed.
pub proof fn lemma_empty_grid(side: nat)
    requires
        1 <= side <= MAX_SIDE,
    ensures
        well_formed(empty_grid(side)),
        queens_of(empty_grid(side)) == Set::<Square>::empty(),
{
    let g = empty_grid(side);
    assert(queens_of(g) =~= Set::<Square>::empty());
    assert forall|r: int, c: int| 0 <= r < g.len() && 0 <= c < g.len() implies attackers(
        queens_of(g),
        (r, c),
    ).len() == 0 by {
        assert(attackers(queens_of(g), (r, c)) =~= Set::<Square>::empty());
    }
}

/// On a well-formed grid the count of an empty cell is the number of queens on
/// the grid that attack it, and that number is at most four.
pub proof fn lemma_count_is_attackers(g: Grid, p: Square)
    requires
        well_formed(g),
        on_board(p, g.len() as int),
        g[p.0][p.1] != CellState::Queen,
    ensures
        g[p.0][p.1].threats() == attackers(queens_of(g), p).len(),
        g[p.0][p.1].threats() <= 4,
{
    lemma_attackers_bound(queens_of(g), p);
}

/// A square is empty and unseen exactly when it holds no queen and no queen
/// on the grid attacks it.
pub proof fn lemma_vacant_iff_safe(g: Grid, p: Square)
    requires
        well_formed(g),
        on_board(p, g.len() as int),
    ensures
        g[p.0][p.1] == CellState::QueenSeen(0) <==> safe_for(queens_of(g), p),
{
    lemma_attackers_none(queens_of(g), p);
    lemma_attackers_finite(queens_of(g), p);
    let cell = g[p.0][p.1];
    if cell == CellState::Queen {
        assert(queens_of(g).contains(p));
    }
}

/// Before a queen is put on a vacant square, every cell it will attack is empty
/// and its count is below the counter's maximum.
pub proof fn lemma_placing_admitted(g: Grid, q: Square)
    requires
        well_formed(g),
        on_board(q, g.len() as int),
        g[q.0][q.1] == CellState::QueenSeen(0),
    ensures
        ripple_admitted(with_cell(g, q, CellState::Queen), q, Change::Increase),
{
    let h = with_cell(g, q, CellState::Queen);
    lemma_vacant_iff_safe(g, q);
    assert forall|i: int, j: int|
        0 <= i < h.len() && 0 <= j < h.len() && attacks(q, (i, j)) implies (#[trigger] h[i][j]).admits(
        Change::Increase,
    ) by {
        assert(h[i][j] == g[i][j]);
        if g[i][j] == CellState::Queen {
            assert(queens_of(g).contains((i, j)));
            assert(attacks((i, j), q));
        }
        lemma_attackers_bound(queens_of(g), (i, j));
    }
}

/// Putting a queen on a vacant square keeps the grid well formed and adds that
/// square, and no other, to the queens.
pub proof fn lemma_with_queen(g: Grid, q: Square)
    requires
        well_formed(g),
        on_board(q, g.len() as int),
        g[q.0][q.1] == CellState::QueenSeen(0),
    ensures
        well_formed(with_queen(g, q)),
        queens_of(with_queen(g, q)) == queens_of(g).insert(q),
{
    let h = with_queen(g, q);
    let old_queens = queens_of(g);
    lemma_vacant_iff_safe(g, q);
    lemma_placing_admitted(g, q);
    assert forall|p: Square| queens_of(h).contains(p) <==> old_queens.insert(q).contains(p) by {
        if on_board(p, g.len() as int) && p != q {
            assert(with_cell(g, q, CellState::Queen)[p.0][p.1] == g[p.0][p.1]);
        }
    }
    assert(queens_of(h) =~= old_queens.insert(q));
    assert forall|a: Square, b: Square|
        queens_of(h).contains(a) && queens_of(h).contains(b) implies !#[trigger] attacks(a, b) by {
        if a == q && b != q {
            assert(!attacks(b, q));
        }
    }
    assert forall|r: int, c: int|
        0 <= r < h.len() && 0 <= c < h.len() && (#[trigger] h[r][c]) != CellState::Queen implies h[r][c]
        == CellState::QueenSeen(attackers(queens_of(h), (r, c)).len() as u16) && attackers(
        queens_of(h),
        (r, c),
    ).len() <= u16::MAX by {
        assert(with_cell(g, q, CellState::Queen)[r][c] == g[r][c]);
        assert(g[r][c] != CellState::Queen);
        lemma_attackers_insert(old_queens, q, (r, c));
        lemma_attackers_bound(queens_of(h), (r, c));
    }
}

/// Before a queen is taken off, every cell it attacks is empty and counts at
/// least that queen.
pub proof fn lemma_lifting_admitted(g: Grid, q: Square)
    requires
        well_formed(g),
        on_board(q, g.len() as int),
        g[q.0][q.1] == CellState::Queen,
    ensures
        ripple_admitted(with_cell(g, q, CellState::QueenSeen(0)), q, Change::Decrease),
{
    let h = with_cell(g, q, CellState::QueenSeen(0));
    assert(queens_of(g).contains(q));
    assert forall|i: int, j: int|
        0 <= i < h.len() && 0 <= j < h.len() && attacks(q, (i, j)) implies (#[trigger] h[i][j]).admits(
        Change::Decrease,
    ) by {
        assert(h[i][j] == g[i][j]);
        if g[i][j] == CellState::Queen {
            assert(queens_of(g).contains((i, j)));
        }
        lemma_attackers_remove(queens_of(g), q, (i, j));
    }
}

/// Taking a queen off keeps the grid well formed and removes that square, and no
/// other, from the queens.
pub proof fn lemma_without_queen(g: Grid, q: Square)
    requires
        well_formed(g),
        on_board(q, g.len() as int),
        g[q.0][q.1] == CellState::Queen,
    ensures
        well_formed(without_queen(g, q)),
        queens_of(without_queen(g, q)) == queens_of(g).remove(q),
{
    let h = without_queen(g, q);
    let mid = with_cell(g, q, CellState::QueenSeen(0));
    let old_queens = queens_of(g);
    assert(old_queens.contains(q));
    lemma_lifting_admitted(g, q);
    assert forall|p: Square| queens_of(h).contains(p) <==> old_queens.remove(q).contains(p) by {
        if on_board(p, g.len() as int) && p != q {
            assert(mid[p.0][p.1] == g[p.0][p.1]);
            if attacks(q, p) {
                assert(mid[p.0][p.1].admits(Change::Decrease));
            }
        }
    }
    assert(queens_of(h) =~= old_queens.remove(q));
    assert forall|r: int, c: int|
        0 <= r < h.len() && 0 <= c < h.len() && (#[trigger] h[r][c]) != CellState::Queen implies h[r][c]
        == CellState::QueenSeen(attackers(queens_of(h), (r, c)).len() as u16) && attackers(
        queens_of(h),
        (r, c),
    ).len() <= u16::MAX by {
        lemma_attackers_remove(old_queens, q, (r, c));
        lemma_attackers_bound(queens_of(h), (r, c));
        if (r, c) == q {
            lemma_attackers_none(queens_of(h), q);
        } else {
            assert(mid[r][c] == g[r][c]);
            if attacks(q, (r, c)) {
                assert(mid[r][c].admits(Change::Decrease));
            }
        }
    }
}

/// Putting a queen on a vacant square and taking it off again gives back the
/// grid cell by cell.
pub proof fn lemma_add_then_remove(g: Grid, q: Square)
    requires
        well_formed(g),
        on_board(q, g.len() as int),
        g[q.0][q.1] == CellState::QueenSeen(0),
    ensures
        without_queen(with_queen(g, q), q) == g,
{
    let h = with_queen(g, q);
    let back = without_queen(h, q);
    lemma_placing_admitted(g, q);
    assert(back.len() == g.len());
    assert forall|i: int| 0 <= i < g.len() implies back[i] =~= g[i] by {
        assert(g[i].len() == g.len());
        assert forall|j: int| 0 <= j < g.len() implies back[i][j] == g[i][j] by {
            if attacks(q, (i, j)) {
                assert(with_cell(g, q, CellState::Queen)[i][j] == g[i][j]);
                assert(g[i][j].admits(Change::Increase));
            }
        }
    }
    assert(back =~= g);
}

/// Two well-formed grids of one side with the same queens are the same grid.
pub proof fn lemma_queens_fix_grid(g: Grid, h: Grid)
    requires
        well_formed(g),
        well_formed(h),
        g.len() == h.len(),
        queens_of(g) == queens_of(h),
    ensures
        g == h,
{
    assert forall|i: int| 0 <= i < g.len() implies g[i] =~= h[i] by {
        assert(g[i].len() == h[i].len());
        assert forall|j: int| 0 <= j < g.len() implies g[i][j] == h[i][j] by {
            let p: Square = (i, j);
            assert(queens_of(g).contains(p) <==> g[p.0][p.1] == CellState::Queen);
            assert(queens_of(h).contains(p) <==> h[p.0][p.1] == CellState::Queen);
        }
    }
    assert(g =~= h);
}

} // verus!
