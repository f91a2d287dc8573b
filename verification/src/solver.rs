//! Backtracking search: fills the rows from a given row on, trying the columns
//! of each row from left to right.

use vstd::prelude::*;
use crate::attack::{attacks, peaceful, safe_for, Square};
use crate::board::QueenBoard;
use crate::grid::{lemma_add_then_remove, lemma_queens_fix_grid, queens_of, well_formed, Grid};

verus! {

/// The squares taken when the rows from `row` on get one queen each, in the
/// columns that `cols` lists.
pub open spec fn placed(row: int, cols: Seq<int>) -> Set<Square> {
    Set::new(|p: Square| row <= p.0 < row + cols.len() && p.1 == cols[p.0 - row])
}

/// `cols` gives every row from `row` to the last a column on the board, such
/// that each new queen stands on a free square that no queen of `queens`
/// attacks, and no new queen attacks another.
pub open spec fn completes(queens: Set<Square>, side: int, row: int, cols: Seq<int>) -> bool {
    &&& cols.len() == side - row
    &&& forall|i: int|
        0 <= i < cols.len() ==> 0 <= #[trigger] cols[i] < side && safe_for(
            queens,
            (row + i, cols[i]),
        )
    &&& forall|i: int, j: int|
        0 <= i < j < cols.len() ==> !attacks((row + i, #[trigger] cols[i]), (row + j, #[trigger] cols[j]))
}

/// Whether the rows from `row` on can be filled.
pub open spec fn solvable(queens: Set<Square>, side: int, row: int) -> bool {
    exists|cols: Seq<int>| completes(queens, side, row, cols)
}

/// `a` does not come after `b` when the two are compared entry by entry from the front.
pub open spec fn lex_le(a: Seq<int>, b: Seq<int>) -> bool
    decreases a.len(),
{
    if a.len() == 0 || b.len() == 0 {
        a.len() == 0
    } else if a[0] != b[0] {
        a[0] < b[0]
    } else {
        lex_le(a.skip(1), b.skip(1))
    }
}

/// `cols` fills the rows from `row` on, and no other filling comes before it.
pub open spec fn first_completion(queens: Set<Square>, side: int, row: int, cols: Seq<int>) -> bool {
    &&& completes(queens, side, row, cols)
    &&& forall|other: Seq<int>| #[trigger]
        completes(queens, side, row, other) ==> lex_le(cols, other)
}

/// `cols` is the first filling from `row` on, and `result` holds the queens of
/// `queens` together with those that it places.
pub open spec fn first_filling(
    queens: Set<Square>,
    side: int,
    row: int,
    cols: Seq<int>,
    result: Set<Square>,
) -> bool {
    first_completion(queens, side, row, cols) && result == queens.union(placed(row, cols))
}

/// What the search from `row` on makes of a grid: where the rows can be filled,
/// the grid with the first filling added; where they cannot, the grid unchanged.
pub open spec fn solved_from(before: Grid, row: int, found: bool, after: Grid) -> bool {
    if found {
        &&& well_formed(after)
        &&& after.len() == before.len()
        &&& exists|cols: Seq<int>| #[trigger]
            first_filling(queens_of(before), before.len() as int, row, cols, queens_of(after))
    } else {
        &&& !solvable(queens_of(before), before.len() as int, row)
        &&& after == before
    }
}

/// A filling from `row` on is a free, unattacked square in `row` and a filling
/// from the next row on of the board with that square taken.
pub proof fn lemma_completes_split(queens: Set<Square>, side: int, row: int, cols: Seq<int>)
    requires
        0 <= row < side,
        completes(queens, side, row, cols),
    ensures
        0 <= cols[0] < side,
        safe_for(queens, (row, cols[0])),
        completes(queens.insert((row, cols[0])), side, row + 1, cols.skip(1)),
{
    let rest = cols.skip(1);
    let q: Square = (row, cols[0]);
    assert(0 <= cols[0] < side && safe_for(queens, (row + 0, cols[0])));
    assert forall|i: int| 0 <= i < rest.len() implies 0 <= #[trigger] rest[i] < side && safe_for(
        queens.insert(q),
        (row + 1 + i, rest[i]),
    ) by {
        assert(rest[i] == cols[i + 1]);
        assert(safe_for(queens, (row + (i + 1), cols[i + 1])));
        assert(!attacks((row + 0, cols[0]), (row + (i + 1), cols[i + 1])));
    }
    assert forall|i: int, j: int| 0 <= i < j < rest.len() implies !attacks(
        (row + 1 + i, #[trigger] rest[i]),
        (row + 1 + j, #[trigger] rest[j]),
    ) by {
        assert(rest[i] == cols[i + 1] && rest[j] == cols[j + 1]);
        assert(!attacks((row + (i + 1), cols[i + 1]), (row + (j + 1), cols[j + 1])));
    }
}

/// The converse: a free, unattacked square in `row` followed by a filling from
/// the next row on is a filling from `row` on, and takes the same squares.
pub proof fn lemma_completes_join(queens: Set<Square>, side: int, row: int, c: int, rest: Seq<int>)
    requires
        0 <= row < side,
        0 <= c < side,
        safe_for(queens, (row, c)),
        completes(queens.insert((row, c)), side, row + 1, rest),
    ensures
        completes(queens, side, row, seq![c] + rest),
        queens.union(placed(row, seq![c] + rest)) == queens.insert((row, c)).union(
            placed(row + 1, rest),
        ),
{
    let cols = seq![c] + rest;
    let q: Square = (row, c);
    assert forall|i: int| 0 <= i < cols.len() implies 0 <= #[trigger] cols[i] < side && safe_for(
        queens,
        (row + i, cols[i]),
    ) by {
        if i > 0 {
            assert(cols[i] == rest[i - 1]);
            let x: Square = (row + 1 + (i - 1), rest[i - 1]);
            assert(safe_for(queens.insert(q), x));
            assert forall|p: Square| queens.contains(p) implies !#[trigger] attacks(p, x) by {
                assert(queens.insert(q).contains(p));
            }
        }
    }
    assert forall|i: int, j: int| 0 <= i < j < cols.len() implies !attacks(
        (row + i, #[trigger] cols[i]),
        (row + j, #[trigger] cols[j]),
    ) by {
        assert(cols[j] == rest[j - 1]);
        let y: Square = (row + 1 + (j - 1), rest[j - 1]);
        if i == 0 {
            assert(safe_for(queens.insert(q), y));
            assert(queens.insert(q).contains(q));
        } else {
            assert(cols[i] == rest[i - 1]);
            assert(!attacks((row + 1 + (i - 1), rest[i - 1]), y));
        }
    }
    assert forall|p: Square| placed(row, cols).contains(p) <==> placed(row + 1, rest).insert(
        q,
    ).contains(p) by {
        if row < p.0 < row + cols.len() {
            assert(cols[p.0 - row] == rest[p.0 - (row + 1)]);
        }
    }
    assert(queens.union(placed(row, cols)) =~= queens.insert(q).union(placed(row + 1, rest)));
}

/// Two lists of one length, neither of which comes after the other, are equal.
pub proof fn lemma_lex_le_antisymmetric(a: Seq<int>, b: Seq<int>)
    requires
        a.len() == b.len(),
        lex_le(a, b),
        lex_le(b, a),
    ensures
        a == b,
    decreases a.len(),
{
    if a.len() > 0 {
        lemma_lex_le_antisymmetric(a.skip(1), b.skip(1));
        assert(a =~= seq![a[0]] + a.skip(1));
        assert(b =~= seq![b[0]] + b.skip(1));
    } else {
        assert(a =~= b);
    }
}

/// The search is a function of the grid and the row: two searches from the same
/// grid and row agree on whether the rows can be filled and end with the same grid.
pub proof fn lemma_search_deterministic(
    before: Grid,
    row: int,
    found1: bool,
    after1: Grid,
    found2: bool,
    after2: Grid,
)
    requires
        solved_from(before, row, found1, after1),
        solved_from(before, row, found2, after2),
    ensures
        found1 == found2,
        after1 == after2,
{
    let queens = queens_of(before);
    let side = before.len() as int;
    if found1 {
        let cols1 = choose|cols: Seq<int>| #[trigger]
            first_filling(queens, side, row, cols, queens_of(after1));
        assert(solvable(queens, side, row));
        if found2 {
            let cols2 = choose|cols: Seq<int>| #[trigger]
                first_filling(queens, side, row, cols, queens_of(after2));
            lemma_lex_le_antisymmetric(cols1, cols2);
            lemma_queens_fix_grid(after1, after2);
        }
    } else if found2 {
        let cols2 = choose|cols: Seq<int>| #[trigger]
            first_filling(queens, side, row, cols, queens_of(after2));
        assert(solvable(queens, side, row));
    }
}

/// Whether row `r` of a board of the given side holds a queen of `queens`.
pub open spec fn row_has_queen(queens: Set<Square>, side: int, r: int) -> bool {
    exists|c: int| 0 <= c < side && #[trigger] queens.contains((r, c))
}

/// Where the search succeeds, the queens that were on the board stay, every row
/// from `row` on holds a queen, and no two queens share a row, a column or a
/// diagonal.
pub proof fn lemma_found_fills_rows(before: Grid, row: int, after: Grid)
    requires
        0 <= row <= before.len(),
        solved_from(before, row, true, after),
    ensures
        peaceful(queens_of(after)),
        queens_of(before).subset_of(queens_of(after)),
        forall|r: int|
            row <= r < before.len() ==> #[trigger] row_has_queen(
                queens_of(after),
                before.len() as int,
                r,
            ),
        forall|a: Square, b: Square|
            queens_of(after).contains(a) && queens_of(after).contains(b) && a != b ==> a.0 != b.0
                && a.1 != b.1 && a.0 - b.0 != a.1 - b.1 && a.0 - b.0 != b.1 - a.1,
{
    let queens = queens_of(before);
    let side = before.len() as int;
    let cols = choose|cols: Seq<int>| #[trigger]
        first_filling(queens, side, row, cols, queens_of(after));
    assert forall|r: int| row <= r < side implies #[trigger] row_has_queen(
        queens_of(after),
        side,
        r,
    ) by {
        let c = cols[r - row];
        assert(placed(row, cols).contains((r, c)));
        assert(queens_of(after).contains((r, c)));
    }
    assert forall|a: Square, b: Square|
        queens_of(after).contains(a) && queens_of(after).contains(b) && a != b implies a.0 != b.0
        && a.1 != b.1 && a.0 - b.0 != a.1 - b.1 && a.0 - b.0 != b.1 - a.1 by {
        assert(!attacks(a, b));
    }
}

impl QueenBoard {
    /// Fills the rows from `r` on with one queen each, none attacked by another
    /// queen of the board. Each row takes the leftmost column with which the rows
    /// after it can still be filled. Where the rows cannot be filled the board is
    /// left as it was.
    pub fn solve(&mut self, r: usize) -> (found: bool)
        requires
            old(self).wf(),
            r <= old(self).side(),
        ensures
            final(self).wf(),
            final(self).side() == old(self).side(),
            found == solvable(old(self).queens(), old(self).side() as int, r as int),
            solved_from(old(self)@, r as int, found, final(self)@),
        decreases old(self).side() - r,
    {
        let n = self.size();
        let ghost g = self@;
        let ghost queens = queens_of(g);
        if r == n {
            proof {
                let none = Seq::<int>::empty();
                assert(completes(queens, n as int, r as int, none));
                assert(queens.union(placed(r as int, none)) =~= queens);
                assert(first_filling(queens, n as int, r as int, none, queens_of(self@)));
            }
            return true;
        }
        let mut c: usize = 0;
        while c < n
            invariant
                c <= n,
                r < n,
                n == g.len(),
                g == old(self)@,
                well_formed(g),
                queens == queens_of(g),
                self@ == g,
                forall|cols: Seq<int>| #[trigger]
                    completes(queens, n as int, r as int, cols) ==> cols[0] >= c,
            decreases n - c,
        {
            let ghost q: Square = (r as int, c as int);
            if self.can_place_queen(r, c) {
                self.add_queen(r, c);
                let ghost mid = self@;
                assert(mid.len() == g.len());
                if self.solve(r + 1) {
                    proof {
                        let next: int = r + 1;
                        let rest = choose|cols: Seq<int>| #[trigger]
                            first_filling(queens_of(mid), n as int, next, cols, queens_of(self@));
                        let cols = seq![c as int] + rest;
                        lemma_completes_join(queens, n as int, r as int, c as int, rest);
                        assert forall|other: Seq<int>| #[trigger]
                            completes(queens, n as int, r as int, other) implies lex_le(
                            cols,
                            other,
                        ) by {
                            lemma_completes_split(queens, n as int, r as int, other);
                            assert(cols.skip(1) =~= rest);
                            if other[0] == c {
                                assert(completes(queens_of(mid), n as int, r + 1, other.skip(1)));
                            }
                        }
                        assert(first_filling(queens, n as int, r as int, cols, queens_of(self@)));
                        assert(solvable(queens, n as int, r as int));
                    }
                    return true;
                }
                self.remove_queen(r, c);
                proof {
                    lemma_add_then_remove(g, q);
                    assert forall|cols: Seq<int>| #[trigger]
                        completes(queens, n as int, r as int, cols) implies cols[0] >= c + 1 by {
                        lemma_completes_split(queens, n as int, r as int, cols);
                        if cols[0] == c {
                            assert(completes(queens_of(mid), n as int, r + 1, cols.skip(1)));
                        }
                    }
                }
            } else {
                proof {
                    assert forall|cols: Seq<int>| #[trigger]
                        completes(queens, n as int, r as int, cols) implies cols[0] >= c + 1 by {
                        lemma_completes_split(queens, n as int, r as int, cols);
                    }
                }
            }
            c += 1;
        }
        proof {
            assert forall|cols: Seq<int>| !completes(queens, n as int, r as int, cols) by {
                if completes(queens, n as int, r as int, cols) {
                    lemma_completes_split(queens, n as int, r as int, cols);
                }
            }
        }
        false
    }
}

} // verus!
