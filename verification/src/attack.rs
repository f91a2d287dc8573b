//! Squares, when a queen on one square attacks another, and how many queens of a
//! set attack a square.

use vstd::prelude::*;
use vstd::set_lib::{lemma_len_subset, lemma_len_union};

verus! {

/// A square, as (row, column).
pub type Square = (int, int);

/// Whether a queen on `a` attacks the square `b`: the two differ and share a row,
/// a column or a diagonal.
pub open spec fn attacks(a: Square, b: Square) -> bool {
    a != b && (a.0 == b.0 || a.1 == b.1 || a.0 - b.0 == a.1 - b.1 || a.0 - b.0 == b.1 - a.1)
}

/// Whether `p` lies on a board of the given side.
pub open spec fn on_board(p: Square, side: int) -> bool {
    0 <= p.0 < side && 0 <= p.1 < side
}

/// The queens of `queens` that attack `x`.
pub open spec fn attackers(queens: Set<Square>, x: Square) -> Set<Square> {
    queens.filter(|q: Square| attacks(q, x))
}

/// No queen of the set attacks another.
pub open spec fn peaceful(queens: Set<Square>) -> bool {
    forall|a: Square, b: Square|
        queens.contains(a) && queens.contains(b) ==> !#[trigger] attacks(a, b)
}

/// `x` holds no queen and no queen of the set attacks it.
pub open spec fn safe_for(queens: Set<Square>, x: Square) -> bool {
    !queens.contains(x) && forall|q: Square| queens.contains(q) ==> !#[trigger] attacks(q, x)
}

/// A finite set in which any two members are equal has at most one member.
proof fn lemma_at_most_one(s: Set<Square>)
    requires
        s.finite(),
        forall|a: Square, b: Square| s.contains(a) && s.contains(b) ==> a == b,
    ensures
        s.len() <= 1,
{
    if s.len() != 0 {
        let e = s.choose();
        assert(s.contains(e));
        assert(s.remove(e) =~= Set::empty());
    }
}

/// The attackers of a square are finite where the queens are.
pub proof fn lemma_attackers_finite(queens: Set<Square>, x: Square)
    requires
        queens.finite(),
    ensures
        attackers(queens, x).finite(),
        attackers(queens, x).len() <= queens.len(),
{
    queens.lemma_len_filter(|q: Square| attacks(q, x));
}

/// Among queens that do not attack one another at most four attack one square:
/// one along its row, one along its column and one along each diagonal.
pub proof fn lemma_attackers_bound(queens: Set<Square>, x: Square)
    requires
        queens.finite(),
        peaceful(queens),
    ensures
        attackers(queens, x).finite(),
        attackers(queens, x).len() <= 4,
{
    let all = attackers(queens, x);
    lemma_attackers_finite(queens, x);
    let row = all.filter(|q: Square| q.0 == x.0);
    let col = all.filter(|q: Square| q.1 == x.1);
    let diag = all.filter(|q: Square| q.0 - x.0 == q.1 - x.1);
    let anti = all.filter(|q: Square| q.0 - x.0 == x.1 - q.1);
    all.lemma_len_filter(|q: Square| q.0 == x.0);
    all.lemma_len_filter(|q: Square| q.1 == x.1);
    all.lemma_len_filter(|q: Square| q.0 - x.0 == q.1 - x.1);
    all.lemma_len_filter(|q: Square| q.0 - x.0 == x.1 - q.1);
    assert forall|a: Square, b: Square| row.contains(a) && row.contains(b) implies a == b by {
        assert(!attacks(a, b));
    }
    assert forall|a: Square, b: Square| col.contains(a) && col.contains(b) implies a == b by {
        assert(!attacks(a, b));
    }
    assert forall|a: Square, b: Square| diag.contains(a) && diag.contains(b) implies a == b by {
        assert(!attacks(a, b));
    }
    assert forall|a: Square, b: Square| anti.contains(a) && anti.contains(b) implies a == b by {
        assert(!attacks(a, b));
    }
    lemma_at_most_one(row);
    lemma_at_most_one(col);
    lemma_at_most_one(diag);
    lemma_at_most_one(anti);
    let lines = row.union(col).union(diag.union(anti));
    lemma_len_union(row, col);
    lemma_len_union(diag, anti);
    lemma_len_union(row.union(col), diag.union(anti));
    assert(all.subset_of(lines));
    lemma_len_subset(all, lines);
}

/// A new queen adds one attacker to each square it attacks and none elsewhere.
pub proof fn lemma_attackers_insert(queens: Set<Square>, q: Square, x: Square)
    requires
        queens.finite(),
        !queens.contains(q),
    ensures
        attackers(queens.insert(q), x).len() == attackers(queens, x).len() + (if attacks(q, x) {
            1nat
        } else {
            0nat
        }),
{
    lemma_attackers_finite(queens, x);
    if attacks(q, x) {
        assert(attackers(queens.insert(q), x) =~= attackers(queens, x).insert(q));
    } else {
        assert(attackers(queens.insert(q), x) =~= attackers(queens, x));
    }
}

/// A queen taken away leaves one attacker fewer on each square it attacked.
pub proof fn lemma_attackers_remove(queens: Set<Square>, q: Square, x: Square)
    requires
        queens.finite(),
        queens.contains(q),
    ensures
        attackers(queens, x).len() == attackers(queens.remove(q), x).len() + (if attacks(q, x) {
            1nat
        } else {
            0nat
        }),
{
    let rest = queens.remove(q);
    assert(rest.insert(q) =~= queens);
    lemma_attackers_insert(rest, q, x);
}

/// A square has no attackers exactly when no queen of the set attacks it.
pub proof fn lemma_attackers_none(queens: Set<Square>, x: Square)
    requires
        queens.finite(),
    ensures
        attackers(queens, x).len() == 0 <==> (forall|q: Square|
            queens.contains(q) ==> !#[trigger] attacks(q, x)),
{
    lemma_attackers_finite(queens, x);
    let all = attackers(queens, x);
    if all.len() == 0 {
        assert forall|q: Square| queens.contains(q) implies !#[trigger] attacks(q, x) by {
            if attacks(q, x) {
                assert(all.contains(q));
            }
        }
    }
    if forall|q: Square| queens.contains(q) ==> !#[trigger] attacks(q, x) {
        assert(all =~= Set::empty());
    }
}

} // verus!
