//! The search: pieces are tried in the order of their numbers, each at every
//! corner and in every orientation in turn, and a piece that fits nowhere
//! sends the search back to the piece before it.

use crate::board::{
    covered, in_grid, lemma_stack_replays, lemma_ten_moves_fill, replayed, replays, stackable,
    Board, BoardView, Cell, Move,
};
use crate::poly::{Location, Orientation, PolyIndex};
use crate::solution::lemma_solution_solves;
use vstd::prelude::*;

verus! {

/// The place of a candidate in the enumeration: corners count row by row,
/// and at each corner the eight orientations in their order.
pub open spec fn rank(orientation: Orientation, location: Location) -> int {
    8 * (5 * location.1 + location.0) + orientation.ordinal()
}

/// The place of the last candidate of the enumeration: the last orientation
/// at the corner (3, 3, 0).
pub open spec fn last_rank() -> int {
    151
}

/// Whether the enumeration reaches the corner `location`: it lies on the
/// lower layer, in one of the five columns, and no later than (3, 3, 0).
pub open spec fn enumerated(location: Location) -> bool {
    location.2 == 0 && location.0 <= 4 && 5 * location.1 + location.0 <= 18
}

/// The candidate that follows the given one: the next orientation at the
/// same corner, or the first orientation at the next corner of the row, or at
/// the first corner of the next row; none after the corner (3, 3).
pub open spec fn following(orientation: Orientation, location: Location) -> Option<
    (Orientation, Location),
> {
    match orientation.successor() {
        Some(o) => Some((o, location)),
        None => {
            if location.0 == 3 && location.1 == 3 {
                None
            } else if location.0 == 4 {
                Some((Orientation::identity(), (0, (location.1 + 1) as usize, 0)))
            } else {
                Some((Orientation::identity(), ((location.0 + 1) as usize, location.1, 0)))
            }
        },
    }
}

/// Within the enumeration each candidate is followed by the one at the next
/// place, and only the one at the last place is followed by none.
pub proof fn lemma_following_rank(orientation: Orientation, location: Location)
    requires
        enumerated(location),
    ensures
        0 <= rank(orientation, location) <= last_rank(),
        match following(orientation, location) {
            Some((o, l)) => enumerated(l) && rank(o, l) == rank(orientation, location) + 1,
            None => rank(orientation, location) == last_rank(),
        },
{
    orientation.lemma_successor_ordinal();
}

/// Two candidates of the enumeration at the same place are the same.
pub proof fn lemma_rank_decides(o1: Orientation, l1: Location, o2: Orientation, l2: Location)
    requires
        enumerated(l1),
        enumerated(l2),
        rank(o1, l1) == rank(o2, l2),
    ensures
        o1 == o2,
        l1 == l2,
{
    o1.lemma_successor_ordinal();
    o2.lemma_successor_ordinal();
    assert(o1.ordinal() == o2.ordinal());
    o1.lemma_ordinal_decides(o2);
}

/// The candidate to try after the given one: the next orientation, or else
/// the first orientation at the next corner; `Err` when the corner (3, 3) has
/// seen its last orientation.
pub fn next_orient_or_loc(orientation: Orientation, location: Location) -> (r: Result<
    (Orientation, Location),
    (),
>)
    requires
        location.0 < usize::MAX,
        location.1 < usize::MAX,
    ensures
        r == match following(orientation, location) {
            Some(c) => Ok::<(Orientation, Location), ()>(c),
            None => Err::<(Orientation, Location), ()>(()),
        },
{
    match orientation.next() {
        Ok(new) => Ok((new, location)),
        Err(_) => {
            // no more orientations!
            if location.0 == 3 && location.1 == 3 {
                // every corner has been tried: a piece is two cells wide and long or more
                Err(())
            } else if location.0 == 4 {
                Ok((Orientation::new(), (0, location.1 + 1, 0)))
            } else {
                Ok((Orientation::new(), (location.0 + 1, location.1, 0)))
            }
        },
    }
}

/// The place of the candidate that a move was.
pub open spec fn key(m: Move) -> int {
    rank(m.orientation, m.location)
}

/// The moves place the pieces in the order of their numbers, from 0 on.
pub open spec fn in_order(s: Seq<Move>) -> bool {
    forall|i: int| 0 <= i < s.len() ==> (#[trigger] s[i]).polymino.index() == i
}

/// The moves solve the puzzle: they place the pieces in the order of their
/// numbers, they can be stacked, and they cover every cell of the grid.
pub open spec fn solves(s: Seq<Move>) -> bool {
    &&& in_order(s)
    &&& stackable(s)
    &&& forall|c: Cell| in_grid(c) ==> covered(s, c)
}

/// The first `n` moves of `a` and of `b` were candidates at the same places.
pub open spec fn agree(a: Seq<Move>, b: Seq<Move>, n: int) -> bool {
    forall|i: int| 0 <= i < n ==> key(#[trigger] a[i]) == key(b[i])
}

/// The moves `a` come before the moves `b` in the order of the search: where
/// they first differ, the move of `a` was the earlier candidate.
pub open spec fn precedes(a: Seq<Move>, b: Seq<Move>) -> bool {
    exists|j: int|
        0 <= j < a.len() && j < b.len() && #[trigger] agree(a, b, j) && key(a[j]) < key(b[j])
}

/// The moves `a` come before every continuation of the moves `p` by a
/// candidate at the place `r` or later.
pub open spec fn before(a: Seq<Move>, p: Seq<Move>, r: int) -> bool {
    exists|j: int|
        0 <= j <= p.len() && j < a.len() && #[trigger] agree(a, p, j) && key(a[j]) < (if j
            < p.len() {
            key(p[j])
        } else {
            r
        })
}

/// No solution comes before the continuations of the moves `p` by a
/// candidate at the place `r` or later: the search has left none behind.
pub open spec fn unbeaten(p: Seq<Move>, r: int) -> bool {
    forall|a: Seq<Move>| #[trigger] solves(a) ==> !before(a, p, r)
}

/// A solution has ten moves.
pub proof fn lemma_solution_has_ten(s: Seq<Move>)
    requires
        solves(s),
    ensures
        s.len() == 10,
{
    lemma_ten_moves_fill(s);
}

/// A well-placed move was a candidate of the enumeration.
pub proof fn lemma_well_placed_enumerated(m: Move)
    requires
        m.well_placed(),
    ensures
        enumerated(m.location),
        0 <= key(m) <= last_rank(),
{
    m.lemma_well_placed_corner();
    lemma_following_rank(m.orientation, m.location);
}

/// Two moves of the same piece that were candidates at the same place are
/// the same move.
pub proof fn lemma_key_decides(m: Move, n: Move)
    requires
        enumerated(m.location),
        enumerated(n.location),
        key(m) == key(n),
        m.polymino.index() == n.polymino.index(),
    ensures
        m == n,
{
    lemma_rank_decides(m.orientation, m.location, n.orientation, n.location);
    m.polymino.lemma_index_decides(n.polymino);
}

/// Moves in order that can be stacked and that were candidates at the same
/// places are the same moves.
pub proof fn lemma_agree_same(a: Seq<Move>, p: Seq<Move>, n: int)
    requires
        0 <= n <= a.len(),
        n <= p.len(),
        in_order(a),
        in_order(p),
        stackable(a),
        stackable(p),
        agree(a, p, n),
    ensures
        forall|i: int| 0 <= i < n ==> #[trigger] a[i] == p[i],
{
    assert forall|i: int| 0 <= i < n implies #[trigger] a[i] == p[i] by {
        assert(a[i].well_placed());
        assert(p[i].well_placed());
        lemma_well_placed_enumerated(a[i]);
        lemma_well_placed_enumerated(p[i]);
        assert(key(a[i]) == key(p[i]));
        lemma_key_decides(a[i], p[i]);
    }
}

/// A candidate that the board refuses continues no solution, so the search
/// may go on to the next place.
pub proof fn lemma_skip_refused(b: BoardView, m: Move)
    requires
        b.wf(),
        in_order(b.moves),
        m.polymino.index() == b.moves.len(),
        enumerated(m.location),
        !b.admits(m),
        unbeaten(b.moves, key(m)),
    ensures
        unbeaten(b.moves, key(m) + 1),
{
    let p = b.moves;
    let k = p.len() as int;
    let r = key(m);
    assert forall|a: Seq<Move>| #[trigger] solves(a) implies !before(a, p, r + 1) by {
        if before(a, p, r + 1) {
            let j = choose|j: int|
                0 <= j <= p.len() && j < a.len() && #[trigger] agree(a, p, j) && key(a[j]) < (if j
                    < p.len() {
                    key(p[j])
                } else {
                    r + 1
                });
            if j < k || key(a[j]) < r {
                assert(agree(a, p, j));
                assert(before(a, p, r));
            } else {
                lemma_agree_same(a, p, k);
                assert(a[k].well_placed());
                lemma_well_placed_enumerated(a[k]);
                lemma_key_decides(a[k], m);
                assert forall|i: int| 0 <= i < 5 implies b.cells[#[trigger] m.cell(i)] is None by {
                    let c = m.cell(i);
                    assert(in_grid(c));
                    assert(b.cells[c] == crate::board::stamped(p, c));
                    assert(a[k].covers(c));
                    if covered(p, c) {
                        let h = choose|h: int| 0 <= h < p.len() && #[trigger] p[h].covers(c);
                        assert(a[h] == p[h]);
                        assert(a[h].covers(c));
                    }
                }
                assert(b.admits(m));
            }
        }
    }
}

/// Once a candidate is placed, the search for the next piece starts at the
/// first place and has left no solution behind.
pub proof fn lemma_advance(p: Seq<Move>, m: Move)
    requires
        unbeaten(p, key(m)),
    ensures
        unbeaten(p.push(m), 0),
{
    let q = p.push(m);
    let k = p.len() as int;
    assert forall|a: Seq<Move>| #[trigger] solves(a) implies !before(a, q, 0) by {
        if before(a, q, 0) {
            let j = choose|j: int|
                0 <= j <= q.len() && j < a.len() && #[trigger] agree(a, q, j) && key(a[j]) < (if j
                    < q.len() {
                    key(q[j])
                } else {
                    0
                });
            assert(j <= k);
            assert forall|i: int| 0 <= i < j implies key(#[trigger] a[i]) == key(p[i]) by {
                assert(q[i] == p[i]);
            }
            assert(agree(a, p, j));
            if j < k {
                assert(q[j] == p[j]);
            }
            assert(before(a, p, key(m)));
        }
    }
}

/// When a piece has run out of candidates, no solution continues the moves
/// before it, so the search may go on to the place after the last of them.
pub proof fn lemma_retreat(p: Seq<Move>, r: int)
    requires
        unbeaten(p, r),
        r > last_rank(),
        0 < p.len() < 10,
    ensures
        unbeaten(p.drop_last(), key(p.last()) + 1),
{
    let q = p.drop_last();
    let k = q.len() as int;
    assert forall|a: Seq<Move>| #[trigger] solves(a) implies !before(a, q, key(p.last()) + 1) by {
        if before(a, q, key(p.last()) + 1) {
            let j = choose|j: int|
                0 <= j <= q.len() && j < a.len() && #[trigger] agree(a, q, j) && key(a[j]) < (if j
                    < q.len() {
                    key(q[j])
                } else {
                    key(p.last()) + 1
                });
            assert forall|i: int| 0 <= i < j implies key(#[trigger] a[i]) == key(p[i]) by {
                assert(q[i] == p[i]);
            }
            assert(agree(a, p, j));
            if j < k {
                assert(q[j] == p[j]);
                assert(before(a, p, r));
            } else if key(a[k]) < key(p[k]) {
                assert(before(a, p, r));
            } else {
                lemma_solution_has_ten(a);
                assert(agree(a, p, k + 1));
                assert(a[k + 1].well_placed());
                lemma_well_placed_enumerated(a[k + 1]);
                assert(before(a, p, r));
            }
        }
    }
}

/// When the first piece has run out of candidates, the puzzle has no
/// solution.
pub proof fn lemma_exhausted(r: int)
    requires
        unbeaten(Seq::<Move>::empty(), r),
        r > last_rank(),
    ensures
        forall|a: Seq<Move>| !solves(a),
{
    let p = Seq::<Move>::empty();
    assert forall|a: Seq<Move>| !solves(a) by {
        if solves(a) {
            lemma_solution_has_ten(a);
            assert(a[0].well_placed());
            lemma_well_placed_enumerated(a[0]);
            assert(agree(a, p, 0));
            assert(before(a, p, r));
        }
    }
}

/// Moves that the search has reached come after no solution.
pub proof fn lemma_first(p: Seq<Move>, r: int)
    requires
        unbeaten(p, r),
    ensures
        forall|a: Seq<Move>| #[trigger] solves(a) ==> !precedes(a, p),
{
    assert forall|a: Seq<Move>| #[trigger] solves(a) implies !precedes(a, p) by {
        if precedes(a, p) {
            let j = choose|j: int|
                0 <= j < a.len() && j < p.len() && #[trigger] agree(a, p, j) && key(a[j]) < key(
                    p[j],
                );
            assert(before(a, p, r));
        }
    }
}

/// The puzzle has a solution.
pub proof fn lemma_solvable()
    ensures
        exists|a: Seq<Move>| solves(a),
{
    lemma_solution_solves();
}

/// How far the search has come at the piece `j`: one more than the place of
/// its move, or of the candidate that is being tried for it; nothing for a
/// piece that the search has not reached.
pub open spec fn progress(p: Seq<Move>, r: int, j: int) -> int {
    if j < p.len() {
        key(p[j]) + 1
    } else if j == p.len() {
        r + 1
    } else {
        0
    }
}

/// The number that the first `n` of the digits `d` write, the first digit
/// counting most: each digit counts for 154 times the one after it.
pub open spec fn number(d: spec_fn(int) -> int, n: nat) -> int
    decreases n,
{
    if n == 0 {
        0
    } else {
        154 * number(d, (n - 1) as nat) + d(n - 1)
    }
}

/// The number of numbers that `n` digits can write.
pub open spec fn span(n: nat) -> int
    decreases n,
{
    if n == 0 {
        1
    } else {
        154 * span((n - 1) as nat)
    }
}

/// How far the search has come in all: its progress at the eleven places
/// from the first piece to the one after the last, read as one number. Every
/// step of the search makes it greater.
pub open spec fn mileage(p: Seq<Move>, r: int) -> int {
    number(|j: int| progress(p, r, j), 11)
}

/// Digits from 0 to 153 write a number within the span of their count.
pub proof fn lemma_number_bounded(d: spec_fn(int) -> int, n: nat)
    requires
        forall|j: int| 0 <= j < n ==> 0 <= #[trigger] d(j) <= 153,
    ensures
        0 <= number(d, n) < span(n),
    decreases n,
{
    if n > 0 {
        lemma_number_bounded(d, (n - 1) as nat);
        assert(0 <= d(n - 1) <= 153);
    }
}

/// Digits that agree write the same number.
pub proof fn lemma_number_same(d: spec_fn(int) -> int, e: spec_fn(int) -> int, n: nat)
    requires
        forall|j: int| 0 <= j < n ==> #[trigger] d(j) == e(j),
    ensures
        number(d, n) == number(e, n),
    decreases n,
{
    if n > 0 {
        lemma_number_same(d, e, (n - 1) as nat);
        assert(d(n - 1) == e(n - 1));
    }
}

/// Of two rows of digits from 0 to 153 that agree up to the place `k`, the
/// one with the smaller digit at that place writes the smaller number.
pub proof fn lemma_number_less(d: spec_fn(int) -> int, e: spec_fn(int) -> int, k: int, n: nat)
    requires
        0 <= k < n,
        forall|j: int| 0 <= j < k ==> #[trigger] d(j) == e(j),
        d(k) < e(k),
        forall|j: int| 0 <= j < n ==> 0 <= #[trigger] d(j) <= 153,
        forall|j: int| 0 <= j < n ==> 0 <= #[trigger] e(j) <= 153,
    ensures
        number(d, n) < number(e, n),
    decreases n,
{
    if n == k + 1 {
        lemma_number_same(d, e, k as nat);
    } else {
        lemma_number_less(d, e, k, (n - 1) as nat);
        assert(0 <= d(n - 1) <= 153);
        assert(0 <= e(n - 1) <= 153);
    }
}

/// The progress of a search over moves that can be stacked is a digit from
/// 0 to 153 at every place.
pub proof fn lemma_progress_bounded(p: Seq<Move>, r: int, j: int)
    requires
        stackable(p),
        0 <= r <= last_rank() + 1,
        0 <= j,
    ensures
        0 <= progress(p, r, j) <= 153,
{
    if j < p.len() {
        assert(p[j].well_placed());
        lemma_well_placed_enumerated(p[j]);
    }
}

/// The mileage of a search stays within the span of eleven digits.
pub proof fn lemma_mileage_bounded(p: Seq<Move>, r: int)
    requires
        stackable(p),
        0 <= r <= last_rank() + 1,
    ensures
        0 <= mileage(p, r) < span(11),
{
    let d = |j: int| progress(p, r, j);
    assert forall|j: int| 0 <= j < 11 implies 0 <= #[trigger] d(j) <= 153 by {
        lemma_progress_bounded(p, r, j);
    }
    lemma_number_bounded(d, 11);
}

/// Of two states of the search over moves that can be stacked, of which the
/// second has the same progress up to the place `k` and more there, the
/// second has the greater mileage.
pub proof fn lemma_mileage_less(p: Seq<Move>, r: int, q: Seq<Move>, t: int, k: int)
    requires
        stackable(p),
        stackable(q),
        0 <= r <= last_rank() + 1,
        0 <= t <= last_rank() + 1,
        0 <= k <= 10,
        forall|j: int| 0 <= j < k ==> progress(p, r, j) == progress(q, t, j),
        progress(p, r, k) < progress(q, t, k),
    ensures
        mileage(p, r) < mileage(q, t),
{
    let d = |j: int| progress(p, r, j);
    let e = |j: int| progress(q, t, j);
    assert forall|j: int| 0 <= j < 11 implies 0 <= #[trigger] d(j) <= 153 by {
        lemma_progress_bounded(p, r, j);
    }
    assert forall|j: int| 0 <= j < 11 implies 0 <= #[trigger] e(j) <= 153 by {
        lemma_progress_bounded(q, t, j);
    }
    assert forall|j: int| 0 <= j < k implies #[trigger] d(j) == e(j) by {
        assert(progress(p, r, j) == progress(q, t, j));
    }
    lemma_number_less(d, e, k, 11);
}

/// Going on to the next candidate for the same piece adds to the mileage.
pub proof fn lemma_mileage_next(p: Seq<Move>, r: int)
    requires
        stackable(p),
        p.len() <= 10,
        0 <= r <= last_rank(),
    ensures
        mileage(p, r) < mileage(p, r + 1),
{
    lemma_mileage_less(p, r, p, r + 1, p.len() as int);
}

/// Placing the candidate and starting on the next piece adds to the
/// mileage.
pub proof fn lemma_mileage_advance(p: Seq<Move>, m: Move)
    requires
        stackable(p),
        stackable(p.push(m)),
        p.len() < 10,
    ensures
        mileage(p, key(m)) < mileage(p.push(m), 0),
{
    let q = p.push(m);
    assert(q[p.len() as int] == m);
    assert(m.well_placed());
    lemma_well_placed_enumerated(m);
    assert forall|j: int| 0 <= j < p.len() + 1 implies progress(p, key(m), j) == progress(
        q,
        0,
        j,
    ) by {
        if j < p.len() {
            assert(q[j] == p[j]);
        }
    }
    lemma_mileage_less(p, key(m), q, 0, p.len() as int + 1);
}

/// Taking moves back to the first `n` and going on to the candidate after
/// the move that came next adds to the mileage.
pub proof fn lemma_mileage_retreat(p: Seq<Move>, r: int, n: int)
    requires
        stackable(p),
        stackable(p.take(n)),
        0 <= n < p.len() <= 10,
        0 <= r <= last_rank() + 1,
        key(p[n]) < last_rank(),
    ensures
        mileage(p, r) < mileage(p.take(n), key(p[n]) + 1),
{
    let q = p.take(n);
    assert(p[n].well_placed());
    lemma_well_placed_enumerated(p[n]);
    assert forall|j: int| 0 <= j < n implies progress(p, r, j) == progress(
        q,
        key(p[n]) + 1,
        j,
    ) by {
        assert(q[j] == p[j]);
    }
    lemma_mileage_less(p, r, q, key(p[n]) + 1, n);
}

/// Takes moves back until one is found that a candidate follows, and gives
/// that candidate.
fn backtrack(board: &mut Board, poly_index: &mut usize) -> (r: (Orientation, Location))
    requires
        old(board).wf(),
        *old(poly_index) == old(board)@.moves.len(),
        *old(poly_index) < 10,
        unbeaten(old(board)@.moves, last_rank() + 1),
    ensures
        final(board).wf(),
        *final(poly_index) == final(board)@.moves.len(),
        *final(poly_index) < *old(poly_index),
        final(board)@.moves == old(board)@.moves.take(*final(poly_index) as int),
        enumerated(r.1),
        rank(r.0, r.1) == key(old(board)@.moves[*final(poly_index) as int]) + 1,
        unbeaten(final(board)@.moves, rank(r.0, r.1)),
{
    proof {
        if board@.moves.len() == 0 {
            assert(board@.moves =~= Seq::<Move>::empty());
            lemma_exhausted(last_rank() + 1);
            lemma_solvable();
        } else {
            lemma_retreat(board@.moves, last_rank() + 1);
        }
    }
    let mut last_move = board.pop().expect("Should be able to find a solution!");
    *poly_index -= 1;
    loop
        invariant
            board.wf(),
            *poly_index == board@.moves.len(),
            *poly_index < *old(poly_index),
            *old(poly_index) < 10,
            *old(poly_index) == old(board)@.moves.len(),
            old(board).wf(),
            board@.moves == old(board)@.moves.take(*poly_index as int),
            last_move == old(board)@.moves[*poly_index as int],
            unbeaten(board@.moves, key(last_move) + 1),
        decreases board@.moves.len(),
    {
        proof {
            assert(last_move.well_placed());
            lemma_well_placed_enumerated(last_move);
            lemma_following_rank(last_move.orientation, last_move.location);
        }
        match next_orient_or_loc(last_move.orientation, last_move.location) {
            Ok(next) => {
                return next;
            },
            Err(_) => {
                proof {
                    if board@.moves.len() == 0 {
                        assert(board@.moves =~= Seq::<Move>::empty());
                        lemma_exhausted(last_rank() + 1);
                        lemma_solvable();
                    } else {
                        lemma_retreat(board@.moves, last_rank() + 1);
                    }
                }
                last_move = board.pop().expect("Should be able to find a solution! (2)");
                *poly_index -= 1;
                assert(board@.moves =~= old(board)@.moves.take(*poly_index as int));
            },
        }
    }
}

/// Finds the first solution of the puzzle in the order of the search: the
/// ten moves that fill the grid, one for each piece in the order of their
/// numbers, such that no solution comes before them.
pub fn search() -> (moves: Vec<Move>)
    ensures
        moves@.len() == 10,
        solves(moves@),
        forall|other: Seq<Move>| #[trigger] solves(other) ==> !precedes(other, moves@),
{
    let mut board = Board::new();

    let mut poly_index: usize = 0;
    let mut orientation = Orientation::new();
    let mut location: Location = (0, 0, 0);
    proof {
        assert forall|a: Seq<Move>| #[trigger] solves(a) implies !before(a, board@.moves, 0) by {}
    }
    while !board.complete()
        invariant
            board.wf(),
            poly_index == board@.moves.len(),
            poly_index <= 10,
            in_order(board@.moves),
            enumerated(location),
            unbeaten(board@.moves, rank(orientation, location)),
        decreases span(11) - mileage(board@.moves, rank(orientation, location)),
    {
        let ghost before_moves = board@.moves;
        let ghost before_rank = rank(orientation, location);
        proof {
            lemma_not_full(board@);
            lemma_following_rank(orientation, location);
            lemma_mileage_bounded(before_moves, before_rank);
        }
        let poly = PolyIndex::new(poly_index).expect("should never go past 10");
        let ghost m = Move { location, orientation, polymino: poly };
        match board.push(poly, orientation, location) {
            Ok(_) => {
                proof {
                    lemma_advance(before_moves, m);
                    lemma_mileage_advance(before_moves, m);
                }
                poly_index += 1;
                orientation = Orientation::new();  // reset orientation
                location = (0, 0, 0);
                proof {
                    lemma_ten_moves_fill(board@.moves);
                }
            },
            Err(_) => {
                proof {
                    lemma_skip_refused(board@, m);
                }
                match next_orient_or_loc(orientation, location) {
                    Ok((new_orient, new_loc)) => {
                        orientation = new_orient;
                        location = new_loc;
                        proof {
                            lemma_mileage_next(before_moves, before_rank);
                        }
                    },
                    Err(_) => {
                        // this piece fits nowhere on the board as it is: take
                        // the last piece back and try its next candidate
                        let (new_orient, new_loc) = backtrack(&mut board, &mut poly_index);
                        orientation = new_orient;
                        location = new_loc;
                        proof {
                            assert forall|i: int| 0 <= i < board@.moves.len() implies (
                            #[trigger] board@.moves[i]).polymino.index() == i by {
                                assert(board@.moves[i] == before_moves[i]);
                            }
                            lemma_mileage_retreat(before_moves, before_rank, poly_index as int);
                        }
                    },
                }
            },
        }
        proof {
            lemma_following_rank(orientation, location);
            lemma_mileage_bounded(board@.moves, rank(orientation, location));
        }
    }
    proof {
        lemma_first(board@.moves, rank(orientation, location));
        lemma_full_solves(board@);
        lemma_solution_has_ten(board@.moves);
    }
    board.moves
}

/// On a well-formed board that is not full, fewer than ten moves are made.
pub proof fn lemma_not_full(b: BoardView)
    requires
        b.wf(),
        !b.full(),
    ensures
        b.moves.len() < 10,
{
    lemma_ten_moves_fill(b.moves);
}

/// The moves of a well-formed board that is full cover every cell.
pub proof fn lemma_full_solves(b: BoardView)
    requires
        b.wf(),
        b.full(),
        in_order(b.moves),
    ensures
        solves(b.moves),
{
    assert forall|c: Cell| in_grid(c) implies covered(b.moves, c) by {
        assert(b.cells[c] == Some(crate::board::color_of(c)));
        assert(b.cells[c] == crate::board::stamped(b.moves, c));
    }
}

/// The moves of a solution can be made one after another on an empty board,
/// each admitted in its turn, and leave the board full.
pub proof fn lemma_solution_replays(s: Seq<Move>)
    requires
        solves(s),
    ensures
        s.len() == 10,
        replays(s),
        replayed(s).moves == s,
        replayed(s).wf(),
        replayed(s).full(),
{
    lemma_solution_has_ten(s);
    lemma_stack_replays(s);
    let b = replayed(s);
    assert forall|c: Cell| in_grid(c) implies #[trigger] b.cells[c] == Some(
        crate::board::color_of(c),
    ) by {
        assert(b.cells[c] == crate::board::stamped(s, c));
    }
}

/// Two solutions of which neither comes before the other agree in their
/// first `n` moves.
pub proof fn lemma_solutions_agree(a: Seq<Move>, b: Seq<Move>, n: int)
    requires
        solves(a),
        solves(b),
        !precedes(a, b),
        !precedes(b, a),
        0 <= n <= 10,
    ensures
        agree(a, b, n),
        agree(b, a, n),
    decreases n,
{
    lemma_solution_has_ten(a);
    lemma_solution_has_ten(b);
    if n > 0 {
        lemma_solutions_agree(a, b, n - 1);
        assert(agree(a, b, n - 1));
        assert(agree(b, a, n - 1));
        if key(a[n - 1]) < key(b[n - 1]) {
            assert(precedes(a, b));
        } else if key(b[n - 1]) < key(a[n - 1]) {
            assert(precedes(b, a));
        }
    }
}

/// There is one first solution only: two solutions of which neither comes
/// before the other are the same. What `search` returns is therefore the
/// same sequence of moves each time.
pub proof fn lemma_first_solution_unique(a: Seq<Move>, b: Seq<Move>)
    requires
        solves(a),
        solves(b),
        !precedes(a, b),
        !precedes(b, a),
    ensures
        a == b,
{
    lemma_solution_has_ten(a);
    lemma_solution_has_ten(b);
    lemma_solutions_agree(a, b, 10);
    lemma_agree_same(a, b, 10);
    assert(a =~= b);
}

} // verus!
