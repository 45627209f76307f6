//! A solution of the puzzle, written down: it shows that the search cannot
//! run out of candidates.

use crate::board::{in_grid, lemma_ten_moves_fill, stackable, Cell, Move};
use crate::poly::{FullRotation, HalfRotation, Orientation, PolyIndex};
use crate::search::{in_order, solves};
use vstd::prelude::*;

verus! {

/// The move of a solution for the piece `k`.
pub open spec fn solution_move(k: int) -> Move {
    if k == 0 {
        Move {
            location: (2, 0, 0),
            orientation: Orientation { short: FullRotation::Zero, long: HalfRotation::Zero },
            polymino: PolyIndex::of(0),
        }
    } else if k == 1 {
        Move {
            location: (0, 0, 0),
            orientation: Orientation {
                short: FullRotation::OneEighty,
                long: HalfRotation::OneEighty,
            },
            polymino: PolyIndex::of(1),
        }
    } else if k == 2 {
        Move {
            location: (0, 2, 0),
            orientation: Orientation { short: FullRotation::Zero, long: HalfRotation::Zero },
            polymino: PolyIndex::of(2),
        }
    } else if k == 3 {
        Move {
            location: (2, 3, 0),
            orientation: Orientation { short: FullRotation::Zero, long: HalfRotation::OneEighty },
            polymino: PolyIndex::of(3),
        }
    } else if k == 4 {
        Move {
            location: (0, 3, 0),
            orientation: Orientation { short: FullRotation::Ninety, long: HalfRotation::Zero },
            polymino: PolyIndex::of(4),
        }
    } else if k == 5 {
        Move {
            location: (1, 0, 0),
            orientation: Orientation {
                short: FullRotation::OneEighty,
                long: HalfRotation::OneEighty,
            },
            polymino: PolyIndex::of(5),
        }
    } else if k == 6 {
        Move {
            location: (1, 3, 0),
            orientation: Orientation { short: FullRotation::Ninety, long: HalfRotation::OneEighty },
            polymino: PolyIndex::of(6),
        }
    } else if k == 7 {
        Move {
            location: (3, 2, 0),
            orientation: Orientation { short: FullRotation::OneEighty, long: HalfRotation::Zero },
            polymino: PolyIndex::of(7),
        }
    } else if k == 8 {
        Move {
            location: (3, 0, 0),
            orientation: Orientation {
                short: FullRotation::OneEighty,
                long: HalfRotation::OneEighty,
            },
            polymino: PolyIndex::of(8),
        }
    } else {
        Move {
            location: (0, 0, 0),
            orientation: Orientation { short: FullRotation::Ninety, long: HalfRotation::Zero },
            polymino: PolyIndex::of(9),
        }
    }
}

/// The ten moves of a solution, one for each piece.
pub open spec fn solution() -> Seq<Move> {
    Seq::new(10, |k: int| solution_move(k))
}

/// The piece that fills each cell in that solution: the lower layer first,
/// each layer row by row.
pub open spec fn filling() -> Seq<int> {
    seq![
        1, 1, 0, 0, 8,
        9, 9, 9, 0, 0,
        2, 2, 5, 7, 7,
        2, 4, 4, 6, 3,
        4, 4, 3, 3, 3,
        1, 9, 5, 0, 8,
        1, 9, 5, 8, 8,
        1, 5, 5, 8, 7,
        2, 6, 6, 6, 7,
        2, 4, 6, 3, 7,
    ]
}

/// The piece that fills the cell `c` in that solution.
pub open spec fn filled_by(c: Cell) -> int {
    filling()[25 * c.2 + 5 * c.1 + c.0]
}

/// Each move of the solution is well placed, and its piece takes cells that
/// the table gives to it.
pub proof fn lemma_solution_move(k: int)
    requires
        0 <= k < 10,
    ensures
        solution_move(k).polymino.index() == k,
        solution_move(k).well_placed(),
        forall|i: int|
            0 <= i < 5 ==> filled_by(#[trigger] solution_move(k).cell(i)) == k,
{
    reveal(Move::piece);
    let m = solution_move(k);
    PolyIndex::lemma_of_index(k);
    if k == 0 {
        assert(m.cell(0) == (2int, 0int, 0int));
        assert(m.cell(1) == (3int, 0int, 0int));
        assert(m.cell(2) == (3int, 1int, 0int));
        assert(m.cell(3) == (4int, 1int, 0int));
        assert(m.cell(4) == (3int, 0int, 1int));
    } else if k == 1 {
        assert(m.cell(0) == (0int, 2int, 1int));
        assert(m.cell(1) == (0int, 1int, 1int));
        assert(m.cell(2) == (0int, 0int, 1int));
        assert(m.cell(3) == (1int, 0int, 0int));
        assert(m.cell(4) == (0int, 0int, 0int));
    } else if k == 2 {
        assert(m.cell(0) == (1int, 2int, 0int));
        assert(m.cell(1) == (0int, 2int, 0int));
        assert(m.cell(2) == (0int, 3int, 0int));
        assert(m.cell(3) == (0int, 3int, 1int));
        assert(m.cell(4) == (0int, 4int, 1int));
    } else if k == 3 {
        assert(m.cell(0) == (4int, 4int, 0int));
        assert(m.cell(1) == (3int, 4int, 0int));
        assert(m.cell(2) == (2int, 4int, 0int));
        assert(m.cell(3) == (4int, 3int, 0int));
        assert(m.cell(4) == (3int, 4int, 1int));
    } else if k == 4 {
        assert(m.cell(0) == (0int, 4int, 0int));
        assert(m.cell(1) == (1int, 4int, 0int));
        assert(m.cell(2) == (1int, 4int, 1int));
        assert(m.cell(3) == (1int, 3int, 0int));
        assert(m.cell(4) == (2int, 3int, 0int));
    } else if k == 5 {
        assert(m.cell(0) == (2int, 2int, 1int));
        assert(m.cell(1) == (2int, 1int, 1int));
        assert(m.cell(2) == (2int, 0int, 1int));
        assert(m.cell(3) == (1int, 2int, 1int));
        assert(m.cell(4) == (2int, 2int, 0int));
    } else if k == 6 {
        assert(m.cell(0) == (3int, 3int, 0int));
        assert(m.cell(1) == (3int, 3int, 1int));
        assert(m.cell(2) == (2int, 3int, 1int));
        assert(m.cell(3) == (1int, 3int, 1int));
        assert(m.cell(4) == (2int, 4int, 1int));
    } else if k == 7 {
        assert(m.cell(0) == (4int, 2int, 1int));
        assert(m.cell(1) == (4int, 3int, 1int));
        assert(m.cell(2) == (4int, 4int, 1int));
        assert(m.cell(3) == (3int, 2int, 0int));
        assert(m.cell(4) == (4int, 2int, 0int));
    } else if k == 8 {
        assert(m.cell(0) == (4int, 1int, 1int));
        assert(m.cell(1) == (4int, 0int, 1int));
        assert(m.cell(2) == (3int, 2int, 1int));
        assert(m.cell(3) == (3int, 1int, 1int));
        assert(m.cell(4) == (4int, 0int, 0int));
    } else {
        assert(m.cell(0) == (0int, 1int, 0int));
        assert(m.cell(1) == (1int, 1int, 0int));
        assert(m.cell(2) == (2int, 1int, 0int));
        assert(m.cell(3) == (1int, 1int, 1int));
        assert(m.cell(4) == (1int, 0int, 1int));
    }
    assert forall|i: int| 0 <= i < 5 implies in_grid(#[trigger] m.cell(i)) && m.color(i)
        == crate::board::color_of(m.cell(i)) && filled_by(m.cell(i)) == k by {
        if i == 0 {
        } else if i == 1 {
        } else if i == 2 {
        } else if i == 3 {
        } else {
        }
    }
}

/// The moves of the solution solve the puzzle.
pub proof fn lemma_solution_solves()
    ensures
        solves(solution()),
{
    let s = solution();
    assert forall|k: int| 0 <= k < s.len() implies (#[trigger] s[k]).well_placed()
        && s[k].polymino.index() == k by {
        lemma_solution_move(k);
    }
    assert forall|j: int, k: int, c: Cell|
        0 <= j < k < s.len() && #[trigger] s[j].covers(c) implies !#[trigger] s[k].covers(c) by {
        if s[k].covers(c) {
            lemma_solution_move(j);
            lemma_solution_move(k);
            let a = choose|a: int| 0 <= a < 5 && #[trigger] s[j].cell(a) == c;
            let b = choose|b: int| 0 <= b < 5 && #[trigger] s[k].cell(b) == c;
            assert(filled_by(s[j].cell(a)) == j);
            assert(filled_by(s[k].cell(b)) == k);
        }
    }
    assert(stackable(s));
    assert(in_order(s));
    lemma_ten_moves_fill(s);
}

} // verus!
