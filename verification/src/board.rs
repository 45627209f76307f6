//! The board: a grid of five by five by two cells, and the stack of the
//! placements that filled it.

use crate::poly::{
    catalogue, lemma_catalogue_in_box, lemma_catalogue_shape, Color, Location, Orientation,
    PolyIndex, Polymino, IMPOSSIBLE_ORIENTATION,
};
use vstd::prelude::*;
use vstd::seq_lib::seq_to_set_is_finite;
use vstd::set_lib::{lemma_len_subset, lemma_subset_equality};

verus! {

/// A cell of the grid as the contracts see it: x first, then y, then z.
pub type Cell = (int, int, int);

/// Whether `c` is one of the fifty cells of the grid.
pub open spec fn in_grid(c: Cell) -> bool {
    0 <= c.0 < 5 && 0 <= c.1 < 5 && 0 <= c.2 < 2
}

/// The colour that the cell `c` takes: black where the sum of its
/// coordinates is even, white where it is odd.
pub open spec fn color_of(c: Cell) -> Color {
    if (c.0 + c.1 + c.2) % 2 == 0 {
        Color::Black
    } else {
        Color::White
    }
}

/// A move is one placement of a piece on the board.
///
/// The location is the cell that receives the corner (0, 0, 0) of the box of
/// the piece.
#[derive(Debug)]
pub struct Move {
    pub location: Location,
    pub orientation: Orientation,
    pub polymino: PolyIndex,
}

impl Clone for Move {
    fn clone(&self) -> (m: Self)
        ensures
            m == *self,
    {
        Move { location: self.location, orientation: self.orientation, polymino: self.polymino }
    }
}

impl Move {
    /// The piece as this move puts it down: turned, then laid on its side
    /// if its grain is short.
    #[verifier::opaque]
    pub open spec fn piece(self) -> Polymino {
        catalogue(self.polymino.index()).oriented(self.orientation).normalized()
    }

    /// The cell that the cube `i` of the piece takes.
    pub open spec fn cell(self, i: int) -> Cell {
        let offset = self.piece().cubes[i].0;
        (self.location.0 + offset.0, self.location.1 + offset.1, self.location.2 + offset.2)
    }

    /// The colour of the cube `i` of the piece.
    pub open spec fn color(self, i: int) -> Color {
        self.piece().cubes[i].1
    }

    /// Whether one of the first `n` cubes takes the cell `c`.
    pub open spec fn covers_with(self, n: int, c: Cell) -> bool {
        exists|i: int| 0 <= i < n && #[trigger] self.cell(i) == c
    }

    /// Whether one of the five cubes takes the cell `c`.
    pub open spec fn covers(self, c: Cell) -> bool {
        self.covers_with(5, c)
    }

    /// The move names a piece in an orientation that it can take, and every
    /// cube comes to lie on a cell of the grid that has its colour.
    pub open spec fn well_placed(self) -> bool {
        &&& 0 <= self.polymino.index() < 10
        &&& self.orientation.suits(catalogue(self.polymino.index()).grain)
        &&& forall|i: int|
            0 <= i < 5 ==> in_grid(#[trigger] self.cell(i)) && self.color(i) == color_of(
                self.cell(i),
            )
    }
}

/// Whether some move of `s` covers the cell `c`.
pub open spec fn covered(s: Seq<Move>, c: Cell) -> bool {
    exists|k: int| 0 <= k < s.len() && #[trigger] s[k].covers(c)
}

/// Every move of `s` is well placed, and no two of them cover the same cell.
pub open spec fn stackable(s: Seq<Move>) -> bool {
    &&& forall|k: int| 0 <= k < s.len() ==> (#[trigger] s[k]).well_placed()
    &&& forall|j: int, k: int, c: Cell|
        0 <= j < k < s.len() && #[trigger] s[j].covers(c) ==> !#[trigger] s[k].covers(c)
}

/// What the cell `c` holds once the moves of `s` are made.
pub open spec fn stamped(s: Seq<Move>, c: Cell) -> Option<Color> {
    if covered(s, c) {
        Some(color_of(c))
    } else {
        None
    }
}

/// What `push` answers when the piece does not fit.
pub const NOT_POSSIBLE: &'static str = "not possible to place";

/// A board as the contracts see it.
pub struct BoardView {
    /// What each of the fifty cells holds.
    pub cells: Map<Cell, Option<Color>>,
    /// The moves made so far, the first one first.
    pub moves: Seq<Move>,
}

impl BoardView {
    /// The board before any move: every cell of the grid is empty.
    pub open spec fn empty() -> BoardView {
        BoardView {
            cells: Map::new(|c: Cell| in_grid(c), |c: Cell| None::<Color>),
            moves: Seq::empty(),
        }
    }

    /// Whether the move `m` can be made: its piece can take its orientation,
    /// and every cube comes to lie on an empty cell of the grid that has its
    /// colour.
    pub open spec fn admits(self, m: Move) -> bool {
        &&& m.well_placed()
        &&& forall|i: int| 0 <= i < 5 ==> self.cells[#[trigger] m.cell(i)] is None
    }

    /// The board once the move `m` is made: the cells that it covers hold
    /// their colour, and it is the last of the moves.
    pub open spec fn put(self, m: Move) -> BoardView {
        BoardView {
            cells: Map::new(
                |c: Cell| in_grid(c),
                |c: Cell|
                    if m.covers(c) {
                        Some(color_of(c))
                    } else {
                        self.cells[c]
                    },
            ),
            moves: self.moves.push(m),
        }
    }

    /// The board once the last move is taken back: the cells that it covers
    /// are empty, and it is no longer among the moves.
    pub open spec fn take_back(self) -> BoardView
        recommends
            self.moves.len() > 0,
    {
        BoardView {
            cells: Map::new(
                |c: Cell| in_grid(c),
                |c: Cell|
                    if self.moves.last().covers(c) {
                        None
                    } else {
                        self.cells[c]
                    },
            ),
            moves: self.moves.drop_last(),
        }
    }

    /// Every cell of the grid holds a cube of its colour.
    pub open spec fn full(self) -> bool {
        forall|c: Cell| in_grid(c) ==> #[trigger] self.cells[c] == Some(color_of(c))
    }

    /// The moves can be stacked, and the cells hold what the moves put there
    /// and nothing else.
    pub open spec fn wf(self) -> bool {
        &&& self.cells.dom() =~= Set::new(|c: Cell| in_grid(c))
        &&& stackable(self.moves)
        &&& forall|c: Cell| in_grid(c) ==> #[trigger] self.cells[c] == stamped(self.moves, c)
    }
}

/// The board is the five by five by two space in which to place pieces.
///
/// It holds the stack of the moves that led to its state, and the state
/// itself, indexed by x, then y, then z.
#[derive(Debug)]
pub struct Board {
    pub moves: Vec<Move>,
    pub state: [[[Option<Color>; 2]; 5]; 5],
}

impl Clone for Board {
    fn clone(&self) -> (b: Self)
        ensures
            b@ == self@,
    {
        let b = Board { moves: self.moves.clone(), state: self.state };
        assert forall|i: int| 0 <= i < self.moves@.len() implies b.moves@[i] == self.moves@[i] by {
            assert(cloned::<Move>(self.moves@[i], b.moves@[i]));
        }
        assert(b.moves@ =~= self.moves@);
        b
    }
}

impl View for Board {
    type V = BoardView;

    open spec fn view(&self) -> BoardView {
        BoardView {
            cells: Map::new(|c: Cell| in_grid(c), |c: Cell| self.state[c.0][c.1][c.2]),
            moves: self.moves@,
        }
    }
}

/// The cell of the grid at the place `offset` of a box whose corner lies at
/// `location`, if there is one.
fn cell_at(location: Location, offset: Location) -> (r: Option<Location>)
    requires
        offset.0 <= 2,
        offset.1 <= 2,
        offset.2 <= 2,
    ensures
        match r {
            Some(at) => at.0 == location.0 + offset.0 && at.1 == location.1 + offset.1 && at.2
                == location.2 + offset.2 && in_grid((at.0 as int, at.1 as int, at.2 as int)),
            None => !in_grid(
                (location.0 + offset.0, location.1 + offset.1, location.2 + offset.2),
            ),
        },
{
    if location.0 < 5 && location.1 < 5 && location.2 < 2 && location.0 + offset.0 < 5
        && location.1 + offset.1 < 5 && location.2 + offset.2 < 2 {
        Some((location.0 + offset.0, location.1 + offset.1, location.2 + offset.2))
    } else {
        None
    }
}

impl Board {
    /// The moves can be stacked, and the cells hold what the moves put there
    /// and nothing else.
    pub open spec fn wf(&self) -> bool {
        self@.wf()
    }

    /// An empty board.
    pub fn new() -> (b: Self)
        ensures
            b@ == BoardView::empty(),
            b.wf(),
    {
        let b = Board { moves: Vec::new(), state: [[[None;2];5];5] };
        assert(b@.cells =~= BoardView::empty().cells);
        b
    }

    /// Writes `value` to the cell at `location`.
    fn set(&mut self, location: Location, value: Option<Color>)
        requires
            in_grid((location.0 as int, location.1 as int, location.2 as int)),
        ensures
            final(self).moves == old(self).moves,
            forall|c: Cell|
                in_grid(c) ==> #[trigger] final(self)@.cells[c] == if c == (
                    location.0 as int,
                    location.1 as int,
                    location.2 as int,
                ) {
                    value
                } else {
                    old(self)@.cells[c]
                },
    {
        self.state[location.0][location.1][location.2] = value;
    }

    /// Whether a cube of the colour `color` may lie at `location`: a black
    /// one where the sum of the coordinates is even, a white one where it is
    /// odd.
    pub fn color_fits(location: Location, color: Color) -> (r: bool)
        ensures
            r == (color == color_of((location.0 as int, location.1 as int, location.2 as int))),
    {
        (location.0 % 2 + location.1 % 2 + location.2 % 2) % 2 == match color {
            Color::Black => 0,
            Color::White => 1,
        }
    }

    /// Whether every cell holds a cube of its colour.
    pub fn complete(&self) -> (r: bool)
        ensures
            r == self@.full(),
    {
        let mut x: usize = 0;
        while x < 5
            invariant
                0 <= x <= 5,
                forall|c: Cell|
                    in_grid(c) && c.0 < x ==> #[trigger] self@.cells[c] == Some(color_of(c)),
            decreases 5 - x,
        {
            let mut y: usize = 0;
            while y < 5
                invariant
                    0 <= x < 5,
                    0 <= y <= 5,
                    forall|c: Cell|
                        in_grid(c) && (c.0 < x || (c.0 == x && c.1 < y))
                            ==> #[trigger] self@.cells[c] == Some(color_of(c)),
                decreases 5 - y,
            {
                let mut z: usize = 0;
                while z < 2
                    invariant
                        0 <= x < 5,
                        0 <= y < 5,
                        0 <= z <= 2,
                        forall|c: Cell|
                            in_grid(c) && (c.0 < x || (c.0 == x && (c.1 < y || (c.1 == y && c.2
                                < z)))) ==> #[trigger] self@.cells[c] == Some(color_of(c)),
                    decreases 2 - z,
                {
                    let ghost c: Cell = (x as int, y as int, z as int);
                    if let Some(color) = self.state[x][y][z] {
                        if !Board::color_fits((x, y, z), color) {
                            assert(self@.cells[c] != Some(color_of(c)));
                            return false;
                        }
                    } else {
                        assert(self@.cells[c] != Some(color_of(c)));
                        return false;
                    }
                    z += 1;
                }
                y += 1;
            }
            x += 1;
        }
        true
    }

    /// Places the piece `poly`, turned into `orientation`, with the corner
    /// of its box at `location`, if every cube comes to lie on an empty cell
    /// of the grid that has its colour. Otherwise the board is left as it is.
    pub fn push(&mut self, poly: PolyIndex, orientation: Orientation, location: Location) -> (r:
        Result<(), &'static str>)
        ensures
            ({
                let m = Move { location, orientation, polymino: poly };
                match r {
                    Ok(_) => {
                        &&& old(self)@.admits(m)
                        &&& final(self)@ == old(self)@.put(m)
                        &&& forall|i: int|
                            0 <= i < 5 ==> final(self)@.cells[#[trigger] m.cell(i)] == Some(
                                m.color(i),
                            )
                    },
                    Err(e) => {
                        &&& !old(self)@.admits(m)
                        &&& *final(self) == *old(self)
                        &&& e == if orientation.suits(catalogue(poly.index()).grain) {
                            NOT_POSSIBLE
                        } else {
                            IMPOSSIBLE_ORIENTATION
                        }
                    },
                }
            }),
            old(self).wf() ==> final(self).wf(),
    {
        let ghost m = Move { location, orientation, polymino: poly };
        let piece = poly.to_poly();
        proof {
            lemma_catalogue_in_box(poly.index());
            piece.lemma_oriented_in_box(orientation);
            piece.oriented(orientation).lemma_normalized_box();
        }
        let mut oriented = match piece.orient(orientation) {
            Ok(p) => p,
            Err(e) => {
                return Err(e);
            },
        };
        oriented.normalize_grain();
        assert(oriented == m.piece()) by {
            reveal(Move::piece);
        }

        let mut possible = true;
        let mut i: usize = 0;
        while i < 5
            invariant
                0 <= i <= 5,
                m == (Move { location, orientation, polymino: poly }),
                oriented == m.piece(),
                oriented.in_box() || oriented.in_side_box(),
                possible <==> forall|j: int|
                    0 <= j < i ==> in_grid(#[trigger] m.cell(j)) && m.color(j) == color_of(
                        m.cell(j),
                    ) && self@.cells[m.cell(j)] is None,
            decreases 5 - i,
        {
            let (cube_loc, color) = oriented.cubes[i];
            let fits = match cell_at(location, cube_loc) {
                Some(at) => self.state[at.0][at.1][at.2].is_none() && Board::color_fits(at, color),
                None => false,
            };
            assert(fits <==> in_grid(m.cell(i as int)) && m.color(i as int) == color_of(
                m.cell(i as int),
            ) && self@.cells[m.cell(i as int)] is None);
            possible = possible && fits;
            i += 1;
        }

        if possible {
            let mut i: usize = 0;
            while i < 5
                invariant
                    0 <= i <= 5,
                    m == (Move { location, orientation, polymino: poly }),
                    oriented == m.piece(),
                    oriented.in_box() || oriented.in_side_box(),
                    old(self)@.admits(m),
                    self.moves == old(self).moves,
                    forall|c: Cell|
                        in_grid(c) ==> #[trigger] self@.cells[c] == if m.covers_with(i as int, c) {
                            Some(color_of(c))
                        } else {
                            old(self)@.cells[c]
                        },
                decreases 5 - i,
            {
                let (cube_loc, color) = oriented.cubes[i];
                assert(in_grid(m.cell(i as int)));
                let at = (
                    location.0 + cube_loc.0,
                    location.1 + cube_loc.1,
                    location.2 + cube_loc.2,
                );
                self.set(at, Some(color));
                assert forall|c: Cell| in_grid(c) implies #[trigger] self@.cells[c]
                    == if m.covers_with(i + 1, c) {
                    Some(color_of(c))
                } else {
                    old(self)@.cells[c]
                } by {
                    if c == m.cell(i as int) {
                    } else if m.covers_with(i as int, c) {
                        let j = choose|j: int| 0 <= j < i && #[trigger] m.cell(j) == c;
                        assert(m.cell(j) == c);
                    } else if m.covers_with(i + 1, c) {
                        let j = choose|j: int| 0 <= j < i + 1 && #[trigger] m.cell(j) == c;
                        assert(m.cell(j) == c);
                    }
                }
                i += 1;
            }
            oriented.undo_normalize();
            let change = Move { location, orientation, polymino: poly };
            let ghost written = self@.cells;
            self.moves.push(change);
            proof {
                assert(self@.cells == written);
                assert forall|c: Cell| in_grid(c) implies self@.cells[c] == old(self)@.put(
                    m,
                ).cells[c] by {
                    assert(written[c] == if m.covers(c) {
                        Some(color_of(c))
                    } else {
                        old(self)@.cells[c]
                    });
                }
                assert(self@.cells =~= old(self)@.put(m).cells);
                if old(self).wf() {
                    old(self)@.lemma_put_keeps_wf(m);
                }
            }
            Ok(())
        } else {
            Err(NOT_POSSIBLE)
        }
    }

    /// Takes the last move back, if there is one, and empties the cells that
    /// its piece covers.
    pub fn pop(&mut self) -> (r: Option<Move>)
        requires
            old(self).wf(),
        ensures
            match r {
                Some(m) => {
                    &&& old(self)@.moves.len() > 0
                    &&& m == old(self)@.moves.last()
                    &&& final(self)@ == old(self)@.take_back()
                },
                None => old(self)@.moves.len() == 0 && final(self)@ == old(self)@,
            },
            final(self).wf(),
    {
        let last_move = match self.moves.pop() {
            Some(m) => m,
            None => {
                assert(self@.cells =~= old(self)@.cells);
                return None;
            },
        };
        let ghost m = last_move;
        assert(m == old(self)@.moves.last());
        assert(m.well_placed());
        let piece = last_move.polymino.to_poly();
        proof {
            lemma_catalogue_in_box(m.polymino.index());
            piece.lemma_oriented_in_box(m.orientation);
            piece.oriented(m.orientation).lemma_normalized_box();
        }
        let mut poly = piece.orient(last_move.orientation).unwrap();
        poly.normalize_grain();
        assert(poly == m.piece()) by {
            reveal(Move::piece);
        }

        let mut i: usize = 0;
        while i < 5
            invariant
                0 <= i <= 5,
                poly == m.piece(),
                poly.in_box() || poly.in_side_box(),
                m.well_placed(),
                m == last_move,
                self.moves@ == old(self).moves@.drop_last(),
                forall|c: Cell|
                    in_grid(c) ==> #[trigger] self@.cells[c] == if m.covers_with(i as int, c) {
                        None
                    } else {
                        old(self)@.cells[c]
                    },
            decreases 5 - i,
        {
            let cube_loc = poly.cubes[i].0;
            assert(in_grid(m.cell(i as int)));
            let at = (
                last_move.location.0 + cube_loc.0,
                last_move.location.1 + cube_loc.1,
                last_move.location.2 + cube_loc.2,
            );
            self.set(at, None);
            assert forall|c: Cell| in_grid(c) implies #[trigger] self@.cells[c]
                == if m.covers_with(i + 1, c) {
                None
            } else {
                old(self)@.cells[c]
            } by {
                if c == m.cell(i as int) {
                } else if m.covers_with(i as int, c) {
                    let j = choose|j: int| 0 <= j < i && #[trigger] m.cell(j) == c;
                    assert(m.cell(j) == c);
                } else if m.covers_with(i + 1, c) {
                    let j = choose|j: int| 0 <= j < i + 1 && #[trigger] m.cell(j) == c;
                    assert(m.cell(j) == c);
                }
            }
            i += 1;
        }
        proof {
            assert(self@.cells =~= old(self)@.take_back().cells);
            old(self)@.lemma_take_back_keeps_wf();
        }
        Some(last_move)
    }
}

impl BoardView {
    /// A move that a well-formed board admits leaves it well formed.
    pub proof fn lemma_put_keeps_wf(self, m: Move)
        requires
            self.wf(),
            self.admits(m),
        ensures
            self.put(m).wf(),
    {
        let after = self.put(m);
        let n = self.moves.len() as int;
        assert forall|k: int| 0 <= k < after.moves.len() implies (
        #[trigger] after.moves[k]).well_placed() by {
            if k < n {
                assert(after.moves[k] == self.moves[k]);
            }
        }
        assert forall|j: int, k: int, c: Cell|
            0 <= j < k < after.moves.len() && #[trigger] after.moves[j].covers(c) implies !(
            #[trigger] after.moves[k].covers(c)) by {
            assert(after.moves[j] == self.moves[j]);
            if k < n {
                assert(after.moves[k] == self.moves[k]);
            } else if m.covers(c) {
                let i = choose|i: int| 0 <= i < 5 && #[trigger] m.cell(i) == c;
                assert(self.cells[m.cell(i)] is None);
                assert(self.moves[j].covers(c));
                assert(covered(self.moves, c));
                assert(self.cells[c] == stamped(self.moves, c));
            }
        }
        assert forall|c: Cell| in_grid(c) implies #[trigger] after.cells[c] == stamped(
            after.moves,
            c,
        ) by {
            if m.covers(c) {
                assert(after.moves[n].covers(c));
            } else if covered(self.moves, c) {
                let k = choose|k: int|
                    0 <= k < self.moves.len() && #[trigger] self.moves[k].covers(c);
                assert(after.moves[k].covers(c));
                assert(self.cells[c] == stamped(self.moves, c));
            } else {
                assert(self.cells[c] == stamped(self.moves, c));
                if covered(after.moves, c) {
                    let k = choose|k: int|
                        0 <= k < after.moves.len() && #[trigger] after.moves[k].covers(c);
                    if k < n {
                        assert(self.moves[k].covers(c));
                    }
                }
            }
        }
    }

    /// Taking the last move back leaves a well-formed board well formed.
    pub proof fn lemma_take_back_keeps_wf(self)
        requires
            self.wf(),
            self.moves.len() > 0,
        ensures
            self.take_back().wf(),
    {
        let after = self.take_back();
        let n = after.moves.len() as int;
        let m = self.moves.last();
        assert forall|k: int| 0 <= k < after.moves.len() implies (
        #[trigger] after.moves[k]).well_placed() by {
            assert(after.moves[k] == self.moves[k]);
        }
        assert forall|j: int, k: int, c: Cell|
            0 <= j < k < after.moves.len() && #[trigger] after.moves[j].covers(c) implies !(
            #[trigger] after.moves[k].covers(c)) by {
            assert(after.moves[j] == self.moves[j]);
            assert(after.moves[k] == self.moves[k]);
        }
        assert forall|c: Cell| in_grid(c) implies #[trigger] after.cells[c] == stamped(
            after.moves,
            c,
        ) by {
            assert(self.cells[c] == stamped(self.moves, c));
            if m.covers(c) {
                if covered(after.moves, c) {
                    let k = choose|k: int|
                        0 <= k < after.moves.len() && #[trigger] after.moves[k].covers(c);
                    assert(self.moves[k].covers(c));
                    assert(self.moves[n].covers(c));
                }
            } else if covered(self.moves, c) {
                let k = choose|k: int|
                    0 <= k < self.moves.len() && #[trigger] self.moves[k].covers(c);
                assert(after.moves[k].covers(c));
            } else {
                if covered(after.moves, c) {
                    let k = choose|k: int|
                        0 <= k < after.moves.len() && #[trigger] after.moves[k].covers(c);
                    assert(self.moves[k].covers(c));
                }
            }
        }
    }

    /// Taking back a move that was just made gives the board as it was
    /// before: every cell and the whole stack of moves.
    pub proof fn lemma_put_take_back(self, m: Move)
        requires
            self.wf(),
            self.admits(m),
        ensures
            self.put(m).take_back() == self,
    {
        let back = self.put(m).take_back();
        assert(self.put(m).moves.last() == m);
        assert(back.moves =~= self.moves);
        assert forall|c: Cell| in_grid(c) implies back.cells[c] == self.cells[c] by {
            if m.covers(c) {
                let i = choose|i: int| 0 <= i < 5 && #[trigger] m.cell(i) == c;
                assert(self.cells[m.cell(i)] is None);
            }
        }
        assert(back.cells =~= self.cells);
    }

    /// On a well-formed board a cell that holds a black cube has an even sum
    /// of coordinates, and one that holds a white cube an odd sum.
    pub proof fn lemma_colors_fit(self)
        requires
            self.wf(),
        ensures
            forall|c: Cell|
                in_grid(c) && #[trigger] self.cells[c] == Some(Color::Black) ==> (c.0 + c.1 + c.2)
                    % 2 == 0,
            forall|c: Cell|
                in_grid(c) && #[trigger] self.cells[c] == Some(Color::White) ==> (c.0 + c.1 + c.2)
                    % 2 == 1,
    {
        assert forall|c: Cell| in_grid(c) implies #[trigger] self.cells[c] == stamped(
            self.moves,
            c,
        ) by {}
    }

    /// On a well-formed board no two moves of the stack cover the same cell.
    pub proof fn lemma_no_overlap(self)
        requires
            self.wf(),
        ensures
            forall|j: int, k: int, c: Cell|
                0 <= j < self.moves.len() && 0 <= k < self.moves.len() && j != k
                    && #[trigger] self.moves[j].covers(c) ==> !#[trigger] self.moves[k].covers(c),
    {
        assert forall|j: int, k: int, c: Cell|
            0 <= j < self.moves.len() && 0 <= k < self.moves.len() && j != k
                && #[trigger] self.moves[j].covers(c) implies !#[trigger] self.moves[k].covers(
            c,
        ) by {
            if self.moves[k].covers(c) {
                if j < k {
                    assert(!self.moves[k].covers(c));
                } else {
                    assert(!self.moves[j].covers(c));
                }
            }
        }
    }
}

impl Move {
    /// A well-placed move has its corner on the lower layer, and no further
    /// than the fourth column and the fourth row: every piece is two cells
    /// or more wide, long and deep.
    pub proof fn lemma_well_placed_corner(self)
        requires
            self.well_placed(),
        ensures
            self.location.0 <= 3,
            self.location.1 <= 3,
            self.location.2 == 0,
    {
        reveal(Move::piece);
        let i = self.polymino.index();
        let p = self.piece();
        lemma_catalogue_shape(i);
        catalogue(i).lemma_placed_spans_space(self.orientation);
        let a = choose|a: int| 0 <= a < 5 && (#[trigger] p.cubes[a].0).0 >= 1;
        let b = choose|b: int| 0 <= b < 5 && (#[trigger] p.cubes[b].0).1 >= 1;
        let c = choose|c: int| 0 <= c < 5 && (#[trigger] p.cubes[c].0).2 >= 1;
        assert(in_grid(self.cell(a)));
        assert(in_grid(self.cell(b)));
        assert(in_grid(self.cell(c)));
    }

    /// The five cubes of a move take five cells.
    pub proof fn lemma_cells_apart(self)
        requires
            0 <= self.polymino.index() < 10,
        ensures
            forall|a: int, b: int|
                0 <= a < 5 && 0 <= b < 5 && a != b ==> #[trigger] self.cell(a)
                    != #[trigger] self.cell(b),
    {
        reveal(Move::piece);
        let i = self.polymino.index();
        let p = self.piece();
        lemma_catalogue_shape(i);
        catalogue(i).lemma_placed_cubes_apart(self.orientation);
        assert forall|a: int, b: int| 0 <= a < 5 && 0 <= b < 5 && a != b implies (
        #[trigger] self.cell(a)) != #[trigger] self.cell(b) by {
            if a < b {
                assert(p.cubes[a].0 != p.cubes[b].0);
            } else {
                assert(p.cubes[b].0 != p.cubes[a].0);
            }
        }
    }
}

/// The cells that the moves of `s` take, five for each move.
pub open spec fn cells_of(s: Seq<Move>) -> Seq<Cell> {
    Seq::new(5 * s.len(), |t: int| s[t / 5].cell(t % 5))
}

/// The fifty cells of the grid.
pub open spec fn grid_cells() -> Seq<Cell> {
    Seq::new(50, |t: int| (t % 5, (t / 5) % 5, t / 25))
}

/// The grid has fifty cells.
pub proof fn lemma_grid_has_fifty()
    ensures
        grid_cells().no_duplicates(),
        grid_cells().to_set() =~= Set::new(|c: Cell| in_grid(c)),
        grid_cells().to_set().len() == 50,
        grid_cells().to_set().finite(),
{
    let g = grid_cells();
    assert forall|c: Cell| in_grid(c) implies g.contains(c) by {
        let t = 25 * c.2 + 5 * c.1 + c.0;
        assert(g[t] == c);
    }
    assert(g.to_set() =~= Set::new(|c: Cell| in_grid(c)));
    g.unique_seq_to_set();
    seq_to_set_is_finite(g);
}

/// In moves that can be stacked, two different cubes take two different
/// cells, whether they belong to one move or to two.
pub proof fn lemma_cubes_apart(s: Seq<Move>, j: int, a: int, k: int, b: int)
    requires
        stackable(s),
        0 <= j < s.len(),
        0 <= k < s.len(),
        0 <= a < 5,
        0 <= b < 5,
        j != k || a != b,
    ensures
        s[j].cell(a) != s[k].cell(b),
{
    if j == k {
        assert(s[j].well_placed());
        s[j].lemma_cells_apart();
    } else {
        assert(s[j].covers(s[j].cell(a)));
        assert(s[k].covers(s[k].cell(b)));
        if j < k {
            assert(!s[k].covers(s[j].cell(a)));
        } else {
            assert(!s[j].covers(s[k].cell(b)));
        }
    }
}

/// Moves that can be stacked take five cells each, no two the same.
pub proof fn lemma_cells_of_stack_apart(s: Seq<Move>)
    requires
        stackable(s),
    ensures
        cells_of(s).no_duplicates(),
{
    let cs = cells_of(s);
    assert forall|t: int, u: int| 0 <= t < cs.len() && 0 <= u < cs.len() && t != u implies cs[t]
        != cs[u] by {
        let (j, a) = (t / 5, t % 5);
        let (k, b) = (u / 5, u % 5);
        assert(t == 5 * j + a && u == 5 * k + b);
        assert(0 <= j < s.len() && 0 <= k < s.len());
        lemma_cubes_apart(s, j, a, k, b);
        assert(cs[t] == s[j].cell(a));
        assert(cs[u] == s[k].cell(b));
    }
}

/// The cells that moves take are the cells that the moves cover.
pub proof fn lemma_cells_of_stack_covered(s: Seq<Move>, c: Cell)
    ensures
        cells_of(s).to_set().contains(c) <==> covered(s, c),
{
    let cs = cells_of(s);
    if cs.contains(c) {
        let t = choose|t: int| 0 <= t < cs.len() && cs[t] == c;
        let (k, i) = (t / 5, t % 5);
        assert(0 <= k < s.len());
        assert(cs[t] == s[k].cell(i));
        lemma_covers(s, k, i);
    }
    if covered(s, c) {
        let k = choose|k: int| 0 <= k < s.len() && #[trigger] s[k].covers(c);
        let i = choose|i: int| 0 <= i < 5 && #[trigger] s[k].cell(i) == c;
        let t = 5 * k + i;
        assert(t / 5 == k && t % 5 == i);
        assert(cs[t] == c);
    }
}

/// Moves that can be stacked take five cells each, all of them cells of the
/// grid and no two the same.
pub proof fn lemma_cells_of_stack(s: Seq<Move>)
    requires
        stackable(s),
    ensures
        cells_of(s).no_duplicates(),
        cells_of(s).to_set().len() == 5 * s.len(),
        cells_of(s).to_set().finite(),
        forall|c: Cell| cells_of(s).to_set().contains(c) <==> covered(s, c),
        forall|c: Cell| covered(s, c) ==> in_grid(c),
{
    let cs = cells_of(s);
    lemma_cells_of_stack_apart(s);
    cs.unique_seq_to_set();
    seq_to_set_is_finite(cs);
    assert forall|c: Cell| cs.to_set().contains(c) <==> covered(s, c) by {
        lemma_cells_of_stack_covered(s, c);
    }
    assert forall|c: Cell| covered(s, c) implies in_grid(c) by {
        lemma_covered_in_grid(s, c);
    }
}

/// The cell that a cube of a move takes is covered.
pub proof fn lemma_covers(s: Seq<Move>, k: int, i: int)
    requires
        0 <= k < s.len(),
        0 <= i < 5,
    ensures
        s[k].covers(s[k].cell(i)),
        covered(s, s[k].cell(i)),
{
    assert(s[k].covers(s[k].cell(i)));
}

/// What moves that can be stacked cover is a cell of the grid.
pub proof fn lemma_covered_in_grid(s: Seq<Move>, c: Cell)
    requires
        stackable(s),
        covered(s, c),
    ensures
        in_grid(c),
{
    let k = choose|k: int| 0 <= k < s.len() && #[trigger] s[k].covers(c);
    let i = choose|i: int| 0 <= i < 5 && #[trigger] s[k].cell(i) == c;
    assert(s[k].well_placed());
}

/// No more than ten moves can be stacked, and ten moves are stacked exactly
/// when every cell of the grid is covered.
pub proof fn lemma_ten_moves_fill(s: Seq<Move>)
    requires
        stackable(s),
    ensures
        s.len() <= 10,
        s.len() == 10 <==> (forall|c: Cell| in_grid(c) ==> covered(s, c)),
{
    let taken = cells_of(s).to_set();
    let all = grid_cells().to_set();
    lemma_grid_has_fifty();
    lemma_cells_of_stack(s);
    assert(taken.subset_of(all));
    lemma_len_subset(taken, all);
    if s.len() == 10 {
        lemma_subset_equality(taken, all);
        assert forall|c: Cell| in_grid(c) implies covered(s, c) by {
            assert(all.contains(c));
        }
    }
    if forall|c: Cell| in_grid(c) ==> covered(s, c) {
        assert forall|c: Cell| all.contains(c) implies taken.contains(c) by {
            assert(in_grid(c));
        }
        assert(all.subset_of(taken));
        lemma_len_subset(all, taken);
    }
}

/// The board that the moves of `s` leave when they are made one after
/// another on an empty board.
pub open spec fn replayed(s: Seq<Move>) -> BoardView
    decreases s.len(),
{
    if s.len() == 0 {
        BoardView::empty()
    } else {
        replayed(s.drop_last()).put(s.last())
    }
}

/// Whether the moves of `s` can be made one after another on an empty
/// board: each is admitted by the board that the moves before it leave.
pub open spec fn replays(s: Seq<Move>) -> bool
    decreases s.len(),
{
    s.len() == 0 || (replays(s.drop_last()) && replayed(s.drop_last()).admits(s.last()))
}

/// Moves that can be stacked can be made one after another on an empty
/// board, and leave a well-formed board that holds them as its moves.
pub proof fn lemma_stack_replays(s: Seq<Move>)
    requires
        stackable(s),
    ensures
        replays(s),
        replayed(s).wf(),
        replayed(s).moves == s,
    decreases s.len(),
{
    if s.len() == 0 {
        assert(replayed(s).moves =~= s);
    } else {
        let rest = s.drop_last();
        let m = s.last();
        let n = rest.len() as int;
        assert forall|k: int| 0 <= k < rest.len() implies (#[trigger] rest[k]).well_placed() by {
            assert(rest[k] == s[k]);
        }
        assert forall|j: int, k: int, c: Cell|
            0 <= j < k < rest.len() && #[trigger] rest[j].covers(c) implies !(
            #[trigger] rest[k].covers(c)) by {
            assert(rest[j] == s[j]);
            assert(rest[k] == s[k]);
        }
        lemma_stack_replays(rest);
        let b = replayed(rest);
        assert(m == s[n]);
        assert(m.well_placed());
        assert forall|i: int| 0 <= i < 5 implies b.cells[#[trigger] m.cell(i)] is None by {
            let c = m.cell(i);
            assert(b.cells[c] == stamped(rest, c));
            assert(s[n].covers(c));
            if covered(rest, c) {
                let h = choose|h: int| 0 <= h < rest.len() && #[trigger] rest[h].covers(c);
                assert(rest[h] == s[h]);
                assert(s[h].covers(c));
            }
        }
        b.lemma_put_keeps_wf(m);
        assert(replayed(s).moves =~= s);
    }
}

} // verus!
