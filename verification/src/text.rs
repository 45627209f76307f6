//! The pieces, the moves and the board as text, character by character.

use crate::board::{Board, BoardView, Cell, Move};
use crate::poly::{Axis, Color, FullRotation, HalfRotation, Location, Orientation, Polymino};
use vstd::prelude::*;
use vstd::string::StrSliceExecFns;

verus! {

/// The digit `d` as a character.
pub open spec fn digit(d: int) -> char {
    if d == 0 {
        '0'
    } else if d == 1 {
        '1'
    } else if d == 2 {
        '2'
    } else if d == 3 {
        '3'
    } else if d == 4 {
        '4'
    } else if d == 5 {
        '5'
    } else if d == 6 {
        '6'
    } else if d == 7 {
        '7'
    } else if d == 8 {
        '8'
    } else {
        '9'
    }
}

/// The number `n` in decimal digits.
pub open spec fn decimal(n: nat) -> Seq<char>
    decreases n,
{
    if n < 10 {
        seq![digit(n as int)]
    } else {
        decimal(n / 10).push(digit((n % 10) as int))
    }
}

/// A place as its three coordinates in brackets.
pub open spec fn location_text(location: Location) -> Seq<char> {
    "("@ + decimal(location.0 as nat) + ", "@ + decimal(location.1 as nat) + ", "@ + decimal(
        location.2 as nat,
    ) + ")"@
}

impl Color {
    /// The colour as one letter.
    pub open spec fn text(self) -> Seq<char> {
        match self {
            Color::Black => "B"@,
            Color::White => "W"@,
        }
    }
}

impl Axis {
    /// The axis as a word.
    pub open spec fn text(self) -> Seq<char> {
        match self {
            Axis::Long => "long"@,
            Axis::Short => "short"@,
        }
    }
}

impl FullRotation {
    /// The turn in degrees.
    pub open spec fn text(self) -> Seq<char> {
        match self {
            FullRotation::Zero => "0°"@,
            FullRotation::Ninety => "90°"@,
            FullRotation::OneEighty => "180°"@,
            FullRotation::TwoSeventy => "270°"@,
        }
    }
}

impl HalfRotation {
    /// The turn in degrees.
    pub open spec fn text(self) -> Seq<char> {
        match self {
            HalfRotation::Zero => "0°"@,
            HalfRotation::OneEighty => "180°"@,
        }
    }
}

impl Orientation {
    /// The orientation in words: the turns that it makes, if it makes any.
    pub open spec fn text(self) -> Seq<char> {
        if self.short == FullRotation::Zero && self.long == HalfRotation::Zero {
            "not rotated"@
        } else if self.short == FullRotation::Zero {
            "rotated "@ + self.long.text() + " about short axis"@
        } else if self.long == HalfRotation::Zero {
            "rotated "@ + self.short.text() + " about long axis"@
        } else {
            "rotated "@ + self.short.text() + " about long axis then "@ + self.long.text()
                + " about short axis"@
        }
    }
}

impl Move {
    /// The move in words: the number of the piece, its corner and its
    /// orientation.
    pub open spec fn text(self) -> Seq<char> {
        "polymino "@ + decimal(self.polymino.index() as nat) + " at "@ + location_text(
            self.location,
        ) + " "@ + self.orientation.text()
    }
}

impl Polymino {
    /// What lies at a place of the box: the letter of the first cube
    /// there, or a stroke where there is none.
    pub open spec fn cell_text(self, location: Location) -> Seq<char> {
        match self.cube_at(location) {
            Some(color) => color.text(),
            None => "_"@,
        }
    }

    /// The first `n` cells of the row `y` of the layer `z`.
    pub open spec fn cells_text(self, y: usize, z: usize, n: usize) -> Seq<char>
        decreases n,
    {
        if n == 0 {
            Seq::empty()
        } else {
            self.cells_text(y, z, (n - 1) as usize) + self.cell_text(((n - 1) as usize, y, z))
        }
    }

    /// The row `y` of the first `n` layers, with a gap after each.
    pub open spec fn layers_text(self, y: usize, n: usize) -> Seq<char>
        decreases n,
    {
        if n == 0 {
            Seq::empty()
        } else {
            self.layers_text(y, (n - 1) as usize) + self.cells_text(y, (n - 1) as usize, 3)
                + "       "@
        }
    }

    /// The first `n` rows of the two layers side by side, one line each.
    pub open spec fn rows_text(self, n: usize) -> Seq<char>
        decreases n,
    {
        if n == 0 {
            Seq::empty()
        } else {
            self.rows_text((n - 1) as usize) + self.layers_text((n - 1) as usize, 2) + "\n"@
        }
    }

    /// The piece as text: a heading with its grain, then its two layers side
    /// by side.
    pub open spec fn text(self) -> Seq<char> {
        "bottom:   top:   grain: "@ + self.grain.text() + "\n"@ + self.rows_text(2)
    }
}

impl BoardView {
    /// What a cell holds: the letter of its cube, or a stroke where it is
    /// empty.
    pub open spec fn cell_text(self, c: Cell) -> Seq<char> {
        match self.cells[c] {
            Some(color) => color.text(),
            None => "_"@,
        }
    }

    /// The first `n` cells of the row `y` of the layer `z`.
    pub open spec fn cells_text(self, y: int, z: int, n: nat) -> Seq<char>
        decreases n,
    {
        if n == 0 {
            Seq::empty()
        } else {
            self.cells_text(y, z, (n - 1) as nat) + self.cell_text((n - 1, y, z))
        }
    }

    /// The row `y` of the first `n` layers, with a gap after each.
    pub open spec fn layers_text(self, y: int, n: nat) -> Seq<char>
        decreases n,
    {
        if n == 0 {
            Seq::empty()
        } else {
            self.layers_text(y, (n - 1) as nat) + self.cells_text(y, n - 1, 5) + "   "@
        }
    }

    /// The line of the row `y`: the row in both layers, and beside it the
    /// move of that number, if it has been made.
    pub open spec fn row_text(self, y: int) -> Seq<char> {
        if y < self.moves.len() {
            self.layers_text(y, 2) + "   - "@ + self.moves[y].text() + "\n"@
        } else {
            self.layers_text(y, 2) + "\n"@
        }
    }

    /// The lines of the first `n` rows.
    pub open spec fn rows_text(self, n: nat) -> Seq<char>
        decreases n,
    {
        if n == 0 {
            Seq::empty()
        } else {
            self.rows_text((n - 1) as nat) + self.row_text(n - 1)
        }
    }

    /// The lines of the moves after the fifth, up to the move `n`.
    pub open spec fn later_moves_text(self, n: nat) -> Seq<char>
        decreases n,
    {
        if n <= 5 {
            Seq::empty()
        } else {
            self.later_moves_text((n - 1) as nat) + "                   - "@ + self.moves[n
                - 1].text() + "\n"@
        }
    }

    /// The board as text: a heading, the five rows of the two layers side by
    /// side with the first five moves beside them, and the later moves below.
    pub open spec fn text(self) -> Seq<char> {
        "board state:    moves:\n"@ + self.rows_text(5) + self.later_moves_text(self.moves.len())
    }
}

/// Appends the characters of `text`.
fn write_str(out: &mut Vec<char>, text: &str)
    ensures
        final(out)@ == old(out)@ + text@,
{
    let len = text.unicode_len();
    let mut i: usize = 0;
    while i < len
        invariant
            0 <= i <= len,
            len == text@.len(),
            out@ == old(out)@ + text@.take(i as int),
        decreases len - i,
    {
        out.push(text.get_char(i));
        i += 1;
        assert(out@ =~= old(out)@ + text@.take(i as int));
    }
    assert(text@.take(len as int) =~= text@);
}

/// Appends the number `n` in decimal digits.
fn write_decimal(out: &mut Vec<char>, n: usize)
    ensures
        final(out)@ == old(out)@ + decimal(n as nat),
    decreases n,
{
    if n >= 10 {
        write_decimal(out, n / 10);
    }
    let d = n % 10;
    let c = if d == 0 {
        '0'
    } else if d == 1 {
        '1'
    } else if d == 2 {
        '2'
    } else if d == 3 {
        '3'
    } else if d == 4 {
        '4'
    } else if d == 5 {
        '5'
    } else if d == 6 {
        '6'
    } else if d == 7 {
        '7'
    } else if d == 8 {
        '8'
    } else {
        '9'
    };
    out.push(c);
    assert(out@ =~= old(out)@ + decimal(n as nat));
}

/// Appends a place as its three coordinates in brackets.
fn write_location(out: &mut Vec<char>, location: Location)
    ensures
        final(out)@ == old(out)@ + location_text(location),
{
    write_str(out, "(");
    write_decimal(out, location.0);
    write_str(out, ", ");
    write_decimal(out, location.1);
    write_str(out, ", ");
    write_decimal(out, location.2);
    write_str(out, ")");
    assert(out@ =~= old(out)@ + location_text(location));
}

/// Appends a colour.
fn write_color(out: &mut Vec<char>, color: Color)
    ensures
        final(out)@ == old(out)@ + color.text(),
{
    match color {
        Color::Black => write_str(out, "B"),
        Color::White => write_str(out, "W"),
    }
}

/// Appends a grain axis.
fn write_axis(out: &mut Vec<char>, axis: Axis)
    ensures
        final(out)@ == old(out)@ + axis.text(),
{
    match axis {
        Axis::Long => write_str(out, "long"),
        Axis::Short => write_str(out, "short"),
    }
}

/// Appends a turn about the long axis.
fn write_full_rotation(out: &mut Vec<char>, rotation: FullRotation)
    ensures
        final(out)@ == old(out)@ + rotation.text(),
{
    match rotation {
        FullRotation::Zero => write_str(out, "0°"),
        FullRotation::Ninety => write_str(out, "90°"),
        FullRotation::OneEighty => write_str(out, "180°"),
        FullRotation::TwoSeventy => write_str(out, "270°"),
    }
}

/// Appends a turn end over end.
fn write_half_rotation(out: &mut Vec<char>, rotation: HalfRotation)
    ensures
        final(out)@ == old(out)@ + rotation.text(),
{
    match rotation {
        HalfRotation::Zero => write_str(out, "0°"),
        HalfRotation::OneEighty => write_str(out, "180°"),
    }
}

/// Appends an orientation.
fn write_orientation(out: &mut Vec<char>, orientation: Orientation)
    ensures
        final(out)@ == old(out)@ + orientation.text(),
{
    match orientation {
        Orientation { short: FullRotation::Zero, long: HalfRotation::Zero } => {
            write_str(out, "not rotated");
        },
        Orientation { short: FullRotation::Zero, long } => {
            write_str(out, "rotated ");
            write_half_rotation(out, long);
            write_str(out, " about short axis");
        },
        Orientation { long: HalfRotation::Zero, short } => {
            write_str(out, "rotated ");
            write_full_rotation(out, short);
            write_str(out, " about long axis");
        },
        Orientation { long, short } => {
            write_str(out, "rotated ");
            write_full_rotation(out, short);
            write_str(out, " about long axis then ");
            write_half_rotation(out, long);
            write_str(out, " about short axis");
        },
    }
    assert(out@ =~= old(out)@ + orientation.text());
}

/// Appends a move.
fn write_move(out: &mut Vec<char>, m: &Move)
    ensures
        final(out)@ == old(out)@ + m.text(),
{
    write_str(out, "polymino ");
    proof {
        m.polymino.lemma_index_fits();
    }
    write_decimal(out, usize::from(m.polymino));
    write_str(out, " at ");
    write_location(out, m.location);
    write_str(out, " ");
    write_orientation(out, m.orientation);
    assert(out@ =~= old(out)@ + m.text());
}

/// Appends a piece.
fn write_polymino(out: &mut Vec<char>, piece: &Polymino)
    ensures
        final(out)@ == old(out)@ + piece.text(),
{
    write_str(out, "bottom:   top:   grain: ");
    write_axis(out, piece.grain);
    write_str(out, "\n");
    let ghost head = out@;
    assert(head =~= old(out)@ + ("bottom:   top:   grain: "@ + piece.grain.text() + "\n"@));
    let mut y: usize = 0;
    while y < 2
        invariant
            0 <= y <= 2,
            out@ == head + piece.rows_text(y),
        decreases 2 - y,
    {
        let ghost rows = out@;
        let mut z: usize = 0;
        while z < 2
            invariant
                0 <= y < 2,
                0 <= z <= 2,
                out@ == rows + piece.layers_text(y, z),
            decreases 2 - z,
        {
            let ghost layers = out@;
            let mut x: usize = 0;
            while x < 3
                invariant
                    0 <= x <= 3,
                    out@ == layers + piece.cells_text(y, z, x),
                decreases 3 - x,
            {
                match piece.color_at((x, y, z)) {
                    Some(color) => write_color(out, color),
                    None => write_str(out, "_"),
                }
                x += 1;
                assert(out@ =~= layers + piece.cells_text(y, z, x));
            }
            write_str(out, "       ");
            z += 1;
            assert(out@ =~= rows + piece.layers_text(y, z));
        }
        write_str(out, "\n");
        y += 1;
        assert(out@ =~= head + piece.rows_text(y));
    }
    assert(out@ =~= old(out)@ + piece.text());
}

/// Appends a board.
fn write_board(out: &mut Vec<char>, board: &Board)
    ensures
        final(out)@ == old(out)@ + board@.text(),
{
    write_str(out, "board state:    moves:\n");
    let ghost head = out@;
    let mut y: usize = 0;
    while y < 5
        invariant
            0 <= y <= 5,
            out@ == head + board@.rows_text(y as nat),
        decreases 5 - y,
    {
        let ghost rows = out@;
        let mut z: usize = 0;
        while z < 2
            invariant
                0 <= y < 5,
                0 <= z <= 2,
                out@ == rows + board@.layers_text(y as int, z as nat),
            decreases 2 - z,
        {
            let ghost layers = out@;
            let mut x: usize = 0;
            while x < 5
                invariant
                    0 <= y < 5,
                    0 <= z < 2,
                    0 <= x <= 5,
                    out@ == layers + board@.cells_text(y as int, z as int, x as nat),
                decreases 5 - x,
            {
                match board.state[x][y][z] {
                    Some(color) => write_color(out, color),
                    None => write_str(out, "_"),
                }
                assert(board@.cells[(x as int, y as int, z as int)]
                    == board.state[x as int][y as int][z as int]);
                x += 1;
                assert(out@ =~= layers + board@.cells_text(y as int, z as int, x as nat));
            }
            write_str(out, "   ");
            z += 1;
            assert(out@ =~= rows + board@.layers_text(y as int, z as nat));
        }
        if y < board.moves.len() {
            write_str(out, "   - ");
            write_move(out, &board.moves[y]);
            write_str(out, "\n");
        } else {
            write_str(out, "\n");
        }
        y += 1;
        assert(out@ =~= head + board@.rows_text(y as nat));
    }
    let ghost rows = out@;
    if board.moves.len() > 5 {
        let mut n: usize = 5;
        while n < board.moves.len()
            invariant
                5 <= n <= board.moves.len(),
                out@ == rows + board@.later_moves_text(n as nat),
            decreases board.moves.len() - n,
        {
            write_str(out, "                   - ");
            write_move(out, &board.moves[n]);
            write_str(out, "\n");
            n += 1;
            assert(out@ =~= rows + board@.later_moves_text(n as nat));
        }
    }
    assert(out@ =~= old(out)@ + board@.text());
}

impl Color {
    /// The colour as one letter: `B` or `W`.
    pub fn to_text(&self) -> (s: Vec<char>)
        ensures
            s@ == self.text(),
    {
        let mut s: Vec<char> = Vec::new();
        write_color(&mut s, *self);
        assert(s@ =~= self.text());
        s
    }
}

impl Axis {
    /// The axis as a word: `long` or `short`.
    pub fn to_text(&self) -> (s: Vec<char>)
        ensures
            s@ == self.text(),
    {
        let mut s: Vec<char> = Vec::new();
        write_axis(&mut s, *self);
        assert(s@ =~= self.text());
        s
    }
}

impl FullRotation {
    /// The turn in degrees.
    pub fn to_text(&self) -> (s: Vec<char>)
        ensures
            s@ == self.text(),
    {
        let mut s: Vec<char> = Vec::new();
        write_full_rotation(&mut s, *self);
        assert(s@ =~= self.text());
        s
    }
}

impl HalfRotation {
    /// The turn in degrees.
    pub fn to_text(&self) -> (s: Vec<char>)
        ensures
            s@ == self.text(),
    {
        let mut s: Vec<char> = Vec::new();
        write_half_rotation(&mut s, *self);
        assert(s@ =~= self.text());
        s
    }
}

impl Orientation {
    /// The orientation in words.
    pub fn to_text(&self) -> (s: Vec<char>)
        ensures
            s@ == self.text(),
    {
        let mut s: Vec<char> = Vec::new();
        write_orientation(&mut s, *self);
        assert(s@ =~= self.text());
        s
    }
}

impl Move {
    /// The move in words.
    pub fn to_text(&self) -> (s: Vec<char>)
        ensures
            s@ == self.text(),
    {
        let mut s: Vec<char> = Vec::new();
        write_move(&mut s, self);
        assert(s@ =~= self.text());
        s
    }
}

impl Polymino {
    /// The piece as text: a heading with its grain, then its two layers side
    /// by side.
    pub fn to_text(&self) -> (s: Vec<char>)
        ensures
            s@ == self.text(),
    {
        let mut s: Vec<char> = Vec::new();
        write_polymino(&mut s, self);
        assert(s@ =~= self.text());
        s
    }
}

impl Board {
    /// The board as text: the two layers side by side, and the moves made
    /// so far.
    pub fn to_text(&self) -> (s: Vec<char>)
        ensures
            s@ == self@.text(),
    {
        let mut s: Vec<char> = Vec::new();
        write_board(&mut s, self);
        assert(s@ =~= self@.text());
        s
    }
}

} // verus!
