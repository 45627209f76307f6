//! Pieces and the ways to turn them.
//!
//! A piece is five coloured cubes in a box three cells long (x) and two
//! cells wide and deep (y and z). It can be turned about its long axis by
//! quarter turns and flipped end over end by a half turn. A piece whose grain
//! runs along the short axis is laid on its side before it is placed, which
//! swaps its x and y extents.

use vstd::prelude::*;

verus! {

/// A place in three-dimensional space: x first, then y, then z.
pub type Location = (usize, usize, usize);

/// The colour of a cube.
#[derive(Copy, Clone, Debug, PartialEq, Eq, PartialOrd, Ord, Structural)]
pub enum Color {
    Black,
    White,
}

/// The axis along which the grain of a piece runs.
#[derive(Copy, Clone, Debug, PartialEq, Eq, PartialOrd, Ord, Structural)]
pub enum Axis {
    Long,
    Short,
}

/// A turn about the long axis, in quarter turns.
#[derive(Copy, Clone, Debug, PartialEq, Eq, PartialOrd, Ord, Structural)]
pub enum FullRotation {
    Zero,
    Ninety,
    OneEighty,
    TwoSeventy,
}

/// A turn end over end, in half turns.
#[derive(Copy, Clone, Debug, PartialEq, Eq, PartialOrd, Ord, Structural)]
pub enum HalfRotation {
    Zero,
    OneEighty,
}

/// A specific rotation of a piece: the turn about the long axis is applied
/// first, the half turn end over end second.
///
/// Not every orientation suits every piece, see [`Orientation::suits`].
#[derive(Copy, Clone, Debug, PartialEq, Eq, PartialOrd, Ord, Structural)]
pub struct Orientation {
    pub short: FullRotation,
    pub long: HalfRotation,
}

/// One puzzle piece made up of five cubes.
#[derive(Debug, PartialEq, Eq, PartialOrd, Ord)]
pub struct Polymino {
    pub cubes: [(Location, Color); 5],
    pub grain: Axis,
}

impl Clone for Polymino {
    fn clone(&self) -> (p: Self)
        ensures
            p == *self,
    {
        Polymino { cubes: self.cubes, grain: self.grain }
    }
}

/// What `orient` answers when the piece cannot take the orientation.
pub const IMPOSSIBLE_ORIENTATION: &'static str = "impossible orientation for this piece";

/// One quarter turn about the long axis: x stays, and (y, z) steps along the
/// cycle (0,0) -> (1,0) -> (1,1) -> (0,1) -> (0,0).
pub open spec fn quarter_turn(loc: Location) -> Location {
    if loc.1 == 0 && loc.2 == 0 {
        (loc.0, 1, 0)
    } else if loc.1 == 1 && loc.2 == 0 {
        (loc.0, 1, 1)
    } else if loc.1 == 1 && loc.2 == 1 {
        (loc.0, 0, 1)
    } else {
        (loc.0, 0, 0)
    }
}

/// The half turn end over end: (x, y, z) goes to (2 - x, 1 - y, z).
pub open spec fn half_turn(loc: Location) -> Location {
    ((2 - loc.0) as usize, (1 - loc.1) as usize, loc.2)
}

/// Laying a piece on its side: (x, y, z) goes to (1 - y, x, z).
pub open spec fn lay_down(loc: Location) -> Location {
    ((1 - loc.1) as usize, loc.0, loc.2)
}

/// Standing a piece up again: (x, y, z) goes to (y, 1 - x, z).
pub open spec fn stand_up(loc: Location) -> Location {
    (loc.1, (1 - loc.0) as usize, loc.2)
}

impl FullRotation {
    /// The number of quarter turns.
    pub open spec fn quarters(self) -> int {
        match self {
            FullRotation::Zero => 0,
            FullRotation::Ninety => 1,
            FullRotation::OneEighty => 2,
            FullRotation::TwoSeventy => 3,
        }
    }

    /// Where a cube at `loc` goes under this turn.
    pub open spec fn turn(self, loc: Location) -> Location {
        match self {
            FullRotation::Zero => loc,
            FullRotation::Ninety => quarter_turn(loc),
            FullRotation::OneEighty => quarter_turn(quarter_turn(loc)),
            FullRotation::TwoSeventy => quarter_turn(quarter_turn(quarter_turn(loc))),
        }
    }
}

impl HalfRotation {
    /// The number of half turns.
    pub open spec fn halves(self) -> int {
        match self {
            HalfRotation::Zero => 0,
            HalfRotation::OneEighty => 1,
        }
    }

    /// Where a cube at `loc` goes under this turn.
    pub open spec fn turn(self, loc: Location) -> Location {
        match self {
            HalfRotation::Zero => loc,
            HalfRotation::OneEighty => half_turn(loc),
        }
    }
}

impl Orientation {
    /// The orientation that leaves a piece as it is.
    pub open spec fn identity() -> Orientation {
        Orientation { short: FullRotation::Zero, long: HalfRotation::Zero }
    }

    /// The place of this orientation in the enumeration, from 0 to 7: the
    /// half turn counts first, the turn about the long axis second.
    pub open spec fn ordinal(self) -> int {
        2 * self.short.quarters() + self.long.halves()
    }

    /// The orientation that follows this one in the enumeration, if any.
    pub open spec fn successor(self) -> Option<Orientation> {
        match (self.short, self.long) {
            (short, HalfRotation::Zero) => Some(
                Orientation { short, long: HalfRotation::OneEighty },
            ),
            (FullRotation::Zero, HalfRotation::OneEighty) => Some(
                Orientation { short: FullRotation::Ninety, long: HalfRotation::Zero },
            ),
            (FullRotation::Ninety, HalfRotation::OneEighty) => Some(
                Orientation { short: FullRotation::OneEighty, long: HalfRotation::Zero },
            ),
            (FullRotation::OneEighty, HalfRotation::OneEighty) => Some(
                Orientation { short: FullRotation::TwoSeventy, long: HalfRotation::Zero },
            ),
            (FullRotation::TwoSeventy, HalfRotation::OneEighty) => None,
        }
    }

    /// Whether a piece of the given grain can take this orientation: a piece
    /// with a short grain cannot make an odd number of quarter turns.
    pub open spec fn suits(self, grain: Axis) -> bool {
        !(grain == Axis::Short && (self.short == FullRotation::Ninety || self.short
            == FullRotation::TwoSeventy))
    }

    /// Where a cube at `loc` goes under this orientation.
    pub open spec fn turn(self, loc: Location) -> Location {
        self.long.turn(self.short.turn(loc))
    }

    /// The identity orientation.
    pub fn new() -> (o: Self)
        ensures
            o == Orientation::identity(),
    {
        Orientation { short: FullRotation::Zero, long: HalfRotation::Zero }
    }

    /// The next orientation of the enumeration; `Err` after the last one.
    pub fn next(&self) -> (r: Result<Self, ()>)
        ensures
            r == match self.successor() {
                Some(o) => Ok::<Orientation, ()>(o),
                None => Err::<Orientation, ()>(()),
            },
            r is Ok ==> r->Ok_0.ordinal() == self.ordinal() + 1,
            r is Err <==> self.ordinal() == 7,
    {
        let (short, long) = match (self.short, self.long) {
            (short, HalfRotation::Zero) => (short, HalfRotation::OneEighty),
            (FullRotation::Zero, HalfRotation::OneEighty) => {
                (FullRotation::Ninety, HalfRotation::Zero)
            },
            (FullRotation::Ninety, HalfRotation::OneEighty) => {
                (FullRotation::OneEighty, HalfRotation::Zero)
            },
            (FullRotation::OneEighty, HalfRotation::OneEighty) => {
                (FullRotation::TwoSeventy, HalfRotation::Zero)
            },
            (FullRotation::TwoSeventy, HalfRotation::OneEighty) => return Err(()),
        };

        Ok(Orientation { short, long })
    }
}

/// Turns every cube of `cubes` by one quarter turn about the long axis.
fn rotate_grain_90(cubes: &mut [(Location, Color); 5])
    ensures
        forall|i: int|
            0 <= i < 5 ==> #[trigger] final(cubes)[i] == (
                quarter_turn(old(cubes)[i].0),
                old(cubes)[i].1,
            ),
{
    let mut i: usize = 0;
    while i < 5
        invariant
            0 <= i <= 5,
            forall|j: int|
                0 <= j < i ==> #[trigger] cubes[j] == (
                    quarter_turn(old(cubes)[j].0),
                    old(cubes)[j].1,
                ),
            forall|j: int| i <= j < 5 ==> #[trigger] cubes[j] == old(cubes)[j],
        decreases 5 - i,
    {
        let loc = cubes[i].0;
        let new_loc;
        if loc.1 == 0 && loc.2 == 0 {
            new_loc = (loc.0, 1, 0);
        } else if loc.1 == 1 && loc.2 == 0 {
            new_loc = (loc.0, 1, 1);
        } else if loc.1 == 1 && loc.2 == 1 {
            new_loc = (loc.0, 0, 1);
        } else {
            new_loc = (loc.0, 0, 0);
        }
        cubes[i].0 = new_loc;
        i += 1;
    }
}

impl Polymino {
    /// The piece with every cube moved by `f`, colours and grain kept.
    pub open spec fn map_cubes(self, f: spec_fn(Location) -> Location) -> Polymino {
        Polymino {
            cubes: [
                (f(self.cubes[0].0), self.cubes[0].1),
                (f(self.cubes[1].0), self.cubes[1].1),
                (f(self.cubes[2].0), self.cubes[2].1),
                (f(self.cubes[3].0), self.cubes[3].1),
                (f(self.cubes[4].0), self.cubes[4].1),
            ],
            grain: self.grain,
        }
    }

    /// Every cube lies in the box of the upright piece: three long, two wide,
    /// two deep.
    pub open spec fn in_box(self) -> bool {
        forall|i: int|
            0 <= i < 5 ==> {
                let loc = #[trigger] self.cubes[i].0;
                loc.0 < 3 && loc.1 < 2 && loc.2 < 2
            }
    }

    /// Every cube lies in the box of a piece laid on its side: two long,
    /// three wide, two deep.
    pub open spec fn in_side_box(self) -> bool {
        forall|i: int|
            0 <= i < 5 ==> {
                let loc = #[trigger] self.cubes[i].0;
                loc.0 < 2 && loc.1 < 3 && loc.2 < 2
            }
    }

    /// Some cube lies in the third row, where only a piece on its side
    /// reaches.
    pub open spec fn sideways(self) -> bool {
        exists|i: int| 0 <= i < 5 && (#[trigger] self.cubes[i].0).1 > 1
    }

    /// The piece turned into the orientation `o`.
    pub open spec fn oriented(self, o: Orientation) -> Polymino {
        self.map_cubes(|loc: Location| o.turn(loc))
    }

    /// The piece as it is placed: one with a short grain that is not on its
    /// side yet is laid down, any other piece is left alone.
    pub open spec fn normalized(self) -> Polymino {
        if self.grain == Axis::Short && !self.sideways() {
            self.map_cubes(|loc: Location| lay_down(loc))
        } else {
            self
        }
    }

    /// The piece stood up again: one with a short grain that lies on its
    /// side is stood up, any other piece is left alone.
    pub open spec fn upright(self) -> Polymino {
        if self.grain == Axis::Short && self.sideways() {
            self.map_cubes(|loc: Location| stand_up(loc))
        } else {
            self
        }
    }

    /// Turning a piece keeps it in its box.
    pub proof fn lemma_oriented_in_box(self, o: Orientation)
        requires
            self.in_box(),
        ensures
            self.oriented(o).in_box(),
            self.oriented(o).grain == self.grain,
    {
        let turned = self.oriented(o);
        assert forall|i: int| 0 <= i < 5 implies {
            let loc = #[trigger] turned.cubes[i].0;
            loc.0 < 3 && loc.1 < 2 && loc.2 < 2
        } by {
            lemma_turn_in_box(o, self.cubes[i].0);
        }
    }

    /// A piece in its box comes to lie, as it is placed, in its box where its
    /// grain is long and in the box on its side where its grain is short.
    pub proof fn lemma_normalized_box(self)
        requires
            self.in_box(),
        ensures
            self.normalized().grain == self.grain,
            self.grain == Axis::Long ==> self.normalized().in_box(),
            self.grain == Axis::Short ==> self.normalized().in_side_box(),
    {
    }

    /// Turns a copy of the piece into the orientation `o`. A piece with a
    /// short grain refuses the orientations with an odd number of quarter
    /// turns.
    pub fn orient(&self, orientation: Orientation) -> (r: Result<Polymino, &'static str>)
        requires
            self.in_box(),
        ensures
            orientation.suits(self.grain) ==> r == Ok::<Polymino, &'static str>(
                self.oriented(orientation),
            ),
            !orientation.suits(self.grain) ==> r == Err::<Polymino, &'static str>(
                IMPOSSIBLE_ORIENTATION,
            ),
            r is Ok ==> r->Ok_0.in_box(),
    {
        proof {
            self.lemma_oriented_in_box(orientation);
        }
        if self.grain == Axis::Short && (orientation.short == FullRotation::Ninety
            || orientation.short == FullRotation::TwoSeventy) {
            return Err(IMPOSSIBLE_ORIENTATION);
        }
        let mut new_poly = Polymino { cubes: self.cubes, grain: self.grain };

        match orientation.short {
            FullRotation::Zero => {},
            FullRotation::Ninety => rotate_grain_90(&mut new_poly.cubes),
            FullRotation::OneEighty => {
                rotate_grain_90(&mut new_poly.cubes);
                rotate_grain_90(&mut new_poly.cubes);
            },
            FullRotation::TwoSeventy => {
                rotate_grain_90(&mut new_poly.cubes);
                rotate_grain_90(&mut new_poly.cubes);
                rotate_grain_90(&mut new_poly.cubes);
            },
        }
        assert(forall|j: int|
            0 <= j < 5 ==> #[trigger] new_poly.cubes[j] == (
                orientation.short.turn(self.cubes[j].0),
                self.cubes[j].1,
            ));

        if orientation.long == HalfRotation::OneEighty {
            let ghost turned = new_poly.cubes;
            let mut i: usize = 0;
            while i < 5
                invariant
                    0 <= i <= 5,
                    forall|j: int|
                        0 <= j < 5 ==> (#[trigger] turned[j]).0.0 < 3 && turned[j].0.1 < 2,
                    forall|j: int|
                        0 <= j < i ==> #[trigger] new_poly.cubes[j] == (
                            half_turn(turned[j].0),
                            turned[j].1,
                        ),
                    forall|j: int| i <= j < 5 ==> #[trigger] new_poly.cubes[j] == turned[j],
                    new_poly.grain == self.grain,
                decreases 5 - i,
            {
                let loc = new_poly.cubes[i].0;
                new_poly.cubes[i].0 = (2 - loc.0, 1 - loc.1, loc.2);
                i += 1;
            }
        }
        assert(new_poly.cubes =~= self.oriented(orientation).cubes);
        Ok(new_poly)
    }

    /// Lays a piece with a short grain on its side, unless it lies there
    /// already.
    pub fn normalize_grain(&mut self)
        ensures
            *final(self) == old(self).normalized(),
            old(self).in_box() && old(self).grain == Axis::Short ==> final(self).in_side_box(),
    {
        proof {
            if self.in_box() {
                self.lemma_normalized_box();
            }
        }
        if self.grain == Axis::Short && !self.is_normalized() {
            let mut i: usize = 0;
            while i < 5
                invariant
                    0 <= i <= 5,
                    !old(self).sideways(),
                    forall|j: int|
                        0 <= j < i ==> #[trigger] self.cubes[j] == (
                            lay_down(old(self).cubes[j].0),
                            old(self).cubes[j].1,
                        ),
                    forall|j: int| i <= j < 5 ==> #[trigger] self.cubes[j] == old(self).cubes[j],
                    self.grain == old(self).grain,
                decreases 5 - i,
            {
                let loc = self.cubes[i].0;
                self.cubes[i].0 = (1 - loc.1, loc.0, loc.2);
                i += 1;
            }
            assert(self.cubes =~= old(self).normalized().cubes);
        }
    }

    /// Stands a piece with a short grain up again, if it lies on its side.
    pub fn undo_normalize(&mut self)
        requires
            old(self).grain == Axis::Short && old(self).sideways() ==> old(self).in_side_box(),
        ensures
            *final(self) == old(self).upright(),
    {
        if self.grain == Axis::Short && self.is_normalized() {
            let mut i: usize = 0;
            while i < 5
                invariant
                    0 <= i <= 5,
                    old(self).in_side_box(),
                    forall|j: int|
                        0 <= j < i ==> #[trigger] self.cubes[j] == (
                            stand_up(old(self).cubes[j].0),
                            old(self).cubes[j].1,
                        ),
                    forall|j: int| i <= j < 5 ==> #[trigger] self.cubes[j] == old(self).cubes[j],
                    self.grain == old(self).grain,
                decreases 5 - i,
            {
                let loc = self.cubes[i].0;
                self.cubes[i].0 = (loc.1, 1 - loc.0, loc.2);
                i += 1;
            }
            assert(self.cubes =~= old(self).upright().cubes);
        }
    }

    /// The colour of the first of the cubes from `i` on that lies at
    /// `location`, if one does.
    pub open spec fn cube_from(self, i: int, location: Location) -> Option<Color>
        decreases 5 - i,
    {
        if i < 0 || i >= 5 {
            None
        } else if self.cubes[i].0 == location {
            Some(self.cubes[i].1)
        } else {
            self.cube_from(i + 1, location)
        }
    }

    /// The colour of the first cube that lies at `location`, if one does.
    pub open spec fn cube_at(self, location: Location) -> Option<Color> {
        self.cube_from(0, location)
    }

    /// The colour of the first cube that lies at `location`, if one does.
    pub fn color_at(&self, location: Location) -> (r: Option<Color>)
        ensures
            r == self.cube_at(location),
    {
        let mut i: usize = 0;
        while i < 5
            invariant
                0 <= i <= 5,
                self.cube_at(location) == self.cube_from(i as int, location),
            decreases 5 - i,
        {
            let (at, color) = self.cubes[i];
            if at.0 == location.0 && at.1 == location.1 && at.2 == location.2 {
                return Some(color);
            }
            i += 1;
        }
        None
    }

    /// Whether the piece lies on its side.
    pub fn is_normalized(&self) -> (r: bool)
        ensures
            r == self.sideways(),
    {
        let mut i: usize = 0;
        while i < 5
            invariant
                0 <= i <= 5,
                forall|j: int| 0 <= j < i ==> (#[trigger] self.cubes[j].0).1 <= 1,
            decreases 5 - i,
        {
            if self.cubes[i].0.1 > 1 {
                return true;
            }
            i += 1;
        }
        false
    }
}

/// The cubes of the ten pieces.
pub const CUBES: [[(Location, Color); 5]; 10] = [
    [
        ((0, 0, 0), Color::Black),
        ((1, 0, 0), Color::White),
        ((1, 1, 0), Color::Black),
        ((2, 1, 0), Color::White),
        ((1, 0, 1), Color::Black),
    ],
    [
        ((0, 1, 0), Color::White),
        ((1, 1, 0), Color::Black),
        ((2, 1, 0), Color::White),
        ((2, 0, 1), Color::White),
        ((2, 1, 1), Color::Black),
    ],
    [
        ((0, 0, 0), Color::White),
        ((0, 1, 0), Color::Black),
        ((1, 1, 0), Color::White),
        ((1, 1, 1), Color::Black),
        ((2, 1, 1), Color::White),
    ],
    [
        ((0, 0, 0), Color::Black),
        ((1, 0, 0), Color::White),
        ((2, 0, 0), Color::Black),
        ((0, 1, 0), Color::White),
        ((1, 0, 1), Color::Black),
    ],
    [
        ((0, 0, 0), Color::Black),
        ((1, 0, 0), Color::White),
        ((1, 1, 0), Color::Black),
        ((1, 0, 1), Color::Black),
        ((2, 0, 1), Color::White),
    ],
    [
        ((0, 0, 0), Color::White),
        ((1, 0, 0), Color::Black),
        ((2, 0, 0), Color::White),
        ((0, 1, 0), Color::Black),
        ((0, 0, 1), Color::Black),
    ],
    [
        ((0, 0, 0), Color::Black),
        ((0, 1, 0), Color::White),
        ((1, 1, 0), Color::Black),
        ((2, 1, 0), Color::White),
        ((1, 1, 1), Color::White),
    ],
    [
        ((0, 1, 0), Color::White),
        ((1, 1, 0), Color::Black),
        ((2, 1, 0), Color::White),
        ((0, 0, 1), Color::White),
        ((0, 1, 1), Color::Black),
    ],
    [
        ((1, 0, 0), Color::Black),
        ((2, 0, 0), Color::White),
        ((0, 1, 0), Color::Black),
        ((1, 1, 0), Color::White),
        ((2, 0, 1), Color::Black),
    ],
    [
        ((0, 0, 0), Color::White),
        ((1, 0, 0), Color::Black),
        ((2, 0, 0), Color::White),
        ((1, 1, 0), Color::White),
        ((1, 1, 1), Color::Black),
    ],
];

/// The grains of the ten pieces.
pub const GRAINS: [Axis; 10] = [
    Axis::Long,
    Axis::Short,
    Axis::Short,
    Axis::Long,
    Axis::Long,
    Axis::Short,
    Axis::Long,
    Axis::Short,
    Axis::Short,
    Axis::Long,
];

/// The piece with the number `i`, from 0 to 9.
pub open spec fn catalogue(i: int) -> Polymino
    recommends
        0 <= i < 10,
{
    Polymino { cubes: CUBES[i], grain: GRAINS[i] }
}

/// Every piece of the catalogue lies in the box of the upright piece.
pub proof fn lemma_catalogue_in_box(i: int)
    requires
        0 <= i < 10,
    ensures
        catalogue(i).in_box(),
{
}

/// The ten pieces, in the order of their numbers.
pub fn polyminos() -> (all: [Polymino; 10])
    ensures
        forall|i: int| 0 <= i < 10 ==> #[trigger] all[i] == catalogue(i) && all[i].in_box(),
{
    proof {
        assert forall|i: int| 0 <= i < 10 implies (#[trigger] catalogue(i)).in_box() by {
            lemma_catalogue_in_box(i);
        }
    }
    [
        Polymino { cubes: CUBES[0], grain: GRAINS[0] },
        Polymino { cubes: CUBES[1], grain: GRAINS[1] },
        Polymino { cubes: CUBES[2], grain: GRAINS[2] },
        Polymino { cubes: CUBES[3], grain: GRAINS[3] },
        Polymino { cubes: CUBES[4], grain: GRAINS[4] },
        Polymino { cubes: CUBES[5], grain: GRAINS[5] },
        Polymino { cubes: CUBES[6], grain: GRAINS[6] },
        Polymino { cubes: CUBES[7], grain: GRAINS[7] },
        Polymino { cubes: CUBES[8], grain: GRAINS[8] },
        Polymino { cubes: CUBES[9], grain: GRAINS[9] },
    ]
}

/// The number of a piece of the catalogue: always below ten.
#[derive(Copy, Clone, Debug, PartialEq, Eq, PartialOrd, Ord)]
pub struct PolyIndex(usize);

/// What `PolyIndex::new` answers to a number that names no piece.
pub const INVALID_INDEX: &'static str = "invalid index";

impl PolyIndex {
    #[verifier::type_invariant]
    spec fn below_ten(self) -> bool {
        self.0 < 10
    }

    /// The number of the piece.
    pub closed spec fn index(self) -> int {
        self.0 as int
    }

    /// The number `i` as the number of a piece, or the refusal of a number
    /// that names no piece.
    pub closed spec fn checked(i: usize) -> Result<PolyIndex, &'static str> {
        if i < 10 {
            Ok(PolyIndex(i))
        } else {
            Err(INVALID_INDEX)
        }
    }

    /// What the check of a number answers: the number of the piece for a
    /// number below ten, a refusal for any other.
    pub proof fn lemma_checked(i: usize)
        ensures
            i < 10 ==> PolyIndex::checked(i) is Ok && PolyIndex::checked(i)->Ok_0.index() == i,
            i >= 10 ==> PolyIndex::checked(i) == Err::<PolyIndex, &'static str>(INVALID_INDEX),
    {
    }

    /// The number `i` as the number of a piece, if it names one.
    pub fn new(i: usize) -> (r: Result<PolyIndex, &'static str>)
        ensures
            i < 10 ==> r is Ok && r->Ok_0.index() == i,
            i >= 10 ==> r == Err::<PolyIndex, &'static str>(INVALID_INDEX),
            r == PolyIndex::checked(i),
    {
        if i < 10 {
            Ok(PolyIndex(i))
        } else {
            Err(INVALID_INDEX)
        }
    }

    /// The piece that the number names.
    pub fn to_poly(&self) -> (p: Polymino)
        ensures
            0 <= self.index() < 10,
            p == catalogue(self.index()),
            p.in_box(),
    {
        proof {
            use_type_invariant(self);
            lemma_catalogue_in_box(self.index());
        }
        Polymino { cubes: CUBES[self.0], grain: GRAINS[self.0] }
    }

    /// The number of the piece `i` of the catalogue.
    pub closed spec fn of(i: int) -> PolyIndex
        recommends
            0 <= i < 10,
    {
        PolyIndex(i as usize)
    }

    /// The number of the piece `i` has the value `i`.
    pub proof fn lemma_of_index(i: int)
        requires
            0 <= i < 10,
        ensures
            PolyIndex::of(i).index() == i,
    {
    }

    /// The value of a number is a machine number.
    pub proof fn lemma_index_fits(self)
        ensures
            0 <= self.index() <= usize::MAX,
    {
    }

    /// Two numbers of the same value are the same.
    pub proof fn lemma_index_decides(self, other: PolyIndex)
        requires
            self.index() == other.index(),
        ensures
            self == other,
    {
    }
}

impl TryFrom<usize> for PolyIndex {
    type Error = &'static str;

    /// The number `value` as the number of a piece, if it names one.
    fn try_from(value: usize) -> (r: Result<Self, Self::Error>) {
        PolyIndex::new(value)
    }
}

impl vstd::std_specs::convert::TryFromSpecImpl<usize> for PolyIndex {
    open spec fn obeys_try_from_spec() -> bool {
        true
    }

    open spec fn try_from_spec(value: usize) -> Result<Self, Self::Error> {
        PolyIndex::checked(value)
    }
}

impl From<PolyIndex> for usize {
    /// The value of the number of a piece.
    fn from(value: PolyIndex) -> (i: usize) {
        value.0
    }
}

impl vstd::std_specs::convert::FromSpecImpl<PolyIndex> for usize {
    open spec fn obeys_from_spec() -> bool {
        true
    }

    open spec fn from_spec(value: PolyIndex) -> usize {
        value.index() as usize
    }
}

impl Orientation {
    /// The orientation at the place `n` of the enumeration, counted from the
    /// identity, if the enumeration reaches that far.
    pub open spec fn nth(n: nat) -> Option<Orientation>
        decreases n,
    {
        if n == 0 {
            Some(Orientation::identity())
        } else {
            match Orientation::nth((n - 1) as nat) {
                Some(o) => o.successor(),
                None => None,
            }
        }
    }

    /// Each step of the enumeration moves one place on, and only the last
    /// place has no successor.
    pub proof fn lemma_successor_ordinal(self)
        ensures
            0 <= self.ordinal() <= 7,
            Orientation::identity().ordinal() == 0,
            match self.successor() {
                Some(o) => o.ordinal() == self.ordinal() + 1,
                None => self.ordinal() == 7,
            },
    {
    }

    /// Two orientations at the same place of the enumeration are the same.
    pub proof fn lemma_ordinal_decides(self, other: Orientation)
        requires
            self.ordinal() == other.ordinal(),
        ensures
            self == other,
    {
    }

    /// Taking the successor again and again from the identity gives exactly
    /// eight orientations, all different, before the enumeration ends.
    pub proof fn lemma_enumeration_has_eight()
        ensures
            forall|n: nat|
                n < 8 ==> (#[trigger] Orientation::nth(n)) is Some && Orientation::nth(
                    n,
                )->Some_0.ordinal() == n,
            Orientation::nth(8) is None,
            forall|n: nat, m: nat|
                n < 8 && m < 8 && n != m ==> #[trigger] Orientation::nth(n)
                    != #[trigger] Orientation::nth(m),
    {
        let o0 = Orientation { short: FullRotation::Zero, long: HalfRotation::Zero };
        let o1 = Orientation { short: FullRotation::Zero, long: HalfRotation::OneEighty };
        let o2 = Orientation { short: FullRotation::Ninety, long: HalfRotation::Zero };
        let o3 = Orientation { short: FullRotation::Ninety, long: HalfRotation::OneEighty };
        let o4 = Orientation { short: FullRotation::OneEighty, long: HalfRotation::Zero };
        let o5 = Orientation { short: FullRotation::OneEighty, long: HalfRotation::OneEighty };
        let o6 = Orientation { short: FullRotation::TwoSeventy, long: HalfRotation::Zero };
        let o7 = Orientation { short: FullRotation::TwoSeventy, long: HalfRotation::OneEighty };
        assert(Orientation::nth(0) == Some(o0));
        assert(Orientation::nth(1) == Some(o1)) by {
            assert(Orientation::nth(1) == o0.successor());
        }
        assert(Orientation::nth(2) == Some(o2)) by {
            assert(Orientation::nth(2) == o1.successor());
        }
        assert(Orientation::nth(3) == Some(o3)) by {
            assert(Orientation::nth(3) == o2.successor());
        }
        assert(Orientation::nth(4) == Some(o4)) by {
            assert(Orientation::nth(4) == o3.successor());
        }
        assert(Orientation::nth(5) == Some(o5)) by {
            assert(Orientation::nth(5) == o4.successor());
        }
        assert(Orientation::nth(6) == Some(o6)) by {
            assert(Orientation::nth(6) == o5.successor());
        }
        assert(Orientation::nth(7) == Some(o7)) by {
            assert(Orientation::nth(7) == o6.successor());
        }
        assert(Orientation::nth(8) is None) by {
            assert(Orientation::nth(8) == o7.successor());
        }
        assert forall|n: nat| n < 8 implies (#[trigger] Orientation::nth(n)) is Some
            && Orientation::nth(n)->Some_0.ordinal() == n by {
            if n == 0 {
            } else if n == 1 {
            } else if n == 2 {
            } else if n == 3 {
            } else if n == 4 {
            } else if n == 5 {
            } else if n == 6 {
            } else {
                assert(n == 7);
            }
        }
    }

    /// Of the eight orientations of the enumeration, a piece with a long
    /// grain can take all, and one with a short grain exactly four: those at
    /// the places 0, 1, 4 and 5.
    pub proof fn lemma_enumeration_by_grain()
        ensures
            forall|n: nat|
                n < 8 ==> (#[trigger] Orientation::nth(n))->Some_0.suits(Axis::Long),
            forall|n: nat|
                n < 8 ==> ((#[trigger] Orientation::nth(n))->Some_0.suits(Axis::Short) <==> (n == 0
                    || n == 1 || n == 4 || n == 5)),
    {
        Orientation::lemma_enumeration_has_eight();
        assert forall|n: nat| n < 8 implies ((#[trigger] Orientation::nth(n))->Some_0.suits(
            Axis::Short,
        ) <==> (n == 0 || n == 1 || n == 4 || n == 5)) by {
            let o = Orientation::nth(n)->Some_0;
            assert(o.ordinal() == n);
        }
    }
}

impl Polymino {
    /// The identity orientation leaves every piece as it is.
    pub proof fn lemma_orient_identity(self)
        ensures
            self.oriented(Orientation::identity()) == self,
    {
        assert(self.oriented(Orientation::identity()).cubes =~= self.cubes);
    }

    /// A half turn about either axis, made twice, brings a piece in its box
    /// back to where it was.
    pub proof fn lemma_turned_twice(self, o: Orientation)
        requires
            self.in_box(),
            o == (Orientation { short: FullRotation::OneEighty, long: HalfRotation::Zero }) || o
                == (Orientation { short: FullRotation::Zero, long: HalfRotation::OneEighty }),
        ensures
            self.oriented(o).oriented(o) == self,
    {
        let twice = self.oriented(o).oriented(o);
        lemma_turn_twice(o, self.cubes[0].0);
        lemma_turn_twice(o, self.cubes[1].0);
        lemma_turn_twice(o, self.cubes[2].0);
        lemma_turn_twice(o, self.cubes[3].0);
        lemma_turn_twice(o, self.cubes[4].0);
        assert(twice.cubes[0] == self.cubes[0]);
        assert(twice.cubes[1] == self.cubes[1]);
        assert(twice.cubes[2] == self.cubes[2]);
        assert(twice.cubes[3] == self.cubes[3]);
        assert(twice.cubes[4] == self.cubes[4]);
        assert(twice.cubes =~= self.cubes);
    }

    /// Two half turns about the long axis bring a piece in its box back to
    /// where it was, which is also where the identity orientation leaves it.
    pub proof fn lemma_short_axis_closure(self)
        requires
            self.in_box(),
        ensures
            ({
                let half = Orientation { short: FullRotation::OneEighty, long: HalfRotation::Zero };
                &&& half.suits(self.grain)
                &&& self.oriented(half).in_box()
                &&& self.oriented(half).oriented(half) == self
                &&& self.oriented(half).oriented(half) == self.oriented(Orientation::identity())
            }),
    {
        let half = Orientation { short: FullRotation::OneEighty, long: HalfRotation::Zero };
        self.lemma_oriented_in_box(half);
        self.lemma_turned_twice(half);
        self.lemma_orient_identity();
    }

    /// Two half turns end over end bring a piece in its box back to where it
    /// was.
    pub proof fn lemma_long_axis_closure(self)
        requires
            self.in_box(),
        ensures
            ({
                let flip = Orientation { short: FullRotation::Zero, long: HalfRotation::OneEighty };
                &&& flip.suits(self.grain)
                &&& self.oriented(flip).in_box()
                &&& self.oriented(flip).oriented(flip) == self
            }),
    {
        let flip = Orientation { short: FullRotation::Zero, long: HalfRotation::OneEighty };
        self.lemma_oriented_in_box(flip);
        self.lemma_turned_twice(flip);
    }

    /// Some cube lies in the third column of the box.
    pub open spec fn reaches_end(self) -> bool {
        exists|i: int| 0 <= i < 5 && (#[trigger] self.cubes[i].0).0 == 2
    }

    /// Laying down a piece that lies on its side already, and standing up
    /// one that stands already, leave the piece as it is.
    pub proof fn lemma_normalize_settles(self)
        requires
            self.in_box(),
            self.grain == Axis::Short ==> self.reaches_end(),
        ensures
            self.normalized().normalized() == self.normalized(),
            self.upright() == self,
    {
        assert(!self.sideways());
        if self.grain == Axis::Short {
            let i = choose|i: int| 0 <= i < 5 && (#[trigger] self.cubes[i].0).0 == 2;
            let laid = self.map_cubes(|loc: Location| lay_down(loc));
            assert(laid == self.normalized());
            assert(laid.cubes[i].0.1 > 1);
            assert(laid.sideways());
        }
    }

    /// Laying a piece down and standing it up again gives the piece back:
    /// for a piece with a long grain because neither step moves it, for one
    /// with a short grain that reaches the end of its box because the second
    /// step undoes the first.
    pub proof fn lemma_normalize_round_trip(self)
        requires
            self.in_box(),
            self.grain == Axis::Short ==> self.reaches_end(),
        ensures
            self.normalized().upright() == self,
            self.grain == Axis::Long ==> self.normalized() == self && self.upright() == self,
            self.grain == Axis::Short ==> self.normalized().sideways() && !self.sideways(),
    {
        if self.grain == Axis::Short {
            let i = choose|i: int| 0 <= i < 5 && (#[trigger] self.cubes[i].0).0 == 2;
            assert(!self.sideways());
            let laid = self.map_cubes(|loc: Location| lay_down(loc));
            assert(laid == self.normalized());
            assert(laid.cubes[i].0.1 > 1);
            assert(laid.sideways());
            let stood = laid.map_cubes(|loc: Location| stand_up(loc));
            assert(stood == laid.upright());
            assert(stood.cubes[0] == self.cubes[0]);
            assert(stood.cubes[1] == self.cubes[1]);
            assert(stood.cubes[2] == self.cubes[2]);
            assert(stood.cubes[3] == self.cubes[3]);
            assert(stood.cubes[4] == self.cubes[4]);
            assert(stood.cubes =~= self.cubes);
        }
    }
}

/// An orientation turns a place in the box to a place in the box.
pub proof fn lemma_turn_in_box(o: Orientation, loc: Location)
    requires
        loc.0 < 3 && loc.1 < 2 && loc.2 < 2,
    ensures
        o.turn(loc).0 < 3 && o.turn(loc).1 < 2 && o.turn(loc).2 < 2,
{
}

/// A half turn about either axis, made twice, brings a place in the box
/// back to where it was.
pub proof fn lemma_turn_twice(o: Orientation, loc: Location)
    requires
        loc.0 < 3 && loc.1 < 2 && loc.2 < 2,
        o == (Orientation { short: FullRotation::OneEighty, long: HalfRotation::Zero }) || o == (
        Orientation { short: FullRotation::Zero, long: HalfRotation::OneEighty }),
    ensures
        o.turn(o.turn(loc)) == loc,
{
}

/// Every piece of the catalogue with a short grain reaches the end of its
/// box in every orientation that it can take, so that laying it down can be
/// told from leaving it upright: laid down and stood up again, the piece is
/// as it was.
pub proof fn lemma_catalogue_round_trip(i: int, o: Orientation)
    requires
        0 <= i < 10,
        o.suits(catalogue(i).grain),
    ensures
        catalogue(i).grain == Axis::Short ==> catalogue(i).oriented(o).reaches_end(),
        catalogue(i).oriented(o).normalized().upright() == catalogue(i).oriented(o),
{
    let p = catalogue(i).oriented(o);
    lemma_catalogue_in_box(i);
    catalogue(i).lemma_oriented_in_box(o);
    if catalogue(i).grain == Axis::Short {
        assert(p.cubes[0].0.0 == 2 || p.cubes[1].0.0 == 2 || p.cubes[2].0.0 == 2 || p.cubes[3].0.0
            == 2 || p.cubes[4].0.0 == 2);
    }
    p.lemma_normalize_round_trip();
}

impl Polymino {
    /// Some cube lies off the plane x = 0, some off the plane y = 0 and
    /// some off the plane z = 0.
    pub open spec fn spans_space(self) -> bool {
        &&& exists|i: int| 0 <= i < 5 && (#[trigger] self.cubes[i].0).0 >= 1
        &&& exists|i: int| 0 <= i < 5 && (#[trigger] self.cubes[i].0).1 >= 1
        &&& exists|i: int| 0 <= i < 5 && (#[trigger] self.cubes[i].0).2 >= 1
    }

    /// The piece lies in its box and fills it in every direction: some cube
    /// lies off the first end of the box and some off the last, some in each
    /// of its two rows and some in each of its two layers.
    pub open spec fn fills_box(self) -> bool {
        &&& self.in_box()
        &&& exists|i: int| 0 <= i < 5 && (#[trigger] self.cubes[i].0).0 >= 1
        &&& exists|i: int| 0 <= i < 5 && (#[trigger] self.cubes[i].0).0 <= 1
        &&& exists|i: int| 0 <= i < 5 && (#[trigger] self.cubes[i].0).1 == 0
        &&& exists|i: int| 0 <= i < 5 && (#[trigger] self.cubes[i].0).1 == 1
        &&& exists|i: int| 0 <= i < 5 && (#[trigger] self.cubes[i].0).2 == 0
        &&& exists|i: int| 0 <= i < 5 && (#[trigger] self.cubes[i].0).2 == 1
    }

    /// No two cubes lie at the same place.
    pub open spec fn cubes_apart(self) -> bool {
        forall|i: int, j: int|
            0 <= i < j < 5 ==> (#[trigger] self.cubes[i]).0 != (#[trigger] self.cubes[j]).0
    }

    /// Where the cube `i` of a piece in its box lies once the piece is
    /// placed in the orientation `o`.
    pub proof fn lemma_placed_cube(self, o: Orientation, i: int)
        requires
            self.in_box(),
            0 <= i < 5,
        ensures
            self.oriented(o).normalized().cubes[i].0 == placed(self.grain, o, self.cubes[i].0),
    {
        self.lemma_oriented_in_box(o);
        assert(!self.oriented(o).sideways());
    }

    /// A piece that fills its box spans, as it is placed, two cells or more
    /// in each direction.
    pub proof fn lemma_placed_spans_space(self, o: Orientation)
        requires
            self.fills_box(),
            o.suits(self.grain),
        ensures
            self.oriented(o).normalized().spans_space(),
    {
        let a = choose|i: int| 0 <= i < 5 && (#[trigger] self.cubes[i].0).0 >= 1;
        let b = choose|i: int| 0 <= i < 5 && (#[trigger] self.cubes[i].0).0 <= 1;
        let c = choose|i: int| 0 <= i < 5 && (#[trigger] self.cubes[i].0).1 == 0;
        let d = choose|i: int| 0 <= i < 5 && (#[trigger] self.cubes[i].0).1 == 1;
        let e = choose|i: int| 0 <= i < 5 && (#[trigger] self.cubes[i].0).2 == 0;
        let f = choose|i: int| 0 <= i < 5 && (#[trigger] self.cubes[i].0).2 == 1;
        let q = self.oriented(o).normalized();
        self.lemma_placed_cube(o, a);
        self.lemma_placed_cube(o, b);
        self.lemma_placed_cube(o, c);
        self.lemma_placed_cube(o, d);
        self.lemma_placed_cube(o, e);
        self.lemma_placed_cube(o, f);
        lemma_placed_reach(
            self.grain,
            o,
            self.cubes[a].0,
            self.cubes[b].0,
            self.cubes[c].0,
            self.cubes[d].0,
            self.cubes[e].0,
            self.cubes[f].0,
        );
        assert(q.cubes[a].0.0 >= 1 || q.cubes[b].0.0 >= 1 || q.cubes[c].0.0 >= 1 || q.cubes[d].0.0
            >= 1);
        assert(q.cubes[a].0.1 >= 1 || q.cubes[b].0.1 >= 1 || q.cubes[c].0.1 >= 1 || q.cubes[d].0.1
            >= 1 || q.cubes[e].0.1 >= 1 || q.cubes[f].0.1 >= 1);
        assert(q.cubes[c].0.2 >= 1 || q.cubes[d].0.2 >= 1 || q.cubes[e].0.2 >= 1 || q.cubes[f].0.2
            >= 1);
    }

    /// A piece in its box whose cubes lie apart keeps them apart as it is
    /// placed.
    pub proof fn lemma_placed_cubes_apart(self, o: Orientation)
        requires
            self.in_box(),
            self.cubes_apart(),
        ensures
            self.oriented(o).normalized().cubes_apart(),
    {
        let q = self.oriented(o).normalized();
        assert forall|i: int, j: int| 0 <= i < j < 5 implies (#[trigger] q.cubes[i]).0
            != (#[trigger] q.cubes[j]).0 by {
            let x = self.cubes[i].0;
            let y = self.cubes[j].0;
            assert(x != y);
            assert(x.0 < 3 && x.1 < 2 && x.2 < 2);
            assert(y.0 < 3 && y.1 < 2 && y.2 < 2);
            self.lemma_placed_cube(o, i);
            self.lemma_placed_cube(o, j);
            if placed(self.grain, o, x) == placed(self.grain, o, y) {
                lemma_placed_injective(self.grain, o, x, y);
            }
        }
    }
}

/// Where a cube at `loc` of a piece of the given grain lies once the piece
/// is placed in the orientation `o`.
pub open spec fn placed(grain: Axis, o: Orientation, loc: Location) -> Location {
    if grain == Axis::Short {
        lay_down(o.turn(loc))
    } else {
        o.turn(loc)
    }
}

/// Two places in the box that come to lie at the same place are the same.
pub proof fn lemma_placed_injective(grain: Axis, o: Orientation, x: Location, y: Location)
    requires
        x.0 < 3 && x.1 < 2 && x.2 < 2,
        y.0 < 3 && y.1 < 2 && y.2 < 2,
        placed(grain, o, x) == placed(grain, o, y),
    ensures
        x == y,
{
}

/// Of six places in the box, one off the first end, one off the last, one
/// in each row and one in each layer, some come to lie off the plane x = 0,
/// some off the plane y = 0 and some off the plane z = 0.
pub proof fn lemma_placed_reach(
    grain: Axis,
    o: Orientation,
    a: Location,
    b: Location,
    c: Location,
    d: Location,
    e: Location,
    f: Location,
)
    requires
        o.suits(grain),
        a.0 < 3 && a.1 < 2 && a.2 < 2 && a.0 >= 1,
        b.0 < 3 && b.1 < 2 && b.2 < 2 && b.0 <= 1,
        c.0 < 3 && c.1 < 2 && c.2 < 2 && c.1 == 0,
        d.0 < 3 && d.1 < 2 && d.2 < 2 && d.1 == 1,
        e.0 < 3 && e.1 < 2 && e.2 < 2 && e.2 == 0,
        f.0 < 3 && f.1 < 2 && f.2 < 2 && f.2 == 1,
    ensures
        placed(grain, o, a).0 >= 1 || placed(grain, o, b).0 >= 1 || placed(grain, o, c).0 >= 1
            || placed(grain, o, d).0 >= 1,
        placed(grain, o, a).1 >= 1 || placed(grain, o, b).1 >= 1 || placed(grain, o, c).1 >= 1
            || placed(grain, o, d).1 >= 1 || placed(grain, o, e).1 >= 1 || placed(grain, o, f).1
            >= 1,
        placed(grain, o, c).2 >= 1 || placed(grain, o, d).2 >= 1 || placed(grain, o, e).2 >= 1
            || placed(grain, o, f).2 >= 1,
{
}

/// Every piece of the catalogue fills its box, with its five cubes at five
/// places.
pub proof fn lemma_catalogue_shape(i: int)
    requires
        0 <= i < 10,
    ensures
        catalogue(i).fills_box(),
        catalogue(i).cubes_apart(),
{
    let p = catalogue(i);
    assert(p.cubes[0].0.0 >= 1 || p.cubes[1].0.0 >= 1 || p.cubes[2].0.0 >= 1);
    assert(p.cubes[0].0.0 <= 1 || p.cubes[1].0.0 <= 1 || p.cubes[2].0.0 <= 1);
    assert(p.cubes[0].0.1 == 0 || p.cubes[1].0.1 == 0 || p.cubes[2].0.1 == 0 || p.cubes[3].0.1 == 0
        || p.cubes[4].0.1 == 0);
    assert(p.cubes[0].0.1 == 1 || p.cubes[1].0.1 == 1 || p.cubes[2].0.1 == 1 || p.cubes[3].0.1 == 1
        || p.cubes[4].0.1 == 1);
    assert(p.cubes[0].0.2 == 0 || p.cubes[1].0.2 == 0);
    assert(p.cubes[3].0.2 == 1 || p.cubes[4].0.2 == 1);
}

} // verus!
