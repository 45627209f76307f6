use polymino_solver::board::Board;
use polymino_solver::poly::{FullRotation, HalfRotation, Orientation};
use polymino_solver::search::{next_orient_or_loc, search};

#[test]
fn search_finds_ten_moves_that_fill_the_board() {
    let moves = search();
    assert_eq!(moves.len(), 10);
    let mut board = Board::new();
    for (i, m) in moves.iter().enumerate() {
        let index: usize = m.polymino.into();
        assert_eq!(index, i);
        assert!(!board.complete());
        assert_eq!(board.push(m.polymino, m.orientation, m.location), Ok(()));
    }
    assert!(board.complete());
    assert_eq!(board.moves.len(), 10);
}

#[test]
fn search_gives_the_same_moves_each_time() {
    let first = search();
    let second = search();
    assert_eq!(format!("{:?}", first), format!("{:?}", second));
    assert_eq!(first.len(), second.len());
    for (a, b) in first.iter().zip(second.iter()) {
        assert_eq!(a.location, b.location);
        assert_eq!(a.orientation, b.orientation);
        assert_eq!(a.polymino, b.polymino);
    }
}

#[test]
fn search_finds_the_first_solution() {
    let moves = search();
    let found: Vec<((usize, usize, usize), Orientation)> =
        moves.iter().map(|m| (m.location, m.orientation)).collect();
    let o = |short, long| Orientation { short, long };
    assert_eq!(
        found,
        vec![
            ((2, 0, 0), o(FullRotation::Zero, HalfRotation::Zero)),
            ((0, 0, 0), o(FullRotation::OneEighty, HalfRotation::OneEighty)),
            ((0, 2, 0), o(FullRotation::Zero, HalfRotation::Zero)),
            ((2, 3, 0), o(FullRotation::Zero, HalfRotation::OneEighty)),
            ((0, 3, 0), o(FullRotation::Ninety, HalfRotation::Zero)),
            ((1, 0, 0), o(FullRotation::OneEighty, HalfRotation::OneEighty)),
            ((1, 3, 0), o(FullRotation::Ninety, HalfRotation::OneEighty)),
            ((3, 2, 0), o(FullRotation::OneEighty, HalfRotation::Zero)),
            ((3, 0, 0), o(FullRotation::OneEighty, HalfRotation::OneEighty)),
            ((0, 0, 0), o(FullRotation::Ninety, HalfRotation::Zero)),
        ]
    );
}

#[test]
fn next_candidate_turns_before_it_moves() {
    let first = Orientation::new();
    let flipped = Orientation { short: FullRotation::Zero, long: HalfRotation::OneEighty };
    let last = Orientation { short: FullRotation::TwoSeventy, long: HalfRotation::OneEighty };
    assert_eq!(next_orient_or_loc(first, (0, 0, 0)), Ok((flipped, (0, 0, 0))));
    assert_eq!(next_orient_or_loc(first, (2, 1, 1)), Ok((flipped, (2, 1, 1))));
    assert_eq!(next_orient_or_loc(last, (0, 0, 0)), Ok((first, (1, 0, 0))));
    assert_eq!(next_orient_or_loc(last, (2, 1, 1)), Ok((first, (3, 1, 0))));
    assert_eq!(next_orient_or_loc(last, (4, 0, 0)), Ok((first, (0, 1, 0))));
    assert_eq!(next_orient_or_loc(last, (4, 2, 0)), Ok((first, (0, 3, 0))));
    assert_eq!(next_orient_or_loc(last, (2, 3, 0)), Ok((first, (3, 3, 0))));
    assert_eq!(next_orient_or_loc(last, (3, 3, 0)), Err(()));
    assert_eq!(next_orient_or_loc(last, (3, 3, 1)), Err(()));
    assert_eq!(next_orient_or_loc(first, (3, 3, 0)), Ok((flipped, (3, 3, 0))));
}

#[test]
fn candidates_are_enumerated_up_to_the_last_corner() {
    let mut orientation = Orientation::new();
    let mut location = (0, 0, 0);
    let mut count = 1;
    let mut corners = vec![location];
    while let Ok((o, l)) = next_orient_or_loc(orientation, location) {
        count += 1;
        if l != location {
            corners.push(l);
            assert_eq!(o, Orientation::new());
        }
        orientation = o;
        location = l;
    }
    assert_eq!(count, 152);
    assert_eq!(corners.len(), 19);
    assert_eq!(corners[4], (4, 0, 0));
    assert_eq!(corners[5], (0, 1, 0));
    assert_eq!(location, (3, 3, 0));
    assert_eq!(
        orientation,
        Orientation { short: FullRotation::TwoSeventy, long: HalfRotation::OneEighty }
    );
}
