use polymino_solver::board::{Board, Move, NOT_POSSIBLE};
use polymino_solver::poly::{
    polyminos, Axis, Color, FullRotation, HalfRotation, Orientation, PolyIndex,
    IMPOSSIBLE_ORIENTATION,
};

fn cells_of(board: &Board) -> Vec<Option<Color>> {
    board.state.iter().flat_map(|col| col.iter()).flat_map(|col| col.iter()).copied().collect()
}

#[test]
fn push_and_pop() {
    let pieces = polyminos();
    for i in 0..pieces.len() {
        for j in 0..7 {
            let mut board = Board::new();

            let mut location = (1, 1, 0);
            let mut orientation = Orientation::new();
            for _ in 0..j {
                orientation = orientation.next().unwrap();
            }
            let odd = orientation.short == FullRotation::Ninety
                || orientation.short == FullRotation::TwoSeventy;
            if pieces[i].grain == Axis::Short && odd {
                // a piece with a short grain cannot take this orientation, wherever it is put
                assert_eq!(
                    board.push(i.try_into().unwrap(), orientation, location),
                    Err(IMPOSSIBLE_ORIENTATION)
                );
                location = (1, 2, 0);
                assert_eq!(
                    board.push(i.try_into().unwrap(), orientation, location),
                    Err(IMPOSSIBLE_ORIENTATION)
                );
                assert!(board.pop().is_none());
                assert!(cells_of(&board).iter().all(|x| x.is_none()));
                continue;
            }
            if let Err(_) = board.push(i.try_into().unwrap(), orientation, location) {
                location = (1, 2, 0);
                board.push(i.try_into().unwrap(), orientation, location).unwrap();
            }
            println!("{}", board.to_text().iter().collect::<String>());

            let last_move = board.pop().unwrap();
            assert_eq!(last_move.location, location);
            assert_eq!(last_move.orientation, orientation);
            let poly_index: usize = last_move.polymino.into();
            assert_eq!(poly_index, i);

            let not_valid = board.pop();
            assert!(not_valid.is_none());

            let any_cubes = board
                .state
                .iter()
                .flat_map(|col| col.iter())
                .flat_map(|col| col.iter())
                .all(|x| x.is_none());
            assert!(any_cubes);
        }
    }
}

#[test]
fn new_board_is_empty() {
    let board = Board::new();
    assert!(board.moves.is_empty());
    assert_eq!(cells_of(&board), vec![None; 50]);
    assert!(!board.complete());
}

#[test]
fn color_fits_follows_parity() {
    assert!(Board::color_fits((0, 0, 0), Color::Black));
    assert!(!Board::color_fits((0, 0, 0), Color::White));
    assert!(Board::color_fits((1, 0, 0), Color::White));
    assert!(Board::color_fits((1, 1, 0), Color::Black));
    assert!(Board::color_fits((4, 4, 1), Color::White));
    assert!(!Board::color_fits((4, 4, 1), Color::Black));
    assert!(Board::color_fits((usize::MAX, usize::MAX, 0), Color::Black));
    assert!(Board::color_fits((usize::MAX, usize::MAX, usize::MAX), Color::White));
    for x in 0..5 {
        for y in 0..5 {
            for z in 0..2 {
                assert_eq!(Board::color_fits((x, y, z), Color::Black), (x + y + z) % 2 == 0);
                assert_eq!(Board::color_fits((x, y, z), Color::White), (x + y + z) % 2 == 1);
            }
        }
    }
}

#[test]
fn push_writes_the_five_cubes() {
    let mut board = Board::new();
    let piece = PolyIndex::new(0).unwrap();
    assert_eq!(board.push(piece, Orientation::new(), (2, 0, 0)), Ok(()));
    let mut expected = [[[None; 2]; 5]; 5];
    expected[2][0][0] = Some(Color::Black);
    expected[3][0][0] = Some(Color::White);
    expected[3][1][0] = Some(Color::Black);
    expected[4][1][0] = Some(Color::White);
    expected[3][0][1] = Some(Color::Black);
    assert_eq!(board.state, expected);
    assert_eq!(board.moves.len(), 1);
    assert_eq!(board.moves[0].location, (2, 0, 0));
    assert_eq!(board.moves[0].orientation, Orientation::new());
    assert_eq!(board.moves[0].polymino, piece);
}

#[test]
fn push_lays_a_short_piece_on_its_side() {
    let mut board = Board::new();
    let piece = PolyIndex::new(1).unwrap();
    let turn = Orientation { short: FullRotation::OneEighty, long: HalfRotation::OneEighty };
    assert_eq!(board.push(piece, turn, (0, 0, 0)), Ok(()));
    let mut expected = [[[None; 2]; 5]; 5];
    expected[0][2][1] = Some(Color::White);
    expected[0][1][1] = Some(Color::Black);
    expected[0][0][1] = Some(Color::White);
    expected[1][0][0] = Some(Color::White);
    expected[0][0][0] = Some(Color::Black);
    assert_eq!(board.state, expected);
}

#[test]
fn push_refuses_what_does_not_fit() {
    let mut board = Board::new();
    let first = PolyIndex::new(0).unwrap();
    let second = PolyIndex::new(3).unwrap();
    // wrong colour: the black corner cube on a white cell
    assert_eq!(board.push(first, Orientation::new(), (1, 0, 0)), Err(NOT_POSSIBLE));
    assert_eq!(board.push(first, Orientation::new(), (1, 0, 0)), Err("not possible to place"));
    // out of the grid
    assert_eq!(board.push(first, Orientation::new(), (4, 0, 0)), Err(NOT_POSSIBLE));
    assert_eq!(board.push(first, Orientation::new(), (0, 4, 0)), Err(NOT_POSSIBLE));
    assert_eq!(board.push(first, Orientation::new(), (0, 0, 1)), Err(NOT_POSSIBLE));
    assert_eq!(board.push(first, Orientation::new(), (5, 5, 2)), Err(NOT_POSSIBLE));
    assert_eq!(
        board.push(first, Orientation::new(), (usize::MAX, usize::MAX, usize::MAX)),
        Err(NOT_POSSIBLE)
    );
    assert_eq!(cells_of(&board), vec![None; 50]);
    assert!(board.moves.is_empty());
    // taken cells
    assert_eq!(board.push(first, Orientation::new(), (0, 0, 0)), Ok(()));
    let before = board.state;
    assert_eq!(board.push(second, Orientation::new(), (0, 0, 0)), Err(NOT_POSSIBLE));
    assert_eq!(board.push(second, Orientation::new(), (1, 1, 0)), Err(NOT_POSSIBLE));
    assert_eq!(board.state, before);
    assert_eq!(board.moves.len(), 1);
    // an orientation that the piece cannot take
    let short = PolyIndex::new(1).unwrap();
    let quarter = Orientation { short: FullRotation::Ninety, long: HalfRotation::Zero };
    assert_eq!(board.push(short, quarter, (0, 2, 0)), Err(IMPOSSIBLE_ORIENTATION));
    assert_eq!(board.state, before);
    assert_eq!(board.moves.len(), 1);
}

#[test]
fn pop_restores_the_board_before_the_push() {
    let pieces = polyminos();
    let mut board = Board::new();
    assert_eq!(board.push(PolyIndex::new(0).unwrap(), Orientation::new(), (2, 0, 0)), Ok(()));
    for i in 1..pieces.len() {
        for x in 0..5 {
            for y in 0..5 {
                let mut orientation = Orientation::new();
                loop {
                    let before = board.state;
                    let poly = PolyIndex::new(i).unwrap();
                    if board.push(poly, orientation, (x, y, 0)).is_ok() {
                        assert_eq!(board.moves.len(), 2);
                        assert_ne!(board.state, before);
                        let taken = cells_of(&board).iter().filter(|c| c.is_some()).count();
                        assert_eq!(taken, 10);
                        let back = board.pop().unwrap();
                        assert_eq!(back.location, (x, y, 0));
                        assert_eq!(back.orientation, orientation);
                        assert_eq!(back.polymino, poly);
                    }
                    assert_eq!(board.state, before);
                    assert_eq!(board.moves.len(), 1);
                    match orientation.next() {
                        Ok(next) => orientation = next,
                        Err(()) => break,
                    }
                }
            }
        }
    }
}

#[test]
fn cells_keep_their_colour_and_moves_do_not_overlap() {
    let mut board = Board::new();
    let mut placed = 0;
    for i in 0..10 {
        let poly = PolyIndex::new(i).unwrap();
        let mut done = false;
        for x in 0..5 {
            for y in 0..5 {
                let mut orientation = Orientation::new();
                loop {
                    if !done && board.push(poly, orientation, (x, y, 0)).is_ok() {
                        done = true;
                        placed += 1;
                    }
                    match orientation.next() {
                        Ok(next) => orientation = next,
                        Err(()) => break,
                    }
                }
            }
        }
        let mut taken = 0;
        for x in 0..5 {
            for y in 0..5 {
                for z in 0..2 {
                    if let Some(color) = board.state[x][y][z] {
                        taken += 1;
                        assert!(Board::color_fits((x, y, z), color));
                        assert_eq!(color == Color::Black, (x + y + z) % 2 == 0);
                    }
                }
            }
        }
        assert_eq!(taken, 5 * placed);
        assert_eq!(board.moves.len(), placed);
    }
    assert!(placed >= 2);
    while let Some(_) = board.pop() {
        placed -= 1;
        let taken = cells_of(&board).iter().filter(|c| c.is_some()).count();
        assert_eq!(taken, 5 * placed);
    }
    assert_eq!(cells_of(&board), vec![None; 50]);
}

#[test]
fn pop_on_an_empty_board_gives_nothing() {
    let mut board = Board::new();
    assert!(board.pop().is_none());
    assert_eq!(cells_of(&board), vec![None; 50]);
    assert!(board.moves.is_empty());
}

#[test]
fn move_can_be_cloned() {
    let m = Move {
        location: (1, 2, 0),
        orientation: Orientation { short: FullRotation::OneEighty, long: HalfRotation::Zero },
        polymino: PolyIndex::new(4).unwrap(),
    };
    let copy = m.clone();
    assert_eq!(copy.location, (1, 2, 0));
    assert_eq!(copy.orientation, m.orientation);
    assert_eq!(copy.polymino, m.polymino);
}

#[test]
fn board_can_be_cloned() {
    let mut board = Board::new();
    board.push(PolyIndex::new(0).unwrap(), Orientation::new(), (2, 0, 0)).unwrap();
    let mut copy = board.clone();
    assert_eq!(copy.state, board.state);
    assert_eq!(copy.moves.len(), 1);
    assert_eq!(copy.moves[0].location, (2, 0, 0));
    copy.pop().unwrap();
    assert_eq!(cells_of(&copy), vec![None; 50]);
    assert_eq!(board.moves.len(), 1);
    assert_eq!(board.state[2][0][0], Some(Color::Black));
}
