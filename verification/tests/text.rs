use polymino_solver::board::{Board, Move};
use polymino_solver::poly::{
    polyminos, Axis, Color, FullRotation, HalfRotation, Orientation, PolyIndex, Polymino,
};
use polymino_solver::search::search;

fn string(text: Vec<char>) -> String {
    text.into_iter().collect()
}

#[test]
fn colours_and_axes_as_text() {
    assert_eq!(string(Color::Black.to_text()), "B");
    assert_eq!(string(Color::White.to_text()), "W");
    assert_eq!(string(Axis::Long.to_text()), "long");
    assert_eq!(string(Axis::Short.to_text()), "short");
}

#[test]
fn rotations_as_text() {
    assert_eq!(string(FullRotation::Zero.to_text()), "0°");
    assert_eq!(string(FullRotation::Ninety.to_text()), "90°");
    assert_eq!(string(FullRotation::OneEighty.to_text()), "180°");
    assert_eq!(string(FullRotation::TwoSeventy.to_text()), "270°");
    assert_eq!(string(HalfRotation::Zero.to_text()), "0°");
    assert_eq!(string(HalfRotation::OneEighty.to_text()), "180°");
}

#[test]
fn orientations_as_text() {
    let o = |short, long| Orientation { short, long };
    assert_eq!(string(o(FullRotation::Zero, HalfRotation::Zero).to_text()), "not rotated");
    assert_eq!(
        string(o(FullRotation::Zero, HalfRotation::OneEighty).to_text()),
        "rotated 180° about short axis"
    );
    assert_eq!(
        string(o(FullRotation::Ninety, HalfRotation::Zero).to_text()),
        "rotated 90° about long axis"
    );
    assert_eq!(
        string(o(FullRotation::TwoSeventy, HalfRotation::Zero).to_text()),
        "rotated 270° about long axis"
    );
    assert_eq!(
        string(o(FullRotation::OneEighty, HalfRotation::OneEighty).to_text()),
        "rotated 180° about long axis then 180° about short axis"
    );
}

#[test]
fn moves_as_text() {
    let m = Move {
        location: (2, 3, 0),
        orientation: Orientation { short: FullRotation::Zero, long: HalfRotation::OneEighty },
        polymino: PolyIndex::new(3).unwrap(),
    };
    assert_eq!(string(m.to_text()), "polymino 3 at (2, 3, 0) rotated 180° about short axis");
    let far = Move {
        location: (10, 4096, 18446744073709551615),
        orientation: Orientation::new(),
        polymino: PolyIndex::new(9).unwrap(),
    };
    assert_eq!(string(far.to_text()), "polymino 9 at (10, 4096, 18446744073709551615) not rotated");
    for n in [0usize, 7, 9, 10, 11, 99, 100, 101, 12345, 1000000, usize::MAX] {
        let m = Move {
            location: (n, n / 3, n % 7),
            orientation: Orientation::new(),
            polymino: PolyIndex::new(n % 10).unwrap(),
        };
        assert_eq!(
        string(m.to_text()),
            format!("polymino {} at {:?} not rotated", n % 10, (n, n / 3, n % 7))
        );
    }
}

#[test]
fn pieces_as_text() {
    let all = polyminos();
    assert_eq!(
        string(all[0].to_text()),
        "bottom:   top:   grain: long\nBW_       _B_       \n_BW       ___       \n"
    );
    assert_eq!(
        string(all[1].to_text()),
        "bottom:   top:   grain: short\n___       __W       \nWBW       __B       \n"
    );
    let doubled = Polymino {
        cubes: [
            ((0, 0, 0), Color::White),
            ((0, 0, 0), Color::Black),
            ((1, 0, 0), Color::Black),
            ((2, 0, 0), Color::Black),
            ((2, 2, 2), Color::Black),
        ],
        grain: Axis::Long,
    };
    assert_eq!(
        string(doubled.to_text()),
        "bottom:   top:   grain: long\nWBB       ___       \n___       ___       \n"
    );
}

#[test]
fn boards_as_text() {
    let mut board = Board::new();
    assert_eq!(
        string(board.to_text()),
        "board state:    moves:\n_____   _____   \n_____   _____   \n_____   _____   \n_____   _____   \n_____   _____   \n"
    );
    let moves = search();
    let mut texts = Vec::new();
    for m in moves.iter() {
        board.push(m.polymino, m.orientation, m.location).unwrap();
        texts.push(string(board.to_text()));
    }
    assert_eq!(
        texts[0],
        "board state:    moves:\n__BW_   ___B_      - polymino 0 at (2, 0, 0) not rotated\n___BW   _____   \n_____   _____   \n_____   _____   \n_____   _____   \n"
    );
    assert_eq!(
        texts[6],
        "board state:    moves:\nBWBW_   W_WB_      - polymino 0 at (2, 0, 0) not rotated\n___BW   B_B__      - polymino 1 at (0, 0, 0) rotated 180° about long axis then 180° about short axis\nBWB__   WBW__      - polymino 2 at (0, 2, 0) not rotated\nWBWBW   BWBW_      - polymino 3 at (2, 3, 0) rotated 180° about short axis\nBWBWB   WBWB_      - polymino 4 at (0, 3, 0) rotated 90° about long axis\n                   - polymino 5 at (1, 0, 0) rotated 180° about long axis then 180° about short axis\n                   - polymino 6 at (1, 3, 0) rotated 90° about long axis then 180° about short axis\n"
    );
    assert_eq!(
        texts[9],
        "board state:    moves:\nBWBWB   WBWBW      - polymino 0 at (2, 0, 0) not rotated\nWBWBW   BWBWB      - polymino 1 at (0, 0, 0) rotated 180° about long axis then 180° about short axis\nBWBWB   WBWBW      - polymino 2 at (0, 2, 0) not rotated\nWBWBW   BWBWB      - polymino 3 at (2, 3, 0) rotated 180° about short axis\nBWBWB   WBWBW      - polymino 4 at (0, 3, 0) rotated 90° about long axis\n                   - polymino 5 at (1, 0, 0) rotated 180° about long axis then 180° about short axis\n                   - polymino 6 at (1, 3, 0) rotated 90° about long axis then 180° about short axis\n                   - polymino 7 at (3, 2, 0) rotated 180° about long axis\n                   - polymino 8 at (3, 0, 0) rotated 180° about long axis then 180° about short axis\n                   - polymino 9 at (0, 0, 0) rotated 90° about long axis\n"
    );
}
