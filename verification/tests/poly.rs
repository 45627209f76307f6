use polymino_solver::poly::{
    polyminos, Axis, Color, FullRotation, HalfRotation, Orientation, PolyIndex, Polymino,
    IMPOSSIBLE_ORIENTATION, INVALID_INDEX,
};

#[test]
fn no_op_orient() {
    for orig in polyminos() {
        let new = orig.orient(Orientation::new()).unwrap();
        assert_eq!(orig, new);
    }
}

#[test]
fn no_op_normalize() {
    for orig in polyminos() {
        let mut new = orig.clone();
        assert!(!new.is_normalized());

        new.normalize_grain();
        assert!(new.is_normalized() || new.grain == Axis::Long);

        new.undo_normalize();
        assert!(!new.is_normalized());

        assert_eq!(orig, new);
    }
}

#[test]
fn short_three_sixty() {
    for orig in polyminos() {
        match orig.grain {
            Axis::Long => {
                let one_eighty_turn = Orientation {
                    short: FullRotation::OneEighty,
                    long: HalfRotation::Zero,
                };
                let one_eighty = orig.orient(one_eighty_turn).unwrap();
                assert_eq!(orig, one_eighty.orient(one_eighty_turn).unwrap());
            }
            Axis::Short => {
                let one_eighty_turn = Orientation {
                    short: FullRotation::OneEighty,
                    long: HalfRotation::Zero,
                };
                let one_eighty = orig.orient(one_eighty_turn).unwrap();
                let orig_oriented = orig.orient(Orientation::new()).unwrap();
                let fully_turned = one_eighty.orient(one_eighty_turn).unwrap();
                assert_eq!(orig_oriented, fully_turned);
            }
        }
    }
}

#[test]
fn long_three_sixty() {
    for orig in polyminos() {
        println!("------ turning polymino ------");
        println!("{}", orig.to_text().iter().collect::<String>());
        let one_eighty_turn = Orientation {
            short: FullRotation::Zero,
            long: HalfRotation::OneEighty,
        };
        let mut new = orig.orient(one_eighty_turn).unwrap();
        println!("one turn:\n{}", new.to_text().iter().collect::<String>());
        new = new.orient(one_eighty_turn).unwrap();
        println!("second turn:\n{}", new.to_text().iter().collect::<String>());
        assert_eq!(orig, new);
    }
}

#[test]
fn catalogue_holds_the_ten_pieces() {
    let all = polyminos();
    assert_eq!(all.len(), 10);
    assert_eq!(
        all[0],
        Polymino {
            cubes: [
                ((0, 0, 0), Color::Black),
                ((1, 0, 0), Color::White),
                ((1, 1, 0), Color::Black),
                ((2, 1, 0), Color::White),
                ((1, 0, 1), Color::Black),
            ],
            grain: Axis::Long,
        }
    );
    assert_eq!(
        all[8],
        Polymino {
            cubes: [
                ((1, 0, 0), Color::Black),
                ((2, 0, 0), Color::White),
                ((0, 1, 0), Color::Black),
                ((1, 1, 0), Color::White),
                ((2, 0, 1), Color::Black),
            ],
            grain: Axis::Short,
        }
    );
    let grains: Vec<Axis> = all.iter().map(|p| p.grain).collect();
    assert_eq!(
        grains,
        vec![
            Axis::Long,
            Axis::Short,
            Axis::Short,
            Axis::Long,
            Axis::Long,
            Axis::Short,
            Axis::Long,
            Axis::Short,
            Axis::Short,
            Axis::Long
        ]
    );
    for (i, piece) in all.iter().enumerate() {
        assert_eq!(PolyIndex::new(i).unwrap().to_poly(), *piece);
    }
}

#[test]
fn poly_index_accepts_zero_to_nine() {
    for i in 0..10usize {
        let index = PolyIndex::new(i).unwrap();
        let back: usize = index.into();
        assert_eq!(back, i);
        let tried: PolyIndex = i.try_into().unwrap();
        assert_eq!(tried, index);
    }
    assert_eq!(PolyIndex::new(10), Err(INVALID_INDEX));
    assert_eq!(PolyIndex::new(usize::MAX), Err(INVALID_INDEX));
    let tried: Result<PolyIndex, &'static str> = 10usize.try_into();
    assert_eq!(tried, Err("invalid index"));
}

#[test]
fn quarter_turn_follows_the_cycle() {
    let piece = Polymino {
        cubes: [
            ((0, 0, 0), Color::Black),
            ((1, 1, 0), Color::White),
            ((2, 1, 1), Color::Black),
            ((0, 0, 1), Color::White),
            ((1, 0, 0), Color::Black),
        ],
        grain: Axis::Long,
    };
    let quarter = Orientation { short: FullRotation::Ninety, long: HalfRotation::Zero };
    let turned = piece.orient(quarter).unwrap();
    assert_eq!(
        turned.cubes,
        [
            ((0, 1, 0), Color::Black),
            ((1, 1, 1), Color::White),
            ((2, 0, 1), Color::Black),
            ((0, 0, 0), Color::White),
            ((1, 1, 0), Color::Black),
        ]
    );
    assert_eq!(turned.grain, Axis::Long);
    let three = Orientation { short: FullRotation::TwoSeventy, long: HalfRotation::Zero };
    let back = turned.orient(three).unwrap();
    assert_eq!(back, piece);
}

#[test]
fn half_turn_reflects_through_the_box() {
    let piece = polyminos()[3].clone();
    let flip = Orientation { short: FullRotation::Zero, long: HalfRotation::OneEighty };
    let turned = piece.orient(flip).unwrap();
    assert_eq!(
        turned.cubes,
        [
            ((2, 1, 0), Color::Black),
            ((1, 1, 0), Color::White),
            ((0, 1, 0), Color::Black),
            ((2, 0, 0), Color::White),
            ((1, 1, 1), Color::Black),
        ]
    );
    let both = Orientation { short: FullRotation::Ninety, long: HalfRotation::OneEighty };
    let turned = piece.orient(both).unwrap();
    assert_eq!(
        turned.cubes,
        [
            ((2, 0, 0), Color::Black),
            ((1, 0, 0), Color::White),
            ((0, 0, 0), Color::Black),
            ((2, 0, 1), Color::White),
            ((1, 1, 0), Color::Black),
        ]
    );
}

#[test]
fn short_grain_refuses_odd_quarter_turns() {
    for piece in polyminos() {
        for short in [
            FullRotation::Zero,
            FullRotation::Ninety,
            FullRotation::OneEighty,
            FullRotation::TwoSeventy,
        ] {
            for long in [HalfRotation::Zero, HalfRotation::OneEighty] {
                let result = piece.orient(Orientation { short, long });
                let odd = short == FullRotation::Ninety || short == FullRotation::TwoSeventy;
                if piece.grain == Axis::Short && odd {
                    assert_eq!(result, Err(IMPOSSIBLE_ORIENTATION));
                    assert_eq!(result, Err("impossible orientation for this piece"));
                } else {
                    let turned = result.unwrap();
                    assert_eq!(turned.grain, piece.grain);
                    for (i, (_, color)) in turned.cubes.iter().enumerate() {
                        assert_eq!(*color, piece.cubes[i].1);
                    }
                }
            }
        }
    }
}

#[test]
fn normalize_lays_short_pieces_down() {
    let piece = polyminos()[1].clone();
    let mut laid = piece.clone();
    laid.normalize_grain();
    assert_eq!(
        laid.cubes,
        [
            ((0, 0, 0), Color::White),
            ((0, 1, 0), Color::Black),
            ((0, 2, 0), Color::White),
            ((1, 2, 1), Color::White),
            ((0, 2, 1), Color::Black),
        ]
    );
    assert!(laid.is_normalized());
    let mut again = laid.clone();
    again.normalize_grain();
    assert_eq!(again, laid);
    laid.undo_normalize();
    assert_eq!(laid, piece);
    laid.undo_normalize();
    assert_eq!(laid, piece);
}

#[test]
fn normalize_leaves_long_pieces_alone() {
    for piece in polyminos() {
        if piece.grain == Axis::Long {
            let mut same = piece.clone();
            same.normalize_grain();
            assert_eq!(same, piece);
            same.undo_normalize();
            assert_eq!(same, piece);
        }
    }
}

#[test]
fn short_piece_that_stops_short_of_the_end_is_not_stood_up_again() {
    let piece = Polymino {
        cubes: [
            ((0, 0, 0), Color::Black),
            ((1, 0, 0), Color::White),
            ((0, 1, 0), Color::White),
            ((1, 1, 0), Color::Black),
            ((0, 0, 1), Color::White),
        ],
        grain: Axis::Short,
    };
    let mut laid = piece.clone();
    laid.normalize_grain();
    assert_eq!(laid.cubes[1].0, (1, 1, 0));
    assert!(!laid.is_normalized());
    let mut stood = laid.clone();
    stood.undo_normalize();
    assert_eq!(stood, laid);
    assert_ne!(stood, piece);
}

#[test]
fn orientations_are_enumerated_in_order() {
    let mut seen = vec![Orientation::new()];
    let mut current = Orientation::new();
    while let Ok(next) = current.next() {
        assert!(!seen.contains(&next));
        seen.push(next);
        current = next;
    }
    assert_eq!(seen.len(), 8);
    assert_eq!(
        seen,
        vec![
            Orientation { short: FullRotation::Zero, long: HalfRotation::Zero },
            Orientation { short: FullRotation::Zero, long: HalfRotation::OneEighty },
            Orientation { short: FullRotation::Ninety, long: HalfRotation::Zero },
            Orientation { short: FullRotation::Ninety, long: HalfRotation::OneEighty },
            Orientation { short: FullRotation::OneEighty, long: HalfRotation::Zero },
            Orientation { short: FullRotation::OneEighty, long: HalfRotation::OneEighty },
            Orientation { short: FullRotation::TwoSeventy, long: HalfRotation::Zero },
            Orientation { short: FullRotation::TwoSeventy, long: HalfRotation::OneEighty },
        ]
    );
    assert_eq!(current.next(), Err(()));
    let short_piece = polyminos()[1].clone();
    let legal = seen.iter().filter(|o| short_piece.orient(**o).is_ok()).count();
    assert_eq!(legal, 4);
    let long_piece = polyminos()[0].clone();
    let legal = seen.iter().filter(|o| long_piece.orient(**o).is_ok()).count();
    assert_eq!(legal, 8);
}

#[test]
fn color_at_finds_the_first_cube_at_a_place() {
    let piece = polyminos()[0].clone();
    assert_eq!(piece.color_at((0, 0, 0)), Some(Color::Black));
    assert_eq!(piece.color_at((1, 0, 0)), Some(Color::White));
    assert_eq!(piece.color_at((1, 0, 1)), Some(Color::Black));
    assert_eq!(piece.color_at((2, 0, 0)), None);
    assert_eq!(piece.color_at((0, 0, 2)), None);
    let doubled = Polymino {
        cubes: [
            ((0, 0, 0), Color::White),
            ((1, 0, 0), Color::White),
            ((1, 0, 0), Color::Black),
            ((0, 0, 0), Color::Black),
            ((2, 1, 1), Color::Black),
        ],
        grain: Axis::Long,
    };
    assert_eq!(doubled.color_at((1, 0, 0)), Some(Color::White));
    assert_eq!(doubled.color_at((0, 0, 0)), Some(Color::White));
    assert_eq!(doubled.color_at((2, 1, 1)), Some(Color::Black));
}
