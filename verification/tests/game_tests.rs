use minesweeper_rooms::game::{Minefield, Square, SquareContents};

/// Builds a board with mines at the given positions and nothing
/// revealed or flagged; first-move protection is treated as already
/// spent so reveals act on the layout exactly as written.
fn board(width: usize, height: usize, mines: &[(usize, usize)]) -> Minefield {
    let mut squares: Vec<Square> = Vec::new();
    let mut count: usize = 0;
    let mut i: usize = 0;
    while i < width * height {
        let x: usize = i % width;
        let y: usize = i / width;
        let is_mine = mines.contains(&(x, y));
        if is_mine {
            count += 1;
        }
        squares.push(Square {
            is_mine,
            revealed: false,
            flagged: false,
            x,
            y,
        });
        i += 1;
    }
    Minefield {
        squares,
        width,
        height,
        is_first_move: false,
        num_mines: count,
    }
}

fn count_mines(field: &Minefield) -> usize {
    field.all_squares().iter().filter(|q| q.is_mine).count()
}

#[test]
fn generation_valid_params() {
    let field = Minefield::new(5, 4, 7).expect("valid parameters");
    assert_eq!(field.width(), 5);
    assert_eq!(field.height(), 4);
    assert_eq!(field.num_mines(), 7);
    assert_eq!(field.all_squares().len(), 20);
    assert_eq!(count_mines(&field), 7);
    for q in field.all_squares() {
        assert!(!q.revealed());
        assert!(!q.flagged());
    }
}

#[test]
fn generation_rejects_invalid_params() {
    assert!(Minefield::new(0, 5, 0).is_none());
    assert!(Minefield::new(5, 0, 0).is_none());
    assert!(Minefield::new(5, 5, 26).is_none());
    assert!(Minefield::new(51, 50, 0).is_none());
    assert!(Minefield::new(50, 50, 0).is_some());
    assert!(Minefield::new(5, 5, 25).is_some());
}

#[test]
fn generation_square_positions() {
    let field = Minefield::new(3, 2, 1).unwrap();
    let squares = field.all_squares();
    assert_eq!(squares[4].x(), 1);
    assert_eq!(squares[4].y(), 1);
    assert_eq!(squares[2].x(), 2);
    assert_eq!(squares[2].y(), 0);
}

#[test]
fn generation_boundary_area() {
    assert!(Minefield::new(61, 41, 0).is_none());
    let full = Minefield::new(50, 50, 2500).expect("maximum board");
    assert_eq!(count_mines(&full), 2500);
}

#[test]
fn full_board_first_reveal_detonates() {
    let mut field = Minefield::new(2, 2, 4).expect("fully mined board");
    let events = field.recursive_square_reveal(1, 1).expect("fresh square");
    assert_eq!(events, vec![(1, 1, SquareContents::MineBoom)]);
}

#[test]
fn cascade_fills_the_largest_empty_board() {
    let mut field = Minefield::new(50, 50, 0).expect("maximum board");
    let events = field.recursive_square_reveal(0, 0).expect("fresh square");
    assert_eq!(events.len(), 2500);
    for (_, _, content) in &events {
        assert_eq!(*content, SquareContents::NumMines(0));
    }
    for q in field.all_squares() {
        assert!(q.revealed());
    }
}

#[test]
fn default_field_dimensions() {
    let field = Minefield::default_field();
    assert_eq!(field.width(), 30);
    assert_eq!(field.height(), 16);
    assert_eq!(field.num_mines(), 99);
    assert_eq!(count_mines(&field), 99);
}

#[test]
fn first_move_safety() {
    let mut field = Minefield::new(9, 9, 10).expect("valid parameters");
    let events = field.recursive_square_reveal(4, 4).expect("fresh square");
    assert!(!events.is_empty());
    let (x, y, content) = events[0];
    assert_eq!((x, y), (4, 4));
    assert_eq!(content, SquareContents::NumMines(0));
    assert_eq!(count_mines(&field), 10);
    assert_eq!(field.num_mines(), 10);
}

#[test]
fn first_move_on_full_board_detonates() {
    let mut field = Minefield::new(1, 1, 1).expect("valid parameters");
    let events = field.recursive_square_reveal(0, 0).expect("fresh square");
    assert_eq!(events.len(), 1);
    assert_eq!(events[0], (0, 0, SquareContents::MineBoom));
}

#[test]
fn flood_fill_single_cell() {
    let mut field = Minefield::new(1, 1, 0).expect("valid parameters");
    let events = field.recursive_square_reveal(0, 0).expect("fresh square");
    assert_eq!(events.len(), 1);
    assert_eq!(events[0], (0, 0, SquareContents::NumMines(0)));
}

#[test]
fn flood_fill_no_cascade_on_numbered_square() {
    let mut field = board(3, 3, &[(0, 0)]);
    let events = field.recursive_square_reveal(1, 1).expect("fresh square");
    assert_eq!(events.len(), 1);
    assert_eq!(events[0], (1, 1, SquareContents::NumMines(1)));
    assert!(field.get_square(0, 1).unwrap().revealed() == false);
}

#[test]
fn flood_fill_cascade_covers_zero_region() {
    let mut field = board(3, 3, &[(2, 2)]);
    let events = field.recursive_square_reveal(0, 0).expect("fresh square");
    assert_eq!(events[0].0, 0);
    assert_eq!(events[0].1, 0);
    assert_eq!(events[0].2, SquareContents::NumMines(0));
    assert_eq!(events.len(), 8);
    for (x, y, content) in &events {
        let expected = if (*x, *y) == (1, 1) || (*x, *y) == (2, 1) || (*x, *y) == (1, 2) {
            SquareContents::NumMines(1)
        } else {
            SquareContents::NumMines(0)
        };
        assert_eq!(*content, expected);
    }
    for q in field.all_squares() {
        if (q.x(), q.y()) == (2, 2) {
            assert!(!q.revealed());
        } else {
            assert!(q.revealed());
        }
    }
}

#[test]
fn reveal_mine_is_single_event() {
    let mut field = board(2, 2, &[(0, 0)]);
    let events = field.recursive_square_reveal(0, 0).expect("fresh square");
    assert_eq!(events.len(), 1);
    assert_eq!(events[0], (0, 0, SquareContents::MineBoom));
}

#[test]
fn reveal_idempotent() {
    let mut field = board(2, 2, &[(1, 1)]);
    assert!(field.recursive_square_reveal(0, 0).is_some());
    assert!(field.recursive_square_reveal(0, 0).is_none());
    assert!(field.recursive_square_reveal(0, 0).is_none());
}

#[test]
fn reveal_out_of_bounds_is_noop() {
    let mut field = board(2, 2, &[(1, 1)]);
    assert!(field.recursive_square_reveal(2, 0).is_none());
    assert!(field.recursive_square_reveal(0, 5).is_none());
    for q in field.all_squares() {
        assert!(!q.revealed());
    }
}

#[test]
fn flag_square_sets_and_clears() {
    let mut field = board(2, 2, &[]);
    assert!(field.flag_square(1, 0, true));
    assert!(field.get_square(1, 0).unwrap().flagged());
    assert!(field.flag_square(1, 0, false));
    assert!(!field.get_square(1, 0).unwrap().flagged());
    assert!(!field.flag_square(5, 0, true));
}

#[test]
fn flags_are_independent_of_reveals() {
    let mut field = board(2, 1, &[(1, 0)]);
    field.flag_square(0, 0, true);
    let events = field.recursive_square_reveal(0, 0).expect("fresh square");
    assert_eq!(events.len(), 1);
    assert!(field.get_square(0, 0).unwrap().flagged());
    assert!(field.get_square(0, 0).unwrap().revealed());
}

#[test]
fn square_neighbors_center_and_corner() {
    let field = board(3, 3, &[(0, 0)]);
    let center = field.square_neighbors(1, 1);
    assert_eq!(center.len(), 8);
    assert_eq!(
        center,
        vec![
            (0, 0, true),
            (1, 0, false),
            (2, 0, false),
            (0, 1, false),
            (2, 1, false),
            (0, 2, false),
            (1, 2, false),
            (2, 2, false),
        ]
    );
    let corner = field.square_neighbors(0, 0);
    assert_eq!(corner, vec![(1, 0, false), (0, 1, false), (1, 1, false)]);
}

#[test]
fn get_square_bounds() {
    let field = board(3, 2, &[]);
    assert!(field.get_square(2, 1).is_some());
    assert!(field.get_square(3, 1).is_none());
    assert!(field.get_square(2, 2).is_none());
}

#[test]
fn get_square_mut_flags_through_reference() {
    let mut field = board(3, 2, &[]);
    assert!(field.get_square_mut(3, 1).is_none());
    field.get_square_mut(2, 1).unwrap().set_flagged(true);
    assert!(field.get_square(2, 1).unwrap().flagged());
}

#[test]
fn failed_reveal_keeps_first_move_protection_pending() {
    let mut field = Minefield::new(3, 3, 1).expect("valid parameters");
    assert!(field.is_first_move);
    assert!(field.recursive_square_reveal(9, 9).is_none());
    assert!(field.is_first_move);
    let events = field.recursive_square_reveal(0, 0).expect("fresh square");
    assert_eq!(events[0].2, SquareContents::NumMines(0));
    assert!(!field.is_first_move);
}

#[test]
fn neighbors_on_one_wide_board() {
    let field = board(1, 3, &[(0, 2)]);
    assert_eq!(
        field.square_neighbors(0, 1),
        vec![(0, 0, false), (0, 2, true)]
    );
}

#[test]
fn square_new_defaults() {
    let q = Square::new(true, 3, 4);
    assert!(q.is_mine);
    assert!(!q.revealed());
    assert!(!q.flagged());
    assert_eq!(q.x(), 3);
    assert_eq!(q.y(), 4);
}
