use std::collections::HashSet;
use unit_testris::coord::Coord;
use unit_testris::field::{Field, HEIGHT, WIDTH};
use unit_testris::piece::{IField, Input, LockError, Piece, PieceImpl};
use unit_testris::shape::Type;

const ALL_TYPES: [Type; 7] = [Type::I, Type::J, Type::L, Type::O, Type::S, Type::T, Type::Z];

fn cell(field: &Field, x: i32, y: i32) -> bool {
    field.get(Coord::new(x, y)).unwrap()
}

fn occupied_cells(field: &Field) -> Vec<(i32, i32)> {
    let mut cells = Vec::new();
    for y in 0..HEIGHT as i32 {
        for x in 0..WIDTH as i32 {
            if cell(field, x, y) {
                cells.push((x, y));
            }
        }
    }
    cells
}

fn as_set(blocks: &[Coord; 4]) -> HashSet<Coord> {
    blocks.iter().cloned().collect()
}

/// The shape of four blocks, wherever it lies: the offsets from the block
/// that comes first by column, then by row.
fn outline(blocks: &[Coord; 4]) -> Vec<(i32, i32)> {
    let mut cells: Vec<(i32, i32)> = blocks.iter().map(|c| (c.x, c.y)).collect();
    cells.sort();
    let first = cells[0];
    cells.iter().map(|c| (c.0 - first.0, c.1 - first.1)).collect()
}

#[test]
fn quarter_turns_of_a_point() {
    assert_eq!(Coord { x: 2, y: -1 }, PieceImpl::cw(&Coord::new(1, 2)));
    assert_eq!(Coord { x: -2, y: 1 }, PieceImpl::ccw(&Coord::new(1, 2)));
    assert_eq!(Coord { x: 0, y: 0 }, PieceImpl::cw(&Coord::new(0, 0)));
    assert_eq!(Coord { x: -3, y: 4 }, PieceImpl::cw(&Coord::new(-4, -3)));
    assert_eq!(Coord { x: 3, y: -4 }, PieceImpl::ccw(&Coord::new(-4, -3)));
}

/// The squares of the distances between the blocks, pair by pair.
fn distances(blocks: &[Coord; 4]) -> Vec<i32> {
    let mut all = Vec::new();
    for i in 0..4 {
        for j in (i + 1)..4 {
            let (dx, dy) = (blocks[i].x - blocks[j].x, blocks[i].y - blocks[j].y);
            all.push(dx * dx + dy * dy);
        }
    }
    all
}

#[test]
fn four_turns_keep_the_figure_and_close_the_circle() {
    for t in ALL_TYPES {
        for input in [Input::RotateCW, Input::RotateCCW] {
            let mut field = Field::new();
            let mut piece = Piece::new(t, 5);
            assert_eq!(false, piece.time_step(&mut field, 5).unwrap());
            let start = piece.get_blocks();
            for turn in 1..=4 {
                assert_eq!(false, piece.handle_input(&mut field, input).unwrap());
                let blocks = piece.get_blocks();
                assert_eq!(4, as_set(&blocks).len());
                assert_eq!(distances(&start), distances(&blocks), "{:?} turn {}", t, turn);
                if t == Type::O {
                    assert_eq!(start, blocks);
                }
            }
            assert_eq!(start, piece.get_blocks());
        }
    }
    // the I lies and stands in turn
    let piece = Piece::new(Type::I, 0);
    assert_eq!(vec![1, 4, 9, 1, 4, 1], distances(&piece.get_blocks()));
}

#[test]
fn blocks_are_four_different_cells_in_every_orientation() {
    for t in ALL_TYPES {
        for input in [Input::RotateCW, Input::RotateCCW] {
            let mut field = Field::new();
            let mut piece = Piece::new(t, 5);
            // away from the ceiling, so that every turn has room
            assert_eq!(false, piece.time_step(&mut field, 5).unwrap());
            let start = outline(&piece.get_blocks());
            let mut seen = Vec::new();
            for _ in 0..4 {
                let blocks = piece.get_blocks();
                assert_eq!(4, as_set(&blocks).len(), "{:?}", piece);
                seen.push(outline(&blocks));
                assert_eq!(false, piece.handle_input(&mut field, input).unwrap());
                assert_eq!(t, piece.get_type());
            }
            // the fourth turn closes the circle
            assert_eq!(start, outline(&piece.get_blocks()));
            if t == Type::O {
                assert!(seen.iter().all(|s| *s == start));
            }
        }
    }
}

#[test]
fn a_turn_and_the_turn_back_change_nothing() {
    for t in ALL_TYPES {
        for (there, back) in
            [(Input::RotateCW, Input::RotateCCW), (Input::RotateCCW, Input::RotateCW)]
        {
            let mut field = Field::new();
            let mut piece = PieceImpl::new(t, 3);
            piece.time_step(&mut field, 7).unwrap();
            piece.handle_input(&mut field, Input::ShiftLeft).unwrap();
            for _ in 0..4 {
                let before = piece.get_blocks();
                let center = piece.get_center();
                piece.handle_input(&mut field, there).unwrap();
                if t != Type::O {
                    assert_ne!(as_set(&before), as_set(&piece.get_blocks()));
                }
                piece.handle_input(&mut field, back).unwrap();
                assert_eq!(before, piece.get_blocks());
                assert_eq!(center, piece.get_center());
                // go on from the next orientation
                piece.handle_input(&mut field, there).unwrap();
            }
        }
    }
}

#[test]
fn a_blocked_turn_changes_nothing() {
    let mut field = Field::new();
    let mut piece = PieceImpl::new(Type::I, 0);
    // upright, the I would reach from row 18 to row 21 in column 5
    field.set(Coord::new(5, 18)).unwrap();
    let before = piece.get_blocks();
    assert_eq!(false, piece.handle_input(&mut field, Input::RotateCW).unwrap());
    assert_eq!(before, piece.get_blocks());
    // the other way it stands in column 4
    assert_eq!(false, piece.handle_input(&mut field, Input::RotateCCW).unwrap());
    assert_eq!(
        as_set(&[Coord::new(4, 18), Coord::new(4, 19), Coord::new(4, 20), Coord::new(4, 21)]),
        as_set(&piece.get_blocks())
    );
}

#[test]
fn falls_one_row_per_step_then_rests_for_its_lock_delay() {
    for t in ALL_TYPES {
        let delay = 3;
        let mut field = Field::new();
        let mut piece = Piece::new(t, delay);
        let start = piece.get_center();
        for step in 1..20 {
            assert_eq!(false, piece.time_step(&mut field, 1).unwrap());
            assert_eq!(Coord { x: start.x, y: start.y - step }, piece.get_center());
        }
        // the step that lands is the first of the steps at rest
        assert_eq!(false, piece.time_step(&mut field, 1).unwrap());
        let landed = Coord { x: start.x, y: start.y - 20 };
        assert_eq!(landed, piece.get_center());
        for _ in 1..delay {
            assert_eq!(false, piece.time_step(&mut field, 1).unwrap());
            assert_eq!(landed, piece.get_center());
            assert!(occupied_cells(&field).is_empty());
        }
        assert_eq!(true, piece.time_step(&mut field, 1).unwrap());
        assert_eq!(landed, piece.get_center());
        assert_eq!(4, occupied_cells(&field).len());
        assert_eq!(Err(LockError), piece.time_step(&mut field, 1));
        assert_eq!(Err(LockError), piece.handle_input(&mut field, Input::ShiftLeft));
    }
}

#[test]
fn a_resting_piece_locks_after_delay_plus_one_steps() {
    let mut field = Field::new();
    let mut piece = Piece::new(Type::T, 2);
    assert_eq!(false, piece.time_step(&mut field, 21).unwrap());
    // it has rested for two steps; one more finds the delay used up
    let mut rested = Piece::new(Type::T, 2);
    let mut other = Field::new();
    assert_eq!(true, rested.time_step(&mut other, 22).unwrap());
    assert_eq!(true, piece.time_step(&mut field, 1).unwrap());
    assert_eq!(occupied_cells(&other), occupied_cells(&field));
}

#[test]
fn many_steps_at_once_are_the_steps_one_by_one() {
    for t in ALL_TYPES {
        for total in [0u32, 1, 7, 19, 20, 21, 22, 23, 40] {
            let mut at_once_field = Field::new();
            let mut at_once = Piece::new(t, 2);
            let locked = at_once.time_step(&mut at_once_field, total).unwrap();
            let mut single_field = Field::new();
            let mut single = Piece::new(t, 2);
            let mut single_locked = false;
            for _ in 0..total {
                match single.time_step(&mut single_field, 1) {
                    Ok(l) => single_locked = l,
                    Err(LockError) => break,
                }
            }
            assert_eq!(locked, single_locked);
            assert_eq!(at_once.get_center(), single.get_center());
            assert_eq!(at_once.get_blocks(), single.get_blocks());
            assert_eq!(occupied_cells(&at_once_field), occupied_cells(&single_field));
        }
    }
}

#[test]
fn hard_drop_on_empty_field_rests_on_the_floor_and_locks() {
    for t in ALL_TYPES {
        for delay in [0u32, 1, 60, 1000] {
            let mut field = Field::new();
            let mut piece = Piece::new(t, delay);
            let start = piece.get_center();
            let before = piece.get_blocks();
            assert_eq!(Ok(true), piece.handle_input(&mut field, Input::HardDrop));
            let blocks = piece.get_blocks();
            assert_eq!(0, blocks.iter().map(|c| c.y).min().unwrap());
            let floor = if t == Type::O { 1 } else { 0 };
            assert_eq!(Coord { x: start.x, y: floor }, piece.get_center());
            for i in 0..4 {
                assert_eq!(Coord { x: before[i].x, y: before[i].y - 20 }, blocks[i]);
                assert!(cell(&field, blocks[i].x, blocks[i].y));
            }
            assert_eq!(4, occupied_cells(&field).len());
            assert_eq!(Err(LockError), piece.handle_input(&mut field, Input::HardDrop));
        }
    }
}

#[test]
fn i_piece_end_to_end() {
    // with no grace the step that lands the piece locks it
    let mut field = Field::new();
    let mut piece = Piece::new(Type::I, 0);
    for _ in 0..19 {
        assert_eq!(Ok(false), piece.time_step(&mut field, 1));
        assert!(occupied_cells(&field).is_empty());
    }
    assert_eq!(Ok(true), piece.time_step(&mut field, 1));
    assert_eq!(vec![(3, 0), (4, 0), (5, 0), (6, 0)], occupied_cells(&field));
    assert_eq!(0, field.read_score());

    // with one step of grace all twenty steps leave it unlocked
    let mut field = Field::new();
    let mut piece = Piece::new(Type::I, 1);
    for _ in 0..20 {
        assert_eq!(Ok(false), piece.time_step(&mut field, 1));
    }
    assert!(occupied_cells(&field).is_empty());
    assert_eq!(Ok(true), piece.time_step(&mut field, 1));
    assert_eq!(vec![(3, 0), (4, 0), (5, 0), (6, 0)], occupied_cells(&field));
}

#[test]
fn locking_clears_the_rows_that_it_fills() {
    let mut field = Field::new();
    for x in [0, 1, 2, 7, 8, 9] {
        field.set(Coord::new(x, 0)).unwrap();
    }
    field.set(Coord::new(0, 1)).unwrap();
    let mut piece = Piece::new(Type::I, 0);
    assert_eq!(Ok(true), piece.handle_input(&mut field, Input::HardDrop));
    assert_eq!(1, field.read_score());
    assert_eq!(vec![(0, 0)], occupied_cells(&field));
}

#[test]
fn locking_an_upright_piece_clears_several_rows() {
    let mut field = Field::new();
    for y in 0..4 {
        for x in 0..WIDTH as i32 {
            if x != 4 {
                field.set(Coord::new(x, y)).unwrap();
            }
        }
    }
    field.set(Coord::new(0, 4)).unwrap();
    let mut piece = Piece::new(Type::I, 0);
    // stands in column 4
    assert_eq!(Ok(false), piece.handle_input(&mut field, Input::RotateCCW));
    assert_eq!(Ok(true), piece.handle_input(&mut field, Input::HardDrop));
    assert_eq!(4, field.read_score());
    assert_eq!(vec![(0, 0)], occupied_cells(&field));
}

#[test]
fn a_piece_lands_on_blocks() {
    let mut field = Field::new();
    field.set(Coord::new(4, 9)).unwrap();
    let mut piece = Piece::new(Type::O, 0);
    assert_eq!(Ok(true), piece.time_step(&mut field, 100));
    assert_eq!(Coord { x: 5, y: 11 }, piece.get_center());
    assert_eq!(vec![(4, 9), (4, 10), (5, 10), (4, 11), (5, 11)], occupied_cells(&field));
}

#[test]
fn shifts_stop_at_walls_and_blocks() {
    let mut field = Field::new();
    field.set(Coord::new(8, 20)).unwrap();
    let mut piece = Piece::new(Type::T, 0);
    for _ in 0..10 {
        assert_eq!(Ok(false), piece.handle_input(&mut field, Input::ShiftRight));
    }
    // the block at (8, 20) stops the right arm at column 7
    assert_eq!(Coord { x: 6, y: 20 }, piece.get_center());
    for _ in 0..10 {
        assert_eq!(Ok(false), piece.handle_input(&mut field, Input::ShiftLeft));
    }
    assert_eq!(Coord { x: 1, y: 20 }, piece.get_center());
}

/// A field that only records what is put into it.
struct Recorder {
    log: Vec<Coord>,
}

impl IField for Recorder {
    type Model = Vec<Coord>;

    fn model(&self) -> Vec<Coord> {
        self.log.clone()
    }

    fn occupied(_m: Vec<Coord>, _c: Coord) -> bool {
        false
    }

    fn settable(_m: Vec<Coord>, _c: Coord) -> bool {
        true
    }

    fn set_result(_m: Vec<Coord>, _c: Coord) -> Result<(), unit_testris::field::Error> {
        Ok(())
    }

    fn after_set(m: Vec<Coord>, c: Coord) -> Vec<Coord> {
        let mut next = m;
        next.push(c);
        next
    }

    fn get(&self, c: Coord) -> Result<bool, unit_testris::field::SizeError> {
        if c.x < 0 || c.y < 0 || c.x >= WIDTH as i32 || c.y >= HEIGHT as i32 {
            Err(unit_testris::field::SizeError)
        } else {
            Ok(false)
        }
    }

    fn set(&mut self, c: Coord) -> Result<(), unit_testris::field::Error> {
        self.log.push(c);
        Ok(())
    }
}

#[test]
fn blocks_go_into_the_field_from_the_highest_row_down() {
    let mut field = Recorder { log: Vec::new() };
    let mut piece = PieceImpl::new(Type::T, 0);
    assert_eq!(Ok(true), piece.handle_input(&mut field, Input::HardDrop));
    // the blocks of one row keep the order in which the piece holds them
    assert_eq!(
        vec![Coord::new(4, 1), Coord::new(3, 0), Coord::new(4, 0), Coord::new(5, 0)],
        field.log
    );

    let mut field = Recorder { log: Vec::new() };
    let mut piece = PieceImpl::new(Type::I, 0);
    assert_eq!(Ok(false), piece.handle_input(&mut field, Input::RotateCW));
    assert_eq!(Ok(true), piece.handle_input(&mut field, Input::HardDrop));
    assert_eq!(
        vec![Coord::new(5, 3), Coord::new(5, 2), Coord::new(5, 1), Coord::new(5, 0)],
        field.log
    );

    let mut field = Recorder { log: Vec::new() };
    let mut piece = PieceImpl::new(Type::L, 0);
    assert_eq!(Ok(false), piece.handle_input(&mut field, Input::RotateCCW));
    assert_eq!(Ok(true), piece.handle_input(&mut field, Input::HardDrop));
    let rows: Vec<i32> = field.log.iter().map(|c| c.y).collect();
    assert_eq!(vec![2, 2, 1, 0], rows);
}

#[test]
fn collision_queries() {
    let mut field = Field::new();
    let piece = PieceImpl::new(Type::J, 0);
    assert!(piece.can_place(&field, &piece.get_blocks()));
    assert!(piece.can_drop(&field));
    assert!(piece.can_shift(&field, &Coord::new(-1, 0)));
    assert!(piece.can_shift(&field, &Coord::new(3, -20)));
    assert!(!piece.can_shift(&field, &Coord::new(0, 1)));
    assert!(!piece.can_shift(&field, &Coord::new(-4, 0)));
    assert!(!piece.can_shift(&field, &Coord::new(1000, -1000)));
    assert!(!piece.can_place(
        &field,
        &[Coord::new(0, 0), Coord::new(1, 0), Coord::new(2, 0), Coord::new(10, 0)]
    ));
    field.set(Coord::new(4, 19)).unwrap();
    assert!(!piece.can_drop(&field));
    assert!(piece.can_shift(&field, &Coord::new(0, 0)));
    assert!(!piece.can_place(
        &field,
        &[Coord::new(4, 19), Coord::new(1, 0), Coord::new(2, 0), Coord::new(3, 0)]
    ));
    assert_eq!(false, piece.get_lock());
}

#[test]
fn a_piece_fits_where_its_cells_are_free() {
    let mut field = Field::new();
    let piece = Piece::new(Type::Z, 0);
    assert!(piece.fits(&field));
    field.set(Coord::new(9, 21)).unwrap();
    assert!(piece.fits(&field));
    field.set(Coord::new(4, 21)).unwrap();
    assert!(!piece.fits(&field));
    assert_eq!(false, piece.get_lock());
}

#[test]
fn lock_error_describes_itself() {
    assert_eq!("Piece is already locked!", LockError.description());
}
