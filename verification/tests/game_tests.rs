use unit_testris::coord::Coord;
use unit_testris::field::{HEIGHT, WIDTH};
use unit_testris::game::{
    frame_sleep, random_type, shape_from_index, GameImpl, GameInfo, NotRunningError, Orders,
    RunningError, Turn, NANO, TARGET_FPS, VISIBLE_ROWS,
};
use unit_testris::piece::Input;
use unit_testris::shape::Type;

const NOTHING: Orders = Orders { wake: false, join: false, spawn: false };

fn occupied_cells(game: &GameInfo) -> Vec<(i32, i32)> {
    let mut cells = Vec::new();
    for y in 0..HEIGHT as i32 {
        for x in 0..WIDTH as i32 {
            if game.field().get(Coord::new(x, y)).unwrap() {
                cells.push((x, y));
            }
        }
    }
    cells
}

#[test]
fn frame_budget_is_a_sixtieth_of_a_second() {
    assert_eq!(60, TARGET_FPS);
    assert_eq!(1_000_000_000, NANO);
    assert_eq!(16_666_666, frame_sleep(0));
    assert_eq!(16_665_666, frame_sleep(1_000));
    assert_eq!(1, frame_sleep(16_666_665));
    assert_eq!(0, frame_sleep(16_666_666));
    assert_eq!(0, frame_sleep(16_666_667));
    assert_eq!(0, frame_sleep(u64::MAX));
}

#[test]
fn shapes_by_number() {
    assert_eq!(Type::I, shape_from_index(0));
    assert_eq!(Type::J, shape_from_index(1));
    assert_eq!(Type::L, shape_from_index(2));
    assert_eq!(Type::O, shape_from_index(3));
    assert_eq!(Type::S, shape_from_index(4));
    assert_eq!(Type::T, shape_from_index(5));
    assert_eq!(Type::Z, shape_from_index(6));
}

#[test]
fn random_shapes_vary() {
    let mut seen = Vec::new();
    for _ in 0..2000 {
        let t = random_type();
        if !seen.contains(&t) {
            seen.push(t);
        }
    }
    assert_eq!(7, seen.len());
}

#[test]
fn a_game_starts_with_an_empty_field_and_its_first_piece() {
    let game = GameInfo::new(Type::S, 4);
    assert!(occupied_cells(&game).is_empty());
    assert_eq!(0, game.field().read_score());
    assert_eq!(Type::S, game.piece().get_type());
    assert_eq!(Coord::new(4, 20), game.piece().get_center());
    assert_eq!(false, game.is_over());
    assert_eq!(false, game.scan_for_loss());
    assert_eq!(20, VISIBLE_ROWS);
}

#[test]
fn a_locked_piece_is_replaced() {
    let mut game = GameInfo::new(Type::I, 0);
    assert_eq!(true, game.input_step(Input::ShiftLeft, 2, Type::Z));
    assert_eq!(Type::I, game.piece().get_type());
    assert_eq!(Coord::new(4, 20), game.piece().get_center());
    assert_eq!(true, game.input_step(Input::HardDrop, 2, Type::O));
    assert_eq!(vec![(2, 0), (3, 0), (4, 0), (5, 0)], occupied_cells(&game));
    assert_eq!(Type::O, game.piece().get_type());
    assert_eq!(Coord::new(5, 21), game.piece().get_center());
    assert_eq!(false, game.piece().get_lock());
    // the new piece has the lock delay that was asked for: it lands on the
    // first piece with its nineteenth step and rests that step and one more
    assert_eq!(true, game.gravity_step(1, 20, 0, Type::T));
    assert_eq!(Type::O, game.piece().get_type());
    assert_eq!(Coord::new(5, 2), game.piece().get_center());
    assert_eq!(4, occupied_cells(&game).len());
    assert_eq!(true, game.gravity_step(1, 1, 0, Type::T));
    assert_eq!(Type::T, game.piece().get_type());
    assert_eq!(8, occupied_cells(&game).len());
}

#[test]
fn a_lock_is_followed_up_once() {
    let mut game = GameInfo::new(Type::S, 0);
    // without a lock nothing follows
    assert_eq!(true, game.settle(3, Type::Z));
    assert_eq!(Type::S, game.piece().get_type());
    assert_eq!(true, game.input_step(Input::HardDrop, 3, Type::Z));
    assert_eq!(Type::Z, game.piece().get_type());
    assert_eq!(true, game.settle(3, Type::I));
    assert_eq!(Type::Z, game.piece().get_type());
    assert_eq!(4, occupied_cells(&game).len());
}

#[test]
fn a_copy_of_a_game_goes_its_own_way() {
    let mut game = GameInfo::new(Type::T, 0);
    assert!(game.input_step(Input::ShiftLeft, 0, Type::I));
    let mut copy = game.clone();
    assert_eq!(game.piece().get_center(), copy.piece().get_center());
    assert!(copy.input_step(Input::HardDrop, 0, Type::O));
    assert_eq!(4, occupied_cells(&copy).len());
    assert!(occupied_cells(&game).is_empty());
    assert_eq!(Type::T, game.piece().get_type());
    assert_eq!(Coord::new(3, 20), game.piece().get_center());
    // a tick that can be counted is made in full
    assert_eq!(Some(true), game.try_tick(vec![Input::ShiftLeft, Input::HardDrop], 1, 1, 0));
    assert_eq!(vec![(1, 0), (2, 0), (3, 0), (2, 1)], occupied_cells(&game));
}

#[test]
fn gravity_acts_once_per_denominator_ticks() {
    let mut game = GameInfo::new(Type::T, 0);
    let start = game.piece().get_center();
    for round in 1..=4 {
        assert!(game.gravity_step(3, 2, 0, Type::I));
        assert_eq!(start.y - 2 * (round - 1), game.piece().get_center().y);
        assert!(game.gravity_step(3, 2, 0, Type::I));
        assert_eq!(start.y - 2 * (round - 1), game.piece().get_center().y);
        assert!(game.gravity_step(3, 2, 0, Type::I));
        assert_eq!(start.y - 2 * round, game.piece().get_center().y);
    }
    // a denominator of 0 or 1 lets the piece fall with every tick
    let mut game = GameInfo::new(Type::T, 0);
    assert!(game.gravity_step(0, 1, 0, Type::I));
    assert!(game.gravity_step(1, 1, 0, Type::I));
    assert_eq!(start.y - 2, game.piece().get_center().y);
    // a numerator of 0 lets it hang
    assert!(game.gravity_step(1, 0, 0, Type::I));
    assert_eq!(start.y - 2, game.piece().get_center().y);
}

#[test]
fn a_block_above_the_visible_rows_ends_the_game() {
    let mut game = GameInfo::new(Type::O, 0);
    // ten O pieces in the same two columns fill the rows 0 to 19 there
    for drop in 0..10 {
        assert_eq!(false, game.scan_for_loss());
        assert_eq!(true, game.input_step(Input::HardDrop, 0, Type::O), "drop {}", drop);
        assert_eq!(false, game.is_over());
    }
    assert_eq!(40, occupied_cells(&game).len());
    assert_eq!(false, game.scan_for_loss());
    // the next one cannot fall and locks where it came in
    assert_eq!(false, game.input_step(Input::HardDrop, 0, Type::I));
    assert_eq!(true, game.scan_for_loss());
    assert_eq!(true, game.is_over());
    assert_eq!(Type::O, game.piece().get_type());
    assert_eq!(true, game.piece().get_lock());
    assert_eq!(44, occupied_cells(&game).len());
    // a game that is over stays as it is
    assert_eq!(false, game.input_step(Input::ShiftLeft, 0, Type::I));
    assert_eq!(false, game.gravity_step(1, 1, 0, Type::I));
    assert_eq!(false, game.consume_input(vec![Input::RotateCW, Input::HardDrop], 0));
    assert_eq!(false, game.tick(vec![Input::HardDrop], 1, 1, 0));
    assert_eq!(Some(false), game.try_tick(Vec::new(), 1, 1, 0));
    assert_eq!(44, occupied_cells(&game).len());
    assert_eq!(Type::O, game.piece().get_type());

    // over for the callers too: no pause any more
    let mut control = GameImpl::new();
    assert!(control.run().0.is_ok());
    control.game_over();
    assert_eq!(true, control.is_game_over().0);
    assert!(control.pause().0.is_err());
}

#[test]
fn blocks_in_the_top_visible_row_do_not_end_the_game() {
    // nine O pieces and two lying I pieces on top reach row 19
    let mut game = GameInfo::new(Type::O, 0);
    for _ in 0..8 {
        assert!(game.input_step(Input::HardDrop, 0, Type::O));
    }
    assert!(game.input_step(Input::HardDrop, 0, Type::I));
    assert!(game.input_step(Input::HardDrop, 0, Type::I));
    assert!(game.input_step(Input::HardDrop, 0, Type::T));
    assert_eq!(false, game.scan_for_loss());
    assert!(occupied_cells(&game).contains(&(4, 19)));
    assert_eq!(false, game.is_over());
}

#[test]
fn queued_inputs_are_handled_in_their_order() {
    let inputs =
        vec![Input::RotateCCW, Input::RotateCW, Input::ShiftLeft, Input::ShiftRight, Input::HardDrop];
    let mut game = GameInfo::new(Type::L, 0);
    assert_eq!(true, game.consume_input(inputs, 0));
    // back where it started, then dropped
    assert_eq!(vec![(3, 0), (4, 0), (5, 0), (5, 1)], occupied_cells(&game));

    // the order matters: the shift comes before the drop or not at all
    let mut game = GameInfo::new(Type::L, 0);
    assert_eq!(true, game.consume_input(vec![Input::ShiftLeft, Input::HardDrop], 0));
    assert_eq!(vec![(2, 0), (3, 0), (4, 0), (4, 1)], occupied_cells(&game));
    let mut game = GameInfo::new(Type::O, 0);
    assert_eq!(true, game.input_step(Input::HardDrop, 0, Type::L));
    assert_eq!(true, game.consume_input(vec![Input::HardDrop, Input::ShiftLeft], 0));
    assert_eq!(8, occupied_cells(&game).len());
    assert!(occupied_cells(&game).contains(&(3, 2)));
    assert!(!occupied_cells(&game).contains(&(2, 2)));
}

#[test]
fn a_tick_handles_inputs_and_then_gravity() {
    let mut game = GameInfo::new(Type::J, 1);
    assert_eq!(true, game.tick(vec![Input::ShiftRight], 1, 3, 1));
    assert_eq!(Coord::new(5, 17), game.piece().get_center());
    assert_eq!(Some(true), game.try_tick(vec![Input::ShiftLeft, Input::ShiftLeft], 2, 1, 1));
    assert_eq!(Coord::new(3, 17), game.piece().get_center());
    assert_eq!(Some(true), game.try_tick(Vec::new(), 2, 1, 1));
    assert_eq!(Coord::new(3, 16), game.piece().get_center());
    // pieces that enter through a tick have one of the seven shapes and the
    // lock delay that was handed in
    assert_eq!(Some(true), game.try_tick(vec![Input::HardDrop], 100, 1, 7));
    assert_eq!(4, occupied_cells(&game).len());
    assert_eq!(false, game.piece().get_lock());
    let spawned = game.piece().get_center();
    assert!(spawned == Coord::new(4, 20) || spawned == Coord::new(5, 20) || spawned == Coord::new(5, 21));
}

#[test]
fn game_test_new() {
    // check that the constructor doesn't panic
    let _test_game: GameImpl = GameImpl::new();
}

#[test]
fn test_exceptions() {
    let mut test_game: GameImpl = GameImpl::new();
    assert!(test_game.queue_input(Input::ShiftRight).0.is_err());
    assert!(test_game.pause().0.is_err());

    assert!(test_game.run().0.is_ok());

    assert!(test_game.set_renderer().0.is_err());
    assert!(test_game.run().0.is_err());
}

#[test]
fn a_new_game_rests_with_its_defaults() {
    let mut control = GameImpl::new();
    assert_eq!(0, control.lock_delay());
    assert!(matches!(control.begin_tick(), Turn::Exit));
    // a game that never ran has lost nothing
    let (over, orders) = control.is_game_over();
    assert!(!over);
    // the pause that a new game starts in is lifted, though nothing waits
    assert_eq!(Orders { wake: true, join: false, spawn: false }, orders);
    let (result, orders) = control.run();
    assert!(result.is_ok());
    assert_eq!(Orders { wake: false, join: false, spawn: true }, orders);
    match control.begin_tick() {
        Turn::Run { queue, denominator, numerator, lock_delay } => {
            assert!(queue.is_empty());
            assert_eq!((15, 1, 0), (denominator, numerator, lock_delay));
        }
        other => panic!("{:?}", other),
    }
}

#[test]
fn run_and_pause_take_turns() {
    let mut control = GameImpl::new();
    let (result, orders) = control.run();
    assert!(result.is_ok());
    assert_eq!(Orders { wake: true, join: false, spawn: true }, orders);
    assert_eq!((true, NOTHING), control.is_game_running());
    assert_eq!((false, NOTHING), control.is_game_over());
    let (result, orders) = control.run();
    assert!(matches!(result, Err(RunningError)));
    assert_eq!(NOTHING, orders);

    let (result, orders) = control.pause();
    assert!(result.is_ok());
    assert_eq!(NOTHING, orders);
    assert!(matches!(control.begin_tick(), Turn::Wait));
    assert_eq!((false, NOTHING), control.is_game_running());
    // paused is not over
    assert_eq!((false, NOTHING), control.is_game_over());
    let (result, orders) = control.pause();
    assert!(matches!(result, Err(NotRunningError)));
    assert_eq!(NOTHING, orders);

    // the paused loop is woken, not started again
    let (result, orders) = control.run();
    assert!(result.is_ok());
    assert_eq!(Orders { wake: true, join: false, spawn: false }, orders);
    assert!(matches!(control.begin_tick(), Turn::Run { .. }));
}

#[test]
fn settings_change_only_while_the_game_does_not_run() {
    let mut control = GameImpl::new();
    assert!(control.set_step_ratio(3, 2).0.is_ok());
    assert!(control.set_lock_delay(9).0.is_ok());
    assert!(control.set_renderer().0.is_ok());
    assert!(control.run().0.is_ok());
    assert!(matches!(control.set_step_ratio(1, 1).0, Err(RunningError)));
    assert!(matches!(control.set_lock_delay(1).0, Err(RunningError)));
    assert!(matches!(control.set_renderer().0, Err(RunningError)));
    assert_eq!(9, control.lock_delay());
    match control.begin_tick() {
        Turn::Run { denominator, numerator, lock_delay, .. } => {
            assert_eq!((3, 2, 9), (denominator, numerator, lock_delay));
        }
        other => panic!("{:?}", other),
    }
    assert!(control.pause().0.is_ok());
    assert!(control.set_step_ratio(1, 4).0.is_ok());
    assert!(control.set_lock_delay(0).0.is_ok());
    assert!(control.set_renderer().0.is_ok());
    assert!(control.run().0.is_ok());
    match control.begin_tick() {
        Turn::Run { denominator, numerator, lock_delay, .. } => {
            assert_eq!((1, 4, 0), (denominator, numerator, lock_delay));
        }
        other => panic!("{:?}", other),
    }
}

#[test]
fn queued_inputs_reach_the_loop_in_their_order() {
    let inputs =
        [Input::RotateCCW, Input::RotateCW, Input::ShiftLeft, Input::ShiftRight, Input::HardDrop];
    let mut control = GameImpl::new();
    assert!(matches!(control.queue_input(Input::HardDrop).0, Err(NotRunningError)));
    assert!(control.run().0.is_ok());
    for input in inputs {
        assert!(control.queue_input(input).0.is_ok());
    }
    assert!(control.pause().0.is_ok());
    // nothing is handed out while the game is paused, and nothing is lost
    assert!(matches!(control.begin_tick(), Turn::Wait));
    assert!(matches!(control.queue_input(Input::HardDrop).0, Err(NotRunningError)));
    assert!(control.run().0.is_ok());
    match control.begin_tick() {
        Turn::Run { queue, .. } => assert_eq!(inputs.to_vec(), queue),
        other => panic!("{:?}", other),
    }
    // each input is handed out once
    match control.begin_tick() {
        Turn::Run { queue, .. } => assert!(queue.is_empty()),
        other => panic!("{:?}", other),
    }
}

#[test]
fn the_end_of_a_game_is_seen_and_cleaned_up() {
    let mut control = GameImpl::new();
    assert!(control.run().0.is_ok());
    // the loop finds the game lost
    control.game_over();
    assert!(matches!(control.begin_tick(), Turn::Exit));
    let (running, orders) = control.is_game_running();
    assert_eq!(false, running);
    // the loop that has ended is waited for, once
    assert_eq!(Orders { wake: false, join: true, spawn: false }, orders);
    assert_eq!((true, NOTHING), control.is_game_over());
    assert!(matches!(control.pause().0, Err(NotRunningError)));
    assert!(matches!(control.queue_input(Input::HardDrop).0, Err(NotRunningError)));
    // a new run starts a new loop
    let (result, orders) = control.run();
    assert!(result.is_ok());
    assert_eq!(Orders { wake: false, join: false, spawn: true }, orders);
    assert_eq!((false, NOTHING), control.is_game_over());
}

#[test]
fn ending_a_game_wakes_and_joins_its_loop() {
    let mut control = GameImpl::new();
    assert!(control.run().0.is_ok());
    assert!(control.pause().0.is_ok());
    assert_eq!(Orders { wake: true, join: true, spawn: false }, control.end_game());
    assert!(matches!(control.begin_tick(), Turn::Exit));
    assert_eq!(NOTHING, control.end_game());
    let mut control = GameImpl::new();
    assert!(control.run().0.is_ok());
    assert_eq!(Orders { wake: false, join: true, spawn: false }, control.end_game());
    // ended by its caller, not by a loss
    assert_eq!((false, NOTHING), control.is_game_over());
    // a loss stays a loss when the game is ended, until a new game runs
    let mut control = GameImpl::new();
    assert!(control.run().0.is_ok());
    control.game_over();
    control.end_game();
    assert_eq!((true, NOTHING), control.is_game_over());
    assert!(control.run().0.is_ok());
    assert_eq!((false, NOTHING), control.is_game_over());
}

#[test]
fn game_errors_describe_themselves() {
    assert_eq!("Attempt to call a configuration function during run.", RunningError.description());
    assert_eq!(
        "Attempt to call a control function on a game which is not running.",
        NotRunningError.description()
    );
}
