use unit_testris::coord::Coord;
use unit_testris::field::{Error, Field, HEIGHT, WIDTH};

const FIELD_HEND: usize = HEIGHT - 1;
const FIELD_WEND: usize = WIDTH - 1;

fn panic_unless_size(e: &Error) {
    match e {
        &Error::DuplicateBlock(_) => panic!("Wrong error!"),
        &Error::Size(_) => {} //OK
    }
}

fn panic_unless_dup(e: &Error) {
    match e {
        &Error::DuplicateBlock(_) => {} //OK
        &Error::Size(_) => panic!("Wrong error!"),
    }
}

fn repeatable_asserts(field: &Field) {
    for i in 0..WIDTH {
        for j in 0..HEIGHT {
            let got = field.get(Coord::new(i as i32, j as i32)).unwrap();
            // expect upper blocks to drop by 1
            let previous_left: (usize, usize) = (0, HEIGHT - 2);
            let previous_right: (usize, usize) = (WIDTH - 1, HEIGHT - 2);
            let expected_left: (usize, usize) = (0, HEIGHT - 3);
            let expected_right: (usize, usize) = (WIDTH - 1, HEIGHT - 3);
            // expect block below removed line to not drop
            let expected_unchanged: (usize, usize) = (5, 2);
            let unexpected_change: (usize, usize) = (5, 1);
            let at = (i, j);
            if at == expected_left || at == expected_right || at == expected_unchanged {
                assert!(got)
            } else if at == previous_left || at == previous_right || at == unexpected_change {
                assert_eq!(false, got)
            } else {
                assert_eq!(false, got)
            }
        }
    }
}

#[test]
fn field_test_new() {
    let test_field = Field::new();
    for j in 0..HEIGHT {
        for i in 0..WIDTH {
            assert_eq!(false, test_field.get(Coord::new(i as i32, j as i32)).unwrap())
        }
    }
}

#[test]
fn test_from_rectangular_vector() {
    let mut test_input: Vec<Vec<bool>> = Vec::new();
    // size, and set to all false
    test_input.resize(WIDTH, Vec::new());
    for column in &mut test_input {
        column.resize(HEIGHT, false)
    }
    // empty field
    {
        let test_field = Field::from_rectangular_vector(&test_input).unwrap();
        for j in 0..HEIGHT {
            for i in 0..WIDTH {
                assert_eq!(false, test_field.get(Coord::new(i as i32, j as i32)).unwrap())
            }
        }
    }
    // check extreme corners
    test_input[0][0] = true;
    test_input[FIELD_WEND][FIELD_HEND] = true;
    {
        let test_field = Field::from_rectangular_vector(&test_input).unwrap();
        for j in 0..HEIGHT {
            for i in 0..WIDTH {
                match (i, j) {
                    (0, 0) | (FIELD_WEND, FIELD_HEND) => {
                        assert!(test_field.get(Coord::new(i as i32, j as i32)).unwrap())
                    }
                    _ => assert_eq!(
                        false,
                        test_field.get(Coord::new(i as i32, j as i32)).unwrap()
                    ),
                }
            }
        }
    }
    // a non-full row placed over a full row. The non-full row should drop into the space opened when the full row is cleared.
    for j in 0..HEIGHT {
        for i in 0..WIDTH {
            match (i, j) {
                (_, 0) => test_input[i][j] = true,
                (_, 1) => test_input[i][j] = i % 2 == 0,
                _ => test_input[i][j] = false,
            }
        }
    }
    {
        let test_field = Field::from_rectangular_vector(&test_input).unwrap();
        for j in 0..HEIGHT {
            for i in 0..WIDTH {
                match (i, j) {
                    (_, 0) => assert_eq!(
                        i % 2 == 0,
                        test_field.get(Coord::new(i as i32, j as i32)).unwrap()
                    ),
                    _ => assert_eq!(
                        false,
                        test_field.get(Coord::new(i as i32, j as i32)).unwrap()
                    ),
                }
            }
        }
    }
    // Clear multiple rows.
    // Three full rows, two contiguous, one non contiguous,
    // and a row with alternating empty and full blocks above.
    // The row with alternating blocks should shift down 3 as the full
    // rows beneath it are removed.
    for j in 0..HEIGHT {
        for i in 0..WIDTH {
            match (i, j) {
                (_, 1) | (_, 2) | (_, 5) => test_input[i][j] = true,
                (_, 6) => test_input[i][j] = i % 2 != 0,
                _ => test_input[i][j] = false,
            }
        }
    }
    {
        let test_field = Field::from_rectangular_vector(&test_input).unwrap();
        for j in 0..HEIGHT {
            for i in 0..WIDTH {
                match (i, j) {
                    (_, 3) => assert_eq!(
                        i % 2 != 0,
                        test_field.get(Coord::new(i as i32, j as i32)).unwrap()
                    ),
                    _ => assert_eq!(
                        false,
                        test_field.get(Coord::new(i as i32, j as i32)).unwrap()
                    ),
                }
            }
        }
    }
    // Full column.
    for j in 0..HEIGHT {
        for i in 0..WIDTH {
            test_input[i][j] = i == 0
        }
    }
    {
        let test_field = Field::from_rectangular_vector(&test_input).unwrap();
        for j in 0..HEIGHT {
            for i in 0..WIDTH {
                assert_eq!(i == 0, test_field.get(Coord::new(i as i32, j as i32)).unwrap())
            }
        }
    }
    // All rows full. The full rows should clear.
    for x in &mut test_input {
        x.clear();
        x.resize(HEIGHT, true)
    }
    {
        let test_field = Field::from_rectangular_vector(&test_input).unwrap();
        for j in 0..HEIGHT {
            for i in 0..WIDTH {
                assert_eq!(false, test_field.get(Coord::new(i as i32, j as i32)).unwrap())
            }
        }
    }
    // test for errors

    // error if clear
    test_input.clear();
    {
        let test_result = Field::from_rectangular_vector(&test_input);
        assert!(test_result.is_err());
    }
    // error if not WIDTH columns
    test_input.resize(WIDTH + 1, ::std::default::Default::default());
    for column in &mut test_input {
        column.resize(HEIGHT, false)
    }
    {
        let test_result = Field::from_rectangular_vector(&test_input);
        assert!(test_result.is_err())
    }
    test_input.resize(WIDTH - 1, ::std::default::Default::default());
    {
        let test_result = Field::from_rectangular_vector(&test_input);
        assert!(test_result.is_err())
    }
    // error if not every column is HEIGHT
    test_input.resize(WIDTH, ::std::default::Default::default()); // test_input[FIELD_WEND] is empty
    {
        let test_result = Field::from_rectangular_vector(&test_input);
        assert!(test_result.is_err())
    }
    test_input[FIELD_WEND].resize(HEIGHT, false);
    test_input[0].clear();
    {
        let test_result = Field::from_rectangular_vector(&test_input);
        assert!(test_result.is_err())
    }
    test_input[0].resize(HEIGHT, false);
    test_input[5].clear();
    {
        let test_result = Field::from_rectangular_vector(&test_input);
        assert!(test_result.is_err())
    }
    test_input[5].resize(HEIGHT + 1, false);
    {
        let test_result = Field::from_rectangular_vector(&test_input);
        assert!(test_result.is_err())
    }
    test_input[5].resize(HEIGHT - 1, false);
    {
        let test_result = Field::from_rectangular_vector(&test_input);
        assert!(test_result.is_err())
    }
}

#[test]
fn test_from_rectangular_array() {
    let mut test_input: [[bool; HEIGHT]; WIDTH] = Default::default();
    // empty field
    {
        let test_field = Field::from_rectangular_array(&test_input);
        for i in 0..WIDTH {
            for j in 0..HEIGHT {
                assert_eq!(false, test_field.get(Coord::new(i as i32, j as i32)).unwrap())
            }
        }
    }
    // check extreme corners
    test_input[0][0] = true;
    test_input[FIELD_WEND][FIELD_HEND] = true;
    {
        let test_field = Field::from_rectangular_array(&test_input);
        for i in 0..WIDTH {
            for j in 0..HEIGHT {
                match (i, j) {
                    (0, 0) | (FIELD_WEND, FIELD_HEND) => {
                        assert!(test_field.get(Coord::new(i as i32, j as i32)).unwrap())
                    }
                    _ => {
                        assert_eq!(false, test_field.get(Coord::new(i as i32, j as i32)).unwrap())
                    }
                }
            }
        }
    }
    // Place blocks over a full row. The blocks should drop on row when the full row is cleared.
    for j in 0..HEIGHT {
        for i in 0..WIDTH {
            match (i, j) {
                (_, 0) => test_input[i][j] = true,
                (_, 1) => test_input[i][j] = i % 2 == 0,
                _ => test_input[i][j] = false,
            }
        }
    }
    {
        let test_field = Field::from_rectangular_array(&test_input);
        for i in 0..WIDTH {
            for j in 0..HEIGHT {
                let got = test_field.get(Coord::new(i as i32, j as i32)).unwrap();
                if j == 0 {
                    assert_eq!(i % 2 == 0, got)
                } else {
                    assert_eq!(false, got)
                }
            }
        }
    }
    // Clear multiple rows.
    // Three full rows, two contiguous, one non contiguous,
    // and a row with alternating empty and full blocks above.
    // The row with alternating blocks should shift down 3 as the full
    // rows beneath it are removed.
    for i in 0..WIDTH {
        for j in 0..HEIGHT {
            match (i, j) {
                (_, 1) | (_, 2) | (_, 5) => test_input[i][j] = true,
                (_, 6) => test_input[i][j] = i % 2 != 0,
                _ => test_input[i][j] = false,
            }
        }
    }
    {
        let test_field = Field::from_rectangular_array(&test_input);
        for i in 0..WIDTH {
            for j in 0..HEIGHT {
                let got = test_field.get(Coord::new(i as i32, j as i32)).unwrap();
                if j == 3 {
                    assert_eq!(i % 2 != 0, got)
                } else {
                    assert_eq!(false, got)
                }
            }
        }
    }
    // Full column.
    for i in 0..WIDTH {
        for j in 0..HEIGHT {
            test_input[i][j] = i == 0
        }
    }
    {
        let test_field = Field::from_rectangular_array(&test_input);
        for i in 0..WIDTH {
            for j in 0..HEIGHT {
                assert_eq!(i == 0, test_field.get(Coord::new(i as i32, j as i32)).unwrap())
            }
        }
    }
    // All full, all clear.
    for column in test_input.iter_mut() {
        for cell in column.iter_mut() {
            *cell = true;
        }
    }
    {
        let test_field = Field::from_rectangular_array(&test_input);
        for i in 0..WIDTH {
            for j in 0..HEIGHT {
                assert_eq!(false, test_field.get(Coord::new(i as i32, j as i32)).unwrap())
            }
        }
    }
}

#[test]
fn test_get_bounds() {
    let h_end: i32 = (HEIGHT + 2) as i32;
    let w_end: i32 = (WIDTH + 2) as i32;
    let test_field = Field::new();
    for i in -2..w_end {
        for j in -2..h_end {
            if i < 0 || j < 0 || i >= WIDTH as i32 || j >= HEIGHT as i32 {
                assert!(test_field.get(Coord::new(i, j)).is_err())
            } else {
                assert!(test_field.get(Coord::new(i, j)).is_ok())
            }
        }
    }
}

#[test]
fn test_set() {
    let mut test_field = Field::new();
    // check that corners set correctly
    assert!(test_field.set(Coord::new(0, 0)).is_ok());
    assert!(test_field.get(Coord::new(0, 0)).unwrap());
    assert!(test_field.set(Coord::new(0, (HEIGHT - 1) as i32)).is_ok());
    assert!(test_field.get(Coord::new(0, (HEIGHT - 1) as i32)).unwrap());
    assert!(test_field.set(Coord::new((WIDTH - 1) as i32, 0)).is_ok());
    assert!(test_field.get(Coord::new((WIDTH - 1) as i32, 0)).unwrap());
    assert!(test_field.set(Coord::new((WIDTH - 1) as i32, (HEIGHT - 1) as i32)).is_ok());

    // Check line removal, including downward movement of lines.
    for i in 1..(WIDTH - 1) {
        let result = test_field.set(Coord::new(i as i32, 0));
        assert!(result.is_ok(), "{}, {:?}", i, result);
    }
    for i in 0..WIDTH {
        for j in 0..HEIGHT {
            let got = test_field.get(Coord::new(i as i32, j as i32)).unwrap();
            let top_left: (usize, usize) = (0, HEIGHT - 1);
            let top_right: (usize, usize) = (WIDTH - 1, HEIGHT - 1);
            // expect blocks previously in top-left and top-right to shift down 1
            let expected_left: (usize, usize) = (0, HEIGHT - 2);
            let expected_right: (usize, usize) = (WIDTH - 1, HEIGHT - 2);
            let at = (i, j);
            if j == 0 || at == top_left || at == top_right {
                assert!(!got, "{:?}, {:?}", (i, j), &test_field)
            } else if at == expected_left || at == expected_right {
                assert!(got)
            } else {
                assert_eq!(false, got)
            }
        }
    }
    // Check that line removal does not disturb lower lines
    assert!(test_field.set(Coord::new(5, 2)).is_ok());
    for i in 0..WIDTH {
        assert!(test_field.set(Coord::new(i as i32, 3)).is_ok());
    }
    // we want to repeat this soon
    repeatable_asserts(&test_field);
    // Test for errors
    let mut err: Error;
    err = test_field.set(Coord::new(-1, 0)).unwrap_err();
    panic_unless_size(&err);
    err = test_field.set(Coord::new(0, -1)).unwrap_err();
    panic_unless_size(&err);
    err = test_field.set(Coord::new(WIDTH as i32, 0)).unwrap_err();
    panic_unless_size(&err);
    err = test_field.set(Coord::new(0, HEIGHT as i32)).unwrap_err();
    panic_unless_size(&err);
    err = test_field.set(Coord::new(::std::i32::MIN, 0)).unwrap_err();
    panic_unless_size(&err);
    err = test_field.set(Coord::new(::std::i32::MAX, 0)).unwrap_err();
    panic_unless_size(&err);
    err = test_field.set(Coord::new(5, 2)).unwrap_err();
    panic_unless_dup(&err);
    // repeat our most recent battery of assertions, to check that all of these errors haven't changed anything.
    repeatable_asserts(&test_field);
    // test reset
    test_field.reset_blocks();
    for i in 0..WIDTH {
        for j in 0..HEIGHT {
            assert_eq!(false, test_field.get(Coord::new(i as i32, j as i32)).unwrap())
        }
    }
}

#[test]
fn test_field_score() {
    let mut test_field = Field::new();
    // Score should begin at zero.
    assert_eq!(0, test_field.read_score());
    for i in 0..WIDTH {
        assert!(test_field.set(Coord::new(i as i32, 0)).is_ok());
    }
    assert_eq!(1, test_field.read_score());
    for i in 0..WIDTH {
        assert!(test_field.set(Coord::new(i as i32, 6)).is_ok());
    }
    assert_eq!(2, test_field.read_score());
    // test reset, and that increasing score after a reset works correctly.
    test_field.reset_score();
    for i in 0..WIDTH {
        assert!(test_field.set(Coord::new(i as i32, 19)).is_ok());
    }
    assert_eq!(1, test_field.read_score());
}
