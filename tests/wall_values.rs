use number_wall::{binary, exact_div, knight, rook, rueppel, square, EvalError, Function, Wall};

fn check_rows(function: Function, expected: &[(i32, [i128; 17])]) {
    let mut wall = Wall::new(function);
    for (m, row) in expected {
        for (k, want) in row.iter().enumerate() {
            let n = k as i32 - 8;
            assert_eq!(wall.get(*m, n), Ok(*want), "row {} column {}", m, n);
        }
    }
}

#[test]
fn square_wall_rows() {
    check_rows(
        Function::Square,
        &[
        (-2, [0, 0, 0, 0, 0, 0, 0, 0, 0, 0, 0, 0, 0, 0, 0, 0, 0]),
        (-1, [1, 1, 1, 1, 1, 1, 1, 1, 1, 1, 1, 1, 1, 1, 1, 1, 1]),
        (0, [64, 49, 36, 25, 16, 9, 4, 1, 0, 1, 4, 9, 16, 25, 36, 49, 64]),
        (1, [127, 97, 71, 49, 31, 17, 7, 1, -1, 1, 7, 17, 31, 49, 71, 97, 127]),
        (2, [8, 8, 8, 8, 8, 8, 8, 8, 8, 8, 8, 8, 8, 8, 8, 8, 8]),
        (3, [0, 0, 0, 0, 0, 0, 0, 0, 0, 0, 0, 0, 0, 0, 0, 0, 0]),
        (4, [0, 0, 0, 0, 0, 0, 0, 0, 0, 0, 0, 0, 0, 0, 0, 0, 0]),
        (5, [0, 0, 0, 0, 0, 0, 0, 0, 0, 0, 0, 0, 0, 0, 0, 0, 0]),
        (6, [0, 0, 0, 0, 0, 0, 0, 0, 0, 0, 0, 0, 0, 0, 0, 0, 0]),
        ],
    );
}

#[test]
fn debruijn_wall_rows() {
    check_rows(
        Function::DeBruijn,
        &[
        (-2, [0, 0, 0, 0, 0, 0, 0, 0, 0, 0, 0, 0, 0, 0, 0, 0, 0]),
        (-1, [1, 1, 1, 1, 1, 1, 1, 1, 1, 1, 1, 1, 1, 1, 1, 1, 1]),
        (0, [1, 1, 0, 1, 0, 0, 1, 0, 1, 1, 1, 1, 0, 0, 0, 0, 1]),
        (1, [1, 1, -1, 1, 0, 0, 1, -1, 1, 0, 0, 1, 0, 0, 0, 0, 1]),
        (2, [1, 2, 1, 1, 1, 1, 1, 1, 1, 0, 0, 1, 0, 0, 0, 0, 1]),
        (3, [1, 3, 1, 0, -1, -1, 0, 0, 1, 1, 1, 1, 0, 0, 0, 0, 1]),
        (4, [1, 4, 1, 1, 1, 1, 0, 0, 1, 2, 2, 1, 1, 1, 1, 1, 1]),
        (5, [-3, 5, -3, 1, 0, -1, 1, -1, 1, 2, 2, -1, 0, 1, -2, 2, -3]),
        (6, [-1, 4, 4, 1, 1, 1, 3, 4, 3, 1, 3, 1, 1, 1, 2, -2, -1]),
        ],
    );
}

#[test]
fn rueppel_wall_rows() {
    check_rows(
        Function::Rueppel,
        &[
        (-2, [0, 0, 0, 0, 0, 0, 0, 0, 0, 0, 0, 0, 0, 0, 0, 0, 0]),
        (-1, [1, 1, 1, 1, 1, 1, 1, 1, 1, 1, 1, 1, 1, 1, 1, 1, 1]),
        (0, [0, 0, 0, 0, 0, 0, 0, 0, 0, 1, 1, 0, 1, 0, 0, 0, 1]),
        (1, [0, 0, 0, 0, 0, 0, 0, 0, 0, 1, 1, -1, 1, 0, 0, 0, 1]),
        (2, [0, 0, 0, 0, 0, 0, 0, 0, 0, 1, 2, 1, 1, 0, 0, 0, 1]),
        (3, [0, 0, 0, 0, 0, 0, 0, 0, 0, 1, 3, 1, 1, -1, 1, -1, 1]),
        (4, [0, 0, 0, 0, 0, 0, 0, 0, 0, 1, 4, -2, 2, 1, -1, 0, 1]),
        (5, [0, 0, 0, 0, 0, 0, 0, 0, 0, 1, 6, -4, 6, -3, 1, -1, 1]),
        (6, [0, 0, 0, 0, 0, 0, 0, 0, 0, 1, 10, 10, 12, 3, 2, 1, 1]),
        ],
    );
}

#[test]
fn rook_wall_rows() {
    check_rows(
        Function::Rook,
        &[
        (-2, [0, 0, 0, 0, 0, 0, 0, 0, 0, 0, 0, 0, 0, 0, 0, 0, 0]),
        (-1, [1, 1, 1, 1, 1, 1, 1, 1, 1, 1, 1, 1, 1, 1, 1, 1, 1]),
        (0, [1, 0, 0, 1, 1, 0, 1, 1, 0, 0, 0, 1, 0, 0, 1, 1, 0]),
        (1, [1, 0, 0, 1, 1, -1, 1, 1, 0, 0, 0, 1, 0, 0, 1, 1, 0]),
        (2, [1, 1, 1, 1, 2, 2, 2, 1, 0, 0, 0, 1, 1, 1, 1, 1, 0]),
        (3, [2, -1, 0, -1, 2, 0, 2, 1, -1, 1, -1, 1, -1, 1, 0, 1, -1]),
        (4, [3, 1, -1, 1, 2, -2, 2, 3, 2, 1, 2, 0, 0, 1, -1, 1, 2]),
        (5, [3, -4, 4, -3, 3, 1, 5, 5, -1, -3, -4, 0, 0, 1, -3, 3, -2]),
        (6, [7, 4, -4, -3, 6, 7, 10, 10, 8, 5, 8, 4, 2, 1, -6, 3, 5]),
        ],
    );
}

#[test]
fn knight_wall_rows() {
    check_rows(
        Function::Knight,
        &[
        (-2, [0, 0, 0, 0, 0, 0, 0, 0, 0, 0, 0, 0, 0, 0, 0, 0, 0]),
        (-1, [1, 1, 1, 1, 1, 1, 1, 1, 1, 1, 1, 1, 1, 1, 1, 1, 1]),
        (0, [-1, -1, 1, 1, -1, 0, 1, -1, -1, 0, 1, 0, -1, 1, 1, -1, -1]),
        (1, [1, 2, 2, 2, 1, 1, 1, 2, 1, 1, 1, 1, 1, 2, 2, 2, 1]),
        (2, [1, -2, 0, 2, 1, 0, -1, -3, 1, -1, 0, 1, 1, 2, 0, -2, 1]),
        (3, [1, 2, 2, 2, 1, 1, 1, 5, -2, 1, 1, 1, -1, 2, 2, 2, 1]),
        (4, [-1, -1, 1, 1, -1, -1, 4, -9, -1, -3, 1, 2, -1, 3, 1, -1, -1]),
        (5, [2, 1, 1, 1, 2, 5, 7, 17, 13, 10, 7, 5, 5, 5, 2, 1, 2]),
        (6, [1, 1, 0, -1, 1, -11, -9, -22, 1, -3, -1, -5, 0, 5, -1, 3, 1]),
        ],
    );
}
#[test]
fn square_scenarios() {
    let mut wall = Wall::new(Function::Square);
    assert_eq!(wall.get(0, 3), Ok(9));
    assert_eq!(wall.get(0, -2), Ok(4));
}

#[test]
fn rook_and_knight_scenarios() {
    let mut rook = Wall::new(Function::Rook);
    assert_eq!(rook.get(0, 0), Ok(0));
    assert_eq!(rook.get(0, 1), Ok(0));
    assert_eq!(rook.get(0, 3), Ok(1));
    assert_eq!(rook.get(0, -3), Ok(0));
    let mut knight = Wall::new(Function::Knight);
    assert_eq!(knight.get(0, 0), Ok(-1));
}

#[test]
fn fixed_rows_below_zero() {
    for function in [Function::Square, Function::DeBruijn, Function::Rueppel, Function::Rook, Function::Knight] {
        let mut wall = Wall::new(function);
        for n in [-100, -1, 0, 1, 7, i32::MIN, i32::MAX] {
            assert_eq!(wall.get(-2, n), Ok(0));
            assert_eq!(wall.get(-1, n), Ok(1));
            assert_eq!(wall.get(i32::MIN, n), Ok(0));
        }
        assert_eq!(wall.cached_count(), 0);
    }
}

#[test]
fn recurrence_holds_where_defined() {
    for function in [Function::Square, Function::DeBruijn, Function::Rueppel, Function::Rook, Function::Knight] {
        let mut wall = Wall::new(function);
        for m in 1..7 {
            for n in -10..10 {
                let d = wall.get(m - 2, n).unwrap();
                if d != 0 {
                    let v = wall.get(m, n).unwrap();
                    let a = wall.get(m - 1, n).unwrap();
                    let b = wall.get(m - 1, n - 1).unwrap();
                    let c = wall.get(m - 1, n + 1).unwrap();
                    assert_eq!(v * d, a * a - b * c, "row {} column {}", m, n);
                }
            }
        }
    }
}

#[test]
fn repeated_query_does_no_work() {
    let mut wall = Wall::new(Function::DeBruijn);
    let first = wall.get(5, 2);
    let size = wall.cached_count();
    assert!(size > 0);
    let second = wall.get(5, 2);
    assert_eq!(first, second);
    assert_eq!(wall.cached_count(), size);
}

#[test]
fn new_wall_is_empty() {
    let wall = Wall::new(Function::Rueppel);
    assert_eq!(wall.cached_count(), 0);
    assert_eq!(wall.function(), Function::Rueppel);
    assert_eq!(wall.depth_limit(), number_wall::DEFAULT_DEPTH_LIMIT);
    let wall = Wall::with_depth_limit(Function::Square, 7);
    assert_eq!(wall.depth_limit(), 7);
}

#[test]
fn depth_limit_is_enforced() {
    let mut wall = Wall::with_depth_limit(Function::Square, 2);
    assert_eq!(wall.get(6, 0), Err(EvalError::RecursionDepthExceeded));
    assert_eq!(wall.get(0, 5), Ok(25));
    let mut wall = Wall::with_depth_limit(Function::Square, 0);
    assert_eq!(wall.get(1, 0), Err(EvalError::RecursionDepthExceeded));
}

#[test]
fn column_overflow_is_refused() {
    let mut wall = Wall::new(Function::Square);
    assert_eq!(wall.get(1, i32::MAX), Err(EvalError::GeneratorArgumentOverflow));
    assert_eq!(wall.get(1, i32::MIN), Err(EvalError::GeneratorArgumentOverflow));
    assert_eq!(wall.get(0, i32::MAX), Ok(4611686014132420609));
}

#[test]
fn exact_division_outcomes() {
    assert_eq!(exact_div(12, -4), Ok(-3));
    assert_eq!(exact_div(-12, 4), Ok(-3));
    assert_eq!(exact_div(0, 5), Ok(0));
    assert_eq!(exact_div(7, 2), Err(EvalError::DivisionNotExact));
    assert_eq!(exact_div(-7, 2), Err(EvalError::DivisionNotExact));
    assert_eq!(exact_div(7, 0), Err(EvalError::DivisionNotExact));
    assert_eq!(exact_div(i128::MIN, -1), Err(EvalError::ValueOverflow));
}

#[test]
fn row_zero_is_the_seed() {
    let seeds: [(Function, fn(i32) -> i128); 5] = [
        (Function::Square, square),
        (Function::DeBruijn, binary),
        (Function::Rueppel, rueppel),
        (Function::Rook, rook),
        (Function::Knight, knight),
    ];
    for (function, seed) in seeds {
        let mut wall = Wall::new(function);
        for n in (-300..=300).chain([i32::MIN, i32::MAX]) {
            assert_eq!(wall.get(0, n), Ok(seed(n)), "column {}", n);
        }
    }
}

#[test]
fn zero_window_branches() {
    let mut wall = Wall::new(Function::DeBruijn);
    // inside a zero window
    assert_eq!(wall.get(2, 4), Ok(0));
    assert_eq!(wall.get(2, -10), Ok(0));
    // entries one and two rows up both zero
    assert_eq!(wall.get(2, -4), Ok(1));
    assert_eq!(wall.get(3, 1), Ok(1));
    // only the entry two rows up zero: the correction formula
    assert_eq!(wall.get(2, -6), Ok(1));
    assert_eq!(wall.get(3, -4), Ok(-1));
}
