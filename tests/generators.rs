use number_wall::{binary, knight, rook, rueppel, square};

#[test]
fn square_values() {
    assert_eq!(square(3), 9);
    assert_eq!(square(-2), 4);
    assert_eq!(square(0), 0);
    assert_eq!(square(i32::MIN), 4611686018427387904);
}

#[test]
fn rook_values() {
    assert_eq!(rook(0), 0);
    assert_eq!(rook(1), 0);
    assert_eq!(rook(3), 1);
    assert_eq!(rook(-3), 0);
    assert_eq!(rook(-1), 1);
    assert_eq!(rook(6), 1);
    assert_eq!(rook(5), 0);
    assert_eq!(rook(i32::MIN), 1);
}

#[test]
fn rook_mirror_on_values() {
    for n in -200..=200 {
        if n != 0 {
            assert_eq!(rook(-n), 1 - rook(n), "n = {}", n);
        }
    }
}

#[test]
fn knight_values() {
    assert_eq!(knight(0), -1);
    assert_eq!(knight(0), rook(1) - rook(-1));
    assert_eq!(knight(2), 1);
    assert_eq!(knight(i32::MAX), -1);
    assert_eq!(knight(i32::MIN), -1);
}

#[test]
fn rueppel_values() {
    for k in 0..31 {
        assert_eq!(rueppel(1 << k), 1, "k = {}", k);
    }
    for n in [-8, -1, 0, 3, 5, 6, 7, 12, 100, i32::MAX, i32::MIN] {
        assert_eq!(rueppel(n), 0, "n = {}", n);
    }
}

#[test]
fn binary_values() {
    let pattern = [1, 1, 1, 1, 0, 0, 0, 0, 1, 1, 0, 1, 0, 0, 1, 0];
    for n in 0..16 {
        assert_eq!(binary(n), pattern[n as usize]);
        assert_eq!(binary(n + 16), pattern[n as usize]);
    }
    assert_eq!(binary(-1), 0);
    assert_eq!(binary(-16), 1);
    assert_eq!(binary(-3), 0);
    assert_eq!(binary(-5), 1);
    assert_eq!(binary(i32::MIN), 1);
}
