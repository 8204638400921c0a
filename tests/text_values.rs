use number_wall::{parse_decimal, to_decimal, Function, Wall};

#[test]
fn decimal_text_of_values() {
    assert_eq!(to_decimal(0), b"0".to_vec());
    assert_eq!(to_decimal(7), b"7".to_vec());
    assert_eq!(to_decimal(-9), b"-9".to_vec());
    assert_eq!(to_decimal(1203), b"1203".to_vec());
    assert_eq!(to_decimal(-100), b"-100".to_vec());
    assert_eq!(to_decimal(i128::MAX), i128::MAX.to_string().into_bytes());
    assert_eq!(to_decimal(i128::MIN), i128::MIN.to_string().into_bytes());
}

#[test]
fn parse_decimal_values() {
    assert_eq!(parse_decimal(b"0"), Some(0));
    assert_eq!(parse_decimal(b"-0"), Some(0));
    assert_eq!(parse_decimal(b"0042"), Some(42));
    assert_eq!(parse_decimal(b"-17"), Some(-17));
    assert_eq!(parse_decimal(b""), None);
    assert_eq!(parse_decimal(b"-"), None);
    assert_eq!(parse_decimal(b"+5"), None);
    assert_eq!(parse_decimal(b"12a"), None);
    assert_eq!(parse_decimal(b"1 2"), None);
    assert_eq!(parse_decimal(i128::MAX.to_string().as_bytes()), Some(i128::MAX));
    assert_eq!(parse_decimal(i128::MIN.to_string().as_bytes()), Some(i128::MIN));
    assert_eq!(parse_decimal(b"170141183460469231731687303715884105728"), None);
    assert_eq!(parse_decimal(b"-170141183460469231731687303715884105729"), None);
}

#[test]
fn text_round_trip_over_queried_coordinates() {
    for function in [Function::Square, Function::DeBruijn, Function::Rueppel, Function::Rook, Function::Knight] {
        let mut wall = Wall::new(function);
        for m in -5..=5 {
            for n in -20..=20 {
                let v = wall.get(m, n).unwrap();
                let text = wall.get_text(m, n).unwrap();
                assert_eq!(text, v.to_string().into_bytes());
                assert_eq!(parse_decimal(&text), Some(v), "row {} column {}", m, n);
            }
        }
    }
}
