use traffic_analyzer::number::{parse_signed, parse_unsigned, to_decimal, to_signed_decimal};

#[test]
fn unsigned_numbers_agree_with_std() {
    for s in ["", "0", "7", "255", "256", "+12", "-1", "+", "007", "1a", " 1", "99999999999"] {
        assert_eq!(parse_unsigned(s, 255), s.parse::<u8>().ok().map(|n| n as u64));
        assert_eq!(
            parse_unsigned(s, u32::MAX as u64),
            s.parse::<u32>().ok().map(|n| n as u64)
        );
    }
}

#[test]
fn signed_numbers_agree_with_std() {
    for s in [
        "", "0", "404", "-404", "+404", "-", "+-1", "2147483647", "2147483648", "-2147483648",
        "-2147483649", "4 04",
    ] {
        assert_eq!(parse_signed(s), s.parse::<i32>().ok());
    }
}

#[test]
fn decimal_notation_agrees_with_std() {
    for n in [0, 9, 10, 100, 12345, u64::MAX] {
        assert_eq!(to_decimal(n), n.to_string());
    }
    for n in [0, -1, 42, i32::MAX, i32::MIN] {
        assert_eq!(to_signed_decimal(n), n.to_string());
    }
}

#[test]
fn reading_undoes_decimal_notation() {
    for n in [0, 1, 10, 999, 1_000_000] {
        assert_eq!(parse_unsigned(to_decimal(n).as_str(), u64::MAX), Some(n));
    }
}

#[test]
fn decimal_notations_differ() {
    let texts: Vec<String> = (0..300).map(to_decimal).collect();
    for i in 0..300 {
        for j in 0..i {
            assert_ne!(texts[i], texts[j]);
        }
    }
}
