use working_memory::turn::{parse_turn_id, push_decimal, turn_id, NumberError, TurnIdError};

#[test]
fn ids_are_padded_to_three_digits() {
    for number in [0usize, 1, 7, 10, 42, 99, 100, 999, 1000, 123_456, usize::MAX] {
        assert_eq!(turn_id(number), format!("T{number:03}"));
    }
    assert_eq!(turn_id(1), "T001");
    assert_eq!(turn_id(12), "T012");
    assert_eq!(turn_id(1234), "T1234");
}

#[test]
fn ids_are_read_back() {
    for number in [1usize, 9, 10, 99, 100, 1000, usize::MAX] {
        assert_eq!(parse_turn_id(&turn_id(number)), Ok(number));
    }
}

#[test]
fn other_spellings_are_read() {
    assert_eq!(parse_turn_id("T1"), Ok(1));
    assert_eq!(parse_turn_id("T+5"), Ok(5));
    assert_eq!(parse_turn_id("T0000012"), Ok(12));
}

#[test]
fn ids_need_their_prefix() {
    for text in ["", "001", "t001", " T001", "turn"] {
        assert_eq!(parse_turn_id(text), Err(TurnIdError::MissingPrefix));
    }
}

#[test]
fn ids_need_a_number() {
    assert_eq!(parse_turn_id("T"), Err(TurnIdError::Number(NumberError::Empty)));
    for text in ["T+", "T-", "T-1", "Tx", "T1 ", "T 1", "T++1", "T1x", "T\u{661}"] {
        assert_eq!(parse_turn_id(text), Err(TurnIdError::Number(NumberError::InvalidDigit)));
    }
    assert_eq!(
        parse_turn_id("T99999999999999999999999"),
        Err(TurnIdError::Number(NumberError::TooLarge))
    );
    assert_eq!(parse_turn_id("T000"), Err(TurnIdError::NotPositive));
    assert_eq!(parse_turn_id("T0"), Err(TurnIdError::NotPositive));
}

#[test]
fn numbers_are_read_like_the_standard_library_reads_them() {
    for text in [
        "", "+", "-", "0", "7", "+7", "-7", "007", "18446744073709551615", "18446744073709551616",
        "18446744073709551615x", "99999999999999999999x", "1844674407370955161x", "1_000", "1.5", "é",
    ] {
        let ours = parse_turn_id(&format!("T{text}"));
        match text.parse::<usize>() {
            Ok(0) => assert_eq!(ours, Err(TurnIdError::NotPositive)),
            Ok(number) => assert_eq!(ours, Ok(number)),
            Err(error) => assert_eq!(ours.unwrap_err().message(), error.to_string(), "{text}"),
        }
    }
}

#[test]
fn messages_of_turn_ids() {
    assert_eq!(TurnIdError::MissingPrefix.message(), "Turn IDs must look like T001");
    assert_eq!(TurnIdError::NotPositive.message(), "Turn IDs must be positive");
}

#[test]
fn decimals_are_appended() {
    let mut text = "n=".to_string();
    push_decimal(&mut text, 0);
    push_decimal(&mut text, 1050);
    assert_eq!(text, "n=01050");
}
