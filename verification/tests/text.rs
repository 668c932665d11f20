use sudoku::text::{parse_digit, show_digit};

#[test]
fn digits_are_shown_in_decimal() {
    assert_eq!(show_digit(0), "");
    assert_eq!(show_digit(1), "1");
    assert_eq!(show_digit(9), "9");
    assert_eq!(show_digit(10), "10");
    assert_eq!(show_digit(99), "99");
    assert_eq!(show_digit(100), "100");
    assert_eq!(show_digit(105), "105");
    assert_eq!(show_digit(255), "255");
}

#[test]
fn every_digit_is_shown_as_the_standard_library_does() {
    for value in 1..=255u8 {
        assert_eq!(show_digit(value), value.to_string());
    }
}

#[test]
fn what_is_shown_reads_back() {
    for value in 1..=255u8 {
        assert_eq!(parse_digit(&show_digit(value)), Some(value));
    }
    assert_eq!(parse_digit(&show_digit(0)), None);
}

#[test]
fn plain_numbers_are_read() {
    assert_eq!(parse_digit("0"), Some(0));
    assert_eq!(parse_digit("7"), Some(7));
    assert_eq!(parse_digit("42"), Some(42));
    assert_eq!(parse_digit("255"), Some(255));
    assert_eq!(parse_digit("+5"), Some(5));
    assert_eq!(parse_digit("007"), Some(7));
    assert_eq!(parse_digit("+000255"), Some(255));
    assert_eq!(parse_digit("0000000000000000000000000000000000000001"), Some(1));
}

#[test]
fn other_texts_are_not_read() {
    for text in [
        "", "+", "-", "-1", "-0", "++1", "+-1", "1+", " 1", "1 ", "1.0", "1_0", "0x10", "a", "१", "٣", "１",
        "256", "300", "1000", "99999999999999999999", "4294967296", "4294967297", "12a", "a12",
        "1\n", "\t1", "1\u{0}",
    ] {
        assert_eq!(parse_digit(text), None, "{:?}", text);
    }
}

#[test]
fn reading_agrees_with_the_standard_library() {
    let mut texts: Vec<String> = Vec::new();
    let alphabet = ['0', '1', '2', '5', '6', '9', '+', '-', ' ', 'x', '٣'];
    for a in alphabet {
        texts.push(format!("{}", a));
        for b in alphabet {
            texts.push(format!("{}{}", a, b));
            for c in alphabet {
                texts.push(format!("{}{}{}", a, b, c));
                for d in ['0', '5', '6', '+'] {
                    texts.push(format!("{}{}{}{}", a, b, c, d));
                }
            }
        }
    }
    for n in 0..=1000u32 {
        texts.push(n.to_string());
        texts.push(format!("+{}", n));
        texts.push(format!("0{}", n));
    }
    for text in texts {
        assert_eq!(parse_digit(&text), text.parse::<u8>().ok(), "{:?}", text);
    }
}
