use bf_interpreter::input::is_whitespace;
use bf_interpreter::{decode_input, Error};

#[test]
fn decode_reads_a_number() {
    assert_eq!(decode_input("65"), Ok(65));
    assert_eq!(decode_input("0"), Ok(0));
    assert_eq!(decode_input("255"), Ok(255));
    assert_eq!(decode_input("007"), Ok(7));
    assert_eq!(decode_input("+5"), Ok(5));
    assert_eq!(decode_input("0000000000000000000000000255"), Ok(255));
}

#[test]
fn decode_leaves_out_white_space_at_the_ends() {
    assert_eq!(decode_input("  65\n"), Ok(65));
    assert_eq!(decode_input("\t12\r\n"), Ok(12));
    assert_eq!(decode_input("\u{a0}7\u{3000}"), Ok(7));
    assert_eq!(decode_input("  A  "), Ok(65));
}

#[test]
fn decode_falls_back_on_the_first_character() {
    assert_eq!(decode_input("A"), Ok(65));
    assert_eq!(decode_input("hello"), Ok(104));
    assert_eq!(decode_input("256"), Ok(50));
    assert_eq!(decode_input("99999999999999999999999"), Ok(57));
    assert_eq!(decode_input("-1"), Ok(45));
    assert_eq!(decode_input("+"), Ok(43));
    assert_eq!(decode_input("++1"), Ok(43));
    assert_eq!(decode_input("12a"), Ok(49));
    assert_eq!(decode_input("1 2"), Ok(49));
}

#[test]
fn decode_cuts_a_code_point_down_to_eight_bits() {
    assert_eq!(decode_input("\u{e9}"), Ok(0xe9));
    assert_eq!(decode_input("\u{20ac}"), Ok(0xac));
    assert_eq!(decode_input("\u{1f600}"), Ok(0x00));
}

#[test]
fn decode_fails_on_an_empty_line() {
    assert_eq!(decode_input(""), Err(Error::InputParseError));
    assert_eq!(decode_input("\n"), Err(Error::InputParseError));
    assert_eq!(decode_input("  \t \r\n"), Err(Error::InputParseError));
}

#[test]
fn decode_agrees_with_trim_and_parse() {
    let lines = [
        "", " ", "0", "42", "255", "256", "+0", "+255", "+256", "-0", "x", " 1 ", "1x", "\u{85}3",
        "\u{2003}9\u{2028}", "\u{200b}9", "0x10", "1_0", "\u{0661}",
    ];
    for line in lines {
        let text = line.trim();
        let expected = match text.parse::<u8>() {
            Ok(value) => Ok(value),
            Err(_) => match text.chars().next() {
                Some(c) => Ok(c as u32 as u8),
                None => Err(Error::InputParseError),
            },
        };
        assert_eq!(decode_input(line), expected, "line {:?}", line);
    }
}

#[test]
fn is_whitespace_agrees_with_the_standard_library() {
    for code in 0..=0x10ffffu32 {
        if let Some(c) = char::from_u32(code) {
            assert_eq!(is_whitespace(c), c.is_whitespace(), "U+{:04X}", code);
        }
    }
}

#[test]
fn decode_agrees_with_trim_and_parse_on_every_character() {
    for code in 0..=0x10ffffu32 {
        if let Some(c) = char::from_u32(code) {
            let line = format!("{}2{}", c, c);
            let text = line.trim();
            let expected = match text.parse::<u8>() {
                Ok(value) => Ok(value),
                Err(_) => match text.chars().next() {
                    Some(first) => Ok(first as u32 as u8),
                    None => Err(Error::InputParseError),
                },
            };
            assert_eq!(decode_input(&line), expected, "U+{:04X}", code);
        }
    }
}
