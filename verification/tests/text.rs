use monkey::object::{i32_to_text, Object};
use monkey::text::{char_is_digit, char_is_space, char_is_word, parse_i32, same_text};

#[test]
fn parse_i32_reads_signed_numbers() {
    assert_eq!(parse_i32("0"), Some(0));
    assert_eq!(parse_i32("10"), Some(10));
    assert_eq!(parse_i32("-10"), Some(-10));
    assert_eq!(parse_i32("+7"), Some(7));
    assert_eq!(parse_i32("0001"), Some(1));
    assert_eq!(parse_i32("2147483647"), Some(2147483647));
    assert_eq!(parse_i32("-2147483648"), Some(-2147483648));
}

#[test]
fn parse_i32_refuses_what_is_no_number() {
    assert_eq!(parse_i32(""), None);
    assert_eq!(parse_i32("-"), None);
    assert_eq!(parse_i32("+"), None);
    assert_eq!(parse_i32("1a"), None);
    assert_eq!(parse_i32(" 1"), None);
    assert_eq!(parse_i32("1_000"), None);
    assert_eq!(parse_i32("2147483648"), None);
    assert_eq!(parse_i32("-2147483649"), None);
    assert_eq!(parse_i32("99999999999999999999999999"), None);
}

#[test]
fn parse_i32_agrees_with_std() {
    for text in ["", "5", "-5", "+5", "--5", "05", "5 ", "2147483647", "2147483648", "x"].iter() {
        assert_eq!(parse_i32(text), i32::from_str_radix(text, 10).ok());
    }
}

#[test]
fn character_classes() {
    assert!(char_is_digit('0') && char_is_digit('9') && !char_is_digit('a'));
    assert!(char_is_word('a') && char_is_word('Z') && char_is_word('_') && char_is_word('5'));
    assert!(!char_is_word('-') && !char_is_word(' '));
    for c in [' ', '\t', '\n', '\r', '\u{b}', '\u{c}', '\u{85}', '\u{a0}', '\u{2003}', '\u{3000}'].iter() {
        assert!(char_is_space(*c));
    }
    assert!(!char_is_space('a') && !char_is_space('\u{200b}'));
}

#[test]
fn space_agrees_with_std_on_every_character() {
    let mut n: u32 = 0;
    while n <= 0x10ffff {
        if let Some(c) = char::from_u32(n) {
            assert_eq!(char_is_space(c), c.is_whitespace());
            assert_eq!(char_is_digit(c), c.is_ascii_digit());
            assert_eq!(char_is_word(c), c.is_ascii_alphanumeric() || c == '_');
        }
        n += 1;
    }
}

#[test]
fn same_text_compares_characters() {
    assert!(same_text("", ""));
    assert!(same_text("let", "let"));
    assert!(!same_text("let", "le"));
    assert!(!same_text("let", "lot"));
    assert!(same_text("h\u{e9}", "h\u{e9}"));
}

#[test]
fn integers_are_written_in_base_ten() {
    assert_eq!(i32_to_text(0), "0");
    assert_eq!(i32_to_text(7), "7");
    assert_eq!(i32_to_text(-10), "-10");
    assert_eq!(i32_to_text(1200), "1200");
    assert_eq!(i32_to_text(i32::MAX), "2147483647");
    assert_eq!(i32_to_text(i32::MIN), "-2147483648");
}

#[test]
fn objects_are_shown_as_text() {
    assert_eq!(Object::Int(-3).to_text(), "-3");
    assert_eq!(Object::Str(String::from("a b")).to_text(), "a b");
    assert_eq!(Object::Bool(true).to_text(), "true");
    assert_eq!(Object::Bool(false).to_text(), "false");
    assert_eq!(Object::Null.to_text(), "Null");
    assert_eq!(Object::Return(Box::new(Object::Int(1))).to_text(), "1");
    let array = Object::Array(vec![
        Box::new(Object::Int(1)),
        Box::new(Object::Array(vec![Box::new(Object::Null), Box::new(Object::Bool(true))])),
        Box::new(Object::Str(String::from("x"))),
    ]);
    assert_eq!(array.to_text(), "[1, [Null, true], x]");
    assert_eq!(Object::Array(vec![Box::new(Object::Int(1))]).to_text(), "[1]");
    assert_eq!(Object::Array(Vec::new()).to_text(), "]");
    let function = Object::CompiledFunction { instructions: Vec::new(), num_locals: 0, num_paras: 0 };
    assert_eq!(function.to_text(), "compiled function");
}
