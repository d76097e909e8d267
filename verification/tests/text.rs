use serde_xml_rs::de::plain::{decode_plain, PlainTextDeserializer};
use serde_xml_rs::text::{
    find_char, format_integer, parse_integer, split_word, text_before, text_eq,
};
use serde_xml_rs::value::{IntKind, Shape, Value};
use serde_xml_rs::XmlError;

#[test]
fn integers_are_read_in_decimal() {
    assert_eq!(parse_integer("0", -128, 127), Some(0));
    assert_eq!(parse_integer("127", -128, 127), Some(127));
    assert_eq!(parse_integer("128", -128, 127), None);
    assert_eq!(parse_integer("-128", -128, 127), Some(-128));
    assert_eq!(parse_integer("-129", -128, 127), None);
    assert_eq!(parse_integer("+5", -128, 127), Some(5));
    assert_eq!(parse_integer("007", 0, 255), Some(7));
    assert_eq!(parse_integer("18446744073709551615", 0, u64::MAX as i128), Some(u64::MAX as i128));
    assert_eq!(parse_integer("18446744073709551616", 0, u64::MAX as i128), None);
    assert_eq!(
        parse_integer("99999999999999999999999999999999999999999999", 0, u64::MAX as i128),
        None
    );
}

#[test]
fn what_is_no_integer_is_refused() {
    assert_eq!(parse_integer("", 0, 255), None);
    assert_eq!(parse_integer("+", 0, 255), None);
    assert_eq!(parse_integer("-", -128, 127), None);
    assert_eq!(parse_integer("-0", 0, 255), None);
    assert_eq!(parse_integer("-0", -128, 127), Some(0));
    assert_eq!(parse_integer("1 ", 0, 255), None);
    assert_eq!(parse_integer(" 1", 0, 255), None);
    assert_eq!(parse_integer("1_0", 0, 255), None);
    assert_eq!(parse_integer("٣", 0, 255), None);
    assert_eq!(parse_integer("0x10", 0, 255), None);
}

#[test]
fn integers_are_written_in_decimal() {
    assert_eq!(format_integer(0), "0");
    assert_eq!(format_integer(7), "7");
    assert_eq!(format_integer(10), "10");
    assert_eq!(format_integer(-1), "-1");
    assert_eq!(format_integer(1234567890), "1234567890");
    assert_eq!(format_integer(i64::MIN as i128), "-9223372036854775808");
    assert_eq!(format_integer(u64::MAX as i128), "18446744073709551615");
}

#[test]
fn written_integers_read_back() {
    for v in [0i128, 1, -1, 9, 10, 99, 100, -100, 32767, -32768, 4294967295] {
        assert_eq!(parse_integer(&format_integer(v), i64::MIN as i128, u64::MAX as i128), Some(v));
    }
}

#[test]
fn a_text_splits_at_its_first_space() {
    assert_eq!(split_word("a b c"), ("a".to_string(), "b c".to_string()));
    assert_eq!(split_word("abc"), ("abc".to_string(), "".to_string()));
    assert_eq!(split_word(" a"), ("".to_string(), "a".to_string()));
    assert_eq!(split_word("a "), ("a".to_string(), "".to_string()));
    assert_eq!(split_word(""), ("".to_string(), "".to_string()));
    assert_eq!(split_word("é ü"), ("é".to_string(), "ü".to_string()));
}

#[test]
fn characters_are_found_and_texts_compared() {
    assert_eq!(find_char("héllo wörld", ' '), 5);
    assert_eq!(find_char("hello", ' '), 5);
    assert_eq!(find_char("", ' '), 0);
    assert!(text_eq("a", "a"));
    assert!(!text_eq("a", "b"));
    assert!(!text_eq("a", "ab"));
}

#[test]
fn plain_text_is_read_word_by_word() {
    let mut words = PlainTextDeserializer::new("12 -3  x");
    assert_eq!(words.next_element(), Some("12".to_string()));
    assert_eq!(words.text(), "-3  x");
    assert_eq!(words.next_element(), Some("-3".to_string()));
    assert_eq!(words.next_element(), Some("".to_string()));
    assert_eq!(words.next_element(), Some("x".to_string()));
    assert_eq!(words.next_element(), None);
    assert_eq!(words.text(), "");
}

#[test]
fn plain_text_is_read_as_a_value_of_its_shape() {
    let numbers = Shape::Sequence(Box::new(Shape::Integer(IntKind::I16)));
    assert_eq!(
        PlainTextDeserializer::new("1 -2 300").decode(&numbers).unwrap(),
        Value::Sequence(vec![Value::Integer(1), Value::Integer(-2), Value::Integer(300)])
    );
    assert_eq!(decode_plain("", &numbers).unwrap(), Value::Sequence(vec![]));
    assert_eq!(
        PlainTextDeserializer::new("a").decode(&Shape::Char).unwrap(),
        Value::Char('a')
    );
    match PlainTextDeserializer::new("ab").decode(&Shape::Char) {
        Err(XmlError::ParseChar(text)) => assert_eq!(text, "ab"),
        other => panic!("{other:?}"),
    }
    match PlainTextDeserializer::new("70000").decode(&Shape::Integer(IntKind::I16)) {
        Err(XmlError::ParseInt(text)) => assert_eq!(text, "70000"),
        other => panic!("{other:?}"),
    }
    match PlainTextDeserializer::new("x").decode(&Shape::Dictionary(Box::new(Shape::Text))) {
        Err(XmlError::Unsupported(what)) => assert_eq!(what, "map in text"),
        other => panic!("{other:?}"),
    }
}

#[test]
fn texts_are_ordered_by_their_characters() {
    let texts = ["", "a", "ab", "abc", "b", "ba", "é", "\u{10000}"];
    for (i, a) in texts.iter().enumerate() {
        for (j, b) in texts.iter().enumerate() {
            assert_eq!(text_before(a, b), i < j, "{a:?} {b:?}");
            assert_eq!(text_before(a, b), a < b);
        }
    }
}
