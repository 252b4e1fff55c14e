use ocelot_nbt::snbt::decoder::{decode_number, decode_tag, space, tag_is_readable, SnbtError};
use ocelot_nbt::snbt::{Encoder, EscapedIterator};
use ocelot_nbt::{Compound, Tag, TagType};

fn encode(tag: &Tag) -> String {
    let mut encoder = Encoder::new();
    encoder.encode_tag(tag);
    encoder.buffer().to_string()
}

#[test]
fn encode_simple() {
    let mut data = Compound::new();
    data.insert("name".into(), Tag::String("Bananrama".into()));
    let data = Tag::Compound(data);

    let mut encoder = Encoder::new();
    encoder.encode_tag(&data);
    assert_eq!(encoder.buffer(), "{\"name\":\"Bananrama\"}");
}

#[test]
fn skip_space() {
    assert_eq!(space(""), "");
    assert_eq!(space("     "), "");
    assert_eq!(space("abcd"), "abcd");
    assert_eq!(space("    abcd"), "abcd");
    assert_eq!(space("abcd    "), "abcd    ");
    assert_eq!(space("    abcd    "), "abcd    ");
    assert_eq!(space("    ab  cd    "), "ab  cd    ");
    assert_eq!(space("ab  cd    "), "ab  cd    ");
}

#[test]
fn decode_number_test() {
    assert_eq!(decode_number("+"), Ok(("", Tag::Byte(0))));
    assert_eq!(decode_number("-"), Ok(("", Tag::Byte(0))));
    assert_eq!(decode_number("+x"), Ok(("x", Tag::Byte(0))));
    assert_eq!(decode_number("-x"), Ok(("x", Tag::Byte(0))));
    assert_eq!(decode_number("0y"), Ok(("y", Tag::Byte(0))));
    assert_eq!(decode_number("+0y"), Ok(("y", Tag::Byte(0))));
    assert_eq!(decode_number("-0y"), Ok(("y", Tag::Byte(0))));
    assert_eq!(decode_number("0xy"), Ok(("y", Tag::Byte(0))));
    assert_eq!(decode_number("+0xy"), Ok(("y", Tag::Byte(0))));
    assert_eq!(decode_number("-0xy"), Ok(("y", Tag::Byte(0))));
    assert_eq!(decode_number("0by"), Ok(("y", Tag::Byte(0))));
    assert_eq!(decode_number("+0by"), Ok(("y", Tag::Byte(0))));
    assert_eq!(decode_number("-0by"), Ok(("y", Tag::Byte(0))));
    assert_eq!(decode_number("0000aaa"), Ok(("aaa", Tag::Long(0))));
    assert_eq!(decode_number("0xAFFExyz"), Ok(("xyz", Tag::Long(0xAFFE))));
}

#[test]
fn space_skips_unicode_white_space_only() {
    assert_eq!(space("\u{3000}\t\n\u{a0}\u{2028} x "), "x ");
    assert_eq!(space("\u{200b}x"), "\u{200b}x");
    assert_eq!(space(space("  \r\n y")), space("  \r\n y"));
}

#[test]
fn encode_integers() {
    assert_eq!(encode(&Tag::Byte(-5)), "-5b");
    assert_eq!(encode(&Tag::Byte(i8::MIN)), "-128b");
    assert_eq!(encode(&Tag::Short(300)), "300s");
    assert_eq!(encode(&Tag::Int(i32::MIN)), "-2147483648i");
    assert_eq!(encode(&Tag::Int(0)), "0i");
    assert_eq!(encode(&Tag::Long(i64::MIN)), "-9223372036854775808l");
    assert_eq!(encode(&Tag::Long(i64::MAX)), "9223372036854775807l");
}

#[test]
fn encode_floats() {
    assert_eq!(encode(&Tag::Float(1.5f32.to_string())), "1.5f");
    assert_eq!(encode(&Tag::Double(0.1f64.to_string())), "0.1d");
    assert_eq!(encode(&Tag::Double((-2.0f64).to_string())), "-2d");
}

#[test]
fn encode_arrays() {
    assert_eq!(encode(&Tag::ByteArray(vec![1, -2])), "[B;1b,-2b]");
    assert_eq!(encode(&Tag::ByteArray(vec![])), "[B;]");
    assert_eq!(encode(&Tag::IntArray(vec![7, 8, 9])), "[I;7,8,9]");
    assert_eq!(encode(&Tag::IntArray(vec![])), "[I;]");
    assert_eq!(encode(&Tag::LongArray(vec![3])), "[L;3l]");
    assert_eq!(encode(&Tag::LongArray(vec![-1, 0])), "[L;-1l,0l]");
}

#[test]
fn encode_string_escapes() {
    assert_eq!(encode(&Tag::String("".to_string())), "\"\"");
    assert_eq!(
        encode(&Tag::String("a\"b\\c\n\t'\r\u{8}\u{c}é".to_string())),
        "\"a\\\"b\\\\c\\n\\t\\'\\r\\b\\fé\""
    );
}

#[test]
fn escape_gives_backslash_then_letter() {
    let mut e = Encoder::escape('\n');
    assert_eq!(e, EscapedIterator::Escaped('n'));
    assert_eq!(e.next(), Some('\\'));
    assert_eq!(e.next(), Some('n'));
    assert_eq!(e.next(), None);
    assert_eq!(e.next(), None);
    let mut l = Encoder::escape('z');
    assert_eq!(l.next(), Some('z'));
    assert_eq!(l.next(), None);
    assert_eq!(Encoder::escape('"'), EscapedIterator::Escaped('"'));
    assert_eq!(Encoder::escape('\''), EscapedIterator::Escaped('\''));
}

#[test]
fn encode_lists_and_compounds() {
    assert_eq!(encode(&Tag::List(TagType::End, vec![])), "[]");
    let nested = Tag::List(
        TagType::List,
        vec![Tag::List(TagType::Byte, vec![Tag::Byte(1), Tag::Byte(2)]), Tag::List(TagType::Short, vec![Tag::Short(3)])],
    );
    assert_eq!(encode(&nested), "[[1b,2b],[3s]]");
    assert_eq!(encode(&Tag::Compound(Compound::new())), "{}");
    let mut inner = Compound::new();
    inner.insert("x".to_string(), Tag::Int(1));
    let mut c = Compound::new();
    c.insert("a\"".to_string(), Tag::Compound(inner));
    c.insert("b".to_string(), Tag::IntArray(vec![2]));
    c.insert("a\"".to_string(), Tag::Long(5));
    assert_eq!(encode(&Tag::Compound(c)), "{\"a\\\"\":5l,\"b\":[I;2]}");
}

#[test]
fn encoder_appends() {
    let mut encoder = Encoder::new();
    assert_eq!(encoder.buffer(), "");
    encoder.encode_tag(&Tag::Byte(1));
    encoder.encode_tag(&Tag::String("x".to_string()));
    assert_eq!(encoder.buffer(), "1b\"x\"");
}

#[test]
fn decode_tag_numbers() {
    assert_eq!(decode_tag("  -42rest"), Ok(("rest", Tag::Long(-42))));
    assert_eq!(decode_tag("\n0b101,"), Ok((",", Tag::Long(5))));
    assert_eq!(decode_tag("9223372036854775807"), Ok(("", Tag::Long(i64::MAX))));
    assert_eq!(decode_tag("0xff"), Ok(("", Tag::Long(255))));
    assert_eq!(decode_tag("0x1F"), Ok(("", Tag::Long(31))));
    assert_eq!(decode_tag("012"), Ok(("", Tag::Long(12))));
    assert_eq!(decode_tag("0"), Ok(("", Tag::Byte(0))));
    assert_eq!(decode_tag("0b2"), Ok(("2", Tag::Byte(0))));
}

#[test]
fn decode_tag_errors() {
    assert_eq!(decode_tag(""), Err(SnbtError::EmptyInput));
    assert_eq!(decode_tag(" \t\n"), Err(SnbtError::EmptyInput));
    assert_eq!(decode_tag("  #"), Err(SnbtError::UnknownChar('#')));
    assert_eq!(decode_tag("}"), Err(SnbtError::UnknownChar('}')));
    assert!(matches!(decode_tag("1_000"), Err(SnbtError::ParseInt(_))));
    assert!(matches!(decode_tag("9223372036854775808"), Err(SnbtError::ParseInt(_))));
    assert!(matches!(decode_tag("-9223372036854775808"), Err(SnbtError::ParseInt(_))));
    assert!(matches!(decode_number("0x_1"), Err(SnbtError::ParseInt(_))));
}

#[test]
fn long_read_back() {
    for v in [1i64, -1, 42, -42, 1000, i64::MAX, i64::MIN + 1] {
        let text = encode(&Tag::Long(v));
        assert_eq!(decode_tag(&text), Ok(("l", Tag::Long(v))));
    }
    assert_eq!(decode_tag(&encode(&Tag::Long(0))), Ok(("l", Tag::Byte(0))));
    assert!(matches!(decode_tag(&encode(&Tag::Long(i64::MIN))), Err(SnbtError::ParseInt(_))));
}

#[test]
fn decode_leaves_the_end_of_the_input() {
    let input = "  123abc";
    let (rest, _) = decode_tag(input).unwrap();
    assert!(input.ends_with(rest));
    assert!(rest.len() < space(input).len());
}

#[test]
fn readable_tags() {
    assert!(tag_is_readable(""));
    assert!(tag_is_readable("   12"));
    assert!(tag_is_readable("#"));
    assert!(!tag_is_readable("0x1."));
    assert!(tag_is_readable("0b2."));
    assert!(!tag_is_readable(" {}"));
    assert!(!tag_is_readable("[1b]"));
    assert!(!tag_is_readable("\"s\""));
    assert!(!tag_is_readable("'s'"));
    assert!(!tag_is_readable("true"));
    assert!(!tag_is_readable("_x"));
    assert!(!tag_is_readable("1.5"));
    assert!(!tag_is_readable("-.5"));
    assert!(!tag_is_readable("."));
}

#[test]
fn parse_errors_are_those_of_from_str_radix() {
    assert_eq!(
        decode_tag("1_000"),
        Err(SnbtError::ParseInt(i64::from_str_radix("1_000", 10).unwrap_err()))
    );
    assert_eq!(
        decode_tag("9223372036854775808"),
        Err(SnbtError::ParseInt(i64::from_str_radix("9223372036854775808", 10).unwrap_err()))
    );
    assert_eq!(
        decode_number("0x_1"),
        Err(SnbtError::ParseInt(i64::from_str_radix("_1", 16).unwrap_err()))
    );
    let e = i64::from_str_radix("z", 10).unwrap_err();
    assert_eq!(SnbtError::from(e.clone()), SnbtError::ParseInt(e));
}

#[test]
fn sign_only_turns_a_long() {
    for s in ["0", "7x", "00", "0b101", "0xff;", "12_3", "99999999999999999999", "05"] {
        let plain = decode_number(s);
        assert_eq!(decode_number(&format!("+{s}")), plain);
        let negated = match decode_number(s) {
            Ok((rest, Tag::Long(n))) => Ok((rest, Tag::Long(-n))),
            other => other,
        };
        assert_eq!(decode_number(&format!("-{s}")), negated);
    }
}

#[test]
fn leading_white_space_changes_nothing() {
    for s in ["12", "-3x", "#", "", "0b1", "1_0"] {
        let w = format!(" \t\u{3000}\n{s}");
        assert_eq!(decode_tag(&w), decode_tag(s));
    }
}
