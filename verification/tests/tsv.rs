use dataflow::coerce::{int_of_width, power_of_two, uint_of_width};
use dataflow::data::DataType;
use dataflow::text::limited;
use dataflow::tsv::{field_value, number, parse_line, space};

fn chars(s: &str) -> Vec<char> {
    s.chars().collect()
}

#[test]
fn a_line_is_cut_at_its_tabs() {
    assert_eq!(
        parse_line("1\tapple pie\t -7 \t+3\t"),
        vec![DataType::Int(1), "apple pie".into(), DataType::Int(-7), DataType::Int(3), "".into()]
    );
    assert_eq!(parse_line(""), vec![DataType::from("")]);
    assert_eq!(parse_line("\t"), vec![DataType::from(""), DataType::from("")]);
    assert_eq!(parse_line("  x\u{a0}\r\n"), vec![DataType::from("x")]);
    assert_eq!(parse_line("12 34\t1e3\t0x10"), vec![DataType::from("12 34"), "1e3".into(), "0x10".into()]);
}

#[test]
fn a_field_is_a_number_where_it_spells_one() {
    for (text, expected) in [
        ("0", Some(0)),
        ("007", Some(7)),
        ("-0", Some(0)),
        ("+15", Some(15)),
        ("9223372036854775807", Some(i64::MAX)),
        ("-9223372036854775808", Some(i64::MIN)),
        ("9223372036854775808", None),
        ("-9223372036854775809", None),
        ("99999999999999999999999999999999999999999999", None),
        ("", None),
        ("-", None),
        ("+", None),
        ("--1", None),
        ("1-", None),
        ("１２", None),
        (" 1", None),
    ] {
        let cs = chars(text);
        assert_eq!(number(&cs, 0, cs.len()), expected, "{:?}", text);
        assert_eq!(expected, text.parse::<i64>().ok(), "{:?}", text);
    }
    let cs = chars("ab-12cd");
    assert_eq!(number(&cs, 2, 5), Some(-12));
    assert_eq!(number(&cs, 2, 6), None);
    assert_eq!(field_value(&chars("\t 42 \n")), DataType::Int(42));
    assert_eq!(field_value(&chars("  ")), DataType::from(""));
    assert_eq!(field_value(&chars(" 4 2 ")), DataType::from("4 2"));
}

#[test]
fn white_space_is_what_trimming_takes_away() {
    for code in 0..0x3100u32 {
        if let Some(c) = char::from_u32(code) {
            assert_eq!(space(c), c.is_whitespace(), "{:x}", code);
        }
    }
}

#[test]
fn a_number_fits_a_column_of_its_width() {
    assert_eq!(power_of_two(0), 1);
    assert_eq!(power_of_two(10), 1024);
    assert_eq!(power_of_two(63), 1 << 63);
    assert_eq!(int_of_width(127, 8), Some(DataType::Int(127)));
    assert_eq!(int_of_width(128, 8), None);
    assert_eq!(int_of_width(-128, 8), Some(DataType::Int(-128)));
    assert_eq!(int_of_width(-129, 8), None);
    assert_eq!(int_of_width(0, 1), Some(DataType::Int(0)));
    assert_eq!(int_of_width(-1, 1), Some(DataType::Int(-1)));
    assert_eq!(int_of_width(1, 1), None);
    assert_eq!(int_of_width(0, 0), None);
    assert_eq!(int_of_width(i64::MIN, 64), Some(DataType::Int(i64::MIN)));
    assert_eq!(int_of_width(i64::MAX, 63), None);
    assert_eq!(int_of_width(i64::MIN, 63), None);
    assert_eq!(uint_of_width(255, 8), Some(DataType::UnsignedInt(255)));
    assert_eq!(uint_of_width(256, 8), None);
    assert_eq!(uint_of_width(65535, 16), Some(DataType::UnsignedInt(65535)));
    assert_eq!(uint_of_width(4294967295, 32), Some(DataType::UnsignedInt(4294967295)));
    assert_eq!(uint_of_width(4294967296, 32), None);
    assert_eq!(uint_of_width(u64::MAX, 64), Some(DataType::UnsignedInt(u64::MAX)));
    assert_eq!(uint_of_width(0, 0), Some(DataType::UnsignedInt(0)));
    assert_eq!(uint_of_width(1, 0), None);
}

#[test]
fn a_text_is_held_to_its_length() {
    assert_eq!(limited("3.14159", None, true), "3.14159");
    assert_eq!(limited("3.14159", Some(4), false), "3.14");
    assert_eq!(limited("3.14159", Some(4), true), "3.14");
    assert_eq!(limited("1.5", Some(6), false), "1.5");
    assert_eq!(limited("1.5", Some(6), true), "1.5   ");
    assert_eq!(limited("1.5", Some(0), true), "");
    assert_eq!(limited("", Some(2), true), "  ");
    assert_eq!(limited("1.5", Some(3), true), "1.5");
}
