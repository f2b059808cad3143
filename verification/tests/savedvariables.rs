use profiling2::savedvariables::{
    from_str, parse_items, parse_pair, parse_text, parse_value, spacing, ParseError,
};
use profiling2::schema::{
    expect_bool, expect_fields, expect_float, expect_text, expect_unsigned, field_bool,
    field_float, field_text, optional, required,
};
use profiling2::types::float_seq;
use profiling2::value::{Table, Value};
use std::borrow::Cow;

fn text(s: &str) -> Value<'_> {
    Value::String(Cow::Borrowed(s.as_bytes()))
}

fn key(s: &str) -> Cow<'_, [u8]> {
    Cow::Borrowed(s.as_bytes())
}

fn float(x: f64) -> Value<'static> {
    Value::Float(x.to_bits())
}

#[test]
fn deserialize_string() {
    let v = from_str(r#"'foo'"#).unwrap();
    let s = expect_text(&v).unwrap();
    assert_eq!(&s[..], b"foo");
}

#[test]
fn deserialize_option() {
    let v = from_str("nil").unwrap();
    let opt = optional(&v).map(|inner| expect_unsigned(inner).unwrap());
    assert_eq!(opt, None);

    let v = from_str("1234").unwrap();
    let opt = optional(&v).map(|inner| expect_unsigned(inner).unwrap());
    assert_eq!(opt, Some(1234));
}

#[test]
fn deserialize_float() {
    let v = from_str("-1.342").unwrap();
    let f = f64::from_bits(expect_float(&v).unwrap());

    assert_eq!(f, -1.342);
}

#[test]
fn deserialize_newtype() {
    #[derive(PartialEq, Eq, Debug)]
    struct Test(u64);
    let v = from_str(r#"1234"#).unwrap();
    let test = Test(expect_unsigned(&v).unwrap());

    assert_eq!(test, Test(1234));
}

#[test]
fn deserialize_unit() {
    let v = from_str("nil").unwrap();
    assert_eq!(v, Value::Nil);
}

#[test]
fn deserialize_tuple() {
    let v = from_str("{1.234,'foo'}").unwrap();
    let tup = match &v {
        Value::Table(Table::Array(items)) if items.len() == 2 => (
            f64::from_bits(expect_float(&items[0]).unwrap()),
            String::from_utf8(expect_text(&items[1]).unwrap().to_vec()).unwrap(),
        ),
        other => panic!("{:?}", other),
    };
    assert_eq!(tup, (1.234, "foo".to_string()));
}

#[test]
fn deserialize_struct() {
    #[derive(Debug, PartialEq)]
    struct Test {
        foo: String,
        bar: f64,
        baz: bool,
    }

    let v = from_str(r#"{ foo = "xyz", bar = 12.345, baz = false }"#).unwrap();
    let fields = expect_fields(&v, "Test").unwrap();
    let test = Test {
        foo: String::from_utf8(field_text(fields, "Test", "foo").unwrap().to_vec()).unwrap(),
        bar: f64::from_bits(field_float(fields, "Test", "bar").unwrap()),
        baz: field_bool(fields, "Test", "baz").unwrap(),
    };

    assert_eq!(
        test,
        Test {
            foo: "xyz".to_string(),
            bar: 12.345,
            baz: false,
        }
    );
}

#[test]
fn deserialize_enum() {
    #[derive(Debug, PartialEq)]
    enum Test {
        Empty,
        Float(f64),
        Array { value: Vec<u64> },
    }

    fn read(v: &Value) -> Test {
        if *v == Value::Nil {
            return Test::Empty;
        }
        if let Ok(bits) = expect_float(v) {
            return Test::Float(f64::from_bits(bits));
        }
        let fields = expect_fields(v, "Test").unwrap();
        let list = required(fields, "Test", "value").unwrap();
        match list {
            Value::Table(Table::Array(items)) => Test::Array {
                value: items.iter().map(|i| expect_unsigned(i).unwrap()).collect(),
            },
            other => panic!("{:?}", other),
        }
    }

    let v = from_str(r#"{nil, 0.1234, { value = {0, 1, 2, 3}}}"#).unwrap();
    let result: Vec<Test> = match &v {
        Value::Table(Table::Array(items)) => items.iter().map(read).collect(),
        other => panic!("{:?}", other),
    };
    assert_eq!(
        result,
        vec![
            Test::Empty,
            Test::Float(0.1234),
            Test::Array {
                value: vec![0, 1, 2, 3]
            }
        ]
    )
}

#[test]
fn parse_table_comment() {
    let input = r#"{ -- foo
                                                             }"#;
    let (value, _) = parse_value(input.as_bytes(), 0).unwrap();

    assert_eq!(value, Value::Table(Table::Empty));
}

#[test]
fn parse_string_key() {
    let input = b"[\"recordings\"] = 123";
    let ((k, v), next) = parse_pair(input, 0).unwrap();
    assert_eq!(&k[..], b"recordings");
    assert_eq!(v, Value::Int(123));
    assert_eq!(next, input.len());
}

#[test]
fn parse_comment() {
    let input = b"-- foo\r\n";
    assert_eq!(spacing(input, 0), input.len());
}

#[test]
fn parse_encounter_table() {
    let input = r#"{
                                ["mapId"] = 1571,
                                ["success"] = true,
                                ["endTime"] = 1681777809,
                                ["kind"] = "mythicplus",
                                ["startTime"] = 1681776154,
                                ["groupSize"] = 5,
                        }"#;
    let (v, next) = parse_value(input.as_bytes(), 0).unwrap();
    assert_eq!(next, input.len());
    assert_eq!(
        v,
        Value::Table(Table::Named(vec![
            (key("kind"), text("mythicplus")),
            (key("mapId"), Value::Int(1571)),
            (key("success"), Value::Bool(true)),
            (key("endTime"), Value::Int(1681777809)),
            (key("startTime"), Value::Int(1681776154)),
            (key("groupSize"), Value::Int(5)),
        ]))
    );
}

#[test]
fn parse_samples_table() {
    let input = r#"{
                   0.003000000026077032, -- [1]
                   0.005000000353902578, -- [2]
                   0.006000000052154064, -- [3]
                   0.005000000353902578, -- [4]
                   0.005000000353902578, -- [5]
                   0.00800000037997961, -- [6]
                   0.005000000353902578, -- [7]
                   0.006000000052154064, -- [8]
                   0.007000000216066837, -- [9]
              }"#;
    let (v, next) = parse_value(input.as_bytes(), 0).unwrap();
    assert_eq!(next, input.len());
    let samples = float_seq(&v, "Stats").unwrap();
    assert_eq!(samples.len(), 9);
    assert_eq!(f64::from_bits(samples[0]), 0.003000000026077032);
    assert_eq!(f64::from_bits(samples[5]), 0.00800000037997961);
    assert_eq!(f64::from_bits(samples[8]), 0.007000000216066837);
}

#[test]
fn parse_nested_tables() {
    let input = b"{ 'abcd', 0, {{}}}";
    let (v, next) = parse_value(input, 0).unwrap();
    assert_eq!(next, input.len());
    assert_eq!(
        v,
        Value::Table(Table::Array(vec![
            text("abcd"),
            Value::Int(0),
            Value::Table(Table::Array(vec![Value::Table(Table::Empty)])),
        ]))
    );
}

#[test]
fn parse_single_string() {
    let (v, next) = parse_value(b"'abcd'", 0).unwrap();
    assert_eq!(v, text("abcd"));
    assert_eq!(next, 6);
}

#[test]
fn parse_string_bad_escape() {
    let input = r#""ab\d\"""#;
    let (v, next) = parse_value(input.as_bytes(), 0).unwrap();
    assert_eq!(v, text(r#"ab\d\""#));
    assert_eq!(next, input.len());
}

#[test]
fn scalars() {
    assert_eq!(from_str("nil").unwrap(), Value::Nil);
    assert_eq!(from_str("true").unwrap(), Value::Bool(true));
    assert_eq!(from_str("false").unwrap(), Value::Bool(false));
    assert_eq!(from_str("0").unwrap(), Value::Int(0));
    assert_eq!(from_str("+17").unwrap(), Value::Int(17));
    assert_eq!(from_str("-17").unwrap(), Value::Int(-17));
    assert_eq!(from_str("9223372036854775807").unwrap(), Value::Int(i64::MAX));
    assert_eq!(from_str("-9223372036854775808").unwrap(), Value::Int(i64::MIN));
    assert_eq!(from_str("\"\"").unwrap(), text(""));
    assert_eq!(from_str("''").unwrap(), text(""));
    assert_eq!(from_str("\"it's\"").unwrap(), text("it's"));
}

#[test]
fn a_number_with_a_point_is_a_float() {
    assert_eq!(from_str("12.345").unwrap(), float(12.345));
    assert_eq!(from_str("12.").unwrap(), float(12.0));
    assert_eq!(from_str(".5").unwrap(), float(0.5));
    assert_eq!(from_str("-0.0").unwrap(), float(-0.0));
    assert_eq!(from_str("1.5e3").unwrap(), float(1500.0));
    assert_eq!(from_str("12").unwrap(), Value::Int(12));
}

#[test]
fn an_integer_too_long_for_its_type_is_a_float() {
    assert_eq!(from_str("9223372036854775808").unwrap(), float(9223372036854775808.0));
    assert_eq!(from_str("100000000000000000000").unwrap(), float(1e20));
}

#[test]
fn tables() {
    assert_eq!(from_str("{}").unwrap(), Value::Table(Table::Empty));
    assert_eq!(from_str("{ \t\r\n }").unwrap(), Value::Table(Table::Empty));
    assert_eq!(
        from_str("{1,2,}").unwrap(),
        Value::Table(Table::Array(vec![Value::Int(1), Value::Int(2)]))
    );
    assert_eq!(
        from_str("{ a = 1, [\"b c\"] = 'x', ['d'] = {} , }").unwrap(),
        Value::Table(Table::Named(vec![
            (key("a"), Value::Int(1)),
            (key("b c"), text("x")),
            (key("d"), Value::Table(Table::Empty)),
        ]))
    );
    assert_eq!(
        from_str("{ 2ident = nil }").unwrap(),
        Value::Table(Table::Named(vec![(key("2ident"), Value::Nil)]))
    );
}

#[test]
fn the_last_of_two_entries_with_one_key_counts() {
    let v = from_str("{ a = 1, b = 2, a = 3 }").unwrap();
    assert_eq!(
        v,
        Value::Table(Table::Named(vec![(key("b"), Value::Int(2)), (key("a"), Value::Int(3))]))
    );
    let fields = expect_fields(&v, "Test").unwrap();
    assert_eq!(expect_unsigned(required(fields, "Test", "a").unwrap()).unwrap(), 3);
}

#[test]
fn the_order_of_entries_does_not_matter() {
    assert_eq!(from_str("{ a = 1, b = 2 }").unwrap(), from_str("{ b = 2, a = 1 }").unwrap());
    assert_ne!(from_str("{ a = 1, b = 2 }").unwrap(), from_str("{ b = 2, a = 2 }").unwrap());
    assert_ne!(from_str("{ a = 1, b = 2 }").unwrap(), from_str("{ a = 1 }").unwrap());
    assert_ne!(from_str("{ a = 1 }").unwrap(), from_str("{ a = 1, b = 2 }").unwrap());
    assert_ne!(from_str("{1, 2}").unwrap(), from_str("{2, 1}").unwrap());
}

#[test]
fn an_assignment_gives_its_value() {
    assert_eq!(from_str("x = 5").unwrap(), Value::Int(5));
    assert_eq!(from_str("  -- saved\n  x = 5 -- done\n").unwrap(), Value::Int(5));
    assert_eq!(from_str("['x'] = 5").unwrap(), Value::Int(5));
    assert_eq!(from_str("  5  ").unwrap(), Value::Int(5));
}

#[test]
fn comments_are_white_space() {
    let v = from_str("{ -- first\r\n 1 -- one\n , -- comma\n 2 -- two\n } -- end").unwrap();
    assert_eq!(v, Value::Table(Table::Array(vec![Value::Int(1), Value::Int(2)])));
    // a carriage return alone does not end a comment
    assert!(from_str("1 -- a\rb").is_err());
}

#[test]
fn strings_are_slices_of_the_text() {
    let input = String::from("{ name = \"xyz\", 'q' }");
    assert!(from_str(&input).is_err());
    let input = String::from("t = { name = \"xyz\", other = { 'q' } }");
    let v = from_str(&input).unwrap();
    let first = input.as_bytes().as_ptr() as usize;
    let range = (first, first + input.len());
    fn check(v: &Value, range: &(usize, usize), seen: &mut usize) {
        match v {
            Value::String(Cow::Borrowed(s)) => {
                assert!(range.0 <= s.as_ptr() as usize && s.as_ptr() as usize + s.len() <= range.1);
                *seen += 1;
            }
            Value::String(Cow::Owned(_)) => panic!("a copy"),
            Value::Table(Table::Named(entries)) => {
                for (k, v) in entries {
                    match k {
                        Cow::Borrowed(k) => {
                            assert!(range.0 <= k.as_ptr() as usize && k.as_ptr() as usize + k.len() <= range.1);
                            *seen += 1;
                        }
                        Cow::Owned(_) => panic!("a copy"),
                    }
                    check(v, range, seen);
                }
            }
            Value::Table(Table::Array(items)) => {
                for v in items {
                    check(v, range, seen);
                }
            }
            _ => {}
        }
    }
    let mut seen = 0;
    check(&v, &range, &mut seen);
    assert_eq!(seen, 4);
}

fn offset(r: Result<Value<'_>, ParseError>) -> usize {
    match r {
        Err(ParseError::ValueError { offset }) => offset,
        other => panic!("{:?}", other),
    }
}

#[test]
fn a_text_that_does_not_follow_the_syntax() {
    assert_eq!(offset(from_str("")), 0);
    assert_eq!(offset(from_str("   ")), 3);
    assert_eq!(offset(from_str("5 6")), 2);
    assert_eq!(offset(from_str("x = ")), 4);
    assert_eq!(offset(from_str("{ 1, 2 ")), 7);
    assert_eq!(offset(from_str("{ a = 1, 2 }")), 9);
    assert_eq!(offset(from_str("\"abc")), 0);
    assert_eq!(offset(parse_text(b"{ a = 'x }")), 6);
}

#[test]
fn items_stop_before_a_comma_that_nothing_follows() {
    let input = b"1, 2, }";
    let (items, next) = parse_items(input, 0).unwrap();
    assert_eq!(items, vec![Value::Int(1), Value::Int(2)]);
    assert_eq!(next, 4);
}

fn next_random(state: &mut u64) -> u64 {
    *state ^= *state << 13;
    *state ^= *state >> 7;
    *state ^= *state << 17;
    *state
}

#[test]
fn any_text_gives_a_value_or_an_offset_inside_it() {
    let alphabet = b"{}[]=,'\"\\-.+e0123456789 \n\rnilftruas_x";
    let mut state = 0x9e3779b97f4a7c15u64;
    let mut values = 0;
    for _ in 0..20000 {
        let len = (next_random(&mut state) % 16) as usize;
        let text: Vec<u8> = (0..len)
            .map(|_| alphabet[(next_random(&mut state) % alphabet.len() as u64) as usize])
            .collect();
        match parse_text(&text) {
            Ok(_) => values += 1,
            Err(ParseError::ValueError { offset }) => assert!(offset <= text.len()),
            Err(other) => panic!("{:?}", other),
        }
    }
    assert!(values > 100);
}
