use z157::parser::decimal_string;
use z157::parser::name_byte;
use z157::parser::Expected;
use z157::parser::Field;
use z157::parser::FieldItems;
use z157::parser::FieldName;
use z157::parser::Fields;
use z157::parser::FieldsStruct;
use z157::parser::FieldsSubstruct;

#[test]
fn field_name() {
    const VALID: &[&str] = &[
        "a",
        "A",
        "0",
        "_",
        "-",
        "abcdefghijklmnopqrstuvwxyzABCDEFGHIJKLMNOPQRSTUVWXYZ0123456789-_",
    ];
    const INVALID: &[&str] = &["", "!", "abc/"];

    for &s in VALID {
        let (field_name, rest) = FieldName::parse(s.as_bytes(), 0).unwrap();
        assert_eq!(s, &s[field_name.0.range()]);
        assert!(s[rest..].is_empty());
    }

    for &s in INVALID {
        let field_name = FieldName::parse(s.as_bytes(), 0);
        let rest = match &field_name {
            Ok((_, rest)) => *rest,
            Err(_) => 0,
        };
        assert!(
            !s[rest..].is_empty() || field_name.is_err(),
            "{s}\n{field_name:?}"
        );
    }
}

#[test]
fn fields() {
    let s = "-(field_a)";
    let fields: Fields = Fields::try_from(s).unwrap();
    assert!(fields.negation);
    let field_items = fields.fields_struct.0 .0;
    assert_eq!(field_items.len(), 1);
    assert!(matches!(
        &field_items[0],
        Field::FieldName(FieldName(name)) if &s[name.range()] == "field_a"
    ));

    let s = "(field_a(field_b,field_c(field_d)),field_d)";
    let fields: Fields = Fields::try_from(s).unwrap();
    assert!(!fields.negation);
    let field_items = fields.fields_struct.0 .0;
    assert_eq!(field_items.len(), 2);
    assert!(matches!(field_items[0], Field::FieldsSubstruct(_)));
    assert!(matches!(
        &field_items[1],
        Field::FieldName(FieldName(name)) if &s[name.range()] == "field_d"
    ));
}

#[test]
fn name_bytes_are_letters_digits_dash_and_underscore() {
    for b in 0..=255u8 {
        let expected = b.is_ascii_alphanumeric() || b == b'-' || b == b'_';
        assert_eq!(name_byte(b), expected, "{b}");
    }
}

#[test]
fn field_name_is_the_longest_run() {
    let s = "ab-c_9(x)";
    let (name, end) = FieldName::parse(s.as_bytes(), 0).unwrap();
    assert_eq!(name.0.range(), 0..6);
    assert_eq!(end, 6);
    let (name, end) = FieldName::parse(s.as_bytes(), 3).unwrap();
    assert_eq!(name.0.range(), 3..6);
    assert_eq!(end, 6);
    let (name, end) = FieldName::parse(s.as_bytes(), 7).unwrap();
    assert_eq!(name.0.range(), 7..8);
    assert_eq!(end, 8);
}

#[test]
fn field_name_fails_where_no_name_byte_stands() {
    let s = "ab(";
    let error = FieldName::parse(s.as_bytes(), 2).err().unwrap();
    assert_eq!(error.position(), 2);
    assert_eq!(error.expected(), Expected::Name);
    let error = FieldName::parse(s.as_bytes(), 3).err().unwrap();
    assert_eq!(error.position(), 3);
    assert_eq!(error.expected(), Expected::Name);
}

#[test]
fn field_is_a_name_or_a_name_with_a_list() {
    let s = "(a(b,c),d)";
    let fields = Fields::try_from(s).unwrap();
    let mut items = fields.fields_struct.0 .0.into_iter();
    match items.next().unwrap() {
        Field::FieldsSubstruct(FieldsSubstruct {
            field_name,
            fields_struct,
        }) => {
            assert_eq!(field_name.0.range(), 1..2);
            let FieldsStruct(FieldItems(below)) = fields_struct;
            assert_eq!(below.len(), 2);
            assert!(matches!(&below[0], Field::FieldName(FieldName(r)) if r.range() == (3..4)));
            assert!(matches!(&below[1], Field::FieldName(FieldName(r)) if r.range() == (5..6)));
        }
        Field::FieldName(_) => panic!("expected a field with a list"),
    }
    let last = items.next().unwrap();
    assert!(matches!(last, Field::FieldName(FieldName(r)) if r.range() == (8..9)));
    assert!(items.next().is_none());
}

#[test]
fn a_list_that_does_not_close_is_refused() {
    let error = Fields::try_from("(a(b,").err().unwrap();
    assert_eq!(error.position(), 2);
    assert_eq!(error.expected(), Expected::Close);
}

#[test]
fn field_items_are_separated_by_commas() {
    let s = "(a,bb,ccc)";
    let fields = Fields::try_from(s).unwrap();
    let ranges: Vec<_> = fields
        .fields_struct
        .0
         .0
        .iter()
        .map(|field| match field {
            Field::FieldName(FieldName(r)) => r.range(),
            Field::FieldsSubstruct(_) => panic!("expected a name"),
        })
        .collect();
    assert_eq!(ranges, [1..2, 3..5, 6..9]);
}

#[test]
fn field_items_fail_after_a_comma_without_a_field() {
    let error = Fields::try_from("(a,)").err().unwrap();
    assert_eq!(error.position(), 3);
    assert_eq!(error.expected(), Expected::Name);
    let error = Fields::try_from("(a,,b)").err().unwrap();
    assert_eq!(error.position(), 3);
    assert_eq!(error.expected(), Expected::Name);
}

#[test]
fn fields_struct_needs_both_parentheses() {
    let fields = Fields::try_from("(a,b)").unwrap();
    assert_eq!(fields.fields_struct.0 .0.len(), 2);

    let error = Fields::try_from("a,b)").err().unwrap();
    assert_eq!(error.position(), 0);
    assert_eq!(error.expected(), Expected::Open);

    let error = Fields::try_from("(a,b").err().unwrap();
    assert_eq!(error.position(), 4);
    assert_eq!(error.expected(), Expected::Close);

    let error = Fields::try_from("(a b)").err().unwrap();
    assert_eq!(error.position(), 2);
    assert_eq!(error.expected(), Expected::Close);
}

#[test]
fn fields_must_take_the_whole_text() {
    let error = Fields::try_from("(a)b").err().unwrap();
    assert_eq!(error.position(), 3);
    assert_eq!(error.expected(), Expected::End);
    let error = Fields::try_from(" (a)").err().unwrap();
    assert_eq!(error.position(), 0);
    assert_eq!(error.expected(), Expected::Open);
    let error = Fields::try_from("").err().unwrap();
    assert_eq!(error.position(), 0);
    assert_eq!(error.expected(), Expected::Open);
    let error = Fields::try_from("()").err().unwrap();
    assert_eq!(error.position(), 1);
    assert_eq!(error.expected(), Expected::Name);
}

#[test]
fn negation_marker_counts_only_before_a_parenthesis() {
    assert!(Fields::try_from("-(a)").unwrap().negation);
    assert!(!Fields::try_from("(a)").unwrap().negation);
    assert!(!Fields::try_from("(-)").unwrap().negation);
    assert!(Fields::try_from("-(-)").unwrap().negation);
    assert!(Fields::try_from("-a").is_err());
    assert!(Fields::try_from("-").is_err());
    assert!(Fields::try_from("--(a)").is_err());
    assert!(Fields::try_from("!(a)").is_err());
}

#[test]
fn names_outside_the_alphabet_are_refused() {
    for text in ["(a.b)", "(a b)", "(é)", "(a,b!)", "(a(b$))", "(a\n)", "(a)\n", "(a/b)"] {
        assert!(Fields::try_from(text).is_err(), "{text}");
    }
    assert!(Fields::try_from("(a-b_C9)").is_ok());
}

#[test]
fn error_message_names_what_was_expected_and_where() {
    let error = Fields::try_from("(a,)").err().unwrap();
    assert_eq!(
        error.to_string(),
        "failed to parse: expected a field name at offset 3"
    );
    let error = Fields::try_from("(").err().unwrap();
    assert_eq!(
        error.to_string(),
        "failed to parse: expected a field name at offset 1"
    );
    let error = Fields::try_from("(abcdefghijkl").err().unwrap();
    assert_eq!(
        error.to_string(),
        "failed to parse: expected a comma or a closing parenthesis at offset 13"
    );
    let error = Fields::try_from("x").err().unwrap();
    assert_eq!(
        error.to_string(),
        "failed to parse: expected an opening parenthesis at offset 0"
    );
    let error = Fields::try_from("(a))").err().unwrap();
    assert_eq!(
        error.to_string(),
        "failed to parse: expected the end of the text at offset 3"
    );
}

#[test]
fn decimal_numerals() {
    assert_eq!(decimal_string(0), "0");
    assert_eq!(decimal_string(7), "7");
    assert_eq!(decimal_string(10), "10");
    assert_eq!(decimal_string(409), "409");
    assert_eq!(decimal_string(1234567890), "1234567890");
    assert_eq!(decimal_string(usize::MAX), format!("{}", usize::MAX));
}

#[test]
fn deeply_nested_text_parses() {
    let depth = 200;
    let mut text = String::from("(");
    for _ in 0..depth {
        text.push_str("a(");
    }
    text.push('z');
    for _ in 0..depth {
        text.push(')');
    }
    text.push(')');
    let fields = Fields::try_from(text.as_str()).unwrap();
    let mut items = &fields.fields_struct.0 .0;
    let mut seen = 0;
    while let Field::FieldsSubstruct(sub) = &items[0] {
        items = &sub.fields_struct.0 .0;
        seen += 1;
    }
    assert_eq!(seen, depth);
}
