use jsonish::model::LookupError;
use jsonish::model::ParseError;
use jsonish::parser::Cursor;
use jsonish::parser::Object;
use jsonish::parser::ObjectField;
use jsonish::parser::ObjectValue;
use jsonish::parser::Parser;

fn parse_str(s: &str) -> Result<ObjectValue, ParseError> {
    Parser::new(s).parse()
}

fn cursor_of(s: &str) -> Cursor {
    Cursor::new(s.chars().collect())
}

#[test]
fn empty_list_parses_to_zero_length_list() {
    let v = parse_str("[]").unwrap();
    let list = v.get_list().unwrap();
    assert_eq!(list.len(), 0);
}

#[test]
fn empty_object_parses_to_zero_length_object() {
    let v = parse_str("{}").unwrap();
    let obj = v.get_object().unwrap();
    assert_eq!(obj.fields().len(), 0);
}

#[test]
fn number_at_upper_bound_parses_exactly() {
    let v = parse_str("4294967295").unwrap();
    assert_eq!(v.get_number(), Some(4294967295));
}

#[test]
fn number_just_past_upper_bound_fails() {
    assert_eq!(parse_str("4294967296").unwrap_err(), ParseError::InvalidNumber);
}

#[test]
fn number_zero_parses() {
    let v = parse_str("0").unwrap();
    assert_eq!(v.get_number(), Some(0));
}

#[test]
fn number_with_leading_zeros_parses_to_value() {
    let v = parse_str("007").unwrap();
    assert_eq!(v.get_number(), Some(7));
}

#[test]
fn boolean_true_is_case_insensitive() {
    for text in ["true", "True", "TRUE", "tRuE"] {
        let v = parse_str(text).unwrap();
        assert_eq!(v.get_bool(), Some(true));
    }
}

#[test]
fn boolean_false_is_case_insensitive() {
    for text in ["false", "False", "FALSE", "fAlSe"] {
        let v = parse_str(text).unwrap();
        assert_eq!(v.get_bool(), Some(false));
    }
}

#[test]
fn boolean_near_miss_fails() {
    assert_eq!(parse_str("TrUth").unwrap_err(), ParseError::InvalidBoolean);
}

#[test]
fn boolean_truncated_by_end_of_input_fails() {
    assert_eq!(parse_str("tru").unwrap_err(), ParseError::InvalidBoolean);
    assert_eq!(parse_str("fals").unwrap_err(), ParseError::InvalidBoolean);
}

#[test]
fn duplicate_keys_parse_and_lookup_takes_first() {
    let v = parse_str("{\"a\":1,\"a\":2}").unwrap();
    let obj = v.get_object().unwrap();
    assert_eq!(obj.fields().len(), 2);
    let found = obj.get_by_key("a").unwrap();
    assert_eq!(found.get_number(), Some(1));
}

#[test]
fn missing_closing_brace_reports_expected_and_none() {
    assert_eq!(parse_str("{\"a\":1").unwrap_err(), ParseError::UnexpectedToken { expected: Some('}'), actual: None });
}

#[test]
fn missing_closing_bracket_reports_expected_and_none() {
    assert_eq!(parse_str("[1").unwrap_err(), ParseError::UnexpectedToken { expected: Some(']'), actual: None });
}

#[test]
fn accessor_mismatch_is_absent_not_fatal() {
    let v = parse_str("1").unwrap();
    assert_eq!(v.get_text(), None);
    assert_eq!(v.get_bool(), None);
    assert!(v.get_list().is_none());
    assert!(v.get_object().is_none());
}

#[test]
fn end_to_end_record_extraction() {
    let v = parse_str("[{\"vaddr\":4096,\"name\":\"foo\"}]").unwrap();
    let list = v.get_list().unwrap();
    assert_eq!(list.len(), 1);
    let obj = list[0].get_object().unwrap();
    assert_eq!(obj.get_by_key("vaddr").unwrap().get_number(), Some(4096));
    assert_eq!(obj.get_by_key("name").unwrap().get_text(), Some("foo"));
}

#[test]
fn empty_input_reports_empty_input() {
    assert_eq!(parse_str("").unwrap_err(), ParseError::EmptyInput);
}

#[test]
fn unknown_dispatch_character_reports_unexpected_token() {
    assert_eq!(parse_str("@").unwrap_err(), ParseError::UnexpectedToken { expected: None, actual: Some('@') });
}

#[test]
fn list_order_is_declaration_order() {
    let v = parse_str("[3,1,2]").unwrap();
    let list = v.get_list().unwrap();
    let numbers: Vec<u32> = list.iter().map(|x| x.get_number().unwrap()).collect();
    assert_eq!(numbers, vec![3, 1, 2]);
}

#[test]
fn object_field_order_is_declaration_order() {
    let v = parse_str("{\"b\":2,\"a\":1}").unwrap();
    let obj = v.get_object().unwrap();
    let fields = obj.fields();
    assert_eq!(fields[0].key(), "b");
    assert_eq!(fields[1].key(), "a");
    assert_eq!(fields[0].value().get_number(), Some(2));
    assert_eq!(fields[1].value().get_number(), Some(1));
}

#[test]
fn nested_structure_mirrors_input() {
    let v = parse_str("[[1,2],{\"k\":[true]}]").unwrap();
    let outer = v.get_list().unwrap();
    assert_eq!(outer.len(), 2);
    let inner = outer[0].get_list().unwrap();
    assert_eq!(inner.len(), 2);
    assert_eq!(inner[1].get_number(), Some(2));
    let obj = outer[1].get_object().unwrap();
    let arr = obj.get_by_key("k").unwrap().get_list().unwrap();
    assert_eq!(arr[0].get_bool(), Some(true));
}

#[test]
fn one_whitespace_before_delimiter_is_tolerated() {
    let v = parse_str("{ \"a\":1}").unwrap();
    let obj = v.get_object().unwrap();
    assert_eq!(obj.get_by_key("a").unwrap().get_number(), Some(1));
}

#[test]
fn two_whitespace_characters_before_delimiter_fail() {
    assert_eq!(
        parse_str("{  \"a\":1}").unwrap_err(),
        ParseError::UnexpectedToken { expected: Some('"'), actual: Some(' ') }
    );
}

#[test]
fn whitespace_before_value_dispatch_fails() {
    assert_eq!(parse_str("{\"a\": 1}").unwrap_err(), ParseError::UnexpectedToken { expected: None, actual: Some(' ') });
}

#[test]
fn unterminated_text_consumes_to_end_without_error() {
    let v = parse_str("\"abc").unwrap();
    assert_eq!(v.get_text(), Some("abc"));
}

#[test]
fn text_keeps_characters_verbatim() {
    let v = parse_str("\"a b\tc\"").unwrap();
    assert_eq!(v.get_text(), Some("a b\tc"));
}

#[test]
fn indexing_a_list_in_range_and_out_of_range() {
    let v = parse_str("[10,20]").unwrap();
    assert_eq!(v.get_by_index(1).unwrap().get_number(), Some(20));
    assert_eq!(v.get_by_index(2).unwrap_err(), LookupError::IndexOutOfRange);
}

#[test]
fn indexing_a_non_list_is_a_type_mismatch() {
    let v = parse_str("7").unwrap();
    assert_eq!(v.get_by_index(0).unwrap_err(), LookupError::TypeMismatch);
}

#[test]
fn lookup_of_absent_key_reports_key_not_found() {
    let v = parse_str("{\"a\":1}").unwrap();
    let obj = v.get_object().unwrap();
    assert_eq!(
        obj.get_by_key("b").unwrap_err(),
        LookupError::KeyNotFound { key: String::from("b") }
    );
}

#[test]
fn object_parse_direct_from_cursor() {
    let mut cur = cursor_of("{\"x\":true}");
    let obj = Object::parse(&mut cur).unwrap();
    assert_eq!(obj.fields().len(), 1);
    assert_eq!(obj.get_by_key("x").unwrap().get_bool(), Some(true));
}

#[test]
fn field_parse_direct_from_cursor() {
    let mut cur = cursor_of("\"name\":\"foo\"");
    let field = ObjectField::parse(&mut cur).unwrap();
    assert_eq!(field.key(), "name");
    assert_eq!(field.value().get_text(), Some("foo"));
}

#[test]
fn value_parse_direct_from_cursor() {
    let mut cur = cursor_of("42");
    let v = ObjectValue::parse(&mut cur).unwrap();
    assert_eq!(v.get_number(), Some(42));
}

#[test]
fn cursor_peek_does_not_consume_and_advance_does() {
    let mut cur = cursor_of("ab");
    assert_eq!(cur.peek(), Some('a'));
    assert_eq!(cur.peek(), Some('a'));
    assert_eq!(cur.advance(), Some('a'));
    assert_eq!(cur.advance(), Some('b'));
    assert_eq!(cur.advance(), None);
    assert_eq!(cur.peek(), None);
}

#[test]
fn trailing_comma_in_list_fails() {
    assert!(parse_str("[1,]").is_err());
}

#[test]
fn comma_before_first_element_fails() {
    assert!(parse_str("[,1]").is_err());
}

#[test]
fn missing_colon_in_field_fails() {
    assert_eq!(parse_str("{\"a\"1}").unwrap_err(), ParseError::UnexpectedToken { expected: Some(':'), actual: Some('1') });
}

#[test]
fn space_before_list_element_fails_at_dispatch() {
    assert_eq!(parse_str("[\"a\", \"b\"]").unwrap_err(), ParseError::UnexpectedToken { expected: None, actual: Some(' ') });
}

#[test]
fn list_elements_without_spaces_parse() {
    let v = parse_str("[\"a\",\"b\"]").unwrap();
    let list = v.get_list().unwrap();
    assert_eq!(list.len(), 2);
    assert_eq!(list[1].get_text(), Some("b"));
}
