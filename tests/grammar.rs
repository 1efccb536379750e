use csv_sum::{parse_as_csv_file, parse_field, parse_record, parse_record_list, Record, Rule, Span};

fn sp(start: usize, end: usize) -> Span {
    Span { start, end }
}

fn rec(start: usize, end: usize, fields: Vec<Span>) -> Record {
    Record { span: sp(start, end), fields }
}

#[test]
fn can_parse_int_as_field() {
    assert_eq!(parse_field("42"), Ok(sp(0, 2)));
}

#[test]
fn can_parse_float_as_field() {
    assert_eq!(parse_field("123.312"), Ok(sp(0, 7)));
}

#[test]
fn can_parse_float_without_leading_zero_as_field() {
    assert_eq!(parse_field(".250"), Ok(sp(0, 4)));
}

#[test]
fn can_parse_negative_int_as_field() {
    assert_eq!(parse_field("-35"), Ok(sp(0, 3)));
}

#[test]
fn can_parse_negative_float_as_field() {
    assert_eq!(parse_field("-78.874"), Ok(sp(0, 7)));
}

#[test]
fn cant_parse_string_as_field() {
    let e = parse_field("\"string\"").unwrap_err();
    assert_eq!(e.rule, Rule::Field);
    assert_eq!(e.expected, vec![Rule::Field]);
    assert_eq!(e.pos, 0);
}

#[test]
fn cant_parse_text_as_field() {
    let e = parse_field("text").unwrap_err();
    assert_eq!(e.rule, Rule::Field);
    assert_eq!(e.expected, vec![Rule::Field]);
    assert_eq!(e.pos, 0);
}

#[test]
fn can_parse_record() {
    let r = parse_record("1,2, 3, 123, \t -1,-55").unwrap();
    assert_eq!(
        r,
        rec(0, 21, vec![sp(0, 1), sp(2, 3), sp(5, 6), sp(8, 11), sp(15, 17), sp(18, 21)])
    );
}

#[test]
fn can_parse_record_with_trailing_comma() {
    assert_eq!(parse_record("1,").unwrap(), rec(0, 2, vec![sp(0, 1)]));
}

#[test]
fn can_parse_single_record_as_record_list() {
    let l = parse_record_list("42, 55").unwrap();
    assert_eq!(l.records, vec![rec(0, 6, vec![sp(0, 2), sp(4, 6)])]);
}

#[test]
fn can_parse_single_record_with_trailing_newline_as_record_list() {
    let l = parse_record_list("98, 12.123\n").unwrap();
    assert_eq!(l.records, vec![rec(0, 10, vec![sp(0, 2), sp(4, 10)])]);
    assert_eq!(l.span, sp(0, 11));
}

#[test]
fn can_parse_multiple_records_as_record_list() {
    let l = parse_record_list("1, 2,3\n52").unwrap();
    assert_eq!(
        l.records,
        vec![rec(0, 6, vec![sp(0, 1), sp(3, 4), sp(5, 6)]), rec(7, 9, vec![sp(7, 9)])]
    );
}

#[test]
fn can_parse_trailing_comma_as_record_list() {
    let l = parse_record_list("1,\n2,").unwrap();
    assert_eq!(l.records, vec![rec(0, 2, vec![sp(0, 1)]), rec(3, 5, vec![sp(3, 4)])]);
}

#[test]
fn can_parse_trailing_newline_as_record_list() {
    let l = parse_record_list("1,\n2\n").unwrap();
    assert_eq!(l.records, vec![rec(0, 2, vec![sp(0, 1)]), rec(3, 4, vec![sp(3, 4)])]);
}

#[test]
fn parser_can_parse_empty_file() {
    let t = parse_as_csv_file("").unwrap();
    assert_eq!(t.span, sp(0, 0));
    assert!(t.record_list.is_none());
}

#[test]
fn can_parse_file_with_only_newline() {
    let t = parse_as_csv_file("\n").unwrap();
    assert_eq!(t.span, sp(0, 1));
    assert!(t.record_list.is_none());
}

#[test]
fn can_parse_file_with_newline_separated_fields() {
    let t = parse_as_csv_file("1\n2\n").unwrap();
    assert_eq!(t.span, sp(0, 4));
    let l = t.record_list.unwrap();
    assert_eq!(l.records, vec![rec(0, 1, vec![sp(0, 1)]), rec(2, 3, vec![sp(2, 3)])]);
}

#[test]
fn can_parse_file_with_single_field() {
    let t = parse_as_csv_file("1.42").unwrap();
    assert_eq!(t.span, sp(0, 4));
    assert_eq!(t.record_list.unwrap().records, vec![rec(0, 4, vec![sp(0, 4)])]);
}

#[test]
fn can_parse_file_with_single_record() {
    let t = parse_as_csv_file("1, 42, 346.1").unwrap();
    assert_eq!(t.span, sp(0, 12));
    assert_eq!(
        t.record_list.unwrap().records,
        vec![rec(0, 12, vec![sp(0, 1), sp(3, 5), sp(7, 12)])]
    );
}

#[test]
fn can_parse_file_with_multiple_records() {
    let t = parse_as_csv_file("1, 42, 346.1\n78, 09").unwrap();
    assert_eq!(t.span, sp(0, 19));
    assert_eq!(
        t.record_list.unwrap().records,
        vec![
            rec(0, 12, vec![sp(0, 1), sp(3, 5), sp(7, 12)]),
            rec(13, 19, vec![sp(13, 15), sp(17, 19)]),
        ]
    );
}

#[test]
fn cant_parse_file_with_fields_with_spaces() {
    let e = parse_as_csv_file("1 1").unwrap_err();
    assert_eq!(e.rule, Rule::File);
    assert_eq!(e.expected, vec![Rule::Eoi]);
    assert_eq!(e.pos, 2);
}

#[test]
fn cant_parse_file_with_field_with_hyphen() {
    let e = parse_as_csv_file("1-2").unwrap_err();
    assert_eq!(e.rule, Rule::File);
    assert_eq!(e.expected, vec![Rule::Eoi]);
    assert_eq!(e.pos, 1);
}

#[test]
fn parse_csv_file_parses_input_as_file() {
    let t = parse_as_csv_file("1, 2\n3").unwrap();
    assert_eq!(t.span, sp(0, 6));
    let l = t.record_list.unwrap();
    assert_eq!(l.span, sp(0, 6));
    assert_eq!(
        l.records,
        vec![rec(0, 4, vec![sp(0, 1), sp(3, 4)]), rec(5, 6, vec![sp(5, 6)])]
    );
}

#[test]
fn field_with_point_and_no_digits_is_rejected() {
    assert_eq!(parse_field(".").unwrap_err().pos, 0);
    assert_eq!(parse_field("-").unwrap_err().pos, 0);
    assert_eq!(parse_field("-.").unwrap_err().expected, vec![Rule::Field]);
}

#[test]
fn field_stops_where_the_number_stops() {
    assert_eq!(parse_field("1."), Ok(sp(0, 2)));
    assert_eq!(parse_field("-.5x"), Ok(sp(0, 3)));
    assert_eq!(parse_field("12e3"), Ok(sp(0, 2)));
    assert_eq!(parse_field("+1").unwrap_err().pos, 0);
}

#[test]
fn record_and_record_list_report_a_missing_field() {
    let e = parse_record(",1").unwrap_err();
    assert_eq!((e.rule, e.expected, e.pos), (Rule::Record, vec![Rule::Field], 0));
    let e = parse_record_list("").unwrap_err();
    assert_eq!((e.rule, e.expected, e.pos), (Rule::RecordList, vec![Rule::Field], 0));
}

#[test]
fn trailing_comma_does_not_add_a_field() {
    let t = parse_as_csv_file("1,").unwrap();
    let l = t.record_list.unwrap();
    assert_eq!(l.records, vec![rec(0, 2, vec![sp(0, 1)])]);
}

#[test]
fn trailing_newline_does_not_add_a_record() {
    let t = parse_as_csv_file("1,\n2\n").unwrap();
    assert_eq!(t.record_list.unwrap().records.len(), 2);
}

#[test]
fn double_comma_fails_at_the_empty_field() {
    let e = parse_as_csv_file("1,,2").unwrap_err();
    assert_eq!((e.rule, e.expected, e.pos), (Rule::File, vec![Rule::Eoi], 2));
}

#[test]
fn double_newline_fails_at_the_empty_record() {
    let e = parse_as_csv_file("1\n\n2").unwrap_err();
    assert_eq!(e.pos, 2);
    let e = parse_as_csv_file("1\n\n").unwrap_err();
    assert_eq!(e.pos, 2);
}

#[test]
fn blanks_are_legal_only_around_commas() {
    assert!(parse_as_csv_file("1 ,\t2, ").is_ok());
    assert_eq!(parse_as_csv_file("1 ").unwrap_err().pos, 2);
    assert_eq!(parse_as_csv_file("1 \n2").unwrap_err().pos, 2);
    assert_eq!(parse_as_csv_file(" 1").unwrap_err().pos, 0);
    assert_eq!(parse_as_csv_file("1, ,2").unwrap_err().pos, 3);
}

#[test]
fn every_line_terminator_form_is_accepted() {
    let t = parse_as_csv_file("1\r\n2\r3\n").unwrap();
    let l = t.record_list.unwrap();
    assert_eq!(
        l.records,
        vec![rec(0, 1, vec![sp(0, 1)]), rec(3, 4, vec![sp(3, 4)]), rec(5, 6, vec![sp(5, 6)])]
    );
    assert!(parse_as_csv_file("\r\n").unwrap().record_list.is_none());
}

#[test]
fn document_without_a_field_fails_at_the_start() {
    let e = parse_as_csv_file("\n\n").unwrap_err();
    assert_eq!((e.rule, e.expected, e.pos), (Rule::File, vec![Rule::Field], 0));
    let e = parse_as_csv_file("abc").unwrap_err();
    assert_eq!((e.expected, e.pos), (vec![Rule::Field], 0));
}

#[test]
fn recognition_is_repeatable() {
    let text = "42, 18,54.125\n0.125,6, 1.5";
    assert_eq!(parse_as_csv_file(text), parse_as_csv_file(text));
    assert_eq!(parse_as_csv_file("1,,2"), parse_as_csv_file("1,,2"));
}
