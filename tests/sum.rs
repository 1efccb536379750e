use csv_sum::{field_spans, parse_as_csv_file, ParseError, Span};

fn sum_of(text: &str) -> Result<f64, ParseError> {
    let tree = parse_as_csv_file(text)?;
    let mut sum = 0.0;
    for sp in field_spans(&tree) {
        sum += text[sp.start..sp.end].parse::<f64>().unwrap();
    }
    Ok(sum)
}

#[test]
fn sum_returns_zero_if_one_field_of_zero() {
    assert_eq!(Ok(0.0), sum_of("0"));
}

#[test]
fn can_sum_one_field() {
    assert_eq!(Ok(3.0), sum_of("3"));
}

#[test]
fn can_sum_multiple_fields() {
    assert_eq!(Ok(114.125), sum_of("42, 18,54.125"));
}

#[test]
fn can_sum_multiple_records() {
    assert_eq!(Ok(121.750), sum_of("42, 18,54.125\n0.125,6, 1.5"));
}

#[test]
fn empty_input_sums_to_zero() {
    assert_eq!(Ok(0.0), sum_of(""));
}

#[test]
fn trailing_separators_sum_without_extra_values() {
    assert_eq!(Ok(1.0), sum_of("1,"));
    assert_eq!(Ok(3.0), sum_of("1,\n2\n"));
}

#[test]
fn field_spans_come_in_document_order() {
    let tree = parse_as_csv_file("1,2, 5\n42,12.125,5.25").unwrap();
    assert_eq!(
        field_spans(&tree),
        vec![
            Span { start: 0, end: 1 },
            Span { start: 2, end: 3 },
            Span { start: 5, end: 6 },
            Span { start: 7, end: 9 },
            Span { start: 10, end: 16 },
            Span { start: 17, end: 21 },
        ]
    );
    assert_eq!(Ok(67.375), sum_of("1,2, 5\n42,12.125,5.25"));
}

#[test]
fn empty_tree_has_no_fields() {
    assert!(field_spans(&parse_as_csv_file("\n").unwrap()).is_empty());
}

#[test]
fn joined_documents_hand_out_both_parts_in_order() {
    let a = "1.5, 2";
    let b = "-0.25\n4,";
    let joined = format!("{}\n{}", a, b);
    let ta = field_spans(&parse_as_csv_file(a).unwrap());
    let tb = field_spans(&parse_as_csv_file(b).unwrap());
    let tj = field_spans(&parse_as_csv_file(&joined).unwrap());
    let mut expected = ta.clone();
    for s in tb {
        expected.push(Span { start: s.start + a.len() + 1, end: s.end + a.len() + 1 });
    }
    assert_eq!(tj, expected);
    assert_eq!(sum_of(&joined), Ok(sum_of(a).unwrap() + sum_of(b).unwrap()));
}

#[test]
fn malformed_input_gives_no_sum() {
    assert_eq!(sum_of("1,,2").unwrap_err().pos, 2);
    assert_eq!(sum_of("1 2").unwrap_err().pos, 2);
    assert_eq!(sum_of("1-2").unwrap_err().pos, 1);
}
