use vstd::prelude::*;
use crate::tree::{Rule, RecordModel, ListModel, TreeModel, ErrorModel};

verus! {

pub open spec fn is_digit(b: u8) -> bool {
    48 <= b <= 57
}

/// Horizontal whitespace: a space or a tab.
pub open spec fn is_blank(b: u8) -> bool {
    b == 32 || b == 9
}

pub open spec fn byte_at(s: Seq<u8>, i: int, b: u8) -> bool {
    0 <= i < s.len() && s[i] == b
}

/// The end of the run of digits that starts at `i`.
pub open spec fn digits_end(s: Seq<u8>, i: int) -> int
    decreases s.len() - i,
{
    if 0 <= i < s.len() && is_digit(s[i]) {
        digits_end(s, i + 1)
    } else {
        i
    }
}

/// The end of the run of spaces and tabs that starts at `i`.
pub open spec fn blanks_end(s: Seq<u8>, i: int) -> int
    decreases s.len() - i,
{
    if 0 <= i < s.len() && is_blank(s[i]) {
        blanks_end(s, i + 1)
    } else {
        i
    }
}

/// `field`: an optional `-`, digits, an optional `.` and digits, with at
/// least one digit in all; the end of the field that starts at `i`.
pub open spec fn field_end(s: Seq<u8>, i: int) -> Option<int> {
    let j = if byte_at(s, i, 45) { i + 1 } else { i };
    let k = digits_end(s, j);
    if byte_at(s, k, 46) {
        let m = digits_end(s, k + 1);
        if k > j || m > k + 1 { Some(m) } else { None }
    } else if k > j {
        Some(k)
    } else {
        None
    }
}

/// A comma with the blanks around it, starting at `p`; its end.
pub open spec fn comma_end(s: Seq<u8>, p: int) -> Option<int> {
    let a = blanks_end(s, p);
    if byte_at(s, a, 44) { Some(blanks_end(s, a + 1)) } else { None }
}

/// A line terminator (`\n`, `\r\n` or `\r`) at `p`; its end.
pub open spec fn newline_end(s: Seq<u8>, p: int) -> Option<int> {
    if byte_at(s, p, 13) {
        if byte_at(s, p + 1, 10) { Some(p + 2) } else { Some(p + 1) }
    } else if byte_at(s, p, 10) {
        Some(p + 1)
    } else {
        None
    }
}

pub proof fn lemma_digits_end(s: Seq<u8>, i: int)
    ensures
        digits_end(s, i) >= i,
        i <= s.len() ==> digits_end(s, i) <= s.len(),
    decreases s.len() - i,
{
    if 0 <= i < s.len() && is_digit(s[i]) {
        lemma_digits_end(s, i + 1);
    }
}

pub proof fn lemma_blanks_end(s: Seq<u8>, i: int)
    ensures
        blanks_end(s, i) >= i,
        i <= s.len() ==> blanks_end(s, i) <= s.len(),
    decreases s.len() - i,
{
    if 0 <= i < s.len() && is_blank(s[i]) {
        lemma_blanks_end(s, i + 1);
    }
}

pub proof fn lemma_field_end(s: Seq<u8>, i: int)
    ensures
        field_end(s, i) matches Some(e) ==> 0 <= i < e <= s.len(),
{
    let j = if byte_at(s, i, 45) { i + 1 } else { i };
    lemma_digits_end(s, j);
    let k = digits_end(s, j);
    lemma_digits_end(s, k + 1);
    if k > j {
        assert(0 <= j < s.len());
    }
}

pub proof fn lemma_comma_end(s: Seq<u8>, p: int)
    ensures
        comma_end(s, p) matches Some(q) ==> 0 <= p < q <= s.len(),
{
    lemma_blanks_end(s, p);
    let a = blanks_end(s, p);
    lemma_blanks_end(s, a + 1);
}

/// The fields that follow a first field ending at `p` in a `record`, and the
/// record's end: each is joined by a comma, and one trailing comma is taken.
pub open spec fn record_rest(s: Seq<u8>, p: int) -> (Seq<(int, int)>, int)
    decreases s.len() - p,
{
    match comma_end(s, p) {
        Some(q) => match field_end(s, q) {
            Some(e) => {
                proof {
                    lemma_comma_end(s, p);
                    lemma_field_end(s, q);
                }
                let r = record_rest(s, e);
                (seq![(q, e)] + r.0, r.1)
            },
            None => (Seq::empty(), q),
        },
        None => (Seq::empty(), p),
    }
}

pub proof fn lemma_record_rest(s: Seq<u8>, p: int)
    ensures
        record_rest(s, p).1 >= p,
        0 <= p <= s.len() ==> record_rest(s, p).1 <= s.len(),
    decreases s.len() - p,
{
    lemma_comma_end(s, p);
    if let Some(q) = comma_end(s, p) {
        lemma_field_end(s, q);
        if let Some(e) = field_end(s, q) {
            lemma_record_rest(s, e);
        }
    }
}

/// `record`: the record that starts at `i`, if a field starts there.
pub open spec fn record_at(s: Seq<u8>, i: int) -> Option<RecordModel> {
    match field_end(s, i) {
        Some(e) => {
            let r = record_rest(s, e);
            Some(RecordModel { span: (i, r.1), fields: seq![(i, e)] + r.0 })
        },
        None => None,
    }
}

pub proof fn lemma_record_at(s: Seq<u8>, i: int)
    ensures
        record_at(s, i) matches Some(r) ==> 0 <= i < r.span.1 <= s.len(),
{
    lemma_field_end(s, i);
    if let Some(e) = field_end(s, i) {
        lemma_record_rest(s, e);
    }
}

/// The records that follow a first record ending at `p` in a `record_list`,
/// and the list's end: each is joined by one line terminator, and one trailing
/// terminator is taken.
pub open spec fn list_rest(s: Seq<u8>, p: int) -> (Seq<RecordModel>, int)
    decreases s.len() - p,
{
    match newline_end(s, p) {
        Some(q) => match record_at(s, q) {
            Some(r) => {
                proof {
                    lemma_record_at(s, q);
                }
                let t = list_rest(s, r.span.1);
                (seq![r] + t.0, t.1)
            },
            None => (Seq::empty(), q),
        },
        None => (Seq::empty(), p),
    }
}

pub proof fn lemma_list_rest(s: Seq<u8>, p: int)
    ensures
        list_rest(s, p).1 >= p,
        0 <= p <= s.len() ==> list_rest(s, p).1 <= s.len(),
    decreases s.len() - p,
{
    if let Some(q) = newline_end(s, p) {
        lemma_record_at(s, q);
        if let Some(r) = record_at(s, q) {
            lemma_list_rest(s, r.span.1);
        }
    }
}

/// `record_list`: the record list that starts at `i`, if a record starts there.
pub open spec fn list_at(s: Seq<u8>, i: int) -> Option<ListModel> {
    match record_at(s, i) {
        Some(r) => {
            let t = list_rest(s, r.span.1);
            Some(ListModel { span: (i, t.1), records: seq![r] + t.0 })
        },
        None => None,
    }
}

/// Whether the whole text is empty of records: nothing, or one line terminator.
pub open spec fn is_blank_document(s: Seq<u8>) -> bool {
    s.len() == 0 || newline_end(s, 0) == Some(s.len() as int)
}

/// `file`: an optional record list, then the end of the input. Where the
/// record list stops short of the end, the failure point lies past any blanks
/// that were read in search of a comma.
pub open spec fn file_outcome(s: Seq<u8>) -> Result<TreeModel, ErrorModel> {
    if is_blank_document(s) {
        Ok(TreeModel { span: (0, s.len() as int), list: None })
    } else {
        match list_at(s, 0) {
            Some(l) => if l.span.1 == s.len() {
                Ok(TreeModel { span: (0, s.len() as int), list: Some(l) })
            } else {
                Err(ErrorModel { rule: Rule::File, expected: seq![Rule::Eoi], pos: blanks_end(s, l.span.1) })
            },
            None => Err(ErrorModel { rule: Rule::File, expected: seq![Rule::Field], pos: 0 }),
        }
    }
}

/// The failure of a rule asked for at the start of a text that holds no field there.
pub open spec fn no_field(rule: Rule) -> ErrorModel {
    ErrorModel { rule, expected: seq![Rule::Field], pos: 0 }
}

} // verus!
