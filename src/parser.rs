use vstd::prelude::*;
use vstd::string::StringSliceAdditionalSpecFns;
use crate::grammar::{
    digits_end, blanks_end, field_end, comma_end, newline_end, record_rest, record_at, list_rest,
    list_at, file_outcome, no_field, lemma_digits_end, lemma_blanks_end, lemma_field_end,
    lemma_comma_end, lemma_record_at, lemma_list_rest,
};
use crate::tree::{
    Rule, Span, Record, RecordList, ParseTree, ParseError, RecordModel, ListModel, TreeModel,
    ErrorModel, spans_model, records_model,
};

verus! {

pub open spec fn pos_model(r: Option<usize>) -> Option<int> {
    match r {
        Some(e) => Some(e as int),
        None => None,
    }
}

fn scan_digits(b: &[u8], i: usize) -> (r: usize)
    requires
        i <= b@.len(),
    ensures
        r as int == digits_end(b@, i as int),
{
    let mut k: usize = i;
    while k < b.len() && 48 <= b[k] && b[k] <= 57
        invariant
            i <= k <= b@.len(),
            digits_end(b@, k as int) == digits_end(b@, i as int),
        decreases b@.len() - k,
    {
        k += 1;
    }
    k
}

fn scan_blanks(b: &[u8], i: usize) -> (r: usize)
    requires
        i <= b@.len(),
    ensures
        r as int == blanks_end(b@, i as int),
{
    let mut k: usize = i;
    while k < b.len() && (b[k] == 32 || b[k] == 9)
        invariant
            i <= k <= b@.len(),
            blanks_end(b@, k as int) == blanks_end(b@, i as int),
        decreases b@.len() - k,
    {
        k += 1;
    }
    k
}

fn scan_field(b: &[u8], i: usize) -> (r: Option<usize>)
    requires
        i <= b@.len(),
    ensures
        pos_model(r) == field_end(b@, i as int),
{
    let j: usize = if i < b.len() && b[i] == 45 { i + 1 } else { i };
    let k = scan_digits(b, j);
    proof {
        lemma_digits_end(b@, j as int);
    }
    if k < b.len() && b[k] == 46 {
        let m = scan_digits(b, k + 1);
        if k > j || m > k + 1 { Some(m) } else { None }
    } else if k > j {
        Some(k)
    } else {
        None
    }
}

fn scan_comma(b: &[u8], p: usize) -> (r: Option<usize>)
    requires
        p <= b@.len(),
    ensures
        pos_model(r) == comma_end(b@, p as int),
{
    let a = scan_blanks(b, p);
    proof {
        lemma_blanks_end(b@, p as int);
    }
    if a < b.len() && b[a] == 44 {
        Some(scan_blanks(b, a + 1))
    } else {
        None
    }
}

fn scan_newline(b: &[u8], p: usize) -> (r: Option<usize>)
    requires
        p <= b@.len(),
    ensures
        pos_model(r) == newline_end(b@, p as int),
{
    if p < b.len() && b[p] == 13 {
        if p + 1 < b.len() && b[p + 1] == 10 { Some(p + 2) } else { Some(p + 1) }
    } else if p < b.len() && b[p] == 10 {
        Some(p + 1)
    } else {
        None
    }
}

pub open spec fn record_opt_model(r: Option<Record>) -> Option<RecordModel> {
    match r {
        Some(x) => Some(x@),
        None => None,
    }
}

pub open spec fn list_opt_model(r: Option<RecordList>) -> Option<ListModel> {
    match r {
        Some(x) => Some(x@),
        None => None,
    }
}

fn scan_record(b: &[u8], i: usize) -> (r: Option<Record>)
    requires
        i <= b@.len(),
    ensures
        record_opt_model(r) == record_at(b@, i as int),
{
    match scan_field(b, i) {
        None => None,
        Some(e0) => {
            proof {
                lemma_field_end(b@, i as int);
            }
            let ghost whole = record_rest(b@, e0 as int);
            let mut fields: Vec<Span> = Vec::new();
            fields.push(Span { start: i, end: e0 });
            let mut p: usize = e0;
            let mut end: usize = e0;
            loop
                invariant
                    e0 <= p <= b@.len(),
                    spans_model(fields@) + record_rest(b@, p as int).0 == seq![(i as int, e0 as int)] + whole.0,
                    record_rest(b@, p as int).1 == whole.1,
                ensures
                    spans_model(fields@) == seq![(i as int, e0 as int)] + whole.0,
                    end == whole.1,
                decreases b@.len() - p,
            {
                proof {
                    lemma_comma_end(b@, p as int);
                }
                match scan_comma(b, p) {
                    None => {
                        assert(spans_model(fields@) + Seq::<(int, int)>::empty() =~= spans_model(fields@));
                        end = p;
                        break;
                    },
                    Some(q) => {
                        proof {
                            lemma_field_end(b@, q as int);
                        }
                        match scan_field(b, q) {
                            None => {
                                assert(spans_model(fields@) + Seq::<(int, int)>::empty() =~= spans_model(fields@));
                                end = q;
                                break;
                            },
                            Some(e) => {
                                let ghost before = fields@;
                                fields.push(Span { start: q, end: e });
                                assert(spans_model(fields@) =~= spans_model(before) + seq![(q as int, e as int)]);
                                assert(seq![(q as int, e as int)] + record_rest(b@, e as int).0 == record_rest(b@, p as int).0);
                                assert(spans_model(fields@) + record_rest(b@, e as int).0 =~= spans_model(before) + record_rest(b@, p as int).0);
                                p = e;
                            },
                        }
                    },
                }
            }
            Some(Record { span: Span { start: i, end }, fields })
        },
    }
}

fn scan_record_list(b: &[u8], i: usize) -> (r: Option<RecordList>)
    requires
        i <= b@.len(),
    ensures
        list_opt_model(r) == list_at(b@, i as int),
{
    match scan_record(b, i) {
        None => None,
        Some(first) => {
            proof {
                lemma_record_at(b@, i as int);
            }
            let e0 = first.span.end;
            let ghost first_model = first@;
            let ghost whole = list_rest(b@, e0 as int);
            let mut records: Vec<Record> = Vec::new();
            records.push(first);
            let mut p: usize = e0;
            let mut end: usize = e0;
            loop
                invariant
                    e0 <= p <= b@.len(),
                    records_model(records@) + list_rest(b@, p as int).0 == seq![first_model] + whole.0,
                    list_rest(b@, p as int).1 == whole.1,
                ensures
                    records_model(records@) == seq![first_model] + whole.0,
                    end == whole.1,
                decreases b@.len() - p,
            {
                match scan_newline(b, p) {
                    None => {
                        assert(records_model(records@) + Seq::<RecordModel>::empty() =~= records_model(records@));
                        end = p;
                        break;
                    },
                    Some(q) => {
                        proof {
                            lemma_record_at(b@, q as int);
                        }
                        match scan_record(b, q) {
                            None => {
                                assert(records_model(records@) + Seq::<RecordModel>::empty() =~= records_model(records@));
                                end = q;
                                break;
                            },
                            Some(rec) => {
                                let ghost before = records@;
                                let ghost rec_model = rec@;
                                let e = rec.span.end;
                                records.push(rec);
                                assert(records_model(records@) =~= records_model(before) + seq![rec_model]);
                                assert(seq![rec_model] + list_rest(b@, e as int).0 == list_rest(b@, p as int).0);
                                assert(records_model(records@) + list_rest(b@, e as int).0 =~= records_model(before) + list_rest(b@, p as int).0);
                                p = e;
                            },
                        }
                    },
                }
            }
            Some(RecordList { span: Span { start: i, end }, records })
        },
    }
}

fn no_field_error(rule: Rule) -> (r: ParseError)
    ensures
        r@ == no_field(rule),
{
    let expected = vec![Rule::Field];
    assert(expected@ =~= seq![Rule::Field]);
    ParseError { rule, expected, pos: 0 }
}

/// Recognizes one `field` at the start of `text`.
pub fn parse_field(text: &str) -> (r: Result<Span, ParseError>)
    ensures
        match r {
            Ok(sp) => field_end(text.spec_bytes(), 0) == Some(sp.end as int) && sp.start == 0,
            Err(e) => field_end(text.spec_bytes(), 0) is None && e@ == no_field(Rule::Field),
        },
{
    let b = text.as_bytes();
    match scan_field(b, 0) {
        Some(e) => Ok(Span { start: 0, end: e }),
        None => Err(no_field_error(Rule::Field)),
    }
}

/// Recognizes one `record` at the start of `text`.
pub fn parse_record(text: &str) -> (r: Result<Record, ParseError>)
    ensures
        match r {
            Ok(rec) => record_at(text.spec_bytes(), 0) == Some(rec@),
            Err(e) => record_at(text.spec_bytes(), 0) is None && e@ == no_field(Rule::Record),
        },
{
    let b = text.as_bytes();
    match scan_record(b, 0) {
        Some(rec) => Ok(rec),
        None => Err(no_field_error(Rule::Record)),
    }
}

/// Recognizes one `record_list` at the start of `text`.
pub fn parse_record_list(text: &str) -> (r: Result<RecordList, ParseError>)
    ensures
        match r {
            Ok(l) => list_at(text.spec_bytes(), 0) == Some(l@),
            Err(e) => list_at(text.spec_bytes(), 0) is None && e@ == no_field(Rule::RecordList),
        },
{
    let b = text.as_bytes();
    match scan_record_list(b, 0) {
        Some(l) => Ok(l),
        None => Err(no_field_error(Rule::RecordList)),
    }
}

pub open spec fn outcome_model(r: Result<ParseTree, ParseError>) -> Result<TreeModel, ErrorModel> {
    match r {
        Ok(t) => Ok(t@),
        Err(e) => Err(e@),
    }
}

/// Recognizes the whole of `text` as a `file`: the tree spans all of it, or
/// the error gives the failure point and what was expected there.
pub fn parse_as_csv_file(text: &str) -> (r: Result<ParseTree, ParseError>)
    ensures
        outcome_model(r) == file_outcome(text.spec_bytes()),
{
    let b = text.as_bytes();
    let n = b.len();
    let blank_doc = n == 0 || match scan_newline(b, 0) {
        Some(e) => e == n,
        None => false,
    };
    if blank_doc {
        return Ok(ParseTree { span: Span { start: 0, end: n }, record_list: None });
    }
    match scan_record_list(b, 0) {
        None => Err(no_field_error(Rule::File)),
        Some(l) => {
            proof {
                lemma_record_at(b@, 0);
                if let Some(r) = record_at(b@, 0) {
                    lemma_list_rest(b@, r.span.1);
                }
            }
            if l.span.end == n {
                Ok(ParseTree { span: Span { start: 0, end: n }, record_list: Some(l) })
            } else {
                let pos = scan_blanks(b, l.span.end);
                let expected = vec![Rule::Eoi];
                assert(expected@ =~= seq![Rule::Eoi]);
                Err(ParseError { rule: Rule::File, expected, pos })
            }
        },
    }
}

} // verus!
