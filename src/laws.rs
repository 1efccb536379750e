use vstd::prelude::*;
use crate::grammar::{
    is_digit, is_blank, byte_at, digits_end, blanks_end, field_end, comma_end, newline_end,
    record_rest, record_at, list_rest, list_at, file_outcome, lemma_digits_end, lemma_blanks_end,
    lemma_field_end, lemma_record_at,
};
use crate::tree::RecordModel;
use crate::walk::{records_fields, tree_fields};
use crate::literal::{document_fields, lemma_fields_are_decimals};

verus! {

pub open spec fn shift_span(x: (int, int), o: int) -> (int, int) {
    (x.0 + o, x.1 + o)
}

pub open spec fn shift_spans(fs: Seq<(int, int)>, o: int) -> Seq<(int, int)> {
    fs.map_values(|x: (int, int)| shift_span(x, o))
}

pub open spec fn shift_record(r: RecordModel, o: int) -> RecordModel {
    RecordModel { span: shift_span(r.span, o), fields: shift_spans(r.fields, o) }
}

pub open spec fn shift_records(rs: Seq<RecordModel>, o: int) -> Seq<RecordModel> {
    rs.map_values(|r: RecordModel| shift_record(r, o))
}

pub open spec fn shift_pos(p: Option<int>, o: int) -> Option<int> {
    match p {
        Some(e) => Some(e + o),
        None => None,
    }
}

pub open spec fn shift_record_opt(r: Option<RecordModel>, o: int) -> Option<RecordModel> {
    match r {
        Some(x) => Some(shift_record(x, o)),
        None => None,
    }
}

// Reading at or past the end of a prefix `t` of `s`, where `s` holds a line
// feed right after `t`.

proof fn lemma_prefix_byte(s: Seq<u8>, t: Seq<u8>, i: int, b: u8)
    requires
        s.len() > t.len(),
        s.subrange(0, t.len() as int) == t,
        s[t.len() as int] == 10,
        b != 10,
        0 <= i <= t.len(),
    ensures
        byte_at(s, i, b) == byte_at(t, i, b),
{
    if i < t.len() {
        assert(s[i] == s.subrange(0, t.len() as int)[i]);
    }
}

proof fn lemma_prefix_digits(s: Seq<u8>, t: Seq<u8>, i: int)
    requires
        s.len() > t.len(),
        s.subrange(0, t.len() as int) == t,
        s[t.len() as int] == 10,
        0 <= i <= t.len(),
    ensures
        digits_end(s, i) == digits_end(t, i),
    decreases t.len() - i,
{
    if i < t.len() {
        assert(s[i] == s.subrange(0, t.len() as int)[i]);
        if is_digit(t[i]) {
            lemma_prefix_digits(s, t, i + 1);
        }
    }
}

proof fn lemma_prefix_blanks(s: Seq<u8>, t: Seq<u8>, i: int)
    requires
        s.len() > t.len(),
        s.subrange(0, t.len() as int) == t,
        s[t.len() as int] == 10,
        0 <= i <= t.len(),
    ensures
        blanks_end(s, i) == blanks_end(t, i),
    decreases t.len() - i,
{
    if i < t.len() {
        assert(s[i] == s.subrange(0, t.len() as int)[i]);
        if is_blank(t[i]) {
            lemma_prefix_blanks(s, t, i + 1);
        }
    }
}

proof fn lemma_prefix_field(s: Seq<u8>, t: Seq<u8>, i: int)
    requires
        s.len() > t.len(),
        s.subrange(0, t.len() as int) == t,
        s[t.len() as int] == 10,
        0 <= i <= t.len(),
    ensures
        field_end(s, i) == field_end(t, i),
{
    lemma_prefix_byte(s, t, i, 45);
    let j = if byte_at(t, i, 45) { i + 1 } else { i };
    lemma_prefix_digits(s, t, j);
    lemma_digits_end(t, j);
    let k = digits_end(t, j);
    lemma_prefix_byte(s, t, k, 46);
    if byte_at(t, k, 46) {
        lemma_prefix_digits(s, t, k + 1);
    }
}

proof fn lemma_prefix_comma(s: Seq<u8>, t: Seq<u8>, p: int)
    requires
        s.len() > t.len(),
        s.subrange(0, t.len() as int) == t,
        s[t.len() as int] == 10,
        0 <= p <= t.len(),
    ensures
        comma_end(s, p) == comma_end(t, p),
{
    lemma_prefix_blanks(s, t, p);
    lemma_blanks_end(t, p);
    let a = blanks_end(t, p);
    lemma_prefix_byte(s, t, a, 44);
    if byte_at(t, a, 44) {
        lemma_prefix_blanks(s, t, a + 1);
    }
}

proof fn lemma_prefix_record_rest(s: Seq<u8>, t: Seq<u8>, p: int)
    requires
        s.len() > t.len(),
        s.subrange(0, t.len() as int) == t,
        s[t.len() as int] == 10,
        0 <= p <= t.len(),
    ensures
        record_rest(s, p) == record_rest(t, p),
    decreases t.len() - p,
{
    lemma_prefix_comma(s, t, p);
    crate::grammar::lemma_comma_end(t, p);
    if let Some(q) = comma_end(t, p) {
        lemma_prefix_field(s, t, q);
        lemma_field_end(t, q);
        if let Some(e) = field_end(t, q) {
            lemma_prefix_record_rest(s, t, e);
        }
    }
}

proof fn lemma_prefix_record(s: Seq<u8>, t: Seq<u8>, i: int)
    requires
        s.len() > t.len(),
        s.subrange(0, t.len() as int) == t,
        s[t.len() as int] == 10,
        0 <= i <= t.len(),
    ensures
        record_at(s, i) == record_at(t, i),
{
    lemma_prefix_field(s, t, i);
    lemma_field_end(t, i);
    if let Some(e) = field_end(t, i) {
        lemma_prefix_record_rest(s, t, e);
    }
}

// Reading past a prefix of length `o`: the same as reading the rest, shifted by `o`.

proof fn lemma_suffix_byte(s: Seq<u8>, t: Seq<u8>, o: int, i: int, b: u8)
    requires
        0 <= o,
        s.len() == o + t.len(),
        s.subrange(o, s.len() as int) == t,
        o <= i,
    ensures
        byte_at(s, i, b) == byte_at(t, i - o, b),
{
    if i < s.len() {
        assert(s[i] == s.subrange(o, s.len() as int)[i - o]);
    }
}

proof fn lemma_suffix_digits(s: Seq<u8>, t: Seq<u8>, o: int, i: int)
    requires
        0 <= o,
        s.len() == o + t.len(),
        s.subrange(o, s.len() as int) == t,
        o <= i,
    ensures
        digits_end(s, i) == digits_end(t, i - o) + o,
    decreases s.len() - i,
{
    if i < s.len() {
        assert(s[i] == s.subrange(o, s.len() as int)[i - o]);
        if is_digit(s[i]) {
            lemma_suffix_digits(s, t, o, i + 1);
        }
    }
}

proof fn lemma_suffix_blanks(s: Seq<u8>, t: Seq<u8>, o: int, i: int)
    requires
        0 <= o,
        s.len() == o + t.len(),
        s.subrange(o, s.len() as int) == t,
        o <= i,
    ensures
        blanks_end(s, i) == blanks_end(t, i - o) + o,
    decreases s.len() - i,
{
    if i < s.len() {
        assert(s[i] == s.subrange(o, s.len() as int)[i - o]);
        if is_blank(s[i]) {
            lemma_suffix_blanks(s, t, o, i + 1);
        }
    }
}

proof fn lemma_suffix_field(s: Seq<u8>, t: Seq<u8>, o: int, i: int)
    requires
        0 <= o,
        s.len() == o + t.len(),
        s.subrange(o, s.len() as int) == t,
        o <= i,
    ensures
        field_end(s, i) == shift_pos(field_end(t, i - o), o),
{
    lemma_suffix_byte(s, t, o, i, 45);
    let j = if byte_at(s, i, 45) { i + 1 } else { i };
    lemma_suffix_digits(s, t, o, j);
    lemma_digits_end(s, j);
    let k = digits_end(s, j);
    lemma_suffix_byte(s, t, o, k, 46);
    lemma_suffix_digits(s, t, o, k + 1);
}

proof fn lemma_suffix_comma(s: Seq<u8>, t: Seq<u8>, o: int, p: int)
    requires
        0 <= o,
        s.len() == o + t.len(),
        s.subrange(o, s.len() as int) == t,
        o <= p,
    ensures
        comma_end(s, p) == shift_pos(comma_end(t, p - o), o),
{
    lemma_suffix_blanks(s, t, o, p);
    lemma_blanks_end(s, p);
    let a = blanks_end(s, p);
    lemma_suffix_byte(s, t, o, a, 44);
    lemma_suffix_blanks(s, t, o, a + 1);
}

proof fn lemma_suffix_newline(s: Seq<u8>, t: Seq<u8>, o: int, p: int)
    requires
        0 <= o,
        s.len() == o + t.len(),
        s.subrange(o, s.len() as int) == t,
        o <= p,
    ensures
        newline_end(s, p) == shift_pos(newline_end(t, p - o), o),
{
    lemma_suffix_byte(s, t, o, p, 13);
    lemma_suffix_byte(s, t, o, p, 10);
    lemma_suffix_byte(s, t, o, p + 1, 10);
}

proof fn lemma_suffix_record_rest(s: Seq<u8>, t: Seq<u8>, o: int, p: int)
    requires
        0 <= o,
        s.len() == o + t.len(),
        s.subrange(o, s.len() as int) == t,
        o <= p,
    ensures
        record_rest(s, p).0 == shift_spans(record_rest(t, p - o).0, o),
        record_rest(s, p).1 == record_rest(t, p - o).1 + o,
    decreases s.len() - p,
{
    lemma_suffix_comma(s, t, o, p);
    crate::grammar::lemma_comma_end(s, p);
    if let Some(q) = comma_end(s, p) {
        lemma_suffix_field(s, t, o, q);
        lemma_field_end(s, q);
        if let Some(e) = field_end(s, q) {
            lemma_suffix_record_rest(s, t, o, e);
            let rt = record_rest(t, e - o);
            assert(shift_spans(seq![(q - o, e - o)] + rt.0, o) =~= seq![(q, e)] + shift_spans(rt.0, o));
        } else {
            assert(shift_spans(Seq::empty(), o) =~= Seq::empty());
        }
    } else {
        assert(shift_spans(Seq::empty(), o) =~= Seq::empty());
    }
}

proof fn lemma_suffix_record(s: Seq<u8>, t: Seq<u8>, o: int, i: int)
    requires
        0 <= o,
        s.len() == o + t.len(),
        s.subrange(o, s.len() as int) == t,
        o <= i,
    ensures
        record_at(s, i) == shift_record_opt(record_at(t, i - o), o),
{
    lemma_suffix_field(s, t, o, i);
    lemma_field_end(s, i);
    if let Some(e) = field_end(s, i) {
        lemma_suffix_record_rest(s, t, o, e);
        let rt = record_rest(t, e - o);
        assert(shift_spans(seq![(i - o, e - o)] + rt.0, o) =~= seq![(i, e)] + shift_spans(rt.0, o));
    }
}

proof fn lemma_suffix_list_rest(s: Seq<u8>, t: Seq<u8>, o: int, p: int)
    requires
        0 <= o,
        s.len() == o + t.len(),
        s.subrange(o, s.len() as int) == t,
        o <= p,
    ensures
        list_rest(s, p).0 == shift_records(list_rest(t, p - o).0, o),
        list_rest(s, p).1 == list_rest(t, p - o).1 + o,
    decreases s.len() - p,
{
    lemma_suffix_newline(s, t, o, p);
    if let Some(q) = newline_end(s, p) {
        lemma_suffix_record(s, t, o, q);
        lemma_record_at(s, q);
        if let Some(r) = record_at(s, q) {
            lemma_suffix_list_rest(s, t, o, r.span.1);
            let rt = record_at(t, q - o)->Some_0;
            let lt = list_rest(t, r.span.1 - o);
            assert(shift_records(seq![rt] + lt.0, o) =~= seq![r] + shift_records(lt.0, o));
        } else {
            assert(shift_records(Seq::empty(), o) =~= Seq::empty());
        }
    } else {
        assert(shift_records(Seq::empty(), o) =~= Seq::empty());
    }
}

/// The end of the last record in the chain that `list_rest` reads from `p`.
pub open spec fn chain_last_end(t: Seq<u8>, p: int) -> int {
    let rs = list_rest(t, p).0;
    if rs.len() == 0 { p } else { rs.last().span.1 }
}

proof fn lemma_field_start(t: Seq<u8>, i: int)
    requires
        field_end(t, i) is Some,
    ensures
        0 <= i < t.len(),
        t[i] == 45 || t[i] == 46 || is_digit(t[i]),
{
    lemma_field_end(t, i);
}

proof fn lemma_prefix_newline(s: Seq<u8>, t: Seq<u8>, p: int)
    requires
        s.len() > t.len(),
        s.subrange(0, t.len() as int) == t,
        0 <= p <= t.len(),
        newline_end(t, p) matches Some(q) && q < t.len(),
    ensures
        newline_end(s, p) == newline_end(t, p),
{
    assert(s[p] == s.subrange(0, t.len() as int)[p]);
    if p + 1 < t.len() {
        assert(s[p + 1] == s.subrange(0, t.len() as int)[p + 1]);
    }
}

proof fn lemma_join_list_rest(s: Seq<u8>, t: Seq<u8>, u: Seq<u8>, p: int)
    requires
        s == t + seq![10u8] + u,
        0 <= p <= t.len(),
        list_rest(t, p).1 == t.len(),
        chain_last_end(t, p) == t.len(),
        list_at(u, 0) is Some,
    ensures
        list_rest(s, p).0 == list_rest(t, p).0 + shift_records(list_at(u, 0)->Some_0.records, t.len() as int + 1),
        list_rest(s, p).1 == list_at(u, 0)->Some_0.span.1 + t.len() + 1,
    decreases t.len() - p,
{
    let o: int = t.len() as int + 1;
    assert(s.subrange(0, t.len() as int) =~= t);
    assert(s.subrange(o, s.len() as int) =~= u);
    assert(s[t.len() as int] == 10);
    let l2 = list_at(u, 0)->Some_0;
    match newline_end(t, p) {
        None => {
            assert(p == t.len());
            assert(newline_end(s, p) == Some(o));
            lemma_suffix_record(s, u, o, o);
            let r2 = record_at(u, 0)->Some_0;
            lemma_record_at(u, 0);
            lemma_suffix_list_rest(s, u, o, r2.span.1 + o);
            let x = list_rest(u, r2.span.1).0;
            assert(shift_records(seq![r2] + x, o) =~= seq![shift_record(r2, o)] + shift_records(x, o));
            assert(Seq::<RecordModel>::empty() + shift_records(l2.records, o) =~= shift_records(l2.records, o));
        },
        Some(q) => {
            lemma_record_at(t, q);
            match record_at(t, q) {
                None => {},
                Some(r) => {
                    lemma_prefix_newline(s, t, p);
                    lemma_prefix_record(s, t, q);
                    let x = list_rest(t, r.span.1).0;
                    assert((seq![r] + x).last() == if x.len() == 0 { r } else { x.last() });
                    lemma_join_list_rest(s, t, u, r.span.1);
                    let z = shift_records(l2.records, o);
                    assert(seq![r] + (x + z) =~= (seq![r] + x) + z);
                },
            }
        },
    }
}

proof fn lemma_records_fields_append(a: Seq<RecordModel>, b: Seq<RecordModel>)
    ensures
        records_fields(a + b) == records_fields(a) + records_fields(b),
    decreases b.len(),
{
    if b.len() == 0 {
        assert(a + b =~= a);
        assert(records_fields(a) + Seq::<(int, int)>::empty() =~= records_fields(a));
    } else {
        assert((a + b).drop_last() =~= a + b.drop_last());
        assert((a + b).last() == b.last());
        lemma_records_fields_append(a, b.drop_last());
        assert(records_fields(a) + records_fields(b.drop_last()) + b.last().fields
            =~= records_fields(a) + (records_fields(b.drop_last()) + b.last().fields));
    }
}

proof fn lemma_records_fields_shift(rs: Seq<RecordModel>, o: int)
    ensures
        records_fields(shift_records(rs, o)) == shift_spans(records_fields(rs), o),
    decreases rs.len(),
{
    if rs.len() == 0 {
        assert(shift_records(rs, o) =~= Seq::empty());
        assert(shift_spans(Seq::empty(), o) =~= Seq::empty());
    } else {
        assert(shift_records(rs, o).drop_last() =~= shift_records(rs.drop_last(), o));
        lemma_records_fields_shift(rs.drop_last(), o);
        let a = records_fields(rs.drop_last());
        let b = rs.last().fields;
        assert(shift_spans(a + b, o) =~= shift_spans(a, o) + shift_spans(b, o));
    }
}

/// Joining two documents with a line feed, where each holds one or more
/// records and the first ends on its last record (no trailing terminator of
/// its own), gives a document whose fields, in document order, are those of
/// the first followed by those of the second, moved past the first document
/// and the line feed: the values summed from the join are those summed from
/// each part, in the same order.
pub proof fn lemma_join_fields(s1: Seq<u8>, s2: Seq<u8>)
    requires
        file_outcome(s1) is Ok,
        file_outcome(s1)->Ok_0.list is Some,
        file_outcome(s1)->Ok_0.list->Some_0.records.last().span.1 == s1.len(),
        file_outcome(s2) is Ok,
        file_outcome(s2)->Ok_0.list is Some,
    ensures
        file_outcome(s1 + seq![10u8] + s2) is Ok,
        tree_fields(file_outcome(s1 + seq![10u8] + s2)->Ok_0) == tree_fields(file_outcome(s1)->Ok_0)
            + shift_spans(tree_fields(file_outcome(s2)->Ok_0), s1.len() as int + 1),
{
    let s = s1 + seq![10u8] + s2;
    let o: int = s1.len() as int + 1;
    assert(s.subrange(0, s1.len() as int) =~= s1);
    assert(s[s1.len() as int] == 10);
    let l1 = list_at(s1, 0)->Some_0;
    let l2 = list_at(s2, 0)->Some_0;
    let r1 = record_at(s1, 0)->Some_0;
    lemma_record_at(s1, 0);
    lemma_field_start(s1, 0);
    lemma_prefix_record(s, s1, 0);
    let x = list_rest(s1, r1.span.1).0;
    assert((seq![r1] + x).last() == if x.len() == 0 { r1 } else { x.last() });
    lemma_join_list_rest(s, s1, s2, r1.span.1);
    assert(s[0] == s1[0]);
    let z = shift_records(l2.records, o);
    assert(seq![r1] + (x + z) =~= (seq![r1] + x) + z);
    lemma_records_fields_append(l1.records, z);
    lemma_records_fields_shift(l2.records, o);
}

/// The text of each span.
pub open spec fn field_texts(s: Seq<u8>, fs: Seq<(int, int)>) -> Seq<Seq<u8>> {
    fs.map_values(|x: (int, int)| s.subrange(x.0, x.1))
}

/// Joining two documents with a line feed, as above, hands the values of the
/// first document's fields and then those of the second, in document order,
/// to a sum: the join sums the same literals as the two parts.
pub proof fn lemma_join_field_texts(s1: Seq<u8>, s2: Seq<u8>)
    requires
        file_outcome(s1) is Ok,
        file_outcome(s1)->Ok_0.list is Some,
        file_outcome(s1)->Ok_0.list->Some_0.records.last().span.1 == s1.len(),
        file_outcome(s2) is Ok,
        file_outcome(s2)->Ok_0.list is Some,
    ensures
        file_outcome(s1 + seq![10u8] + s2) is Ok,
        field_texts(s1 + seq![10u8] + s2, document_fields(s1 + seq![10u8] + s2))
            == field_texts(s1, document_fields(s1)) + field_texts(s2, document_fields(s2)),
{
    let s = s1 + seq![10u8] + s2;
    let o: int = s1.len() as int + 1;
    lemma_join_fields(s1, s2);
    lemma_fields_are_decimals(s1);
    lemma_fields_are_decimals(s2);
    let f1 = document_fields(s1);
    let f2 = document_fields(s2);
    let f = document_fields(s);
    assert(f == f1 + shift_spans(f2, o));
    let lhs = field_texts(s, f);
    let rhs = field_texts(s1, f1) + field_texts(s2, f2);
    assert forall|k: int| 0 <= k < f.len() implies #[trigger] lhs[k] == rhs[k] by {
        if k < f1.len() {
            let x = f1[k];
            assert(f[k] == x);
            assert(0 <= x.0 < x.1 <= s1.len());
            assert(s.subrange(x.0, x.1) =~= s1.subrange(x.0, x.1));
        } else {
            let y = f2[k - f1.len()];
            assert(f[k] == shift_span(y, o));
            assert(0 <= y.0 < y.1 <= s2.len());
            assert(s.subrange(y.0 + o, y.1 + o) =~= s2.subrange(y.0, y.1));
        }
    }
    assert(lhs =~= rhs);
}

/// Recognition depends on the text alone: equal texts have equal outcomes,
/// and so equal trees and equal fields to sum.
pub proof fn lemma_recognition_deterministic(s1: Seq<u8>, s2: Seq<u8>)
    requires
        s1 == s2,
    ensures
        file_outcome(s1) == file_outcome(s2),
        file_outcome(s1) is Ok ==> tree_fields(file_outcome(s1)->Ok_0) == tree_fields(file_outcome(s2)->Ok_0),
{
}

} // verus!
