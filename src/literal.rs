use vstd::prelude::*;
use crate::grammar::{
    is_digit, byte_at, digits_end, field_end, record_rest, record_at, list_rest,
    file_outcome, lemma_digits_end, lemma_field_end, lemma_comma_end, lemma_record_at,
};
use crate::tree::RecordModel;
use crate::walk::{records_fields, tree_fields};

verus! {

pub open spec fn all_digits(t: Seq<u8>) -> bool {
    forall|k: int| 0 <= k < t.len() ==> is_digit(#[trigger] t[k])
}

/// Digits, or digits, a point and digits, with at least one digit in all.
pub open spec fn is_unsigned_decimal(u: Seq<u8>) -> bool {
    (u.len() > 0 && all_digits(u)) || (u.len() > 1 && exists|d: int|
        0 <= d < u.len() && #[trigger] u[d] == 46 && all_digits(u.subrange(0, d)) && all_digits(
            u.subrange(d + 1, u.len() as int),
        ))
}

/// A decimal literal: an optional leading `-`, then an unsigned decimal.
pub open spec fn is_decimal(t: Seq<u8>) -> bool {
    if t.len() > 0 && t[0] == 45 {
        is_unsigned_decimal(t.drop_first())
    } else {
        is_unsigned_decimal(t)
    }
}

/// Each span is a field that the grammar recognizes where it starts.
pub open spec fn spans_are_fields(s: Seq<u8>, fs: Seq<(int, int)>) -> bool {
    forall|k: int| 0 <= k < fs.len() ==> field_end(s, (#[trigger] fs[k]).0) == Some(fs[k].1)
}

proof fn lemma_digits_run(s: Seq<u8>, j: int)
    requires
        0 <= j <= s.len(),
    ensures
        all_digits(s.subrange(j, digits_end(s, j))),
    decreases s.len() - j,
{
    lemma_digits_end(s, j);
    if j < s.len() && is_digit(s[j]) {
        lemma_digits_run(s, j + 1);
        let e = digits_end(s, j);
        assert forall|k: int| 0 <= k < e - j implies is_digit(#[trigger] s.subrange(j, e)[k]) by {
            if k > 0 {
                assert(s.subrange(j, e)[k] == s.subrange(j + 1, e)[k - 1]);
            }
        }
    }
}

proof fn lemma_field_is_decimal(s: Seq<u8>, i: int)
    requires
        field_end(s, i) is Some,
    ensures
        is_decimal(s.subrange(i, field_end(s, i)->Some_0)),
{
    lemma_field_end(s, i);
    let e = field_end(s, i)->Some_0;
    let t = s.subrange(i, e);
    let j = if byte_at(s, i, 45) { i + 1 } else { i };
    lemma_digits_end(s, j);
    let k = digits_end(s, j);
    lemma_digits_run(s, j);
    let u = s.subrange(j, e);
    if byte_at(s, i, 45) {
        assert(t.drop_first() =~= u);
    } else {
        assert(t =~= u);
    }
    if byte_at(s, k, 46) {
        lemma_digits_end(s, k + 1);
        lemma_digits_run(s, k + 1);
        let d = k - j;
        assert(u[d] == 46);
        assert(u.subrange(0, d) =~= s.subrange(j, k));
        assert(u.subrange(d + 1, u.len() as int) =~= s.subrange(k + 1, e));
    } else {
        assert(u =~= s.subrange(j, k));
    }
}

proof fn lemma_record_rest_fields(s: Seq<u8>, p: int)
    ensures
        spans_are_fields(s, record_rest(s, p).0),
    decreases s.len() - p,
{
    lemma_comma_end(s, p);
    if let Some(q) = crate::grammar::comma_end(s, p) {
        lemma_field_end(s, q);
        if let Some(e) = field_end(s, q) {
            lemma_record_rest_fields(s, e);
            let rest = record_rest(s, e).0;
            assert forall|k: int| 0 <= k < 1 + rest.len() implies field_end(s, (#[trigger] (seq![(q, e)] + rest)[k]).0)
                == Some((seq![(q, e)] + rest)[k].1) by {
                if k > 0 {
                    assert((seq![(q, e)] + rest)[k] == rest[k - 1]);
                }
            }
        }
    }
}

proof fn lemma_record_fields(s: Seq<u8>, i: int)
    requires
        record_at(s, i) is Some,
    ensures
        spans_are_fields(s, record_at(s, i)->Some_0.fields),
{
    let e = field_end(s, i)->Some_0;
    lemma_record_rest_fields(s, e);
    let rest = record_rest(s, e).0;
    assert forall|k: int| 0 <= k < 1 + rest.len() implies field_end(s, (#[trigger] (seq![(i, e)] + rest)[k]).0)
        == Some((seq![(i, e)] + rest)[k].1) by {
        if k > 0 {
            assert((seq![(i, e)] + rest)[k] == rest[k - 1]);
        }
    }
}

pub open spec fn records_are_recognized(s: Seq<u8>, rs: Seq<RecordModel>) -> bool {
    forall|k: int| 0 <= k < rs.len() ==> record_at(s, (#[trigger] rs[k]).span.0) == Some(rs[k])
}

proof fn lemma_list_rest_records(s: Seq<u8>, p: int)
    ensures
        records_are_recognized(s, list_rest(s, p).0),
    decreases s.len() - p,
{
    if let Some(q) = crate::grammar::newline_end(s, p) {
        lemma_record_at(s, q);
        if let Some(r) = record_at(s, q) {
            lemma_list_rest_records(s, r.span.1);
            let rest = list_rest(s, r.span.1).0;
            assert forall|k: int| 0 <= k < 1 + rest.len() implies record_at(s, (#[trigger] (seq![r] + rest)[k]).span.0)
                == Some((seq![r] + rest)[k]) by {
                if k > 0 {
                    assert((seq![r] + rest)[k] == rest[k - 1]);
                }
            }
        }
    }
}

proof fn lemma_records_fields_are_fields(s: Seq<u8>, rs: Seq<RecordModel>)
    requires
        records_are_recognized(s, rs),
    ensures
        spans_are_fields(s, records_fields(rs)),
    decreases rs.len(),
{
    if rs.len() > 0 {
        let a = rs.drop_last();
        assert(records_are_recognized(s, a)) by {
            assert forall|k: int| 0 <= k < a.len() implies record_at(s, (#[trigger] a[k]).span.0) == Some(a[k]) by {
                assert(a[k] == rs[k]);
            }
        }
        lemma_records_fields_are_fields(s, a);
        let last = rs.last();
        assert(record_at(s, rs[rs.len() - 1].span.0) == Some(rs[rs.len() - 1]));
        lemma_record_fields(s, last.span.0);
        let fa = records_fields(a);
        let fb = last.fields;
        assert forall|k: int| 0 <= k < fa.len() + fb.len() implies field_end(s, (#[trigger] (fa + fb)[k]).0)
            == Some((fa + fb)[k].1) by {
            if k < fa.len() {
                assert((fa + fb)[k] == fa[k]);
            } else {
                assert((fa + fb)[k] == fb[k - fa.len()]);
            }
        }
    }
}

/// The fields of a recognized document, in document order.
pub open spec fn document_fields(s: Seq<u8>) -> Seq<(int, int)> {
    tree_fields(file_outcome(s)->Ok_0)
}

/// Every field of a recognized document lies within the text and is a
/// well-formed decimal literal, so reading its value cannot fail.
pub proof fn lemma_fields_are_decimals(s: Seq<u8>)
    requires
        file_outcome(s) is Ok,
    ensures
        forall|k: int| 0 <= k < document_fields(s).len() ==> {
            let x = #[trigger] document_fields(s)[k];
            &&& 0 <= x.0 < x.1 <= s.len()
            &&& is_decimal(s.subrange(x.0, x.1))
        },
{
    let t = file_outcome(s)->Ok_0;
    if let Some(l) = t.list {
        lemma_record_at(s, 0);
        let r = record_at(s, 0)->Some_0;
        lemma_list_rest_records(s, r.span.1);
        let rest = list_rest(s, r.span.1).0;
        assert(l.records == seq![r] + rest);
        assert forall|k: int| 0 <= k < l.records.len() implies record_at(s, (#[trigger] l.records[k]).span.0)
            == Some(l.records[k]) by {
            if k > 0 {
                assert(l.records[k] == rest[k - 1]);
            }
        }
        lemma_records_fields_are_fields(s, l.records);
    }
    let fs = document_fields(s);
    assert forall|k: int| 0 <= k < fs.len() implies {
        let x = #[trigger] fs[k];
        &&& 0 <= x.0 < x.1 <= s.len()
        &&& is_decimal(s.subrange(x.0, x.1))
    } by {
        lemma_field_end(s, fs[k].0);
        lemma_field_is_decimal(s, fs[k].0);
    }
}

} // verus!
