use vstd::prelude::*;
use crate::tree::{Span, Record, ParseTree, RecordModel, TreeModel, spans_model, records_model};

verus! {

/// The field spans of a sequence of records, in document order.
pub open spec fn records_fields(rs: Seq<RecordModel>) -> Seq<(int, int)>
    decreases rs.len(),
{
    if rs.len() == 0 {
        Seq::empty()
    } else {
        records_fields(rs.drop_last()) + rs.last().fields
    }
}

/// The field spans of a parse tree, top to bottom and left to right.
pub open spec fn tree_fields(t: TreeModel) -> Seq<(int, int)> {
    match t.list {
        Some(l) => records_fields(l.records),
        None => Seq::empty(),
    }
}

/// Walks the tree in document order and hands out the span of every field:
/// the numbers that a sum adds, in the order in which it adds them.
pub fn field_spans(tree: &ParseTree) -> (r: Vec<Span>)
    ensures
        spans_model(r@) == tree_fields(tree@),
{
    let mut out: Vec<Span> = Vec::new();
    match &tree.record_list {
        None => {
            assert(spans_model(out@) =~= Seq::<(int, int)>::empty());
        },
        Some(list) => {
            let records: &Vec<Record> = &list.records;
            let ghost rs = records_model(records@);
            assert(spans_model(out@) =~= records_fields(rs.take(0)));
            let mut j: usize = 0;
            while j < records.len()
                invariant
                    j <= records@.len(),
                    rs == records_model(records@),
                    spans_model(out@) == records_fields(rs.take(j as int)),
                decreases records@.len() - j,
            {
                let fields: &Vec<Span> = &records[j].fields;
                let ghost start = out@;
                let mut k: usize = 0;
                assert(spans_model(fields@).take(0) =~= Seq::<(int, int)>::empty());
                assert(spans_model(out@) =~= spans_model(start) + spans_model(fields@).take(0));
                while k < fields.len()
                    invariant
                        k <= fields@.len(),
                        spans_model(out@) == spans_model(start) + spans_model(fields@).take(k as int),
                    decreases fields@.len() - k,
                {
                    let ghost before = out@;
                    out.push(fields[k]);
                    assert(spans_model(out@) =~= spans_model(before) + seq![crate::tree::span_model(fields@[k as int])]);
                    assert(spans_model(fields@).take(k + 1) =~= spans_model(fields@).take(k as int) + seq![crate::tree::span_model(fields@[k as int])]);
                    k += 1;
                }
                assert(spans_model(fields@).take(k as int) =~= spans_model(fields@));
                assert(rs.take(j + 1).drop_last() =~= rs.take(j as int));
                assert(rs.take(j + 1).last() == rs[j as int]);
                j += 1;
            }
            assert(rs.take(j as int) =~= rs);
        },
    }
    out
}

} // verus!
