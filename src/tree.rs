use vstd::prelude::*;

verus! {

/// The grammar's rules, as they name the nodes of a parse tree and the
/// expectations of a parse error.
#[derive(Clone, Copy, Debug, PartialEq, Eq, Structural)]
pub enum Rule {
    Field,
    Record,
    RecordList,
    File,
    Eoi,
}

/// A half-open range of byte offsets into the parsed text.
#[derive(Clone, Copy, Debug, PartialEq, Eq, Structural)]
pub struct Span {
    pub start: usize,
    pub end: usize,
}

/// A `record` node: its span and the spans of its `field` children.
#[derive(Debug, PartialEq, Eq)]
pub struct Record {
    pub span: Span,
    pub fields: Vec<Span>,
}

/// A `record_list` node: its span and its `record` children.
#[derive(Debug, PartialEq, Eq)]
pub struct RecordList {
    pub span: Span,
    pub records: Vec<Record>,
}

/// The `file` node at the root of a parse tree, with its optional
/// `record_list` child.
#[derive(Debug, PartialEq, Eq)]
pub struct ParseTree {
    pub span: Span,
    pub record_list: Option<RecordList>,
}

/// A failed recognition: the rule that was asked for, the rules that would
/// have matched at the failure point, and its byte offset.
#[derive(Debug, PartialEq, Eq)]
pub struct ParseError {
    pub rule: Rule,
    pub expected: Vec<Rule>,
    pub pos: usize,
}

/// A record as a mathematical value.
pub struct RecordModel {
    pub span: (int, int),
    pub fields: Seq<(int, int)>,
}

/// A record list as a mathematical value.
pub struct ListModel {
    pub span: (int, int),
    pub records: Seq<RecordModel>,
}

/// A parse tree as a mathematical value.
pub struct TreeModel {
    pub span: (int, int),
    pub list: Option<ListModel>,
}

/// A parse error as a mathematical value.
pub struct ErrorModel {
    pub rule: Rule,
    pub expected: Seq<Rule>,
    pub pos: int,
}

pub open spec fn span_model(sp: Span) -> (int, int) {
    (sp.start as int, sp.end as int)
}

pub open spec fn spans_model(v: Seq<Span>) -> Seq<(int, int)> {
    v.map_values(|sp: Span| span_model(sp))
}

pub open spec fn records_model(v: Seq<Record>) -> Seq<RecordModel> {
    v.map_values(|r: Record| r@)
}

impl View for Record {
    type V = RecordModel;

    open spec fn view(&self) -> RecordModel {
        RecordModel { span: span_model(self.span), fields: spans_model(self.fields@) }
    }
}

impl View for RecordList {
    type V = ListModel;

    open spec fn view(&self) -> ListModel {
        ListModel { span: span_model(self.span), records: records_model(self.records@) }
    }
}

impl View for ParseTree {
    type V = TreeModel;

    open spec fn view(&self) -> TreeModel {
        TreeModel {
            span: span_model(self.span),
            list: match self.record_list {
                Some(l) => Some(l@),
                None => None,
            },
        }
    }
}

impl View for ParseError {
    type V = ErrorModel;

    open spec fn view(&self) -> ErrorModel {
        ErrorModel { rule: self.rule, expected: self.expected@, pos: self.pos as int }
    }
}

} // verus!
