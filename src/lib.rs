//! Recognizes a comma- and newline-delimited file of decimal numbers and
//! walks its parse tree in document order.
pub mod tree;
pub mod grammar;
pub mod parser;
pub mod walk;
pub mod laws;
pub mod literal;

pub use tree::{Rule, Span, Record, RecordList, ParseTree, ParseError};
pub use parser::{parse_field, parse_record, parse_record_list, parse_as_csv_file};
pub use walk::field_spans;
