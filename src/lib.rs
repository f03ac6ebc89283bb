//! Parsing of plain-text checklists into task records.
//!
//! A document is read line by line: a line with a checkbox (`[x]`, or with
//! full-width brackets `［x］`) opens a task, the lines after it continue its
//! memo, and a blank line ends it. Labels such as `#priority:1` are extracted
//! from a memo on request.

pub mod item;
pub mod item_parser;
pub mod labels;
pub mod line;
pub mod load;
pub mod text;

pub use item::{demo_items, Item};
pub use item_parser::{
    checkbox, checkbox_mark, checkbox_open, checkbox_shut, indent, label1, label2, label3,
    label_open, label_phrase, label_splitter, list_marker, many0, memo, one, ParseError,
};
pub use labels::{extract_labels, extract_labels_with, LabelMatch};
pub use line::{classify_line, parse_checkbox_line, whitespace_to_nest, LineKind};
pub use load::{load_items_via_str, parse_document, split_lines, Accumulator};
pub use text::trim_text;
