//! Localisation: message catalogs, lookup, live language switching, locale-aware
//! numbers and dates, right-to-left layout, and the string extraction pipeline.

pub mod catalog;
pub mod direction;
pub mod extract;
pub mod format;

pub use catalog::{
    parse_quoted, plural_rule_default, translate, Catalog, Localization, ParseError, ParseErrorKind,
};
pub use direction::{LayoutDirection, PhysicalAlign, Side, TextAlign};
pub use extract::{escape_po, extract_messages, generate_pot, merge, ExtractedMessage};
pub use format::{
    primary_subtag, to_12_hour, CivilDateTime, DateOrder, DateTimeFormat, NumberFormat,
};
