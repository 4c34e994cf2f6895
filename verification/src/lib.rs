//! Paragraph reconstruction for page-description documents.
//!
//! A page holds independently placed, single-line text objects. This crate
//! orders such objects into reading order, groups them into lines, merges
//! neighbouring runs of one style, infers line alignment, and cuts the
//! result into paragraphs. Every function is verified against a
//! mathematical model of the data it works on.

pub mod alignment;
pub mod coalesce;
pub mod font;
pub mod fragment;
pub mod layout;
pub mod line;
pub mod page_object;
pub mod paragraph;
pub mod points;
pub mod position;
pub mod provenance;
pub mod reading_order;
pub mod style;
pub mod styled_string;

pub use crate::font::PdfFont;
pub use crate::fragment::{PdfLineAlignment, PdfParagraphFragment};
pub use crate::layout::PdfFragmentSize;
pub use crate::line::PdfLine;
pub use crate::page_object::{PdfPageObject, PdfPageTextObject};
pub use crate::paragraph::{PdfParagraph, PdfParagraphAlignment, PdfParagraphOverflowBehaviour};
pub use crate::points::{PdfPoints, PdfRect};
pub use crate::reading_order::PositionedObject;
pub use crate::styled_string::PdfStyledString;
