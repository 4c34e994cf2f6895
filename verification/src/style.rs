//! The mathematical model of styled text.

use crate::font::FontModel;
use crate::points::PdfPoints;
use vstd::prelude::*;

verus! {

/// How a run of text is set: the identity of its font and its size.
pub struct Style {
    pub font_handle: u64,
    pub font_name: Seq<char>,
    pub is_all_caps: bool,
    pub is_small_caps: bool,
    pub font_size: PdfPoints,
}

impl Style {
    /// The style of text set in `font` at `font_size`.
    pub open spec fn of(font: FontModel, font_size: PdfPoints) -> Style {
        Style {
            font_handle: font.handle,
            font_name: font.name,
            is_all_caps: font.is_all_caps,
            is_small_caps: font.is_small_caps,
            font_size,
        }
    }

    /// The font that the style names.
    pub open spec fn font(self) -> FontModel {
        FontModel {
            handle: self.font_handle,
            name: self.font_name,
            is_all_caps: self.is_all_caps,
            is_small_caps: self.is_small_caps,
        }
    }
}

/// A run of text in one style.
pub struct StyledText {
    pub text: Seq<char>,
    pub style: Style,
}

/// Whether two styles count as the same styling: equal sizes, equal font
/// handles, and names that are both empty or equal.
pub open spec fn styles_match(a: Style, b: Style) -> bool {
    &&& a.font_size == b.font_size
    &&& a.font_handle == b.font_handle
    &&& (a.font_name.len() == 0 && b.font_name.len() == 0) || a.font_name == b.font_name
}

/// Whether `text` ends with `suffix`.
pub open spec fn ends_with(text: Seq<char>, suffix: Seq<char>) -> bool {
    &&& suffix.len() <= text.len()
    &&& text.subrange(text.len() - suffix.len(), text.len() as int) == suffix
}

/// `existing` followed by `addition`, with `separator` between the two
/// unless `existing` already ends with it.
pub open spec fn append_text(
    existing: Seq<char>,
    addition: Seq<char>,
    separator: Seq<char>,
) -> Seq<char> {
    if ends_with(existing, separator) {
        existing + addition
    } else {
        existing + separator + addition
    }
}

/// The separator put between two runs that are merged: one space.
pub open spec fn word_gap() -> Seq<char> {
    seq![' ']
}

/// Style matching is reflexive, symmetric and transitive.
pub proof fn lemma_styles_match_is_equivalence(a: Style, b: Style, c: Style)
    ensures
        styles_match(a, a),
        styles_match(a, b) ==> styles_match(b, a),
        styles_match(a, b) && styles_match(b, c) ==> styles_match(a, c),
{
    if a.font_name.len() == 0 && b.font_name.len() == 0 {
        assert(a.font_name =~= b.font_name);
    }
    if b.font_name.len() == 0 && c.font_name.len() == 0 {
        assert(b.font_name =~= c.font_name);
    }
}

} // verus!
