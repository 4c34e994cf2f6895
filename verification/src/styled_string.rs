//! A string in one style, the unit that paragraphs are made of.

use crate::font::{borrow_font, font_in, held_font, own_font, PdfFont};
use crate::page_object::PdfPageTextObject;
use crate::points::PdfPoints;
use crate::style::{append_text, ends_with, styles_match, Style, StyledText};
use maybe_owned::MaybeOwned;
use vstd::prelude::*;
use vstd::string::StringExecFns;

verus! {

/// A single styled string in a paragraph. Its font is either borrowed from
/// whoever owns it or owned by the string itself; callers see no
/// difference.
pub struct PdfStyledString<'a> {
    text: String,
    font: MaybeOwned<'a, PdfFont>,
    font_size: PdfPoints,
}

impl<'a> View for PdfStyledString<'a> {
    type V = StyledText;

    closed spec fn view(&self) -> StyledText {
        StyledText { text: self.text@, style: Style::of(held_font(self.font)@, self.font_size) }
    }
}

impl<'a> Clone for PdfStyledString<'a> {
    /// A copy with the same text and styling; the copy owns its font.
    fn clone(&self) -> (copy: Self)
        ensures
            copy@ == self@,
    {
        PdfStyledString {
            text: self.text.clone(),
            font: own_font(font_in(&self.font).clone()),
            font_size: self.font_size,
        }
    }
}

/// `str::ends_with` of std, called with a string as the pattern. The
/// contract claims that it answers whether the characters of `suffix`
/// are the last characters of `text`.
#[verifier::external_body]
fn text_ends_with(text: &str, suffix: &str) -> (found: bool)
    ensures
        found == ends_with(text@, suffix@),
{
    text.ends_with(suffix)
}

impl<'a> PdfStyledString<'a> {
    /// A styled string with the given text, set in a font that stays with
    /// its owner.
    pub fn new(text: String, font: &'a PdfFont, font_size: PdfPoints) -> (string: Self)
        ensures
            string@ == (StyledText { text: text@, style: Style::of(font@, font_size) }),
    {
        PdfStyledString { text, font: borrow_font(font), font_size }
    }

    /// A styled string with the text and styling of `text_object`; the
    /// string owns its copy of the font.
    pub fn from_text_object(text_object: &'a PdfPageTextObject) -> (string: Self)
        ensures
            string@ == text_object@,
    {
        PdfStyledString {
            text: text_object.text(),
            font: own_font(text_object.font()),
            font_size: text_object.unscaled_font_size(),
        }
    }

    /// Adds `text` to the end of this string. `separator` is put between
    /// the existing text and `text`, unless the existing text already
    /// ends with it.
    pub fn push(&mut self, text: &str, separator: &str)
        ensures
            final(self)@ == (StyledText {
                text: append_text(old(self)@.text, text@, separator@),
                style: old(self)@.style,
            }),
    {
        if !text_ends_with(self.text.as_str(), separator) {
            self.text.append(separator);
        }
        self.text.append(text);
    }

    /// The text of this string.
    pub fn text(&self) -> (text: &str)
        ensures
            text@ == self@.text,
    {
        self.text.as_str()
    }

    /// The font that styles this string.
    pub fn font(&self) -> (font: &PdfFont)
        ensures
            font@ == self@.style.font(),
    {
        font_in(&self.font)
    }

    /// The font size that styles this string.
    pub fn font_size(&self) -> (size: PdfPoints)
        ensures
            size == self@.style.font_size,
    {
        self.font_size
    }

    /// Whether this string and `other` are styled alike.
    pub fn does_match_string_styling(&self, other: &PdfStyledString) -> (matches: bool)
        ensures
            matches == styles_match(self@.style, other@.style),
    {
        self.does_match_raw_styling(other.font_size(), other.font())
    }

    /// Whether this string is styled as `other` is.
    pub fn does_match_object_styling(&self, other: &PdfPageTextObject) -> (matches: bool)
        ensures
            matches == styles_match(self@.style, other@.style),
    {
        self.does_match_raw_styling(other.unscaled_font_size(), &other.font)
    }

    /// Whether this string is set at `other_font_size` in a font that
    /// counts as `other_font`. Sizes and handles are compared first; names
    /// are compared only where the handles agree.
    pub fn does_match_raw_styling(&self, other_font_size: PdfPoints, other_font: &PdfFont) -> (matches:
        bool)
        ensures
            matches == styles_match(self@.style, Style::of(other_font@, other_font_size)),
    {
        if self.font_size().value != other_font_size.value {
            return false;
        }
        let this_font = self.font();
        if this_font.get_handle() != other_font.get_handle() {
            return false;
        }
        let this_name_is_empty = this_font.name().is_empty();
        let other_name_is_empty = other_font.name().is_empty();
        if this_name_is_empty && other_name_is_empty {
            return true;
        }
        (!this_name_is_empty || !other_name_is_empty) && this_font.name == other_font.name
    }

    /// A text object with the text and styling of this string.
    pub fn as_text_object(&self) -> (text_object: PdfPageTextObject)
        ensures
            text_object@ == self@,
    {
        PdfPageTextObject::new(self.text.clone(), self.font().clone(), self.font_size)
    }
}

} // verus!
