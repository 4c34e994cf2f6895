//! Page objects as the engine sees them: a handle, bounds if any, and for
//! a text object its text and styling.

use crate::font::PdfFont;
use crate::points::{PdfPoints, PdfRect};
use crate::style::{Style, StyledText};
use vstd::prelude::*;

verus! {

/// A text object: one styled, single-line span of text.
#[derive(Debug)]
pub struct PdfPageTextObject {
    pub text: String,
    pub font: PdfFont,
    pub font_size: PdfPoints,
}

impl View for PdfPageTextObject {
    type V = StyledText;

    open spec fn view(&self) -> StyledText {
        StyledText { text: self.text@, style: Style::of(self.font@, self.font_size) }
    }
}

impl PdfPageTextObject {
    /// The text object with the given text, font and font size.
    pub fn new(text: String, font: PdfFont, font_size: PdfPoints) -> (object: PdfPageTextObject)
        ensures
            object == (PdfPageTextObject { text, font, font_size }),
    {
        PdfPageTextObject { text, font, font_size }
    }

    /// A copy of the object's text.
    pub fn text(&self) -> (text: String)
        ensures
            text@ == self@.text,
    {
        self.text.clone()
    }

    /// A copy of the object's font.
    pub fn font(&self) -> (font: PdfFont)
        ensures
            font == self.font,
    {
        self.font.clone()
    }

    /// The font size that the object was set at, before any scaling.
    pub fn unscaled_font_size(&self) -> (size: PdfPoints)
        ensures
            size == self.font_size,
    {
        self.font_size
    }
}

/// An object placed on a page. Only a text object carries text; every
/// other kind is carried through by its handle alone.
#[derive(Debug)]
pub struct PdfPageObject {
    pub handle: u64,
    pub bounds: Option<PdfRect>,
    pub text_object: Option<PdfPageTextObject>,
}

/// The mathematical model of a page object.
pub struct PageObjectModel {
    pub handle: u64,
    pub bounds: Option<PdfRect>,
    pub text: Option<StyledText>,
}

impl View for PdfPageObject {
    type V = PageObjectModel;

    open spec fn view(&self) -> PageObjectModel {
        PageObjectModel {
            handle: self.handle,
            bounds: self.bounds,
            text: match self.text_object {
                Some(text_object) => Some(text_object@),
                None => None,
            },
        }
    }
}

impl PdfPageObject {
    /// The page object with the given handle, bounds and, for a text
    /// object, text.
    pub fn new(handle: u64, bounds: Option<PdfRect>, text_object: Option<PdfPageTextObject>) -> (object:
        PdfPageObject)
        ensures
            object == (PdfPageObject { handle, bounds, text_object }),
    {
        PdfPageObject { handle, bounds, text_object }
    }

    /// The object's bounds; an object may have none.
    pub fn bounds(&self) -> (bounds: Option<PdfRect>)
        ensures
            bounds == self.bounds,
    {
        self.bounds
    }

    /// The object as a text object, if it is one.
    pub fn as_text_object(&self) -> (text_object: Option<&PdfPageTextObject>)
        ensures
            text_object == match self.text_object {
                Some(inner) => Some(&inner),
                None => None,
            },
    {
        self.text_object.as_ref()
    }

    /// The handle that identifies the object on its page.
    pub fn get_object_handle(&self) -> (handle: u64)
        ensures
            handle == self.handle,
    {
        self.handle
    }
}

} // verus!
