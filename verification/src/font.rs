//! Fonts, and fonts held either by value or by reference.

use maybe_owned::MaybeOwned;
use vstd::prelude::*;

verus! {

/// What the engine reads of a font: its identity, its name and its caps
/// flags.
#[derive(Debug)]
pub struct PdfFont {
    pub handle: u64,
    pub name: String,
    pub is_all_caps: bool,
    pub is_small_caps: bool,
}

/// The mathematical model of a font.
pub struct FontModel {
    pub handle: u64,
    pub name: Seq<char>,
    pub is_all_caps: bool,
    pub is_small_caps: bool,
}

impl View for PdfFont {
    type V = FontModel;

    open spec fn view(&self) -> FontModel {
        FontModel {
            handle: self.handle,
            name: self.name@,
            is_all_caps: self.is_all_caps,
            is_small_caps: self.is_small_caps,
        }
    }
}

impl Clone for PdfFont {
    fn clone(&self) -> (copy: Self)
        ensures
            copy == *self,
    {
        PdfFont {
            handle: self.handle,
            name: self.name.clone(),
            is_all_caps: self.is_all_caps,
            is_small_caps: self.is_small_caps,
        }
    }
}

impl PdfFont {
    /// A font with the given identity, name and caps flags.
    pub fn new(handle: u64, name: String, is_all_caps: bool, is_small_caps: bool) -> (font:
        PdfFont)
        ensures
            font == (PdfFont { handle, name, is_all_caps, is_small_caps }),
    {
        PdfFont { handle, name, is_all_caps, is_small_caps }
    }

    /// The handle that identifies this font.
    pub fn get_handle(&self) -> (handle: u64)
        ensures
            handle == self.handle,
    {
        self.handle
    }

    /// The font's name; it may be empty.
    pub fn name(&self) -> (name: &str)
        ensures
            name@ == self.name@,
    {
        self.name.as_str()
    }

    /// Whether the font sets every letter as a capital.
    pub fn is_all_caps(&self) -> (flag: bool)
        ensures
            flag == self.is_all_caps,
    {
        self.is_all_caps
    }

    /// Whether the font sets lower-case letters as small capitals.
    pub fn is_small_caps(&self) -> (flag: bool)
        ensures
            flag == self.is_small_caps,
    {
        self.is_small_caps
    }
}

#[verifier::external_type_specification]
#[verifier::external_body]
#[verifier::reject_recursive_types(T)]
pub struct ExMaybeOwned<'a, T: 'a>(MaybeOwned<'a, T>);

/// The font that a holder gives access to, whether it owns the font or
/// borrows it.
pub uninterp spec fn held_font(holder: MaybeOwned<'_, PdfFont>) -> PdfFont;

/// `MaybeOwned::Borrowed` of the `maybe_owned` crate: a holder that refers
/// to `font` without owning it. The contract claims that the holder gives
/// access to that same font.
#[verifier::external_body]
pub(crate) fn borrow_font<'a>(font: &'a PdfFont) -> (holder: MaybeOwned<'a, PdfFont>)
    ensures
        held_font(holder) == *font,
{
    MaybeOwned::Borrowed(font)
}

/// `MaybeOwned::Owned` of the `maybe_owned` crate: a holder that owns
/// `font`. The contract claims that the holder gives access to that same
/// font.
#[verifier::external_body]
pub(crate) fn own_font<'a>(font: PdfFont) -> (holder: MaybeOwned<'a, PdfFont>)
    ensures
        held_font(holder) == font,
{
    MaybeOwned::Owned(font)
}

/// `MaybeOwned::as_ref` of the `maybe_owned` crate. The contract claims
/// that the reference handed out is to the font that the holder owns or
/// borrows.
#[verifier::external_body]
pub(crate) fn font_in<'b, 'a>(holder: &'b MaybeOwned<'a, PdfFont>) -> (font: &'b PdfFont)
    ensures
        *font == held_font(*holder),
{
    holder.as_ref()
}

} // verus!
