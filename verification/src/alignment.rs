//! Line alignment, inferred from how a line's edges sit against the
//! edges of a reference: the line before it or, where there is none, the
//! whole group of objects.

use crate::fragment::PdfLineAlignment;
use crate::points::{near, PdfPoints};
use vstd::prelude::*;

verus! {

/// The alignment of a line with the given edges against a reference with
/// the given edges: justified where both edges are near the reference's,
/// left- or right-aligned where one is, centred where neither is.
pub open spec fn alignment_against(
    reference_left: PdfPoints,
    reference_right: PdfPoints,
    line_left: PdfPoints,
    line_right: PdfPoints,
) -> PdfLineAlignment {
    let is_aligned_left = near(reference_left.value as int, line_left.value as int);
    let is_aligned_right = near(reference_right.value as int, line_right.value as int);
    if is_aligned_left && is_aligned_right {
        PdfLineAlignment::Justify
    } else if is_aligned_left {
        PdfLineAlignment::LeftAlign
    } else if is_aligned_right {
        PdfLineAlignment::RightAlign
    } else {
        PdfLineAlignment::Center
    }
}

/// The alignment of a line: taken against the previous line where both of
/// its edges are known, against the edges of the whole group otherwise.
pub open spec fn guessed_alignment(
    previous_line_left: Option<PdfPoints>,
    previous_line_right: Option<PdfPoints>,
    line_left: PdfPoints,
    line_right: PdfPoints,
    paragraph_left: PdfPoints,
    paragraph_right: PdfPoints,
) -> PdfLineAlignment {
    match (previous_line_left, previous_line_right) {
        (Some(left), Some(right)) => alignment_against(left, right, line_left, line_right),
        _ => alignment_against(paragraph_left, paragraph_right, line_left, line_right),
    }
}

fn align_against(
    reference_left: PdfPoints,
    reference_right: PdfPoints,
    line_left: PdfPoints,
    line_right: PdfPoints,
) -> (alignment: PdfLineAlignment)
    ensures
        alignment == alignment_against(reference_left, reference_right, line_left, line_right),
{
    let is_aligned_left = reference_left.is_near(line_left);
    let is_aligned_right = reference_right.is_near(line_right);
    match (is_aligned_left, is_aligned_right) {
        (true, true) => PdfLineAlignment::Justify,
        (true, false) => PdfLineAlignment::LeftAlign,
        (false, true) => PdfLineAlignment::RightAlign,
        (false, false) => PdfLineAlignment::Center,
    }
}

/// Guesses the alignment of a line from its edges, the edges of the line
/// before it, if there is one, and the edges of the whole group of
/// objects.
pub fn guess_line_alignment(
    previous_line_left: Option<PdfPoints>,
    previous_line_right: Option<PdfPoints>,
    line_left: PdfPoints,
    line_right: PdfPoints,
    paragraph_left: PdfPoints,
    paragraph_right: PdfPoints,
) -> (alignment: PdfLineAlignment)
    ensures
        alignment == guessed_alignment(
            previous_line_left,
            previous_line_right,
            line_left,
            line_right,
            paragraph_left,
            paragraph_right,
        ),
        alignment != PdfLineAlignment::Unaligned,
{
    match (previous_line_left, previous_line_right) {
        (Some(left), Some(right)) => align_against(left, right, line_left, line_right),
        _ => align_against(paragraph_left, paragraph_right, line_left, line_right),
    }
}

} // verus!
