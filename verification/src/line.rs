//! Lines, and the assembly of a sorted run of page objects into lines.
//!
//! A new line record is opened only where a line break looks like the
//! end of a paragraph: the alignment changes, or the gap to the line
//! above exceeds one line height. A line break that looks like a mere
//! carriage return opens nothing; the objects behind it go on in the
//! record that is open.

use crate::alignment::{guess_line_alignment, guessed_alignment};
use crate::fragment::{
    append_styled, models_of, push_fragment, Fragment, PdfLineAlignment, PdfParagraphFragment,
};
use crate::page_object::PageObjectModel;
use crate::points::{PdfPoints, PdfRect};
use crate::reading_order::PositionedObject;
use crate::styled_string::PdfStyledString;
use vstd::prelude::*;

verus! {

/// A span of fragments that make up one line. A line break, where the
/// line holds one, is its first fragment and tells how the line before
/// was aligned.
pub struct PdfLine<'a> {
    pub alignment: PdfLineAlignment,
    pub bottom: PdfPoints,
    pub left: PdfPoints,
    pub width: PdfPoints,
    pub height: PdfPoints,
    pub fragments: Vec<PdfParagraphFragment<'a>>,
}

/// The mathematical model of a line.
pub struct LineModel {
    pub alignment: PdfLineAlignment,
    pub bottom: PdfPoints,
    pub left: PdfPoints,
    pub width: PdfPoints,
    pub height: PdfPoints,
    pub fragments: Seq<Fragment>,
}

impl<'a> View for PdfLine<'a> {
    type V = LineModel;

    open spec fn view(&self) -> LineModel {
        LineModel {
            alignment: self.alignment,
            bottom: self.bottom,
            left: self.left,
            width: self.width,
            height: self.height,
            fragments: models_of(self.fragments@),
        }
    }
}

impl<'a> PdfLine<'a> {
    /// The line with the given alignment, position, extent and fragments.
    pub fn new(
        alignment: PdfLineAlignment,
        bottom: PdfPoints,
        left: PdfPoints,
        width: PdfPoints,
        height: PdfPoints,
        fragments: Vec<PdfParagraphFragment<'a>>,
    ) -> (line: Self)
        ensures
            line == (PdfLine { alignment, bottom, left, width, height, fragments }),
    {
        PdfLine { alignment, bottom, left, width, height, fragments }
    }
}

/// The models of the lines in `lines`, in order.
pub open spec fn line_models(lines: Seq<PdfLine<'_>>) -> Seq<LineModel> {
    Seq::new(lines.len(), |i: int| lines[i]@)
}

/// A line that is still being assembled.
pub struct OpenLine {
    pub alignment: PdfLineAlignment,
    pub bottom: PdfPoints,
    pub top: PdfPoints,
    pub left: PdfPoints,
    pub right: PdfPoints,
    pub fragments: Seq<Fragment>,
}

impl OpenLine {
    /// The line as it is closed: it reaches from its left edge to the
    /// right edge of the last object put into it.
    pub open spec fn close(self) -> LineModel {
        LineModel {
            alignment: self.alignment,
            bottom: self.bottom,
            left: self.left,
            width: self.right.spec_minus(self.left),
            height: self.top.spec_minus(self.bottom),
            fragments: self.fragments,
        }
    }
}

/// The state of line assembly: the lines that are closed, the line that
/// is open, and the edges of the object handled last, if any was.
pub struct LineAssembly {
    pub lines: Seq<LineModel>,
    pub current: OpenLine,
    pub last_object: Option<PdfRect>,
}

/// The fragment that a page object contributes: its styled text where it
/// is a text object, its handle otherwise.
pub open spec fn fragment_of(object: PageObjectModel) -> Fragment {
    match object.text {
        Some(text) => Fragment::StyledString(text),
        None => Fragment::NonTextObject(object.handle),
    }
}

/// The state before any object is handled: no line is closed, the open
/// line is empty and unaligned, and sits at zero.
pub open spec fn assembly_start() -> LineAssembly {
    LineAssembly {
        lines: Seq::empty(),
        current: OpenLine {
            alignment: PdfLineAlignment::Unaligned,
            bottom: PdfPoints { value: 0 },
            top: PdfPoints { value: 0 },
            left: PdfPoints { value: 0 },
            right: PdfPoints { value: 0 },
            fragments: Seq::empty(),
        },
        last_object: None,
    }
}

/// Whether `object` begins a new visual line: it is the first object, or
/// it lies to the left of the object before it.
pub open spec fn starts_line(state: LineAssembly, object: PositionedObject<'_>) -> bool {
    match state.last_object {
        None => true,
        Some(last) => object.left.value < last.left.value,
    }
}

/// The alignment of the line that `object` would begin, taken against the
/// open line or, before the first object, against the whole group.
pub open spec fn candidate_alignment(
    state: LineAssembly,
    object: PositionedObject<'_>,
    paragraph_left: PdfPoints,
    paragraph_right: PdfPoints,
) -> PdfLineAlignment {
    match state.last_object {
        None => guessed_alignment(
            None,
            None,
            object.left,
            object.right,
            paragraph_left,
            paragraph_right,
        ),
        Some(_) => guessed_alignment(
            Some(state.current.left),
            Some(state.current.right),
            object.left,
            object.right,
            paragraph_left,
            paragraph_right,
        ),
    }
}

/// Whether `object` lies more than one line height below the object
/// before it. The heights are taken exactly. Before the first object the
/// rule is applied to an object of height zero at zero.
pub open spec fn leaves_gap(state: LineAssembly, object: PositionedObject<'_>) -> bool {
    match state.last_object {
        None => 0 > object.top.value,
        Some(last) => last.bottom.value - (last.top.value - last.bottom.value) > object.top.value,
    }
}

/// Whether the line break in front of `object`, if there is one, ends a
/// paragraph.
pub open spec fn breaks_paragraph(
    state: LineAssembly,
    object: PositionedObject<'_>,
    paragraph_left: PdfPoints,
    paragraph_right: PdfPoints,
) -> bool {
    starts_line(state, object) && (candidate_alignment(
        state,
        object,
        paragraph_left,
        paragraph_right,
    ) != state.current.alignment || leaves_gap(state, object))
}

/// The state after `object` is handled.
pub open spec fn assembly_step(
    state: LineAssembly,
    object: PositionedObject<'_>,
    paragraph_left: PdfPoints,
    paragraph_right: PdfPoints,
) -> LineAssembly {
    let breaks = breaks_paragraph(state, object, paragraph_left, paragraph_right);
    let lines = if breaks {
        state.lines.push(state.current.close())
    } else {
        state.lines
    };
    let opened = if breaks {
        OpenLine {
            alignment: candidate_alignment(state, object, paragraph_left, paragraph_right),
            bottom: object.bottom,
            top: object.top,
            left: object.left,
            right: state.current.right,
            fragments: seq![Fragment::LineBreak(state.current.alignment)],
        }
    } else {
        state.current
    };
    LineAssembly {
        lines,
        current: OpenLine {
            alignment: opened.alignment,
            bottom: opened.bottom,
            top: opened.top,
            left: opened.left,
            right: object.right,
            fragments: push_fragment(opened.fragments, fragment_of(object.object@)),
        },
        last_object: Some(
            PdfRect {
                left: object.left,
                bottom: object.bottom,
                right: object.right,
                top: object.top,
            },
        ),
    }
}

/// The state after the objects of `objects` are handled in order.
pub open spec fn assembly_after(
    objects: Seq<PositionedObject<'_>>,
    paragraph_left: PdfPoints,
    paragraph_right: PdfPoints,
) -> LineAssembly
    decreases objects.len(),
{
    if objects.len() == 0 {
        assembly_start()
    } else {
        assembly_step(
            assembly_after(objects.drop_last(), paragraph_left, paragraph_right),
            objects.last(),
            paragraph_left,
            paragraph_right,
        )
    }
}

/// The lines that `objects`, handled in order, are assembled into: the
/// lines closed on the way, then the line that is open at the end.
pub open spec fn assembled_lines(
    objects: Seq<PositionedObject<'_>>,
    paragraph_left: PdfPoints,
    paragraph_right: PdfPoints,
) -> Seq<LineModel> {
    let end = assembly_after(objects, paragraph_left, paragraph_right);
    end.lines.push(end.current.close())
}

/// Whether `object` lies more than one line height below `last`.
fn is_gap_below(last: Option<PdfRect>, object: &PositionedObject) -> (gap: bool)
    ensures
        gap == match last {
            None => 0 > object.top.value,
            Some(last) => last.bottom.value - (last.top.value - last.bottom.value)
                > object.top.value,
        },
{
    match last {
        None => 0 > object.top.value,
        Some(last) => {
            let bottom: i128 = last.bottom.value as i128;
            let top: i128 = last.top.value as i128;
            bottom - (top - bottom) > object.top.value as i128
        },
    }
}

/// Assembles `objects`, taken in the order given, into lines.
/// `paragraph_left` and `paragraph_right` are the edges of the whole
/// group; the first line is aligned against them.
pub fn assemble_lines<'a>(
    objects: &Vec<PositionedObject<'a>>,
    paragraph_left: PdfPoints,
    paragraph_right: PdfPoints,
) -> (lines: Vec<PdfLine<'a>>)
    ensures
        line_models(lines@) == assembled_lines(objects@, paragraph_left, paragraph_right),
{
    let mut lines: Vec<PdfLine<'a>> = Vec::new();
    let mut current_line_fragments: Vec<PdfParagraphFragment<'a>> = Vec::new();
    let mut current_line_bottom = PdfPoints::zero();
    let mut current_line_top = PdfPoints::zero();
    let mut current_line_left = PdfPoints::zero();
    let mut current_line_right = PdfPoints::zero();
    let mut current_line_alignment = PdfLineAlignment::Unaligned;
    let mut last_object: Option<PdfRect> = None;
    let mut handled: usize = 0;
    assert(objects@.take(0) =~= Seq::empty());
    assert(line_models(lines@) =~= Seq::empty());
    assert(models_of(current_line_fragments@) =~= Seq::empty());
    while handled < objects.len()
        invariant
            handled <= objects.len(),
            (LineAssembly {
                lines: line_models(lines@),
                current: OpenLine {
                    alignment: current_line_alignment,
                    bottom: current_line_bottom,
                    top: current_line_top,
                    left: current_line_left,
                    right: current_line_right,
                    fragments: models_of(current_line_fragments@),
                },
                last_object,
            }) == assembly_after(objects@.take(handled as int), paragraph_left, paragraph_right),
        decreases objects.len() - handled,
    {
        let positioned = &objects[handled];
        let ghost before = assembly_after(
            objects@.take(handled as int),
            paragraph_left,
            paragraph_right,
        );
        proof {
            let next = objects@.take(handled + 1);
            assert(next.drop_last() =~= objects@.take(handled as int));
            assert(next.last() == *positioned);
        }
        let is_new_line = match last_object {
            None => true,
            Some(last) => positioned.left.value < last.left.value,
        };
        if is_new_line {
            // This object begins a new line. Does the line break end a
            // paragraph?
            let next_line_alignment = match last_object {
                None => guess_line_alignment(
                    None,
                    None,
                    positioned.left,
                    positioned.right,
                    paragraph_left,
                    paragraph_right,
                ),
                Some(_) => guess_line_alignment(
                    Some(current_line_left),
                    Some(current_line_right),
                    positioned.left,
                    positioned.right,
                    paragraph_left,
                    paragraph_right,
                ),
            };
            if next_line_alignment != current_line_alignment || is_gap_below(
                last_object,
                positioned,
            ) {
                let ghost closed = line_models(lines@);
                let mut fragments: Vec<PdfParagraphFragment<'a>> = Vec::new();
                fragments.push(PdfParagraphFragment::LineBreak(current_line_alignment));
                std::mem::swap(&mut fragments, &mut current_line_fragments);
                lines.push(
                    PdfLine::new(
                        current_line_alignment,
                        current_line_bottom,
                        current_line_left,
                        current_line_right.minus(current_line_left),
                        current_line_top.minus(current_line_bottom),
                        fragments,
                    ),
                );
                current_line_left = positioned.left;
                current_line_bottom = positioned.bottom;
                current_line_top = positioned.top;
                current_line_alignment = next_line_alignment;
                assert(line_models(lines@) =~= closed.push(before.current.close()));
                assert(models_of(current_line_fragments@) =~= seq![
                    Fragment::LineBreak(before.current.alignment),
                ]);
            }
        }
        last_object = Some(
            PdfRect::new(positioned.left, positioned.bottom, positioned.right, positioned.top),
        );
        current_line_right = positioned.right;
        let ghost opened = models_of(current_line_fragments@);
        match positioned.object.as_text_object() {
            Some(text_object) => {
                append_styled(
                    &mut current_line_fragments,
                    PdfStyledString::from_text_object(text_object),
                );
            },
            None => {
                current_line_fragments.push(
                    PdfParagraphFragment::NonTextObject(positioned.object.get_object_handle()),
                );
                assert(models_of(current_line_fragments@) =~= opened.push(
                    Fragment::NonTextObject(positioned.object.handle),
                ));
            },
        }
        handled = handled + 1;
    }
    assert(objects@.take(handled as int) =~= objects@);
    let ghost closed = line_models(lines@);
    lines.push(
        PdfLine::new(
            current_line_alignment,
            current_line_bottom,
            current_line_left,
            current_line_right.minus(current_line_left),
            current_line_top.minus(current_line_bottom),
            current_line_fragments,
        ),
    );
    assert(line_models(lines@) =~= closed.push(
        assembly_after(objects@, paragraph_left, paragraph_right).current.close(),
    ));
    lines
}

} // verus!
