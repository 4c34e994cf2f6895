//! Paragraphs: groups of styled strings that are laid out together.
//!
//! Text on a page is held in text objects, each a single span in one style
//! and at most one line long. A paragraph gathers such spans again: it
//! can be built from the objects of a page or from scratch, edited, and
//! read back as text.

use crate::fragment::{
    append_styled, coalesced, lemma_push_fragment_keeps_coalesced, models_of, push_fragment,
    push_styled, Fragment, PdfLineAlignment, PdfParagraphFragment,
};
use crate::line::{assemble_lines, assembled_lines, line_models, LineModel, PdfLine};
use crate::page_object::PdfPageObject;
use crate::points::PdfPoints;
use crate::position::{extent, extent_of, placed_all, position_objects};
use crate::reading_order::{
    in_reading_order, lemma_rearrangement_is_strictly_ordered, lemma_reading_order_is_unique,
    sort_into_reading_order, strictly_ordered, PositionedObject,
};
use crate::styled_string::PdfStyledString;
use vstd::prelude::*;
use vstd::string::StringExecFns;

verus! {

/// What a paragraph does with content that no longer fits the bounds of
/// the page objects it was made from.
#[derive(Copy, Clone, Debug, PartialEq, Eq, Structural)]
pub enum PdfParagraphOverflowBehaviour {
    /// The maximum line width is adjusted so that the paragraph's height
    /// stays the same.
    FixHeightExpandWidth,
    /// The paragraph's height grows so that its maximum width stays the
    /// same.
    FixWidthExpandHeight,
    /// Content beyond the paragraph's width and height is clipped.
    Clip,
}

/// How the lines of a paragraph are aligned.
#[derive(Copy, Clone, Debug, PartialEq, Eq, Structural)]
pub enum PdfParagraphAlignment {
    /// All lines are unjustified and flush left.
    LeftAlign,
    /// All lines are unjustified and flush right.
    RightAlign,
    /// All lines are unjustified and centred.
    Center,
    /// All lines but the last are justified.
    Justify,
    /// All lines, the last one too, are justified.
    ForceJustify,
}

/// A group of styled strings that are laid out together as one paragraph.
/// No two neighbouring fragments of a paragraph are runs of text in
/// matching styles: such runs are merged as they are added.
pub struct PdfParagraph<'a> {
    fragments: Vec<PdfParagraphFragment<'a>>,
    top: Option<PdfPoints>,
    left: Option<PdfPoints>,
    max_width: Option<PdfPoints>,
    max_height: Option<PdfPoints>,
    overflow: PdfParagraphOverflowBehaviour,
    alignment: PdfParagraphAlignment,
    first_line_indent: PdfPoints,
}

/// The mathematical model of a paragraph.
pub struct ParagraphModel {
    pub fragments: Seq<Fragment>,
    pub top: Option<PdfPoints>,
    pub left: Option<PdfPoints>,
    pub max_width: Option<PdfPoints>,
    pub max_height: Option<PdfPoints>,
    pub overflow: PdfParagraphOverflowBehaviour,
    pub alignment: PdfParagraphAlignment,
    pub first_line_indent: PdfPoints,
}

impl<'a> View for PdfParagraph<'a> {
    type V = ParagraphModel;

    closed spec fn view(&self) -> ParagraphModel {
        ParagraphModel {
            fragments: models_of(self.fragments@),
            top: self.top,
            left: self.left,
            max_width: self.max_width,
            max_height: self.max_height,
            overflow: self.overflow,
            alignment: self.alignment,
            first_line_indent: self.first_line_indent,
        }
    }
}

/// The models of the paragraphs in `paragraphs`, in order.
pub open spec fn paragraph_models(paragraphs: Seq<PdfParagraph<'_>>) -> Seq<ParagraphModel> {
    Seq::new(paragraphs.len(), |i: int| paragraphs[i]@)
}

/// The text that a fragment stands for: a run's own text, a line feed for
/// a line break, nothing for an object that is not text.
pub open spec fn fragment_text(fragment: Fragment) -> Seq<char> {
    match fragment {
        Fragment::StyledString(string) => string.text,
        Fragment::LineBreak(_) => seq!['\n'],
        Fragment::NonTextObject(_) => Seq::empty(),
    }
}

/// The texts of all fragments, one after the other.
pub open spec fn plain_text(fragments: Seq<Fragment>) -> Seq<char>
    decreases fragments.len(),
{
    if fragments.len() == 0 {
        Seq::empty()
    } else {
        plain_text(fragments.drop_last()) + fragment_text(fragments.last())
    }
}

/// The texts of the runs of text among `fragments`, in order.
pub open spec fn styled_texts(fragments: Seq<Fragment>) -> Seq<Seq<char>>
    decreases fragments.len(),
{
    if fragments.len() == 0 {
        Seq::empty()
    } else {
        let earlier = styled_texts(fragments.drop_last());
        match fragments.last() {
            Fragment::StyledString(string) => earlier.push(string.text),
            _ => earlier,
        }
    }
}

/// The texts of `parts`, one after the other, with `separator` between
/// each two.
pub open spec fn joined(parts: Seq<Seq<char>>, separator: Seq<char>) -> Seq<char>
    decreases parts.len(),
{
    if parts.len() == 0 {
        Seq::empty()
    } else if parts.len() == 1 {
        parts[0]
    } else {
        joined(parts.drop_last(), separator) + separator + parts.last()
    }
}


/// What a fragment is, in words: a run's own text, and a fixed phrase for
/// a line break and for an object that is not text.
pub open spec fn description_of(fragment: Fragment) -> Seq<char> {
    match fragment {
        Fragment::StyledString(string) => string.text,
        Fragment::LineBreak(_) => "line break"@,
        Fragment::NonTextObject(_) => "not a text object"@,
    }
}

/// The alignment that a paragraph takes from its first line. A line whose
/// alignment is not known gives a left-aligned paragraph.
pub open spec fn paragraph_alignment_of(alignment: PdfLineAlignment) -> PdfParagraphAlignment {
    match alignment {
        PdfLineAlignment::Unaligned => PdfParagraphAlignment::LeftAlign,
        PdfLineAlignment::LeftAlign => PdfParagraphAlignment::LeftAlign,
        PdfLineAlignment::RightAlign => PdfParagraphAlignment::RightAlign,
        PdfLineAlignment::Center => PdfParagraphAlignment::Center,
        PdfLineAlignment::Justify => PdfParagraphAlignment::Justify,
    }
}

/// What a paragraph takes from the lines it is made of: the greatest top
/// edge, the least left and bottom edge, the greatest width, and the
/// alignment of the first line.
#[derive(Copy, Clone, Debug, PartialEq, Eq, Structural)]
pub struct Frame {
    pub top: PdfPoints,
    pub left: PdfPoints,
    pub width: PdfPoints,
    pub bottom: PdfPoints,
    pub alignment: PdfParagraphAlignment,
}

/// The frame of a paragraph that `line` is added to.
pub open spec fn widened(frame: Option<Frame>, line: LineModel) -> Frame {
    let line_top = line.bottom.spec_plus(line.height);
    match frame {
        None => Frame {
            top: line_top,
            left: line.left,
            width: line.width,
            bottom: line.bottom,
            alignment: paragraph_alignment_of(line.alignment),
        },
        Some(frame) => Frame {
            top: frame.top.spec_max(line_top),
            left: frame.left.spec_min(line.left),
            width: frame.width.spec_max(line.width),
            bottom: frame.bottom.spec_min(line.bottom),
            alignment: frame.alignment,
        },
    }
}

/// The paragraph with the given fragments in the given frame. It keeps
/// its width and grows in height where content overflows, and its first
/// line is not indented.
pub open spec fn framed(fragments: Seq<Fragment>, frame: Option<Frame>) -> ParagraphModel {
    match frame {
        Some(frame) => ParagraphModel {
            fragments,
            top: Some(frame.top),
            left: Some(frame.left),
            max_width: Some(frame.width),
            max_height: Some(frame.top.spec_minus(frame.bottom)),
            overflow: PdfParagraphOverflowBehaviour::FixWidthExpandHeight,
            alignment: frame.alignment,
            first_line_indent: PdfPoints { value: 0 },
        },
        None => ParagraphModel {
            fragments,
            top: None,
            left: None,
            max_width: None,
            max_height: None,
            overflow: PdfParagraphOverflowBehaviour::FixWidthExpandHeight,
            alignment: PdfParagraphAlignment::LeftAlign,
            first_line_indent: PdfPoints { value: 0 },
        },
    }
}

/// The state of cutting lines into paragraphs: the paragraphs that are
/// finished, and the fragments and the frame of the one being gathered.
pub struct Gathering {
    pub finished: Seq<ParagraphModel>,
    pub fragments: Seq<Fragment>,
    pub frame: Option<Frame>,
}

/// The finished paragraphs once the one being gathered is closed. A
/// paragraph without fragments is dropped.
pub open spec fn closed(state: Gathering) -> Seq<ParagraphModel> {
    if state.fragments.len() > 0 {
        state.finished.push(framed(state.fragments, state.frame))
    } else {
        state.finished
    }
}

/// The state after `fragment`, a fragment of `line`, is handled. A line
/// break closes the paragraph being gathered and begins a new one. Any
/// other fragment joins the paragraph being gathered, and its line
/// widens the paragraph's frame.
pub open spec fn gather(state: Gathering, line: LineModel, fragment: Fragment) -> Gathering {
    match fragment {
        Fragment::LineBreak(_) => Gathering {
            finished: closed(state),
            fragments: Seq::empty(),
            frame: None,
        },
        _ => Gathering {
            finished: state.finished,
            fragments: push_fragment(state.fragments, fragment),
            frame: Some(widened(state.frame, line)),
        },
    }
}

/// The state after the first `count` fragments of `line` are handled.
pub open spec fn gathered_in_line(state: Gathering, line: LineModel, count: int) -> Gathering
    decreases count,
{
    if count <= 0 {
        state
    } else {
        gather(gathered_in_line(state, line, count - 1), line, line.fragments[count - 1])
    }
}

/// The state after all fragments of all lines of `lines` are handled.
pub open spec fn gathered(lines: Seq<LineModel>) -> Gathering
    decreases lines.len(),
{
    if lines.len() == 0 {
        Gathering { finished: Seq::empty(), fragments: Seq::empty(), frame: None }
    } else {
        gathered_in_line(
            gathered(lines.drop_last()),
            lines.last(),
            lines.last().fragments.len() as int,
        )
    }
}

/// The paragraphs that `lines` are cut into. Each line break ends a
/// paragraph; what stands between two line breaks, or before the first
/// or behind the last, is one paragraph, unless it is empty.
pub open spec fn paragraphs_of(lines: Seq<LineModel>) -> Seq<ParagraphModel> {
    closed(gathered(lines))
}

/// Whether `order` is the sequence in which `objects` are read: a
/// rearrangement of the placed objects that is in reading order where
/// reading order is a strict total order on them, and the placed objects
/// as they were given where it is not.
pub open spec fn is_reading_sequence(
    order: Seq<PositionedObject<'_>>,
    objects: Seq<PdfPageObject>,
) -> bool {
    let given = placed_all(objects);
    &&& order.to_multiset() == given.to_multiset()
    &&& strictly_ordered(given) ==> in_reading_order(order)
    &&& !strictly_ordered(given) ==> order == given
}

/// The sequence in which `objects` are read.
pub open spec fn reading_sequence<'a>(objects: Seq<PdfPageObject>) -> Seq<PositionedObject<'a>> {
    choose|order: Seq<PositionedObject<'a>>| is_reading_sequence(order, objects)
}

/// Objects are read in one sequence only: whatever is a reading sequence
/// of `objects` is the reading sequence of `objects`.
pub proof fn lemma_reading_sequence_is_unique<'a>(
    order: Seq<PositionedObject<'a>>,
    objects: Seq<PdfPageObject>,
)
    requires
        is_reading_sequence(order, objects),
    ensures
        order == reading_sequence::<'a>(objects),
        is_reading_sequence(reading_sequence::<'a>(objects), objects),
{
    let chosen = reading_sequence::<'a>(objects);
    let given = placed_all::<'a>(objects);
    assert(is_reading_sequence(chosen, objects));
    if strictly_ordered(given) {
        lemma_rearrangement_is_strictly_ordered(given, order);
        lemma_reading_order_is_unique(order, chosen);
    }
}

/// The paragraphs that objects read in the sequence `order` make up: the
/// objects are assembled into lines, aligned against the left and right
/// edge of their extent, and the lines are cut into paragraphs.
pub open spec fn paragraphs_read(order: Seq<PositionedObject<'_>>) -> Seq<ParagraphModel> {
    let bounds = extent_of(order);
    paragraphs_of(assembled_lines(order, bounds.left, bounds.right))
}

impl<'a> PdfParagraph<'a> {
    #[verifier::type_invariant]
    spec fn well_formed(self) -> bool {
        coalesced(models_of(self.fragments@))
    }

    /// Moves the fragments out of this paragraph and leaves it empty.
    fn take_fragments(&mut self) -> (fragments: Vec<PdfParagraphFragment<'a>>)
        ensures
            fragments == old(self).fragments,
            final(self).fragments@.len() == 0,
            final(self).top == old(self).top,
            final(self).left == old(self).left,
            final(self).max_width == old(self).max_width,
            final(self).max_height == old(self).max_height,
            final(self).overflow == old(self).overflow,
            final(self).alignment == old(self).alignment,
            final(self).first_line_indent == old(self).first_line_indent,
    {
        let mut fragments: Vec<PdfParagraphFragment<'a>> = Vec::new();
        std::mem::swap(&mut self.fragments, &mut fragments);
        fragments
    }

    /// A new, empty paragraph with the given maximum line width, overflow
    /// and alignment settings.
    pub fn empty(
        maximum_width: PdfPoints,
        overflow: PdfParagraphOverflowBehaviour,
        alignment: PdfParagraphAlignment,
    ) -> (paragraph: Self)
        ensures
            paragraph@ == (ParagraphModel {
                fragments: Seq::empty(),
                top: None,
                left: None,
                max_width: Some(maximum_width),
                max_height: None,
                overflow,
                alignment,
                first_line_indent: PdfPoints { value: 0 },
            }),
    {
        let fragments: Vec<PdfParagraphFragment<'a>> = Vec::new();
        assert(models_of(fragments@) =~= Seq::empty());
        PdfParagraph {
            fragments,
            top: None,
            left: None,
            max_width: Some(maximum_width),
            max_height: None,
            overflow,
            alignment,
            first_line_indent: PdfPoints::zero(),
        }
    }

    /// The paragraph with the given fragments in the given frame.
    fn in_frame(fragments: Vec<PdfParagraphFragment<'a>>, frame: Option<Frame>) -> (paragraph:
        Self)
        requires
            coalesced(models_of(fragments@)),
        ensures
            paragraph@ == framed(models_of(fragments@), frame),
    {
        match frame {
            Some(frame) => PdfParagraph {
                fragments,
                top: Some(frame.top),
                left: Some(frame.left),
                max_width: Some(frame.width),
                max_height: Some(frame.top.minus(frame.bottom)),
                overflow: PdfParagraphOverflowBehaviour::FixWidthExpandHeight,
                alignment: frame.alignment,
                first_line_indent: PdfPoints::zero(),
            },
            None => PdfParagraph {
                fragments,
                top: None,
                left: None,
                max_width: None,
                max_height: None,
                overflow: PdfParagraphOverflowBehaviour::FixWidthExpandHeight,
                alignment: PdfParagraphAlignment::LeftAlign,
                first_line_indent: PdfPoints::zero(),
            },
        }
    }

    /// Cuts `lines` into paragraphs. Each line break ends a paragraph;
    /// the fragments between two line breaks make up one paragraph, whose
    /// position, extent and alignment come from the lines that the
    /// fragments stood in.
    pub fn from_lines(lines: Vec<PdfLine<'a>>) -> (paragraphs: Vec<Self>)
        ensures
            paragraph_models(paragraphs@) == paragraphs_of(line_models(lines@)),
            forall|i: int|
                0 <= i < paragraphs.len() ==> coalesced((#[trigger] paragraphs[i])@.fragments),
    {
        let ghost all_lines = line_models(lines@);
        let mut paragraphs: Vec<Self> = Vec::new();
        let mut fragments: Vec<PdfParagraphFragment<'a>> = Vec::new();
        let mut frame: Option<Frame> = None;
        assert(all_lines.take(0) =~= Seq::empty());
        assert(paragraph_models(paragraphs@) =~= Seq::empty());
        assert(models_of(fragments@) =~= Seq::empty());
        for line in lines_left: lines
            invariant
                lines_left.seq() == lines@,
                all_lines == line_models(lines@),
                coalesced(models_of(fragments@)),
                forall|i: int|
                    0 <= i < paragraphs.len() ==> coalesced((#[trigger] paragraphs[i])@.fragments),
                (Gathering {
                    finished: paragraph_models(paragraphs@),
                    fragments: models_of(fragments@),
                    frame,
                }) == gathered(all_lines.take(lines_left.index() as int)),
        {
            let ghost line_model = line@;
            let ghost before = gathered(all_lines.take(lines_left.index() as int));
            proof {
                let next = all_lines.take(lines_left.index() + 1);
                assert(next.drop_last() =~= all_lines.take(lines_left.index() as int));
                assert(next.last() == line_model);
            }
            let alignment = line.alignment;
            let bottom = line.bottom;
            let left = line.left;
            let width = line.width;
            let line_top = line.bottom.plus(line.height);
            let line_fragments = line.fragments;
            for fragment in fragments_left: line_fragments
                invariant
                    fragments_left.seq() == line_fragments@,
                    line_model.fragments == models_of(line_fragments@),
                    line_model.alignment == alignment,
                    line_model.bottom == bottom,
                    line_model.left == left,
                    line_model.width == width,
                    line_model.bottom.spec_plus(line_model.height) == line_top,
                    coalesced(models_of(fragments@)),
                    forall|i: int|
                        0 <= i < paragraphs.len() ==> coalesced(
                            (#[trigger] paragraphs[i])@.fragments,
                        ),
                    (Gathering {
                        finished: paragraph_models(paragraphs@),
                        fragments: models_of(fragments@),
                        frame,
                    }) == gathered_in_line(before, line_model, fragments_left.index() as int),
            {
                let ghost finished = paragraph_models(paragraphs@);
                let ghost gathering = models_of(fragments@);
                assert(line_model.fragments[fragments_left.index() as int] == fragment@);
                match fragment {
                    PdfParagraphFragment::LineBreak(_) => {
                        if fragments.len() > 0 {
                            let mut complete: Vec<PdfParagraphFragment<'a>> = Vec::new();
                            std::mem::swap(&mut complete, &mut fragments);
                            paragraphs.push(Self::in_frame(complete, frame));
                            assert(paragraph_models(paragraphs@) =~= finished.push(
                                framed(gathering, frame),
                            ));
                        }
                        frame = None;
                        assert(models_of(fragments@) =~= Seq::empty());
                    },
                    PdfParagraphFragment::StyledString(string) => {
                        proof {
                            lemma_push_fragment_keeps_coalesced(
                                gathering,
                                Fragment::StyledString(string@),
                            );
                        }
                        append_styled(&mut fragments, string);
                        frame = Some(Self::widen(frame, alignment, bottom, left, width, line_top));
                    },
                    PdfParagraphFragment::NonTextObject(handle) => {
                        proof {
                            lemma_push_fragment_keeps_coalesced(
                                gathering,
                                Fragment::NonTextObject(handle),
                            );
                        }
                        fragments.push(PdfParagraphFragment::NonTextObject(handle));
                        assert(models_of(fragments@) =~= gathering.push(
                            Fragment::NonTextObject(handle),
                        ));
                        frame = Some(Self::widen(frame, alignment, bottom, left, width, line_top));
                    },
                }
            }
        }
        assert(all_lines.take(lines@.len() as int) =~= all_lines);
        if fragments.len() > 0 {
            let ghost finished = paragraph_models(paragraphs@);
            let ghost gathering = models_of(fragments@);
            paragraphs.push(Self::in_frame(fragments, frame));
            assert(paragraph_models(paragraphs@) =~= finished.push(framed(gathering, frame)));
        }
        paragraphs
    }

    /// The frame of a paragraph that a line with the given alignment,
    /// edges and width is added to.
    fn widen(
        frame: Option<Frame>,
        alignment: PdfLineAlignment,
        bottom: PdfPoints,
        left: PdfPoints,
        width: PdfPoints,
        line_top: PdfPoints,
    ) -> (widened_frame: Frame)
        ensures
            forall|line: LineModel|
                line.alignment == alignment && line.bottom == bottom && line.left == left
                    && line.width == width && line.bottom.spec_plus(line.height) == line_top
                    ==> widened_frame == #[trigger] widened(frame, line),
    {
        match frame {
            None => Frame {
                top: line_top,
                left,
                width,
                bottom,
                alignment: match alignment {
                    PdfLineAlignment::Unaligned => PdfParagraphAlignment::LeftAlign,
                    PdfLineAlignment::LeftAlign => PdfParagraphAlignment::LeftAlign,
                    PdfLineAlignment::RightAlign => PdfParagraphAlignment::RightAlign,
                    PdfLineAlignment::Center => PdfParagraphAlignment::Center,
                    PdfLineAlignment::Justify => PdfParagraphAlignment::Justify,
                },
            },
            Some(frame) => Frame {
                top: frame.top.max(line_top),
                left: frame.left.min(left),
                width: frame.width.max(width),
                bottom: frame.bottom.min(bottom),
                alignment: frame.alignment,
            },
        }
    }

    /// Makes paragraphs from the given page objects. The objects are put
    /// into reading order, assembled into lines, and the lines are cut
    /// into paragraphs. No objects give no paragraphs.
    pub fn from_objects(objects: &'a [PdfPageObject]) -> (paragraphs: Vec<Self>)
        ensures
            is_reading_sequence(reading_sequence::<'a>(objects@), objects@),
            paragraph_models(paragraphs@) == paragraphs_read(reading_sequence::<'a>(objects@)),
            forall|i: int|
                0 <= i < paragraphs.len() ==> coalesced((#[trigger] paragraphs[i])@.fragments),
    {
        let positioned_objects = sort_into_reading_order(position_objects(objects));
        let bounds = extent(&positioned_objects);
        let lines = assemble_lines(&positioned_objects, bounds.left, bounds.right);
        let paragraphs = Self::from_lines(lines);
        proof {
            lemma_reading_sequence_is_unique(positioned_objects@, objects@);
        }
        paragraphs
    }

    /// Whether this paragraph holds no fragments.
    pub fn is_empty(&self) -> (empty: bool)
        ensures
            empty == (self@.fragments.len() == 0),
    {
        self.fragments.len() == 0
    }

    /// Adds the given styled string to this paragraph. It is merged into
    /// the last fragment, behind one space, where that is a styled string
    /// in a matching style, and becomes a fragment of its own otherwise.
    pub fn push(&mut self, string: PdfStyledString<'a>)
        ensures
            final(self)@ == (ParagraphModel {
                fragments: push_styled(old(self)@.fragments, string@),
                ..old(self)@
            }),
            coalesced(final(self)@.fragments),
    {
        proof {
            use_type_invariant(&*self);
            lemma_push_fragment_keeps_coalesced(
                models_of(self.fragments@),
                Fragment::StyledString(string@),
            );
        }
        let mut fragments = self.take_fragments();
        append_styled(&mut fragments, string);
        self.fragments = fragments;
    }

    /// Ends the current line of this paragraph; `alignment` is recorded
    /// as the alignment of the line that ends.
    pub fn push_line_break(&mut self, alignment: PdfLineAlignment)
        ensures
            final(self)@ == (ParagraphModel {
                fragments: old(self)@.fragments.push(Fragment::LineBreak(alignment)),
                ..old(self)@
            }),
            coalesced(final(self)@.fragments),
    {
        proof {
            use_type_invariant(&*self);
            lemma_push_fragment_keeps_coalesced(
                models_of(self.fragments@),
                Fragment::LineBreak(alignment),
            );
        }
        let mut fragments = self.take_fragments();
        let ghost before = models_of(fragments@);
        fragments.push(PdfParagraphFragment::LineBreak(alignment));
        assert(models_of(fragments@) =~= before.push(Fragment::LineBreak(alignment)));
        self.fragments = fragments;
    }

    /// Adds a page object that is not text, known by `handle`, to this
    /// paragraph.
    pub fn push_non_text_object(&mut self, handle: u64)
        ensures
            final(self)@ == (ParagraphModel {
                fragments: old(self)@.fragments.push(Fragment::NonTextObject(handle)),
                ..old(self)@
            }),
            coalesced(final(self)@.fragments),
    {
        proof {
            use_type_invariant(&*self);
            lemma_push_fragment_keeps_coalesced(
                models_of(self.fragments@),
                Fragment::NonTextObject(handle),
            );
        }
        let mut fragments = self.take_fragments();
        let ghost before = models_of(fragments@);
        fragments.push(PdfParagraphFragment::NonTextObject(handle));
        assert(models_of(fragments@) =~= before.push(Fragment::NonTextObject(handle)));
        self.fragments = fragments;
    }

    /// The fragments of this paragraph, in order.
    pub fn fragments(&self) -> (fragments: &Vec<PdfParagraphFragment<'a>>)
        ensures
            models_of(fragments@) == self@.fragments,
            coalesced(self@.fragments),
    {
        proof {
            use_type_invariant(self);
        }
        &self.fragments
    }

    /// The alignment of this paragraph.
    pub fn alignment(&self) -> (alignment: PdfParagraphAlignment)
        ensures
            alignment == self@.alignment,
    {
        self.alignment
    }

    /// What this paragraph does with content that overflows its bounds.
    pub fn overflow(&self) -> (overflow: PdfParagraphOverflowBehaviour)
        ensures
            overflow == self@.overflow,
    {
        self.overflow
    }

    /// The top edge of this paragraph, where it has a position.
    pub fn top(&self) -> (top: Option<PdfPoints>)
        ensures
            top == self@.top,
    {
        self.top
    }

    /// The left edge of this paragraph, where it has a position.
    pub fn left(&self) -> (left: Option<PdfPoints>)
        ensures
            left == self@.left,
    {
        self.left
    }

    /// The maximum height of this paragraph, where one is set.
    pub fn maximum_height(&self) -> (height: Option<PdfPoints>)
        ensures
            height == self@.max_height,
    {
        self.max_height
    }

    /// How far the first line of this paragraph is indented.
    pub fn first_line_indent(&self) -> (indent: PdfPoints)
        ensures
            indent == self@.first_line_indent,
    {
        self.first_line_indent
    }

    /// Sets the indent of the first line of this paragraph to `indent`.
    pub fn set_first_line_indent(&mut self, indent: PdfPoints)
        ensures
            final(self)@ == (ParagraphModel { first_line_indent: indent, ..old(self)@ }),
    {
        proof {
            use_type_invariant(&*self);
        }
        self.first_line_indent = indent;
    }

    /// The maximum line width of this paragraph; zero where none is set.
    pub fn maximum_width(&self) -> (width: PdfPoints)
        ensures
            width == match self@.max_width {
                Some(width) => width,
                None => PdfPoints { value: 0 },
            },
    {
        match self.max_width {
            Some(width) => width,
            None => PdfPoints::zero(),
        }
    }

    /// Sets the maximum line width of this paragraph to `width`.
    pub fn set_maximum_width(&mut self, width: PdfPoints)
        ensures
            final(self)@ == (ParagraphModel { max_width: Some(width), ..old(self)@ }),
    {
        proof {
            use_type_invariant(&*self);
        }
        self.max_width = Some(width);
    }

    /// Sets the maximum height of this paragraph to `height`.
    pub fn set_maximum_height(&mut self, height: PdfPoints)
        ensures
            final(self)@ == (ParagraphModel { max_height: Some(height), ..old(self)@ }),
    {
        proof {
            use_type_invariant(&*self);
        }
        self.max_height = Some(height);
    }

    /// The text of all fragments of this paragraph, with a line feed for
    /// each line break.
    pub fn text(&self) -> (text: String)
        ensures
            text@ == plain_text(self@.fragments),
    {
        let mut text = String::new();
        let mut i: usize = 0;
        let ghost fragments = models_of(self.fragments@);
        assert(fragments.take(0) =~= Seq::empty());
        while i < self.fragments.len()
            invariant
                i <= self.fragments.len(),
                fragments == models_of(self.fragments@),
                text@ == plain_text(fragments.take(i as int)),
            decreases self.fragments.len() - i,
        {
            proof {
                let next = fragments.take(i + 1);
                assert(next.drop_last() =~= fragments.take(i as int));
                assert(next.last() == self.fragments@[i as int]@);
                reveal_strlit("\n");
                assert("\n"@ =~= seq!['\n']);
            }
            match &self.fragments[i] {
                PdfParagraphFragment::StyledString(string) => {
                    text.append(string.text());
                },
                PdfParagraphFragment::LineBreak(_) => {
                    text.append("\n");
                },
                PdfParagraphFragment::NonTextObject(_) => {
                    assert(text@ + Seq::<char>::empty() =~= text@);
                },
            }
            i = i + 1;
        }
        assert(fragments.take(i as int) =~= fragments);
        text
    }

    /// Describes the fragments of this paragraph one by one, in order:
    /// a styled string by its text, a line break and an object that is
    /// not text by a fixed phrase. This is what a dump of the paragraph
    /// shows for each fragment.
    pub fn d(&self) -> (descriptions: Vec<String>)
        ensures
            descriptions@.len() == self@.fragments.len(),
            forall|i: int|
                0 <= i < descriptions@.len() ==> (#[trigger] descriptions@[i])@ == description_of(
                    self@.fragments[i],
                ),
    {
        let mut descriptions: Vec<String> = Vec::new();
        let mut i: usize = 0;
        while i < self.fragments.len()
            invariant
                i <= self.fragments.len(),
                descriptions@.len() == i,
                forall|k: int|
                    0 <= k < i ==> (#[trigger] descriptions@[k])@ == description_of(
                        self.fragments@[k]@,
                    ),
            decreases self.fragments.len() - i,
        {
            let description = match &self.fragments[i] {
                PdfParagraphFragment::StyledString(string) => string.text().to_owned(),
                PdfParagraphFragment::LineBreak(_) => "line break".to_owned(),
                PdfParagraphFragment::NonTextObject(_) => "not a text object".to_owned(),
            };
            descriptions.push(description);
            i = i + 1;
        }
        descriptions
    }

    /// The text of all styled strings of this paragraph, with `separator`
    /// between each two. Line breaks and objects that are not text add
    /// nothing.
    pub fn text_separated(&self, separator: &str) -> (text: String)
        ensures
            text@ == joined(styled_texts(self@.fragments), separator@),
    {
        let mut text = String::new();
        let mut is_first = true;
        let mut i: usize = 0;
        let ghost fragments = models_of(self.fragments@);
        assert(fragments.take(0) =~= Seq::empty());
        while i < self.fragments.len()
            invariant
                i <= self.fragments.len(),
                fragments == models_of(self.fragments@),
                is_first == (styled_texts(fragments.take(i as int)).len() == 0),
                text@ == joined(styled_texts(fragments.take(i as int)), separator@),
            decreases self.fragments.len() - i,
        {
            proof {
                let next = fragments.take(i + 1);
                assert(next.drop_last() =~= fragments.take(i as int));
                assert(next.last() == self.fragments@[i as int]@);
            }
            match &self.fragments[i] {
                PdfParagraphFragment::StyledString(string) => {
                    let ghost earlier = styled_texts(fragments.take(i as int));
                    assert(earlier.push(string@.text).drop_last() =~= earlier);
                    if !is_first {
                        text.append(separator);
                    } else {
                        assert(Seq::<char>::empty() + string@.text =~= string@.text);
                    }
                    text.append(string.text());
                    is_first = false;
                },
                _ => {},
            }
            i = i + 1;
        }
        assert(fragments.take(i as int) =~= fragments);
        text
    }
}

} // verus!
