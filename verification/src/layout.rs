//! Laying a paragraph out in lines.
//!
//! A fragment is laid out whole. The fragments are first broken into
//! rows: a line break ends a row, and so does a fragment that no longer
//! fits beside the fragments before it. The rows are then placed: they
//! stack downward from the top of the paragraph, and each is set within
//! the line width as the paragraph's alignment asks. The first row
//! begins further in by the first-line indent and has that much less
//! room.
//!
//! What happens to content that does not fit depends on the paragraph's
//! overflow behaviour. A paragraph that keeps its width breaks rows at
//! the maximum width; a fragment wider than that stands alone in a row
//! that is wider than the maximum. A paragraph that clips breaks rows in
//! the same way, drops a fragment that is wider than a whole row, and
//! drops the rows that end below the maximum height. A paragraph that
//! keeps its height breaks rows at line breaks only, and is as wide as
//! its widest row needs.

use crate::fragment::{models_of, Fragment, PdfLineAlignment, PdfParagraphFragment};
use crate::line::{line_models, LineModel, PdfLine};
use crate::paragraph::{
    ParagraphModel, PdfParagraph, PdfParagraphAlignment, PdfParagraphOverflowBehaviour,
};
use crate::points::PdfPoints;
use vstd::prelude::*;

verus! {

/// The measured size of one fragment: the advance of its text in its
/// font, or the extent of an object that is not text.
#[derive(Clone, Copy, Debug, PartialEq, Eq, Structural)]
pub struct PdfFragmentSize {
    pub width: PdfPoints,
    pub height: PdfPoints,
}

impl PdfFragmentSize {
    /// The size with the given width and height.
    pub fn new(width: PdfPoints, height: PdfPoints) -> (size: PdfFragmentSize)
        ensures
            size == (PdfFragmentSize { width, height }),
    {
        PdfFragmentSize { width, height }
    }
}

/// The size of the fragment at `index`; zero where `sizes` gives none.
pub open spec fn size_at(sizes: Seq<PdfFragmentSize>, index: int) -> PdfFragmentSize {
    if 0 <= index < sizes.len() {
        sizes[index]
    } else {
        PdfFragmentSize { width: PdfPoints { value: 0 }, height: PdfPoints { value: 0 } }
    }
}

/// The fragments that stand side by side in one line, with the sum of
/// their widths and the greatest of their heights.
pub struct Row {
    pub fragments: Seq<Fragment>,
    pub width: PdfPoints,
    pub height: PdfPoints,
}

/// The state of breaking: the rows that are full, and the row being
/// filled.
pub struct Breaking {
    pub rows: Seq<Row>,
    pub current: Row,
}

/// The row that holds nothing.
pub open spec fn empty_row() -> Row {
    Row { fragments: Seq::empty(), width: PdfPoints { value: 0 }, height: PdfPoints { value: 0 } }
}

/// `row` with `fragment` of the given size added at its end.
pub open spec fn with_fragment(row: Row, fragment: Fragment, size: PdfFragmentSize) -> Row {
    Row {
        fragments: row.fragments.push(fragment),
        width: row.width.spec_plus(size.width),
        height: row.height.spec_max(size.height),
    }
}

/// The maximum line width of the paragraph; zero where none is set.
pub open spec fn width_limit(paragraph: ParagraphModel) -> PdfPoints {
    match paragraph.max_width {
        Some(width) => width,
        None => PdfPoints { value: 0 },
    }
}

/// How far row `row` is indented: the first row by the first-line
/// indent, every other row not at all.
pub open spec fn indent_of(paragraph: ParagraphModel, row: int) -> PdfPoints {
    if row == 0 {
        paragraph.first_line_indent
    } else {
        PdfPoints { value: 0 }
    }
}

/// The width that row `row` has room for.
pub open spec fn room(paragraph: ParagraphModel, row: int) -> PdfPoints {
    width_limit(paragraph).spec_minus(indent_of(paragraph, row))
}

/// Whether rows are broken where they are full.
pub open spec fn wraps(paragraph: ParagraphModel) -> bool {
    paragraph.overflow != PdfParagraphOverflowBehaviour::FixHeightExpandWidth
}

/// Whether content that does not fit is dropped.
pub open spec fn clips(paragraph: ParagraphModel) -> bool {
    paragraph.overflow == PdfParagraphOverflowBehaviour::Clip
}

/// The state after `fragment` of size `size` is handled.
///
/// A line break ends the row being filled. Any other fragment goes into
/// the row being filled if that row is empty or has room for it; where
/// the row has no room, it is ended and the fragment begins the next
/// row. A paragraph that clips drops a fragment that is wider than the
/// whole of the row it would begin.
pub open spec fn place_fragment(
    paragraph: ParagraphModel,
    state: Breaking,
    fragment: Fragment,
    size: PdfFragmentSize,
) -> Breaking {
    let here = state.rows.len() as int;
    if fragment is LineBreak {
        Breaking { rows: state.rows.push(state.current), current: empty_row() }
    } else if state.current.fragments.len() == 0 {
        if clips(paragraph) && size.width.value > room(paragraph, here).value {
            state
        } else {
            Breaking { rows: state.rows, current: with_fragment(state.current, fragment, size) }
        }
    } else if wraps(paragraph) && state.current.width.value + size.width.value > room(
        paragraph,
        here,
    ).value {
        if clips(paragraph) && size.width.value > room(paragraph, here + 1).value {
            state
        } else {
            Breaking {
                rows: state.rows.push(state.current),
                current: with_fragment(empty_row(), fragment, size),
            }
        }
    } else {
        Breaking { rows: state.rows, current: with_fragment(state.current, fragment, size) }
    }
}

/// The state after the first `count` fragments of the paragraph are
/// handled.
pub open spec fn broken(paragraph: ParagraphModel, sizes: Seq<PdfFragmentSize>, count: int) -> Breaking
    decreases count,
{
    if count <= 0 {
        Breaking { rows: Seq::empty(), current: empty_row() }
    } else {
        place_fragment(
            paragraph,
            broken(paragraph, sizes, count - 1),
            paragraph.fragments[count - 1],
            size_at(sizes, count - 1),
        )
    }
}

/// The rows that the fragments of the paragraph are broken into. A last
/// row that holds nothing is left out.
pub open spec fn rows_of(paragraph: ParagraphModel, sizes: Seq<PdfFragmentSize>) -> Seq<Row> {
    let end = broken(paragraph, sizes, paragraph.fragments.len() as int);
    if end.current.fragments.len() > 0 {
        end.rows.push(end.current)
    } else {
        end.rows
    }
}

/// The least width, no less than the maximum line width, that holds
/// every one of the rows behind its indent.
pub open spec fn expanded_width(paragraph: ParagraphModel, rows: Seq<Row>) -> PdfPoints
    decreases rows.len(),
{
    if rows.len() == 0 {
        width_limit(paragraph)
    } else {
        expanded_width(paragraph, rows.drop_last()).spec_max(
            rows.last().width.spec_plus(indent_of(paragraph, rows.len() - 1)),
        )
    }
}

/// The line width that the rows are set within: the maximum line width,
/// or for a paragraph that keeps its height the width its widest row
/// needs, if that is more.
pub open spec fn line_width(paragraph: ParagraphModel, rows: Seq<Row>) -> PdfPoints {
    if wraps(paragraph) {
        width_limit(paragraph)
    } else {
        expanded_width(paragraph, rows)
    }
}

/// The top edge of the paragraph; zero where it has no position.
pub open spec fn top_of(paragraph: ParagraphModel) -> PdfPoints {
    match paragraph.top {
        Some(top) => top,
        None => PdfPoints { value: 0 },
    }
}

/// The left edge of the paragraph; zero where it has no position.
pub open spec fn left_of(paragraph: ParagraphModel) -> PdfPoints {
    match paragraph.left {
        Some(left) => left,
        None => PdfPoints { value: 0 },
    }
}

/// The top edge of row `row`: the top of the paragraph for the first
/// row, the bottom of the row above for every other.
pub open spec fn row_top(paragraph: ParagraphModel, rows: Seq<Row>, row: int) -> PdfPoints
    decreases row,
{
    if row <= 0 {
        top_of(paragraph)
    } else {
        row_top(paragraph, rows, row - 1).spec_minus(rows[row - 1].height)
    }
}

/// Whether row `row` of `count` rows is justified: every row is where
/// the paragraph forces it, every row but the last where the paragraph
/// is justified.
pub open spec fn is_justified(paragraph: ParagraphModel, row: int, count: int) -> bool {
    paragraph.alignment == PdfParagraphAlignment::ForceJustify || (paragraph.alignment
        == PdfParagraphAlignment::Justify && row + 1 < count)
}

/// Half of `length`, rounded toward zero.
pub open spec fn half(length: PdfPoints) -> PdfPoints {
    if length.value >= 0 {
        PdfPoints { value: (length.value / 2) as i64 }
    } else {
        PdfPoints { value: (-((-length.value) / 2)) as i64 }
    }
}

/// The line that row `row` is placed as, within the line width `width`.
///
/// The row has the space from the left edge of the paragraph, moved in
/// by the row's indent, to the line width. A justified row fills that
/// space. Any other row keeps its own width and stands at the left of
/// the space, at its right, or in its middle.
pub open spec fn placed_line(
    paragraph: ParagraphModel,
    rows: Seq<Row>,
    width: PdfPoints,
    row: int,
) -> LineModel {
    let content = rows[row];
    let indent = indent_of(paragraph, row);
    let space_left = left_of(paragraph).spec_plus(indent);
    let space = width.spec_minus(indent);
    let spare = space.spec_minus(content.width);
    let justified = is_justified(paragraph, row, rows.len() as int);
    LineModel {
        alignment: if justified {
            PdfLineAlignment::Justify
        } else {
            match paragraph.alignment {
                PdfParagraphAlignment::RightAlign => PdfLineAlignment::RightAlign,
                PdfParagraphAlignment::Center => PdfLineAlignment::Center,
                _ => PdfLineAlignment::LeftAlign,
            }
        },
        bottom: row_top(paragraph, rows, row).spec_minus(content.height),
        left: if justified {
            space_left
        } else {
            match paragraph.alignment {
                PdfParagraphAlignment::RightAlign => space_left.spec_plus(spare),
                PdfParagraphAlignment::Center => space_left.spec_plus(half(spare)),
                _ => space_left,
            }
        },
        width: if justified {
            space
        } else {
            content.width
        },
        height: content.height,
        fragments: content.fragments,
    }
}

/// The lines that the rows are placed as, one for each row.
pub open spec fn placed(paragraph: ParagraphModel, rows: Seq<Row>) -> Seq<LineModel> {
    Seq::new(rows.len(), |row: int| placed_line(paragraph, rows, line_width(paragraph, rows), row))
}

/// Whether `line` ends no further below the top of the paragraph than
/// the maximum height allows. Without a maximum height every line does.
pub open spec fn is_within_height(paragraph: ParagraphModel, line: LineModel) -> bool {
    match paragraph.max_height {
        Some(height) => top_of(paragraph).value - line.bottom.value <= height.value,
        None => true,
    }
}

/// How many of the first `count` lines are seen before the first one
/// that ends below the maximum height.
pub open spec fn visible_count(paragraph: ParagraphModel, lines: Seq<LineModel>, count: int) -> int
    decreases count,
{
    if count <= 0 {
        0
    } else {
        let before = visible_count(paragraph, lines, count - 1);
        if before == count - 1 && is_within_height(paragraph, lines[count - 1]) {
            count
        } else {
            before
        }
    }
}

/// The lines that the paragraph is laid out in, given the sizes of its
/// fragments: its rows, placed; for a paragraph that clips, only the
/// rows before the first one that ends below the maximum height.
pub open spec fn laid_out(paragraph: ParagraphModel, sizes: Seq<PdfFragmentSize>) -> Seq<LineModel> {
    let lines = placed(paragraph, rows_of(paragraph, sizes));
    if clips(paragraph) {
        lines.take(visible_count(paragraph, lines, lines.len() as int))
    } else {
        lines
    }
}

/// The fragments of `fragments` that are no line breaks, in order.
pub open spec fn content_of(fragments: Seq<Fragment>) -> Seq<Fragment>
    decreases fragments.len(),
{
    if fragments.len() == 0 {
        Seq::empty()
    } else if fragments.last() is LineBreak {
        content_of(fragments.drop_last())
    } else {
        content_of(fragments.drop_last()).push(fragments.last())
    }
}

/// The fragments of all rows, one row after the other.
pub open spec fn row_contents(rows: Seq<Row>) -> Seq<Fragment>
    decreases rows.len(),
{
    if rows.len() == 0 {
        Seq::empty()
    } else {
        row_contents(rows.drop_last()) + rows.last().fragments
    }
}

/// The fragments of all lines, one line after the other.
pub open spec fn line_contents(lines: Seq<LineModel>) -> Seq<Fragment>
    decreases lines.len(),
{
    if lines.len() == 0 {
        Seq::empty()
    } else {
        line_contents(lines.drop_last()) + lines.last().fragments
    }
}

/// Whether `row`, standing as row `index`, keeps to the room it has: it
/// is empty, or no wider than its room, or, in a paragraph that does not
/// clip, a single fragment that is wider than a row.
pub open spec fn keeps_to_room(paragraph: ParagraphModel, row: Row, index: int) -> bool {
    ||| row.fragments.len() == 0
    ||| row.width.value <= room(paragraph, index).value
    ||| (!clips(paragraph) && row.fragments.len() == 1)
}

/// While a paragraph that does not clip is broken into rows, nothing but
/// the line breaks is lost and nothing changes its place.
proof fn lemma_breaking_keeps_content(
    paragraph: ParagraphModel,
    sizes: Seq<PdfFragmentSize>,
    count: int,
)
    requires
        !clips(paragraph),
        0 <= count <= paragraph.fragments.len(),
    ensures
        row_contents(broken(paragraph, sizes, count).rows) + broken(
            paragraph,
            sizes,
            count,
        ).current.fragments == content_of(paragraph.fragments.take(count)),
    decreases count,
{
    let taken = paragraph.fragments.take(count);
    if count == 0 {
        assert(row_contents(Seq::<Row>::empty()) + empty_row().fragments =~= Seq::<
            Fragment,
        >::empty());
    } else {
        lemma_breaking_keeps_content(paragraph, sizes, count - 1);
        let before = broken(paragraph, sizes, count - 1);
        let after = broken(paragraph, sizes, count);
        let fragment = paragraph.fragments[count - 1];
        assert(taken.drop_last() =~= paragraph.fragments.take(count - 1));
        assert(taken.last() == fragment);
        let held = row_contents(before.rows) + before.current.fragments;
        if after.rows.len() > before.rows.len() {
            assert(after.rows == before.rows.push(before.current));
            assert(after.rows.drop_last() =~= before.rows);
            assert(row_contents(after.rows) == held);
        }
        if fragment is LineBreak {
            assert(row_contents(after.rows) + after.current.fragments =~= held);
        } else {
            assert(row_contents(after.rows) + after.current.fragments =~= held.push(fragment));
        }
    }
}

/// While a paragraph that breaks its rows where they are full is broken
/// into rows, every row keeps to its room.
proof fn lemma_breaking_keeps_to_room(
    paragraph: ParagraphModel,
    sizes: Seq<PdfFragmentSize>,
    count: int,
)
    requires
        wraps(paragraph),
        0 <= count <= paragraph.fragments.len(),
    ensures
        forall|row: int|
            0 <= row < broken(paragraph, sizes, count).rows.len() ==> keeps_to_room(
                paragraph,
                #[trigger] broken(paragraph, sizes, count).rows[row],
                row,
            ),
        keeps_to_room(
            paragraph,
            broken(paragraph, sizes, count).current,
            broken(paragraph, sizes, count).rows.len() as int,
        ),
    decreases count,
{
    if count > 0 {
        lemma_breaking_keeps_to_room(paragraph, sizes, count - 1);
        let before = broken(paragraph, sizes, count - 1);
        let after = broken(paragraph, sizes, count);
        assert forall|row: int| 0 <= row < after.rows.len() implies keeps_to_room(
            paragraph,
            #[trigger] after.rows[row],
            row,
        ) by {
            if row < before.rows.len() {
                assert(after.rows[row] == before.rows[row]);
            } else {
                assert(after.rows[row] == before.current);
            }
        }
        let fragment = paragraph.fragments[count - 1];
        let size = size_at(sizes, count - 1);
        let here = before.rows.len() as int;
        if fragment is LineBreak {
            assert(after.current == empty_row());
        } else if after == before {
        } else if after.rows.len() > before.rows.len() {
            assert(after.current == with_fragment(empty_row(), fragment, size));
            assert(after.current.fragments.len() == 1);
            assert(after.current.width.value == size.width.value);
        } else {
            assert(after.current == with_fragment(before.current, fragment, size));
            if before.current.fragments.len() == 0 {
                assert(after.current.fragments.len() == 1);
                if clips(paragraph) {
                    assert(size.width.value <= room(paragraph, here).value);
                    assert(before.current.width.value == 0) by {
                        lemma_empty_row_has_no_width(paragraph, sizes, count - 1);
                    }
                }
            } else {
                assert(before.current.width.value + size.width.value <= room(
                    paragraph,
                    here,
                ).value);
            }
        }
    }
}

/// While a paragraph is broken into rows, the row being filled has no
/// width so long as it holds nothing.
proof fn lemma_empty_row_has_no_width(
    paragraph: ParagraphModel,
    sizes: Seq<PdfFragmentSize>,
    count: int,
)
    requires
        0 <= count <= paragraph.fragments.len(),
    ensures
        broken(paragraph, sizes, count).current.fragments.len() == 0 ==> broken(
            paragraph,
            sizes,
            count,
        ).current == empty_row(),
    decreases count,
{
    if count > 0 {
        lemma_empty_row_has_no_width(paragraph, sizes, count - 1);
    }
}

/// The lines that rows are placed as hold what the rows hold.
proof fn lemma_placing_keeps_content(paragraph: ParagraphModel, rows: Seq<Row>, count: int)
    requires
        0 <= count <= rows.len(),
    ensures
        line_contents(placed(paragraph, rows).take(count)) == row_contents(rows.take(count)),
    decreases count,
{
    let lines = placed(paragraph, rows).take(count);
    if count > 0 {
        lemma_placing_keeps_content(paragraph, rows, count - 1);
        assert(lines.drop_last() =~= placed(paragraph, rows).take(count - 1));
        assert(rows.take(count).drop_last() =~= rows.take(count - 1));
        assert(lines.last().fragments == rows.take(count).last().fragments);
    }
}

/// A paragraph that does not clip is laid out whole: its lines hold, one
/// after the other, every fragment of the paragraph that is no line
/// break, each once and in the paragraph's order.
pub proof fn lemma_layout_keeps_content(paragraph: ParagraphModel, sizes: Seq<PdfFragmentSize>)
    requires
        !clips(paragraph),
    ensures
        line_contents(laid_out(paragraph, sizes)) == content_of(paragraph.fragments),
{
    let count = paragraph.fragments.len() as int;
    let end = broken(paragraph, sizes, count);
    let rows = rows_of(paragraph, sizes);
    lemma_breaking_keeps_content(paragraph, sizes, count);
    assert(paragraph.fragments.take(count) =~= paragraph.fragments);
    if end.current.fragments.len() > 0 {
        assert(rows.drop_last() =~= end.rows);
    } else {
        assert(row_contents(end.rows) + end.current.fragments =~= row_contents(end.rows));
    }
    lemma_placing_keeps_content(paragraph, rows, rows.len() as int);
    assert(placed(paragraph, rows).take(rows.len() as int) =~= placed(paragraph, rows));
    assert(rows.take(rows.len() as int) =~= rows);
}

/// In a paragraph that breaks its rows where they are full, no line holds
/// more than its row has room for, but for a line that holds a single
/// fragment wider than a row; and a paragraph that clips has no such
/// line.
pub proof fn lemma_layout_keeps_to_room(
    paragraph: ParagraphModel,
    sizes: Seq<PdfFragmentSize>,
    row: int,
)
    requires
        wraps(paragraph),
        0 <= row < rows_of(paragraph, sizes).len(),
    ensures
        keeps_to_room(paragraph, rows_of(paragraph, sizes)[row], row),
        placed(paragraph, rows_of(paragraph, sizes))[row].fragments == rows_of(
            paragraph,
            sizes,
        )[row].fragments,
{
    let count = paragraph.fragments.len() as int;
    let end = broken(paragraph, sizes, count);
    lemma_breaking_keeps_to_room(paragraph, sizes, count);
    if row < end.rows.len() {
        assert(rows_of(paragraph, sizes)[row] == end.rows[row]);
    }
}

/// The lines of a paragraph stand one below the other: the first ends
/// its own height below the top of the paragraph, every other line its
/// own height below the line above.
pub proof fn lemma_lines_stack_downward(paragraph: ParagraphModel, rows: Seq<Row>, row: int)
    requires
        0 <= row < rows.len(),
    ensures
        row == 0 ==> placed(paragraph, rows)[row].bottom == top_of(paragraph).spec_minus(
            placed(paragraph, rows)[row].height,
        ),
        row > 0 ==> placed(paragraph, rows)[row].bottom == placed(paragraph, rows)[row
            - 1].bottom.spec_minus(placed(paragraph, rows)[row].height),
{
    if row > 0 {
        assert(row_top(paragraph, rows, row) == row_top(paragraph, rows, row - 1).spec_minus(
            rows[row - 1].height,
        ));
    }
}

/// A row as it is held while a paragraph is laid out.
struct PdfRow<'a> {
    fragments: Vec<PdfParagraphFragment<'a>>,
    width: PdfPoints,
    height: PdfPoints,
}

impl<'a> View for PdfRow<'a> {
    type V = Row;

    closed spec fn view(&self) -> Row {
        Row { fragments: models_of(self.fragments@), width: self.width, height: self.height }
    }
}

spec fn row_models(rows: Seq<PdfRow<'_>>) -> Seq<Row> {
    Seq::new(rows.len(), |i: int| rows[i]@)
}

/// Whether a fragment of width `added` does not fit into a row that has
/// room for `room` and holds `held` already.
fn exceeds(held: PdfPoints, added: PdfPoints, room: PdfPoints) -> (over: bool)
    ensures
        over == (held.value + added.value > room.value),
{
    let sum: i128 = held.value as i128 + added.value as i128;
    sum > room.value as i128
}

/// Half of `length`, rounded toward zero.
fn halve(length: PdfPoints) -> (halved: PdfPoints)
    ensures
        halved == half(length),
{
    let wide: i128 = length.value as i128;
    if wide >= 0 {
        PdfPoints { value: (wide / 2) as i64 }
    } else {
        let positive: i128 = -wide;
        PdfPoints { value: (-(positive / 2)) as i64 }
    }
}

/// Whether a line with the given bottom edge ends no further below `top`
/// than `max_height` allows.
fn ends_within(top: PdfPoints, bottom: PdfPoints, max_height: Option<PdfPoints>) -> (within: bool)
    ensures
        within == match max_height {
            Some(height) => top.value - bottom.value <= height.value,
            None => true,
        },
{
    match max_height {
        Some(height) => top.value as i128 - bottom.value as i128 <= height.value as i128,
        None => true,
    }
}

impl<'a> PdfParagraph<'a> {
    /// Breaks the fragments of this paragraph into rows.
    fn to_rows(&self, sizes: &Vec<PdfFragmentSize>) -> (rows: Vec<PdfRow<'a>>)
        ensures
            row_models(rows@) == rows_of(self@, sizes@),
    {
        let fragments = self.fragments();
        let limit = self.maximum_width();
        let indent = self.first_line_indent();
        let overflow = self.overflow();
        let mut rows: Vec<PdfRow<'a>> = Vec::new();
        let mut current: Vec<PdfParagraphFragment<'a>> = Vec::new();
        let mut current_width = PdfPoints::zero();
        let mut current_height = PdfPoints::zero();
        let mut i: usize = 0;
        assert(row_models(rows@) =~= Seq::empty());
        assert(models_of(current@) =~= Seq::empty());
        while i < fragments.len()
            invariant
                i <= fragments.len(),
                models_of(fragments@) == self@.fragments,
                limit == width_limit(self@),
                indent == self@.first_line_indent,
                overflow == self@.overflow,
                (Breaking {
                    rows: row_models(rows@),
                    current: Row {
                        fragments: models_of(current@),
                        width: current_width,
                        height: current_height,
                    },
                }) == broken(self@, sizes@, i as int),
            decreases fragments.len() - i,
        {
            let ghost before = broken(self@, sizes@, i as int);
            let ghost full = row_models(rows@);
            let ghost filling = models_of(current@);
            let size = if i < sizes.len() {
                sizes[i]
            } else {
                PdfFragmentSize::new(PdfPoints::zero(), PdfPoints::zero())
            };
            assert(size == size_at(sizes@, i as int));
            assert(self@.fragments[i as int] == fragments@[i as int]@);
            let room_here = if rows.len() == 0 {
                limit.minus(indent)
            } else {
                limit.minus(PdfPoints::zero())
            };
            assert(room_here == room(self@, full.len() as int));
            let room_next = limit.minus(PdfPoints::zero());
            assert(room_next == room(self@, full.len() as int + 1));
            let is_clipping = match overflow {
                PdfParagraphOverflowBehaviour::Clip => true,
                _ => false,
            };
            let is_wrapping = match overflow {
                PdfParagraphOverflowBehaviour::FixHeightExpandWidth => false,
                _ => true,
            };
            let is_line_break = match &fragments[i] {
                PdfParagraphFragment::LineBreak(_) => true,
                _ => false,
            };
            // What is done with the fragment: the row being filled is
            // ended or not, and the fragment is put into a row or not.
            let mut ends_row = false;
            let mut is_put = true;
            if is_line_break {
                ends_row = true;
                is_put = false;
            } else if current.len() == 0 {
                if is_clipping && size.width.value > room_here.value {
                    is_put = false;
                }
            } else if is_wrapping && exceeds(current_width, size.width, room_here) {
                if is_clipping && size.width.value > room_next.value {
                    is_put = false;
                } else {
                    ends_row = true;
                }
            }
            if ends_row {
                let mut ended: Vec<PdfParagraphFragment<'a>> = Vec::new();
                std::mem::swap(&mut ended, &mut current);
                rows.push(PdfRow { fragments: ended, width: current_width, height: current_height });
                current_width = PdfPoints::zero();
                current_height = PdfPoints::zero();
                assert(row_models(rows@) =~= full.push(before.current));
                assert(models_of(current@) =~= Seq::empty());
            }
            if is_put {
                let ghost opened = models_of(current@);
                current.push(fragments[i].clone());
                current_width = current_width.plus(size.width);
                current_height = current_height.max(size.height);
                assert(models_of(current@) =~= opened.push(self@.fragments[i as int]));
            }
            i = i + 1;
        }
        if current.len() > 0 {
            let ghost full = row_models(rows@);
            let ghost last = Row {
                fragments: models_of(current@),
                width: current_width,
                height: current_height,
            };
            rows.push(PdfRow { fragments: current, width: current_width, height: current_height });
            assert(row_models(rows@) =~= full.push(last));
        }
        rows
    }

    /// The width that the widest of `rows` needs, if that is more than
    /// the maximum line width.
    fn widest(&self, rows: &Vec<PdfRow<'a>>) -> (width: PdfPoints)
        ensures
            width == expanded_width(self@, row_models(rows@)),
    {
        let ghost all = row_models(rows@);
        let mut width = self.maximum_width();
        let indent = self.first_line_indent();
        let mut k: usize = 0;
        assert(all.take(0) =~= Seq::empty());
        while k < rows.len()
            invariant
                k <= rows.len(),
                all == row_models(rows@),
                indent == self@.first_line_indent,
                width == expanded_width(self@, all.take(k as int)),
            decreases rows.len() - k,
        {
            proof {
                let next = all.take(k + 1);
                assert(next.drop_last() =~= all.take(k as int));
                assert(next.last() == rows@[k as int]@);
            }
            let row_indent = if k == 0 {
                indent
            } else {
                PdfPoints::zero()
            };
            width = width.max(rows[k].width.plus(row_indent));
            k = k + 1;
        }
        assert(all.take(k as int) =~= all);
        width
    }

    /// Assembles the fragments of this paragraph into lines, by the
    /// paragraph's size, overflow, indent and alignment settings.
    /// `sizes` gives the measured size of each fragment, in order; a
    /// fragment without a size is taken to have none.
    pub fn to_lines(&self, sizes: &Vec<PdfFragmentSize>) -> (lines: Vec<PdfLine<'a>>)
        ensures
            line_models(lines@) == laid_out(self@, sizes@),
    {
        let rows = self.to_rows(sizes);
        let ghost all = row_models(rows@);
        let overflow = self.overflow();
        let alignment = self.alignment();
        let indent = self.first_line_indent();
        let top = match self.top() {
            Some(top) => top,
            None => PdfPoints::zero(),
        };
        let left = match self.left() {
            Some(left) => left,
            None => PdfPoints::zero(),
        };
        let max_height = self.maximum_height();
        let is_clipping = match overflow {
            PdfParagraphOverflowBehaviour::Clip => true,
            _ => false,
        };
        let width = match overflow {
            PdfParagraphOverflowBehaviour::FixHeightExpandWidth => self.widest(&rows),
            _ => self.maximum_width(),
        };
        assert(width == line_width(self@, all));
        let count = rows.len();
        let mut lines: Vec<PdfLine<'a>> = Vec::new();
        let mut line_top = top;
        let mut k: usize = 0;
        let mut visible: usize = 0;
        assert(line_models(lines@) =~= placed(self@, all).take(0));
        for row in rows_left: rows
            invariant
                rows_left.seq() == rows@,
                all == row_models(rows@),
                count == rows@.len(),
                k == rows_left.index(),
                k <= count,
                visible <= k,
                top == top_of(self@),
                left == left_of(self@),
                indent == self@.first_line_indent,
                alignment == self@.alignment,
                max_height == self@.max_height,
                width == line_width(self@, all),
                line_top == row_top(self@, all, k as int),
                line_models(lines@) == placed(self@, all).take(k as int),
                visible == visible_count(self@, placed(self@, all), k as int),
        {
            let ghost done = line_models(lines@);
            let ghost content = row@;
            assert(content == all[k as int]);
            let row_indent = if k == 0 {
                indent
            } else {
                PdfPoints::zero()
            };
            let space_left = left.plus(row_indent);
            let space = width.minus(row_indent);
            let spare = space.minus(row.width);
            let justified = match alignment {
                PdfParagraphAlignment::ForceJustify => true,
                PdfParagraphAlignment::Justify => k + 1 < count,
                _ => false,
            };
            let bottom = line_top.minus(row.height);
            let line_alignment = if justified {
                PdfLineAlignment::Justify
            } else {
                match alignment {
                    PdfParagraphAlignment::RightAlign => PdfLineAlignment::RightAlign,
                    PdfParagraphAlignment::Center => PdfLineAlignment::Center,
                    _ => PdfLineAlignment::LeftAlign,
                }
            };
            let line_left = if justified {
                space_left
            } else {
                match alignment {
                    PdfParagraphAlignment::RightAlign => space_left.plus(spare),
                    PdfParagraphAlignment::Center => space_left.plus(halve(spare)),
                    _ => space_left,
                }
            };
            let line_width_here = if justified {
                space
            } else {
                row.width
            };
            if visible == k && ends_within(top, bottom, max_height) {
                visible = k + 1;
            }
            lines.push(
                PdfLine::new(
                    line_alignment,
                    bottom,
                    line_left,
                    line_width_here,
                    row.height,
                    row.fragments,
                ),
            );
            line_top = bottom;
            k = k + 1;
            assert(line_models(lines@) =~= done.push(placed_line(self@, all, width, k - 1)));
            assert(placed(self@, all).take(k as int) =~= placed(self@, all).take(k - 1).push(
                placed(self@, all)[k - 1],
            ));
        }
        assert(placed(self@, all).take(count as int) =~= placed(self@, all));
        if is_clipping {
            let ghost whole = line_models(lines@);
            lines.truncate(visible);
            assert(line_models(lines@) =~= whole.take(visible as int));
        }
        lines
    }
}

} // verus!
