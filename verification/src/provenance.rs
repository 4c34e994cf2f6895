//! Where the fragments of the paragraphs come from.
//!
//! The objects of a reading sequence fall into stretches, one for each
//! paragraph; the objects of a stretch fall into runs, one for each
//! fragment of the paragraph. This module names the stretches and the
//! runs and proves that the paragraphs are made of them, and of nothing
//! else.

use crate::coalesce::{
    coalesce, is_run, lemma_coalesce_is_coalesced, lemma_coalesce_len, lemma_coalesce_runs,
    is_stretch, lemma_coalesce_stays_unbroken, lemma_push_behind_front, run_starts, stretch_end,
    unbroken,
};
use crate::fragment::{coalesced, push_fragment, Fragment, PdfLineAlignment};
use crate::line::{
    assembled_lines, assembly_after, assembly_start, assembly_step, breaks_paragraph,
    candidate_alignment, fragment_of, LineAssembly, LineModel, OpenLine,
};
use crate::paragraph::{
    closed, framed, gather, gathered, gathered_in_line, paragraph_alignment_of, paragraphs_of,
    paragraphs_read, widened, Gathering, ParagraphModel,
};
use crate::points::PdfPoints;
use crate::page_object::PdfPageObject;
use crate::paragraph::is_reading_sequence;
use crate::position::{extent_of, placed_all};
use crate::reading_order::{in_reading_order, precedes, PositionedObject};
use vstd::multiset::Multiset;
use vstd::prelude::*;

verus! {

/// The fragments that the objects of `order` contribute, one each.
pub open spec fn contributions(order: Seq<PositionedObject<'_>>) -> Seq<Fragment> {
    Seq::new(order.len(), |i: int| fragment_of(order[i].object@))
}

/// The places in `order` of the objects that begin a paragraph.
pub open spec fn paragraph_starts(
    order: Seq<PositionedObject<'_>>,
    paragraph_left: PdfPoints,
    paragraph_right: PdfPoints,
) -> Seq<int>
    decreases order.len(),
{
    if order.len() == 0 {
        Seq::empty()
    } else {
        let earlier = paragraph_starts(order.drop_last(), paragraph_left, paragraph_right);
        if breaks_paragraph(
            assembly_after(order.drop_last(), paragraph_left, paragraph_right),
            order.last(),
            paragraph_left,
            paragraph_right,
        ) {
            earlier.push(order.len() - 1)
        } else {
            earlier
        }
    }
}

/// The objects of the stretch of `order` that begins at `starts[index]`.
pub open spec fn stretch<'a>(order: Seq<PositionedObject<'a>>, starts: Seq<int>, index: int) -> Seq<
    PositionedObject<'a>,
> {
    order.subrange(starts[index], stretch_end(starts, index, order.len() as int))
}

/// The line that the stretch at `starts[index]` is assembled into, as it
/// stands while the stretch is the last one: a line break that records
/// `previous_alignment`, then the merged contributions of the stretch.
/// The line takes its alignment, its bottom, top and left edge from the
/// first object of the stretch, and its right edge from the last.
pub open spec fn line_of_stretch(
    order: Seq<PositionedObject<'_>>,
    paragraph_left: PdfPoints,
    paragraph_right: PdfPoints,
    starts: Seq<int>,
    index: int,
    previous_alignment: PdfLineAlignment,
) -> OpenLine {
    let first = order[starts[index]];
    let end = stretch_end(starts, index, order.len() as int);
    OpenLine {
        alignment: candidate_alignment(
            assembly_after(order.take(starts[index]), paragraph_left, paragraph_right),
            first,
            paragraph_left,
            paragraph_right,
        ),
        bottom: first.bottom,
        top: first.top,
        left: first.left,
        right: order[end - 1].right,
        fragments: seq![Fragment::LineBreak(previous_alignment)] + coalesce(
            contributions(stretch(order, starts, index)),
        ),
    }
}

/// Whether the state `state` is made of the stretches of `order` that
/// begin at `starts`: the empty opening line, a closed line for each
/// stretch but the last, and the last stretch in the open line.
pub open spec fn follows_stretches(
    order: Seq<PositionedObject<'_>>,
    paragraph_left: PdfPoints,
    paragraph_right: PdfPoints,
    starts: Seq<int>,
    state: LineAssembly,
) -> bool {
    let count = starts.len() as int;
    &&& state.lines.len() == count
    &&& order.len() > 0 ==> count > 0 && starts[0] == 0
    &&& order.len() == 0 ==> count == 0
    &&& forall|k: int|
        0 <= k < count ==> #[trigger] is_stretch(starts, k, order.len() as int)
    &&& count == 0 ==> state.current == assembly_start().current
    &&& count > 0 ==> state.lines[0] == assembly_start().current.close()
    &&& count > 0 ==> state.current == line_of_stretch(
        order,
        paragraph_left,
        paragraph_right,
        starts,
        count - 1,
        state.lines[count - 1].alignment,
    )
    &&& forall|k: int|
        0 <= k < count - 1 ==> #[trigger] state.lines[k + 1] == line_of_stretch(
            order,
            paragraph_left,
            paragraph_right,
            starts,
            k,
            state.lines[k].alignment,
        ).close()
}

/// The contributions of a sequence with one more object are those of the
/// sequence, then that of the object.
proof fn lemma_contributions_push(order: Seq<PositionedObject<'_>>, from: int)
    requires
        0 <= from < order.len(),
    ensures
        contributions(order.subrange(from, order.len() as int)) == contributions(
            order.subrange(from, order.len() - 1),
        ).push(fragment_of(order.last().object@)),
        coalesce(contributions(order.subrange(from, order.len() as int))) == push_fragment(
            coalesce(contributions(order.subrange(from, order.len() - 1))),
            fragment_of(order.last().object@),
        ),
{
    let longer = contributions(order.subrange(from, order.len() as int));
    let shorter = contributions(order.subrange(from, order.len() - 1));
    assert(longer =~= shorter.push(fragment_of(order.last().object@)));
    assert(longer.drop_last() =~= shorter);
}

/// The line of a stretch that is not the last one of the longer sequence
/// is the same in the sequence without its last object.
proof fn lemma_earlier_stretch_unchanged(
    order: Seq<PositionedObject<'_>>,
    paragraph_left: PdfPoints,
    paragraph_right: PdfPoints,
    starts: Seq<int>,
    starts_before: Seq<int>,
    index: int,
    previous_alignment: PdfLineAlignment,
)
    requires
        order.len() > 0,
        0 <= index < starts_before.len(),
        index < starts.len(),
        starts[index] == starts_before[index],
        0 <= starts[index] < stretch_end(starts_before, index, order.len() - 1) <= order.len()
            - 1,
        stretch_end(starts, index, order.len() as int) == stretch_end(
            starts_before,
            index,
            order.len() - 1,
        ),
    ensures
        line_of_stretch(
            order,
            paragraph_left,
            paragraph_right,
            starts,
            index,
            previous_alignment,
        ) == line_of_stretch(
            order.drop_last(),
            paragraph_left,
            paragraph_right,
            starts_before,
            index,
            previous_alignment,
        ),
{
    let before = order.drop_last();
    let end = stretch_end(starts, index, order.len() as int);
    assert(order.take(starts[index]) =~= before.take(starts_before[index]));
    assert(stretch(order, starts, index) =~= stretch(before, starts_before, index));
    assert(order[starts[index]] == before[starts_before[index]]);
    assert(order[end - 1] == before[end - 1]);
}

/// Merging a single fragment leaves it as it is.
proof fn lemma_coalesce_single(fragment: Fragment)
    ensures
        coalesce(seq![fragment]) == seq![fragment],
{
    let single = seq![fragment];
    assert(single.drop_last() =~= Seq::<Fragment>::empty());
    assert(coalesce(single.drop_last()) =~= Seq::<Fragment>::empty());
    assert(coalesce(single) == push_fragment(coalesce(single.drop_last()), single.last()));
    assert(push_fragment(Seq::<Fragment>::empty(), fragment) =~= single);
}

/// The first object always begins a paragraph.
proof fn lemma_first_object_breaks(
    object: PositionedObject<'_>,
    paragraph_left: PdfPoints,
    paragraph_right: PdfPoints,
)
    ensures
        breaks_paragraph(assembly_start(), object, paragraph_left, paragraph_right),
{
}

/// The state after an object that begins a paragraph follows the
/// stretches, if the state before the object did.
proof fn lemma_break_follows_stretches(
    order: Seq<PositionedObject<'_>>,
    paragraph_left: PdfPoints,
    paragraph_right: PdfPoints,
)
    requires
        order.len() > 0,
        follows_stretches(
            order.drop_last(),
            paragraph_left,
            paragraph_right,
            paragraph_starts(order.drop_last(), paragraph_left, paragraph_right),
            assembly_after(order.drop_last(), paragraph_left, paragraph_right),
        ),
        breaks_paragraph(
            assembly_after(order.drop_last(), paragraph_left, paragraph_right),
            order.last(),
            paragraph_left,
            paragraph_right,
        ),
    ensures
        follows_stretches(
            order,
            paragraph_left,
            paragraph_right,
            paragraph_starts(order, paragraph_left, paragraph_right),
            assembly_after(order, paragraph_left, paragraph_right),
        ),
{
    let n = order.len() as int;
    let before = order.drop_last();
    let object = order.last();
    let state_before = assembly_after(before, paragraph_left, paragraph_right);
    let state = assembly_after(order, paragraph_left, paragraph_right);
    let starts_before = paragraph_starts(before, paragraph_left, paragraph_right);
    let starts = paragraph_starts(order, paragraph_left, paragraph_right);
    let count_before = starts_before.len() as int;
    let count = starts.len() as int;
    let added = fragment_of(object.object@);
    assert(state == assembly_step(state_before, object, paragraph_left, paragraph_right));
    assert(order.take(n - 1) =~= before);
    assert(starts == starts_before.push(n - 1));
    assert(state.lines == state_before.lines.push(state_before.current.close()));
    assert forall|k: int| 0 <= k < count implies #[trigger] is_stretch(starts, k, n) by {
        if k < count_before {
            assert(is_stretch(starts_before, k, n - 1));
        }
    }
    // The stretch that the object begins holds the object alone.
    let opened = line_of_stretch(
        order,
        paragraph_left,
        paragraph_right,
        starts,
        count - 1,
        state.lines[count - 1].alignment,
    );
    assert(stretch(order, starts, count - 1) =~= seq![object]);
    assert(contributions(seq![object]) =~= seq![added]);
    lemma_coalesce_single(added);
    assert(state.current.fragments =~= opened.fragments);
    assert(state.current == opened);
    assert forall|k: int| 0 <= k < count - 1 implies #[trigger] state.lines[k + 1]
        == line_of_stretch(
        order,
        paragraph_left,
        paragraph_right,
        starts,
        k,
        state.lines[k].alignment,
    ).close() by {
        assert(is_stretch(starts_before, k, n - 1));
        lemma_earlier_stretch_unchanged(
            order,
            paragraph_left,
            paragraph_right,
            starts,
            starts_before,
            k,
            state.lines[k].alignment,
        );
        if k < count_before - 1 {
            assert(state.lines[k + 1] == state_before.lines[k + 1]);
            assert(state.lines[k] == state_before.lines[k]);
        } else {
            assert(state.lines[k + 1] == state_before.current.close());
            assert(state.lines[k] == state_before.lines[count_before - 1]);
        }
    }
}

/// The state after an object that begins no paragraph follows the
/// stretches, if the state before the object did.
proof fn lemma_continuation_follows_stretches(
    order: Seq<PositionedObject<'_>>,
    paragraph_left: PdfPoints,
    paragraph_right: PdfPoints,
)
    requires
        order.len() > 0,
        follows_stretches(
            order.drop_last(),
            paragraph_left,
            paragraph_right,
            paragraph_starts(order.drop_last(), paragraph_left, paragraph_right),
            assembly_after(order.drop_last(), paragraph_left, paragraph_right),
        ),
        !breaks_paragraph(
            assembly_after(order.drop_last(), paragraph_left, paragraph_right),
            order.last(),
            paragraph_left,
            paragraph_right,
        ),
    ensures
        follows_stretches(
            order,
            paragraph_left,
            paragraph_right,
            paragraph_starts(order, paragraph_left, paragraph_right),
            assembly_after(order, paragraph_left, paragraph_right),
        ),
{
    let n = order.len() as int;
    let before = order.drop_last();
    let object = order.last();
    let state_before = assembly_after(before, paragraph_left, paragraph_right);
    let state = assembly_after(order, paragraph_left, paragraph_right);
    let starts_before = paragraph_starts(before, paragraph_left, paragraph_right);
    let starts = paragraph_starts(order, paragraph_left, paragraph_right);
    let count = starts.len() as int;
    let added = fragment_of(object.object@);
    assert(state == assembly_step(state_before, object, paragraph_left, paragraph_right));
    if before.len() == 0 {
        lemma_first_object_breaks(object, paragraph_left, paragraph_right);
        assert(state_before == assembly_start());
    }
    assert(before.len() > 0);
    assert(starts == starts_before);
    assert(state.lines == state_before.lines);
    let last = count - 1;
    assert(is_stretch(starts_before, last, n - 1));
    assert forall|k: int| 0 <= k < count implies #[trigger] is_stretch(starts, k, n) by {
        assert(is_stretch(starts_before, k, n - 1));
    }
    let opened_before = line_of_stretch(
        before,
        paragraph_left,
        paragraph_right,
        starts_before,
        last,
        state.lines[last].alignment,
    );
    let opened = line_of_stretch(
        order,
        paragraph_left,
        paragraph_right,
        starts,
        last,
        state.lines[last].alignment,
    );
    assert(state_before.current == opened_before);
    assert(order.take(starts[last]) =~= before.take(starts_before[last]));
    assert(order[starts[last]] == before[starts_before[last]]);
    assert(stretch(before, starts_before, last) =~= order.subrange(starts[last], n - 1));
    assert(stretch(order, starts, last) =~= order.subrange(starts[last], n));
    lemma_contributions_push(order, starts[last]);
    let merged_before = coalesce(contributions(order.subrange(starts[last], n - 1)));
    lemma_push_behind_front(
        seq![Fragment::LineBreak(state.lines[last].alignment)],
        merged_before,
        added,
    );
    assert(state.current.fragments == opened.fragments);
    assert(state.current == opened);
    assert forall|k: int| 0 <= k < count - 1 implies #[trigger] state.lines[k + 1]
        == line_of_stretch(
        order,
        paragraph_left,
        paragraph_right,
        starts,
        k,
        state.lines[k].alignment,
    ).close() by {
        assert(is_stretch(starts_before, k, n - 1));
        lemma_earlier_stretch_unchanged(
            order,
            paragraph_left,
            paragraph_right,
            starts,
            starts_before,
            k,
            state.lines[k].alignment,
        );
    }
}

/// Line assembly follows the stretches: whatever the objects, the state
/// after them holds the empty opening line, one closed line for each
/// stretch but the last, and the last stretch in the open line.
pub proof fn lemma_assembly_follows_stretches(
    order: Seq<PositionedObject<'_>>,
    paragraph_left: PdfPoints,
    paragraph_right: PdfPoints,
)
    ensures
        follows_stretches(
            order,
            paragraph_left,
            paragraph_right,
            paragraph_starts(order, paragraph_left, paragraph_right),
            assembly_after(order, paragraph_left, paragraph_right),
        ),
    decreases order.len(),
{
    if order.len() > 0 {
        lemma_assembly_follows_stretches(order.drop_last(), paragraph_left, paragraph_right);
        if breaks_paragraph(
            assembly_after(order.drop_last(), paragraph_left, paragraph_right),
            order.last(),
            paragraph_left,
            paragraph_right,
        ) {
            lemma_break_follows_stretches(order, paragraph_left, paragraph_right);
        } else {
            lemma_continuation_follows_stretches(order, paragraph_left, paragraph_right);
        }
    }
}

/// The lines that objects are assembled into: the empty opening line,
/// then one line for each stretch.
pub proof fn lemma_lines_follow_stretches(
    order: Seq<PositionedObject<'_>>,
    paragraph_left: PdfPoints,
    paragraph_right: PdfPoints,
)
    ensures
        assembled_lines(order, paragraph_left, paragraph_right).len() == paragraph_starts(
            order,
            paragraph_left,
            paragraph_right,
        ).len() + 1,
        assembled_lines(order, paragraph_left, paragraph_right)[0]
            == assembly_start().current.close(),
        order.len() > 0 ==> paragraph_starts(order, paragraph_left, paragraph_right).len() > 0
            && paragraph_starts(order, paragraph_left, paragraph_right)[0] == 0,
        order.len() == 0 ==> paragraph_starts(order, paragraph_left, paragraph_right).len() == 0,
        forall|k: int|
            0 <= k < paragraph_starts(order, paragraph_left, paragraph_right).len()
                ==> #[trigger] is_stretch(
                paragraph_starts(order, paragraph_left, paragraph_right),
                k,
                order.len() as int,
            ),
        forall|k: int|
            0 <= k < paragraph_starts(order, paragraph_left, paragraph_right).len()
                ==> #[trigger] assembled_lines(order, paragraph_left, paragraph_right)[k + 1]
                == line_of_stretch(
                order,
                paragraph_left,
                paragraph_right,
                paragraph_starts(order, paragraph_left, paragraph_right),
                k,
                assembled_lines(order, paragraph_left, paragraph_right)[k].alignment,
            ).close(),
{
    let starts = paragraph_starts(order, paragraph_left, paragraph_right);
    let lines = assembled_lines(order, paragraph_left, paragraph_right);
    let state = assembly_after(order, paragraph_left, paragraph_right);
    let count = starts.len() as int;
    lemma_assembly_follows_stretches(order, paragraph_left, paragraph_right);
    assert(lines == state.lines.push(state.current.close()));
    assert forall|k: int| 0 <= k < count implies #[trigger] lines[k + 1] == line_of_stretch(
        order,
        paragraph_left,
        paragraph_right,
        starts,
        k,
        lines[k].alignment,
    ).close() by {
        if k < count - 1 {
            assert(lines[k + 1] == state.lines[k + 1]);
            assert(lines[k] == state.lines[k]);
        } else {
            assert(lines[k + 1] == state.current.close());
            assert(lines[k] == state.lines[count - 1]);
        }
    }
    if count == 0 {
        assert(lines[0] == assembly_start().current.close());
    } else {
        assert(lines[0] == state.lines[0]);
    }
}

/// The line of a stretch is a paragraph line whose fragments, behind the
/// line break, are the merged contributions of the stretch.
proof fn lemma_line_of_stretch_is_paragraph_line(
    order: Seq<PositionedObject<'_>>,
    paragraph_left: PdfPoints,
    paragraph_right: PdfPoints,
    starts: Seq<int>,
    index: int,
    previous_alignment: PdfLineAlignment,
)
    requires
        0 <= index < starts.len(),
        0 <= starts[index] < stretch_end(starts, index, order.len() as int) <= order.len(),
    ensures
        is_paragraph_line(
            line_of_stretch(
                order,
                paragraph_left,
                paragraph_right,
                starts,
                index,
                previous_alignment,
            ).close(),
        ),
        line_of_stretch(
            order,
            paragraph_left,
            paragraph_right,
            starts,
            index,
            previous_alignment,
        ).close().fragments.skip(1) == coalesce(contributions(stretch(order, starts, index))),
{
    let line = line_of_stretch(
        order,
        paragraph_left,
        paragraph_right,
        starts,
        index,
        previous_alignment,
    ).close();
    let given = contributions(stretch(order, starts, index));
    assert(line.fragments.skip(1) =~= coalesce(given));
    lemma_coalesce_len(given);
    lemma_coalesce_is_coalesced(given);
    lemma_coalesce_stays_unbroken(given);
}

/// Whether `line` begins with a line break, behind which stands at least
/// one fragment, none of them a line break and no two of them runs that
/// should be merged.
pub open spec fn is_paragraph_line(line: LineModel) -> bool {
    &&& line.fragments.len() >= 2
    &&& line.fragments[0] is LineBreak
    &&& coalesced(line.fragments.skip(1))
    &&& unbroken(line.fragments.skip(1))
}

/// The paragraph that a paragraph line makes up by itself.
pub open spec fn paragraph_of_line(line: LineModel) -> ParagraphModel {
    framed(line.fragments.skip(1), Some(widened(None, line)))
}

/// A paragraph line closes the paragraph before it and leaves its own
/// fragments, but for the line break, to be closed next.
proof fn lemma_gather_paragraph_line(state: Gathering, line: LineModel, count: int)
    requires
        is_paragraph_line(line),
        1 <= count <= line.fragments.len(),
    ensures
        gathered_in_line(state, line, count) == (Gathering {
            finished: closed(state),
            fragments: line.fragments.skip(1).take(count - 1),
            frame: if count == 1 {
                None
            } else {
                Some(widened(None, line))
            },
        }),
    decreases count,
{
    let content = line.fragments.skip(1);
    if count == 1 {
        assert(gathered_in_line(state, line, 0) == state);
        assert(content.take(0) =~= Seq::<Fragment>::empty());
    } else {
        lemma_gather_paragraph_line(state, line, count - 1);
        let before = gathered_in_line(state, line, count - 1);
        let fragment = line.fragments[count - 1];
        assert(fragment == content[count - 2]);
        assert(!(fragment is LineBreak));
        let taken = content.take(count - 2);
        if taken.len() > 0 {
            assert(taken.last() == content[count - 3]);
            assert(!crate::fragment::should_merge(content[count - 3], content[count - 2]));
        }
        assert(push_fragment(taken, fragment) =~= content.take(count - 1));
        assert(gathered_in_line(state, line, count) == gather(before, line, fragment));
    }
}

/// Whether `lines` is an empty opening line followed by paragraph lines.
pub open spec fn is_cut_by_lines(lines: Seq<LineModel>) -> bool {
    &&& lines.len() >= 1
    &&& lines[0].fragments.len() == 0
    &&& forall|k: int| 1 <= k < lines.len() ==> is_paragraph_line(#[trigger] lines[k])
}

proof fn lemma_gathered_paragraph_lines(lines: Seq<LineModel>)
    requires
        is_cut_by_lines(lines),
    ensures
        gathered(lines).finished.len() == if lines.len() == 1 {
            0
        } else {
            lines.len() - 2
        },
        forall|k: int|
            0 <= k < gathered(lines).finished.len() ==> #[trigger] gathered(lines).finished[k]
                == paragraph_of_line(lines[k + 1]),
        lines.len() == 1 ==> gathered(lines).fragments.len() == 0,
        lines.len() > 1 ==> gathered(lines).fragments == lines.last().fragments.skip(1)
            && gathered(lines).frame == Some(widened(None, lines.last())),
    decreases lines.len(),
{
    let earlier = lines.drop_last();
    let line = lines.last();
    if lines.len() == 1 {
        assert(earlier.len() == 0);
        assert(gathered_in_line(gathered(earlier), line, 0) == gathered(earlier));
    } else {
        assert forall|k: int| 1 <= k < earlier.len() implies is_paragraph_line(
            #[trigger] earlier[k],
        ) by {
            assert(earlier[k] == lines[k]);
        }
        assert(earlier[0] == lines[0]);
        lemma_gathered_paragraph_lines(earlier);
        let before = gathered(earlier);
        lemma_gather_paragraph_line(before, line, line.fragments.len() as int);
        let content = line.fragments.skip(1);
        assert(content.take(line.fragments.len() - 1) =~= content);
        let after = gathered(lines);
        assert(after.finished == closed(before));
        assert forall|k: int| 0 <= k < after.finished.len() implies #[trigger] after.finished[k]
            == paragraph_of_line(lines[k + 1]) by {
            if k < before.finished.len() {
                assert(after.finished[k] == before.finished[k]);
                assert(earlier[k + 1] == lines[k + 1]);
            } else {
                assert(earlier.last() == lines[k + 1]);
            }
        }
    }
}

/// Lines that are an empty opening line followed by paragraph lines are
/// cut into one paragraph for each paragraph line.
pub proof fn lemma_paragraph_lines_are_paragraphs(lines: Seq<LineModel>)
    requires
        is_cut_by_lines(lines),
    ensures
        paragraphs_of(lines).len() == lines.len() - 1,
        forall|k: int|
            0 <= k < lines.len() - 1 ==> #[trigger] paragraphs_of(lines)[k] == paragraph_of_line(
                lines[k + 1],
            ),
{
    lemma_gathered_paragraph_lines(lines);
}

/// The places in `order` at which the paragraphs of `order` begin.
pub open spec fn starts_of(order: Seq<PositionedObject<'_>>) -> Seq<int> {
    paragraph_starts(order, extent_of(order).left, extent_of(order).right)
}

/// The lines that `order` is assembled into.
pub open spec fn lines_of(order: Seq<PositionedObject<'_>>) -> Seq<LineModel> {
    assembled_lines(order, extent_of(order).left, extent_of(order).right)
}

/// The objects of `order` that paragraph `paragraph` is made from.
pub open spec fn objects_of_paragraph<'a>(order: Seq<PositionedObject<'a>>, paragraph: int) -> Seq<
    PositionedObject<'a>,
> {
    stretch(order, starts_of(order), paragraph)
}

/// The place in `order` of the first object that fragment `fragment` of
/// paragraph `paragraph` is made from.
pub open spec fn source_start(order: Seq<PositionedObject<'_>>, paragraph: int, fragment: int) -> int {
    starts_of(order)[paragraph] + run_starts(
        contributions(objects_of_paragraph(order, paragraph)),
    )[fragment]
}

/// The place in `order` behind the last object that fragment `fragment`
/// of paragraph `paragraph` is made from.
pub open spec fn source_end(order: Seq<PositionedObject<'_>>, paragraph: int, fragment: int) -> int {
    starts_of(order)[paragraph] + stretch_end(
        run_starts(contributions(objects_of_paragraph(order, paragraph))),
        fragment,
        objects_of_paragraph(order, paragraph).len() as int,
    )
}

/// The lines of a reading sequence are an empty opening line followed by
/// one paragraph line for each stretch.
pub proof fn lemma_lines_are_paragraph_lines(order: Seq<PositionedObject<'_>>)
    ensures
        lines_of(order).len() == starts_of(order).len() + 1,
        is_cut_by_lines(lines_of(order)),
        forall|k: int|
            0 <= k < starts_of(order).len() ==> (#[trigger] lines_of(order)[k + 1]).fragments.skip(
                1,
            ) == coalesce(contributions(objects_of_paragraph(order, k))),
{
    let left = extent_of(order).left;
    let right = extent_of(order).right;
    let starts = starts_of(order);
    let lines = lines_of(order);
    lemma_lines_follow_stretches(order, left, right);
    assert forall|k: int| 0 <= k < starts.len() implies is_paragraph_line(
        #[trigger] lines[k + 1],
    ) && lines[k + 1].fragments.skip(1) == coalesce(
        contributions(objects_of_paragraph(order, k)),
    ) by {
        assert(is_stretch(starts, k, order.len() as int));
        lemma_line_of_stretch_is_paragraph_line(order, left, right, starts, k, lines[k].alignment);
    }
    assert forall|k: int| 1 <= k < lines.len() implies is_paragraph_line(#[trigger] lines[k]) by {
        assert(is_paragraph_line(lines[(k - 1) + 1]));
    }
}

/// The paragraphs of a reading sequence follow its stretches. There is
/// one paragraph for each stretch, in order; the stretches follow one
/// another without a gap from the first object to the last; and the
/// fragments of a paragraph are the merged contributions of the objects
/// of its stretch.
pub proof fn lemma_paragraphs_follow_stretches(order: Seq<PositionedObject<'_>>)
    ensures
        paragraphs_read(order).len() == starts_of(order).len(),
        order.len() > 0 ==> starts_of(order).len() > 0 && starts_of(order)[0] == 0,
        order.len() == 0 ==> starts_of(order).len() == 0,
        forall|k: int|
            0 <= k < starts_of(order).len() ==> #[trigger] is_stretch(
                starts_of(order),
                k,
                order.len() as int,
            ),
        forall|k: int|
            0 <= k < starts_of(order).len() ==> (#[trigger] paragraphs_read(order)[k]).fragments
                == coalesce(contributions(objects_of_paragraph(order, k))),
{
    let lines = lines_of(order);
    lemma_lines_follow_stretches(order, extent_of(order).left, extent_of(order).right);
    lemma_lines_are_paragraph_lines(order);
    lemma_paragraph_lines_are_paragraphs(lines);
    assert forall|k: int| 0 <= k < starts_of(order).len() implies (#[trigger] paragraphs_read(
        order,
    )[k]).fragments == coalesce(contributions(objects_of_paragraph(order, k))) by {
        assert(paragraphs_of(lines)[k] == paragraph_of_line(lines[k + 1]));
    }
}

/// `bag` with the text of `object` added, if `object` is a text object.
pub open spec fn with_text_of(bag: Multiset<Seq<char>>, object: PositionedObject<'_>) -> Multiset<
    Seq<char>,
> {
    match object.object@.text {
        Some(text) => bag.insert(text.text),
        None => bag,
    }
}

/// The texts of the text objects among `order`, each as often as it
/// occurs.
pub open spec fn text_bag<'a>(order: Seq<PositionedObject<'a>>) -> Multiset<Seq<char>> {
    order.fold_left(
        Multiset::empty(),
        |bag: Multiset<Seq<char>>, object: PositionedObject<'a>| with_text_of(bag, object),
    )
}

/// Reading loses no text and adds none: the reading sequence of
/// `objects` holds the texts of the text objects of `objects`, each as
/// often as `objects` hold it.
pub proof fn lemma_reading_keeps_texts<'a>(
    order: Seq<PositionedObject<'a>>,
    objects: Seq<PdfPageObject>,
)
    requires
        is_reading_sequence(order, objects),
    ensures
        text_bag(order) == text_bag(placed_all::<'a>(objects)),
{
    let gather_text = |bag: Multiset<Seq<char>>, object: PositionedObject<'a>|
        with_text_of(bag, object);
    assert forall|x: PositionedObject<'a>, y: PositionedObject<'a>, bag: Multiset<Seq<char>>|
        #[trigger] gather_text(gather_text(bag, x), y) == gather_text(gather_text(bag, y), x) by {
        assert(with_text_of(with_text_of(bag, x), y) =~= with_text_of(with_text_of(bag, y), x));
    }
    vstd::seq_lib::lemma_fold_left_permutation(
        order,
        placed_all::<'a>(objects),
        gather_text,
        Multiset::empty(),
    );
}

/// Stretches ascend: a stretch ends no later than any stretch behind it
/// begins.
pub proof fn lemma_stretches_ascend(starts: Seq<int>, length: int, earlier: int, later: int)
    requires
        forall|k: int|
            0 <= k < starts.len() ==> #[trigger] is_stretch(starts, k, length),
        0 <= earlier < later < starts.len(),
    ensures
        stretch_end(starts, earlier, length) <= starts[later],
    decreases later - earlier,
{
    if earlier + 1 < later {
        lemma_stretches_ascend(starts, length, earlier, later - 1);
        assert(is_stretch(starts, later - 1, length));
    } else {
        assert(is_stretch(starts, earlier, length));
        assert(stretch_end(starts, earlier, length) == starts[later]);
    }
}

/// Each fragment of each paragraph is made of a run of objects that
/// follow one another in the reading sequence, and each object goes into
/// exactly one fragment: the runs of a paragraph begin where the
/// paragraph's stretch begins, follow one another without a gap, and end
/// where the stretch ends. A fragment is what its run becomes when the
/// contributions of the run are merged; so the texts of the objects of
/// the run are the parts that the fragment's text was joined from.
pub proof fn lemma_fragment_is_made_of_its_sources(
    order: Seq<PositionedObject<'_>>,
    paragraph: int,
    fragment: int,
)
    requires
        0 <= paragraph < paragraphs_read(order).len(),
        0 <= fragment < paragraphs_read(order)[paragraph].fragments.len(),
    ensures
        paragraph < starts_of(order).len(),
        0 <= starts_of(order)[paragraph] <= source_start(order, paragraph, fragment) < source_end(
            order,
            paragraph,
            fragment,
        ) <= stretch_end(starts_of(order), paragraph, order.len() as int) <= order.len(),
        is_run(
            contributions(
                order.subrange(
                    source_start(order, paragraph, fragment),
                    source_end(order, paragraph, fragment),
                ),
            ),
            paragraphs_read(order)[paragraph].fragments[fragment],
        ),
        fragment == 0 ==> source_start(order, paragraph, fragment) == starts_of(order)[paragraph],
        fragment + 1 < paragraphs_read(order)[paragraph].fragments.len() ==> source_end(
            order,
            paragraph,
            fragment,
        ) == source_start(order, paragraph, fragment + 1),
        fragment + 1 == paragraphs_read(order)[paragraph].fragments.len() ==> source_end(
            order,
            paragraph,
            fragment,
        ) == stretch_end(starts_of(order), paragraph, order.len() as int),
{
    lemma_paragraphs_follow_stretches(order);
    let starts = starts_of(order);
    let objects = objects_of_paragraph(order, paragraph);
    let given = contributions(objects);
    let runs = run_starts(given);
    assert(is_stretch(starts, paragraph, order.len() as int));
    assert(paragraphs_read(order)[paragraph].fragments == coalesce(given));
    lemma_coalesce_runs(given);
    assert(is_stretch(runs, fragment, given.len() as int));
    assert(is_run(
        given.subrange(runs[fragment], stretch_end(runs, fragment, given.len() as int)),
        coalesce(given)[fragment],
    ));
    assert(contributions(
        order.subrange(
            source_start(order, paragraph, fragment),
            source_end(order, paragraph, fragment),
        ),
    ) =~= given.subrange(runs[fragment], stretch_end(runs, fragment, given.len() as int)));
}

/// A styled string of a paragraph has the style of the first object it
/// is made from, and each object it is made from is a text object in a
/// style that matches that one.
pub proof fn lemma_fragment_has_style_of_its_sources(
    order: Seq<PositionedObject<'_>>,
    paragraph: int,
    fragment: int,
    source: int,
)
    requires
        0 <= paragraph < paragraphs_read(order).len(),
        0 <= fragment < paragraphs_read(order)[paragraph].fragments.len(),
        paragraphs_read(order)[paragraph].fragments[fragment] is StyledString,
        source_start(order, paragraph, fragment) <= source < source_end(
            order,
            paragraph,
            fragment,
        ),
    ensures
        0 <= source_start(order, paragraph, fragment) <= source < order.len(),
        order[source_start(order, paragraph, fragment)].object@.text is Some,
        paragraphs_read(order)[paragraph].fragments[fragment]->StyledString_0.style
            == order[source_start(order, paragraph, fragment)].object@.text->0.style,
        order[source].object@.text is Some,
        crate::style::styles_match(
            paragraphs_read(order)[paragraph].fragments[fragment]->StyledString_0.style,
            order[source].object@.text->0.style,
        ),
{
    lemma_fragment_is_made_of_its_sources(order, paragraph, fragment);
    let first = source_start(order, paragraph, fragment);
    let end = source_end(order, paragraph, fragment);
    assert(0 <= first <= source < end <= order.len());
    let taken = order.subrange(first, end);
    let run = contributions(taken);
    assert(taken[0] == order[first]);
    assert(taken[source - first] == order[source]);
    assert(run[0] == fragment_of(order[first].object@));
    assert(run[source - first] == fragment_of(order[source].object@));
    if !(run[0] is StyledString) {
        assert(paragraphs_read(order)[paragraph].fragments[fragment] == run[0]);
    }
}

/// Where the objects stand in reading order, the fragments follow it:
/// of two fragments, each object that the earlier one is made from
/// comes before each object that the later one is made from.
pub proof fn lemma_fragments_follow_reading_order(
    order: Seq<PositionedObject<'_>>,
    paragraph: int,
    fragment: int,
    source: int,
    later_paragraph: int,
    later_fragment: int,
    later_source: int,
)
    requires
        in_reading_order(order),
        0 <= paragraph < paragraphs_read(order).len(),
        0 <= fragment < paragraphs_read(order)[paragraph].fragments.len(),
        0 <= later_paragraph < paragraphs_read(order).len(),
        0 <= later_fragment < paragraphs_read(order)[later_paragraph].fragments.len(),
        paragraph < later_paragraph || (paragraph == later_paragraph && fragment
            < later_fragment),
        source_start(order, paragraph, fragment) <= source < source_end(
            order,
            paragraph,
            fragment,
        ),
        source_start(order, later_paragraph, later_fragment) <= later_source < source_end(
            order,
            later_paragraph,
            later_fragment,
        ),
    ensures
        0 <= source < later_source < order.len(),
        precedes(order[source], order[later_source]),
{
    lemma_paragraphs_follow_stretches(order);
    lemma_fragment_is_made_of_its_sources(order, paragraph, fragment);
    lemma_fragment_is_made_of_its_sources(order, later_paragraph, later_fragment);
    let starts = starts_of(order);
    if paragraph < later_paragraph {
        lemma_stretches_ascend(starts, order.len() as int, paragraph, later_paragraph);
    } else {
        let given = contributions(objects_of_paragraph(order, paragraph));
        lemma_coalesce_runs(given);
        lemma_stretches_ascend(run_starts(given), given.len() as int, fragment, later_fragment);
    }
}

/// Each paragraph of a reading sequence is made of exactly one line, so
/// no two lines of one paragraph differ in alignment. The line begins
/// with the line break that ends the paragraph before; the fragments
/// behind the line break are the paragraph's, and the paragraph takes
/// its alignment, its position and its extent from that line.
pub proof fn lemma_paragraph_is_one_line(order: Seq<PositionedObject<'_>>, paragraph: int)
    requires
        0 <= paragraph < paragraphs_read(order).len(),
    ensures
        paragraphs_read(order).len() == lines_of(order).len() - 1,
        lines_of(order)[paragraph + 1].fragments[0] == Fragment::LineBreak(
            lines_of(order)[paragraph].alignment,
        ),
        paragraphs_read(order)[paragraph].fragments == lines_of(order)[paragraph
            + 1].fragments.skip(1),
        paragraphs_read(order)[paragraph].alignment == paragraph_alignment_of(
            lines_of(order)[paragraph + 1].alignment,
        ),
        paragraphs_read(order)[paragraph].left == Some(lines_of(order)[paragraph + 1].left),
        paragraphs_read(order)[paragraph].top == Some(
            lines_of(order)[paragraph + 1].bottom.spec_plus(
                lines_of(order)[paragraph + 1].height,
            ),
        ),
        paragraphs_read(order)[paragraph].max_width == Some(
            lines_of(order)[paragraph + 1].width,
        ),
{
    let lines = lines_of(order);
    lemma_lines_follow_stretches(order, extent_of(order).left, extent_of(order).right);
    lemma_lines_are_paragraph_lines(order);
    lemma_paragraph_lines_are_paragraphs(lines);
    assert(paragraphs_of(lines)[paragraph] == paragraph_of_line(lines[paragraph + 1]));
}

} // verus!
