//! The pieces that lines and paragraphs are made of: styled strings, line
//! breaks and page objects that are not text.

use crate::style::{append_text, styles_match, word_gap, StyledText};
use crate::styled_string::PdfStyledString;
use vstd::prelude::*;

verus! {

/// The alignment of a single line relative to the lines around it.
#[derive(Copy, Clone, Debug, PartialEq, Eq, Structural)]
pub enum PdfLineAlignment {
    Unaligned,
    LeftAlign,
    RightAlign,
    Center,
    Justify,
}

/// A single fragment of a line or a paragraph.
pub enum PdfParagraphFragment<'a> {
    /// A run of text in one style.
    StyledString(PdfStyledString<'a>),
    /// The end of a line; it records the alignment of the line that ended.
    LineBreak(PdfLineAlignment),
    /// A page object that is not text, kept by its handle.
    NonTextObject(u64),
}

/// The mathematical model of a fragment.
pub enum Fragment {
    StyledString(StyledText),
    LineBreak(PdfLineAlignment),
    NonTextObject(u64),
}

impl<'a> View for PdfParagraphFragment<'a> {
    type V = Fragment;

    open spec fn view(&self) -> Fragment {
        match *self {
            PdfParagraphFragment::StyledString(string) => Fragment::StyledString(string@),
            PdfParagraphFragment::LineBreak(alignment) => Fragment::LineBreak(alignment),
            PdfParagraphFragment::NonTextObject(handle) => Fragment::NonTextObject(handle),
        }
    }
}

impl<'a> Clone for PdfParagraphFragment<'a> {
    fn clone(&self) -> (copy: Self)
        ensures
            copy@ == self@,
    {
        match self {
            PdfParagraphFragment::StyledString(string) => PdfParagraphFragment::StyledString(
                string.clone(),
            ),
            PdfParagraphFragment::LineBreak(alignment) => PdfParagraphFragment::LineBreak(
                *alignment,
            ),
            PdfParagraphFragment::NonTextObject(handle) => PdfParagraphFragment::NonTextObject(
                *handle,
            ),
        }
    }
}

/// The models of the fragments in `fragments`, in order.
pub open spec fn models_of(fragments: Seq<PdfParagraphFragment<'_>>) -> Seq<Fragment> {
    Seq::new(fragments.len(), |i: int| fragments[i]@)
}

/// Whether `earlier` and `later` are two runs of text in matching styles,
/// that is, two fragments that may not stand next to each other.
pub open spec fn should_merge(earlier: Fragment, later: Fragment) -> bool {
    match (earlier, later) {
        (Fragment::StyledString(a), Fragment::StyledString(b)) => styles_match(a.style, b.style),
        _ => false,
    }
}

/// Whether no two neighbouring fragments are runs of text in matching
/// styles.
pub open spec fn coalesced(fragments: Seq<Fragment>) -> bool {
    forall|i: int|
        0 <= i && i + 1 < fragments.len() ==> !should_merge(
            #[trigger] fragments[i],
            fragments[i + 1],
        )
}

/// `fragments` with the run `string` added at the end: merged into the
/// last fragment, behind one space, where that is a run in a matching
/// style; as a fragment of its own otherwise.
pub open spec fn push_styled(fragments: Seq<Fragment>, string: StyledText) -> Seq<Fragment> {
    if fragments.len() > 0 && should_merge(fragments.last(), Fragment::StyledString(string)) {
        let last = fragments.last()->StyledString_0;
        fragments.drop_last().push(
            Fragment::StyledString(
                StyledText {
                    text: append_text(last.text, string.text, word_gap()),
                    style: last.style,
                },
            ),
        )
    } else {
        fragments.push(Fragment::StyledString(string))
    }
}

/// `fragments` with `fragment` added at the end; a run of text is merged
/// as `push_styled` says.
pub open spec fn push_fragment(fragments: Seq<Fragment>, fragment: Fragment) -> Seq<Fragment> {
    match fragment {
        Fragment::StyledString(string) => push_styled(fragments, string),
        _ => fragments.push(fragment),
    }
}

/// Adding a fragment keeps a coalesced sequence coalesced.
pub proof fn lemma_push_fragment_keeps_coalesced(fragments: Seq<Fragment>, fragment: Fragment)
    requires
        coalesced(fragments),
    ensures
        coalesced(push_fragment(fragments, fragment)),
{
    let result = push_fragment(fragments, fragment);
    assert forall|i: int| 0 <= i && i + 1 < result.len() implies !should_merge(
        #[trigger] result[i],
        result[i + 1],
    ) by {
        if i + 1 < fragments.len() - 1 {
            assert(result[i] == fragments[i]);
            assert(result[i + 1] == fragments[i + 1]);
        } else if i + 1 == fragments.len() - 1 {
            assert(result[i] == fragments[i]);
            if result.len() == fragments.len() {
                // The last run grew; its style did not change.
                assert(!should_merge(fragments[i], fragments[i + 1]));
            } else {
                assert(result[i + 1] == fragments[i + 1]);
            }
        } else {
            assert(result.len() == fragments.len() + 1);
            assert(result[i] == fragments[i]);
        }
    }
}

/// Adds the run `string` to the end of `fragments`, merging it into the
/// last fragment where that is a run in a matching style.
pub fn append_styled<'a>(
    fragments: &mut Vec<PdfParagraphFragment<'a>>,
    string: PdfStyledString<'a>,
)
    ensures
        models_of(final(fragments)@) == push_styled(models_of(old(fragments)@), string@),
{
    let ghost before = models_of(fragments@);
    match fragments.pop() {
        Some(PdfParagraphFragment::StyledString(mut last_string)) => {
            assert(before.last() == Fragment::StyledString(last_string@));
            if last_string.does_match_string_styling(&string) {
                proof {
                    reveal_strlit(" ");
                    assert(" "@ =~= word_gap());
                }
                last_string.push(string.text(), " ");
                fragments.push(PdfParagraphFragment::StyledString(last_string));
            } else {
                fragments.push(PdfParagraphFragment::StyledString(last_string));
                fragments.push(PdfParagraphFragment::StyledString(string));
            }
        },
        Some(other) => {
            assert(before.last() == other@);
            fragments.push(other);
            fragments.push(PdfParagraphFragment::StyledString(string));
        },
        None => {
            fragments.push(PdfParagraphFragment::StyledString(string));
        },
    }
    assert(models_of(fragments@) =~= push_styled(before, string@));
}

} // verus!
