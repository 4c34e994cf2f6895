//! Merging as a whole: what a sequence of fragments becomes when its
//! fragments are added one by one, and which fragments each run of the
//! result was made from.

use crate::fragment::{
    coalesced, lemma_push_fragment_keeps_coalesced, push_fragment, should_merge, Fragment,
};
use crate::style::{append_text, styles_match, word_gap, StyledText};
use vstd::prelude::*;

verus! {

/// The fragments of `fragments` added one by one to an empty sequence,
/// each merged into the one before it where the two are runs of text in
/// matching styles.
pub open spec fn coalesce(fragments: Seq<Fragment>) -> Seq<Fragment>
    decreases fragments.len(),
{
    if fragments.len() == 0 {
        Seq::empty()
    } else {
        push_fragment(coalesce(fragments.drop_last()), fragments.last())
    }
}

/// Whether `fragment`, added behind `merged`, is merged into its last
/// fragment.
pub open spec fn joins(merged: Seq<Fragment>, fragment: Fragment) -> bool {
    merged.len() > 0 && should_merge(merged.last(), fragment)
}

/// The places in `fragments` at which the fragments of
/// `coalesce(fragments)` begin: the places of the fragments that are not
/// merged into what stands before them.
pub open spec fn run_starts(fragments: Seq<Fragment>) -> Seq<int>
    decreases fragments.len(),
{
    if fragments.len() == 0 {
        Seq::empty()
    } else {
        let earlier = run_starts(fragments.drop_last());
        if joins(coalesce(fragments.drop_last()), fragments.last()) {
            earlier
        } else {
            earlier.push(fragments.len() - 1)
        }
    }
}

/// The place at which the stretch that begins at `starts[index]` ends:
/// where the next stretch begins, or at `length` for the last stretch.
pub open spec fn stretch_end(starts: Seq<int>, index: int, length: int) -> int {
    if index + 1 < starts.len() {
        starts[index + 1]
    } else {
        length
    }
}

/// Whether the stretch that begins at `starts[index]` lies within
/// `length` places and holds at least one of them.
pub open spec fn is_stretch(starts: Seq<int>, index: int, length: int) -> bool {
    0 <= starts[index] < stretch_end(starts, index, length) <= length
}

/// The text of a run of styled strings that are merged in order, with one
/// space between each two unless the text before already ends in one.
pub open spec fn merged_text(run: Seq<Fragment>) -> Seq<char>
    decreases run.len(),
{
    if run.len() == 0 {
        Seq::empty()
    } else if run.len() == 1 {
        run[0]->StyledString_0.text
    } else {
        append_text(
            merged_text(run.drop_last()),
            run.last()->StyledString_0.text,
            word_gap(),
        )
    }
}

/// Whether `merged` is what the fragments of `run` become together: a
/// single fragment that is no text stays as it is; styled strings, all in
/// styles that match the first one's, become one styled string in the
/// style of the first, with the text of all.
pub open spec fn is_run(run: Seq<Fragment>, merged: Fragment) -> bool {
    &&& run.len() >= 1
    &&& if run[0] is StyledString {
        &&& forall|i: int|
            0 <= i < run.len() ==> (#[trigger] run[i]) is StyledString && styles_match(
                run[0]->StyledString_0.style,
                run[i]->StyledString_0.style,
            )
        &&& merged == Fragment::StyledString(
            StyledText { text: merged_text(run), style: run[0]->StyledString_0.style },
        )
    } else {
        run.len() == 1 && merged == run[0]
    }
}

/// Whether no fragment of `fragments` is a line break.
pub open spec fn unbroken(fragments: Seq<Fragment>) -> bool {
    forall|i: int| 0 <= i < fragments.len() ==> !((#[trigger] fragments[i]) is LineBreak)
}

/// Merging leaves as many fragments as there are runs, and none where
/// there were none.
pub proof fn lemma_coalesce_len(fragments: Seq<Fragment>)
    ensures
        coalesce(fragments).len() == run_starts(fragments).len(),
        coalesce(fragments).len() <= fragments.len(),
        fragments.len() > 0 ==> coalesce(fragments).len() > 0,
    decreases fragments.len(),
{
    if fragments.len() > 0 {
        lemma_coalesce_len(fragments.drop_last());
    }
}

/// What is merged is coalesced.
pub proof fn lemma_coalesce_is_coalesced(fragments: Seq<Fragment>)
    ensures
        coalesced(coalesce(fragments)),
    decreases fragments.len(),
{
    if fragments.len() > 0 {
        lemma_coalesce_is_coalesced(fragments.drop_last());
        lemma_push_fragment_keeps_coalesced(coalesce(fragments.drop_last()), fragments.last());
    }
}

/// Merging changes nothing in a sequence that is coalesced already.
pub proof fn lemma_coalesce_of_coalesced(fragments: Seq<Fragment>)
    requires
        coalesced(fragments),
    ensures
        coalesce(fragments) == fragments,
    decreases fragments.len(),
{
    if fragments.len() > 0 {
        let earlier = fragments.drop_last();
        assert forall|i: int| 0 <= i && i + 1 < earlier.len() implies !should_merge(
            #[trigger] earlier[i],
            earlier[i + 1],
        ) by {
            assert(earlier[i] == fragments[i]);
            assert(earlier[i + 1] == fragments[i + 1]);
        }
        lemma_coalesce_of_coalesced(earlier);
        if earlier.len() > 0 {
            assert(earlier.last() == fragments[fragments.len() - 2]);
            assert(!should_merge(fragments[fragments.len() - 2], fragments[fragments.len() - 1]));
        }
        assert(earlier.push(fragments.last()) =~= fragments);
    }
}

/// Merging brings no line break into a sequence that holds none.
pub proof fn lemma_coalesce_stays_unbroken(fragments: Seq<Fragment>)
    requires
        unbroken(fragments),
    ensures
        unbroken(coalesce(fragments)),
    decreases fragments.len(),
{
    if fragments.len() > 0 {
        let earlier = fragments.drop_last();
        assert forall|i: int| 0 <= i < earlier.len() implies !((#[trigger] earlier[i])
            is LineBreak) by {
            assert(earlier[i] == fragments[i]);
        }
        lemma_coalesce_stays_unbroken(earlier);
        let merged = coalesce(earlier);
        let result = coalesce(fragments);
        assert(!(fragments[fragments.len() - 1] is LineBreak));
        assert forall|i: int| 0 <= i < result.len() implies !((#[trigger] result[i])
            is LineBreak) by {
            if i < result.len() - 1 {
                assert(result[i] == merged[i]);
            }
        }
    }
}

/// A fragment added behind a sequence is merged as it would be were the
/// front of the sequence not there, so long as the front ends in a
/// fragment that is no text or something stands behind the front.
pub proof fn lemma_push_behind_front(front: Seq<Fragment>, rest: Seq<Fragment>, fragment: Fragment)
    requires
        rest.len() > 0 || (front.len() > 0 && !(front.last() is StyledString)),
    ensures
        push_fragment(front + rest, fragment) == front + push_fragment(rest, fragment),
{
    let whole = front + rest;
    if rest.len() > 0 {
        assert(whole.last() == rest.last());
        assert(whole.drop_last() =~= front + rest.drop_last());
        assert(push_fragment(whole, fragment) =~= front + push_fragment(rest, fragment));
    } else {
        assert(whole =~= front);
        assert(push_fragment(whole, fragment) =~= front + push_fragment(rest, fragment));
    }
}

/// Each fragment of the merged sequence is what one stretch of the given
/// fragments becomes; the stretches follow one another without a gap,
/// from the first fragment to the last.
pub proof fn lemma_coalesce_runs(fragments: Seq<Fragment>)
    ensures
        coalesce(fragments).len() == run_starts(fragments).len(),
        fragments.len() > 0 ==> run_starts(fragments).len() > 0 && run_starts(fragments)[0] == 0,
        forall|g: int|
            0 <= g < run_starts(fragments).len() ==> #[trigger] is_stretch(
                run_starts(fragments),
                g,
                fragments.len() as int,
            ) && is_run(
                fragments.subrange(
                    run_starts(fragments)[g],
                    stretch_end(run_starts(fragments), g, fragments.len() as int),
                ),
                coalesce(fragments)[g],
            ),
    decreases fragments.len(),
{
    if fragments.len() > 0 {
        let n = fragments.len() as int;
        let earlier = fragments.drop_last();
        let added = fragments.last();
        lemma_coalesce_runs(earlier);
        lemma_coalesce_len(earlier);
        let merged = coalesce(earlier);
        let starts_before = run_starts(earlier);
        let starts = run_starts(fragments);
        let result = coalesce(fragments);
        let count = starts_before.len() as int;
        if joins(merged, added) {
            assert(starts == starts_before);
            assert forall|g: int| 0 <= g < starts.len() implies #[trigger] is_stretch(
                starts,
                g,
                n,
            ) && is_run(fragments.subrange(starts[g], stretch_end(starts, g, n)), result[g]) by {
                assert(is_stretch(starts_before, g, n - 1));
                if g < count - 1 {
                    assert(result[g] == merged[g]);
                    assert(fragments.subrange(starts[g], stretch_end(starts, g, n))
                        =~= earlier.subrange(
                        starts_before[g],
                        stretch_end(starts_before, g, n - 1),
                    ));
                    assert(is_run(
                        earlier.subrange(starts_before[g], stretch_end(starts_before, g, n - 1)),
                        merged[g],
                    ));
                } else {
                    let run_before = earlier.subrange(starts_before[g], n - 1);
                    let run = fragments.subrange(starts[g], n);
                    assert(is_run(run_before, merged[g]));
                    assert(merged[g] == merged.last());
                    assert(run =~= run_before.push(added));
                    assert(run.drop_last() =~= run_before);
                    assert(run[0] == run_before[0]);
                    assert forall|i: int| 0 <= i < run.len() implies (#[trigger] run[i])
                        is StyledString && styles_match(
                        run[0]->StyledString_0.style,
                        run[i]->StyledString_0.style,
                    ) by {
                        if i < run_before.len() {
                            assert(run[i] == run_before[i]);
                        }
                    }
                }
            }
        } else {
            assert(starts == starts_before.push(n - 1));
            assert(result == merged.push(added));
            assert forall|g: int| 0 <= g < starts.len() implies #[trigger] is_stretch(
                starts,
                g,
                n,
            ) && is_run(fragments.subrange(starts[g], stretch_end(starts, g, n)), result[g]) by {
                if g < count {
                    assert(is_stretch(starts_before, g, n - 1));
                    assert(starts[g] == starts_before[g]);
                    assert(stretch_end(starts, g, n) == stretch_end(starts_before, g, n - 1));
                    assert(result[g] == merged[g]);
                    assert(fragments.subrange(starts[g], stretch_end(starts, g, n))
                        =~= earlier.subrange(
                        starts_before[g],
                        stretch_end(starts_before, g, n - 1),
                    ));
                    assert(is_run(
                        earlier.subrange(starts_before[g], stretch_end(starts_before, g, n - 1)),
                        merged[g],
                    ));
                } else {
                    let run = fragments.subrange(n - 1, n);
                    assert(run =~= seq![added]);
                    assert(run[0] == added);
                    if added is StyledString {
                        assert(merged_text(run) == added->StyledString_0.text);
                    }
                }
            }
        }
    }
}

} // verus!
