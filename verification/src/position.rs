//! The placing of page objects, and the extent of a group of them.

use crate::page_object::PdfPageObject;
use crate::points::PdfRect;
use crate::reading_order::PositionedObject;
use vstd::prelude::*;

verus! {

/// The bounds that `object` is placed by: its own, or the zero rectangle
/// where it has none.
pub open spec fn placing_bounds(object: &PdfPageObject) -> PdfRect {
    match object.bounds {
        Some(bounds) => bounds,
        None => PdfRect::spec_zero(),
    }
}

/// `object` together with the edges it is placed by.
pub open spec fn placed<'a>(object: &'a PdfPageObject) -> PositionedObject<'a> {
    let bounds = placing_bounds(object);
    PositionedObject {
        top: bounds.top,
        bottom: bounds.bottom,
        left: bounds.left,
        right: bounds.right,
        object,
    }
}

/// The objects of `objects`, placed, in the order given.
pub open spec fn placed_all<'a>(objects: Seq<PdfPageObject>) -> Seq<PositionedObject<'a>> {
    Seq::new(objects.len(), |i: int| placed(&objects[i]))
}

/// The smallest rectangle that holds every object of `objects`: the
/// least left and bottom edge and the greatest right and top edge. For no
/// objects it is the zero rectangle.
pub open spec fn extent_of(objects: Seq<PositionedObject<'_>>) -> PdfRect
    decreases objects.len(),
{
    if objects.len() == 0 {
        PdfRect::spec_zero()
    } else {
        let last = objects.last();
        if objects.len() == 1 {
            PdfRect { left: last.left, bottom: last.bottom, right: last.right, top: last.top }
        } else {
            let rest = extent_of(objects.drop_last());
            PdfRect {
                left: rest.left.spec_min(last.left),
                bottom: rest.bottom.spec_min(last.bottom),
                right: rest.right.spec_max(last.right),
                top: rest.top.spec_max(last.top),
            }
        }
    }
}

/// The extent reaches every object, and each of its edges is an edge of
/// one of the objects.
pub proof fn lemma_extent_is_tight(objects: Seq<PositionedObject<'_>>)
    requires
        objects.len() > 0,
    ensures
        forall|i: int|
            0 <= i < objects.len() ==> {
                &&& extent_of(objects).left.value <= (#[trigger] objects[i]).left.value
                &&& extent_of(objects).bottom.value <= objects[i].bottom.value
                &&& extent_of(objects).right.value >= objects[i].right.value
                &&& extent_of(objects).top.value >= objects[i].top.value
            },
        exists|i: int| 0 <= i < objects.len() && extent_of(objects).left == objects[i].left,
        exists|i: int| 0 <= i < objects.len() && extent_of(objects).bottom == objects[i].bottom,
        exists|i: int| 0 <= i < objects.len() && extent_of(objects).right == objects[i].right,
        exists|i: int| 0 <= i < objects.len() && extent_of(objects).top == objects[i].top,
    decreases objects.len(),
{
    let last = objects.len() - 1;
    if objects.len() > 1 {
        let rest = objects.drop_last();
        lemma_extent_is_tight(rest);
        assert forall|i: int| 0 <= i < objects.len() implies {
            &&& extent_of(objects).left.value <= (#[trigger] objects[i]).left.value
            &&& extent_of(objects).bottom.value <= objects[i].bottom.value
            &&& extent_of(objects).right.value >= objects[i].right.value
            &&& extent_of(objects).top.value >= objects[i].top.value
        } by {
            if i < last {
                assert(rest[i] == objects[i]);
            }
        }
        let l = choose|i: int| 0 <= i < rest.len() && extent_of(rest).left == rest[i].left;
        let b = choose|i: int| 0 <= i < rest.len() && extent_of(rest).bottom == rest[i].bottom;
        let r = choose|i: int| 0 <= i < rest.len() && extent_of(rest).right == rest[i].right;
        let t = choose|i: int| 0 <= i < rest.len() && extent_of(rest).top == rest[i].top;
        assert(rest[l] == objects[l] && rest[b] == objects[b] && rest[r] == objects[r] && rest[t]
            == objects[t]);
        assert(extent_of(objects).left == objects[l].left || extent_of(objects).left
            == objects[last].left);
        assert(extent_of(objects).bottom == objects[b].bottom || extent_of(objects).bottom
            == objects[last].bottom);
        assert(extent_of(objects).right == objects[r].right || extent_of(objects).right
            == objects[last].right);
        assert(extent_of(objects).top == objects[t].top || extent_of(objects).top
            == objects[last].top);
    } else {
        assert(extent_of(objects).left == objects[last].left);
        assert(extent_of(objects).bottom == objects[last].bottom);
        assert(extent_of(objects).right == objects[last].right);
        assert(extent_of(objects).top == objects[last].top);
    }
}

/// Places every object of `objects` by its bounds; an object without
/// bounds is placed at the zero rectangle.
pub fn position_objects<'a>(objects: &'a [PdfPageObject]) -> (positioned: Vec<
    PositionedObject<'a>,
>)
    ensures
        positioned@ == placed_all(objects@),
{
    let mut positioned: Vec<PositionedObject<'a>> = Vec::new();
    let mut i: usize = 0;
    while i < objects.len()
        invariant
            i <= objects.len(),
            positioned.len() == i,
            forall|k: int| 0 <= k < i ==> #[trigger] positioned[k] == placed(&objects@[k]),
        decreases objects.len() - i,
    {
        let object = &objects[i];
        let bounds = match object.bounds() {
            Some(bounds) => bounds,
            None => PdfRect::zero(),
        };
        positioned.push(
            PositionedObject {
                top: bounds.top,
                bottom: bounds.bottom,
                left: bounds.left,
                right: bounds.right,
                object,
            },
        );
        i = i + 1;
    }
    assert(positioned@ =~= placed_all(objects@));
    positioned
}

/// The extent of the group `objects`.
pub fn extent(objects: &Vec<PositionedObject>) -> (bounds: PdfRect)
    ensures
        bounds == extent_of(objects@),
{
    let mut bounds = PdfRect::zero();
    let mut i: usize = 0;
    assert(objects@.take(0) =~= Seq::empty());
    while i < objects.len()
        invariant
            i <= objects.len(),
            bounds == extent_of(objects@.take(i as int)),
        decreases objects.len() - i,
    {
        let object = &objects[i];
        proof {
            let next = objects@.take(i + 1);
            assert(next.drop_last() =~= objects@.take(i as int));
            assert(next.last() == *object);
        }
        if i == 0 {
            bounds = PdfRect::new(object.left, object.bottom, object.right, object.top);
        } else {
            bounds = PdfRect::new(
                bounds.left.min(object.left),
                bounds.bottom.min(object.bottom),
                bounds.right.max(object.right),
                bounds.top.max(object.top),
            );
        }
        i = i + 1;
    }
    assert(objects@.take(i as int) =~= objects@);
    bounds
}

} // verus!
