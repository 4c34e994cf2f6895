use pdf_paragraph::alignment::guess_line_alignment;
use pdf_paragraph::position::{extent, position_objects};
use pdf_paragraph::{PdfLineAlignment, PdfPageObject, PdfPoints, PdfRect, PositionedObject};

fn pt(points: i32) -> PdfPoints {
    PdfPoints::from_points(points)
}

fn bare(handle: u64, bounds: Option<PdfRect>) -> PdfPageObject {
    PdfPageObject::new(handle, bounds, None)
}

#[test]
fn points_are_held_in_thousandths() {
    assert_eq!(PdfPoints::from_points(3).value, 3000);
    assert_eq!(PdfPoints::from_points(-7).value, -7000);
    assert_eq!(PdfPoints::new(1234).value, 1234);
    assert_eq!(PdfPoints::zero().value, 0);
    assert_eq!(PdfPoints::from_points(i32::MAX).value, 2_147_483_647_000);
    assert_eq!(PdfPoints::from_points(i32::MIN).value, -2_147_483_648_000);
}

#[test]
fn differences_and_sums_are_exact_within_range() {
    assert_eq!(pt(70).minus(pt(35)), pt(35));
    assert_eq!(pt(10).minus(pt(35)), pt(-25));
    assert_eq!(pt(20).plus(pt(10)), pt(30));
    assert_eq!(pt(-20).plus(pt(5)), pt(-15));
}

#[test]
fn differences_and_sums_saturate_at_the_ends_of_the_range() {
    let most = PdfPoints::new(i64::MAX);
    let least = PdfPoints::new(i64::MIN);
    assert_eq!(most.minus(PdfPoints::new(-1)), most);
    assert_eq!(least.minus(PdfPoints::new(1)), least);
    assert_eq!(most.plus(PdfPoints::new(1)), most);
    assert_eq!(least.plus(PdfPoints::new(-1)), least);
    assert_eq!(least.minus(most), least);
    assert_eq!(most.minus(least), most);
    assert_eq!(PdfPoints::new(0).minus(least), most);
}

#[test]
fn larger_and_smaller_of_two_lengths() {
    assert_eq!(pt(3).max(pt(5)), pt(5));
    assert_eq!(pt(5).max(pt(3)), pt(5));
    assert_eq!(pt(3).min(pt(5)), pt(3));
    assert_eq!(pt(-3).min(pt(-5)), pt(-5));
    assert_eq!(pt(4).max(pt(4)), pt(4));
}

#[test]
fn lengths_are_near_below_two_points_apart() {
    assert!(PdfPoints::new(0).is_near(PdfPoints::new(1999)));
    assert!(PdfPoints::new(0).is_near(PdfPoints::new(-1999)));
    assert!(!PdfPoints::new(0).is_near(PdfPoints::new(2000)));
    assert!(!PdfPoints::new(0).is_near(PdfPoints::new(-2000)));
    assert!(pt(100).is_near(pt(101)));
    assert!(!pt(100).is_near(pt(102)));
    assert!(pt(5).is_near(pt(5)));
    assert!(!PdfPoints::new(i64::MIN).is_near(PdfPoints::new(i64::MAX)));
    assert!(!PdfPoints::new(i64::MAX).is_near(PdfPoints::new(i64::MIN)));
}

#[test]
fn width_and_height_of_a_rectangle() {
    let rect = PdfRect::new(pt(10), pt(20), pt(70), pt(32));
    assert_eq!(rect.left, pt(10));
    assert_eq!(rect.bottom, pt(20));
    assert_eq!(rect.right, pt(70));
    assert_eq!(rect.top, pt(32));
    assert_eq!(rect.width(), pt(60));
    assert_eq!(rect.height(), pt(12));
    assert_eq!(PdfRect::zero(), PdfRect::new(pt(0), pt(0), pt(0), pt(0)));
}

#[test]
fn alignment_against_the_previous_line() {
    let previous_left = Some(pt(10));
    let previous_right = Some(pt(200));
    let guess = |left: i32, right: i32| {
        guess_line_alignment(previous_left, previous_right, pt(left), pt(right), pt(0), pt(0))
    };
    assert_eq!(guess(10, 200), PdfLineAlignment::Justify);
    assert_eq!(guess(11, 199), PdfLineAlignment::Justify);
    assert_eq!(guess(10, 150), PdfLineAlignment::LeftAlign);
    assert_eq!(guess(60, 200), PdfLineAlignment::RightAlign);
    assert_eq!(guess(40, 170), PdfLineAlignment::Center);
    assert_eq!(guess(12, 198), PdfLineAlignment::Center);
}

#[test]
fn alignment_against_the_group_where_no_line_came_before() {
    assert_eq!(
        guess_line_alignment(None, None, pt(0), pt(30), pt(0), pt(70)),
        PdfLineAlignment::LeftAlign
    );
    assert_eq!(
        guess_line_alignment(None, None, pt(0), pt(70), pt(0), pt(70)),
        PdfLineAlignment::Justify
    );
    // One known edge of a previous line is not enough to align against it.
    assert_eq!(
        guess_line_alignment(Some(pt(40)), None, pt(40), pt(70), pt(0), pt(70)),
        PdfLineAlignment::RightAlign
    );
    assert_eq!(
        guess_line_alignment(None, Some(pt(30)), pt(20), pt(30), pt(0), pt(70)),
        PdfLineAlignment::Center
    );
}

#[test]
fn objects_are_placed_by_their_bounds() {
    let objects = vec![
        bare(1, Some(PdfRect::new(pt(5), pt(20), pt(60), pt(30)))),
        bare(2, None),
    ];
    let positioned = position_objects(objects.as_slice());
    assert_eq!(positioned.len(), 2);
    assert_eq!(positioned[0].left, pt(5));
    assert_eq!(positioned[0].bottom, pt(20));
    assert_eq!(positioned[0].right, pt(60));
    assert_eq!(positioned[0].top, pt(30));
    assert_eq!(positioned[0].object.get_object_handle(), 1);
    assert_eq!(positioned[1].left, pt(0));
    assert_eq!(positioned[1].bottom, pt(0));
    assert_eq!(positioned[1].right, pt(0));
    assert_eq!(positioned[1].top, pt(0));
    assert_eq!(positioned[1].object.get_object_handle(), 2);
}

#[test]
fn extent_reaches_all_objects() {
    let objects = vec![
        bare(1, Some(PdfRect::new(pt(5), pt(20), pt(60), pt(30)))),
        bare(2, Some(PdfRect::new(pt(-3), pt(25), pt(40), pt(45)))),
        bare(3, Some(PdfRect::new(pt(10), pt(1), pt(90), pt(12)))),
    ];
    let positioned = position_objects(objects.as_slice());
    assert_eq!(
        extent(&positioned),
        PdfRect::new(pt(-3), pt(1), pt(90), pt(45))
    );
}

#[test]
fn extent_of_one_object_is_its_bounds() {
    let objects = vec![bare(1, Some(PdfRect::new(pt(5), pt(20), pt(60), pt(30))))];
    let positioned = position_objects(objects.as_slice());
    assert_eq!(
        extent(&positioned),
        PdfRect::new(pt(5), pt(20), pt(60), pt(30))
    );
}

#[test]
fn extent_of_no_objects_is_zero() {
    let positioned: Vec<PositionedObject> = Vec::new();
    assert_eq!(extent(&positioned), PdfRect::zero());
}
