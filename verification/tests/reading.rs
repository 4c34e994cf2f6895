use pdf_paragraph::line::assemble_lines;
use pdf_paragraph::position::position_objects;
use pdf_paragraph::reading_order::{
    comes_before, is_strictly_ordered, reading_order, sort_into_reading_order,
};
use pdf_paragraph::{
    PdfFont, PdfLineAlignment, PdfPageObject, PdfPageTextObject, PdfParagraphFragment,
    PdfPoints, PdfRect, PositionedObject,
};
use std::cmp::Ordering;

fn pt(points: i32) -> PdfPoints {
    PdfPoints::from_points(points)
}

fn object_at(handle: u64, left: i32, bottom: i32, right: i32, top: i32) -> PdfPageObject {
    PdfPageObject::new(
        handle,
        Some(PdfRect::new(pt(left), pt(bottom), pt(right), pt(top))),
        None,
    )
}

fn text_at(
    handle: u64,
    text: &str,
    left: i32,
    bottom: i32,
    right: i32,
    top: i32,
) -> PdfPageObject {
    PdfPageObject::new(
        handle,
        Some(PdfRect::new(pt(left), pt(bottom), pt(right), pt(top))),
        Some(PdfPageTextObject::new(
            text.to_string(),
            PdfFont::new(1, "Times".to_string(), false, false),
            pt(10),
        )),
    )
}

fn handles(objects: &Vec<PositionedObject>) -> Vec<u64> {
    objects
        .iter()
        .map(|positioned| positioned.object.get_object_handle())
        .collect()
}

#[test]
fn an_object_above_comes_before() {
    let upper = object_at(1, 50, 20, 90, 30);
    let lower = object_at(2, 0, 0, 40, 10);
    let objects = vec![upper, lower];
    let placed = position_objects(objects.as_slice());
    assert!(comes_before(&placed[0], &placed[1]));
    assert!(!comes_before(&placed[1], &placed[0]));
    assert_eq!(reading_order(&placed[0], &placed[1]), Ordering::Less);
    assert_eq!(reading_order(&placed[1], &placed[0]), Ordering::Greater);
}

#[test]
fn on_one_line_the_object_to_the_left_comes_before() {
    let objects = vec![object_at(1, 0, 0, 30, 10), object_at(2, 35, 2, 70, 12)];
    let placed = position_objects(objects.as_slice());
    assert!(comes_before(&placed[0], &placed[1]));
    assert!(!comes_before(&placed[1], &placed[0]));
}

#[test]
fn objects_that_overlap_on_one_line_come_before_neither() {
    let objects = vec![object_at(1, 0, 0, 30, 10), object_at(2, 30, 0, 70, 10)];
    let placed = position_objects(objects.as_slice());
    // The right edge of the first touches the left edge of the second.
    assert!(!comes_before(&placed[0], &placed[1]));
    assert!(!comes_before(&placed[1], &placed[0]));
    assert_eq!(reading_order(&placed[0], &placed[1]), Ordering::Greater);
    assert_eq!(reading_order(&placed[0], &placed[0]), Ordering::Greater);
}

#[test]
fn lines_that_touch_count_as_one_line() {
    // The top of the lower object equals the bottom of the upper one.
    let objects = vec![object_at(1, 50, 10, 90, 20), object_at(2, 0, 0, 40, 10)];
    let placed = position_objects(objects.as_slice());
    assert!(!comes_before(&placed[0], &placed[1]));
    assert!(comes_before(&placed[1], &placed[0]));
}

#[test]
fn a_tidy_page_is_strictly_ordered() {
    let objects = vec![
        object_at(4, 55, 0, 100, 10),
        object_at(2, 55, 20, 100, 30),
        object_at(3, 0, 0, 50, 10),
        object_at(1, 0, 20, 50, 30),
    ];
    let placed = position_objects(objects.as_slice());
    assert!(is_strictly_ordered(&placed));
    let none: Vec<PositionedObject> = Vec::new();
    assert!(is_strictly_ordered(&none));
}

#[test]
fn two_objects_in_one_place_are_not_strictly_ordered() {
    let objects = vec![object_at(1, 0, 0, 50, 10), object_at(2, 0, 0, 50, 10)];
    let placed = position_objects(objects.as_slice());
    assert!(!is_strictly_ordered(&placed));
}

#[test]
fn an_object_that_precedes_itself_is_not_strictly_ordered() {
    // The top lies below the bottom.
    let objects = vec![object_at(1, 0, 10, 50, 0)];
    let placed = position_objects(objects.as_slice());
    assert!(comes_before(&placed[0], &placed[0]));
    assert!(!is_strictly_ordered(&placed));
}

#[test]
fn objects_ranked_in_a_circle_are_not_strictly_ordered() {
    let objects = vec![
        object_at(1, 50, 10, 60, 20),
        object_at(2, 0, 0, 10, 9),
        object_at(3, 20, 5, 30, 15),
    ];
    let placed = position_objects(objects.as_slice());
    assert!(comes_before(&placed[0], &placed[1]));
    assert!(comes_before(&placed[1], &placed[2]));
    assert!(comes_before(&placed[2], &placed[0]));
    assert!(!comes_before(&placed[1], &placed[0]));
    assert!(!comes_before(&placed[2], &placed[1]));
    assert!(!comes_before(&placed[0], &placed[2]));
    assert!(!is_strictly_ordered(&placed));
    let sorted = sort_into_reading_order(placed);
    assert_eq!(handles(&sorted), vec![1, 2, 3]);
}

#[test]
fn a_tidy_page_is_sorted_top_to_bottom_and_left_to_right() {
    let objects = vec![
        object_at(6, 70, 0, 100, 10),
        object_at(4, 55, 20, 100, 30),
        object_at(1, 0, 40, 50, 50),
        object_at(5, 0, 0, 50, 10),
        object_at(3, 0, 20, 50, 30),
        object_at(2, 60, 40, 100, 50),
    ];
    let sorted = sort_into_reading_order(position_objects(objects.as_slice()));
    assert_eq!(handles(&sorted), vec![1, 2, 3, 4, 5, 6]);
}

#[test]
fn many_objects_are_sorted() {
    // Thirty lines of three objects each, given bottom line first and
    // right to left.
    let mut objects = Vec::new();
    for line in 0..30 {
        for column in (0..3).rev() {
            let handle = (29 - line) * 3 + column;
            objects.push(object_at(
                handle as u64,
                column * 100,
                line * 20,
                column * 100 + 90,
                line * 20 + 10,
            ));
        }
    }
    let sorted = sort_into_reading_order(position_objects(objects.as_slice()));
    let expected: Vec<u64> = (0..90).collect();
    assert_eq!(handles(&sorted), expected);
}

#[test]
fn an_untidy_page_stays_as_given() {
    let objects = vec![
        object_at(3, 0, 0, 50, 10),
        object_at(1, 0, 20, 50, 30),
        object_at(2, 40, 20, 90, 30),
    ];
    let sorted = sort_into_reading_order(position_objects(objects.as_slice()));
    assert_eq!(handles(&sorted), vec![3, 1, 2]);
}

#[test]
fn lines_are_assembled_with_their_edges() {
    let objects = vec![
        text_at(1, "a", 0, 20, 50, 30),
        text_at(2, "b", 55, 20, 100, 30),
        text_at(3, "c", 10, 0, 100, 10),
    ];
    let placed = position_objects(objects.as_slice());
    let lines = assemble_lines(&placed, pt(0), pt(100));
    assert_eq!(lines.len(), 3);

    assert_eq!(lines[0].alignment, PdfLineAlignment::Unaligned);
    assert!(lines[0].fragments.is_empty());
    assert_eq!(lines[0].width, pt(0));
    assert_eq!(lines[0].height, pt(0));

    assert_eq!(lines[1].alignment, PdfLineAlignment::LeftAlign);
    assert_eq!(lines[1].bottom, pt(20));
    assert_eq!(lines[1].left, pt(0));
    assert_eq!(lines[1].width, pt(100));
    assert_eq!(lines[1].height, pt(10));
    assert_eq!(lines[1].fragments.len(), 2);
    assert!(matches!(
        &lines[1].fragments[0],
        PdfParagraphFragment::LineBreak(PdfLineAlignment::Unaligned)
    ));
    assert!(matches!(
        &lines[1].fragments[1],
        PdfParagraphFragment::StyledString(string) if string.text() == "a b"
    ));

    assert_eq!(lines[2].alignment, PdfLineAlignment::RightAlign);
    assert_eq!(lines[2].bottom, pt(0));
    assert_eq!(lines[2].left, pt(10));
    assert_eq!(lines[2].width, pt(90));
    assert_eq!(lines[2].height, pt(10));
    assert_eq!(lines[2].fragments.len(), 2);
    assert!(matches!(
        &lines[2].fragments[0],
        PdfParagraphFragment::LineBreak(PdfLineAlignment::LeftAlign)
    ));
    assert!(matches!(
        &lines[2].fragments[1],
        PdfParagraphFragment::StyledString(string) if string.text() == "c"
    ));
}

#[test]
fn no_objects_are_assembled_into_one_empty_line() {
    let placed: Vec<PositionedObject> = Vec::new();
    let lines = assemble_lines(&placed, pt(0), pt(0));
    assert_eq!(lines.len(), 1);
    assert_eq!(lines[0].alignment, PdfLineAlignment::Unaligned);
    assert!(lines[0].fragments.is_empty());
}

#[test]
fn a_carriage_return_opens_no_line() {
    let objects = vec![
        text_at(1, "a", 0, 20, 50, 30),
        text_at(2, "b", 55, 20, 100, 30),
        text_at(3, "c", 0, 0, 50, 10),
    ];
    let placed = position_objects(objects.as_slice());
    let lines = assemble_lines(&placed, pt(0), pt(100));
    assert_eq!(lines.len(), 2);
    assert_eq!(lines[1].fragments.len(), 2);
    assert!(matches!(
        &lines[1].fragments[1],
        PdfParagraphFragment::StyledString(string) if string.text() == "a b c"
    ));
    // The line ends where the last object put into it ends.
    assert_eq!(lines[1].width, pt(50));
    assert_eq!(lines[1].bottom, pt(20));
}
