use pdf_paragraph::line::assemble_lines;
use pdf_paragraph::position::{extent, position_objects};
use pdf_paragraph::reading_order::sort_into_reading_order;
use pdf_paragraph::{
    PdfFont, PdfLineAlignment, PdfPageObject, PdfPageTextObject, PdfParagraph,
    PdfParagraphAlignment, PdfParagraphFragment, PdfParagraphOverflowBehaviour, PdfPoints,
    PdfRect, PdfStyledString,
};

fn pt(points: i32) -> PdfPoints {
    PdfPoints::from_points(points)
}

fn rect(left: i32, bottom: i32, right: i32, top: i32) -> PdfRect {
    PdfRect::new(pt(left), pt(bottom), pt(right), pt(top))
}

fn helvetica() -> PdfFont {
    PdfFont::new(7, "Helvetica".to_string(), false, false)
}

fn text_at(handle: u64, text: &str, size: i32, bounds: PdfRect) -> PdfPageObject {
    PdfPageObject::new(
        handle,
        Some(bounds),
        Some(PdfPageTextObject::new(text.to_string(), helvetica(), pt(size))),
    )
}

fn image_at(handle: u64, bounds: PdfRect) -> PdfPageObject {
    PdfPageObject::new(handle, Some(bounds), None)
}

fn styled_texts(paragraph: &PdfParagraph) -> Vec<String> {
    let mut texts = Vec::new();
    for fragment in paragraph.fragments().iter() {
        if let PdfParagraphFragment::StyledString(string) = fragment {
            texts.push(string.text().to_string());
        }
    }
    texts
}

#[test]
fn no_objects_give_no_paragraphs() {
    let objects: Vec<PdfPageObject> = Vec::new();
    let paragraphs = PdfParagraph::from_objects(objects.as_slice());
    assert!(paragraphs.is_empty());
}

#[test]
fn single_text_object_gives_one_paragraph_with_one_fragment() {
    let objects = vec![text_at(1, "Hello", 12, rect(0, 0, 30, 10))];
    let paragraphs = PdfParagraph::from_objects(objects.as_slice());
    assert_eq!(paragraphs.len(), 1);
    assert_eq!(paragraphs[0].fragments().len(), 1);
    assert_eq!(paragraphs[0].text(), "Hello");
    assert!(!paragraphs[0].is_empty());
    // The only line touches both edges of the group.
    assert_eq!(paragraphs[0].alignment(), PdfParagraphAlignment::Justify);
    assert_eq!(paragraphs[0].top(), Some(pt(10)));
    assert_eq!(paragraphs[0].left(), Some(pt(0)));
    assert_eq!(paragraphs[0].maximum_width(), pt(30));
    assert_eq!(paragraphs[0].maximum_height(), Some(pt(10)));
    assert_eq!(
        paragraphs[0].overflow(),
        PdfParagraphOverflowBehaviour::FixWidthExpandHeight
    );
}

#[test]
fn two_objects_on_one_line_in_one_style_are_merged() {
    let objects = vec![
        text_at(1, "Hello", 12, rect(0, 0, 30, 10)),
        text_at(2, "world", 12, rect(35, 0, 70, 10)),
    ];
    let paragraphs = PdfParagraph::from_objects(objects.as_slice());
    assert_eq!(paragraphs.len(), 1);
    assert_eq!(paragraphs[0].text(), "Hello world");
    assert_eq!(styled_texts(&paragraphs[0]), vec!["Hello world".to_string()]);
    assert_eq!(paragraphs[0].alignment(), PdfParagraphAlignment::LeftAlign);
    assert_eq!(paragraphs[0].maximum_width(), pt(70));
}

#[test]
fn two_objects_on_one_line_in_different_sizes_stay_apart() {
    let objects = vec![
        text_at(1, "Hello", 12, rect(0, 0, 30, 10)),
        text_at(2, "world", 14, rect(35, 0, 70, 10)),
    ];
    let paragraphs = PdfParagraph::from_objects(objects.as_slice());
    assert_eq!(paragraphs.len(), 1);
    assert_eq!(
        styled_texts(&paragraphs[0]),
        vec!["Hello".to_string(), "world".to_string()]
    );
    assert_eq!(paragraphs[0].text(), "Helloworld");
    assert_eq!(paragraphs[0].text_separated(" "), "Hello world");
}

#[test]
fn two_lines_with_equal_edges_are_one_paragraph() {
    let objects = vec![
        text_at(1, "a", 12, rect(0, 20, 50, 30)),
        text_at(2, "b", 12, rect(55, 20, 100, 30)),
        text_at(3, "c", 12, rect(0, 0, 50, 10)),
        text_at(4, "d", 12, rect(55, 0, 100, 10)),
    ];
    let paragraphs = PdfParagraph::from_objects(objects.as_slice());
    assert_eq!(paragraphs.len(), 1);
    // The second line begins flush left under the first and no further
    // down than one line height: a carriage return, no new paragraph.
    assert_eq!(paragraphs[0].text(), "a b c d");
    assert_eq!(styled_texts(&paragraphs[0]).len(), 1);
    assert_eq!(paragraphs[0].alignment(), PdfParagraphAlignment::LeftAlign);
    assert_eq!(paragraphs[0].top(), Some(pt(30)));
    assert_eq!(paragraphs[0].left(), Some(pt(0)));
    assert_eq!(paragraphs[0].maximum_width(), pt(100));
}

#[test]
fn objects_given_out_of_order_are_read_in_reading_order() {
    let objects = vec![
        text_at(4, "d", 12, rect(55, 0, 100, 10)),
        text_at(2, "b", 12, rect(55, 20, 100, 30)),
        text_at(3, "c", 12, rect(0, 0, 50, 10)),
        text_at(1, "a", 12, rect(0, 20, 50, 30)),
    ];
    let paragraphs = PdfParagraph::from_objects(objects.as_slice());
    assert_eq!(paragraphs.len(), 1);
    assert_eq!(paragraphs[0].text(), "a b c d");
}

#[test]
fn a_line_with_a_shifted_left_edge_begins_a_paragraph() {
    let objects = vec![
        text_at(1, "a", 12, rect(0, 20, 50, 30)),
        text_at(2, "b", 12, rect(55, 20, 100, 30)),
        text_at(3, "c", 12, rect(10, 0, 100, 10)),
    ];
    let paragraphs = PdfParagraph::from_objects(objects.as_slice());
    assert_eq!(paragraphs.len(), 2);
    assert_eq!(paragraphs[0].text(), "a b");
    assert_eq!(paragraphs[0].alignment(), PdfParagraphAlignment::LeftAlign);
    assert_eq!(paragraphs[1].text(), "c");
    assert_eq!(paragraphs[1].alignment(), PdfParagraphAlignment::RightAlign);
    assert_eq!(paragraphs[1].left(), Some(pt(10)));
    assert_eq!(paragraphs[1].top(), Some(pt(10)));
    assert_eq!(paragraphs[1].maximum_width(), pt(90));
}

#[test]
fn a_gap_of_more_than_one_line_height_begins_a_paragraph() {
    let objects = vec![
        text_at(1, "a", 12, rect(0, 20, 50, 30)),
        text_at(2, "b", 12, rect(55, 20, 100, 30)),
        text_at(3, "c", 12, rect(0, 0, 50, 5)),
    ];
    let paragraphs = PdfParagraph::from_objects(objects.as_slice());
    assert_eq!(paragraphs.len(), 2);
    assert_eq!(paragraphs[0].text(), "a b");
    assert_eq!(paragraphs[1].text(), "c");
    // The alignment did not change: the gap alone cut the paragraph.
    assert_eq!(paragraphs[0].alignment(), PdfParagraphAlignment::LeftAlign);
    assert_eq!(paragraphs[1].alignment(), PdfParagraphAlignment::LeftAlign);
    assert_eq!(paragraphs[1].maximum_height(), Some(pt(5)));
}

#[test]
fn a_gap_of_exactly_one_line_height_begins_no_paragraph() {
    let objects = vec![
        text_at(1, "a", 12, rect(0, 20, 50, 30)),
        text_at(2, "b", 12, rect(55, 20, 100, 30)),
        text_at(3, "c", 12, rect(0, 0, 50, 10)),
    ];
    let paragraphs = PdfParagraph::from_objects(objects.as_slice());
    assert_eq!(paragraphs.len(), 1);
    assert_eq!(paragraphs[0].text(), "a b c");
}

#[test]
fn two_objects_far_apart_with_one_alignment_are_two_paragraphs() {
    let objects = vec![
        text_at(1, "upper", 12, rect(10, 20, 100, 30)),
        text_at(2, "lower", 12, rect(0, 0, 100, 5)),
    ];
    let paragraphs = PdfParagraph::from_objects(objects.as_slice());
    assert_eq!(paragraphs.len(), 2);
    assert_eq!(paragraphs[0].text(), "upper");
    assert_eq!(paragraphs[1].text(), "lower");
    assert_eq!(paragraphs[0].alignment(), PdfParagraphAlignment::RightAlign);
    assert_eq!(paragraphs[1].alignment(), PdfParagraphAlignment::RightAlign);
}

#[test]
fn an_object_below_that_does_not_jump_left_begins_no_line() {
    let objects = vec![
        text_at(1, "upper", 12, rect(0, 20, 100, 30)),
        text_at(2, "lower", 12, rect(0, 0, 100, 5)),
    ];
    let paragraphs = PdfParagraph::from_objects(objects.as_slice());
    assert_eq!(paragraphs.len(), 1);
    assert_eq!(paragraphs[0].text(), "upper lower");
}

#[test]
fn two_objects_with_changed_alignment_are_two_paragraphs() {
    let objects = vec![
        text_at(1, "upper", 12, rect(10, 20, 100, 30)),
        text_at(2, "lower", 12, rect(0, 0, 50, 10)),
    ];
    let paragraphs = PdfParagraph::from_objects(objects.as_slice());
    assert_eq!(paragraphs.len(), 2);
    assert_eq!(paragraphs[0].alignment(), PdfParagraphAlignment::RightAlign);
    assert_eq!(paragraphs[1].alignment(), PdfParagraphAlignment::Center);
}

#[test]
fn a_centred_line_under_a_left_aligned_line_begins_a_paragraph() {
    let objects = vec![
        text_at(1, "a", 12, rect(0, 20, 50, 30)),
        text_at(2, "b", 12, rect(55, 20, 100, 30)),
        text_at(3, "c", 12, rect(20, 0, 80, 10)),
    ];
    let paragraphs = PdfParagraph::from_objects(objects.as_slice());
    assert_eq!(paragraphs.len(), 2);
    assert_eq!(paragraphs[0].alignment(), PdfParagraphAlignment::LeftAlign);
    assert_eq!(paragraphs[1].alignment(), PdfParagraphAlignment::Center);
    assert_eq!(paragraphs[1].text(), "c");
}

#[test]
fn an_object_that_is_not_text_keeps_two_runs_apart() {
    let objects = vec![
        text_at(1, "left", 12, rect(0, 0, 30, 10)),
        image_at(2, rect(35, 0, 50, 10)),
        text_at(3, "right", 12, rect(55, 0, 100, 10)),
    ];
    let paragraphs = PdfParagraph::from_objects(objects.as_slice());
    assert_eq!(paragraphs.len(), 1);
    let fragments = paragraphs[0].fragments();
    assert_eq!(fragments.len(), 3);
    assert!(matches!(&fragments[0], PdfParagraphFragment::StyledString(s) if s.text() == "left"));
    assert!(matches!(&fragments[1], PdfParagraphFragment::NonTextObject(2)));
    assert!(matches!(&fragments[2], PdfParagraphFragment::StyledString(s) if s.text() == "right"));
    assert_eq!(paragraphs[0].text(), "leftright");
    assert_eq!(paragraphs[0].text_separated("|"), "left|right");
}

#[test]
fn an_object_without_bounds_is_placed_at_zero() {
    let objects = vec![
        text_at(1, "placed", 12, rect(5, 20, 60, 30)),
        PdfPageObject::new(
            2,
            None,
            Some(PdfPageTextObject::new("unplaced".to_string(), helvetica(), pt(12))),
        ),
    ];
    let paragraphs = PdfParagraph::from_objects(objects.as_slice());
    // The object at zero lies below and to the left of the other one.
    assert_eq!(paragraphs.len(), 2);
    assert_eq!(paragraphs[0].text(), "placed");
    assert_eq!(paragraphs[1].text(), "unplaced");
    assert_eq!(paragraphs[1].left(), Some(pt(0)));
    assert_eq!(paragraphs[1].top(), Some(pt(0)));
}

#[test]
fn objects_that_reading_order_cannot_rank_stay_as_given() {
    // The two objects cover each other: neither comes before the other.
    let objects = vec![
        text_at(1, "second", 12, rect(0, 0, 50, 10)),
        text_at(2, "first", 12, rect(0, 0, 50, 10)),
    ];
    let paragraphs = PdfParagraph::from_objects(objects.as_slice());
    assert_eq!(paragraphs.len(), 1);
    assert_eq!(paragraphs[0].text(), "second first");
}

#[test]
fn one_pair_that_cannot_be_ranked_leaves_all_objects_as_given() {
    let objects = vec![
        text_at(3, "below", 12, rect(0, 0, 50, 10)),
        text_at(1, "x", 12, rect(0, 20, 50, 30)),
        text_at(2, "y", 12, rect(40, 20, 90, 30)),
    ];
    let paragraphs = PdfParagraph::from_objects(objects.as_slice());
    let mut all = String::new();
    for paragraph in paragraphs.iter() {
        all.push_str(&paragraph.text());
        all.push('/');
    }
    assert_eq!(all, "below x y/");
}

#[test]
fn push_merges_strings_in_one_style() {
    let font = helvetica();
    let mut paragraph = PdfParagraph::empty(
        pt(200),
        PdfParagraphOverflowBehaviour::FixWidthExpandHeight,
        PdfParagraphAlignment::LeftAlign,
    );
    assert!(paragraph.is_empty());
    paragraph.push(PdfStyledString::new("one".to_string(), &font, pt(12)));
    paragraph.push(PdfStyledString::new("two".to_string(), &font, pt(12)));
    assert_eq!(paragraph.fragments().len(), 1);
    assert_eq!(paragraph.text(), "one two");
    paragraph.push(PdfStyledString::new("three".to_string(), &font, pt(14)));
    assert_eq!(paragraph.fragments().len(), 2);
    assert_eq!(
        styled_texts(&paragraph),
        vec!["one two".to_string(), "three".to_string()]
    );
    assert!(!paragraph.is_empty());
}

#[test]
fn push_adds_no_second_space() {
    let font = helvetica();
    let mut paragraph = PdfParagraph::empty(
        pt(200),
        PdfParagraphOverflowBehaviour::Clip,
        PdfParagraphAlignment::Center,
    );
    paragraph.push(PdfStyledString::new("one ".to_string(), &font, pt(12)));
    paragraph.push(PdfStyledString::new("two".to_string(), &font, pt(12)));
    assert_eq!(paragraph.text(), "one two");
}

#[test]
fn text_puts_a_line_feed_for_a_line_break() {
    let font = helvetica();
    let mut paragraph = PdfParagraph::empty(
        pt(200),
        PdfParagraphOverflowBehaviour::FixWidthExpandHeight,
        PdfParagraphAlignment::LeftAlign,
    );
    paragraph.push(PdfStyledString::new("first".to_string(), &font, pt(12)));
    paragraph.push_line_break(PdfLineAlignment::LeftAlign);
    paragraph.push(PdfStyledString::new("second".to_string(), &font, pt(12)));
    assert_eq!(paragraph.fragments().len(), 3);
    assert_eq!(paragraph.text(), "first\nsecond");
    assert_eq!(paragraph.text_separated("|"), "first|second");
}

#[test]
fn text_skips_objects_that_are_not_text() {
    let font = helvetica();
    let mut paragraph = PdfParagraph::empty(
        pt(200),
        PdfParagraphOverflowBehaviour::FixWidthExpandHeight,
        PdfParagraphAlignment::LeftAlign,
    );
    paragraph.push_non_text_object(9);
    paragraph.push(PdfStyledString::new("a".to_string(), &font, pt(12)));
    paragraph.push_non_text_object(10);
    paragraph.push(PdfStyledString::new("b".to_string(), &font, pt(12)));
    paragraph.push_line_break(PdfLineAlignment::Center);
    assert_eq!(paragraph.fragments().len(), 5);
    assert_eq!(paragraph.text(), "ab\n");
    assert_eq!(paragraph.text_separated(", "), "a, b");
}

#[test]
fn text_of_an_empty_paragraph_is_empty() {
    let paragraph = PdfParagraph::empty(
        pt(200),
        PdfParagraphOverflowBehaviour::FixHeightExpandWidth,
        PdfParagraphAlignment::ForceJustify,
    );
    assert_eq!(paragraph.text(), "");
    assert_eq!(paragraph.text_separated("|"), "");
    assert_eq!(paragraph.alignment(), PdfParagraphAlignment::ForceJustify);
    assert_eq!(
        paragraph.overflow(),
        PdfParagraphOverflowBehaviour::FixHeightExpandWidth
    );
    assert_eq!(paragraph.top(), None);
    assert_eq!(paragraph.left(), None);
    assert_eq!(paragraph.maximum_height(), None);
}

#[test]
fn maximum_width_and_height_can_be_set() {
    let mut paragraph = PdfParagraph::empty(
        pt(200),
        PdfParagraphOverflowBehaviour::FixWidthExpandHeight,
        PdfParagraphAlignment::Justify,
    );
    assert_eq!(paragraph.maximum_width(), pt(200));
    paragraph.set_maximum_width(pt(150));
    assert_eq!(paragraph.maximum_width(), pt(150));
    assert_eq!(paragraph.maximum_height(), None);
    paragraph.set_maximum_height(pt(80));
    assert_eq!(paragraph.maximum_height(), Some(pt(80)));
    assert_eq!(paragraph.maximum_width(), pt(150));
}

#[test]
fn a_merged_run_keeps_the_style_of_its_first_object() {
    let first = PdfPageObject::new(
        1,
        Some(rect(0, 0, 30, 10)),
        Some(PdfPageTextObject::new(
            "plain".to_string(),
            PdfFont::new(7, "Helvetica".to_string(), false, false),
            pt(12),
        )),
    );
    let second = PdfPageObject::new(
        2,
        Some(rect(35, 0, 70, 10)),
        Some(PdfPageTextObject::new(
            "capitals".to_string(),
            PdfFont::new(7, "Helvetica".to_string(), true, true),
            pt(12),
        )),
    );
    let objects = vec![first, second];
    let paragraphs = PdfParagraph::from_objects(objects.as_slice());
    assert_eq!(paragraphs.len(), 1);
    let fragments = paragraphs[0].fragments();
    assert_eq!(fragments.len(), 1);
    match &fragments[0] {
        PdfParagraphFragment::StyledString(string) => {
            assert_eq!(string.text(), "plain capitals");
            assert_eq!(string.font().get_handle(), 7);
            assert_eq!(string.font().name(), "Helvetica");
            assert_eq!(string.font_size(), pt(12));
            assert!(!string.font().is_all_caps());
            assert!(!string.font().is_small_caps());
        }
        _ => panic!("the fragment is no styled string"),
    }
}

#[test]
fn every_text_goes_into_exactly_one_fragment() {
    let objects = vec![
        text_at(9, "nine", 12, rect(0, 0, 40, 10)),
        text_at(5, "five", 14, rect(60, 40, 100, 50)),
        image_at(6, rect(0, 20, 30, 30)),
        text_at(8, "eight", 12, rect(40, 20, 100, 30)),
        text_at(4, "four", 12, rect(0, 40, 50, 50)),
        text_at(7, "seven", 12, rect(32, 20, 38, 30)),
    ];
    let paragraphs = PdfParagraph::from_objects(objects.as_slice());
    let mut all = Vec::new();
    for paragraph in paragraphs.iter() {
        assert!(!paragraph.is_empty());
        let fragments = paragraph.fragments();
        for index in 0..fragments.len() {
            if let PdfParagraphFragment::StyledString(string) = &fragments[index] {
                all.push(string.text().to_string());
                // No neighbour is a run in a matching style.
                if index + 1 < fragments.len() {
                    if let PdfParagraphFragment::StyledString(next) = &fragments[index + 1] {
                        assert!(!string.does_match_string_styling(next));
                    }
                }
            }
        }
    }
    assert_eq!(all.join(" "), "four five seven eight nine");
}

#[test]
fn a_paragraph_is_aligned_as_its_line_is() {
    let objects = vec![
        text_at(1, "a", 12, rect(50, 40, 100, 50)),
        text_at(2, "b", 12, rect(30, 20, 70, 30)),
        text_at(3, "c", 12, rect(20, 0, 70, 10)),
    ];
    let paragraphs = PdfParagraph::from_objects(objects.as_slice());
    let sorted = sort_into_reading_order(position_objects(objects.as_slice()));
    let bounds = extent(&sorted);
    let lines = assemble_lines(&sorted, bounds.left, bounds.right);
    assert_eq!(lines.len(), paragraphs.len() + 1);
    assert_eq!(paragraphs.len(), 3);
    assert_eq!(lines[1].alignment, PdfLineAlignment::RightAlign);
    assert_eq!(paragraphs[0].alignment(), PdfParagraphAlignment::RightAlign);
    assert_eq!(lines[2].alignment, PdfLineAlignment::Center);
    assert_eq!(paragraphs[1].alignment(), PdfParagraphAlignment::Center);
    assert_eq!(lines[3].alignment, PdfLineAlignment::RightAlign);
    assert_eq!(paragraphs[2].alignment(), PdfParagraphAlignment::RightAlign);
    for index in 0..paragraphs.len() {
        assert_eq!(
            paragraphs[index].fragments().len() + 1,
            lines[index + 1].fragments.len()
        );
        assert_eq!(paragraphs[index].left(), Some(lines[index + 1].left));
        assert_eq!(paragraphs[index].maximum_width(), lines[index + 1].width);
    }
}
