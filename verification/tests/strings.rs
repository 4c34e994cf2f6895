use pdf_paragraph::{
    PdfFont, PdfLine, PdfLineAlignment, PdfPageTextObject, PdfParagraph, PdfParagraphAlignment,
    PdfParagraphFragment, PdfParagraphOverflowBehaviour, PdfPoints, PdfStyledString,
};

fn pt(points: i32) -> PdfPoints {
    PdfPoints::from_points(points)
}

fn font(handle: u64, name: &str) -> PdfFont {
    PdfFont::new(handle, name.to_string(), false, false)
}

#[test]
fn a_font_gives_back_what_it_was_made_of() {
    let font = PdfFont::new(42, "Courier".to_string(), true, false);
    assert_eq!(font.get_handle(), 42);
    assert_eq!(font.name(), "Courier");
    assert!(font.is_all_caps());
    assert!(!font.is_small_caps());
    let copy = font.clone();
    assert_eq!(copy.get_handle(), 42);
    assert_eq!(copy.name(), "Courier");
    assert!(copy.is_all_caps());
    assert!(!copy.is_small_caps());
}

#[test]
fn a_styled_string_gives_back_what_it_was_made_of() {
    let courier = font(3, "Courier");
    let string = PdfStyledString::new("some text".to_string(), &courier, pt(11));
    assert_eq!(string.text(), "some text");
    assert_eq!(string.font_size(), pt(11));
    assert_eq!(string.font().get_handle(), 3);
    assert_eq!(string.font().name(), "Courier");
}

#[test]
fn a_styled_string_takes_text_and_style_from_a_text_object() {
    let object = PdfPageTextObject::new(
        "from object".to_string(),
        PdfFont::new(8, "Arial".to_string(), false, true),
        pt(9),
    );
    assert_eq!(object.text(), "from object");
    assert_eq!(object.unscaled_font_size(), pt(9));
    assert_eq!(object.font().get_handle(), 8);
    let string = PdfStyledString::from_text_object(&object);
    assert_eq!(string.text(), "from object");
    assert_eq!(string.font_size(), pt(9));
    assert_eq!(string.font().get_handle(), 8);
    assert_eq!(string.font().name(), "Arial");
    assert!(string.font().is_small_caps());
    assert!(!string.font().is_all_caps());
    assert!(string.does_match_object_styling(&object));
}

#[test]
fn a_styled_string_becomes_a_text_object_again() {
    let courier = font(3, "Courier");
    let string = PdfStyledString::new("round trip".to_string(), &courier, pt(11));
    let object = string.as_text_object();
    assert_eq!(object.text(), "round trip");
    assert_eq!(object.unscaled_font_size(), pt(11));
    assert_eq!(object.font().get_handle(), 3);
    assert_eq!(object.font().name(), "Courier");
    assert!(string.does_match_object_styling(&object));
}

#[test]
fn push_separates_unless_the_text_ends_with_the_separator() {
    let courier = font(3, "Courier");
    let mut string = PdfStyledString::new("Hello".to_string(), &courier, pt(11));
    string.push("world", " ");
    assert_eq!(string.text(), "Hello world");
    string.push("again", ", ");
    assert_eq!(string.text(), "Hello world, again");
    let mut spaced = PdfStyledString::new("Hello ".to_string(), &courier, pt(11));
    spaced.push("world", " ");
    assert_eq!(spaced.text(), "Hello world");
    let mut joined = PdfStyledString::new("ab".to_string(), &courier, pt(11));
    joined.push("cd", "");
    assert_eq!(joined.text(), "abcd");
    let mut empty = PdfStyledString::new(String::new(), &courier, pt(11));
    empty.push("first", " ");
    assert_eq!(empty.text(), " first");
    let mut short = PdfStyledString::new("-".to_string(), &courier, pt(11));
    short.push("x", "--");
    assert_eq!(short.text(), "---x");
}

#[test]
fn styles_match_by_size_handle_and_name() {
    let courier = font(3, "Courier");
    let same = font(3, "Courier");
    let other_name = font(3, "Courier-Bold");
    let other_handle = font(4, "Courier");
    let string = PdfStyledString::new("a".to_string(), &courier, pt(11));
    assert!(string.does_match_raw_styling(pt(11), &same));
    assert!(!string.does_match_raw_styling(pt(12), &same));
    assert!(!string.does_match_raw_styling(pt(11), &other_name));
    assert!(!string.does_match_raw_styling(pt(11), &other_handle));
    assert!(!string.does_match_raw_styling(PdfPoints::new(11_001), &same));
}

#[test]
fn styles_match_where_neither_font_has_a_name() {
    let nameless = font(5, "");
    let also_nameless = font(5, "");
    let named = font(5, "Named");
    let string = PdfStyledString::new("a".to_string(), &nameless, pt(11));
    assert!(string.does_match_raw_styling(pt(11), &also_nameless));
    assert!(!string.does_match_raw_styling(pt(11), &named));
    let named_string = PdfStyledString::new("a".to_string(), &named, pt(11));
    assert!(!named_string.does_match_raw_styling(pt(11), &nameless));
    assert!(!string.does_match_raw_styling(pt(11), &font(6, "")));
}

#[test]
fn caps_flags_do_not_tell_styles_apart() {
    let plain = PdfFont::new(3, "Courier".to_string(), false, false);
    let caps = PdfFont::new(3, "Courier".to_string(), true, true);
    let string = PdfStyledString::new("a".to_string(), &plain, pt(11));
    let other = PdfStyledString::new("b".to_string(), &caps, pt(11));
    assert!(string.does_match_string_styling(&other));
    assert!(other.does_match_string_styling(&string));
    let larger = PdfStyledString::new("b".to_string(), &caps, pt(12));
    assert!(!string.does_match_string_styling(&larger));
}

#[test]
fn a_dump_describes_each_fragment() {
    let courier = font(3, "Courier");
    let mut paragraph = PdfParagraph::empty(
        pt(100),
        PdfParagraphOverflowBehaviour::FixWidthExpandHeight,
        PdfParagraphAlignment::LeftAlign,
    );
    assert!(paragraph.d().is_empty());
    paragraph.push(PdfStyledString::new("words".to_string(), &courier, pt(11)));
    paragraph.push_line_break(PdfLineAlignment::Justify);
    paragraph.push_non_text_object(77);
    assert_eq!(
        paragraph.d(),
        vec![
            "words".to_string(),
            "line break".to_string(),
            "not a text object".to_string()
        ]
    );
}

fn line<'a>(
    alignment: PdfLineAlignment,
    bottom: i32,
    left: i32,
    width: i32,
    height: i32,
    fragments: Vec<PdfParagraphFragment<'a>>,
) -> PdfLine<'a> {
    PdfLine::new(alignment, pt(bottom), pt(left), pt(width), pt(height), fragments)
}

#[test]
fn lines_without_a_line_break_make_one_paragraph() {
    let courier = font(3, "Courier");
    let lines = vec![
        line(
            PdfLineAlignment::Center,
            40,
            10,
            80,
            12,
            vec![
                PdfParagraphFragment::StyledString(PdfStyledString::new(
                    "x".to_string(),
                    &courier,
                    pt(11),
                )),
                PdfParagraphFragment::NonTextObject(5),
            ],
        ),
        line(
            PdfLineAlignment::RightAlign,
            20,
            5,
            120,
            30,
            vec![
                PdfParagraphFragment::StyledString(PdfStyledString::new(
                    "y".to_string(),
                    &courier,
                    pt(11),
                )),
                PdfParagraphFragment::StyledString(PdfStyledString::new(
                    "z".to_string(),
                    &courier,
                    pt(11),
                )),
            ],
        ),
    ];
    let paragraphs = PdfParagraph::from_lines(lines);
    assert_eq!(paragraphs.len(), 1);
    let paragraph = &paragraphs[0];
    assert_eq!(paragraph.fragments().len(), 3);
    assert_eq!(paragraph.text_separated("|"), "x|y z");
    // The alignment is that of the first line; the frame holds both lines.
    assert_eq!(paragraph.alignment(), PdfParagraphAlignment::Center);
    assert_eq!(paragraph.top(), Some(pt(52)));
    assert_eq!(paragraph.left(), Some(pt(5)));
    assert_eq!(paragraph.maximum_width(), pt(120));
    assert_eq!(paragraph.maximum_height(), Some(pt(32)));
}

#[test]
fn runs_in_one_style_are_merged_across_lines() {
    let courier = font(3, "Courier");
    let lines = vec![
        line(
            PdfLineAlignment::LeftAlign,
            40,
            0,
            80,
            12,
            vec![PdfParagraphFragment::StyledString(PdfStyledString::new(
                "end of one line".to_string(),
                &courier,
                pt(11),
            ))],
        ),
        line(
            PdfLineAlignment::LeftAlign,
            20,
            0,
            80,
            12,
            vec![PdfParagraphFragment::StyledString(PdfStyledString::new(
                "start of the next".to_string(),
                &courier,
                pt(11),
            ))],
        ),
    ];
    let paragraphs = PdfParagraph::from_lines(lines);
    assert_eq!(paragraphs.len(), 1);
    assert_eq!(paragraphs[0].fragments().len(), 1);
    assert_eq!(paragraphs[0].text(), "end of one line start of the next");
}

#[test]
fn a_line_break_inside_a_line_cuts_it() {
    let courier = font(3, "Courier");
    let lines = vec![line(
        PdfLineAlignment::Justify,
        40,
        10,
        80,
        12,
        vec![
            PdfParagraphFragment::StyledString(PdfStyledString::new(
                "before".to_string(),
                &courier,
                pt(11),
            )),
            PdfParagraphFragment::LineBreak(PdfLineAlignment::Justify),
            PdfParagraphFragment::LineBreak(PdfLineAlignment::Justify),
            PdfParagraphFragment::StyledString(PdfStyledString::new(
                "after".to_string(),
                &courier,
                pt(11),
            )),
            PdfParagraphFragment::LineBreak(PdfLineAlignment::Justify),
        ],
    )];
    let paragraphs = PdfParagraph::from_lines(lines);
    assert_eq!(paragraphs.len(), 2);
    assert_eq!(paragraphs[0].text(), "before");
    assert_eq!(paragraphs[1].text(), "after");
    assert_eq!(paragraphs[0].alignment(), PdfParagraphAlignment::Justify);
    assert_eq!(paragraphs[1].alignment(), PdfParagraphAlignment::Justify);
    assert_eq!(paragraphs[1].top(), Some(pt(52)));
}

#[test]
fn a_line_of_unknown_alignment_gives_a_left_aligned_paragraph() {
    let courier = font(3, "Courier");
    let lines = vec![line(
        PdfLineAlignment::Unaligned,
        0,
        0,
        10,
        10,
        vec![PdfParagraphFragment::StyledString(PdfStyledString::new(
            "text".to_string(),
            &courier,
            pt(11),
        ))],
    )];
    let paragraphs = PdfParagraph::from_lines(lines);
    assert_eq!(paragraphs.len(), 1);
    assert_eq!(paragraphs[0].alignment(), PdfParagraphAlignment::LeftAlign);
}

#[test]
fn no_lines_give_no_paragraphs() {
    let paragraphs = PdfParagraph::from_lines(Vec::new());
    assert!(paragraphs.is_empty());
}
