use xmark::events::{stringify_events, MdEvent, MdEventKind, MdTag};
use xmark::summary::{parse_summary, Link, SectionNumber, SummaryParser};

fn number_of(link: &Link) -> Vec<u32> {
    link.section_number
        .as_ref()
        .expect("All numbered chapters have numbers")
        .0
        .clone()
}

#[test]
fn section_number_has_correct_dotted_representation() {
    let inputs = vec![
        (vec![0], "0."),
        (vec![1, 3], "1.3."),
        (vec![1, 2, 3], "1.2.3."),
    ];

    for (input, should_be) in inputs {
        let section_number = SectionNumber(input).to_string();
        assert_eq!(section_number, should_be);
    }
}

#[test]
fn empty_section_number_displays_as_zero() {
    assert_eq!(SectionNumber(Vec::new()).to_string(), "0");
}

#[test]
fn parse_initial_title() {
    let src = "# Summary";
    let should_be = String::from("Summary");

    let mut parser = SummaryParser::new(src);
    let got = parser.parse_title().unwrap();

    assert_eq!(got, should_be);
}

#[test]
fn parse_title_with_styling() {
    let src = "# My **Awesome** Summary";
    let should_be = String::from("My Awesome Summary");

    let mut parser = SummaryParser::new(src);
    let got = parser.parse_title().unwrap();

    assert_eq!(got, should_be);
}

#[test]
fn missing_title_is_an_error() {
    let src = "[First](./first.md)\n";
    let got = parse_summary(src);
    assert!(got.is_err());
    assert_eq!(got.unwrap_err().message, "Could not parse title");
}

#[test]
fn convert_markdown_events_to_a_string() {
    // The events of "Hello *World*, `this` is some text [and a link](./path/to/link)".
    let should_be = "Hello World, this is some text and a link";

    let events = vec![
        MdEventKind::Start(MdTag::Paragraph),
        MdEventKind::Text(String::from("Hello ")),
        MdEventKind::Start(MdTag::Emphasis),
        MdEventKind::Text(String::from("World")),
        MdEventKind::End(MdTag::Emphasis),
        MdEventKind::Text(String::from(", ")),
        MdEventKind::Code(String::from("this")),
        MdEventKind::Text(String::from(" is some text ")),
        MdEventKind::Start(MdTag::Link(String::from("./path/to/link"))),
        MdEventKind::Text(String::from("and a link")),
        MdEventKind::End(MdTag::Link(String::from("./path/to/link"))),
        MdEventKind::End(MdTag::Paragraph),
    ];
    let got = stringify_events(events);

    assert_eq!(got, should_be);
}

#[test]
fn parse_some_prefix_items() {
    let src = "[First](./first.md)\n[Second](./second.md)\n";
    let mut parser = SummaryParser::new(src);

    let got = parser.parse_affix(true).unwrap();

    assert_eq!(got.len(), 2);
    assert_eq!(got[0].name, "First");
    assert_eq!(got[0].location.as_deref(), Some("./first.md"));
    assert_eq!(got[1].name, "Second");
    assert_eq!(got[1].location.as_deref(), Some("./second.md"));
}

#[test]
fn suffix_items_cannot_be_followed_by_a_list() {
    let src = "[First](./first.md)\n- [Second](./second.md)\n";
    let mut parser = SummaryParser::new(src);

    let got = parser.parse_affix(false);

    assert!(got.is_err());
    assert_eq!(
        got.unwrap_err().message,
        "Suffix chapters cannot be followed by a list"
    );
}

#[test]
fn prefix_items_may_be_followed_by_a_list() {
    let src = "# Summary\n[First](./first.md)\n\n- [Second](./second.md)\n";
    let got = parse_summary(src).unwrap();

    assert_eq!(got.prefix_chapters.len(), 1);
    assert_eq!(got.prefix_chapters[0].name, "First");
    assert_eq!(got.numbered_chapters.len(), 1);
    assert_eq!(got.numbered_chapters[0].chapter.name, "Second");
}

#[test]
fn parse_a_link() {
    let src = "[First](./first.md)";

    let mut parser = SummaryParser::new(src);
    let _ = parser.next_event(); // Discard opening paragraph

    let href = match parser.next_event() {
        Some(MdEvent { kind: MdEventKind::Start(MdTag::Link(href)), .. }) => href,
        other => panic!("Unreachable, {:?}", other),
    };

    let got = parser.parse_link(href).unwrap();
    assert_eq!(got.chapter.name, "First");
    assert_eq!(got.chapter.location.as_deref(), Some("./first.md"));
    assert!(got.section_number.is_none());
    assert!(got.nested_items.is_empty());
}

#[test]
fn parse_a_numbered_chapter() {
    let src = "- [First](./first.md)\n";

    let mut parser = SummaryParser::new(src);
    let got = parser
        .parse_numbered(&mut 0, &mut SectionNumber::default())
        .unwrap();

    assert_eq!(got.len(), 1);
    assert_eq!(got[0].chapter.name, "First");
    assert_eq!(got[0].chapter.location.as_deref(), Some("./first.md"));
    assert_eq!(number_of(&got[0]), vec![1]);
}

#[test]
fn parse_nested_numbered_chapters() {
    let src = "- [First](./first.md)\n  - [Nested](./nested.md)\n- [Second](./second.md)";

    let mut parser = SummaryParser::new(src);
    let got = parser
        .parse_numbered(&mut 0, &mut SectionNumber::default())
        .unwrap();

    assert_eq!(got.len(), 2);
    assert_eq!(got[0].chapter.name, "First");
    assert_eq!(number_of(&got[0]), vec![1]);
    assert_eq!(got[0].nested_items.len(), 1);
    assert_eq!(got[0].nested_items[0].chapter.name, "Nested");
    assert_eq!(number_of(&got[0].nested_items[0]), vec![1, 1]);
    assert_eq!(got[1].chapter.name, "Second");
    assert_eq!(number_of(&got[1]), vec![2]);
    assert!(got[1].nested_items.is_empty());
}

#[test]
fn parse_numbered_chapters_separated_by_comment() {
    let src = "- [First](./first.md)\n<!-- this is a comment -->\n- [Second](./second.md)";

    let mut parser = SummaryParser::new(src);
    let got = parser
        .parse_numbered(&mut 0, &mut SectionNumber::default())
        .unwrap();

    assert_eq!(got.len(), 2);
    assert_eq!(got[0].chapter.name, "First");
    assert_eq!(number_of(&got[0]), vec![1]);
    assert_eq!(got[1].chapter.name, "Second");
    assert_eq!(number_of(&got[1]), vec![2]);
}

#[test]
fn parse_titled_parts() {
    let src = "- [First](./first.md)\n- [Second](./second.md)\n\
               # Title 2\n- [Third](./third.md)\n\t- [Fourth](./fourth.md)";

    let mut parser = SummaryParser::new(src);
    let got = parser.parse_parts().unwrap();

    assert_eq!(got.len(), 3);
    assert_eq!(got[0].chapter.name, "First");
    assert_eq!(number_of(&got[0]), vec![1]);
    assert_eq!(got[1].chapter.name, "Second");
    assert_eq!(number_of(&got[1]), vec![2]);
    assert_eq!(got[2].chapter.name, "Third");
    assert_eq!(number_of(&got[2]), vec![3]);
    assert_eq!(got[2].nested_items.len(), 1);
    assert_eq!(got[2].nested_items[0].chapter.name, "Fourth");
    assert_eq!(number_of(&got[2].nested_items[0]), vec![3, 1]);
}

#[test]
fn can_have_a_subheader_between_nested_items() {
    let src = "- [First](./first.md)\n\n## Subheading\n\n- [Second](./second.md)\n";

    let mut parser = SummaryParser::new(src);
    let got = parser
        .parse_numbered(&mut 0, &mut SectionNumber::default())
        .unwrap();

    assert_eq!(got.len(), 2);
    assert_eq!(got[0].chapter.name, "First");
    assert_eq!(number_of(&got[0]), vec![1]);
    assert_eq!(got[1].chapter.name, "Second");
    assert_eq!(number_of(&got[1]), vec![2]);
}

#[test]
fn an_empty_link_location_is_a_draft_chapter() {
    let src = "- [Empty]()\n";
    let mut parser = SummaryParser::new(src);

    let got = parser.parse_numbered(&mut 0, &mut SectionNumber::default());

    assert!(got.is_ok());
    let got = got.unwrap();
    assert_eq!(got.len(), 1);
    assert_eq!(got[0].chapter.name, "Empty");
    assert!(got[0].chapter.location.is_none());
    assert_eq!(number_of(&got[0]), vec![1]);
}

#[test]
fn keep_numbering_after_separator() {
    let src =
        "- [First](./first.md)\n---\n- [Second](./second.md)\n---\n- [Third](./third.md)\n";

    let mut parser = SummaryParser::new(src);
    let got = parser
        .parse_numbered(&mut 0, &mut SectionNumber::default())
        .unwrap();

    assert_eq!(got.len(), 3);
    assert_eq!(got[0].chapter.name, "First");
    assert_eq!(number_of(&got[0]), vec![1]);
    assert_eq!(got[1].chapter.name, "Second");
    assert_eq!(number_of(&got[1]), vec![2]);
    assert_eq!(got[2].chapter.name, "Third");
    assert_eq!(number_of(&got[2]), vec![3]);
}

#[test]
fn add_space_for_multi_line_chapter_names() {
    let src = "- [Chapter\ntitle](./chapter.md)";

    let mut parser = SummaryParser::new(src);
    let got = parser
        .parse_numbered(&mut 0, &mut SectionNumber::default())
        .unwrap();

    assert_eq!(got.len(), 1);
    assert_eq!(got[0].chapter.name, "Chapter title");
}

#[test]
fn allow_space_in_link_destination() {
    let src = "- [test1](./test%20link1.md)\n- [test2](<./test link2.md>)";

    let mut parser = SummaryParser::new(src);
    let got = parser
        .parse_numbered(&mut 0, &mut SectionNumber::default())
        .unwrap();

    assert_eq!(got.len(), 2);
    assert_eq!(got[0].chapter.location.as_deref(), Some("./test link1.md"));
    assert_eq!(got[1].chapter.location.as_deref(), Some("./test link2.md"));
}

#[test]
fn parse_whole_summary() {
    let src = "# The Book\n[Intro](./intro.md)\n\n- [One](./one.md)\n  - [Deep](./deep.md)\n- [Two](./two.md)\n\n[End](./end.md)\n";
    let got = parse_summary(src).unwrap();

    assert_eq!(got.title, "The Book");
    assert_eq!(got.prefix_chapters.len(), 1);
    assert_eq!(got.prefix_chapters[0].name, "Intro");
    assert_eq!(got.numbered_chapters.len(), 2);
    assert_eq!(number_of(&got.numbered_chapters[0]), vec![1]);
    assert_eq!(number_of(&got.numbered_chapters[0].nested_items[0]), vec![1, 1]);
    assert_eq!(number_of(&got.numbered_chapters[1]), vec![2]);
    assert_eq!(got.suffix_chapters.len(), 1);
    assert_eq!(got.suffix_chapters[0].name, "End");
}

#[test]
fn nested_item_must_be_a_hyperlink() {
    let src = "# T\n- [Ok](./ok.md)\n- just text\n";
    let got = parse_summary(src);
    assert!(got.is_err());
    assert_eq!(
        got.unwrap_err().message,
        "The link items for nested chapters must only contain a hyperlink"
    );
}

#[test]
fn parse_error_carries_a_location() {
    let src = "[First](./first.md)";
    let mut parser = SummaryParser::new(src);
    let err = parser.parse_title().unwrap_err();
    assert!(err.line >= 1);
}
