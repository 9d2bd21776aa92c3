use synblog::element::SynElement;

#[test]
fn text_element() {
    let element = SynElement::parse_line("Hello,\nSynBlog!".into()).unwrap();
    assert_eq!(element, SynElement::Text("Hello,\nSynBlog!".into()));

    let as_line = element.generate_line();
    assert_eq!(as_line, "Hello,\nSynBlog!".to_string());

    let as_tag = element.generate_tag();
    assert_eq!(as_tag, "<p>Hello,<br>SynBlog!</p>");
}

#[test]
fn img_element() {
    let element = SynElement::parse_line(".img test.png|A test image!|width:100%".into()).unwrap();
    assert_eq!(
        element,
        SynElement::Image {
            path: "test.png".into(),
            alt: "A test image!".into(),
            style: "width:100%".into()
        }
    );

    let as_line = element.generate_line();
    assert_eq!(as_line, ".img test.png|A test image!|width:100%".to_string());

    let as_tag = element.generate_tag();
    assert_eq!(as_tag, "<img src='test.png' style='width:100%'>A test image!</img>");
}

#[test]
fn heading_element() {
    let element = SynElement::parse_line("#Big Title".into()).unwrap();
    assert_eq!(element, SynElement::Heading("Big Title".into()));

    let as_line = element.generate_line();
    assert_eq!(as_line, "#Big Title".to_string());

    let as_tag = element.generate_tag();
    assert_eq!(as_tag, "<h2>Big Title</h2>");
}

#[test]
fn lineh_element() {
    let element = SynElement::parse_line("---".into()).unwrap();
    assert_eq!(element, SynElement::LineH);

    let as_line = element.generate_line();
    assert_eq!(as_line, "---".to_string());

    let as_tag = element.generate_tag();
    assert_eq!(as_tag, "<div class='hline'></div>");
}

#[test]
fn code_element() {
    let element = SynElement::parse_line(".code let x = 1;".into()).unwrap();
    assert_eq!(element, SynElement::Code("let x = 1;".into()));

    let as_line = element.generate_line();
    assert_eq!(as_line, ".code let x = 1;".to_string());

    let as_tag = element.generate_tag();
    assert_eq!(as_tag, "<p class='code'>let x = 1;</p>");
}

#[test]
fn malformed_img_line_fails() {
    // Two segments instead of three.
    assert!(SynElement::parse_line(".img only.png|no style".into()).is_err());
    // Four segments.
    assert!(SynElement::parse_line(".img a|b|c|d".into()).is_err());
}

#[test]
fn parse_line_trims_surrounding_whitespace() {
    // Leading and trailing whitespace is stripped before classification,
    // so a padded divider still parses as the divider.
    let element = SynElement::parse_line("  ---  ".into()).unwrap();
    assert_eq!(element, SynElement::LineH);

    // A padded text line loses its padding: the ambiguity that keeps
    // such lines out of the line-level round trip.
    let element = SynElement::parse_line("  hello  ".into()).unwrap();
    assert_eq!(element, SynElement::Text("hello".into()));
}

#[test]
fn heading_keeps_inner_whitespace() {
    // Only the first character is removed; the payload is not trimmed
    // further.
    let element = SynElement::parse_line("#  spaced".into()).unwrap();
    assert_eq!(element, SynElement::Heading("  spaced".into()));
    assert_eq!(element.generate_line(), "#  spaced");
}

#[test]
fn no_html_escaping_is_performed() {
    // A documented limitation, not a defect: payload text reaches the
    // HTML output verbatim, markup included.
    let element = SynElement::parse_line("<script>alert(1)</script>".into()).unwrap();
    assert_eq!(element.generate_tag(), "<p><script>alert(1)</script></p>");
}

#[test]
fn line_round_trips_through_element() {
    // Wire line -> element -> same wire line, for each element kind.
    for line in [
        "---",
        "#A Title",
        ".img p.png|alt text|width:50%",
        ".code fn main() {}",
        "plain text line",
    ] {
        let element = SynElement::parse_line(line.into()).unwrap();
        assert_eq!(element.generate_line(), line);
    }
}

#[test]
fn element_round_trips_through_line() {
    // Element -> wire line -> same element, for each element kind.
    let elements = [
        SynElement::LineH,
        SynElement::Heading("Big Title".into()),
        SynElement::Image {
            path: "a.png".into(),
            alt: "alt".into(),
            style: "width:1em".into(),
        },
        SynElement::Code("let y = 2;".into()),
        SynElement::Text("some text".into()),
    ];
    for element in elements {
        let reparsed = SynElement::parse_line(element.generate_line()).unwrap();
        assert_eq!(reparsed, element);
    }
}
