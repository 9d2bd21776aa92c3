use synblog::document::SynFile;
use synblog::element::SynElement;

const SAMPLE: &str = "My Post\nrust,verification\n1431648000\nA short summary\n\n#Intro\n\nHello world\n\n---\n\n.img pic.png|a picture|width:100%\n\n";

#[test]
fn parse_document_reads_header_and_body() {
    let doc = SynFile::parse_document(SAMPLE).unwrap();
    assert_eq!(doc.get_title().as_str(), "My Post");
    assert_eq!(doc.get_tags(), &vec!["rust".to_string(), "verification".to_string()]);
    assert_eq!(*doc.get_posted(), 1431648000);
    assert_eq!(doc.get_summary().as_str(), "A short summary");
    assert_eq!(
        doc.get_elements(),
        &vec![
            SynElement::Heading("Intro".into()),
            SynElement::Text("Hello world".into()),
            SynElement::LineH,
            SynElement::Image {
                path: "pic.png".into(),
                alt: "a picture".into(),
                style: "width:100%".into()
            },
        ]
    );
}

#[test]
fn parse_metadata_skips_body() {
    let doc = SynFile::parse_metadata(SAMPLE).unwrap();
    assert_eq!(doc.get_title().as_str(), "My Post");
    assert_eq!(doc.get_tags(), &vec!["rust".to_string(), "verification".to_string()]);
    assert_eq!(*doc.get_posted(), 1431648000);
    assert_eq!(doc.get_summary().as_str(), "A short summary");
    assert!(doc.get_elements().is_empty());
}

#[test]
fn truncated_header_fails() {
    // Fewer than four header lines: the whole parse fails.
    assert!(SynFile::parse_document("only\nthree\nlines").is_err());
    assert!(SynFile::parse_metadata("one line").is_err());
    // Exactly four lines is enough, with an empty body.
    let doc = SynFile::parse_document("t\na\n1\ns").unwrap();
    assert!(doc.get_elements().is_empty());
}

#[test]
fn unparsable_posted_defaults_to_zero() {
    // A deliberate leniency: a malformed posted field becomes 0, never
    // an error, conflating a missing field with a malformed one.
    let doc = SynFile::parse_document("t\na\nnot-a-number\ns\n\n").unwrap();
    assert_eq!(*doc.get_posted(), 0);
    let doc = SynFile::parse_document("t\na\n\ns\n\n").unwrap();
    assert_eq!(*doc.get_posted(), 0);
    // Overflow past u64 is malformed too.
    let doc = SynFile::parse_document("t\na\n99999999999999999999999\ns\n\n").unwrap();
    assert_eq!(*doc.get_posted(), 0);
}

#[test]
fn malformed_body_block_is_dropped() {
    // A deliberate leniency: the bad image line (two segments, not
    // three) vanishes; its neighbours keep their order.
    let text = "t\na\n1\ns\n\n#First\n\n.img broken|pair\n\n#Last\n\n";
    let doc = SynFile::parse_document(text).unwrap();
    assert_eq!(
        doc.get_elements(),
        &vec![
            SynElement::Heading("First".into()),
            SynElement::Heading("Last".into()),
        ]
    );
}

#[test]
fn multi_line_block_becomes_one_text_element() {
    // Lines with no blank separator between them accumulate into one
    // candidate, rejoined with the newline they were split at.
    let text = "t\na\n1\ns\n\nHello,\nSynBlog!\n\n";
    let doc = SynFile::parse_document(text).unwrap();
    assert_eq!(doc.get_elements(), &vec![SynElement::Text("Hello,\nSynBlog!".into())]);
}

#[test]
fn final_block_without_separator_is_flushed() {
    let text = "t\na\n1\ns\n\n#Tail";
    let doc = SynFile::parse_document(text).unwrap();
    assert_eq!(doc.get_elements(), &vec![SynElement::Heading("Tail".into())]);
}

#[test]
fn tags_keep_order_duplicates_and_empty_segments() {
    // A trailing comma yields an empty-string tag, not an error;
    // duplicates are kept in declaration order.
    let doc = SynFile::parse_document("t\nb, a, b,\n1\ns\n\n").unwrap();
    assert_eq!(
        doc.get_tags(),
        &vec!["b".to_string(), "a".to_string(), "b".to_string(), "".to_string()]
    );
}

#[test]
fn serialize_writes_canonical_wire_form() {
    let doc = SynFile::parse_document(SAMPLE).unwrap();
    assert_eq!(doc.serialize(), SAMPLE);
}

#[test]
fn document_round_trips_through_wire_form() {
    // serialize -> parse_document reproduces an equal document.
    let doc = SynFile::parse_document(SAMPLE).unwrap();
    let reparsed = SynFile::parse_document(&doc.serialize()).unwrap();
    assert_eq!(reparsed.get_title(), doc.get_title());
    assert_eq!(reparsed.get_tags(), doc.get_tags());
    assert_eq!(reparsed.get_posted(), doc.get_posted());
    assert_eq!(reparsed.get_summary(), doc.get_summary());
    assert_eq!(reparsed.get_elements(), doc.get_elements());
}

#[test]
fn multi_line_text_round_trips() {
    // A text block spanning several physical lines survives the full
    // round trip: serialization writes the lines back and the scanner
    // re-accumulates them into one element.
    let text = "t\na\n1\ns\n\nHello,\nSynBlog!\n\n";
    let doc = SynFile::parse_document(text).unwrap();
    assert_eq!(doc.serialize(), text);
    let reparsed = SynFile::parse_document(&doc.serialize()).unwrap();
    assert_eq!(reparsed.get_elements(), doc.get_elements());
}

#[test]
fn posted_renders_as_a_date() {
    let doc = SynFile::parse_document(SAMPLE).unwrap();
    let rendered = doc.get_posted_str();
    // The exact text depends on the machine's time zone; the year of
    // this timestamp is 2015 in every zone.
    assert!(rendered.contains("2015"));
}
