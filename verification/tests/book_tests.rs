use tts_library::chapters::{extract_epub_text, extract_pdf_text, join_with_spaces, PageText, PdfPage};
use tts_library::epub_text::{extract_epub_html_filtered, filtered_text_from_walk};
use tts_library::html_tree::{ElementInfo, HtmlEvent};
use tts_library::pdf_text::{
    dominant_size_key, extract_string_operand, extract_string_operand_index, extract_tj_text,
    operator_effect, PdfOperand, SizedText, TextEffect,
};

fn element(name: &str, epub_type: Option<&str>, class: Option<&str>) -> HtmlEvent {
    HtmlEvent::Element(ElementInfo {
        name: name.to_string(),
        epub_type: epub_type.map(|s| s.to_string()),
        class: class.map(|s| s.to_string()),
    })
}

/// A text node is entered and left like any other node.
fn text(t: &str) -> [HtmlEvent; 2] {
    [HtmlEvent::Text(t.to_string()), HtmlEvent::Close]
}

#[test]
fn chapter_without_footnotes_is_stripped_html() {
    assert_eq!(
        extract_epub_html_filtered("<html><body><p>Hello</p></body></html>"),
        "\nHello\n"
    );
}

#[test]
fn aside_is_left_out() {
    assert_eq!(
        extract_epub_html_filtered(
            "<html><body><p>Main text.</p><aside><p>Note</p></aside></body></html>"
        ),
        "Main text. \n\n"
    );
}

#[test]
fn footnote_classes_are_left_out_but_false_positives_kept() {
    assert_eq!(
        extract_epub_html_filtered(
            "<html><body><p class=\"notebook\">Keep</p><p>Text <span class=\"fn\">1</span> more</p></body></html>"
        ),
        "Keep \n\nText more \n\n"
    );
}

#[test]
fn epub_type_endnotes_are_left_out() {
    assert_eq!(
        extract_epub_html_filtered(
            "<html><body><div>A<section epub:type=\"endnotes\"><p>N</p></section></div></body></html>"
        ),
        "A \n\n"
    );
}

#[test]
fn class_tokens_are_matched_case_insensitively() {
    assert_eq!(
        extract_epub_html_filtered(
            "<html><body><h1>Title</h1><div class=\"Big FOOTNOTES\">x</div></body></html>"
        ),
        "Title \n\n"
    );
}

#[test]
fn document_without_body_reads_the_root_children() {
    let mut walk = vec![HtmlEvent::Other, element("html", None, None), element("head", None, None)];
    walk.extend(text("ignored"));
    walk.push(HtmlEvent::Close);
    walk.push(element("p", None, Some("note")));
    walk.extend(text("x"));
    walk.push(element("b", None, None));
    walk.extend(text("hidden"));
    walk.extend([HtmlEvent::Close, HtmlEvent::Close]);
    walk.push(element("div", None, None));
    walk.extend(text("y"));
    walk.extend([HtmlEvent::Close, HtmlEvent::Close, HtmlEvent::Close]);
    assert_eq!(filtered_text_from_walk("<unused>", &walk), "x y ");
}

#[test]
fn body_inside_a_footnote_keeps_only_its_bare_text() {
    let mut walk = vec![
        HtmlEvent::Other,
        element("html", None, Some("footnote")),
        element("body", None, None),
    ];
    walk.extend(text("t"));
    walk.push(element("p", None, None));
    walk.extend(text("u"));
    walk.extend([HtmlEvent::Close, HtmlEvent::Close, HtmlEvent::Close, HtmlEvent::Close]);
    assert_eq!(filtered_text_from_walk("<unused>", &walk), "t ");
}

#[test]
fn walk_without_markers_strips_the_html() {
    let mut walk = vec![HtmlEvent::Other, element("p", None, None)];
    walk.extend(text("x"));
    walk.extend([HtmlEvent::Close, HtmlEvent::Close]);
    assert_eq!(filtered_text_from_walk("<p>x</p>", &walk), "\nx\n");
}

#[test]
fn pdf_pages_with_text_become_chapters() {
    let pages = vec![
        PdfPage { number: 0, text: PageText::Runs(vec!["Hello".to_string(), "world".to_string()]) },
        PdfPage { number: 1, text: PageText::Extracted("   ".to_string()) },
        PdfPage { number: 2, text: PageText::Extracted("  Third  ".to_string()) },
    ];
    let chapters = extract_pdf_text(&pages).unwrap();
    assert_eq!(chapters.len(), 2);
    assert_eq!(chapters[0].index, 0);
    assert_eq!(chapters[0].title, "Page 1");
    assert_eq!(chapters[0].content, "Hello world");
    assert_eq!(chapters[1].index, 1);
    assert_eq!(chapters[1].title, "Page 3");
    assert_eq!(chapters[1].content, "Third");
}

#[test]
fn pdf_without_text_is_an_error() {
    let pages = vec![PdfPage { number: 0, text: PageText::Runs(Vec::new()) }];
    assert_eq!(
        extract_pdf_text(&pages).unwrap_err(),
        "Cannot extract text. This might be a scanned PDF."
    );
    assert!(extract_pdf_text(&Vec::new()).is_err());
}

#[test]
fn epub_documents_with_text_become_chapters() {
    let docs = vec![
        None,
        Some(b"<html><body><p>One</p></body></html>".to_vec()),
        Some(b"<html><body> </body></html>".to_vec()),
        Some(vec![0x66, 0xff]),
    ];
    let chapters = extract_epub_text(&docs).unwrap();
    assert_eq!(chapters.len(), 2);
    assert_eq!(chapters[0].index, 0);
    assert_eq!(chapters[0].title, "Chapter 2");
    assert_eq!(chapters[0].content, "One");
    assert_eq!(chapters[1].index, 1);
    assert_eq!(chapters[1].title, "Chapter 4");
    assert_eq!(chapters[1].content, "f\u{FFFD}");
}

#[test]
fn epub_without_text_is_an_error() {
    assert_eq!(
        extract_epub_text(&vec![None, Some(b"<p> </p>".to_vec())]).unwrap_err(),
        "No readable content found in EPUB."
    );
}

#[test]
fn runs_are_joined_with_spaces() {
    assert_eq!(join_with_spaces(&vec!["a".to_string(), "".to_string(), "b".to_string()]), "a  b");
    assert_eq!(join_with_spaces(&Vec::new()), "");
}

#[test]
fn string_operands_are_read() {
    assert_eq!(extract_string_operand(&[PdfOperand::Str(b"Hi".to_vec())]), Some("Hi".to_string()));
    assert_eq!(extract_string_operand(&[PdfOperand::Name(b"N".to_vec())]), Some("N".to_string()));
    assert_eq!(extract_string_operand(&[PdfOperand::Integer(3)]), None);
    assert_eq!(extract_string_operand(&[PdfOperand::Str(vec![0xff])]), Some("\u{FFFD}".to_string()));
}

#[test]
fn indexed_string_operands_are_read() {
    let ops = [PdfOperand::Integer(1), PdfOperand::Integer(2), PdfOperand::Str(b"x".to_vec())];
    assert_eq!(extract_string_operand_index(&ops, 2), Some("x".to_string()));
    assert_eq!(extract_string_operand_index(&ops, 0), None);
    assert_eq!(extract_string_operand_index(&ops[..2], 2), None);
}

#[test]
fn tj_arrays_join_their_strings() {
    let ops = [PdfOperand::Array(vec![
        PdfOperand::Str(b"He".to_vec()),
        PdfOperand::Integer(-120),
        PdfOperand::Str(b"llo".to_vec()),
        PdfOperand::Name(b"skip".to_vec()),
        PdfOperand::Other,
    ])];
    assert_eq!(extract_tj_text(&ops), Some("Hello".to_string()));
    assert_eq!(extract_tj_text(&[PdfOperand::Array(vec![PdfOperand::Integer(5)])]), None);
    assert_eq!(extract_tj_text(&[PdfOperand::Str(b"x".to_vec())]), None);
}

#[test]
fn dominant_size_has_the_most_text() {
    let runs = vec![
        SizedText { size_key: 120, text: "aaaa".to_string() },
        SizedText { size_key: 100, text: "bb".to_string() },
        SizedText { size_key: 120, text: "c".to_string() },
    ];
    assert_eq!(dominant_size_key(&runs), Some(120));
    let runs = vec![
        SizedText { size_key: 90, text: "xxxxx".to_string() },
        SizedText { size_key: 120, text: "ab".to_string() },
        SizedText { size_key: 120, text: "é".to_string() },
    ];
    assert_eq!(dominant_size_key(&runs), Some(90));
    assert_eq!(dominant_size_key(&Vec::new()), None);
}

#[test]
fn text_objects_are_opened_and_closed() {
    assert!(matches!(operator_effect("BT", &[], false), TextEffect::BeginText));
    assert!(matches!(operator_effect("ET", &[], true), TextEffect::EndText));
    assert!(matches!(operator_effect("ET", &[], false), TextEffect::EndText));
}

#[test]
fn operators_outside_text_objects_do_nothing() {
    let s = [PdfOperand::Str(b"x".to_vec())];
    assert!(matches!(operator_effect("Tj", &s, false), TextEffect::Nothing));
    assert!(matches!(operator_effect("T*", &[], false), TextEffect::Nothing));
    assert!(matches!(operator_effect("Tj", &[], false), TextEffect::Nothing));
}

#[test]
fn positioning_operators_need_their_operands() {
    let two = [PdfOperand::Integer(1), PdfOperand::Integer(2)];
    assert!(matches!(operator_effect("Tf", &two, true), TextEffect::SetFontSize));
    assert!(matches!(operator_effect("Tf", &two[..1], true), TextEffect::Nothing));
    assert!(matches!(operator_effect("Td", &two, true), TextEffect::MoveBy));
    assert!(matches!(operator_effect("TD", &two, true), TextEffect::MoveBy));
    assert!(matches!(operator_effect("Tm", &two, true), TextEffect::Nothing));
    let six = [
        PdfOperand::Integer(1),
        PdfOperand::Integer(0),
        PdfOperand::Integer(0),
        PdfOperand::Integer(1),
        PdfOperand::Integer(50),
        PdfOperand::Integer(700),
    ];
    assert!(matches!(operator_effect("Tm", &six, true), TextEffect::SetMatrix));
    assert!(matches!(operator_effect("T*", &[], true), TextEffect::NextLine));
    assert!(matches!(operator_effect("re", &six, true), TextEffect::Nothing));
}

#[test]
fn showing_operators_give_their_text() {
    let s = [PdfOperand::Str(b"Hi".to_vec())];
    assert!(matches!(operator_effect("Tj", &s, true), TextEffect::Show(Some(t)) if t == "Hi"));
    assert!(matches!(operator_effect("'", &s, true), TextEffect::NextLineShow(Some(t)) if t == "Hi"));
    assert!(matches!(operator_effect("Tj", &[PdfOperand::Integer(1)], true), TextEffect::Show(None)));
    let arr = [PdfOperand::Array(vec![PdfOperand::Str(b"A".to_vec()), PdfOperand::Integer(-50), PdfOperand::Str(b"B".to_vec())])];
    assert!(matches!(operator_effect("TJ", &arr, true), TextEffect::Show(Some(t)) if t == "AB"));
    let quoted = [PdfOperand::Integer(1), PdfOperand::Integer(2), PdfOperand::Str(b"Q".to_vec())];
    assert!(matches!(operator_effect("\"", &quoted, true), TextEffect::NextLineShow(Some(t)) if t == "Q"));
    assert!(matches!(operator_effect("\"", &quoted[..2], true), TextEffect::Nothing));
}
