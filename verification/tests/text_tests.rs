use tts_library::chunking::{chunk_text, try_chunk_text};
use tts_library::html_strip::strip_html;
use tts_library::paths::audit_log_path;
use tts_library::words::{contains_text, lower_class_split};

#[test]
fn short_text_is_one_chunk() {
    assert_eq!(chunk_text("Hello world.", 100), vec!["Hello world.".to_string()]);
}

#[test]
fn text_of_exactly_the_budget_is_one_chunk() {
    assert_eq!(chunk_text("abcde", 5), vec!["abcde".to_string()]);
}

#[test]
fn empty_text_is_one_empty_chunk() {
    assert_eq!(chunk_text("", 5), vec![String::new()]);
    assert_eq!(try_chunk_text("", 0), Some(vec![String::new()]));
}

#[test]
fn chunks_end_after_the_last_sentence_end() {
    assert_eq!(
        chunk_text("One. Two. Three.", 10),
        vec!["One. Two.".to_string(), "Three.".to_string()]
    );
}

#[test]
fn exclamation_and_question_marks_end_sentences() {
    assert_eq!(chunk_text("a!b?c", 3), vec!["a!".to_string(), "b?c".to_string()]);
}

#[test]
fn chunks_end_before_the_last_space_without_sentence_end() {
    assert_eq!(
        chunk_text("aaaa bbbb cccc", 10),
        vec!["aaaa bbbb".to_string(), "cccc".to_string()]
    );
}

#[test]
fn chunks_are_cut_at_the_budget_without_space() {
    assert_eq!(
        chunk_text("abcdefghij", 4),
        vec!["abcd".to_string(), "efgh".to_string(), "ij".to_string()]
    );
}

#[test]
fn white_space_after_a_cut_is_dropped() {
    assert_eq!(
        chunk_text("Hi.    There", 4),
        vec!["Hi.".to_string(), "Ther".to_string(), "e".to_string()]
    );
}

#[test]
fn budget_inside_a_character_is_refused() {
    // "é" is two bytes long: a budget of one byte falls inside it.
    assert_eq!(try_chunk_text("éé", 1), None);
}

#[test]
fn zero_budget_on_text_is_refused() {
    assert_eq!(try_chunk_text("abc", 0), None);
}

#[test]
fn multibyte_text_is_measured_in_bytes() {
    // "éé" is four bytes: a budget of two bytes cuts after each character.
    assert_eq!(
        try_chunk_text("éé", 2),
        Some(vec!["é".to_string(), "é".to_string()])
    );
}

#[test]
fn every_chunk_fits_and_no_text_is_lost() {
    let text = "The quick brown fox. Jumps over the lazy dog! Does it? Yes it does, quite often.";
    let pieces = chunk_text(text, 17);
    assert!(pieces.len() > 1);
    for p in &pieces {
        assert!(p.len() <= 17);
    }
    let joined: String = pieces.concat().chars().filter(|c| !c.is_whitespace()).collect();
    let expected: String = text.chars().filter(|c| !c.is_whitespace()).collect();
    assert_eq!(joined, expected);
}

#[test]
fn strip_html_puts_a_newline_for_each_tag() {
    assert_eq!(strip_html("<p>Hello</p><p>World</p>"), "\nHello\nWorld\n");
}

#[test]
fn strip_html_drops_scripts_and_styles() {
    assert_eq!(strip_html("a<script>var x = 1;</script>b"), "ab");
    assert_eq!(strip_html("<STYLE>p { }</STYLE>y"), "y");
}

#[test]
fn strip_html_reads_tag_names_up_to_a_space() {
    assert_eq!(strip_html("<a href='x'>link</a>"), "\nlink\n");
}

#[test]
fn strip_html_collapses_newlines() {
    assert_eq!(strip_html("a\n\n\nb<br>\nc"), "a\nb\nc");
}

#[test]
fn strip_html_of_plain_text_is_the_text() {
    assert_eq!(strip_html("plain text"), "plain text");
}

#[test]
fn strip_html_of_an_unclosed_tag_drops_its_rest() {
    assert_eq!(strip_html("text <b"), "text \n");
}

#[test]
fn class_attribute_is_split_and_lowercased() {
    assert_eq!(
        lower_class_split("  Foo BAR\tbaz "),
        vec!["foo".to_string(), "bar".to_string(), "baz".to_string()]
    );
    assert_eq!(lower_class_split("   "), Vec::<String>::new());
}

#[test]
fn contains_text_finds_substrings() {
    assert!(contains_text("footnote-ref", "note"));
    assert!(contains_text("abc", ""));
    assert!(!contains_text("no", "note"));
}

#[test]
fn audit_log_path_appends_the_stem() {
    assert_eq!(
        audit_log_path("/books/my book.pdf"),
        "/books/my book.pdf.my book_footnotes.txt"
    );
}

#[test]
fn audit_log_path_without_stem_says_unknown() {
    assert_eq!(audit_log_path(""), ".unknown_footnotes.txt");
}

#[test]
fn stripped_html_has_no_tags_and_no_blank_lines() {
    let html = "<html><head><style>b{}</style></head><body>\n\n<p>One</p>\n<p>Two <i>three</i></p><</body>";
    let out = strip_html(html);
    assert!(!out.contains('<'));
    assert!(!out.contains("\n\n"));
    assert_eq!(out, "\nOne\nTwo \nthree\n");
}
