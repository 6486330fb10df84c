use tts_library::tts::{
    clipboard_text_to_speak, get_chars_before_current_chunk, get_speech_position,
    get_total_chars, mode_string, pause_resume_tts, position_after_next_chunk, set_tts_rate,
    speak_book_chapter, speak_text, stop_tts, take_next_chunk, try_chars_before_current_chunk,
    try_total_chars, PositionStep, TtsMode, TtsState, CHUNK_SIZE, MAX_CLIPBOARD_LEN,
};

fn queued(chunks: &[&str], current: usize) -> TtsState {
    TtsState {
        mode: TtsMode::PlayingClipboard,
        chunks: chunks.iter().map(|c| c.to_string()).collect(),
        current_chunk: current,
        total_chars_spoken: 0,
    }
}

#[test]
fn new_session_is_idle_and_empty() {
    let st = TtsState::new();
    assert!(matches!(st.mode, TtsMode::Idle));
    assert!(st.chunks.is_empty());
    assert_eq!(st.current_chunk, 0);
    assert_eq!(st.total_chars_spoken, 0);
}

#[test]
fn speaking_clipboard_text_starts_a_session() {
    let mut st = TtsState::new();
    assert_eq!(speak_text("Hello".to_string(), &mut st), Ok("Hello".to_string()));
    assert!(matches!(st.mode, TtsMode::PlayingClipboard));
    assert_eq!(st.chunks, vec!["Hello".to_string()]);
    assert_eq!(st.current_chunk, 1);
}

#[test]
fn a_busy_session_refuses_clipboard_text() {
    let mut st = TtsState::new();
    speak_text("First".to_string(), &mut st).unwrap();
    assert_eq!(speak_text("Second".to_string(), &mut st), Err("busy".to_string()));
    assert_eq!(st.chunks, vec!["First".to_string()]);
    assert_eq!(st.current_chunk, 1);
    assert!(matches!(st.mode, TtsMode::PlayingClipboard));
}

#[test]
fn after_stop_clipboard_text_is_accepted_again() {
    let mut st = TtsState::new();
    speak_text("First".to_string(), &mut st).unwrap();
    stop_tts(&mut st);
    assert!(matches!(st.mode, TtsMode::Idle));
    assert!(st.chunks.is_empty());
    assert_eq!(st.current_chunk, 0);
    assert_eq!(speak_text("Second".to_string(), &mut st), Ok("Second".to_string()));
}

#[test]
fn long_clipboard_text_is_one_chunk() {
    let mut st = TtsState::new();
    let text = "word ".repeat(500);
    assert_eq!(speak_text(text.clone(), &mut st), Ok(text.clone()));
    assert_eq!(st.chunks, vec![text]);
    match get_speech_position(&mut st, 0, 2500) {
        PositionStep::Report(current, total, _, done) => {
            assert_eq!((current, total, done), (5000, 2500, true));
        }
        _ => panic!("clipboard text is not advanced"),
    }
    assert_eq!(st.current_chunk, 1);
}

#[test]
fn long_book_chapters_are_queued_in_chunks() {
    let mut st = TtsState::new();
    let text = "word ".repeat(500);
    let first = speak_book_chapter(text, "b".to_string(), 0, 1, &mut st);
    let expected_first = format!("{}word", "word ".repeat(399));
    assert_eq!(first, expected_first);
    assert_eq!(st.chunks.len(), 2);
    assert_eq!(st.chunks[1], "word ".repeat(100));
    assert!(st.chunks.iter().all(|c| c.len() <= CHUNK_SIZE));
}

#[test]
fn a_book_chapter_replaces_what_is_read() {
    let mut st = TtsState::new();
    speak_text("clip".to_string(), &mut st).unwrap();
    let first = speak_book_chapter("Chapter text".to_string(), "b1".to_string(), 3, 10, &mut st);
    assert_eq!(first, "Chapter text");
    match &st.mode {
        TtsMode::PlayingBook { book_id, chapter_index, total_chapters } => {
            assert_eq!(book_id, "b1");
            assert_eq!(*chapter_index, 3);
            assert_eq!(*total_chapters, 10);
        }
        _ => panic!("not reading a book"),
    }
    assert_eq!(mode_string(&st.mode), "book:b1:3");
}

#[test]
fn modes_are_labelled() {
    assert_eq!(mode_string(&TtsMode::Idle), "idle");
    assert_eq!(mode_string(&TtsMode::PlayingClipboard), "clipboard");
    let m = TtsMode::PlayingBook { book_id: "x".to_string(), chapter_index: 120, total_chapters: 200 };
    assert_eq!(mode_string(&m), "book:x:120");
}

#[test]
fn taking_chunks_walks_the_queue() {
    let mut st = queued(&["a", "b"], 0);
    assert_eq!(take_next_chunk(&mut st), Some("a".to_string()));
    assert_eq!(take_next_chunk(&mut st), Some("b".to_string()));
    assert_eq!(take_next_chunk(&mut st), None);
    assert_eq!(st.current_chunk, 2);
}

#[test]
fn lengths_are_counted_in_bytes() {
    let st = queued(&["é", "ab"], 1);
    assert_eq!(get_total_chars(&st), 4);
    assert_eq!(try_total_chars(&st), Some(4));
    assert_eq!(get_chars_before_current_chunk(&st), 2);
    assert_eq!(try_chars_before_current_chunk(&st), Some(2));
}

#[test]
fn position_counts_every_chunk_when_past_the_end() {
    let st = queued(&["abc", "de"], 7);
    assert_eq!(get_chars_before_current_chunk(&st), 5);
}

#[test]
fn position_while_speaking_is_reported() {
    let mut st = queued(&["abc", "de"], 1);
    match get_speech_position(&mut st, 2, 1) {
        PositionStep::Report(current, total, mode, done) => {
            assert_eq!((current, total, mode.as_str(), done), (4, 5, "clipboard", false));
        }
        _ => panic!("expected a report"),
    }
    assert_eq!(st.current_chunk, 1);
}

#[test]
fn a_finished_chunk_hands_over_the_next_one() {
    let mut st = queued(&["abc", "de"], 1);
    match get_speech_position(&mut st, 0, 2) {
        PositionStep::SpeakNext { text, total, mode } => {
            assert_eq!(text, "de");
            assert_eq!(total, 5);
            assert_eq!(mode, "clipboard");
        }
        _ => panic!("expected the next chunk"),
    }
    assert_eq!(st.current_chunk, 2);
    assert_eq!(
        position_after_next_chunk(&st, 0, 5, "clipboard".to_string()),
        (5, 5, "clipboard".to_string(), false)
    );
    match get_speech_position(&mut st, 0, 0) {
        PositionStep::Report(current, total, mode, done) => {
            assert_eq!((current, total, mode.as_str(), done), (5, 5, "clipboard", true));
        }
        _ => panic!("expected a report"),
    }
}

#[test]
fn an_empty_queue_is_never_done() {
    let mut st = TtsState::new();
    match get_speech_position(&mut st, 0, 0) {
        PositionStep::Report(current, total, mode, done) => {
            assert_eq!((current, total, mode.as_str(), done), (0, 0, "idle", false));
        }
        _ => panic!("expected a report"),
    }
}

#[test]
fn pausing_toggles() {
    assert!(!pause_resume_tts(2, 2));
    assert!(pause_resume_tts(1, 2));
    assert!(pause_resume_tts(0, 2));
}

#[test]
fn rate_is_clamped() {
    assert_eq!(set_tts_rate(-20), -10);
    assert_eq!(set_tts_rate(25), 10);
    assert_eq!(set_tts_rate(3), 3);
    assert_eq!(set_tts_rate(-10), -10);
}

#[test]
fn blank_clipboard_is_not_read() {
    assert_eq!(clipboard_text_to_speak(""), None);
    assert_eq!(clipboard_text_to_speak(" \n\t "), None);
}

#[test]
fn short_clipboard_text_is_read_as_is() {
    assert_eq!(clipboard_text_to_speak("  hi "), Some("  hi ".to_string()));
}

#[test]
fn long_clipboard_text_is_truncated() {
    let text = "a".repeat(MAX_CLIPBOARD_LEN + 1);
    let expected = format!("{}... (text truncated)", "a".repeat(MAX_CLIPBOARD_LEN));
    assert_eq!(clipboard_text_to_speak(&text), Some(expected));
    let exact = "a".repeat(MAX_CLIPBOARD_LEN);
    assert_eq!(clipboard_text_to_speak(&exact), Some(exact.clone()));
}

#[test]
fn long_multibyte_clipboard_text_keeps_its_characters() {
    // 2501 two-byte characters: over the byte limit, under the character limit.
    let text = "é".repeat(2501);
    assert_eq!(
        clipboard_text_to_speak(&text),
        Some(format!("{text}... (text truncated)"))
    );
}
