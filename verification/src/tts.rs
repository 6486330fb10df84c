//! The speech session: what is being read (nothing, the clipboard or a
//! book chapter), the pieces of text queued for the voice and how far
//! reading has gone. The voice itself is driven by the caller, which hands
//! in what the voice reports and performs what these functions decide.

use vstd::prelude::*;
use crate::chunking::{chunk_text, chunks_spec, string_views, utf8_len};
use crate::text::{append_str, chars_of, decimal, push_decimal, string_from, string_of, trim, trim_string};

verus! {

/// Longest piece of text handed to the voice at once, in UTF-8 bytes.
pub const CHUNK_SIZE: usize = 2000;

/// What the session is reading.
#[derive(Clone, Debug)]
pub enum TtsMode {
    Idle,
    PlayingClipboard,
    PlayingBook { book_id: String, chapter_index: usize, total_chapters: usize },
}

impl TtsMode {
    pub open spec fn is_idle(&self) -> bool {
        self is Idle
    }
}

/// The state of the speech session.
pub struct TtsState {
    pub mode: TtsMode,
    pub chunks: Vec<String>,
    pub current_chunk: usize,
    pub total_chars_spoken: u32,
}

impl TtsState {
    pub open spec fn chunk_views(&self) -> Seq<Seq<char>> {
        string_views(self.chunks@)
    }

    /// The reading position never passes the end of the queue.
    pub open spec fn position_in_queue(&self) -> bool {
        self.current_chunk <= self.chunks@.len()
    }

    /// An idle session with nothing queued.
    pub fn new() -> (s: Self)
        ensures
            s.mode is Idle,
            s.chunks@.len() == 0,
            s.current_chunk == 0,
            s.total_chars_spoken == 0,
            s.position_in_queue(),
    {
        TtsState { mode: TtsMode::Idle, chunks: Vec::new(), current_chunk: 0, total_chars_spoken: 0 }
    }
}

/// Sum of the UTF-8 lengths of `chunks`.
pub open spec fn total_bytes(chunks: Seq<Seq<char>>) -> nat
    decreases chunks.len(),
{
    if chunks.len() == 0 {
        0
    } else {
        total_bytes(chunks.drop_last()) + utf8_len(chunks.last())
    }
}

/// Sum of the UTF-8 lengths of `chunks`, each taken as a `u32` (`as u32`).
pub open spec fn total_bytes_u32(chunks: Seq<Seq<char>>) -> nat
    decreases chunks.len(),
{
    if chunks.len() == 0 {
        0
    } else {
        total_bytes_u32(chunks.drop_last()) + ((utf8_len(chunks.last()) as usize) as u32) as nat
    }
}

/// The UTF-8 length of the chunks before chunk `idx`, each taken as a `u32`.
pub open spec fn bytes_before(chunks: Seq<Seq<char>>, idx: nat) -> nat {
    total_bytes_u32(chunks.take(if idx <= chunks.len() { idx as int } else { chunks.len() as int }))
}

/// Total UTF-8 length of the queued chunks, or `None` when it does not
/// fit in a `usize` (where summing it overflows).
pub fn try_total_chars(state: &TtsState) -> (r: Option<usize>)
    ensures
        r is Some <==> total_bytes(state.chunk_views()) <= usize::MAX,
        r matches Some(n) ==> n == total_bytes(state.chunk_views()),
{
    let ghost cv = state.chunk_views();
    let mut sum: usize = 0;
    let mut i: usize = 0;
    while i < state.chunks.len()
        invariant
            i <= state.chunks.len(),
            cv == state.chunk_views(),
            cv.len() == state.chunks@.len(),
            sum == total_bytes(cv.take(i as int)),
        decreases state.chunks.len() - i,
    {
        proof {
            assert(cv.take(i + 1).drop_last() =~= cv.take(i as int));
            assert(cv.take(i + 1).last() == state.chunks@[i as int]@);
            lemma_total_bytes_prefix_le(cv, i + 1);
        }
        let len = state.chunks[i].as_str().as_bytes().len();
        match sum.checked_add(len) {
            Some(t) => sum = t,
            None => return None,
        }
        i = i + 1;
    }
    assert(cv.take(i as int) =~= cv);
    Some(sum)
}

/// Total UTF-8 length of the queued chunks.
pub fn get_total_chars(state: &TtsState) -> (r: usize)
    requires
        total_bytes(state.chunk_views()) <= usize::MAX,
    ensures
        r == total_bytes(state.chunk_views()),
{
    match try_total_chars(state) {
        Some(n) => n,
        None => 0,
    }
}

proof fn lemma_total_bytes_prefix_le(cs: Seq<Seq<char>>, i: int)
    requires
        0 <= i <= cs.len(),
    ensures
        total_bytes(cs.take(i)) <= total_bytes(cs),
    decreases cs.len(),
{
    if i < cs.len() {
        lemma_total_bytes_prefix_le(cs.drop_last(), i);
        assert(cs.drop_last().take(i) =~= cs.take(i));
    } else {
        assert(cs.take(i) =~= cs);
    }
}

proof fn lemma_total_bytes_u32_prefix_le(cs: Seq<Seq<char>>, i: int)
    requires
        0 <= i <= cs.len(),
    ensures
        total_bytes_u32(cs.take(i)) <= total_bytes_u32(cs),
    decreases cs.len(),
{
    if i < cs.len() {
        lemma_total_bytes_u32_prefix_le(cs.drop_last(), i);
        assert(cs.drop_last().take(i) =~= cs.take(i));
    } else {
        assert(cs.take(i) =~= cs);
    }
}

/// The length counted before the current chunk never exceeds the length
/// counted over the whole queue.
pub proof fn law_read_part_within_queue(chunks: Seq<Seq<char>>, idx: nat)
    ensures
        bytes_before(chunks, idx) <= total_bytes_u32(chunks),
{
    lemma_total_bytes_u32_prefix_le(
        chunks,
        if idx <= chunks.len() { idx as int } else { chunks.len() as int },
    );
}

/// UTF-8 length, as a `u32`, of the chunks before the current one, or
/// `None` when it does not fit in a `u32` (where summing it overflows).
pub fn try_chars_before_current_chunk(state: &TtsState) -> (r: Option<u32>)
    ensures
        r is Some <==> bytes_before(state.chunk_views(), state.current_chunk as nat) <= u32::MAX,
        r matches Some(n) ==> n == bytes_before(state.chunk_views(), state.current_chunk as nat),
{
    let ghost cv = state.chunk_views();
    let end = if state.current_chunk <= state.chunks.len() {
        state.current_chunk
    } else {
        state.chunks.len()
    };
    let mut sum: u32 = 0;
    let mut i: usize = 0;
    while i < end
        invariant
            i <= end <= state.chunks.len(),
            end == (if state.current_chunk <= state.chunks.len() {
                state.current_chunk
            } else {
                state.chunks.len()
            }),
            cv == state.chunk_views(),
            cv.len() == state.chunks@.len(),
            sum == total_bytes_u32(cv.take(i as int)),
        decreases end - i,
    {
        proof {
            assert(cv.take(i + 1).drop_last() =~= cv.take(i as int));
            assert(cv.take(i + 1).last() == state.chunks@[i as int]@);
            assert(cv.take(end as int).take(i + 1) =~= cv.take(i + 1));
            lemma_total_bytes_u32_prefix_le(cv.take(end as int), i + 1);
        }
        let len = state.chunks[i].as_str().as_bytes().len();
        match sum.checked_add(len as u32) {
            Some(t) => sum = t,
            None => return None,
        }
        i = i + 1;
    }
    Some(sum)
}

/// UTF-8 length, as a `u32`, of the chunks before the current one.
pub fn get_chars_before_current_chunk(state: &TtsState) -> (r: u32)
    requires
        bytes_before(state.chunk_views(), state.current_chunk as nat) <= u32::MAX,
    ensures
        r == bytes_before(state.chunk_views(), state.current_chunk as nat),
{
    match try_chars_before_current_chunk(state) {
        Some(n) => n,
        None => 0,
    }
}

/// Takes the next queued chunk, if any, and moves past it.
pub fn take_next_chunk(state: &mut TtsState) -> (r: Option<String>)
    ensures
        final(state).mode == old(state).mode,
        final(state).chunks == old(state).chunks,
        final(state).total_chars_spoken == old(state).total_chars_spoken,
        old(state).current_chunk < old(state).chunks@.len() ==> {
            &&& r matches Some(t) && t@ == old(state).chunk_views()[old(state).current_chunk as int]
            &&& final(state).current_chunk == old(state).current_chunk + 1
        },
        old(state).current_chunk >= old(state).chunks@.len() ==> {
            &&& r is None
            &&& final(state).current_chunk == old(state).current_chunk
        },
        old(state).position_in_queue() ==> final(state).position_in_queue(),
{
    if state.current_chunk >= state.chunks.len() {
        return None;
    }
    let text = state.chunks[state.current_chunk].clone();
    state.current_chunk = state.current_chunk + 1;
    Some(text)
}

/// Queues `text` in chunks for reading in `mode` and takes the first chunk.
fn start_session(state: &mut TtsState, mode: TtsMode, text: &str) -> (r: String)
    requires
        chunks_spec(text@, CHUNK_SIZE as nat) is Some,
    ensures
        final(state).mode == mode,
        final(state).chunk_views() == chunks_spec(text@, CHUNK_SIZE as nat)->0,
        final(state).current_chunk == 1,
        final(state).total_chars_spoken == 0,
        final(state).position_in_queue(),
        r@ == (chunks_spec(text@, CHUNK_SIZE as nat)->0)[0],
{
    proof {
        crate::chunking::law_at_least_one_piece(text@, CHUNK_SIZE as nat);
    }
    state.mode = mode;
    state.chunks = chunk_text(text, CHUNK_SIZE);
    state.current_chunk = 0;
    state.total_chars_spoken = 0;
    match take_next_chunk(state) {
        Some(t) => t,
        None => String::new(),
    }
}

/// Starts reading clipboard text unless something is being read. On success
/// the whole text is queued as a single chunk, with no further chunk to
/// advance to, and returned for the voice; while the session is busy
/// nothing changes and the error is `busy`.
pub fn speak_text(text: String, state: &mut TtsState) -> (r: Result<String, String>)
    ensures
        !old(state).mode.is_idle() ==> {
            &&& r matches Err(e) && e@ == "busy"@
            &&& *final(state) == *old(state)
        },
        old(state).mode.is_idle() ==> {
            &&& r matches Ok(t) && t@ == text@
            &&& final(state).mode is PlayingClipboard
            &&& final(state).chunk_views() == seq![text@]
            &&& final(state).current_chunk == 1
            &&& final(state).total_chars_spoken == 0
            &&& final(state).position_in_queue()
        },
{
    if !matches!(state.mode, TtsMode::Idle) {
        return Err("busy".to_owned());
    }
    let mut chunks: Vec<String> = Vec::new();
    chunks.push(text.clone());
    state.mode = TtsMode::PlayingClipboard;
    state.chunks = chunks;
    state.current_chunk = 1;
    state.total_chars_spoken = 0;
    assert(state.chunk_views() =~= seq![text@]);
    Ok(text)
}

/// Starts reading a chapter of a book, replacing whatever was being read;
/// returns the first chunk for the voice.
pub fn speak_book_chapter(
    text: String,
    book_id: String,
    chapter_index: usize,
    total_chapters: usize,
    state: &mut TtsState,
) -> (r: String)
    requires
        chunks_spec(text@, CHUNK_SIZE as nat) is Some,
    ensures
        final(state).mode == (TtsMode::PlayingBook { book_id, chapter_index, total_chapters }),
        final(state).chunk_views() == chunks_spec(text@, CHUNK_SIZE as nat)->0,
        final(state).current_chunk == 1,
        final(state).total_chars_spoken == 0,
        final(state).position_in_queue(),
        r@ == (chunks_spec(text@, CHUNK_SIZE as nat)->0)[0],
{
    start_session(state, TtsMode::PlayingBook { book_id, chapter_index, total_chapters }, text.as_str())
}

/// Ends reading: the session is idle with nothing queued.
pub fn stop_tts(state: &mut TtsState)
    ensures
        final(state).mode is Idle,
        final(state).chunks@.len() == 0,
        final(state).current_chunk == 0,
        final(state).total_chars_spoken == 0,
        final(state).position_in_queue(),
{
    state.mode = TtsMode::Idle;
    state.chunks = Vec::new();
    state.current_chunk = 0;
    state.total_chars_spoken = 0;
}

/// Whether the voice is paused after toggling it: a paused voice (its
/// running state is `pause_state`) is resumed, any other is paused.
pub fn pause_resume_tts(running_state: u32, pause_state: u32) -> (paused: bool)
    ensures
        paused == (running_state != pause_state),
{
    running_state != pause_state
}

/// The voice's speaking rate from a scaled rate: the voice takes -10 to 10.
pub fn set_tts_rate(scaled: i32) -> (r: i32)
    ensures
        scaled < -10 ==> r == -10,
        scaled > 10 ==> r == 10,
        -10 <= scaled <= 10 ==> r == scaled,
{
    if scaled < -10 {
        -10
    } else if scaled > 10 {
        10
    } else {
        scaled
    }
}

/// How the session is described to the interface.
pub open spec fn mode_label(mode: TtsMode) -> Seq<char> {
    match mode {
        TtsMode::Idle => "idle"@,
        TtsMode::PlayingClipboard => "clipboard"@,
        TtsMode::PlayingBook { book_id, chapter_index, .. } => "book:"@ + book_id@ + ":"@ + decimal(
            chapter_index as nat,
        ),
    }
}

/// `idle`, `clipboard`, or `book:<book id>:<chapter index>`.
pub fn mode_string(mode: &TtsMode) -> (r: String)
    ensures
        r@ == mode_label(*mode),
{
    match mode {
        TtsMode::Idle => "idle".to_owned(),
        TtsMode::PlayingClipboard => "clipboard".to_owned(),
        TtsMode::PlayingBook { book_id, chapter_index, .. } => {
            let mut acc: Vec<char> = Vec::new();
            append_str(&mut acc, "book:");
            append_str(&mut acc, book_id.as_str());
            append_str(&mut acc, ":");
            push_decimal(&mut acc, *chapter_index as u64);
            string_from(&acc)
        },
    }
}

/// What to do once the voice has reported how far it has read.
pub enum PositionStep {
    /// Report `(current, total, mode, chunk_done)` to the interface.
    Report(u32, u32, String, bool),
    /// The current chunk is read and another is queued: hand `text` to the
    /// voice, read its state again and call `position_after_next_chunk`
    /// with `total` and `mode`.
    SpeakNext { text: String, total: u32, mode: String },
}

/// The total length reported to the interface: the queued length as a `u32`.
pub open spec fn reported_total(state: TtsState) -> u32 {
    (total_bytes(state.chunk_views()) as usize) as u32
}

/// Reading position from what the voice reports: its running state
/// (0 once it is done) and its position in the current chunk. When the
/// voice is done with a chunk, has read up to the end, and more chunks are
/// queued, the next one is taken and is to be spoken.
pub fn get_speech_position(state: &mut TtsState, running_state: u32, word_pos: u32) -> (r: PositionStep)
    requires
        total_bytes(old(state).chunk_views()) <= usize::MAX,
        bytes_before(old(state).chunk_views(), old(state).current_chunk as nat) + word_pos <= u32::MAX,
    ensures
        ({
            let total = reported_total(*old(state));
            let current = bytes_before(old(state).chunk_views(), old(state).current_chunk as nat) + word_pos;
            let done = running_state == 0 && total > 0 && current >= total;
            let label = mode_label(old(state).mode);
            if done && old(state).current_chunk < old(state).chunks@.len() {
                &&& r matches PositionStep::SpeakNext { text, total: t, mode }
                &&& text@ == old(state).chunk_views()[old(state).current_chunk as int]
                &&& t == total
                &&& mode@ == label
                &&& final(state).current_chunk == old(state).current_chunk + 1
                &&& final(state).mode == old(state).mode
                &&& final(state).chunks == old(state).chunks
                &&& final(state).total_chars_spoken == old(state).total_chars_spoken
            } else {
                &&& r matches PositionStep::Report(c, t, mode, d)
                &&& c == current && t == total && mode@ == label && d == done
                &&& *final(state) == *old(state)
            }
        }),
        old(state).current_chunk >= old(state).chunks@.len() ==> r is Report && *final(state)
            == *old(state),
        old(state).position_in_queue() ==> final(state).position_in_queue(),
{
    let mode = mode_string(&state.mode);
    let total = get_total_chars(state) as u32;
    let before = get_chars_before_current_chunk(state);
    let current = before + word_pos;
    let is_done = running_state == 0 && total > 0 && current >= total;
    if is_done {
        let has_more = state.current_chunk < state.chunks.len();
        if has_more {
            let text = match take_next_chunk(state) {
                Some(t) => t,
                None => String::new(),
            };
            return PositionStep::SpeakNext { text, total, mode };
        }
    }
    PositionStep::Report(current, total, mode, is_done)
}

/// Reading position once the next chunk has been handed to the voice and the
/// voice reported its position in it again.
pub fn position_after_next_chunk(state: &TtsState, word_pos: u32, total: u32, mode: String) -> (r: (u32, u32, String, bool))
    requires
        bytes_before(state.chunk_views(), state.current_chunk as nat) + word_pos <= u32::MAX,
    ensures
        r.0 == bytes_before(state.chunk_views(), state.current_chunk as nat) + word_pos,
        r.1 == total,
        r.2 == mode,
        !r.3,
{
    let before = get_chars_before_current_chunk(state);
    (before + word_pos, total, mode, false)
}

/// Longest clipboard text, in UTF-8 bytes, that is read out whole.
pub const MAX_CLIPBOARD_LEN: usize = 5000;

/// The clipboard text as it is shown and read: text longer than
/// `MAX_CLIPBOARD_LEN` bytes is cut to its first `MAX_CLIPBOARD_LEN`
/// characters and marked as truncated.
pub open spec fn clipboard_display(text: Seq<char>) -> Seq<char> {
    if utf8_len(text) > MAX_CLIPBOARD_LEN {
        text.take(if text.len() <= MAX_CLIPBOARD_LEN { text.len() as int } else { MAX_CLIPBOARD_LEN as int })
            + "... (text truncated)"@
    } else {
        text
    }
}

/// What the read-clipboard hotkey reads out: nothing when the clipboard
/// holds only white space, else the clipboard text as it is displayed.
pub fn clipboard_text_to_speak(text: &str) -> (r: Option<String>)
    ensures
        trim(text@).len() == 0 ==> r is None,
        trim(text@).len() > 0 ==> (r matches Some(t) && t@ == clipboard_display(text@)),
{
    let trimmed = trim_string(text);
    if trimmed.as_str().is_empty() {
        return None;
    }
    let cs = chars_of(text);
    if text.as_bytes().len() > MAX_CLIPBOARD_LEN {
        let n = if cs.len() <= MAX_CLIPBOARD_LEN {
            cs.len()
        } else {
            MAX_CLIPBOARD_LEN
        };
        let head = string_of(&cs, 0, n);
        let mut acc: Vec<char> = Vec::new();
        append_str(&mut acc, head.as_str());
        append_str(&mut acc, "... (text truncated)");
        assert(cs@.subrange(0, n as int) =~= text@.take(n as int));
        Some(string_from(&acc))
    } else {
        Some(string_from(&cs))
    }
}

} // verus!
