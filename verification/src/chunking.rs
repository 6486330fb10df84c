//! Splitting long text into pieces of bounded UTF-8 length for speech.
//!
//! Lengths are counted in UTF-8 bytes, as `str::len` does: a piece ends at
//! the last sentence end (`.`, `!`, `?`) inside the budget, else before the
//! last space, else at the budget itself; white space after a cut is dropped.

use vstd::prelude::*;
use vstd::utf8::*;
use crate::text::{
    law_white_space_is_unicode, white_space_table, chars_of, is_ws, lemma_filter_all_ws, lemma_trim_start_suffix, not_ws, skip_white_space,
    string_of, trim_start,
};

verus! {

/// Number of bytes in the UTF-8 encoding of `c`.
pub open spec fn char_width(c: char) -> nat {
    encode_scalar(c as u32).len()
}

/// Number of bytes in the UTF-8 encoding of `s` (what `str::len` returns).
pub open spec fn utf8_len(s: Seq<char>) -> nat {
    encode_utf8(s).len()
}

/// The encoding of a concatenation is the concatenation of the encodings.
pub proof fn lemma_encode_concat(a: Seq<char>, b: Seq<char>)
    ensures
        encode_utf8(a + b) =~= encode_utf8(a) + encode_utf8(b),
    decreases a.len(),
{
    if a.len() > 0 {
        assert((a + b).drop_first() =~= a.drop_first() + b);
        lemma_encode_concat(a.drop_first(), b);
    } else {
        assert(a + b =~= b);
    }
}

proof fn lemma_width_range(c: char)
    ensures
        1 <= char_width(c) <= 4,
        (c as u32) <= 0x7F ==> char_width(c) == 1,
        0x80 <= (c as u32) <= 0x7FF ==> char_width(c) == 2,
        0x800 <= (c as u32) <= 0xFFFF ==> char_width(c) == 3,
        0x10000 <= (c as u32) ==> char_width(c) == 4,
{
    char_is_scalar(c);
}

/// Length of a prefix plus the length of the rest is the whole length.
pub proof fn lemma_utf8_len_split(s: Seq<char>, i: int)
    requires
        0 <= i <= s.len(),
    ensures
        utf8_len(s) == utf8_len(s.take(i)) + utf8_len(s.skip(i)),
{
    assert(s =~= s.take(i) + s.skip(i));
    lemma_encode_concat(s.take(i), s.skip(i));
}

/// Appending a character adds its width.
pub proof fn lemma_utf8_len_push(s: Seq<char>, c: char)
    ensures
        utf8_len(s.push(c)) == utf8_len(s) + char_width(c),
{
    lemma_encode_concat(s, seq![c]);
    assert(seq![c].drop_first() =~= Seq::<char>::empty());
    assert(encode_utf8(seq![c]) =~= encode_scalar(c as u32) + encode_utf8(Seq::<char>::empty()));
    assert(s + seq![c] =~= s.push(c));
}

/// Width of the UTF-8 encoding of `c` (`char::len_utf8`).
pub fn utf8_width(c: char) -> (w: usize)
    ensures
        w == char_width(c),
        1 <= w <= 4,
{
    proof {
        lemma_width_range(c);
    }
    let u = c as u32;
    if u <= 0x7F {
        1
    } else if u <= 0x7FF {
        2
    } else if u <= 0xFFFF {
        3
    } else {
        4
    }
}

/// Number of leading characters of `s` whose encoding fits in `budget` bytes.
pub open spec fn fitting_prefix(s: Seq<char>, budget: int) -> nat
    decreases s.len(),
{
    if s.len() == 0 || char_width(s[0]) > budget {
        0
    } else {
        1 + fitting_prefix(s.drop_first(), budget - char_width(s[0]))
    }
}

/// Index of the last character of `w` satisfying `p`.
pub open spec fn last_index_where(w: Seq<char>, p: spec_fn(char) -> bool) -> Option<nat>
    decreases w.len(),
{
    if w.len() == 0 {
        None
    } else if p(w.last()) {
        Some((w.len() - 1) as nat)
    } else {
        last_index_where(w.drop_last(), p)
    }
}

pub open spec fn is_sentence_end(c: char) -> bool {
    c == '.' || c == '!' || c == '?'
}

pub open spec fn is_space(c: char) -> bool {
    c == ' '
}

/// The characters a window is cut at: sentence ends, or else spaces.
pub open spec fn cut_class(sentence: bool) -> spec_fn(char) -> bool {
    |c: char| if sentence { is_sentence_end(c) } else { is_space(c) }
}

/// Where a window of text is cut: after its last sentence end, else at its
/// last space, else at its end.
pub open spec fn cut_point(w: Seq<char>) -> nat {
    match last_index_where(w, cut_class(true)) {
        Some(i) => i + 1,
        None => match last_index_where(w, cut_class(false)) {
            Some(i) => i,
            None => w.len(),
        },
    }
}

/// The pieces of `s` (already known to be longer than `max` or empty), or
/// `None` where cutting panics (the budget falls inside a character) or
/// never ends (no progress is made).
pub open spec fn chunk_rest(s: Seq<char>, max: nat) -> Option<Seq<Seq<char>>>
    decreases s.len(),
{
    if s.len() == 0 {
        Some(Seq::empty())
    } else if utf8_len(s) <= max {
        Some(seq![s])
    } else {
        let k = fitting_prefix(s, max as int);
        let w = s.take(k as int);
        if utf8_len(w) != max {
            None
        } else {
            let cut = cut_point(w);
            let rest = trim_start(s.skip(cut as int));
            if rest.len() >= s.len() {
                None
            } else {
                match chunk_rest(rest, max) {
                    Some(t) => Some(seq![s.take(cut as int)] + t),
                    None => None,
                }
            }
        }
    }
}

/// The pieces that `chunk_text(s, max)` returns, or `None` for the inputs on
/// which it would panic or never return.
pub open spec fn chunks_spec(s: Seq<char>, max: nat) -> Option<Seq<Seq<char>>> {
    if utf8_len(s) <= max {
        Some(seq![s])
    } else {
        chunk_rest(s, max)
    }
}

pub open spec fn string_views(v: Seq<String>) -> Seq<Seq<char>> {
    v.map_values(|c: String| c@)
}

proof fn lemma_fitting_prefix_step(s: Seq<char>, budget: int, j: int, acc: int)
    requires
        0 <= j < s.len(),
        fitting_prefix(s, budget) == j + fitting_prefix(s.skip(j), budget - acc),
        char_width(s[j]) <= budget - acc,
    ensures
        fitting_prefix(s, budget) == (j + 1) + fitting_prefix(
            s.skip(j + 1),
            budget - (acc + char_width(s[j])),
        ),
{
    assert(s.skip(j).drop_first() =~= s.skip(j + 1));
    assert(s.skip(j)[0] == s[j]);
}

proof fn lemma_fitting_prefix_le(s: Seq<char>, budget: int)
    ensures
        fitting_prefix(s, budget) <= s.len(),
    decreases s.len(),
{
    if s.len() > 0 && char_width(s[0]) <= budget {
        lemma_fitting_prefix_le(s.drop_first(), budget - char_width(s[0]));
    }
}

/// Number of bytes of `cs[from..to]`.
fn bytes_between(cs: &Vec<char>, from: usize, to: usize) -> (b: usize)
    requires
        from <= to <= cs.len(),
        utf8_len(cs@) <= usize::MAX,
    ensures
        b == utf8_len(cs@.subrange(from as int, to as int)),
{
    let mut b: usize = 0;
    let mut i = from;
    proof {
        lemma_utf8_len_split(cs@, to as int);
        lemma_utf8_len_split(cs@.take(to as int), from as int);
        assert(cs@.take(to as int).skip(from as int) =~= cs@.subrange(from as int, to as int));
    }
    while i < to
        invariant
            from <= i <= to <= cs.len(),
            b == utf8_len(cs@.subrange(from as int, i as int)),
            utf8_len(cs@.subrange(from as int, to as int)) <= usize::MAX,
        decreases to - i,
    {
        proof {
            let sub = cs@.subrange(from as int, to as int);
            assert(cs@.subrange(from as int, i + 1) =~= cs@.subrange(from as int, i as int).push(
                cs@[i as int],
            ));
            lemma_utf8_len_push(cs@.subrange(from as int, i as int), cs@[i as int]);
            assert(sub.take(i + 1 - from) =~= cs@.subrange(from as int, i + 1));
            lemma_utf8_len_split(sub, i + 1 - from);
        }
        b = b + utf8_width(cs[i]);
        i = i + 1;
    }
    b
}

/// Number of characters from `start` whose encoding fits in `max` bytes,
/// with the number of bytes they take.
fn fitting_window(cs: &Vec<char>, start: usize, max: usize) -> (r: (usize, usize))
    requires
        start <= cs.len(),
    ensures
        r.0 == fitting_prefix(cs@.skip(start as int), max as int),
        r.1 == utf8_len(cs@.skip(start as int).take(r.0 as int)),
        r.1 <= max,
        start + r.0 <= cs.len(),
{
    let ghost s = cs@.skip(start as int);
    let mut j: usize = 0;
    let mut acc: usize = 0;
    proof {
        assert(s.skip(0) =~= s);
        assert(s.take(0) =~= Seq::<char>::empty());
    }
    while start + j < cs.len() && utf8_width(cs[start + j]) <= max - acc
        invariant
            start <= cs.len(),
            s == cs@.skip(start as int),
            start + j <= cs.len(),
            acc <= max,
            acc == utf8_len(s.take(j as int)),
            fitting_prefix(s, max as int) == j + fitting_prefix(s.skip(j as int), max - acc),
        decreases cs.len() - (start + j),
    {
        proof {
            assert(s[j as int] == cs@[start + j]);
            lemma_fitting_prefix_step(s, max as int, j as int, acc as int);
            assert(s.take(j + 1) =~= s.take(j as int).push(s[j as int]));
            lemma_utf8_len_push(s.take(j as int), s[j as int]);
        }
        acc = acc + utf8_width(cs[start + j]);
        j = j + 1;
    }
    proof {
        if start + j < cs.len() {
            assert(s.skip(j as int)[0] == cs@[start + j]);
        } else {
            assert(s.skip(j as int).len() == 0);
        }
    }
    (j, acc)
}

spec fn same_index(r: Option<usize>, o: Option<nat>) -> bool {
    match o {
        Some(i) => r == Some(i as usize),
        None => r is None,
    }
}

/// Index in `cs[from..to]` of the last character satisfying `p`.
fn last_matching(cs: &Vec<char>, from: usize, to: usize, sentence: bool) -> (r: Option<usize>)
    requires
        from <= to <= cs.len(),
    ensures
        same_index(r, last_index_where(cs@.subrange(from as int, to as int), cut_class(sentence))),
{
    let ghost p = cut_class(sentence);
    let mut j = to;
    while j > from
        invariant
            from <= j <= to <= cs.len(),
            p == cut_class(sentence),
            last_index_where(cs@.subrange(from as int, to as int), p) == last_index_where(
                cs@.subrange(from as int, j as int),
                p,
            ),
        decreases j,
    {
        let c = cs[j - 1];
        let hit = if sentence {
            c == '.' || c == '!' || c == '?'
        } else {
            c == ' '
        };
        assert(cs@.subrange(from as int, j as int).last() == c);
        assert(p(c) == (if sentence { is_sentence_end(c) } else { is_space(c) }));
        assert(hit == p(c));
        if hit {
            return Some(j - 1 - from);
        }
        assert(cs@.subrange(from as int, j as int).drop_last() =~= cs@.subrange(from as int, j - 1));
        j = j - 1;
    }
    None
}

/// Where the window `cs[from..to]` is cut, relative to `from`.
fn cut_in_window(cs: &Vec<char>, from: usize, to: usize) -> (r: usize)
    requires
        from <= to <= cs.len(),
    ensures
        r == cut_point(cs@.subrange(from as int, to as int)),
        r <= to - from,
{
    proof {
        lemma_last_index_bound(cs@.subrange(from as int, to as int), cut_class(true));
        lemma_last_index_bound(cs@.subrange(from as int, to as int), cut_class(false));
    }
    match last_matching(cs, from, to, true) {
        Some(i) => i + 1,
        None => match last_matching(cs, from, to, false) {
            Some(i) => i,
            None => to - from,
        },
    }
}

proof fn lemma_last_index_bound(w: Seq<char>, p: spec_fn(char) -> bool)
    ensures
        last_index_where(w, p) matches Some(i) ==> i < w.len() && p(w[i as int]),
    decreases w.len(),
{
    if w.len() > 0 && !p(w.last()) {
        lemma_last_index_bound(w.drop_last(), p);
    }
}

/// Splits `text` into pieces of at most `max_chars` bytes, or `None` where
/// splitting it panics (`max_chars` falls inside a character) or never ends
/// (`max_chars` is zero and the text does not start with white space).
pub fn try_chunk_text(text: &str, max_chars: usize) -> (r: Option<Vec<String>>)
    ensures
        r is Some <==> chunks_spec(text@, max_chars as nat) is Some,
        r matches Some(v) ==> string_views(v@) == chunks_spec(text@, max_chars as nat)->0,
{
    let max = max_chars;
    let total = text.as_bytes().len();
    if total <= max {
        let mut v: Vec<String> = Vec::new();
        v.push(text.to_owned());
        assert(string_views(v@) =~= seq![text@]);
        return Some(v);
    }
    let cs = chars_of(text);
    let n = cs.len();
    let mut out: Vec<String> = Vec::new();
    let mut start: usize = 0;
    let mut rem: usize = total;
    assert(cs@.skip(0) =~= cs@);
    assert(string_views(out@) =~= Seq::<Seq<char>>::empty());
    loop
        invariant
            max == max_chars,
            n == cs.len(),
            cs@ == text@,
            start <= n,
            utf8_len(cs@) <= usize::MAX,
            utf8_len(cs@) > max,
            rem == utf8_len(cs@.skip(start as int)),
            chunk_rest(cs@, max as nat) == (match chunk_rest(cs@.skip(start as int), max as nat) {
                Some(t) => Some(string_views(out@) + t),
                None => None,
            }),
        decreases n - start,
    {
        let ghost s = cs@.skip(start as int);
        if start == n {
            assert(s.len() == 0);
            assert(string_views(out@) + Seq::<Seq<char>>::empty() =~= string_views(out@));
            return Some(out);
        }
        if rem <= max {
            let piece = string_of(&cs, start, n);
            assert(piece@ =~= s);
            let ghost before = string_views(out@);
            out.push(piece);
            assert(string_views(out@) =~= before + seq![s]);
            return Some(out);
        }
        let (k, wbytes) = fitting_window(&cs, start, max);
        assert(s.take(k as int) =~= cs@.subrange(start as int, (start + k) as int));
        if wbytes != max {
            return None;
        }
        let cut_rel = cut_in_window(&cs, start, start + k);
        let cut = start + cut_rel;
        let next = skip_white_space(&cs, cut);
        assert(s.skip(cut_rel as int) =~= cs@.skip(cut as int));
        if next == start {
            return None;
        }
        let piece = string_of(&cs, start, cut);
        assert(piece@ =~= s.take(cut_rel as int));
        proof {
            lemma_utf8_len_split(cs@, start as int);
            lemma_utf8_len_split(cs@.skip(start as int), (next - start) as int);
            assert(cs@.skip(start as int).take((next - start) as int) =~= cs@.subrange(
                start as int,
                next as int,
            ));
            assert(cs@.skip(start as int).skip((next - start) as int) =~= cs@.skip(next as int));
        }
        let consumed = bytes_between(&cs, start, next);
        let ghost before = string_views(out@);
        out.push(piece);
        assert(string_views(out@) =~= before.push(s.take(cut_rel as int)));
        proof {
            let t = chunk_rest(cs@.skip(next as int), max as nat);
            if let Some(tt) = t {
                assert(before + (seq![s.take(cut_rel as int)] + tt) =~= before.push(
                    s.take(cut_rel as int),
                ) + tt);
            }
        }
        rem = rem - consumed;
        start = next;
    }
}

/// Splits `text` into pieces for speech (see `chunks_spec`).
pub fn chunk_text(text: &str, max_chars: usize) -> (r: Vec<String>)
    requires
        chunks_spec(text@, max_chars as nat) is Some,
    ensures
        string_views(r@) == chunks_spec(text@, max_chars as nat)->0,
{
    match try_chunk_text(text, max_chars) {
        Some(v) => v,
        None => Vec::new(),
    }
}

proof fn lemma_prefix_len_le(s: Seq<char>, i: int, j: int)
    requires
        0 <= i <= j <= s.len(),
    ensures
        utf8_len(s.take(i)) <= utf8_len(s.take(j)),
{
    lemma_utf8_len_split(s.take(j), i);
    assert(s.take(j).take(i) =~= s.take(i));
}

proof fn lemma_cut_point_le(w: Seq<char>)
    ensures
        cut_point(w) <= w.len(),
{
    lemma_last_index_bound(w, cut_class(true));
    lemma_last_index_bound(w, cut_class(false));
}

/// Every piece of the text is at most `max` bytes long.
pub proof fn law_pieces_fit(s: Seq<char>, max: nat)
    requires
        chunks_spec(s, max) is Some,
    ensures
        forall|i: int|
            0 <= i < (chunks_spec(s, max)->0).len() ==> utf8_len(
                #[trigger] (chunks_spec(s, max)->0)[i],
            ) <= max,
{
    if utf8_len(s) > max {
        lemma_rest_pieces_fit(s, max);
    }
}

proof fn lemma_rest_pieces_fit(s: Seq<char>, max: nat)
    requires
        chunk_rest(s, max) is Some,
    ensures
        forall|i: int|
            0 <= i < (chunk_rest(s, max)->0).len() ==> utf8_len(
                #[trigger] (chunk_rest(s, max)->0)[i],
            ) <= max,
    decreases s.len(),
{
    if s.len() > 0 && utf8_len(s) > max {
        let k = fitting_prefix(s, max as int);
        let w = s.take(k as int);
        let cut = cut_point(w);
        let rest = trim_start(s.skip(cut as int));
        lemma_fitting_prefix_le(s, max as int);
        lemma_cut_point_le(w);
        lemma_prefix_len_le(s, cut as int, k as int);
        lemma_rest_pieces_fit(rest, max);
        let t = chunk_rest(rest, max)->0;
        assert forall|i: int| 0 <= i < (chunk_rest(s, max)->0).len() implies utf8_len(
            #[trigger] (chunk_rest(s, max)->0)[i],
        ) <= max by {
            if i > 0 {
                assert((chunk_rest(s, max)->0)[i] == t[i - 1]);
            }
        }
    }
}

/// Splitting never loses text: apart from white space, the pieces put back
/// together are the text that was split.
pub proof fn law_text_preserved(s: Seq<char>, max: nat)
    requires
        chunks_spec(s, max) is Some,
    ensures
        (chunks_spec(s, max)->0).flatten().filter(not_ws()) =~= s.filter(not_ws()),
{
    if utf8_len(s) > max {
        lemma_rest_preserved(s, max);
    } else {
        seq![s].lemma_flatten_one_element();
    }
}

proof fn lemma_rest_preserved(s: Seq<char>, max: nat)
    requires
        chunk_rest(s, max) is Some,
    ensures
        (chunk_rest(s, max)->0).flatten().filter(not_ws()) =~= s.filter(not_ws()),
    decreases s.len(),
{
    broadcast use Seq::filter_distributes_over_add;

    if s.len() == 0 {
        reveal_with_fuel(Seq::filter, 1);
    } else if utf8_len(s) <= max {
        seq![s].lemma_flatten_one_element();
    } else {
        let k = fitting_prefix(s, max as int);
        let w = s.take(k as int);
        let cut = cut_point(w);
        let tail = s.skip(cut as int);
        let rest = trim_start(tail);
        lemma_fitting_prefix_le(s, max as int);
        lemma_cut_point_le(w);
        lemma_rest_preserved(rest, max);
        lemma_trim_start_suffix(tail);
        let m = tail.len() - rest.len();
        assert(tail =~= tail.take(m) + rest);
        assert forall|i: int| 0 <= i < tail.take(m).len() implies is_ws(
            #[trigger] tail.take(m)[i],
        ) by {
            assert(tail.take(m)[i] == tail[i]);
        }
        lemma_filter_all_ws(tail.take(m));
        assert(s =~= s.take(cut as int) + tail);
        let t = chunk_rest(rest, max)->0;
        assert((seq![s.take(cut as int)] + t).drop_first() =~= t);
        assert((seq![s.take(cut as int)] + t).flatten() =~= s.take(cut as int) + t.flatten());
        assert(tail.filter(not_ws()) =~= tail.take(m).filter(not_ws()) + rest.filter(not_ws()));
    }
}

/// Any text gives at least one piece.
pub proof fn law_at_least_one_piece(s: Seq<char>, max: nat)
    requires
        chunks_spec(s, max) is Some,
    ensures
        (chunks_spec(s, max)->0).len() >= 1,
{
    if utf8_len(s) > max {
        assert(s.len() > 0);
    }
}

proof fn lemma_utf8_len_first(s: Seq<char>)
    requires
        s.len() > 0,
    ensures
        utf8_len(s) == char_width(s[0]) + utf8_len(s.drop_first()),
{
}

/// A prefix whose encoding takes exactly `budget` bytes is the longest one
/// that fits in `budget` bytes.
proof fn lemma_fitting_prefix_exact(s: Seq<char>, k: int, budget: int)
    requires
        0 <= k <= s.len(),
        utf8_len(s.take(k)) == budget,
    ensures
        fitting_prefix(s, budget) == k,
    decreases s.len(),
{
    if s.len() > 0 {
        lemma_width_range(s[0]);
        if k == 0 {
            assert(s.take(0) =~= Seq::<char>::empty());
        } else {
            let t = s.take(k);
            lemma_utf8_len_first(t);
            assert(t.drop_first() =~= s.drop_first().take(k - 1));
            assert(t[0] == s[0]);
            lemma_fitting_prefix_exact(s.drop_first(), k - 1, budget - char_width(s[0]));
        }
    }
}

proof fn lemma_last_index_where_at(w: Seq<char>, p: spec_fn(char) -> bool, i: int)
    requires
        0 <= i < w.len(),
        p(w[i]),
        forall|j: int| i < j < w.len() ==> !p(#[trigger] w[j]),
    ensures
        last_index_where(w, p) == Some(i as nat),
    decreases w.len(),
{
    if i < w.len() - 1 {
        assert(!p(w.last()));
        let d = w.drop_last();
        assert(d[i] == w[i]);
        assert forall|j: int| i < j < d.len() implies !p(#[trigger] d[j]) by {
            assert(d[j] == w[j]);
        }
        lemma_last_index_where_at(d, p, i);
    }
}

proof fn lemma_last_index_where_none(w: Seq<char>, p: spec_fn(char) -> bool)
    requires
        forall|j: int| 0 <= j < w.len() ==> !p(#[trigger] w[j]),
    ensures
        last_index_where(w, p) is None,
    decreases w.len(),
{
    if w.len() > 0 {
        let d = w.drop_last();
        assert forall|j: int| 0 <= j < d.len() implies !p(#[trigger] d[j]) by {
            assert(d[j] == w[j]);
        }
        lemma_last_index_where_none(d, p);
    }
}

/// Where a text longer than the budget is cut. Let `w` be its longest
/// prefix whose encoding takes exactly `max` bytes. The first piece ends
/// just after the last `.`, `!` or `?` of `w`; when `w` has none, it ends
/// before the last space of `w`; when `w` has neither, it is `w`.
pub proof fn law_first_piece_cut(s: Seq<char>, max: nat, k: int)
    requires
        chunks_spec(s, max) is Some,
        utf8_len(s) > max,
        0 <= k <= s.len(),
        utf8_len(s.take(k)) == max,
    ensures
        ({
            let first = (chunks_spec(s, max)->0)[0];
            &&& forall|i: int|
                0 <= i < k && (s[i] == '.' || s[i] == '!' || s[i] == '?') && (forall|j: int|
                    i < j < k ==> !(s[j] == '.' || s[j] == '!' || s[j] == '?')) ==> first == s.take(
                    i + 1,
                )
            &&& (forall|j: int| 0 <= j < k ==> !(s[j] == '.' || s[j] == '!' || s[j] == '?'))
                ==> forall|i: int|
                0 <= i < k && s[i] == ' ' && (forall|j: int| i < j < k ==> s[j] != ' ')
                    ==> first == s.take(i)
            &&& (forall|j: int|
                0 <= j < k ==> !(s[j] == '.' || s[j] == '!' || s[j] == '?') && s[j] != ' ')
                ==> first == s.take(k)
        }),
{
    lemma_fitting_prefix_exact(s, k, max as int);
    let w = s.take(k);
    assert(s.len() > 0);
    let cut = cut_point(w);
    assert((chunk_rest(s, max)->0)[0] == s.take(cut as int));
    let first = (chunks_spec(s, max)->0)[0];
    assert forall|i: int|
        0 <= i < k && (s[i] == '.' || s[i] == '!' || s[i] == '?') && (forall|j: int|
            i < j < k ==> !(s[j] == '.' || s[j] == '!' || s[j] == '?')) implies first == s.take(
        i + 1,
    ) by {
        assert forall|j: int| i < j < w.len() implies !cut_class(true)(#[trigger] w[j]) by {
            assert(w[j] == s[j]);
        }
        lemma_last_index_where_at(w, cut_class(true), i);
    }
    if forall|j: int| 0 <= j < k ==> !(s[j] == '.' || s[j] == '!' || s[j] == '?') {
        assert forall|j: int| 0 <= j < w.len() implies !cut_class(true)(#[trigger] w[j]) by {
            assert(w[j] == s[j]);
        }
        lemma_last_index_where_none(w, cut_class(true));
        assert forall|i: int|
            0 <= i < k && s[i] == ' ' && (forall|j: int| i < j < k ==> s[j] != ' ') implies first
            == s.take(i) by {
            assert forall|j: int| i < j < w.len() implies !cut_class(false)(#[trigger] w[j]) by {
                assert(w[j] == s[j]);
            }
            lemma_last_index_where_at(w, cut_class(false), i);
        }
        if forall|j: int| 0 <= j < k ==> !(s[j] == '.' || s[j] == '!' || s[j] == '?') && s[j] != ' ' {
            assert forall|j: int| 0 <= j < w.len() implies !cut_class(false)(#[trigger] w[j]) by {
                assert(w[j] == s[j]);
            }
            lemma_last_index_where_none(w, cut_class(false));
        }
    }
}

proof fn lemma_first_piece_starts(x: Seq<char>, max: nat)
    requires
        chunk_rest(x, max) is Some,
        x.len() > 0,
        !is_ws(x[0]),
    ensures
        (chunk_rest(x, max)->0).len() > 0,
        (chunk_rest(x, max)->0)[0].len() > 0,
        (chunk_rest(x, max)->0)[0][0] == x[0],
{
    if utf8_len(x) > max {
        let k = fitting_prefix(x, max as int);
        lemma_fitting_prefix_le(x, max as int);
        let w = x.take(k as int);
        lemma_cut_point_le(w);
        let cut = cut_point(w);
        if cut == 0 {
            assert(x.skip(0) =~= x);
            assert(trim_start(x) == x);
        }
        assert((chunk_rest(x, max)->0)[0] == x.take(cut as int));
    }
}

proof fn lemma_later_pieces_start(x: Seq<char>, max: nat)
    requires
        chunk_rest(x, max) is Some,
    ensures
        forall|i: int|
            1 <= i < (chunk_rest(x, max)->0).len() ==> (#[trigger] (chunk_rest(x, max)->0)[i]).len()
                > 0 && !is_ws((chunk_rest(x, max)->0)[i][0]),
    decreases x.len(),
{
    if x.len() > 0 && utf8_len(x) > max {
        let k = fitting_prefix(x, max as int);
        let w = x.take(k as int);
        let cut = cut_point(w);
        let rest = trim_start(x.skip(cut as int));
        let t = chunk_rest(x, max)->0;
        let t2 = chunk_rest(rest, max)->0;
        lemma_later_pieces_start(rest, max);
        assert(t == seq![x.take(cut as int)] + t2);
        if t2.len() > 0 {
            assert(rest.len() > 0);
            lemma_trim_start_suffix(x.skip(cut as int));
            lemma_first_piece_starts(rest, max);
        }
        assert forall|i: int| 1 <= i < t.len() implies (#[trigger] t[i]).len() > 0 && !is_ws(t[i][0]) by {
            assert(t[i] == t2[i - 1]);
        }
    }
}

/// Every piece after the first starts with text: white space at a cut is
/// dropped, and no piece after the first is empty.
pub proof fn law_later_pieces_start_with_text(s: Seq<char>, max: nat)
    requires
        chunks_spec(s, max) is Some,
    ensures
        forall|i: int|
            1 <= i < (chunks_spec(s, max)->0).len() ==> (#[trigger] (chunks_spec(s, max)->0)[i]).len()
                > 0 && !white_space_table().contains((chunks_spec(s, max)->0)[i][0]),
{
    let t = chunks_spec(s, max)->0;
    if utf8_len(s) > max {
        lemma_later_pieces_start(s, max);
        assert forall|i: int| 1 <= i < t.len() implies (#[trigger] t[i]).len() > 0
            && !white_space_table().contains(t[i][0]) by {
            law_white_space_is_unicode(t[i][0]);
        }
    }
}

} // verus!
