//! Turning HTML into plain text by dropping tags: every tag becomes a line
//! break, `script` and `style` content is skipped, and runs of line breaks
//! are collapsed into one.

use vstd::prelude::*;
use crate::text::{
    chars_of, leading_count, lemma_leading_count_bound, lemma_leading_count_step,
    lemma_leading_count_stop, lowercase, same_text, string_of, to_lowercase,
};

verus! {

/// Characters that can be part of a tag name: anything but `>` and space.
pub open spec fn tag_name_char() -> spec_fn(char) -> bool {
    |c: char| c != '>' && c != ' '
}

/// Characters before the end of a tag.
pub open spec fn before_tag_end() -> spec_fn(char) -> bool {
    |c: char| c != '>'
}

/// The tag name that follows a `<` (`body` is what comes after the `<`).
pub open spec fn tag_name(body: Seq<char>) -> Seq<char> {
    body.take(leading_count(body, tag_name_char()) as int)
}

/// Where the text resumes after the tag that `body` starts with: just after
/// its `>`, or at the end when there is none.
pub open spec fn after_tag(body: Seq<char>) -> nat {
    let j = leading_count(body, before_tag_end());
    if j < body.len() {
        j + 1
    } else {
        j
    }
}

pub open spec fn opens_skipped(lower: Seq<char>) -> bool {
    lower == "script"@ || lower == "style"@
}

pub open spec fn closes_skipped(lower: Seq<char>) -> bool {
    lower == "/script"@ || lower == "/style"@
}

/// The text of `s` with each tag replaced by a line break, where `skipping`
/// tells whether we are inside `script` or `style`.
pub open spec fn raw_text(s: Seq<char>, skipping: bool) -> Seq<char>
    decreases s.len(),
{
    if s.len() == 0 {
        Seq::empty()
    } else if s[0] == '<' {
        let body = s.drop_first();
        let lower = lowercase(tag_name(body));
        let rest = body.skip(after_tag(body) as int);
        proof {
            lemma_leading_count_bound(body, before_tag_end());
        }
        if opens_skipped(lower) {
            raw_text(rest, true)
        } else if closes_skipped(lower) {
            raw_text(rest, false)
        } else if !skipping {
            seq!['\n'] + raw_text(rest, skipping)
        } else {
            raw_text(rest, skipping)
        }
    } else if skipping {
        raw_text(s.drop_first(), skipping)
    } else {
        seq![s[0]] + raw_text(s.drop_first(), skipping)
    }
}

/// `s` with every run of line breaks replaced by a single one; `after_newline`
/// tells whether the text before `s` ended with a line break.
pub open spec fn collapse_newlines(s: Seq<char>, after_newline: bool) -> Seq<char>
    decreases s.len(),
{
    if s.len() == 0 {
        Seq::empty()
    } else if s[0] == '\n' {
        if after_newline {
            collapse_newlines(s.drop_first(), true)
        } else {
            seq!['\n'] + collapse_newlines(s.drop_first(), true)
        }
    } else {
        seq![s[0]] + collapse_newlines(s.drop_first(), false)
    }
}

/// The plain text that `strip_html` gives for `html`.
pub open spec fn stripped(html: Seq<char>) -> Seq<char> {
    collapse_newlines(raw_text(html, false), false)
}

/// End of the tag name after a `<` at `cs[from - 1]`, and where the text resumes.
fn scan_tag(cs: &Vec<char>, from: usize) -> (r: (usize, usize))
    requires
        1 <= from <= cs.len(),
    ensures
        ({
            let body = cs@.skip(from as int);
            &&& r.0 == from + leading_count(body, tag_name_char())
            &&& r.1 == from + after_tag(body)
            &&& from <= r.0 <= r.1 <= cs.len()
        }),
{
    let ghost body = cs@.skip(from as int);
    let mut j = from;
    assert(body.skip(0) =~= body);
    while j < cs.len() && cs[j] != '>' && cs[j] != ' '
        invariant
            from <= j <= cs.len(),
            body == cs@.skip(from as int),
            leading_count(body, tag_name_char()) == (j - from) + leading_count(
                body.skip(j - from),
                tag_name_char(),
            ),
        decreases cs.len() - j,
    {
        proof {
            assert(body[j - from] == cs@[j as int]);
            lemma_leading_count_step(body, tag_name_char(), j - from);
        }
        j = j + 1;
    }
    proof {
        if j < cs.len() {
            assert(body[j - from] == cs@[j as int]);
        }
        lemma_leading_count_stop(body, tag_name_char(), j - from);
    }
    let name_end = j;
    let mut k = from;
    while k < cs.len() && cs[k] != '>'
        invariant
            from <= k <= cs.len(),
            body == cs@.skip(from as int),
            leading_count(body, before_tag_end()) == (k - from) + leading_count(
                body.skip(k - from),
                before_tag_end(),
            ),
        decreases cs.len() - k,
    {
        proof {
            assert(body[k - from] == cs@[k as int]);
            lemma_leading_count_step(body, before_tag_end(), k - from);
        }
        k = k + 1;
    }
    proof {
        if k < cs.len() {
            assert(body[k - from] == cs@[k as int]);
        }
        lemma_leading_count_stop(body, before_tag_end(), k - from);
        lemma_leading_count_bound(body, tag_name_char());
        lemma_leading_count_bound(body, before_tag_end());
        if name_end < k {
            assert(!tag_name_char()(body[name_end - from]));
            assert(before_tag_end()(body[name_end - from]));
        }
    }
    let rest = if k < cs.len() {
        k + 1
    } else {
        k
    };
    (name_end, rest)
}

/// Plain text of an HTML document: each tag becomes a line break, the
/// content of `script` and `style` elements is dropped, and consecutive
/// line breaks are merged.
pub fn strip_html(html: &str) -> (r: String)
    ensures
        r@ == stripped(html@),
{
    let cs = chars_of(html);
    let n = cs.len();
    let mut raw: Vec<char> = Vec::new();
    let mut skipping = false;
    let mut i: usize = 0;
    assert(cs@.skip(0) =~= cs@);
    while i < n
        invariant
            n == cs.len(),
            cs@ == html@,
            i <= n,
            raw_text(cs@, false) == raw@ + raw_text(cs@.skip(i as int), skipping),
        decreases n - i,
    {
        let ghost s = cs@.skip(i as int);
        let ch = cs[i];
        assert(s[0] == ch);
        if ch == '<' {
            let (name_end, rest) = scan_tag(&cs, i + 1);
            proof {
                assert(s.drop_first() =~= cs@.skip(i + 1));
                assert(cs@.skip(i + 1).take((name_end - (i + 1)) as int) =~= cs@.subrange(
                    i + 1,
                    name_end as int,
                ));
                assert(cs@.skip(i + 1).skip((rest - (i + 1)) as int) =~= cs@.skip(rest as int));
            }
            let name = string_of(&cs, i + 1, name_end);
            let lower = to_lowercase(name.as_str());
            let opens = same_text(lower.as_str(), "script") || same_text(lower.as_str(), "style");
            let closes = same_text(lower.as_str(), "/script") || same_text(
                lower.as_str(),
                "/style",
            );
            if opens {
                skipping = true;
            } else if closes {
                skipping = false;
            } else if !skipping {
                let ghost before = raw@;
                raw.push('\n');
                assert(before + (seq!['\n'] + raw_text(cs@.skip(rest as int), skipping))
                    =~= raw@ + raw_text(cs@.skip(rest as int), skipping));
            }
            i = rest;
        } else {
            assert(s.drop_first() =~= cs@.skip(i + 1));
            if !skipping {
                let ghost before = raw@;
                raw.push(ch);
                assert(before + (seq![ch] + raw_text(cs@.skip(i + 1), skipping)) =~= raw@
                    + raw_text(cs@.skip(i + 1), skipping));
            }
            i = i + 1;
        }
    }
    assert(raw@ + Seq::<char>::empty() =~= raw@);
    let mut cleaned: Vec<char> = Vec::new();
    let mut after_newline = false;
    let mut j: usize = 0;
    assert(raw@.skip(0) =~= raw@);
    while j < raw.len()
        invariant
            j <= raw.len(),
            raw@ == raw_text(html@, false),
            collapse_newlines(raw@, false) == cleaned@ + collapse_newlines(
                raw@.skip(j as int),
                after_newline,
            ),
        decreases raw.len() - j,
    {
        let ch = raw[j];
        let ghost s = raw@.skip(j as int);
        assert(s[0] == ch);
        assert(s.drop_first() =~= raw@.skip(j + 1));
        let ghost before = cleaned@;
        if ch == '\n' {
            if !after_newline {
                cleaned.push(ch);
                assert(before + (seq!['\n'] + collapse_newlines(raw@.skip(j + 1), true))
                    =~= cleaned@ + collapse_newlines(raw@.skip(j + 1), true));
            }
            after_newline = true;
        } else {
            cleaned.push(ch);
            assert(before + (seq![ch] + collapse_newlines(raw@.skip(j + 1), false)) =~= cleaned@
                + collapse_newlines(raw@.skip(j + 1), false));
            after_newline = false;
        }
        j = j + 1;
    }
    assert(cleaned@ + Seq::<char>::empty() =~= cleaned@);
    string_of(&cleaned, 0, cleaned.len())
}

proof fn lemma_raw_text_no_lt(s: Seq<char>, skipping: bool)
    ensures
        forall|i: int| 0 <= i < raw_text(s, skipping).len() ==> #[trigger] raw_text(s, skipping)[i]
            != '<',
    decreases s.len(),
{
    if s.len() > 0 {
        if s[0] == '<' {
            let body = s.drop_first();
            lemma_leading_count_bound(body, before_tag_end());
            let rest = body.skip(after_tag(body) as int);
            lemma_raw_text_no_lt(rest, true);
            lemma_raw_text_no_lt(rest, false);
            lemma_raw_text_no_lt(rest, skipping);
            let r = raw_text(rest, skipping);
            let lower = lowercase(tag_name(body));
            if opens_skipped(lower) {
                assert(raw_text(s, skipping) == raw_text(rest, true));
            } else if closes_skipped(lower) {
                assert(raw_text(s, skipping) == raw_text(rest, false));
            } else if !skipping {
                assert(raw_text(s, skipping) == seq!['\n'] + r);
            } else {
                assert(raw_text(s, skipping) == r);
            }
            assert forall|i: int| 0 <= i < (seq!['\n'] + r).len() implies #[trigger] (seq!['\n']
                + r)[i] != '<' by {
                if i > 0 {
                    assert((seq!['\n'] + r)[i] == r[i - 1]);
                }
            }
        } else {
            lemma_raw_text_no_lt(s.drop_first(), skipping);
            let r = raw_text(s.drop_first(), skipping);
            if skipping {
                assert(raw_text(s, skipping) == r);
            } else {
                assert(raw_text(s, skipping) == seq![s[0]] + r);
            }
            assert forall|i: int| 0 <= i < (seq![s[0]] + r).len() implies #[trigger] (seq![s[0]]
                + r)[i] != '<' by {
                if i > 0 {
                    assert((seq![s[0]] + r)[i] == r[i - 1]);
                }
            }
        }
    }
}

proof fn lemma_collapse(s: Seq<char>, after_newline: bool)
    ensures
        ({
            let r = collapse_newlines(s, after_newline);
            &&& forall|i: int| 0 <= i < r.len() ==> exists|j: int| 0 <= j < s.len() && #[trigger] r[i] == s[j]
            &&& forall|i: int| 0 <= i < r.len() - 1 ==> !(#[trigger] r[i] == '\n' && r[i + 1] == '\n')
            &&& after_newline && r.len() > 0 ==> r[0] != '\n'
        }),
    decreases s.len(),
{
    if s.len() > 0 {
        let t = s.drop_first();
        lemma_collapse(t, true);
        lemma_collapse(t, false);
        let r = collapse_newlines(s, after_newline);
        let nl = s[0] == '\n';
        let rt = collapse_newlines(t, nl);
        if nl && after_newline {
            assert(r == rt);
        } else {
            assert(r =~= seq![s[0]] + rt);
            assert forall|i: int| 0 <= i < r.len() - 1 implies !(#[trigger] r[i] == '\n' && r[i + 1]
                == '\n') by {
                if i > 0 {
                    assert(r[i] == rt[i - 1]);
                }
                assert(r[i + 1] == rt[i]);
            }
        }
        assert forall|i: int| 0 <= i < r.len() implies exists|j: int| 0 <= j < s.len() && #[trigger] r[i] == s[j] by {
            if nl && after_newline {
                let j = choose|j: int| 0 <= j < t.len() && rt[i] == t[j];
                assert(r[i] == s[j + 1]);
            } else if i == 0 {
                assert(r[0] == s[0]);
            } else {
                assert(r[i] == rt[i - 1]);
                let j = choose|j: int| 0 <= j < t.len() && rt[i - 1] == t[j];
                assert(r[i] == s[j + 1]);
            }
        }
    }
}

/// Every `<` starts a tag, so the plain text never holds one.
pub proof fn law_no_angle_bracket(html: Seq<char>)
    ensures
        forall|i: int| 0 <= i < stripped(html).len() ==> #[trigger] stripped(html)[i] != '<',
{
    lemma_raw_text_no_lt(html, false);
    lemma_collapse(raw_text(html, false), false);
    let raw = raw_text(html, false);
    assert forall|i: int| 0 <= i < stripped(html).len() implies #[trigger] stripped(html)[i] != '<' by {
        let j = choose|j: int| 0 <= j < raw.len() && stripped(html)[i] == raw[j];
        assert(raw[j] != '<');
    }
}

/// The plain text never holds two line breaks in a row.
pub proof fn law_no_double_newline(html: Seq<char>)
    ensures
        forall|i: int|
            0 <= i < stripped(html).len() - 1 ==> !(#[trigger] stripped(html)[i] == '\n'
                && stripped(html)[i + 1] == '\n'),
{
    lemma_collapse(raw_text(html, false), false);
}

/// Text with no `<` is kept as it is, in order, ahead of what follows it;
/// inside `script` or `style` it is dropped.
pub proof fn law_text_outside_tags_kept(a: Seq<char>, b: Seq<char>)
    requires
        forall|i: int| 0 <= i < a.len() ==> a[i] != '<',
    ensures
        raw_text(a + b, false) == a + raw_text(b, false),
        raw_text(a + b, true) == raw_text(b, true),
    decreases a.len(),
{
    if a.len() == 0 {
        assert(a + b =~= b);
    } else {
        let r = a.drop_first();
        assert((a + b)[0] == a[0]);
        assert((a + b).drop_first() =~= r + b);
        law_text_outside_tags_kept(r, b);
        assert(a =~= seq![a[0]] + r);
        assert(seq![a[0]] + (r + raw_text(b, false)) =~= a + raw_text(b, false));
    }
}

/// Collapsing runs of line breaks leaves text without line breaks as it is.
pub proof fn law_collapse_keeps_other_text(s: Seq<char>, after_newline: bool)
    requires
        forall|i: int| 0 <= i < s.len() ==> s[i] != '\n',
    ensures
        collapse_newlines(s, after_newline) == s,
    decreases s.len(),
{
    if s.len() > 0 {
        law_collapse_keeps_other_text(s.drop_first(), false);
        assert(s =~= seq![s[0]] + s.drop_first());
    }
}

/// HTML without tags is stripped to itself with runs of line breaks
/// collapsed; plain text without tags or line breaks is left unchanged.
pub proof fn law_plain_text_unchanged(html: Seq<char>)
    requires
        forall|i: int| 0 <= i < html.len() ==> html[i] != '<',
    ensures
        stripped(html) == collapse_newlines(html, false),
        (forall|i: int| 0 <= i < html.len() ==> html[i] != '\n') ==> stripped(html) == html,
{
    law_text_outside_tags_kept(html, Seq::empty());
    assert(html + Seq::<char>::empty() =~= html);
    assert(raw_text(Seq::<char>::empty(), false) =~= Seq::<char>::empty());
    assert(html + Seq::<char>::empty() =~= html);
    if forall|i: int| 0 <= i < html.len() ==> html[i] != '\n' {
        law_collapse_keeps_other_text(html, false);
    }
}

} // verus!
