//! Splitting on white space, substring search and the class-attribute
//! tokens used to recognise footnote markup.

use vstd::prelude::*;
use crate::text::{
    chars_of, is_white_space, is_ws, leading_count, lemma_filter_all_ws, lemma_filter_no_ws,
    lemma_leading_count_bound, not_ws,
    lemma_leading_count_step, lemma_leading_count_stop, lemma_trim_start_suffix, lowercase,
    skip_white_space, string_of, to_lowercase, trim_start,
};

verus! {

/// The white-space separated words of `s` (`str::split_whitespace`).
pub open spec fn words(s: Seq<char>) -> Seq<Seq<char>>
    decreases s.len(),
{
    let t = trim_start(s);
    proof {
        lemma_trim_start_suffix(s);
    }
    if t.len() == 0 {
        Seq::empty()
    } else {
        let k = leading_count(t, not_ws());
        proof {
            lemma_leading_count_bound(t, not_ws());
        }
        seq![t.take(k as int)] + words(t.skip(k as int))
    }
}

/// The lowercased words of a class attribute.
pub open spec fn class_tokens(class_attr: Seq<char>) -> Seq<Seq<char>> {
    words(class_attr).map_values(|w: Seq<char>| lowercase(w))
}

/// Splits a class attribute into its words and lowercases each of them.
pub fn lower_class_split(class_attr: &str) -> (r: Vec<String>)
    ensures
        r@.map_values(|t: String| t@) == class_tokens(class_attr@),
{
    let cs = chars_of(class_attr);
    let n = cs.len();
    let mut out: Vec<String> = Vec::new();
    let mut i: usize = 0;
    assert(cs@.skip(0) =~= cs@);
    assert(out@.map_values(|t: String| t@) =~= Seq::<Seq<char>>::empty());
    while i < n
        invariant
            n == cs.len(),
            cs@ == class_attr@,
            i <= n,
            class_tokens(cs@) == out@.map_values(|t: String| t@) + class_tokens(
                cs@.skip(i as int),
            ),
        decreases n - i,
    {
        let ghost s = cs@.skip(i as int);
        let start = skip_white_space(&cs, i);
        proof {
            lemma_trim_start_suffix(s);
        }
        if start == n {
            assert(trim_start(s).len() == 0);
            assert(class_tokens(s) =~= Seq::<Seq<char>>::empty());
            i = n;
            assert(cs@.skip(n as int).len() == 0);
            assert(words(cs@.skip(n as int)) =~= Seq::<Seq<char>>::empty());
            assert(out@.map_values(|t: String| t@) + Seq::<Seq<char>>::empty() =~= out@.map_values(
                |t: String| t@,
            ));
        } else {
            let ghost t = cs@.skip(start as int);
            let mut j = start;
            assert(t.skip(0) =~= t);
            while j < n && !is_white_space(cs[j])
                invariant
                    start <= j <= n,
                    n == cs.len(),
                    t == cs@.skip(start as int),
                    leading_count(t, not_ws()) == (j - start) + leading_count(
                        t.skip(j - start),
                        not_ws(),
                    ),
                decreases n - j,
            {
                proof {
                    assert(t[j - start] == cs@[j as int]);
                    lemma_leading_count_step(t, not_ws(), j - start);
                }
                j = j + 1;
            }
            proof {
                if j < n {
                    assert(t[j - start] == cs@[j as int]);
                }
                lemma_leading_count_stop(t, not_ws(), j - start);
                assert(t.take((j - start) as int) =~= cs@.subrange(start as int, j as int));
                assert(t.skip((j - start) as int) =~= cs@.skip(j as int));
                assert(words(s) == seq![t.take((j - start) as int)] + words(cs@.skip(j as int)));
            }
            let word = string_of(&cs, start, j);
            let token = to_lowercase(word.as_str());
            let ghost before = out@.map_values(|t: String| t@);
            out.push(token);
            proof {
                assert(out@.map_values(|t: String| t@) =~= before.push(lowercase(word@)));
                assert(class_tokens(s) =~= seq![lowercase(word@)] + class_tokens(
                    cs@.skip(j as int),
                ));
                assert(before + (seq![lowercase(word@)] + class_tokens(cs@.skip(j as int)))
                    =~= before.push(lowercase(word@)) + class_tokens(cs@.skip(j as int)));
            }
            i = j;
        }
    }
    out
}

/// Whether `pat` occurs in `s`.
pub open spec fn contains_seq(s: Seq<char>, pat: Seq<char>) -> bool {
    exists|i: int| 0 <= i <= s.len() - pat.len() && #[trigger] s.subrange(i, i + pat.len()) == pat
}

/// Whether `pat` occurs in `s` (`str::contains`).
pub fn contains_text(s: &str, pat: &str) -> (r: bool)
    ensures
        r == contains_seq(s@, pat@),
{
    let x = chars_of(s);
    let p = chars_of(pat);
    if p.len() > x.len() {
        return false;
    }
    let mut i: usize = 0;
    while i <= x.len() - p.len()
        invariant
            x@ == s@,
            p@ == pat@,
            p.len() <= x.len(),
            i <= x.len() - p.len() + 1,
            forall|k: int| 0 <= k < i ==> #[trigger] x@.subrange(k, k + p@.len()) != p@,
        decreases x.len() - i,
    {
        let mut j: usize = 0;
        let mut same = true;
        while j < p.len()
            invariant
                x@ == s@,
                p@ == pat@,
                i + p.len() <= x.len(),
                j <= p.len(),
                same == (forall|k: int| 0 <= k < j ==> x@[i + k] == p@[k]),
            decreases p.len() - j,
        {
            if x[i + j] != p[j] {
                same = false;
            }
            j = j + 1;
        }
        if same {
            assert(x@.subrange(i as int, i + p@.len()) =~= p@);
            return true;
        }
        assert(x@.subrange(i as int, i + p@.len()) != p@) by {
            let k = choose|k: int| 0 <= k < p@.len() && x@[i + k] != p@[k];
            assert(x@.subrange(i as int, i + p@.len())[k] == x@[i + k]);
        }
        i = i + 1;
    }
    false
}

/// Words are never empty and hold no white space, and put together they
/// are the text without its white space.
pub proof fn law_words(s: Seq<char>)
    ensures
        forall|i: int| 0 <= i < words(s).len() ==> (#[trigger] words(s)[i]).len() > 0,
        forall|i: int, j: int|
            0 <= i < words(s).len() && 0 <= j < words(s)[i].len() ==> !is_ws(
                #[trigger] words(s)[i][j],
            ),
        words(s).flatten() =~= s.filter(not_ws()),
    decreases s.len(),
{
    broadcast use Seq::filter_distributes_over_add;

    let t = trim_start(s);
    lemma_trim_start_suffix(s);
    let m = s.len() - t.len();
    assert(s =~= s.take(m) + t);
    assert forall|i: int| 0 <= i < s.take(m).len() implies is_ws(#[trigger] s.take(m)[i]) by {
        assert(s.take(m)[i] == s[i]);
    }
    lemma_filter_all_ws(s.take(m));
    if t.len() == 0 {
        reveal_with_fuel(Seq::filter, 1);
        assert(s.filter(not_ws()) =~= s.take(m).filter(not_ws()) + t.filter(not_ws()));
    } else {
        let k = leading_count(t, not_ws());
        lemma_leading_count_bound(t, not_ws());
        let word = t.take(k as int);
        let rest = t.skip(k as int);
        law_words(rest);
        assert forall|i: int| 0 <= i < word.len() implies !is_ws(#[trigger] word[i]) by {
            assert(not_ws()(t[i]));
        }
        lemma_filter_no_ws(word);
        assert(t =~= word + rest);
        let ws = words(s);
        assert(ws == seq![word] + words(rest));
        assert(ws.drop_first() =~= words(rest));
        assert(ws.flatten() =~= word + words(rest).flatten());
        assert(s.filter(not_ws()) =~= s.take(m).filter(not_ws()) + (word.filter(not_ws())
            + rest.filter(not_ws())));
        assert forall|i: int| 0 <= i < ws.len() implies (#[trigger] ws[i]).len() > 0 by {
            if i > 0 {
                assert(ws[i] == words(rest)[i - 1]);
            }
        }
        assert forall|i: int, j: int| 0 <= i < ws.len() && 0 <= j < ws[i].len() implies !is_ws(
            #[trigger] ws[i][j],
        ) by {
            if i > 0 {
                assert(ws[i] == words(rest)[i - 1]);
            }
        }
    }
}

} // verus!
