//! Text of PDF content-stream operands and the dominant font size of a page.

use vstd::prelude::*;
use std::collections::HashMap;
use crate::chunking::utf8_len;
use crate::text::{from_utf8_lossy, same_text, utf8_lossy};

verus! {

broadcast use vstd::std_specs::hash::group_hash_axioms;

/// An operand of a PDF content-stream operator, as far as text extraction
/// reads it: a string, a name, an integer, an array of operands or anything
/// else.
pub enum PdfOperand {
    Str(Vec<u8>),
    Name(Vec<u8>),
    Integer(i64),
    Array(Vec<PdfOperand>),
    Other,
}

/// The text of an operand that is a string or a name.
pub open spec fn operand_text(op: PdfOperand) -> Option<Seq<char>> {
    match op {
        PdfOperand::Str(b) => Some(utf8_lossy(b@)),
        PdfOperand::Name(b) => Some(utf8_lossy(b@)),
        _ => None,
    }
}

pub open spec fn opt_text(r: Option<String>) -> Option<Seq<char>> {
    match r {
        Some(s) => Some(s@),
        None => None,
    }
}

fn text_of(op: &PdfOperand) -> (r: Option<String>)
    ensures
        opt_text(r) == operand_text(*op),
{
    match op {
        PdfOperand::Str(b) => Some(from_utf8_lossy(b.as_slice())),
        PdfOperand::Name(b) => Some(from_utf8_lossy(b.as_slice())),
        _ => None,
    }
}

/// The text of the first operand (of `Tj` or `'`).
pub fn extract_string_operand(operands: &[PdfOperand]) -> (r: Option<String>)
    requires
        operands@.len() > 0,
    ensures
        opt_text(r) == operand_text(operands@[0]),
{
    text_of(&operands[0])
}

/// The text of the operand at `index` (the third one of `"`), if there is one.
pub fn extract_string_operand_index(operands: &[PdfOperand], index: usize) -> (r: Option<String>)
    ensures
        index < operands@.len() ==> opt_text(r) == operand_text(operands@[index as int]),
        index >= operands@.len() ==> r is None,
{
    if index < operands.len() {
        text_of(&operands[index])
    } else {
        None
    }
}

/// The text of the strings of a `TJ` array, in order (kerning numbers and
/// other items are skipped).
pub open spec fn tj_strings(items: Seq<PdfOperand>) -> Seq<char>
    decreases items.len(),
{
    if items.len() == 0 {
        Seq::empty()
    } else {
        tj_strings(items.drop_last()) + match items.last() {
            PdfOperand::Str(b) => utf8_lossy(b@),
            _ => Seq::empty(),
        }
    }
}

/// The text of a `TJ` operator: its strings put together, when its first
/// operand is an array and the text is not empty.
pub open spec fn tj_text(operands: Seq<PdfOperand>) -> Option<Seq<char>> {
    match operands[0] {
        PdfOperand::Array(items) => {
            let t = tj_strings(items@);
            if t.len() > 0 {
                Some(t)
            } else {
                None
            }
        },
        _ => None,
    }
}

/// The text of a `TJ` operator (see `tj_text`).
pub fn extract_tj_text(operands: &[PdfOperand]) -> (r: Option<String>)
    requires
        operands@.len() > 0,
    ensures
        opt_text(r) == tj_text(operands@),
{
    if let PdfOperand::Array(items) = &operands[0] {
        let mut text: Vec<char> = Vec::new();
        let mut i: usize = 0;
        assert(items@.take(0) =~= Seq::<PdfOperand>::empty());
        while i < items.len()
            invariant
                i <= items.len(),
                text@ == tj_strings(items@.take(i as int)),
            decreases items.len() - i,
        {
            assert(items@.take(i + 1).drop_last() =~= items@.take(i as int));
            assert(items@.take(i + 1).last() == items@[i as int]);
            if let PdfOperand::Str(b) = &items[i] {
                let s = from_utf8_lossy(b.as_slice());
                let mut cs = crate::text::chars_of(s.as_str());
                text.append(&mut cs);
            } else {
                assert(text@ =~= text@ + Seq::<char>::empty());
            }
            i = i + 1;
        }
        assert(items@.take(items.len() as int) =~= items@);
        if text.len() > 0 {
            return Some(crate::text::string_from(&text));
        }
    }
    None
}

/// What an operator of a page's content stream does to the text state and
/// the text read from the page. Positions and sizes are numbers of the
/// stream that the caller reads itself.
pub enum TextEffect {
    /// `BT`: a text object begins.
    BeginText,
    /// `ET`: the text object ends.
    EndText,
    /// `Tf`: the font size becomes the second operand.
    SetFontSize,
    /// `Td`, `TD`: the position moves by the first two operands.
    MoveBy,
    /// `Tm`: the position becomes the fifth and sixth operands.
    SetMatrix,
    /// `T*`: the position moves down one line.
    NextLine,
    /// `Tj`, `TJ`: text is shown where the position is, if there is any.
    Show(Option<String>),
    /// `'`, `"`: the position moves down one line, then text is shown.
    NextLineShow(Option<String>),
    /// Nothing that text extraction follows.
    Nothing,
}

/// Whether `e` is what the operator `op` with `operands` does, inside a text
/// object when `in_text` holds. Outside a text object only `BT` and `ET`
/// do anything, and operators with too few operands do nothing.
pub open spec fn text_effect(e: TextEffect, op: Seq<char>, operands: Seq<PdfOperand>, in_text: bool) -> bool {
    if op == "BT"@ {
        e is BeginText
    } else if op == "ET"@ {
        e is EndText
    } else if op == "Tf"@ {
        if in_text && operands.len() >= 2 { e is SetFontSize } else { e is Nothing }
    } else if op == "Td"@ || op == "TD"@ {
        if in_text && operands.len() >= 2 { e is MoveBy } else { e is Nothing }
    } else if op == "Tm"@ {
        if in_text && operands.len() >= 6 { e is SetMatrix } else { e is Nothing }
    } else if op == "T*"@ {
        if in_text { e is NextLine } else { e is Nothing }
    } else if op == "Tj"@ {
        if in_text { e matches TextEffect::Show(t) && opt_text(t) == operand_text(operands[0]) }
        else { e is Nothing }
    } else if op == "TJ"@ {
        if in_text { e matches TextEffect::Show(t) && opt_text(t) == tj_text(operands) }
        else { e is Nothing }
    } else if op == "'"@ {
        if in_text { e matches TextEffect::NextLineShow(t) && opt_text(t) == operand_text(operands[0]) }
        else { e is Nothing }
    } else if op == "\""@ {
        if in_text && operands.len() >= 3 {
            e matches TextEffect::NextLineShow(t) && opt_text(t) == operand_text(operands[2])
        } else {
            e is Nothing
        }
    } else {
        e is Nothing
    }
}

/// Whether the operator `op` reads its first operand inside a text object.
pub open spec fn reads_first_operand(op: Seq<char>) -> bool {
    op == "Tj"@ || op == "TJ"@ || op == "'"@
}

/// What the operator `operator` with `operands` does (see `text_effect`).
pub fn operator_effect(operator: &str, operands: &[PdfOperand], in_text: bool) -> (r: TextEffect)
    requires
        in_text && reads_first_operand(operator@) ==> operands@.len() > 0,
    ensures
        text_effect(r, operator@, operands@, in_text),
{
    let n = operands.len();
    if same_text(operator, "BT") {
        TextEffect::BeginText
    } else if same_text(operator, "ET") {
        TextEffect::EndText
    } else if same_text(operator, "Tf") {
        if in_text && n >= 2 { TextEffect::SetFontSize } else { TextEffect::Nothing }
    } else if same_text(operator, "Td") || same_text(operator, "TD") {
        if in_text && n >= 2 { TextEffect::MoveBy } else { TextEffect::Nothing }
    } else if same_text(operator, "Tm") {
        if in_text && n >= 6 { TextEffect::SetMatrix } else { TextEffect::Nothing }
    } else if same_text(operator, "T*") {
        if in_text { TextEffect::NextLine } else { TextEffect::Nothing }
    } else if same_text(operator, "Tj") {
        if in_text { TextEffect::Show(extract_string_operand(operands)) } else { TextEffect::Nothing }
    } else if same_text(operator, "TJ") {
        if in_text { TextEffect::Show(extract_tj_text(operands)) } else { TextEffect::Nothing }
    } else if same_text(operator, "'") {
        if in_text { TextEffect::NextLineShow(extract_string_operand(operands)) } else { TextEffect::Nothing }
    } else if same_text(operator, "\"") {
        if in_text && n >= 3 {
            TextEffect::NextLineShow(extract_string_operand_index(operands, 2))
        } else {
            TextEffect::Nothing
        }
    } else {
        TextEffect::Nothing
    }
}

/// A text run of a page: its font size in tenths of a point (truncated)
/// and its text.
pub struct SizedText {
    pub size_key: i32,
    pub text: String,
}

/// The UTF-8 length of the runs of `runs` set in size `key`.
pub open spec fn key_total(runs: Seq<SizedText>, key: i32) -> nat
    decreases runs.len(),
{
    if runs.len() == 0 {
        0
    } else {
        key_total(runs.drop_last(), key) + if runs.last().size_key == key {
            utf8_len(runs.last().text@)
        } else {
            0
        }
    }
}

/// The UTF-8 length of all runs.
pub open spec fn runs_total(runs: Seq<SizedText>) -> nat
    decreases runs.len(),
{
    if runs.len() == 0 {
        0
    } else {
        runs_total(runs.drop_last()) + utf8_len(runs.last().text@)
    }
}

proof fn lemma_key_total_le(runs: Seq<SizedText>, key: i32)
    ensures
        key_total(runs, key) <= runs_total(runs),
    decreases runs.len(),
{
    if runs.len() > 0 {
        lemma_key_total_le(runs.drop_last(), key);
    }
}

proof fn lemma_runs_total_prefix(runs: Seq<SizedText>, i: int)
    requires
        0 <= i <= runs.len(),
    ensures
        runs_total(runs.take(i)) <= runs_total(runs),
    decreases runs.len(),
{
    if i < runs.len() {
        lemma_runs_total_prefix(runs.drop_last(), i);
        assert(runs.drop_last().take(i) =~= runs.take(i));
    } else {
        assert(runs.take(i) =~= runs);
    }
}

proof fn lemma_key_total_absent(runs: Seq<SizedText>, key: i32)
    requires
        forall|j: int| 0 <= j < runs.len() ==> runs[j].size_key != key,
    ensures
        key_total(runs, key) == 0,
    decreases runs.len(),
{
    if runs.len() > 0 {
        lemma_key_total_absent(runs.drop_last(), key);
    }
}

/// The font size (in tenths of a point) that the most text of a page is
/// set in, `None` for a page without runs. Sizes with equal amounts of text
/// are not told apart: any of them may come out.
pub fn dominant_size_key(runs: &Vec<SizedText>) -> (r: Option<i32>)
    requires
        runs_total(runs@) <= usize::MAX,
    ensures
        r is None <==> runs@.len() == 0,
        r matches Some(k) ==> {
            &&& exists|j: int| 0 <= j < runs@.len() && #[trigger] runs@[j].size_key == k
            &&& forall|j: int|
                0 <= j < runs@.len() ==> key_total(runs@, #[trigger] runs@[j].size_key)
                    <= key_total(runs@, k)
        },
{
    let mut sizes: HashMap<i32, usize> = HashMap::new();
    let mut i: usize = 0;
    while i < runs.len()
        invariant
            i <= runs.len(),
            runs_total(runs@) <= usize::MAX,
            forall|k: i32|
                #[trigger] sizes@.contains_key(k) <==> exists|j: int|
                    0 <= j < i && #[trigger] runs@[j].size_key == k,
            forall|k: i32| #[trigger] sizes@.contains_key(k) ==> sizes@[k] == key_total(
                runs@.take(i as int),
                k,
            ),
        decreases runs.len() - i,
    {
        let key = runs[i].size_key;
        let len = runs[i].text.as_str().as_bytes().len();
        let ghost before = sizes@;
        proof {
            let t = runs@.take(i + 1);
            assert(t.drop_last() =~= runs@.take(i as int));
            assert(t.last() == runs@[i as int]);
            lemma_runs_total_prefix(runs@, i + 1);
            lemma_key_total_le(t, key);
        }
        let current = match sizes.get(&key) {
            Some(v) => *v,
            None => {
                proof {
                    assert forall|j: int| 0 <= j < runs@.take(i as int).len() implies runs@.take(
                        i as int,
                    )[j].size_key != key by {
                        if runs@.take(i as int)[j].size_key == key {
                            assert(runs@[j].size_key == key);
                        }
                    }
                    lemma_key_total_absent(runs@.take(i as int), key);
                }
                0
            },
        };
        sizes.insert(key, current + len);
        proof {
            assert forall|k: i32| #[trigger] sizes@.contains_key(k) implies sizes@[k] == key_total(
                runs@.take(i + 1),
                k,
            ) by {
                if k != key {
                    assert(before.contains_key(k));
                }
            }
            assert forall|k: i32| #[trigger] sizes@.contains_key(k) <==> exists|j: int|
                0 <= j < i + 1 && #[trigger] runs@[j].size_key == k by {
                if k == key {
                    assert(runs@[i as int].size_key == k);
                }
                if exists|j: int| 0 <= j < i + 1 && #[trigger] runs@[j].size_key == k {
                    let j = choose|j: int| 0 <= j < i + 1 && #[trigger] runs@[j].size_key == k;
                    if j < i {
                        assert(before.contains_key(k));
                    }
                }
            }
        }
        i = i + 1;
    }
    assert(runs@.take(runs.len() as int) =~= runs@);
    let mut best: Option<(i32, usize)> = None;
    for entry in it: sizes.iter()
        invariant
            forall|k: i32| #[trigger] sizes@.contains_key(k) <==> exists|j: int|
                0 <= j < runs@.len() && #[trigger] runs@[j].size_key == k,
            forall|k: i32| #[trigger] sizes@.contains_key(k) ==> sizes@[k] == key_total(runs@, k),
            it.seq().len() == sizes@.dom().len(),
            forall|m: int|
                #![trigger it.seq()[m]]
                0 <= m < it.seq().len() ==> sizes@.contains_key(*it.seq()[m].0) && sizes@[*it.seq()[m].0]
                    == *it.seq()[m].1,
            best is None <==> it.index() == 0,
            best matches Some((bk, bv)) ==> {
                &&& sizes@.contains_key(bk)
                &&& sizes@[bk] == bv
                &&& forall|m: int| 0 <= m < it.index() ==> *(#[trigger] it.seq()[m]).1 <= bv
            },
    {
        let (k, v) = entry;
        match best {
            Some((_, bv)) => {
                if *v >= bv {
                    best = Some((*k, *v));
                }
            },
            None => {
                best = Some((*k, *v));
            },
        }
    }
    match best {
        Some((bk, _)) => {
            proof {
                assert forall|j: int| 0 <= j < runs@.len() implies key_total(
                    runs@,
                    #[trigger] runs@[j].size_key,
                ) <= key_total(runs@, bk) by {
                    let k = runs@[j].size_key;
                    assert(sizes@.contains_key(k));
                }
            }
            Some(bk)
        },
        None => {
            proof {
                if runs@.len() > 0 {
                    assert(sizes@.contains_key(runs@[0].size_key));
                }
            }
            None
        },
    }
}

} // verus!
