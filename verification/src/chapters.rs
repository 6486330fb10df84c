//! Chapters of a book: one per PDF page, or one per EPUB spine document,
//! keeping only those with text once trimmed.

use vstd::prelude::*;
use crate::epub_text::{epub_chapter_text, extract_epub_html_filtered};
use crate::text::{
    append_str, decimal, from_utf8_lossy, lemma_trim_idempotent, push_decimal, string_from, trim,
    trim_string,
    utf8_lossy,
};

verus! {

/// A chapter of a book: its position among the chapters, a title and its text.
#[derive(Clone, Debug)]
pub struct Chapter {
    pub index: usize,
    pub title: String,
    pub content: String,
}

pub struct ChapterView {
    pub index: nat,
    pub title: Seq<char>,
    pub content: Seq<char>,
}

impl View for Chapter {
    type V = ChapterView;

    open spec fn view(&self) -> ChapterView {
        ChapterView { index: self.index as nat, title: self.title@, content: self.content@ }
    }
}

pub open spec fn chapter_views(v: Seq<Chapter>) -> Seq<ChapterView> {
    v.map_values(|c: Chapter| c@)
}

/// Whether a numbered text is kept as a chapter: it has text once trimmed.
pub open spec fn has_text() -> spec_fn((nat, Seq<char>)) -> bool {
    |it: (nat, Seq<char>)| trim(it.1).len() > 0
}

/// The chapters made of numbered texts: each text with something left once
/// trimmed becomes a chapter titled `prefix` and its number, in order.
pub open spec fn chapters_of(items: Seq<(nat, Seq<char>)>, prefix: Seq<char>) -> Seq<ChapterView> {
    let kept = items.filter(has_text());
    Seq::new(
        kept.len(),
        |i: int| ChapterView { index: i as nat, title: prefix + decimal(kept[i].0), content: trim(kept[i].1) },
    )
}

/// Builds the chapter list of numbered texts; an empty list is the error `err`.
fn collect_chapters(
    numbers: &Vec<u64>,
    texts: &Vec<String>,
    prefix: &str,
    err: &str,
) -> (r: Result<Vec<Chapter>, String>)
    requires
        numbers.len() == texts.len(),
    ensures
        ({
            let items = Seq::new(numbers.len() as nat, |i: int| (numbers@[i] as nat, texts@[i]@));
            let cs = chapters_of(items, prefix@);
            &&& r is Err <==> cs.len() == 0
            &&& r matches Ok(v) ==> chapter_views(v@) == cs
            &&& r matches Err(e) ==> e@ == err@
        }),
{
    let ghost items = Seq::new(numbers.len() as nat, |i: int| (numbers@[i] as nat, texts@[i]@));
    let mut out: Vec<Chapter> = Vec::new();
    let mut j: usize = 0;
    proof {
        reveal_with_fuel(Seq::filter, 1);
        assert(items.take(0).filter(has_text()) =~= Seq::<(nat, Seq<char>)>::empty());
    }
    while j < numbers.len()
        invariant
            numbers.len() == texts.len(),
            j <= numbers.len(),
            items == Seq::new(numbers.len() as nat, |i: int| (numbers@[i] as nat, texts@[i]@)),
            chapter_views(out@) == chapters_of(items.take(j as int), prefix@),
        decreases numbers.len() - j,
    {
        let content = trim_string(texts[j].as_str());
        let ghost kept = items.take(j as int).filter(has_text());
        proof {
            assert(items.take(j + 1) =~= items.take(j as int).push(items[j as int]));
            items.take(j as int).lemma_filter_push(items[j as int], has_text());
        }
        if !content.as_str().is_empty() {
            let mut title: Vec<char> = Vec::new();
            append_str(&mut title, prefix);
            push_decimal(&mut title, numbers[j]);
            let ghost before = chapter_views(out@);
            out.push(Chapter { index: out.len(), title: string_from(&title), content });
            proof {
                let kept2 = items.take(j + 1).filter(has_text());
                assert(kept2 =~= kept.push(items[j as int]));
                let target = chapters_of(items.take(j + 1), prefix@);
                assert(before.len() == kept.len());
                assert(chapter_views(out@).len() == target.len());
                assert forall|k: int| 0 <= k < target.len() implies chapter_views(out@)[k] == target[k] by {
                    if k < kept.len() {
                        assert(chapter_views(out@)[k] == before[k]);
                        assert(kept2[k] == kept[k]);
                    } else {
                        assert(kept2[k] == items[j as int]);
                    }
                }
                assert(chapter_views(out@) =~= target);
            }
        } else {
            assert(chapter_views(out@) =~= chapters_of(items.take(j + 1), prefix@));
        }
        j = j + 1;
    }
    assert(items.take(numbers.len() as int) =~= items);
    if out.len() == 0 {
        Err(err.to_owned())
    } else {
        Ok(out)
    }
}

/// The text of a page: its text runs joined with spaces, or the text that
/// the PDF library extracted from it when no run was found.
pub enum PageText {
    Runs(Vec<String>),
    Extracted(String),
}

/// A page of a PDF document: its number and its text.
pub struct PdfPage {
    pub number: u32,
    pub text: PageText,
}

/// `parts` joined with single spaces.
pub open spec fn join_spaced(parts: Seq<Seq<char>>) -> Seq<char>
    decreases parts.len(),
{
    if parts.len() == 0 {
        Seq::empty()
    } else if parts.len() == 1 {
        parts[0]
    } else {
        join_spaced(parts.drop_last()) + seq![' '] + parts.last()
    }
}

pub open spec fn page_text(p: PdfPage) -> Seq<char> {
    match p.text {
        PageText::Runs(rs) => join_spaced(rs@.map_values(|s: String| s@)),
        PageText::Extracted(t) => t@,
    }
}

/// The numbered texts of PDF pages: a page numbered `n` is titled `n + 1`.
pub open spec fn page_items(pages: Seq<PdfPage>) -> Seq<(nat, Seq<char>)> {
    Seq::new(pages.len(), |i: int| ((pages[i].number + 1) as nat, page_text(pages[i])))
}

pub open spec fn scanned_pdf_error() -> Seq<char> {
    "Cannot extract text. This might be a scanned PDF."@
}

/// Joins strings with single spaces (`[&str]::join(" ")`).
pub fn join_with_spaces(parts: &Vec<String>) -> (r: String)
    ensures
        r@ == join_spaced(parts@.map_values(|s: String| s@)),
{
    let ghost pv = parts@.map_values(|s: String| s@);
    let mut acc: Vec<char> = Vec::new();
    let mut i: usize = 0;
    assert(pv.take(0) =~= Seq::<Seq<char>>::empty());
    while i < parts.len()
        invariant
            i <= parts.len(),
            pv == parts@.map_values(|s: String| s@),
            acc@ == join_spaced(pv.take(i as int)),
        decreases parts.len() - i,
    {
        if i > 0 {
            acc.push(' ');
        }
        append_str(&mut acc, parts[i].as_str());
        proof {
            let t = pv.take(i + 1);
            assert(t.drop_last() =~= pv.take(i as int));
            assert(t.last() == parts@[i as int]@);
            if i == 0 {
                assert(acc@ =~= join_spaced(t));
            } else {
                assert(acc@ =~= join_spaced(t));
            }
        }
        i = i + 1;
    }
    assert(pv.take(parts.len() as int) =~= pv);
    string_from(&acc)
}

/// The chapters of a PDF document, one per page with text.
pub fn extract_pdf_text(pages: &Vec<PdfPage>) -> (r: Result<Vec<Chapter>, String>)
    requires
        forall|i: int| 0 <= i < pages.len() ==> #[trigger] pages@[i].number < u32::MAX,
    ensures
        r is Err <==> chapters_of(page_items(pages@), "Page "@).len() == 0,
        r matches Ok(v) ==> chapter_views(v@) == chapters_of(page_items(pages@), "Page "@),
        r matches Err(e) ==> e@ == scanned_pdf_error(),
{
    let mut numbers: Vec<u64> = Vec::new();
    let mut texts: Vec<String> = Vec::new();
    let mut i: usize = 0;
    while i < pages.len()
        invariant
            i <= pages.len(),
            numbers.len() == i,
            texts.len() == i,
            forall|k: int| 0 <= k < pages.len() ==> #[trigger] pages@[k].number < u32::MAX,
            forall|k: int| 0 <= k < i ==> #[trigger] numbers@[k] == pages@[k].number + 1,
            forall|k: int| 0 <= k < i ==> #[trigger] texts@[k]@ == page_text(pages@[k]),
        decreases pages.len() - i,
    {
        let p = &pages[i];
        let t = match &p.text {
            PageText::Runs(rs) => join_with_spaces(rs),
            PageText::Extracted(t) => t.clone(),
        };
        assert(t@ == page_text(pages@[i as int]));
        numbers.push(p.number as u64 + 1);
        texts.push(t);
        assert(texts@[i as int]@ == page_text(pages@[i as int]));
        assert(numbers@[i as int] == pages@[i as int].number + 1);
        i = i + 1;
    }
    let ghost items = Seq::new(numbers.len() as nat, |k: int| (numbers@[k] as nat, texts@[k]@));
    assert(items =~= page_items(pages@));
    collect_chapters(&numbers, &texts, "Page ", "Cannot extract text. This might be a scanned PDF.")
}

/// The numbered texts of the documents of an EPUB spine; an entry is
/// `None` when it names no resource or its resource cannot be read, and the
/// document at position `i` is numbered `i + 1`.
pub open spec fn spine_items(docs: Seq<Option<Seq<u8>>>) -> Seq<(nat, Seq<char>)>
    decreases docs.len(),
{
    if docs.len() == 0 {
        Seq::empty()
    } else {
        let prev = spine_items(docs.drop_last());
        match docs.last() {
            Some(b) => prev.push((docs.len() as nat, epub_chapter_text(utf8_lossy(b)))),
            None => prev,
        }
    }
}

pub open spec fn empty_epub_error() -> Seq<char> {
    "No readable content found in EPUB."@
}

pub open spec fn opt_bytes(docs: Seq<Option<Vec<u8>>>) -> Seq<Option<Seq<u8>>> {
    docs.map_values(
        |d: Option<Vec<u8>>|
            match d {
                Some(b) => Some(b@),
                None => None,
            },
    )
}

/// The chapters of an EPUB document, one per spine document with text.
pub fn extract_epub_text(docs: &Vec<Option<Vec<u8>>>) -> (r: Result<Vec<Chapter>, String>)
    ensures
        r is Err <==> chapters_of(spine_items(opt_bytes(docs@)), "Chapter "@).len() == 0,
        r matches Ok(v) ==> chapter_views(v@) == chapters_of(
            spine_items(opt_bytes(docs@)),
            "Chapter "@,
        ),
        r matches Err(e) ==> e@ == empty_epub_error(),
{
    let ghost dv = opt_bytes(docs@);
    let mut numbers: Vec<u64> = Vec::new();
    let mut texts: Vec<String> = Vec::new();
    let mut i: usize = 0;
    assert(dv.take(0) =~= Seq::<Option<Seq<u8>>>::empty());
    while i < docs.len()
        invariant
            i <= docs.len(),
            dv == opt_bytes(docs@),
            numbers.len() == texts.len(),
            numbers.len() <= i,
            Seq::new(numbers.len() as nat, |k: int| (numbers@[k] as nat, texts@[k]@)) == spine_items(
                dv.take(i as int),
            ),
        decreases docs.len() - i,
    {
        let ghost before = Seq::new(numbers.len() as nat, |k: int| (numbers@[k] as nat, texts@[k]@));
        proof {
            assert(dv.take(i + 1).drop_last() =~= dv.take(i as int));
        }
        if let Some(bytes) = &docs[i] {
            let html = from_utf8_lossy(bytes.as_slice());
            let text = extract_epub_html_filtered(html.as_str());
            numbers.push(i as u64 + 1);
            texts.push(text);
            assert(Seq::new(numbers.len() as nat, |k: int| (numbers@[k] as nat, texts@[k]@))
                =~= before.push(((i + 1) as nat, texts@[numbers.len() - 1]@)));
        }
        i = i + 1;
    }
    assert(dv.take(docs.len() as int) =~= dv);
    collect_chapters(&numbers, &texts, "Chapter ", "No readable content found in EPUB.")
}

/// Chapters are numbered from zero in the order of their texts, there are
/// no more chapters than texts, and each chapter holds text with no white
/// space at either end.
pub proof fn law_chapters_numbered_and_trimmed(items: Seq<(nat, Seq<char>)>, prefix: Seq<char>)
    ensures
        chapters_of(items, prefix).len() <= items.len(),
        forall|i: int|
            0 <= i < chapters_of(items, prefix).len() ==> {
                let c = #[trigger] chapters_of(items, prefix)[i];
                &&& c.index == i
                &&& c.content.len() > 0
                &&& trim(c.content) == c.content
            },
{
    let kept = items.filter(has_text());
    items.lemma_filter_len(has_text());
    assert forall|i: int| 0 <= i < chapters_of(items, prefix).len() implies {
        let c = #[trigger] chapters_of(items, prefix)[i];
        &&& c.index == i
        &&& c.content.len() > 0
        &&& trim(c.content) == c.content
    } by {
        items.lemma_filter_pred(has_text(), i);
        lemma_trim_idempotent(kept[i].1);
    }
}

proof fn lemma_chapter_source(items: Seq<(nat, Seq<char>)>, prefix: Seq<char>, i: int) -> (j: int)
    requires
        0 <= i < chapters_of(items, prefix).len(),
    ensures
        0 <= j < items.len(),
        chapters_of(items, prefix)[i].title == prefix + decimal(items[j].0),
        chapters_of(items, prefix)[i].content == trim(items[j].1),
{
    let kept = items.filter(has_text());
    assert(kept.contains(kept[i]));
    items.lemma_filter_contains_rev(has_text(), kept[i]);
    let j = choose|j: int| 0 <= j < items.len() && items[j] == kept[i];
    assert(items[j] == kept[i]);
    assert(chapters_of(items, prefix)[i] == ChapterView {
        index: i as nat,
        title: prefix + decimal(kept[i].0),
        content: trim(kept[i].1),
    });
    j
}

/// Every chapter of a PDF comes from one of its pages: chapter `i` holds
/// the text of page `j`, trimmed, and is titled `Page ` followed by that
/// page's number plus one.
pub proof fn law_pdf_chapter_comes_from_page(pages: Seq<PdfPage>, i: int) -> (j: int)
    requires
        0 <= i < chapters_of(page_items(pages), "Page "@).len(),
    ensures
        0 <= j < pages.len(),
        chapters_of(page_items(pages), "Page "@)[i].title == "Page "@ + decimal(
            (pages[j].number + 1) as nat,
        ),
        chapters_of(page_items(pages), "Page "@)[i].content == trim(page_text(pages[j])),
{
    let items = page_items(pages);
    let j = lemma_chapter_source(items, "Page "@, i);
    assert(items[j] == ((pages[j].number + 1) as nat, page_text(pages[j])));
    j
}

proof fn lemma_spine_item_source(docs: Seq<Option<Seq<u8>>>, x: (nat, Seq<char>))
    requires
        spine_items(docs).contains(x),
    ensures
        exists|j: int|
            0 <= j < docs.len() && (#[trigger] docs[j]) is Some && x == ((j + 1) as nat,
                epub_chapter_text(utf8_lossy(docs[j]->0))),
    decreases docs.len(),
{
    let prev = spine_items(docs.drop_last());
    let k = choose|k: int| 0 <= k < spine_items(docs).len() && spine_items(docs)[k] == x;
    let n = docs.len() - 1;
    match docs.last() {
        Some(b) => {
            if k < prev.len() {
                assert(prev[k] == x);
                lemma_spine_item_source(docs.drop_last(), x);
                let j = choose|j: int|
                    0 <= j < docs.drop_last().len() && (#[trigger] docs.drop_last()[j]) is Some
                        && x == ((j + 1) as nat, epub_chapter_text(utf8_lossy(docs.drop_last()[j]->0)));
                assert(docs[j] == docs.drop_last()[j]);
            } else {
                assert(x == (docs.len() as nat, epub_chapter_text(utf8_lossy(b))));
                assert(docs[n] == docs.last());
            }
        },
        None => {
            assert(prev.contains(x));
            lemma_spine_item_source(docs.drop_last(), x);
            let j = choose|j: int|
                0 <= j < docs.drop_last().len() && (#[trigger] docs.drop_last()[j]) is Some
                    && x == ((j + 1) as nat, epub_chapter_text(utf8_lossy(docs.drop_last()[j]->0)));
            assert(docs[j] == docs.drop_last()[j]);
        },
    }
}

/// Every chapter of an EPUB comes from one of its spine documents:
/// chapter `i` holds the text of document `j` without its footnotes,
/// trimmed, and is titled `Chapter ` followed by `j + 1`.
pub proof fn law_epub_chapter_comes_from_spine(docs: Seq<Option<Seq<u8>>>, i: int) -> (j: int)
    requires
        0 <= i < chapters_of(spine_items(docs), "Chapter "@).len(),
    ensures
        0 <= j < docs.len(),
        docs[j] is Some,
        chapters_of(spine_items(docs), "Chapter "@)[i].title == "Chapter "@ + decimal((j + 1) as nat),
        chapters_of(spine_items(docs), "Chapter "@)[i].content == trim(
            epub_chapter_text(utf8_lossy(docs[j]->0)),
        ),
{
    let items = spine_items(docs);
    let m = lemma_chapter_source(items, "Chapter "@, i);
    assert(items.contains(items[m]));
    lemma_spine_item_source(docs, items[m]);
    let j = choose|j: int|
        0 <= j < docs.len() && (#[trigger] docs[j]) is Some && items[m] == ((j + 1) as nat,
            epub_chapter_text(utf8_lossy(docs[j]->0)));
    j
}

} // verus!
