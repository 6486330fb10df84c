//! Text of an EPUB chapter without its footnotes.
//!
//! An element is a footnote when its `epub:type` names a footnote or
//! endnote, when it is an `aside`, or when one of its class names marks a
//! note. When a chapter has no such element its HTML is simply stripped;
//! otherwise the text of its `body` is collected without the footnotes,
//! with paragraph breaks around block elements.

use vstd::prelude::*;
use crate::html_strip::{strip_html, stripped};
use crate::html_tree::{
    build_forest, document_walk, event_views, lemma_nodes_view_index, node_view, nodes_view,
    parse_document_walk, tree_of, ElementInfo, ElementView, EventView, HtmlEvent, HtmlNode,
    NodeView,
};
use crate::text::{append_str, lowercase, same_text, string_of, to_lowercase, trim, trim_string};
use crate::words::{class_tokens, contains_seq, contains_text, lower_class_split};

verus! {

/// An `epub:type` value (lowercased) that names a footnote or an endnote.
pub open spec fn names_note(t: Seq<char>) -> bool {
    contains_seq(t, "footnote"@) || contains_seq(t, "endnote"@)
}

/// Class names that mention notes without marking one.
pub open spec fn is_false_positive(tok: Seq<char>) -> bool {
    tok == "noteworthy"@ || tok == "notebook"@ || tok == "notepad"@
}

/// A (lowercased) class name that marks a note.
pub open spec fn marks_note(tok: Seq<char>) -> bool {
    &&& !is_false_positive(tok)
    &&& {
        ||| tok == "fn"@
        ||| contains_seq(tok, "footnote"@)
        ||| contains_seq(tok, "endnote"@)
        ||| contains_seq(tok, "note"@)
    }
}

/// Whether an element is a footnote (and is left out with all it holds).
pub open spec fn excluded(e: ElementView) -> bool {
    ||| (e.epub_type matches Some(t) && names_note(lowercase(t)))
    ||| e.name == "aside"@
    ||| (e.class matches Some(c) && class_marks(c))
}

/// Whether a class attribute holds a class name that marks a note.
pub open spec fn class_marks(c: Seq<char>) -> bool {
    exists|i: int| 0 <= i < class_tokens(c).len() && marks_note(#[trigger] class_tokens(c)[i])
}

/// Tags that start a new paragraph.
pub open spec fn is_block_tag(t: Seq<char>) -> bool {
    ||| t == "p"@
    ||| t == "div"@
    ||| t == "h1"@
    ||| t == "h2"@
    ||| t == "h3"@
    ||| t == "h4"@
    ||| t == "h5"@
    ||| t == "h6"@
    ||| t == "li"@
    ||| t == "blockquote"@
    ||| t == "pre"@
    ||| t == "br"@
}

pub open spec fn paragraph_break() -> Seq<char> {
    seq!['\n', '\n']
}

pub open spec fn ends_with_break(s: Seq<char>) -> bool {
    s.len() >= 2 && s[s.len() - 1] == '\n' && s[s.len() - 2] == '\n'
}

/// Text of the nodes `ch` appended to `acc`; `blocked` tells whether an
/// enclosing element is a footnote, which leaves out all child elements.
pub open spec fn fold_children(ch: Seq<NodeView>, blocked: bool, acc: Seq<char>) -> Seq<char>
    decreases ch,
{
    if ch.len() == 0 {
        acc
    } else {
        fold_children(ch.subrange(1, ch.len() as int), blocked, child_step(ch[0], blocked, acc))
    }
}

/// `acc` followed by the text of one child node.
pub open spec fn child_step(n: NodeView, blocked: bool, acc: Seq<char>) -> Seq<char>
    decreases n,
{
    match n {
        NodeView::Text(t) => {
            let tt = trim(t);
            if tt.len() > 0 {
                acc + tt + seq![' ']
            } else {
                acc
            }
        },
        NodeView::Element(e, ch) => {
            if excluded(e) || blocked {
                acc
            } else {
                let block = is_block_tag(lowercase(e.name));
                let a1 = if block && acc.len() > 0 && !ends_with_break(acc) {
                    acc + paragraph_break()
                } else {
                    acc
                };
                let a2 = a1 + fold_children(ch, false, Seq::empty());
                if block && !ends_with_break(a2) {
                    a2 + paragraph_break()
                } else {
                    a2
                }
            }
        },
        NodeView::Other(_) => acc,
    }
}

/// Whether some element among `ns` and their descendants marks a footnote.
pub open spec fn any_marker(ns: Seq<NodeView>) -> bool
    decreases ns,
{
    if ns.len() == 0 {
        false
    } else {
        node_marker(ns[0]) || any_marker(ns.subrange(1, ns.len() as int))
    }
}

pub open spec fn node_marker(n: NodeView) -> bool
    decreases n,
{
    match n {
        NodeView::Text(_) => false,
        NodeView::Element(e, ch) => {
            ||| (e.epub_type matches Some(t) && names_note(lowercase(t)))
            ||| e.name == "aside"@
            ||| (e.class is Some && excluded(e))
            ||| any_marker(ch)
        },
        NodeView::Other(ch) => any_marker(ch),
    }
}

/// The children of the first `body` element among `ns` (in document order)
/// and whether it or an element above it is a footnote; `blocked` tells
/// whether an element above `ns` is. The chain of elements above a node
/// ends at the first node that is not an element.
pub open spec fn find_body(ns: Seq<NodeView>, blocked: bool) -> Option<(Seq<NodeView>, bool)>
    decreases ns,
{
    if ns.len() == 0 {
        None
    } else {
        match find_body_in(ns[0], blocked) {
            Some(r) => Some(r),
            None => find_body(ns.subrange(1, ns.len() as int), blocked),
        }
    }
}

pub open spec fn find_body_in(n: NodeView, blocked: bool) -> Option<(Seq<NodeView>, bool)>
    decreases n,
{
    match n {
        NodeView::Text(_) => None,
        NodeView::Element(e, ch) => {
            let b = blocked || excluded(e);
            if e.name == "body"@ {
                Some((ch, b))
            } else {
                find_body(ch, b)
            }
        },
        NodeView::Other(ch) => find_body(ch, false),
    }
}

/// The first element among `ns`.
pub open spec fn first_element(ns: Seq<NodeView>) -> Option<(ElementView, Seq<NodeView>)>
    decreases ns.len(),
{
    if ns.len() == 0 {
        None
    } else {
        match ns[0] {
            NodeView::Element(e, ch) => Some((e, ch)),
            _ => first_element(ns.subrange(1, ns.len() as int)),
        }
    }
}

/// Text of the children of the root element other than `head`, for a
/// document without `body`.
pub open spec fn root_children_text(root: ElementView, ch: Seq<NodeView>, acc: Seq<char>) -> Seq<char>
    decreases ch.len(),
{
    if ch.len() == 0 {
        acc
    } else {
        let next = match ch[0] {
            NodeView::Element(c, cch) => if c.name == "head"@ {
                acc
            } else {
                acc + fold_children(cch, excluded(c) || excluded(root), Seq::empty())
            },
            _ => acc,
        };
        root_children_text(root, ch.subrange(1, ch.len() as int), next)
    }
}

/// Text of a document without `body`: the children of its root element.
/// The walk of a parsed document always starts at the document node, and
/// the parser always gives it a root element; otherwise the text is empty.
pub open spec fn bodiless_text(tree: Seq<NodeView>) -> Seq<char> {
    if tree.len() > 0 && tree[0] is Other {
        match first_element(tree[0]->Other_0) {
            Some((root, ch)) => root_children_text(root, ch, Seq::empty()),
            None => Seq::empty(),
        }
    } else {
        Seq::empty()
    }
}

/// Text of a chapter whose HTML is `html` and whose parsed document is
/// walked as `walk`.
pub open spec fn text_from_walk(html: Seq<char>, walk: Seq<EventView>) -> Seq<char> {
    let tree = tree_of(walk);
    if !any_marker(tree) {
        stripped(html)
    } else {
        match find_body(tree, false) {
            Some((ch, b)) => fold_children(ch, b, Seq::empty()),
            None => bodiless_text(tree),
        }
    }
}

/// Text of a chapter without its footnotes.
pub open spec fn epub_chapter_text(html: Seq<char>) -> Seq<char> {
    text_from_walk(html, document_walk(html))
}

/// Whether an `epub:type` value names a footnote or an endnote, once lowercased.
fn epub_type_names_note(t: &String) -> (r: bool)
    ensures
        r == names_note(lowercase(t@)),
{
    let lower = to_lowercase(t.as_str());
    contains_text(lower.as_str(), "footnote") || contains_text(lower.as_str(), "endnote")
}

/// Whether a lowercased class name marks a note.
fn token_marks_note(tok: &String) -> (r: bool)
    ensures
        r == marks_note(tok@),
{
    let t = tok.as_str();
    if same_text(t, "noteworthy") || same_text(t, "notebook") || same_text(t, "notepad") {
        return false;
    }
    same_text(t, "fn") || contains_text(t, "footnote") || contains_text(t, "endnote")
        || contains_text(t, "note")
}

/// Whether a class attribute holds a class name that marks a note.
fn class_marks_note(c: &String) -> (r: bool)
    ensures
        r == class_marks(c@),
{
    let tokens = lower_class_split(c.as_str());
    let ghost tv = tokens@.map_values(|t: String| t@);
    let mut i: usize = 0;
    while i < tokens.len()
        invariant
            i <= tokens.len(),
            tv == tokens@.map_values(|t: String| t@),
            tv == class_tokens(c@),
            forall|k: int| 0 <= k < i ==> !marks_note(#[trigger] tv[k]),
        decreases tokens.len() - i,
    {
        assert(tv[i as int] == tokens@[i as int]@);
        if token_marks_note(&tokens[i]) {
            return true;
        }
        i = i + 1;
    }
    false
}

/// Whether an element is a footnote.
pub fn is_excluded_element(e: &ElementInfo) -> (r: bool)
    ensures
        r == excluded(e@),
{
    if let Some(t) = &e.epub_type {
        if epub_type_names_note(t) {
            return true;
        }
    }
    if same_text(e.name.as_str(), "aside") {
        return true;
    }
    if let Some(c) = &e.class {
        assert(e@.class == Some(c@));
        if class_marks_note(c) {
            return true;
        }
    }
    false
}

/// Whether some element among `ns` and their descendants marks a footnote.
pub fn has_note_markers(ns: &Vec<HtmlNode>) -> (r: bool)
    ensures
        r == any_marker(nodes_view(ns@)),
    decreases ns@,
{
    proof {
        lemma_nodes_view_index(ns@);
    }
    let mut i: usize = 0;
    assert(nodes_view(ns@).subrange(0, ns@.len() as int) =~= nodes_view(ns@));
    while i < ns.len()
        invariant
            i <= ns.len(),
            any_marker(nodes_view(ns@)) == any_marker(
                nodes_view(ns@).subrange(i as int, ns@.len() as int),
            ),
            nodes_view(ns@).len() == ns@.len(),
            forall|k: int| 0 <= k < ns@.len() ==> #[trigger] nodes_view(ns@)[k] == node_view(ns@[k]),
        decreases ns.len() - i,
    {
        let ghost rest = nodes_view(ns@).subrange(i as int, ns@.len() as int);
        assert(rest[0] == node_view(ns@[i as int]));
        assert(rest.subrange(1, rest.len() as int) =~= nodes_view(ns@).subrange(
            i + 1,
            ns@.len() as int,
        ));
        if node_has_marker(&ns[i]) {
            return true;
        }
        i = i + 1;
    }
    assert(nodes_view(ns@).subrange(i as int, ns@.len() as int).len() == 0);
    false
}

fn node_has_marker(n: &HtmlNode) -> (r: bool)
    ensures
        r == node_marker(node_view(*n)),
    decreases *n,
{
    match n {
        HtmlNode::Text(_) => false,
        HtmlNode::Element(e, ch) => {
            if let Some(t) = &e.epub_type {
                if epub_type_names_note(t) {
                    return true;
                }
            }
            if same_text(e.name.as_str(), "aside") {
                return true;
            }
            if e.class.is_some() && is_excluded_element(e) {
                return true;
            }
            has_note_markers(ch)
        },
        HtmlNode::Other(ch) => has_note_markers(ch),
    }
}

fn ends_with_paragraph_break(acc: &Vec<char>) -> (r: bool)
    ensures
        r == ends_with_break(acc@),
{
    let n = acc.len();
    n >= 2 && acc[n - 1] == '\n' && acc[n - 2] == '\n'
}

fn push_paragraph_break(acc: &mut Vec<char>)
    ensures
        final(acc)@ == old(acc)@ + paragraph_break(),
{
    acc.push('\n');
    acc.push('\n');
    assert(final(acc)@ =~= old(acc)@ + paragraph_break());
}

fn is_block_tag_name(t: &str) -> (r: bool)
    ensures
        r == is_block_tag(t@),
{
    same_text(t, "p") || same_text(t, "div") || same_text(t, "h1") || same_text(t, "h2")
        || same_text(t, "h3") || same_text(t, "h4") || same_text(t, "h5") || same_text(t, "h6")
        || same_text(t, "li") || same_text(t, "blockquote") || same_text(t, "pre") || same_text(
        t,
        "br",
    )
}

/// Appends the text of the nodes `ch` to `acc` (see `fold_children`).
pub fn children_text(ch: &Vec<HtmlNode>, blocked: bool, acc: &mut Vec<char>)
    ensures
        final(acc)@ == fold_children(nodes_view(ch@), blocked, old(acc)@),
    decreases ch@,
{
    proof {
        lemma_nodes_view_index(ch@);
    }
    let ghost nv = nodes_view(ch@);
    let mut i: usize = 0;
    assert(nv.subrange(0, nv.len() as int) =~= nv);
    while i < ch.len()
        invariant
            i <= ch.len(),
            nv == nodes_view(ch@),
            nv.len() == ch@.len(),
            forall|k: int| 0 <= k < ch@.len() ==> #[trigger] nv[k] == node_view(ch@[k]),
            fold_children(nv, blocked, old(acc)@) == fold_children(
                nv.subrange(i as int, nv.len() as int),
                blocked,
                acc@,
            ),
        decreases ch.len() - i,
    {
        let ghost rest = nv.subrange(i as int, nv.len() as int);
        assert(rest[0] == node_view(ch@[i as int]));
        assert(rest.subrange(1, rest.len() as int) =~= nv.subrange(i + 1, nv.len() as int));
        child_text(&ch[i], blocked, acc);
        i = i + 1;
    }
    assert(nv.subrange(i as int, nv.len() as int).len() == 0);
}

/// Appends the text of one node to `acc` (see `child_step`).
pub fn child_text(n: &HtmlNode, blocked: bool, acc: &mut Vec<char>)
    ensures
        final(acc)@ == child_step(node_view(*n), blocked, old(acc)@),
    decreases *n,
{
    match n {
        HtmlNode::Text(t) => {
            let tt = trim_string(t.as_str());
            if !tt.as_str().is_empty() {
                append_str(acc, tt.as_str());
                acc.push(' ');
            }
        },
        HtmlNode::Element(e, ch) => {
            if is_excluded_element(e) || blocked {
                return;
            }
            let lower = to_lowercase(e.name.as_str());
            let block = is_block_tag_name(lower.as_str());
            if block && acc.len() > 0 && !ends_with_paragraph_break(acc) {
                push_paragraph_break(acc);
            }
            let mut inner: Vec<char> = Vec::new();
            children_text(ch, false, &mut inner);
            acc.append(&mut inner);
            if block && !ends_with_paragraph_break(acc) {
                push_paragraph_break(acc);
            }
        },
        HtmlNode::Other(_) => {},
    }
}

pub open spec fn body_result(r: Option<(&Vec<HtmlNode>, bool)>) -> Option<(Seq<NodeView>, bool)> {
    match r {
        Some((ch, b)) => Some((nodes_view(ch@), b)),
        None => None,
    }
}

/// The children of the first `body` element among `ns` (see `find_body`).
pub fn find_body_nodes<'a>(ns: &'a Vec<HtmlNode>, blocked: bool) -> (r: Option<(&'a Vec<HtmlNode>, bool)>)
    ensures
        body_result(r) == find_body(nodes_view(ns@), blocked),
    decreases ns@,
{
    proof {
        lemma_nodes_view_index(ns@);
    }
    let ghost nv = nodes_view(ns@);
    let mut i: usize = 0;
    assert(nv.subrange(0, nv.len() as int) =~= nv);
    while i < ns.len()
        invariant
            i <= ns.len(),
            nv == nodes_view(ns@),
            nv.len() == ns@.len(),
            forall|k: int| 0 <= k < ns@.len() ==> #[trigger] nv[k] == node_view(ns@[k]),
            find_body(nv, blocked) == find_body(nv.subrange(i as int, nv.len() as int), blocked),
        decreases ns.len() - i,
    {
        let ghost rest = nv.subrange(i as int, nv.len() as int);
        assert(rest[0] == node_view(ns@[i as int]));
        assert(rest.subrange(1, rest.len() as int) =~= nv.subrange(i + 1, nv.len() as int));
        let found = find_body_node(&ns[i], blocked);
        if found.is_some() {
            return found;
        }
        i = i + 1;
    }
    assert(nv.subrange(i as int, nv.len() as int).len() == 0);
    None
}

fn find_body_node<'a>(n: &'a HtmlNode, blocked: bool) -> (r: Option<(&'a Vec<HtmlNode>, bool)>)
    ensures
        body_result(r) == find_body_in(node_view(*n), blocked),
    decreases *n,
{
    match n {
        HtmlNode::Text(_) => None,
        HtmlNode::Element(e, ch) => {
            let b = blocked || is_excluded_element(e);
            if same_text(e.name.as_str(), "body") {
                Some((ch, b))
            } else {
                find_body_nodes(ch, b)
            }
        },
        HtmlNode::Other(ch) => find_body_nodes(ch, false),
    }
}

/// Text of a document without `body` (see `bodiless_text`).
fn bodiless_document_text(tree: &Vec<HtmlNode>) -> (r: Vec<char>)
    ensures
        r@ == bodiless_text(nodes_view(tree@)),
{
    proof {
        lemma_nodes_view_index(tree@);
    }
    if tree.len() == 0 {
        return Vec::new();
    }
    let dch = match &tree[0] {
        HtmlNode::Other(dch) => dch,
        _ => {
            return Vec::new();
        },
    };
    proof {
        lemma_nodes_view_index(dch@);
    }
    let ghost dv = nodes_view(dch@);
    assert(nodes_view(tree@)[0] == node_view(tree@[0]));
    let mut i: usize = 0;
    assert(dv.subrange(0, dv.len() as int) =~= dv);
    while i < dch.len()
        invariant
            i <= dch.len(),
            dv == nodes_view(dch@),
            nodes_view(tree@).len() > 0,
            nodes_view(tree@)[0] == NodeView::Other(dv),
            dv.len() == dch@.len(),
            forall|k: int| 0 <= k < dch@.len() ==> #[trigger] dv[k] == node_view(dch@[k]),
            first_element(dv) == first_element(dv.subrange(i as int, dv.len() as int)),
        decreases dch.len() - i,
    {
        let ghost rest = dv.subrange(i as int, dv.len() as int);
        assert(rest[0] == node_view(dch@[i as int]));
        assert(rest.subrange(1, rest.len() as int) =~= dv.subrange(i + 1, dv.len() as int));
        if let HtmlNode::Element(root, rch) = &dch[i] {
            return root_text(root, rch);
        }
        i = i + 1;
    }
    assert(dv.subrange(i as int, dv.len() as int).len() == 0);
    Vec::new()
}

fn root_text(root: &ElementInfo, ch: &Vec<HtmlNode>) -> (r: Vec<char>)
    ensures
        r@ == root_children_text(root@, nodes_view(ch@), Seq::empty()),
{
    proof {
        lemma_nodes_view_index(ch@);
    }
    let ghost nv = nodes_view(ch@);
    let root_excluded = is_excluded_element(root);
    let mut acc: Vec<char> = Vec::new();
    let mut i: usize = 0;
    assert(nv.subrange(0, nv.len() as int) =~= nv);
    while i < ch.len()
        invariant
            i <= ch.len(),
            nv == nodes_view(ch@),
            nv.len() == ch@.len(),
            forall|k: int| 0 <= k < ch@.len() ==> #[trigger] nv[k] == node_view(ch@[k]),
            root_excluded == excluded(root@),
            root_children_text(root@, nv, Seq::empty()) == root_children_text(
                root@,
                nv.subrange(i as int, nv.len() as int),
                acc@,
            ),
        decreases ch.len() - i,
    {
        let ghost rest = nv.subrange(i as int, nv.len() as int);
        assert(rest[0] == node_view(ch@[i as int]));
        assert(rest.subrange(1, rest.len() as int) =~= nv.subrange(i + 1, nv.len() as int));
        if let HtmlNode::Element(c, cch) = &ch[i] {
            if !same_text(c.name.as_str(), "head") {
                let blocked = is_excluded_element(c) || root_excluded;
                let mut inner: Vec<char> = Vec::new();
                children_text(cch, blocked, &mut inner);
                acc.append(&mut inner);
            }
        }
        i = i + 1;
    }
    assert(nv.subrange(i as int, nv.len() as int).len() == 0);
    acc
}

/// Text of a chapter given its HTML and the walk of its parsed document
/// (see `text_from_walk`).
pub fn filtered_text_from_walk(html: &str, walk: &Vec<HtmlEvent>) -> (r: String)
    ensures
        r@ == text_from_walk(html@, event_views(walk@)),
{
    let (tree, _) = build_forest(walk, 0);
    if !has_note_markers(&tree) {
        return strip_html(html);
    }
    match find_body_nodes(&tree, false) {
        Some((ch, b)) => {
            let mut acc: Vec<char> = Vec::new();
            children_text(ch, b, &mut acc);
            string_of(&acc, 0, acc.len())
        },
        None => {
            let acc = bodiless_document_text(&tree);
            string_of(&acc, 0, acc.len())
        },
    }
}

/// Text of an EPUB chapter without its footnotes: the stripped HTML when no
/// element marks a footnote, else the text of `body` without them.
pub fn extract_epub_html_filtered(html: &str) -> (r: String)
    ensures
        r@ == epub_chapter_text(html@),
{
    let walk = parse_document_walk(html);
    filtered_text_from_walk(html, &walk)
}

/// A footnote element adds no text: the text of a list of nodes is the
/// same with or without it.
pub proof fn law_footnote_adds_nothing(ch: Seq<NodeView>, i: int, blocked: bool, acc: Seq<char>)
    requires
        0 <= i < ch.len(),
        ch[i] matches NodeView::Element(e, _) && excluded(e),
    ensures
        fold_children(ch, blocked, acc) == fold_children(ch.remove(i), blocked, acc),
    decreases ch.len(),
{
    let rest = ch.subrange(1, ch.len() as int);
    if i == 0 {
        assert(ch.remove(0) =~= rest);
        assert(child_step(ch[0], blocked, acc) == acc);
    } else {
        let a1 = child_step(ch[0], blocked, acc);
        assert(rest[i - 1] == ch[i]);
        law_footnote_adds_nothing(rest, i - 1, blocked, a1);
        let r = ch.remove(i);
        assert(r[0] == ch[0]);
        assert(r.subrange(1, r.len() as int) =~= rest.remove(i - 1));
    }
}

/// Inside a footnote nothing but bare text is read: element children add
/// no text.
pub proof fn law_blocked_elements_add_nothing(n: NodeView, acc: Seq<char>)
    requires
        n is Element,
    ensures
        child_step(n, true, acc) == acc,
{
}

proof fn lemma_marker_in_list(ns: Seq<NodeView>, i: int)
    requires
        0 <= i < ns.len(),
        node_marker(ns[i]),
    ensures
        any_marker(ns),
    decreases ns.len(),
{
    if i > 0 {
        let rest = ns.subrange(1, ns.len() as int);
        assert(rest[i - 1] == ns[i]);
        lemma_marker_in_list(rest, i - 1);
    }
}

/// An element whose `epub:type`, once lowercased, mentions a footnote or an
/// endnote, and any `aside`, is a footnote: its presence among a list of
/// nodes marks the chapter as holding footnotes, and the text of the list
/// is the same as without it, so nothing it holds is read.
pub proof fn law_note_elements_left_out(
    e: ElementView,
    ch: Seq<NodeView>,
    ns: Seq<NodeView>,
    i: int,
    blocked: bool,
    acc: Seq<char>,
)
    requires
        (e.epub_type matches Some(t) && (contains_seq(lowercase(t), "footnote"@) || contains_seq(
            lowercase(t),
            "endnote"@,
        ))) || e.name == "aside"@,
        0 <= i < ns.len(),
        ns[i] == NodeView::Element(e, ch),
    ensures
        excluded(e),
        any_marker(ns),
        fold_children(ns, blocked, acc) == fold_children(ns.remove(i), blocked, acc),
{
    assert(node_marker(ns[i]));
    lemma_marker_in_list(ns, i);
    law_footnote_adds_nothing(ns, i, blocked, acc);
}

} // verus!
