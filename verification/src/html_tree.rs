//! The HTML document tree that the EPUB text extraction reads.
//!
//! The document is parsed by `scraper` and walked depth-first into a flat
//! list of open/close events; this module rebuilds the node tree from that
//! list. Only what the extraction reads is kept: text, element names and the
//! `epub:type` and `class` attributes.

use vstd::prelude::*;

verus! {

/// What the extraction reads of an element.
pub struct ElementInfo {
    pub name: String,
    pub epub_type: Option<String>,
    pub class: Option<String>,
}

pub struct ElementView {
    pub name: Seq<char>,
    pub epub_type: Option<Seq<char>>,
    pub class: Option<Seq<char>>,
}

pub open spec fn opt_view(o: Option<String>) -> Option<Seq<char>> {
    match o {
        Some(s) => Some(s@),
        None => None,
    }
}

impl View for ElementInfo {
    type V = ElementView;

    open spec fn view(&self) -> ElementView {
        ElementView {
            name: self.name@,
            epub_type: opt_view(self.epub_type),
            class: opt_view(self.class),
        }
    }
}

/// One step of a depth-first walk of the document: a node is entered
/// (text, element or any other node), or the last entered node is left.
pub enum HtmlEvent {
    Text(String),
    Element(ElementInfo),
    Other,
    Close,
}

pub enum EventView {
    Text(Seq<char>),
    Element(ElementView),
    Other,
    Close,
}

impl View for HtmlEvent {
    type V = EventView;

    open spec fn view(&self) -> EventView {
        match self {
            HtmlEvent::Text(t) => EventView::Text(t@),
            HtmlEvent::Element(e) => EventView::Element(e@),
            HtmlEvent::Other => EventView::Other,
            HtmlEvent::Close => EventView::Close,
        }
    }
}

/// A node of the document: text, an element with its children, or another
/// node (document root, comment, doctype, ...) with its children.
pub enum HtmlNode {
    Text(String),
    Element(ElementInfo, Vec<HtmlNode>),
    Other(Vec<HtmlNode>),
}

pub enum NodeView {
    Text(Seq<char>),
    Element(ElementView, Seq<NodeView>),
    Other(Seq<NodeView>),
}

pub open spec fn node_view(n: HtmlNode) -> NodeView
    decreases n,
{
    match n {
        HtmlNode::Text(t) => NodeView::Text(t@),
        HtmlNode::Element(e, ch) => NodeView::Element(e@, nodes_view(ch@)),
        HtmlNode::Other(ch) => NodeView::Other(nodes_view(ch@)),
    }
}

pub open spec fn nodes_view(s: Seq<HtmlNode>) -> Seq<NodeView>
    decreases s,
{
    if s.len() == 0 {
        Seq::empty()
    } else {
        seq![node_view(s[0])] + nodes_view(s.subrange(1, s.len() as int))
    }
}

pub open spec fn event_views(ev: Seq<HtmlEvent>) -> Seq<EventView> {
    ev.map_values(|e: HtmlEvent| e@)
}

/// The nodes entered from `pos` on, up to the close of their parent (or the
/// end), and the position of that close.
pub open spec fn parse_forest(ev: Seq<EventView>, pos: int) -> (Seq<NodeView>, int)
    decreases ev.len() - pos, 1int,
{
    if pos < 0 || pos >= ev.len() || ev[pos] is Close {
        (Seq::empty(), pos)
    } else {
        let (n, p1) = parse_node(ev, pos);
        if p1 <= pos || p1 > ev.len() {
            (seq![n], p1)
        } else {
            let (rest, p2) = parse_forest(ev, p1);
            (seq![n] + rest, p2)
        }
    }
}

/// The node entered at `pos`, and the position after its close.
pub open spec fn parse_node(ev: Seq<EventView>, pos: int) -> (NodeView, int)
    decreases ev.len() - pos, 0int,
{
    if pos < 0 || pos >= ev.len() {
        (NodeView::Other(Seq::empty()), pos + 1)
    } else {
        let (children, p) = parse_forest(ev, pos + 1);
        let next = if p < ev.len() {
            p + 1
        } else {
            p
        };
        match ev[pos] {
            EventView::Text(t) => (NodeView::Text(t), next),
            EventView::Element(e) => (NodeView::Element(e, children), next),
            _ => (NodeView::Other(children), next),
        }
    }
}

/// The document tree described by a walk.
pub open spec fn tree_of(ev: Seq<EventView>) -> Seq<NodeView> {
    parse_forest(ev, 0).0
}

pub proof fn lemma_parse_bounds(ev: Seq<EventView>, pos: int)
    requires
        0 <= pos <= ev.len(),
    ensures
        pos <= parse_forest(ev, pos).1 <= ev.len(),
        pos < ev.len() ==> pos < parse_node(ev, pos).1 <= ev.len(),
    decreases ev.len() - pos,
{
    if pos < ev.len() {
        lemma_parse_bounds(ev, pos + 1);
        let (n, p1) = parse_node(ev, pos);
        if !(ev[pos] is Close) {
            lemma_parse_bounds(ev, p1);
        }
    }
}

pub(crate) fn copy_string(s: &String) -> (r: String)
    ensures
        r@ == s@,
{
    s.clone()
}

pub(crate) fn copy_opt(o: &Option<String>) -> (r: Option<String>)
    ensures
        opt_view(r) == opt_view(*o),
{
    match o {
        Some(s) => Some(s.clone()),
        None => None,
    }
}

pub fn copy_element(e: &ElementInfo) -> (r: ElementInfo)
    ensures
        r@ == e@,
{
    ElementInfo { name: copy_string(&e.name), epub_type: copy_opt(&e.epub_type), class: copy_opt(&e.class) }
}

proof fn lemma_nodes_view_push(s: Seq<HtmlNode>, n: HtmlNode)
    ensures
        nodes_view(s.push(n)) =~= nodes_view(s).push(node_view(n)),
    decreases s.len(),
{
    let sp = s.push(n);
    if s.len() == 0 {
        assert(sp.subrange(1, 1) =~= Seq::<HtmlNode>::empty());
        assert(nodes_view(Seq::<HtmlNode>::empty()) =~= Seq::<NodeView>::empty());
        assert(sp[0] == n);
        assert(nodes_view(sp) == seq![node_view(n)] + nodes_view(sp.subrange(1, 1)));
    } else {
        let sub = s.subrange(1, s.len() as int);
        lemma_nodes_view_push(sub, n);
        assert(sp.subrange(1, sp.len() as int) =~= sub.push(n));
        assert(sp[0] == s[0]);
        assert(nodes_view(sp) == seq![node_view(s[0])] + nodes_view(sub.push(n)));
        assert(nodes_view(s) == seq![node_view(s[0])] + nodes_view(sub));
    }
}

/// Rebuilds the nodes entered from `pos` on, up to the close of their parent.
pub fn build_forest(ev: &Vec<HtmlEvent>, pos: usize) -> (r: (Vec<HtmlNode>, usize))
    requires
        pos <= ev.len(),
    ensures
        nodes_view(r.0@) == parse_forest(event_views(ev@), pos as int).0,
        r.1 == parse_forest(event_views(ev@), pos as int).1,
    decreases ev.len() - pos, 1usize,
{
    let ghost evv = event_views(ev@);
    let mut out: Vec<HtmlNode> = Vec::new();
    let mut p = pos;
    proof {
        lemma_parse_bounds(evv, pos as int);
    }
    while p < ev.len() && !matches!(ev[p], HtmlEvent::Close)
        invariant
            pos <= p <= ev.len(),
            evv == event_views(ev@),
            parse_forest(evv, pos as int) == ({
                let (rest, q) = parse_forest(evv, p as int);
                (nodes_view(out@) + rest, q)
            }),
        decreases ev.len() - p,
    {
        assert(evv[p as int] == ev@[p as int]@);
        proof {
            lemma_parse_bounds(evv, p as int);
        }
        let (n, q) = build_node(ev, p);
        let ghost before = out@;
        out.push(n);
        proof {
            lemma_nodes_view_push(before, n);
            let (rest, q2) = parse_forest(evv, q as int);
            assert(nodes_view(before) + (seq![node_view(n)] + rest) =~= nodes_view(out@) + rest);
        }
        p = q;
    }
    proof {
        if p < ev.len() {
            assert(evv[p as int] == ev@[p as int]@);
        }
        assert(nodes_view(out@) + Seq::<NodeView>::empty() =~= nodes_view(out@));
    }
    (out, p)
}

/// Rebuilds the node entered at `pos`.
pub fn build_node(ev: &Vec<HtmlEvent>, pos: usize) -> (r: (HtmlNode, usize))
    requires
        pos < ev.len(),
    ensures
        node_view(r.0) == parse_node(event_views(ev@), pos as int).0,
        r.1 == parse_node(event_views(ev@), pos as int).1,
    decreases ev.len() - pos, 0usize,
{
    let ghost evv = event_views(ev@);
    proof {
        lemma_parse_bounds(evv, pos + 1);
    }
    let (children, p) = build_forest(ev, pos + 1);
    let next = if p < ev.len() {
        p + 1
    } else {
        p
    };
    assert(evv[pos as int] == ev@[pos as int]@);
    let node = match &ev[pos] {
        HtmlEvent::Text(t) => HtmlNode::Text(copy_string(t)),
        HtmlEvent::Element(e) => HtmlNode::Element(copy_element(e), children),
        _ => HtmlNode::Other(children),
    };
    (node, next)
}

pub proof fn lemma_nodes_view_index(s: Seq<HtmlNode>)
    ensures
        nodes_view(s).len() == s.len(),
        forall|i: int| 0 <= i < s.len() ==> #[trigger] nodes_view(s)[i] == node_view(s[i]),
    decreases s.len(),
{
    if s.len() > 0 {
        let sub = s.subrange(1, s.len() as int);
        lemma_nodes_view_index(sub);
        assert forall|i: int| 0 <= i < s.len() implies #[trigger] nodes_view(s)[i] == node_view(
            s[i],
        ) by {
            if i > 0 {
                assert(nodes_view(s)[i] == nodes_view(sub)[i - 1]);
                assert(sub[i - 1] == s[i]);
            }
        }
    }
}

/// The depth-first walk of the document that `scraper::Html::parse_document`
/// builds for `html`, starting at the document root.
pub uninterp spec fn document_walk(html: Seq<char>) -> Seq<EventView>;

/// Parses `html` with `scraper::Html::parse_document` (html5ever) and walks
/// the tree depth-first from the root with `ego_tree`'s `traverse`: each
/// node is entered and later left. An element keeps its name and its
/// `epub:type` and `class` attributes. The walk is named, not described.
#[verifier::external_body]
pub(crate) fn parse_document_walk(html: &str) -> (r: Vec<HtmlEvent>)
    ensures
        event_views(r@) == document_walk(html@),
{
    let doc = scraper::Html::parse_document(html);
    let mut r = Vec::new();
    for edge in doc.tree.root().traverse() {
        r.push(match edge {
            ego_tree::iter::Edge::Close(_) => HtmlEvent::Close,
            ego_tree::iter::Edge::Open(n) => match n.value() {
                scraper::Node::Text(t) => HtmlEvent::Text(String::from(&**t)),
                scraper::Node::Element(e) => HtmlEvent::Element(ElementInfo { name: e.name().to_string(),
                    epub_type: e.attr("epub:type").map(String::from), class: e.attr("class").map(String::from) }),
                _ => HtmlEvent::Other,
            },
        });
    }
    r
}

} // verus!
