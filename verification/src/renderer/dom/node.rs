//! The nodes of the document tree and the window that owns them.
//!
//! The nodes of one tree live in one vector, and a node names another by its
//! place in it. The document is node 0. A node is only ever added behind the
//! last child of its parent, so a node's number tells when it was made.
use vstd::prelude::*;
use vstd::std_specs::cmp::PartialEqSpecImpl;
use crate::text::str_equals;
use crate::renderer::html::attribute::{Attribute, AttributeView};
use crate::renderer::html::token::attributes_view;

verus! {

/// The place of a node in its window.
pub type NodeId = usize;

/// The kinds of element the tree can hold.
#[derive(Clone, Copy, Debug, PartialEq, Eq, Structural)]
pub enum ElementKind {
    Html,
    Head,
    Style,
    Body,
    P,
    A,
    H1,
    H2,
}

/// The kind of element that a tag name stands for, if any.
pub open spec fn kind_of_tag(tag: Seq<char>) -> Option<ElementKind> {
    if tag == "html"@ {
        Some(ElementKind::Html)
    } else if tag == "head"@ {
        Some(ElementKind::Head)
    } else if tag == "style"@ {
        Some(ElementKind::Style)
    } else if tag == "body"@ {
        Some(ElementKind::Body)
    } else if tag == "p"@ {
        Some(ElementKind::P)
    } else if tag == "a"@ {
        Some(ElementKind::A)
    } else if tag == "h1"@ {
        Some(ElementKind::H1)
    } else if tag == "h2"@ {
        Some(ElementKind::H2)
    } else {
        None
    }
}

/// The `Debug` form of a string: what `{:?}` gives for it, in quotes and
/// with escapes.
pub uninterp spec fn debug_form(s: Seq<char>) -> Seq<char>;

/// The message for a tag name that stands for no element.
pub open spec fn unimplemented_element_message(tag: Seq<char>) -> Seq<char> {
    "unimplemented element name "@ + debug_form(tag)
}

/// The message for a tag name that stands for no element: std's `format!`
/// puts the `Debug` form of the name behind the words.
#[verifier::external_body]
fn format_unimplemented_element(tag: &str) -> (r: String)
    ensures
        r@ == "unimplemented element name "@ + debug_form(tag@),
{
    format!("unimplemented element name {:?}", tag)
}

impl ElementKind {
    /// The kind of element that `s` names, or a message that says that it
    /// names none.
    pub fn from_str(s: &str) -> (r: Result<ElementKind, String>)
        ensures
            match kind_of_tag(s@) {
                Some(kind) => r == Ok::<ElementKind, String>(kind),
                None => r is Err && r->Err_0@ == unimplemented_element_message(s@),
            },
    {
        if str_equals(s, "html") {
            Ok(ElementKind::Html)
        } else if str_equals(s, "head") {
            Ok(ElementKind::Head)
        } else if str_equals(s, "style") {
            Ok(ElementKind::Style)
        } else if str_equals(s, "body") {
            Ok(ElementKind::Body)
        } else if str_equals(s, "p") {
            Ok(ElementKind::P)
        } else if str_equals(s, "a") {
            Ok(ElementKind::A)
        } else if str_equals(s, "h1") {
            Ok(ElementKind::H1)
        } else if str_equals(s, "h2") {
            Ok(ElementKind::H2)
        } else {
            Err(format_unimplemented_element(s))
        }
    }
}

/// What an element holds.
pub struct ElementView {
    pub kind: ElementKind,
    pub attributes: Seq<AttributeView>,
}

/// An element: its kind and its attributes, in the order of the tag.
#[derive(Debug, PartialEq)]
pub struct Element {
    kind: ElementKind,
    attributes: Vec<Attribute>,
}

impl View for Element {
    type V = ElementView;

    closed spec fn view(&self) -> ElementView {
        ElementView { kind: self.kind, attributes: attributes_view(self.attributes@) }
    }
}

impl Element {
    /// The element that the tag name stands for, with these attributes.
    pub fn new(tag: &str, attributes: Vec<Attribute>) -> (r: Self)
        requires
            kind_of_tag(tag@) is Some,
        ensures
            r@ == (ElementView {
                kind: kind_of_tag(tag@)->0,
                attributes: attributes_view(attributes@),
            }),
    {
        match ElementKind::from_str(tag) {
            Ok(kind) => Self { kind, attributes },
            Err(_) => {
                proof {
                    assert(false);
                }
                Self { kind: ElementKind::Html, attributes }
            },
        }
    }

    /// The kind.
    pub fn kind(&self) -> (r: ElementKind)
        ensures
            r == self@.kind,
    {
        self.kind
    }
}

/// What a node is.
pub enum NodeKindView {
    Document,
    Element(ElementView),
    Text(Seq<char>),
}

/// What a node is: the document, an element, or a run of text.
#[derive(Debug)]
pub enum NodeKind {
    Document,
    Element(Element),
    Text(String),
}

impl View for NodeKind {
    type V = NodeKindView;

    open spec fn view(&self) -> NodeKindView {
        match *self {
            NodeKind::Document => NodeKindView::Document,
            NodeKind::Element(e) => NodeKindView::Element(e@),
            NodeKind::Text(s) => NodeKindView::Text(s@),
        }
    }
}

/// Two kinds are alike when both are the document, both are elements of one
/// kind, or both are the same text. The attributes of an element do not
/// count.
pub open spec fn kinds_alike(a: NodeKindView, b: NodeKindView) -> bool {
    match (a, b) {
        (NodeKindView::Document, NodeKindView::Document) => true,
        (NodeKindView::Element(l), NodeKindView::Element(r)) => l.kind == r.kind,
        (NodeKindView::Text(l), NodeKindView::Text(r)) => l == r,
        _ => false,
    }
}

impl PartialEq for NodeKind {
    fn eq(&self, other: &Self) -> (r: bool) {
        match self {
            NodeKind::Document => match other {
                NodeKind::Document => true,
                _ => false,
            },
            NodeKind::Element(l0) => match other {
                NodeKind::Element(r0) => l0.kind() == r0.kind(),
                _ => false,
            },
            NodeKind::Text(l0) => match other {
                NodeKind::Text(r0) => str_equals(l0.as_str(), r0.as_str()),
                _ => false,
            },
        }
    }
}

impl PartialEqSpecImpl for NodeKind {
    open spec fn obeys_eq_spec() -> bool {
        true
    }

    open spec fn eq_spec(&self, other: &Self) -> bool {
        kinds_alike(self@, other@)
    }
}

/// The element kind of a node of this kind, if it is an element.
pub open spec fn element_kind_of(kind: NodeKindView) -> Option<ElementKind> {
    match kind {
        NodeKindView::Element(e) => Some(e.kind),
        _ => None,
    }
}

/// A node as a value: what it is, and the nodes it names.
pub struct NodeView {
    pub kind: NodeKindView,
    pub parent: Option<NodeId>,
    pub first_child: Option<NodeId>,
    pub last_child: Option<NodeId>,
    pub previous_sibling: Option<NodeId>,
    pub next_sibling: Option<NodeId>,
}

/// A node of the tree. It names its parent, its first and last child and the
/// siblings before and after it by their places in the window.
#[derive(Debug)]
pub struct Node {
    pub kind: NodeKind,
    parent: Option<NodeId>,
    first_child: Option<NodeId>,
    last_child: Option<NodeId>,
    previous_sibling: Option<NodeId>,
    next_sibling: Option<NodeId>,
}

impl View for Node {
    type V = NodeView;

    closed spec fn view(&self) -> NodeView {
        NodeView {
            kind: self.kind@,
            parent: self.parent,
            first_child: self.first_child,
            last_child: self.last_child,
            previous_sibling: self.previous_sibling,
            next_sibling: self.next_sibling,
        }
    }
}

impl PartialEq for Node {
    fn eq(&self, other: &Self) -> (r: bool) {
        self.kind == other.kind
    }
}

impl PartialEqSpecImpl for Node {
    open spec fn obeys_eq_spec() -> bool {
        true
    }

    open spec fn eq_spec(&self, other: &Self) -> bool {
        kinds_alike(self@.kind, other@.kind)
    }
}

/// A node of this kind that names no other node.
pub open spec fn lone_node(kind: NodeKindView) -> NodeView {
    NodeView {
        kind,
        parent: None,
        first_child: None,
        last_child: None,
        previous_sibling: None,
        next_sibling: None,
    }
}

impl Node {
    /// A node of this kind that names no other node.
    pub fn new(kind: NodeKind) -> (r: Self)
        ensures
            r@ == lone_node(kind@),
    {
        Self {
            kind,
            parent: None,
            first_child: None,
            last_child: None,
            previous_sibling: None,
            next_sibling: None,
        }
    }

    /// The kind of element, if the node is an element.
    pub fn element_kind(&self) -> (r: Option<ElementKind>)
        ensures
            r == element_kind_of(self@.kind),
    {
        match &self.kind {
            NodeKind::Element(element) => Some(element.kind()),
            _ => None,
        }
    }

    /// Whether the node is text.
    pub fn is_text(&self) -> (r: bool)
        ensures
            r == (self@.kind is Text),
    {
        match &self.kind {
            NodeKind::Text(_) => true,
            _ => false,
        }
    }

    /// Names the parent.
    pub fn set_parent(&mut self, node: Option<NodeId>)
        ensures
            final(self)@ == (NodeView { parent: node, ..old(self)@ }),
    {
        self.parent = node
    }

    /// The parent, if the node names one.
    pub fn parent(&self) -> (r: Option<NodeId>)
        ensures
            r == self@.parent,
    {
        self.parent
    }

    /// Names the first child.
    pub fn set_first_child(&mut self, node: Option<NodeId>)
        ensures
            final(self)@ == (NodeView { first_child: node, ..old(self)@ }),
    {
        self.first_child = node
    }

    /// The first child, if the node names one.
    pub fn first_child(&self) -> (r: Option<NodeId>)
        ensures
            r == self@.first_child,
    {
        self.first_child
    }

    /// Names the last child.
    pub fn set_last_child(&mut self, node: Option<NodeId>)
        ensures
            final(self)@ == (NodeView { last_child: node, ..old(self)@ }),
    {
        self.last_child = node
    }

    /// The last child, if the node names one.
    pub fn last_child(&self) -> (r: Option<NodeId>)
        ensures
            r == self@.last_child,
    {
        self.last_child
    }

    /// Names the sibling before the node.
    pub fn set_previous_sibling(&mut self, node: Option<NodeId>)
        ensures
            final(self)@ == (NodeView { previous_sibling: node, ..old(self)@ }),
    {
        self.previous_sibling = node
    }

    /// The sibling before the node, if it names one.
    pub fn previous_sibling(&self) -> (r: Option<NodeId>)
        ensures
            r == self@.previous_sibling,
    {
        self.previous_sibling
    }

    /// Names the sibling behind the node.
    pub fn set_next_sibling(&mut self, node: Option<NodeId>)
        ensures
            final(self)@ == (NodeView { next_sibling: node, ..old(self)@ }),
    {
        self.next_sibling = node
    }

    /// The sibling behind the node, if it names one.
    pub fn next_sibling(&self) -> (r: Option<NodeId>)
        ensures
            r == self@.next_sibling,
    {
        self.next_sibling
    }
}

/// What the tree asks of node `i`: the document is node 0 and has no parent
/// and no sibling; every other node has a parent that was made before it;
/// text has no child; and each node it names names it back.
pub open spec fn node_ok(nodes: Seq<NodeView>, i: int) -> bool {
    let x = nodes[i];
    &&& (i == 0 ==> x.kind is Document && x.parent is None && x.previous_sibling is None
        && x.next_sibling is None)
    &&& (i != 0 ==> !(x.kind is Document) && x.parent is Some && x.parent->0 < i)
    &&& (x.kind is Text ==> x.first_child is None)
    &&& (x.first_child is None <==> x.last_child is None)
    &&& (x.next_sibling matches Some(j) ==> i < j < nodes.len() && nodes[j as int].previous_sibling
        == Some(i as usize) && nodes[j as int].parent == x.parent)
    &&& (x.previous_sibling matches Some(h) ==> h < i && nodes[h as int].next_sibling == Some(
        i as usize,
    ))
    &&& (x.first_child matches Some(c) ==> i < c < nodes.len() && nodes[c as int].parent == Some(
        i as usize,
    ) && nodes[c as int].previous_sibling is None)
    &&& (x.last_child matches Some(c) ==> i < c < nodes.len() && nodes[c as int].parent == Some(
        i as usize,
    ) && nodes[c as int].next_sibling is None)
    &&& (x.parent matches Some(p) ==> (x.previous_sibling is None ==> nodes[p as int].first_child
        == Some(i as usize)) && (x.next_sibling is None ==> nodes[p as int].last_child == Some(
        i as usize,
    )))
}

/// The nodes form a tree: there is a document, and `node_ok` holds of every
/// node.
pub open spec fn tree_wf(nodes: Seq<NodeView>) -> bool {
    &&& 1 <= nodes.len() <= usize::MAX
    &&& forall|i: int| 0 <= i < nodes.len() ==> #[trigger] node_ok(nodes, i)
}

/// The tree with one more node, of kind `kind`, as the last child of
/// `parent`. The new node gets the next free place.
pub open spec fn with_child(nodes: Seq<NodeView>, parent: NodeId, kind: NodeKindView) -> Seq<
    NodeView,
> {
    let id = nodes.len() as usize;
    let p = nodes[parent as int];
    let child = NodeView {
        kind,
        parent: Some(parent),
        first_child: None,
        last_child: None,
        previous_sibling: p.last_child,
        next_sibling: None,
    };
    let linked = match p.last_child {
        Some(last) => nodes.update(
            last as int,
            NodeView { next_sibling: Some(id), ..nodes[last as int] },
        ),
        None => nodes,
    };
    linked.update(
        parent as int,
        NodeView {
            first_child: if p.first_child is None {
                Some(id)
            } else {
                p.first_child
            },
            last_child: Some(id),
            ..p
        },
    ).push(child)
}

/// The tree with `c` appended to the text of node `id`. A node that is no
/// text is left as it is.
pub open spec fn with_text_char(nodes: Seq<NodeView>, id: NodeId, c: char) -> Seq<NodeView> {
    match nodes[id as int].kind {
        NodeKindView::Text(s) => nodes.update(
            id as int,
            NodeView { kind: NodeKindView::Text(s.push(c)), ..nodes[id as int] },
        ),
        _ => nodes,
    }
}

/// A new last child keeps the tree a tree.
pub proof fn lemma_with_child_wf(nodes: Seq<NodeView>, parent: NodeId, kind: NodeKindView)
    requires
        tree_wf(nodes),
        nodes.len() < usize::MAX,
        parent < nodes.len(),
        !(nodes[parent as int].kind is Text),
        !(kind is Document),
    ensures
        tree_wf(with_child(nodes, parent, kind)),
{
    let after = with_child(nodes, parent, kind);
    let id = nodes.len() as int;
    assert(node_ok(nodes, parent as int));
    if nodes[parent as int].last_child is Some {
        assert(node_ok(nodes, nodes[parent as int].last_child->0 as int));
    }
    assert forall|i: int| 0 <= i < after.len() implies #[trigger] node_ok(after, i) by {
        if i < id {
            assert(node_ok(nodes, i));
        }
    }
}

/// A new last child changes the kind of no node that was there, and has the
/// kind that it was made with.
pub proof fn lemma_with_child_kinds(nodes: Seq<NodeView>, parent: NodeId, kind: NodeKindView)
    requires
        tree_wf(nodes),
        parent < nodes.len(),
    ensures
        with_child(nodes, parent, kind).len() == nodes.len() + 1,
        with_child(nodes, parent, kind)[nodes.len() as int].kind == kind,
        forall|i: int|
            0 <= i < nodes.len() ==> (#[trigger] with_child(nodes, parent, kind)[i]).kind
                == nodes[i].kind,
{
    assert(node_ok(nodes, parent as int));
}

/// One more character of text leaves every element an element of its kind,
/// and text what was text.
pub proof fn lemma_with_text_char_kinds(nodes: Seq<NodeView>, id: NodeId, c: char)
    requires
        id < nodes.len(),
    ensures
        with_text_char(nodes, id, c).len() == nodes.len(),
        forall|i: int|
            0 <= i < nodes.len() ==> element_kind_of(
                (#[trigger] with_text_char(nodes, id, c)[i]).kind,
            ) == element_kind_of(nodes[i].kind) && (with_text_char(nodes, id, c)[i].kind is Text
                <==> nodes[i].kind is Text),
{
}

/// One more character of text keeps the tree a tree.
pub proof fn lemma_with_text_char_wf(nodes: Seq<NodeView>, id: NodeId, c: char)
    requires
        tree_wf(nodes),
        id < nodes.len(),
    ensures
        tree_wf(with_text_char(nodes, id, c)),
{
    let after = with_text_char(nodes, id, c);
    assert forall|i: int| 0 <= i < after.len() implies #[trigger] node_ok(after, i) by {
        assert(node_ok(nodes, i));
    }
}

/// Node `i` and the siblings behind it, in order.
pub open spec fn siblings_from(nodes: Seq<NodeView>, i: int) -> Seq<NodeId>
    decreases nodes.len() - i,
{
    if 0 <= i < nodes.len() {
        match nodes[i].next_sibling {
            Some(j) if i < j < nodes.len() => seq![i as usize] + siblings_from(nodes, j as int),
            _ => seq![i as usize],
        }
    } else {
        Seq::empty()
    }
}

/// The children of node `p` as a walk finds them: the first child, then
/// each next sibling.
pub open spec fn children(nodes: Seq<NodeView>, p: int) -> Seq<NodeId> {
    match nodes[p].first_child {
        Some(c) => siblings_from(nodes, c as int),
        None => Seq::empty(),
    }
}

/// The walk from a child of `p` on starts at that child, finds children of
/// `p` only, each with a greater number than the one before, and ends at
/// the last child of `p`.
pub proof fn lemma_siblings_from(nodes: Seq<NodeView>, i: int, p: NodeId)
    requires
        tree_wf(nodes),
        0 <= i < nodes.len(),
        nodes[i].parent == Some(p),
    ensures
        siblings_from(nodes, i).len() >= 1,
        siblings_from(nodes, i)[0] == i,
        forall|k: int|
            0 <= k < siblings_from(nodes, i).len() ==> i <= (#[trigger] siblings_from(nodes, i)[k])
                < nodes.len() && nodes[siblings_from(nodes, i)[k] as int].parent == Some(p),
        forall|j: int, k: int|
            0 <= j < k < siblings_from(nodes, i).len() ==> siblings_from(nodes, i)[j]
                < siblings_from(nodes, i)[k],
        forall|k: int|
            0 <= k < siblings_from(nodes, i).len() - 1 ==> nodes[(#[trigger] siblings_from(
                nodes,
                i,
            )[k]) as int].next_sibling == Some(siblings_from(nodes, i)[k + 1]),
        nodes[siblings_from(nodes, i).last() as int].next_sibling is None,
        nodes[p as int].last_child == Some(siblings_from(nodes, i).last()),
    decreases nodes.len() - i,
{
    assert(node_ok(nodes, i));
    match nodes[i].next_sibling {
        Some(j) => {
            lemma_siblings_from(nodes, j as int, p);
            let rest = siblings_from(nodes, j as int);
            let all = siblings_from(nodes, i);
            assert(all =~= seq![i as usize] + rest);
            assert forall|k: int| 0 <= k < all.len() implies i <= (#[trigger] all[k]) < nodes.len()
                && nodes[all[k] as int].parent == Some(p) by {
                if k > 0 {
                    assert(all[k] == rest[k - 1]);
                }
            }
            assert forall|a: int, b: int| 0 <= a < b < all.len() implies all[a] < all[b] by {
                assert(all[b] == rest[b - 1]);
                if a > 0 {
                    assert(all[a] == rest[a - 1]);
                }
            }
            assert forall|k: int| 0 <= k < all.len() - 1 implies nodes[(#[trigger] all[k]) as int].next_sibling
                == Some(all[k + 1]) by {
                assert(all[k + 1] == rest[k]);
                if k > 0 {
                    assert(all[k] == rest[k - 1]);
                }
            }
            assert(all.last() == rest.last());
        },
        None => {},
    }
}

/// A walk that finds node `h` also finds the next sibling of `h`.
pub proof fn lemma_siblings_from_next(nodes: Seq<NodeView>, i: int, h: NodeId, c: NodeId)
    requires
        tree_wf(nodes),
        0 <= i < nodes.len(),
        siblings_from(nodes, i).contains(h),
        h < nodes.len(),
        nodes[h as int].next_sibling == Some(c),
    ensures
        siblings_from(nodes, i).contains(c),
    decreases nodes.len() - i,
{
    assert(node_ok(nodes, i));
    let all = siblings_from(nodes, i);
    let k = choose|k: int| 0 <= k < all.len() && all[k] == h;
    if h == i {
        let rest = siblings_from(nodes, c as int);
        assert(node_ok(nodes, c as int));
        assert(rest.len() >= 1 && rest[0] == c) by {
            match nodes[c as int].next_sibling {
                Some(j) => {
                    assert(rest =~= seq![c] + siblings_from(nodes, j as int));
                },
                None => {},
            }
        }
        assert(all =~= seq![i as usize] + rest);
        assert(all[1] == c);
    } else {
        match nodes[i].next_sibling {
            Some(j) => {
                let rest = siblings_from(nodes, j as int);
                assert(all =~= seq![i as usize] + rest);
                assert(k > 0);
                assert(rest[k - 1] == h);
                lemma_siblings_from_next(nodes, j as int, h, c);
                let m = choose|m: int| 0 <= m < rest.len() && rest[m] == c;
                assert(all[m + 1] == c);
            },
            None => {
                assert(all =~= seq![i as usize]);
            },
        }
    }
}

/// The walk over the children of the parent of `c` finds `c`.
pub proof fn lemma_child_is_found(nodes: Seq<NodeView>, c: int)
    requires
        tree_wf(nodes),
        0 < c < nodes.len(),
    ensures
        nodes[c].parent is Some,
        children(nodes, nodes[c].parent->0 as int).contains(c as usize),
    decreases c,
{
    assert(node_ok(nodes, c));
    let p = nodes[c].parent->0;
    assert(node_ok(nodes, p as int));
    match nodes[c].previous_sibling {
        None => {
            lemma_siblings_from(nodes, c, p);
            assert(siblings_from(nodes, c)[0] == c);
        },
        Some(h) => {
            assert(node_ok(nodes, h as int));
            assert(h != 0);
            lemma_child_is_found(nodes, h as int);
            let first = nodes[p as int].first_child->0;
            lemma_siblings_from_next(nodes, first as int, h, c as usize);
        },
    }
}

/// Every node but the document has one parent, and the walk from that
/// parent's first child along the next siblings finds the node: it finds
/// the children of the parent and no other node, each once, in the order in
/// which they were added.
pub proof fn law_children_walk(nodes: Seq<NodeView>, p: int)
    requires
        tree_wf(nodes),
        0 <= p < nodes.len(),
    ensures
        forall|c: int|
            0 < c < nodes.len() && nodes[c].parent == Some(p as usize) ==> #[trigger] children(
                nodes,
                p,
            ).contains(c as usize),
        forall|k: int|
            0 <= k < children(nodes, p).len() ==> 0 < (#[trigger] children(nodes, p)[k])
                < nodes.len() && nodes[children(nodes, p)[k] as int].parent == Some(p as usize),
        forall|j: int, k: int|
            0 <= j < k < children(nodes, p).len() ==> children(nodes, p)[j] < children(
                nodes,
                p,
            )[k],
{
    assert(node_ok(nodes, p));
    assert forall|c: int|
        0 < c < nodes.len() && nodes[c].parent == Some(p as usize) implies #[trigger] children(
        nodes,
        p,
    ).contains(c as usize) by {
        lemma_child_is_found(nodes, c);
    }
    match nodes[p].first_child {
        Some(first) => {
            lemma_siblings_from(nodes, first as int, p as usize);
        },
        None => {},
    }
}

/// The next sibling of a node names that node as its previous sibling.
pub proof fn law_next_names_previous(nodes: Seq<NodeView>, a: int)
    requires
        tree_wf(nodes),
        0 <= a < nodes.len(),
        nodes[a].next_sibling is Some,
    ensures
        nodes[a].next_sibling->0 < nodes.len(),
        nodes[nodes[a].next_sibling->0 as int].previous_sibling == Some(a as usize),
{
    assert(node_ok(nodes, a));
}

/// The last child that a parent names is the last node of the walk over
/// its children.
pub proof fn law_last_child_ends_walk(nodes: Seq<NodeView>, p: int)
    requires
        tree_wf(nodes),
        0 <= p < nodes.len(),
        nodes[p].first_child is Some,
    ensures
        children(nodes, p).len() >= 1,
        nodes[p].last_child == Some(children(nodes, p).last()),
{
    assert(node_ok(nodes, p));
    lemma_siblings_from(nodes, nodes[p].first_child->0 as int, p as usize);
}

/// After a node was added under `parent`, the walk from a child of `parent`
/// on finds what it found before and then the new node; any other walk
/// finds what it found before.
pub proof fn lemma_siblings_after_append(
    nodes: Seq<NodeView>,
    parent: NodeId,
    kind: NodeKindView,
    i: int,
)
    requires
        tree_wf(nodes),
        nodes.len() < usize::MAX,
        parent < nodes.len(),
        0 < i < nodes.len(),
    ensures
        siblings_from(with_child(nodes, parent, kind), i) == (if nodes[i].parent == Some(parent) {
            siblings_from(nodes, i).push(nodes.len() as usize)
        } else {
            siblings_from(nodes, i)
        }),
    decreases nodes.len() - i,
{
    let after = with_child(nodes, parent, kind);
    let id = nodes.len() as usize;
    assert(node_ok(nodes, i));
    assert(node_ok(nodes, parent as int));
    if nodes[parent as int].last_child is Some {
        assert(node_ok(nodes, nodes[parent as int].last_child->0 as int));
    }
    match nodes[i].next_sibling {
        Some(j) => {
            lemma_siblings_after_append(nodes, parent, kind, j as int);
            assert(after[i].next_sibling == Some(j));
            if nodes[i].parent == Some(parent) {
                assert(siblings_from(after, i) =~= siblings_from(nodes, i).push(id));
            }
        },
        None => {
            if nodes[i].parent == Some(parent) {
                assert(nodes[parent as int].last_child == Some(i as usize));
                assert(after[i].next_sibling == Some(id));
                assert(after[id as int].next_sibling is None);
                assert(siblings_from(after, id as int) =~= seq![id]);
                assert(siblings_from(after, i) =~= seq![i as usize, id]);
                assert(siblings_from(nodes, i).push(id) =~= seq![i as usize, id]);
            } else {
                assert(after[i].next_sibling is None);
            }
        },
    }
}

/// A node that is added becomes the last child of its parent: the walk over
/// the children of the parent finds what it found before and then the new
/// node, and the walk over the children of any other node is as before.
pub proof fn law_append_is_last(nodes: Seq<NodeView>, parent: NodeId, kind: NodeKindView, q: int)
    requires
        tree_wf(nodes),
        nodes.len() < usize::MAX,
        parent < nodes.len(),
        0 <= q < nodes.len(),
    ensures
        children(with_child(nodes, parent, kind), q) == (if q == parent {
            children(nodes, q).push(nodes.len() as usize)
        } else {
            children(nodes, q)
        }),
{
    let after = with_child(nodes, parent, kind);
    let id = nodes.len() as usize;
    assert(node_ok(nodes, q));
    assert(node_ok(nodes, parent as int));
    if nodes[parent as int].last_child is Some {
        assert(node_ok(nodes, nodes[parent as int].last_child->0 as int));
    }
    match nodes[q].first_child {
        Some(c) => {
            lemma_siblings_after_append(nodes, parent, kind, c as int);
            assert(after[q].first_child == Some(c));
        },
        None => {
            if q == parent {
                assert(after[q].first_child == Some(id));
                assert(after[id as int].next_sibling is None);
                assert(siblings_from(after, id as int) =~= seq![id]);
                assert(children(nodes, q).push(id) =~= seq![id]);
            } else {
                assert(after[q].first_child is None);
            }
        },
    }
}

/// The views of the nodes, in order.
pub open spec fn nodes_view(nodes: Seq<Node>) -> Seq<NodeView> {
    nodes.map_values(|n: Node| n@)
}

/// The owner of a document tree. Node 0 is the document.
#[derive(Debug)]
pub struct Window {
    nodes: Vec<Node>,
}

impl View for Window {
    type V = Seq<NodeView>;

    closed spec fn view(&self) -> Seq<NodeView> {
        nodes_view(self.nodes@)
    }
}

impl Window {
    /// The nodes of the window form a tree.
    pub open spec fn wf(&self) -> bool {
        tree_wf(self@)
    }

    /// A window whose tree is the document alone.
    pub fn new() -> (r: Self)
        ensures
            r.wf(),
            r@ == seq![lone_node(NodeKindView::Document)],
    {
        let mut nodes: Vec<Node> = Vec::new();
        nodes.push(Node::new(NodeKind::Document));
        let r = Self { nodes };
        assert(r@ =~= seq![lone_node(NodeKindView::Document)]);
        assert(node_ok(r@, 0));
        r
    }

    /// The document: the root of the tree.
    pub fn document(&self) -> (r: NodeId)
        ensures
            r == 0,
    {
        0
    }

    /// The number of nodes.
    pub fn len(&self) -> (r: usize)
        ensures
            r == self@.len(),
    {
        self.nodes.len()
    }

    /// The node at `id`, if there is one.
    pub fn node(&self, id: NodeId) -> (r: Option<&Node>)
        ensures
            id < self@.len() <==> r is Some,
            r matches Some(node) ==> node@ == self@[id as int],
    {
        if id < self.nodes.len() {
            Some(&self.nodes[id])
        } else {
            None
        }
    }

    /// Adds `node`, which names no other node yet, as the last child of
    /// `parent`: walks the children of `parent` up to the last one, links the
    /// new node behind it, and returns the place of the new node.
    pub fn append_child(&mut self, parent: NodeId, node: Node) -> (id: NodeId)
        requires
            old(self).wf(),
            old(self)@.len() < usize::MAX,
            parent < old(self)@.len(),
            !(old(self)@[parent as int].kind is Text),
            node@ == lone_node(node@.kind),
            !(node@.kind is Document),
        ensures
            final(self).wf(),
            id == old(self)@.len(),
            final(self)@ == with_child(old(self)@, parent, node@.kind),
    {
        let id = self.nodes.len();
        let mut node = node;
        let ghost kind = node@.kind;
        proof {
            assert(node_ok(self@, parent as int));
        }
        match self.nodes[parent].first_child() {
            Some(first) => {
                let mut last = first;
                loop
                    invariant
                        *self == *old(self),
                        self.wf(),
                        last < self@.len(),
                        parent < self@.len(),
                        self@[last as int].parent == Some(parent),
                    ensures
                        self@[last as int].next_sibling is None,
                    decreases self@.len() - last,
                {
                    proof {
                        assert(node_ok(self@, last as int));
                    }
                    match self.nodes[last].next_sibling() {
                        Some(next) => {
                            last = next;
                        },
                        None => {
                            break ;
                        },
                    }
                }
                proof {
                    assert(node_ok(self@, last as int));
                }
                self.nodes[last].set_next_sibling(Some(id));
                node.set_previous_sibling(Some(last));
            },
            None => {
                self.nodes[parent].set_first_child(Some(id));
            },
        }
        self.nodes[parent].set_last_child(Some(id));
        node.set_parent(Some(parent));
        self.nodes.push(node);
        proof {
            assert(self@ =~= with_child(old(self)@, parent, kind));
            lemma_with_child_wf(old(self)@, parent, kind);
        }
        id
    }

    /// Appends `c` to the text of node `id`.
    pub fn append_text(&mut self, id: NodeId, c: char)
        requires
            old(self).wf(),
            id < old(self)@.len(),
            old(self)@[id as int].kind is Text,
        ensures
            final(self).wf(),
            final(self)@ == with_text_char(old(self)@, id, c),
    {
        match &mut self.nodes[id].kind {
            NodeKind::Text(s) => {
                s.push(c);
            },
            _ => {},
        }
        proof {
            assert(self@ =~= with_text_char(old(self)@, id, c));
            lemma_with_text_char_wf(old(self)@, id, c);
        }
    }
}

} // verus!
