//! The tree constructor: a state machine over the tokens of a document that
//! builds the document tree.
use vstd::prelude::*;
use crate::text::str_equals;
use crate::renderer::dom::node::{
    element_kind_of, kind_of_tag, lemma_with_child_kinds, lemma_with_child_wf,
    lemma_with_text_char_kinds, lemma_with_text_char_wf, lone_node,
    node_ok, tree_wf, with_child, with_text_char, Element, ElementKind, ElementView, Node,
    NodeId, NodeKind, NodeKindView, NodeView, Window,
};
use crate::renderer::html::attribute::{Attribute, AttributeView};
use crate::renderer::html::token::{
    attributes_view, clone_attributes, lemma_run, token_view, HtmlToken, HtmlTokenView,
    HtmlTokenizer, TokenizerView,
};

verus! {

/// The insertion modes: the states of the tree constructor.
#[derive(Clone, Copy, Debug, PartialEq, Eq, Structural)]
pub enum InsertionMode {
    Initial,
    BeforeHtml,
    BeforeHead,
    InHead,
    AfterHead,
    InBody,
    Text,
    AfterBody,
    AfterAfterBody,
}

/// A space or a line feed.
pub open spec fn is_space(c: char) -> bool {
    c == ' ' || c == '\n'
}

/// The kind of element at place `i` of the stack, if that node is an element.
pub open spec fn kind_at(nodes: Seq<NodeView>, stack: Seq<NodeId>, i: int) -> Option<ElementKind> {
    element_kind_of(nodes[stack[i] as int].kind)
}

/// Whether the node at place `i` of the stack is text.
pub open spec fn text_at(nodes: Seq<NodeView>, stack: Seq<NodeId>, i: int) -> bool {
    nodes[stack[i] as int].kind is Text
}

/// Whether the stack holds an element of this kind.
pub open spec fn contains_kind(nodes: Seq<NodeView>, stack: Seq<NodeId>, kind: ElementKind) -> bool {
    exists|i: int| 0 <= i < stack.len() && #[trigger] kind_at(nodes, stack, i) == Some(kind)
}

/// The stack without its topmost entries up to and including the topmost
/// element of this kind: empty where it holds none.
pub open spec fn popped_until(nodes: Seq<NodeView>, stack: Seq<NodeId>, kind: ElementKind) -> Seq<
    NodeId,
>
    decreases stack.len(),
{
    if stack.len() == 0 {
        stack
    } else if kind_at(nodes, stack, stack.len() - 1) == Some(kind) {
        stack.drop_last()
    } else {
        popped_until(nodes, stack.drop_last(), kind)
    }
}

/// The stack without the text entries at its top.
pub open spec fn without_text(nodes: Seq<NodeView>, stack: Seq<NodeId>) -> Seq<NodeId>
    decreases stack.len(),
{
    if stack.len() > 0 && text_at(nodes, stack, stack.len() - 1) {
        without_text(nodes, stack.drop_last())
    } else {
        stack
    }
}

/// The element kind of a start tag that the body takes.
pub open spec fn body_element(tag: Seq<char>) -> Option<ElementKind> {
    if tag == "p"@ {
        Some(ElementKind::P)
    } else if tag == "a"@ {
        Some(ElementKind::A)
    } else if tag == "h1"@ {
        Some(ElementKind::H1)
    } else if tag == "h2"@ {
        Some(ElementKind::H2)
    } else {
        None
    }
}

/// The tree constructor as a value: the nodes made so far, the stack of open
/// elements with its top last, the insertion mode, and the mode to go back to
/// from `Text`.
pub struct ParserView {
    pub nodes: Seq<NodeView>,
    pub stack: Seq<NodeId>,
    pub mode: InsertionMode,
    pub original_mode: InsertionMode,
}

/// What the tree constructor does with a token: take the next one, work on
/// the same one again in its new mode, or stop.
pub enum Outcome {
    Advance(ParserView),
    Again(ParserView),
    Finish(ParserView),
}

impl Outcome {
    /// The tree constructor after the step.
    pub open spec fn state(self) -> ParserView {
        match self {
            Outcome::Advance(p) => p,
            Outcome::Again(p) => p,
            Outcome::Finish(p) => p,
        }
    }
}

impl ParserView {
    /// The tree constructor before the first token: the document alone, an
    /// empty stack, mode `Initial`.
    pub open spec fn initial() -> ParserView {
        ParserView {
            nodes: seq![lone_node(NodeKindView::Document)],
            stack: Seq::empty(),
            mode: InsertionMode::Initial,
            original_mode: InsertionMode::Initial,
        }
    }

    /// The tree constructor in another mode.
    pub open spec fn to(self, mode: InsertionMode) -> ParserView {
        ParserView { mode, ..self }
    }

    /// The tree constructor with another stack.
    pub open spec fn with_stack(self, stack: Seq<NodeId>) -> ParserView {
        ParserView { stack, ..self }
    }

    /// Whether the stack holds an element of this kind.
    pub open spec fn contains(self, kind: ElementKind) -> bool {
        contains_kind(self.nodes, self.stack, kind)
    }

    /// Whether the top of the stack is an element of this kind.
    pub open spec fn top_is(self, kind: ElementKind) -> bool {
        self.stack.len() > 0 && kind_at(self.nodes, self.stack, self.stack.len() - 1) == Some(kind)
    }

    /// Pops the stack up to and including the topmost element of this kind.
    pub open spec fn pop_until(self, kind: ElementKind) -> ParserView {
        self.with_stack(popped_until(self.nodes, self.stack, kind))
    }

    /// Pops the top of the stack where it is an element of this kind.
    pub open spec fn pop_current(self, kind: ElementKind) -> ParserView {
        if self.top_is(kind) {
            self.with_stack(self.stack.drop_last())
        } else {
            self
        }
    }

    /// The node under which an element is inserted: the top of the stack
    /// once the text entries are off it, or the document where nothing is
    /// left.
    pub open spec fn insertion_parent(self) -> NodeId {
        let stack = without_text(self.nodes, self.stack);
        if stack.len() == 0 {
            0
        } else {
            stack.last()
        }
    }

    /// Inserts an element: pops the text entries off the stack, adds the
    /// element as the last child of the insertion parent, and pushes it.
    pub open spec fn insert_element(self, kind: ElementKind, attributes: Seq<AttributeView>) -> ParserView {
        ParserView {
            nodes: with_child(
                self.nodes,
                self.insertion_parent(),
                NodeKindView::Element(ElementView { kind, attributes }),
            ),
            stack: without_text(self.nodes, self.stack).push(self.nodes.len() as usize),
            ..self
        }
    }

    /// Inserts a character: nothing on an empty stack; appended to the text
    /// at the top of the stack where that is text; else dropped where it is a
    /// space or a line feed; else a new text node, the last child of the top
    /// of the stack, which is pushed.
    pub open spec fn insert_char(self, c: char) -> ParserView {
        if self.stack.len() == 0 {
            self
        } else if text_at(self.nodes, self.stack, self.stack.len() - 1) {
            ParserView { nodes: with_text_char(self.nodes, self.stack.last(), c), ..self }
        } else if is_space(c) {
            self
        } else {
            ParserView {
                nodes: with_child(self.nodes, self.stack.last(), NodeKindView::Text(seq![c])),
                stack: self.stack.push(self.nodes.len() as usize),
                ..self
            }
        }
    }

    /// One step: what the insertion mode does with the token.
    pub open spec fn step(self, token: HtmlTokenView) -> Outcome {
        match self.mode {
            InsertionMode::Initial => step_initial(self, token),
            InsertionMode::BeforeHtml => step_before_html(self, token),
            InsertionMode::BeforeHead => step_before_head(self, token),
            InsertionMode::InHead => step_in_head(self, token),
            InsertionMode::AfterHead => step_after_head(self, token),
            InsertionMode::InBody => step_in_body(self, token),
            InsertionMode::Text => step_text(self, token),
            InsertionMode::AfterBody => step_after_body(self, token),
            InsertionMode::AfterAfterBody => step_after_after_body(self, token),
        }
    }

    /// A bound on the steps that still work on one token: every step that
    /// asks for the same token again lowers it.
    pub open spec fn fuel(self) -> nat {
        let mode: nat = match self.mode {
            InsertionMode::Initial => 19,
            InsertionMode::BeforeHtml => 16,
            InsertionMode::BeforeHead => 13,
            InsertionMode::Text => 10,
            InsertionMode::InHead => 7,
            InsertionMode::AfterHead => 4,
            InsertionMode::AfterBody => 1,
            InsertionMode::AfterAfterBody => 1,
            InsertionMode::InBody => 0,
        };
        if self.top_is(ElementKind::Body) {
            mode + 2
        } else {
            mode
        }
    }

    /// The steps on one token, up to the one that takes the next token or
    /// stops: the tree constructor after them, and whether it stopped. (Under
    /// `wf` every step that asks for the token again lowers the fuel:
    /// `lemma_step`.)
    pub open spec fn process(self, token: HtmlTokenView) -> (ParserView, bool)
        decreases self.fuel(),
    {
        match self.step(token) {
            Outcome::Advance(p) => (p, false),
            Outcome::Finish(p) => (p, true),
            Outcome::Again(p) => if p.fuel() < self.fuel() {
                p.process(token)
            } else {
                (p, true)
            },
        }
    }

    /// The tree constructor after these tokens: it works on them in order
    /// and stops at the first that ends the document, or when none is left.
    pub open spec fn build(self, tokens: Seq<HtmlTokenView>) -> ParserView
        decreases tokens.len(),
    {
        if tokens.len() == 0 {
            self
        } else {
            let (p, finished) = self.process(tokens[0]);
            if finished {
                p
            } else {
                p.build(tokens.drop_first())
            }
        }
    }
}

/// `Initial`: characters are dropped; any other token goes to `BeforeHtml`.
pub open spec fn step_initial(p: ParserView, token: HtmlTokenView) -> Outcome {
    match token {
        HtmlTokenView::Char(_) => Outcome::Advance(p),
        _ => Outcome::Again(p.to(InsertionMode::BeforeHtml)),
    }
}

/// `BeforeHtml`: spaces are dropped; `<html>` is inserted; the end of the
/// document stops; before anything else an `html` element without attributes
/// is inserted.
pub open spec fn step_before_html(p: ParserView, token: HtmlTokenView) -> Outcome {
    match token {
        HtmlTokenView::Char(c) if is_space(c) => Outcome::Advance(p),
        HtmlTokenView::StartTag { tag, self_closing, attributes } if tag == "html"@ => Outcome::Advance(
            p.insert_element(ElementKind::Html, attributes).to(InsertionMode::BeforeHead),
        ),
        HtmlTokenView::Eof => Outcome::Finish(p),
        _ => Outcome::Again(
            p.insert_element(ElementKind::Html, Seq::empty()).to(InsertionMode::BeforeHead),
        ),
    }
}

/// `BeforeHead`: as `BeforeHtml`, for `<head>`.
pub open spec fn step_before_head(p: ParserView, token: HtmlTokenView) -> Outcome {
    match token {
        HtmlTokenView::Char(c) if is_space(c) => Outcome::Advance(p),
        HtmlTokenView::StartTag { tag, self_closing, attributes } if tag == "head"@ => Outcome::Advance(
            p.insert_element(ElementKind::Head, attributes).to(InsertionMode::InHead),
        ),
        HtmlTokenView::Eof => Outcome::Finish(p),
        _ => Outcome::Again(
            p.insert_element(ElementKind::Head, Seq::empty()).to(InsertionMode::InHead),
        ),
    }
}

/// `InHead`: a space is inserted as a character; `<style>` is inserted and
/// its text follows in `Text`; `<body>` and `</head>` close the head; the end
/// of the document stops; anything else is dropped.
pub open spec fn step_in_head(p: ParserView, token: HtmlTokenView) -> Outcome {
    match token {
        HtmlTokenView::Char(c) if is_space(c) => Outcome::Advance(p.insert_char(c)),
        HtmlTokenView::StartTag { tag, self_closing, attributes } if tag == "style"@ => Outcome::Advance(
            ParserView {
                original_mode: p.mode,
                ..p.insert_element(ElementKind::Style, attributes).to(InsertionMode::Text)
            },
        ),
        HtmlTokenView::StartTag { tag, self_closing, attributes } if tag == "body"@ => Outcome::Again(
            p.pop_until(ElementKind::Head).to(InsertionMode::AfterHead),
        ),
        HtmlTokenView::EndTag { tag } if tag == "head"@ => Outcome::Advance(
            p.pop_until(ElementKind::Head).to(InsertionMode::AfterHead),
        ),
        HtmlTokenView::Eof => Outcome::Finish(p),
        _ => Outcome::Advance(p),
    }
}

/// `AfterHead`: a space is inserted as a character; `<body>` is inserted;
/// the end of the document stops; before anything else a `body` element
/// without attributes is inserted.
pub open spec fn step_after_head(p: ParserView, token: HtmlTokenView) -> Outcome {
    match token {
        HtmlTokenView::Char(c) if is_space(c) => Outcome::Advance(p.insert_char(c)),
        HtmlTokenView::StartTag { tag, self_closing, attributes } if tag == "body"@ => Outcome::Advance(
            p.insert_element(ElementKind::Body, attributes).to(InsertionMode::InBody),
        ),
        HtmlTokenView::Eof => Outcome::Finish(p),
        _ => Outcome::Again(
            p.insert_element(ElementKind::Body, Seq::empty()).to(InsertionMode::InBody),
        ),
    }
}

/// `InBody`, on a start tag: `p`, `a`, `h1` and `h2` are inserted; any other
/// tag is dropped.
pub open spec fn step_in_body_start(p: ParserView, tag: Seq<char>, attributes: Seq<AttributeView>) -> Outcome {
    match body_element(tag) {
        Some(kind) => Outcome::Advance(p.insert_element(kind, attributes)),
        None => Outcome::Advance(p),
    }
}

/// `InBody`, on an end tag. `</body>` goes to `AfterBody` and closes the body
/// where one is open. `</html>`, with the body at the top of the stack,
/// closes the body and the `html` element and is worked on again in
/// `AfterAfterBody`. `</p>`, `</a>`, `</h1>` and `</h2>` close the topmost
/// such element with all that is open in it. An end tag whose element is not
/// open, and any other end tag, is dropped.
pub open spec fn step_in_body_end(p: ParserView, tag: Seq<char>) -> Outcome {
    if tag == "body"@ {
        let q = p.to(InsertionMode::AfterBody);
        if q.contains(ElementKind::Body) {
            Outcome::Advance(q.pop_until(ElementKind::Body))
        } else {
            Outcome::Advance(q)
        }
    } else if tag == "html"@ {
        if p.top_is(ElementKind::Body) {
            Outcome::Again(
                p.pop_current(ElementKind::Body).to(InsertionMode::AfterAfterBody).pop_current(
                    ElementKind::Html,
                ),
            )
        } else {
            Outcome::Advance(p)
        }
    } else {
        match body_element(tag) {
            Some(kind) => if p.contains(kind) {
                Outcome::Advance(p.pop_until(kind))
            } else {
                Outcome::Advance(p)
            },
            None => Outcome::Advance(p),
        }
    }
}

/// `InBody`.
pub open spec fn step_in_body(p: ParserView, token: HtmlTokenView) -> Outcome {
    match token {
        HtmlTokenView::StartTag { tag, self_closing, attributes } => step_in_body_start(
            p,
            tag,
            attributes,
        ),
        HtmlTokenView::EndTag { tag } => step_in_body_end(p, tag),
        HtmlTokenView::Char(c) => Outcome::Advance(p.insert_char(c)),
        HtmlTokenView::Eof => Outcome::Finish(p),
    }
}

/// `Text`: characters are inserted; `</style>` closes the style element and
/// goes back to the mode before; the end of the document stops; any other
/// token is worked on again in the mode before.
pub open spec fn step_text(p: ParserView, token: HtmlTokenView) -> Outcome {
    match token {
        HtmlTokenView::Eof => Outcome::Finish(p),
        HtmlTokenView::EndTag { tag } if tag == "style"@ => Outcome::Advance(
            p.pop_until(ElementKind::Style).to(p.original_mode),
        ),
        HtmlTokenView::Char(c) => Outcome::Advance(p.insert_char(c)),
        _ => Outcome::Again(p.to(p.original_mode)),
    }
}

/// `AfterBody`: characters are dropped; `</html>` goes to `AfterAfterBody`;
/// the end of the document stops; any other token is worked on again in
/// `InBody`.
pub open spec fn step_after_body(p: ParserView, token: HtmlTokenView) -> Outcome {
    match token {
        HtmlTokenView::Char(_) => Outcome::Advance(p),
        HtmlTokenView::EndTag { tag } if tag == "html"@ => Outcome::Advance(
            p.to(InsertionMode::AfterAfterBody),
        ),
        HtmlTokenView::Eof => Outcome::Finish(p),
        _ => Outcome::Again(p.to(InsertionMode::InBody)),
    }
}

/// `AfterAfterBody`: characters are dropped; the end of the document stops;
/// any other token is worked on again in `InBody`.
pub open spec fn step_after_after_body(p: ParserView, token: HtmlTokenView) -> Outcome {
    match token {
        HtmlTokenView::Char(_) => Outcome::Advance(p),
        HtmlTokenView::Eof => Outcome::Finish(p),
        _ => Outcome::Again(p.to(InsertionMode::InBody)),
    }
}

/// How many of the elements `html`, `head` and `body` may still be inserted
/// without a tag of their own.
pub open spec fn implicit_left(mode: InsertionMode) -> int {
    match mode {
        InsertionMode::Initial => 3,
        InsertionMode::BeforeHtml => 3,
        InsertionMode::BeforeHead => 2,
        InsertionMode::InHead => 1,
        InsertionMode::Text => 1,
        InsertionMode::AfterHead => 1,
        _ => 0,
    }
}

impl ParserView {
    /// The nodes form a tree, the stack names nodes of it other than the
    /// document, and no entry of the stack but its top is text.
    pub open spec fn basic_wf(self) -> bool {
        &&& tree_wf(self.nodes)
        &&& forall|i: int|
            0 <= i < self.stack.len() ==> 0 < #[trigger] self.stack[i] < self.nodes.len()
        &&& forall|i: int|
            0 <= i < self.stack.len() - 1 ==> !#[trigger] text_at(self.nodes, self.stack, i)
    }

    /// What the stack holds in each mode. Up to the `html` element it is
    /// empty; then `html` is its bottom; in the head, `head` lies on `html`
    /// with nothing but style elements and text above; `Text` is entered from
    /// `InHead` with a style element open; and later a `body` element lies
    /// nowhere but on `html`.
    pub open spec fn mode_wf(self) -> bool {
        let n = self.stack.len();
        match self.mode {
            InsertionMode::Initial | InsertionMode::BeforeHtml => n == 0,
            InsertionMode::BeforeHead | InsertionMode::AfterHead => n == 1 && kind_at(
                self.nodes,
                self.stack,
                0,
            ) == Some(ElementKind::Html),
            InsertionMode::InHead | InsertionMode::Text => {
                &&& n >= 2
                &&& kind_at(self.nodes, self.stack, 0) == Some(ElementKind::Html)
                &&& kind_at(self.nodes, self.stack, 1) == Some(ElementKind::Head)
                &&& forall|k: int|
                    2 <= k < n ==> (#[trigger] kind_at(self.nodes, self.stack, k)) is None
                        || kind_at(self.nodes, self.stack, k) == Some(ElementKind::Style)
                &&& (self.mode == InsertionMode::Text ==> self.original_mode
                    == InsertionMode::InHead && exists|k: int|
                    2 <= k < n && #[trigger] kind_at(self.nodes, self.stack, k) == Some(
                        ElementKind::Style,
                    ))
            },
            _ => forall|k: int|
                0 <= k < n && #[trigger] kind_at(self.nodes, self.stack, k) == Some(
                    ElementKind::Body,
                ) ==> k == 1 && kind_at(self.nodes, self.stack, 0) == Some(ElementKind::Html),
        }
    }

    /// What holds of the tree constructor before and after every step.
    pub open spec fn wf(self) -> bool {
        self.basic_wf() && self.mode_wf()
    }

    /// The nodes made, and those that may still come without a token of
    /// their own.
    pub open spec fn size(self) -> int {
        self.nodes.len() + implicit_left(self.mode)
    }
}

/// The tag names that the tree constructor knows stand for the kinds they
/// are named after, and differ from one another.
pub proof fn lemma_tag_names()
    ensures
        kind_of_tag("html"@) == Some(ElementKind::Html),
        kind_of_tag("head"@) == Some(ElementKind::Head),
        kind_of_tag("style"@) == Some(ElementKind::Style),
        kind_of_tag("body"@) == Some(ElementKind::Body),
        kind_of_tag("p"@) == Some(ElementKind::P),
        kind_of_tag("a"@) == Some(ElementKind::A),
        kind_of_tag("h1"@) == Some(ElementKind::H1),
        kind_of_tag("h2"@) == Some(ElementKind::H2),
        forall|tag: Seq<char>| (#[trigger] body_element(tag)) is Some ==> kind_of_tag(tag) == body_element(tag),
        body_element("body"@) is None,
        body_element("html"@) is None,
{
    reveal_strlit("html");
    reveal_strlit("head");
    reveal_strlit("style");
    reveal_strlit("body");
    reveal_strlit("p");
    reveal_strlit("a");
    reveal_strlit("h1");
    reveal_strlit("h2");
    assert("html"@.len() == 4 && "head"@.len() == 4 && "body"@.len() == 4);
    assert("style"@.len() == 5);
    assert("p"@.len() == 1 && "a"@.len() == 1);
    assert("h1"@.len() == 2 && "h2"@.len() == 2);
    assert("html"@[1] == 't');
    assert("head"@[1] == 'e');
    assert("body"@[1] == 'o');
    assert("p"@[0] == 'p');
    assert("a"@[0] == 'a');
    assert("h1"@[1] == '1');
    assert("h2"@[1] == '2');
}

/// Under `basic_wf` at most the top of the stack is text, so taking the text
/// entries off takes off at most the top, and leaves no text.
pub proof fn lemma_without_text(p: ParserView)
    requires
        p.basic_wf(),
    ensures
        without_text(p.nodes, p.stack) == (if p.stack.len() > 0 && text_at(
            p.nodes,
            p.stack,
            p.stack.len() - 1,
        ) {
            p.stack.drop_last()
        } else {
            p.stack
        }),
        forall|i: int|
            0 <= i < without_text(p.nodes, p.stack).len() ==> !#[trigger] text_at(
                p.nodes,
                without_text(p.nodes, p.stack),
                i,
            ),
{
    let n = p.stack.len() as int;
    if n > 0 && text_at(p.nodes, p.stack, n - 1) {
        let rest = p.stack.drop_last();
        if rest.len() > 0 {
            assert(!text_at(p.nodes, p.stack, n - 2));
            assert(rest[n - 2] == p.stack[n - 2]);
        }
        assert(without_text(p.nodes, rest) == rest);
        assert forall|i: int| 0 <= i < rest.len() implies !#[trigger] text_at(p.nodes, rest, i) by {
            assert(!text_at(p.nodes, p.stack, i));
        }
    } else {
        assert forall|i: int| 0 <= i < p.stack.len() implies !#[trigger] text_at(
            p.nodes,
            p.stack,
            i,
        ) by {
            if i < n - 1 {
                assert(!text_at(p.nodes, p.stack, i));
            }
        }
    }
}

/// Inserting an element keeps `basic_wf`, adds one node, leaves the stack
/// free of text with the new element at its top, and changes no entry below.
pub proof fn lemma_insert_element(p: ParserView, kind: ElementKind, attributes: Seq<AttributeView>)
    requires
        p.basic_wf(),
        p.nodes.len() < usize::MAX,
    ensures
        p.insert_element(kind, attributes).basic_wf(),
        p.insert_element(kind, attributes).nodes.len() == p.nodes.len() + 1,
        p.insert_element(kind, attributes).mode == p.mode,
        p.insert_element(kind, attributes).original_mode == p.original_mode,
        p.insertion_parent() < p.nodes.len(),
        !(p.nodes[p.insertion_parent() as int].kind is Text),
        without_text(p.nodes, p.stack).len() <= p.stack.len(),
        without_text(p.nodes, p.stack) == p.stack.take(without_text(p.nodes, p.stack).len() as int),
        p.stack.len() > 0 && !text_at(p.nodes, p.stack, p.stack.len() - 1) ==> without_text(
            p.nodes,
            p.stack,
        ) == p.stack,
        forall|i: int|
            0 <= i < without_text(p.nodes, p.stack).len() ==> #[trigger] kind_at(
                p.insert_element(kind, attributes).nodes,
                p.insert_element(kind, attributes).stack,
                i,
            ) == kind_at(p.nodes, p.stack, i),
        kind_at(
            p.insert_element(kind, attributes).nodes,
            p.insert_element(kind, attributes).stack,
            without_text(p.nodes, p.stack).len() as int,
        ) == Some(kind),
        forall|i: int|
            0 <= i < p.insert_element(kind, attributes).stack.len() ==> !#[trigger] text_at(
                p.insert_element(kind, attributes).nodes,
                p.insert_element(kind, attributes).stack,
                i,
            ),
{
    let q = p.insert_element(kind, attributes);
    let s = without_text(p.nodes, p.stack);
    lemma_without_text(p);
    assert(node_ok(p.nodes, 0));
    let parent = p.insertion_parent();
    if s.len() > 0 {
        assert(!text_at(p.nodes, s, s.len() - 1));
        assert(s[s.len() - 1] == p.stack[s.len() - 1]);
    }
    assert(s =~= p.stack.take(s.len() as int));
    lemma_with_child_wf(
        p.nodes,
        parent,
        NodeKindView::Element(ElementView { kind, attributes }),
    );
    lemma_with_child_kinds(
        p.nodes,
        parent,
        NodeKindView::Element(ElementView { kind, attributes }),
    );
    assert forall|i: int| 0 <= i < s.len() implies #[trigger] kind_at(q.nodes, q.stack, i)
        == kind_at(p.nodes, p.stack, i) && !text_at(q.nodes, q.stack, i) && 0 < q.stack[i]
        < p.nodes.len() by {
        assert(s[i] == p.stack[i]);
        assert(q.stack[i] == s[i]);
        assert(!text_at(p.nodes, s, i));
        assert(q.nodes[s[i] as int].kind == p.nodes[s[i] as int].kind);
    }
    assert forall|i: int| 0 <= i < q.stack.len() implies 0 < #[trigger] q.stack[i]
        < q.nodes.len() by {
        if i < s.len() {
            assert(kind_at(q.nodes, q.stack, i) == kind_at(p.nodes, p.stack, i));
        }
    }
    assert forall|i: int| 0 <= i < q.stack.len() implies !#[trigger] text_at(
        q.nodes,
        q.stack,
        i,
    ) by {
        if i < s.len() {
            assert(kind_at(q.nodes, q.stack, i) == kind_at(p.nodes, p.stack, i));
        }
    }
}

/// An element is pushed on a stack that holds no text, and is itself no
/// text: once it is inserted, no entry of the stack is text.
pub proof fn law_no_text_under_new_element(
    p: ParserView,
    kind: ElementKind,
    attributes: Seq<AttributeView>,
)
    requires
        p.basic_wf(),
        p.nodes.len() < usize::MAX,
    ensures
        forall|i: int|
            0 <= i < without_text(p.nodes, p.stack).len() ==> !#[trigger] text_at(
                p.nodes,
                without_text(p.nodes, p.stack),
                i,
            ),
        forall|i: int|
            0 <= i < p.insert_element(kind, attributes).stack.len() ==> !#[trigger] text_at(
                p.insert_element(kind, attributes).nodes,
                p.insert_element(kind, attributes).stack,
                i,
            ),
{
    lemma_without_text(p);
    lemma_insert_element(p, kind, attributes);
}

/// Inserting a character keeps `basic_wf`, adds at most one node, and
/// changes no entry of the stack: it pushes at most a text node.
pub proof fn lemma_insert_char(p: ParserView, c: char)
    requires
        p.basic_wf(),
        p.nodes.len() < usize::MAX,
    ensures
        p.insert_char(c).basic_wf(),
        p.nodes.len() <= p.insert_char(c).nodes.len() <= p.nodes.len() + 1,
        p.insert_char(c).mode == p.mode,
        p.insert_char(c).original_mode == p.original_mode,
        p.insert_char(c).stack.len() >= p.stack.len(),
        p.insert_char(c).stack.len() <= p.stack.len() + 1,
        p.insert_char(c).stack.take(p.stack.len() as int) == p.stack,
        p.stack.len() > 0 && is_space(c) && !text_at(p.nodes, p.stack, p.stack.len() - 1)
            ==> p.insert_char(c) == p,
        forall|i: int|
            0 <= i < p.stack.len() ==> #[trigger] kind_at(
                p.insert_char(c).nodes,
                p.insert_char(c).stack,
                i,
            ) == kind_at(p.nodes, p.stack, i),
        forall|i: int|
            p.stack.len() <= i < p.insert_char(c).stack.len() ==> (#[trigger] kind_at(
                p.insert_char(c).nodes,
                p.insert_char(c).stack,
                i,
            )) is None,
{
    let q = p.insert_char(c);
    let n = p.stack.len() as int;
    if n == 0 {
        assert(q.stack.take(n) =~= p.stack);
    } else if text_at(p.nodes, p.stack, n - 1) {
        lemma_with_text_char_wf(p.nodes, p.stack.last(), c);
        lemma_with_text_char_kinds(p.nodes, p.stack.last(), c);
        assert(q.stack.take(n) =~= p.stack);
        assert forall|i: int| 0 <= i < q.stack.len() - 1 implies !#[trigger] text_at(
            q.nodes,
            q.stack,
            i,
        ) by {
            assert(!text_at(p.nodes, p.stack, i));
            assert(0 < p.stack[i] < p.nodes.len());
        }
        assert forall|i: int| 0 <= i < p.stack.len() implies #[trigger] kind_at(
            q.nodes,
            q.stack,
            i,
        ) == kind_at(p.nodes, p.stack, i) by {
            assert(0 < p.stack[i] < p.nodes.len());
        }
    } else if is_space(c) {
        assert(q.stack.take(n) =~= p.stack);
    } else {
        lemma_with_child_wf(p.nodes, p.stack.last(), NodeKindView::Text(seq![c]));
        lemma_with_child_kinds(p.nodes, p.stack.last(), NodeKindView::Text(seq![c]));
        assert(q.stack.take(n) =~= p.stack);
        assert forall|i: int| 0 <= i < q.stack.len() - 1 implies !#[trigger] text_at(
            q.nodes,
            q.stack,
            i,
        ) by {
            assert(0 < p.stack[i] < p.nodes.len());
            assert(q.nodes[p.stack[i] as int].kind == p.nodes[p.stack[i] as int].kind);
            if i < n - 1 {
                assert(!text_at(p.nodes, p.stack, i));
            }
        }
        assert forall|i: int| 0 <= i < p.stack.len() implies #[trigger] kind_at(
            q.nodes,
            q.stack,
            i,
        ) == kind_at(p.nodes, p.stack, i) by {
            assert(0 < p.stack[i] < p.nodes.len());
            assert(q.nodes[p.stack[i] as int].kind == p.nodes[p.stack[i] as int].kind);
        }
        assert forall|i: int| 0 <= i < q.stack.len() implies 0 < #[trigger] q.stack[i]
            < q.nodes.len() by {
            if i < n {
                assert(0 < p.stack[i] < p.nodes.len());
            }
        }
    }
}

/// Popping up to an element of a kind that the stack holds leaves what lies
/// below the topmost element of that kind.
pub proof fn lemma_popped_until(nodes: Seq<NodeView>, stack: Seq<NodeId>, kind: ElementKind)
    requires
        contains_kind(nodes, stack, kind),
    ensures
        popped_until(nodes, stack, kind).len() < stack.len(),
        popped_until(nodes, stack, kind) == stack.take(popped_until(nodes, stack, kind).len() as int),
        kind_at(nodes, stack, popped_until(nodes, stack, kind).len() as int) == Some(kind),
        forall|i: int|
            popped_until(nodes, stack, kind).len() < i < stack.len() ==> #[trigger] kind_at(
                nodes,
                stack,
                i,
            ) != Some(kind),
    decreases stack.len(),
{
    let n = stack.len() as int;
    let w = choose|i: int| 0 <= i < stack.len() && #[trigger] kind_at(nodes, stack, i) == Some(kind);
    if kind_at(nodes, stack, n - 1) == Some(kind) {
        assert(stack.drop_last() =~= stack.take(n - 1));
    } else {
        let rest = stack.drop_last();
        assert(kind_at(nodes, rest, w) == Some(kind));
        lemma_popped_until(nodes, rest, kind);
        let m = popped_until(nodes, rest, kind).len() as int;
        assert(rest.take(m) =~= stack.take(m));
        assert(kind_at(nodes, rest, m) == kind_at(nodes, stack, m));
        assert forall|i: int| m < i < stack.len() implies #[trigger] kind_at(nodes, stack, i)
            != Some(kind) by {
            if i < n - 1 {
                assert(kind_at(nodes, rest, i) == kind_at(nodes, stack, i));
            }
        }
    }
}

/// The lower part of the stack keeps `basic_wf`, and holds what the stack
/// held there.
pub proof fn lemma_prefix(p: ParserView, m: int)
    requires
        p.basic_wf(),
        0 <= m <= p.stack.len(),
    ensures
        p.with_stack(p.stack.take(m)).basic_wf(),
        forall|k: int|
            0 <= k < m ==> #[trigger] kind_at(p.nodes, p.stack.take(m), k) == kind_at(
                p.nodes,
                p.stack,
                k,
            ),
{
    let q = p.with_stack(p.stack.take(m));
    assert forall|i: int| 0 <= i < q.stack.len() implies 0 < #[trigger] q.stack[i]
        < q.nodes.len() by {
        assert(0 < p.stack[i] < p.nodes.len());
    }
    assert forall|i: int| 0 <= i < q.stack.len() - 1 implies !#[trigger] text_at(
        q.nodes,
        q.stack,
        i,
    ) by {
        assert(!text_at(p.nodes, p.stack, i));
    }
}

/// What a step keeps: the tree constructor stays well-formed; a step that
/// asks for the same token again lowers the fuel and adds no node but one of
/// `html`, `head` and `body` that came without a tag; any other step adds at
/// most one node.
pub open spec fn step_ok(p: ParserView, o: Outcome) -> bool {
    &&& o.state().wf()
    &&& (o is Again ==> o.state().fuel() < p.fuel() && o.state().size() <= p.size())
    &&& o.state().size() <= p.size() + 1
}

/// `lemma_step` in `BeforeHtml`.
proof fn lemma_step_before_html(p: ParserView, token: HtmlTokenView)
    requires
        p.wf(),
        p.nodes.len() < usize::MAX,
        p.mode == InsertionMode::BeforeHtml,
    ensures
        step_ok(p, p.step(token)),
{
    let attributes = match token {
        HtmlTokenView::StartTag { tag, self_closing, attributes } if tag == "html"@ => attributes,
        _ => Seq::empty(),
    };
    lemma_insert_element(p, ElementKind::Html, attributes);
    let q = p.insert_element(ElementKind::Html, attributes).to(InsertionMode::BeforeHead);
    assert(kind_at(q.nodes, q.stack, 0) == Some(ElementKind::Html));
}

/// `lemma_step` in `BeforeHead`.
proof fn lemma_step_before_head(p: ParserView, token: HtmlTokenView)
    requires
        p.wf(),
        p.nodes.len() < usize::MAX,
        p.mode == InsertionMode::BeforeHead,
    ensures
        step_ok(p, p.step(token)),
{
    let attributes = match token {
        HtmlTokenView::StartTag { tag, self_closing, attributes } if tag == "head"@ => attributes,
        _ => Seq::empty(),
    };
    lemma_insert_element(p, ElementKind::Head, attributes);
    let q = p.insert_element(ElementKind::Head, attributes).to(InsertionMode::InHead);
    assert(kind_at(p.nodes, p.stack, 0) == Some(ElementKind::Html));
    assert(!text_at(p.nodes, p.stack, 0));
    assert(kind_at(q.nodes, q.stack, 0) == Some(ElementKind::Html));
    assert(kind_at(q.nodes, q.stack, 1) == Some(ElementKind::Head));
}

/// In the head, popping up to the `head` element leaves the `html` element
/// alone on the stack.
proof fn lemma_pop_head(p: ParserView)
    requires
        p.wf(),
        p.mode == InsertionMode::InHead,
    ensures
        p.contains(ElementKind::Head),
        p.pop_until(ElementKind::Head).to(InsertionMode::AfterHead).wf(),
        !p.pop_until(ElementKind::Head).to(InsertionMode::AfterHead).top_is(ElementKind::Body),
{
    assert(kind_at(p.nodes, p.stack, 1) == Some(ElementKind::Head));
    lemma_popped_until(p.nodes, p.stack, ElementKind::Head);
    let m = popped_until(p.nodes, p.stack, ElementKind::Head).len() as int;
    assert(kind_at(p.nodes, p.stack, m) == Some(ElementKind::Head));
    assert(kind_at(p.nodes, p.stack, 0) == Some(ElementKind::Html));
    assert(m == 1);
    lemma_prefix(p, m);
    let q = p.pop_until(ElementKind::Head).to(InsertionMode::AfterHead);
    assert(kind_at(q.nodes, q.stack, 0) == kind_at(p.nodes, p.stack, 0));
}

/// `lemma_step` in `InHead`.
proof fn lemma_step_in_head(p: ParserView, token: HtmlTokenView)
    requires
        p.wf(),
        p.nodes.len() < usize::MAX,
        p.mode == InsertionMode::InHead,
    ensures
        step_ok(p, p.step(token)),
{
    let n = p.stack.len() as int;
    lemma_pop_head(p);
    match token {
        HtmlTokenView::Char(c) => {
            if is_space(c) {
                lemma_insert_char(p, c);
                let q = p.insert_char(c);
                assert(q.stack.take(n)[0] == q.stack[0] && q.stack.take(n)[1] == q.stack[1]);
                assert(kind_at(q.nodes, q.stack, 0) == kind_at(p.nodes, p.stack, 0));
                assert(kind_at(q.nodes, q.stack, 1) == kind_at(p.nodes, p.stack, 1));
                assert forall|k: int| 2 <= k < q.stack.len() implies (#[trigger] kind_at(
                    q.nodes,
                    q.stack,
                    k,
                )) is None || kind_at(q.nodes, q.stack, k) == Some(ElementKind::Style) by {
                    if k < n {
                        assert(kind_at(q.nodes, q.stack, k) == kind_at(p.nodes, p.stack, k));
                    }
                }
            }
        },
        HtmlTokenView::StartTag { tag, self_closing, attributes } => {
            if tag == "style"@ {
                lemma_insert_element(p, ElementKind::Style, attributes);
                let q = p.insert_element(ElementKind::Style, attributes);
                let s = without_text(p.nodes, p.stack);
                assert(kind_at(p.nodes, p.stack, 1) == Some(ElementKind::Head));
                assert(!text_at(p.nodes, p.stack, 1));
                lemma_without_text(p);
                assert(s.len() >= 2);
                assert(kind_at(q.nodes, q.stack, 0) == kind_at(p.nodes, p.stack, 0));
                assert(kind_at(q.nodes, q.stack, 1) == kind_at(p.nodes, p.stack, 1));
                assert(kind_at(q.nodes, q.stack, s.len() as int) == Some(ElementKind::Style));
                assert forall|k: int| 2 <= k < q.stack.len() implies (#[trigger] kind_at(
                    q.nodes,
                    q.stack,
                    k,
                )) is None || kind_at(q.nodes, q.stack, k) == Some(ElementKind::Style) by {
                    if k < s.len() {
                        assert(kind_at(q.nodes, q.stack, k) == kind_at(p.nodes, p.stack, k));
                    }
                }
            }
        },
        _ => {},
    }
}

/// `lemma_step` in `AfterHead`.
proof fn lemma_step_after_head(p: ParserView, token: HtmlTokenView)
    requires
        p.wf(),
        p.nodes.len() < usize::MAX,
        p.mode == InsertionMode::AfterHead,
    ensures
        step_ok(p, p.step(token)),
{
    assert(kind_at(p.nodes, p.stack, 0) == Some(ElementKind::Html));
    assert(!text_at(p.nodes, p.stack, 0));
    match token {
        HtmlTokenView::Char(c) => {
            lemma_insert_char(p, c);
        },
        _ => {},
    }
    let attributes = match token {
        HtmlTokenView::StartTag { tag, self_closing, attributes } if tag == "body"@ => attributes,
        _ => Seq::empty(),
    };
    lemma_insert_element(p, ElementKind::Body, attributes);
    let q = p.insert_element(ElementKind::Body, attributes).to(InsertionMode::InBody);
    assert(kind_at(q.nodes, q.stack, 0) == kind_at(p.nodes, p.stack, 0));
    assert(kind_at(q.nodes, q.stack, 1) == Some(ElementKind::Body));
}

/// Later than the head, a `body` element lies nowhere but on `html`.
pub open spec fn body_on_html(p: ParserView) -> bool {
    forall|k: int|
        0 <= k < p.stack.len() && #[trigger] kind_at(p.nodes, p.stack, k) == Some(
            ElementKind::Body,
        ) ==> k == 1 && kind_at(p.nodes, p.stack, 0) == Some(ElementKind::Html)
}

/// Popping up to an element that the stack holds keeps `basic_wf` and
/// `body_on_html`.
proof fn lemma_pop_in_body(p: ParserView, kind: ElementKind)
    requires
        p.basic_wf(),
        body_on_html(p),
        p.contains(kind),
    ensures
        p.pop_until(kind).basic_wf(),
        body_on_html(p.pop_until(kind)),
{
    lemma_popped_until(p.nodes, p.stack, kind);
    let m = popped_until(p.nodes, p.stack, kind).len() as int;
    lemma_prefix(p, m);
    let q = p.pop_until(kind);
    assert forall|k: int|
        0 <= k < q.stack.len() && #[trigger] kind_at(q.nodes, q.stack, k) == Some(
            ElementKind::Body,
        ) implies k == 1 && kind_at(q.nodes, q.stack, 0) == Some(ElementKind::Html) by {
        assert(kind_at(p.nodes, p.stack, k) == Some(ElementKind::Body));
        assert(kind_at(q.nodes, q.stack, 0) == kind_at(p.nodes, p.stack, 0));
    }
}

/// `lemma_step` in `InBody`.
proof fn lemma_step_in_body(p: ParserView, token: HtmlTokenView)
    requires
        p.wf(),
        p.nodes.len() < usize::MAX,
        p.mode == InsertionMode::InBody,
    ensures
        step_ok(p, p.step(token)),
{
    let n = p.stack.len() as int;
    assert(body_on_html(p));
    match token {
        HtmlTokenView::StartTag { tag, self_closing, attributes } => {
            match body_element(tag) {
                Some(kind) => {
                    lemma_insert_element(p, kind, attributes);
                    let q = p.insert_element(kind, attributes);
                    let s = without_text(p.nodes, p.stack);
                    assert forall|k: int|
                        0 <= k < q.stack.len() && #[trigger] kind_at(q.nodes, q.stack, k) == Some(
                            ElementKind::Body,
                        ) implies k == 1 && kind_at(q.nodes, q.stack, 0) == Some(
                        ElementKind::Html,
                    ) by {
                        assert(k < s.len());
                        assert(kind_at(p.nodes, p.stack, k) == Some(ElementKind::Body));
                        assert(kind_at(q.nodes, q.stack, 0) == kind_at(p.nodes, p.stack, 0));
                    }
                },
                None => {},
            }
        },
        HtmlTokenView::EndTag { tag } => {
            if tag == "body"@ {
                let q = p.to(InsertionMode::AfterBody);
                assert(body_on_html(q));
                if q.contains(ElementKind::Body) {
                    lemma_pop_in_body(q, ElementKind::Body);
                }
            } else if tag == "html"@ {
                if p.top_is(ElementKind::Body) {
                    assert(kind_at(p.nodes, p.stack, n - 1) == Some(ElementKind::Body));
                    assert(n == 2);
                    lemma_prefix(p, 1);
                    assert(p.stack.drop_last() =~= p.stack.take(1));
                    let q = p.pop_current(ElementKind::Body).to(InsertionMode::AfterAfterBody);
                    assert(kind_at(q.nodes, q.stack, 0) == Some(ElementKind::Html));
                    lemma_prefix(q, 0);
                    assert(q.stack.drop_last() =~= q.stack.take(0));
                }
            } else {
                match body_element(tag) {
                    Some(kind) => {
                        if p.contains(kind) {
                            lemma_pop_in_body(p, kind);
                        }
                    },
                    None => {},
                }
            }
        },
        HtmlTokenView::Char(c) => {
            lemma_insert_char(p, c);
            let q = p.insert_char(c);
            assert forall|k: int|
                0 <= k < q.stack.len() && #[trigger] kind_at(q.nodes, q.stack, k) == Some(
                    ElementKind::Body,
                ) implies k == 1 && kind_at(q.nodes, q.stack, 0) == Some(ElementKind::Html) by {
                assert(k < n);
                assert(kind_at(p.nodes, p.stack, k) == Some(ElementKind::Body));
                assert(kind_at(q.nodes, q.stack, 0) == kind_at(p.nodes, p.stack, 0));
            }
            if n > 0 {
                assert(kind_at(q.nodes, q.stack, n - 1) == kind_at(p.nodes, p.stack, n - 1));
            }
        },
        HtmlTokenView::Eof => {},
    }
}

/// `lemma_step` in `Text`.
proof fn lemma_step_text(p: ParserView, token: HtmlTokenView)
    requires
        p.wf(),
        p.nodes.len() < usize::MAX,
        p.mode == InsertionMode::Text,
    ensures
        step_ok(p, p.step(token)),
{
    let n = p.stack.len() as int;
    let w = choose|k: int|
        2 <= k < n && #[trigger] kind_at(p.nodes, p.stack, k) == Some(ElementKind::Style);
    assert(kind_at(p.nodes, p.stack, 0) == Some(ElementKind::Html));
    assert(kind_at(p.nodes, p.stack, 1) == Some(ElementKind::Head));
    match token {
        HtmlTokenView::EndTag { tag } => {
            if tag == "style"@ {
                assert(kind_at(p.nodes, p.stack, w) == Some(ElementKind::Style));
                lemma_popped_until(p.nodes, p.stack, ElementKind::Style);
                let m = popped_until(p.nodes, p.stack, ElementKind::Style).len() as int;
                assert(kind_at(p.nodes, p.stack, m) == Some(ElementKind::Style));
                assert(m >= 2);
                lemma_prefix(p, m);
                let q = p.pop_until(ElementKind::Style).to(p.original_mode);
                assert(kind_at(q.nodes, q.stack, 0) == kind_at(p.nodes, p.stack, 0));
                assert(kind_at(q.nodes, q.stack, 1) == kind_at(p.nodes, p.stack, 1));
                assert forall|k: int| 2 <= k < q.stack.len() implies (#[trigger] kind_at(
                    q.nodes,
                    q.stack,
                    k,
                )) is None || kind_at(q.nodes, q.stack, k) == Some(ElementKind::Style) by {
                    assert(kind_at(q.nodes, q.stack, k) == kind_at(p.nodes, p.stack, k));
                }
            } else {
                let q = p.to(p.original_mode);
                assert(q.stack == p.stack);
                assert(q.top_is(ElementKind::Body) == p.top_is(ElementKind::Body));
            }
        },
        HtmlTokenView::Char(c) => {
            lemma_insert_char(p, c);
            let q = p.insert_char(c);
            assert(q.stack.take(n)[0] == q.stack[0] && q.stack.take(n)[1] == q.stack[1]);
            assert(kind_at(q.nodes, q.stack, 0) == kind_at(p.nodes, p.stack, 0));
            assert(kind_at(q.nodes, q.stack, 1) == kind_at(p.nodes, p.stack, 1));
            assert(kind_at(q.nodes, q.stack, w) == kind_at(p.nodes, p.stack, w));
            assert forall|k: int| 2 <= k < q.stack.len() implies (#[trigger] kind_at(
                q.nodes,
                q.stack,
                k,
            )) is None || kind_at(q.nodes, q.stack, k) == Some(ElementKind::Style) by {
                if k < n {
                    assert(kind_at(q.nodes, q.stack, k) == kind_at(p.nodes, p.stack, k));
                }
            }
        },
        _ => {
            let q = p.to(p.original_mode);
            assert(q.top_is(ElementKind::Body) == p.top_is(ElementKind::Body));
        },
    }
}

/// Every step keeps the tree constructor well-formed, and a step that asks
/// for the same token again lowers the fuel.
pub proof fn lemma_step(p: ParserView, token: HtmlTokenView)
    requires
        p.wf(),
        p.nodes.len() < usize::MAX,
    ensures
        step_ok(p, p.step(token)),
{
    match p.mode {
        InsertionMode::Initial => {},
        InsertionMode::BeforeHtml => lemma_step_before_html(p, token),
        InsertionMode::BeforeHead => lemma_step_before_head(p, token),
        InsertionMode::InHead => lemma_step_in_head(p, token),
        InsertionMode::AfterHead => lemma_step_after_head(p, token),
        InsertionMode::InBody => lemma_step_in_body(p, token),
        InsertionMode::Text => lemma_step_text(p, token),
        InsertionMode::AfterBody => {
            let q = p.to(InsertionMode::InBody);
            assert(q.top_is(ElementKind::Body) == p.top_is(ElementKind::Body));
        },
        InsertionMode::AfterAfterBody => {
            let q = p.to(InsertionMode::InBody);
            assert(q.top_is(ElementKind::Body) == p.top_is(ElementKind::Body));
        },
    }
}

/// What the tree constructor asks for after a step.
#[derive(Clone, Copy, Debug, PartialEq, Eq, Structural)]
pub enum Flow {
    Advance,
    Again,
    Finish,
}

/// The outcome that a step reports, with the tree constructor after it.
pub open spec fn outcome_of(flow: Flow, p: ParserView) -> Outcome {
    match flow {
        Flow::Advance => Outcome::Advance(p),
        Flow::Again => Outcome::Again(p),
        Flow::Finish => Outcome::Finish(p),
    }
}

/// The tokens still to be worked on: the one in hand, if any, and those that
/// the tokenizer still has.
pub open spec fn pending_tokens(token: Option<HtmlTokenView>, t: TokenizerView) -> Seq<
    HtmlTokenView,
> {
    match token {
        Some(token) => seq![token] + t.tokens(),
        None => Seq::empty(),
    }
}

/// The tokens of a tokenizer are its next token and then those of the
/// tokenizer after it.
pub proof fn lemma_tokens_unfold(t: TokenizerView)
    requires
        t.wf(),
    ensures
        t.tokens() == pending_tokens(t.next().1, t.next().0),
        t.next().0.wf(),
        t.next().0.input == t.input,
        t.next().1 is Some ==> t.next().0.cursor > t.cursor,
        t.next().1 is None ==> t.next().0 == t,
{
    if t.cursor < t.input.len() {
        lemma_run(t);
    }
}

/// The tree constructor.
pub struct HtmlParser {
    window: Window,
    mode: InsertionMode,
    original_insertion_mode: InsertionMode,
    stack_of_open_elements: Vec<NodeId>,
    t: HtmlTokenizer,
}

impl View for HtmlParser {
    type V = ParserView;

    closed spec fn view(&self) -> ParserView {
        ParserView {
            nodes: self.window@,
            stack: self.stack_of_open_elements@,
            mode: self.mode,
            original_mode: self.original_insertion_mode,
        }
    }
}

impl HtmlParser {
    /// The tokenizer that the tree constructor takes its tokens from.
    pub closed spec fn tokenizer(&self) -> TokenizerView {
        self.t@
    }

    /// The characters that the tokenizer has not taken yet, counting the end
    /// of the input as one.
    pub closed spec fn left(&self) -> int {
        self.t@.input.len() + 1 - self.t@.cursor
    }

    /// The tree constructor and its tokenizer are well-formed, and the nodes
    /// that the rest of the input can give still have their places.
    pub closed spec fn wf(&self) -> bool {
        &&& self@.wf()
        &&& self.t.wf()
        &&& self@.size() + self.left() <= usize::MAX
    }

    /// A tree constructor for the tokens of `t`, with the document as its
    /// only node. What is left of the input must be so short that every node
    /// it can give has a place: one for each character, and four.
    pub fn new(t: HtmlTokenizer) -> (r: Self)
        requires
            t.wf(),
            t@.input.len() + 5 - t@.cursor <= usize::MAX,
        ensures
            r.wf(),
            r@ == ParserView::initial(),
            r.tokenizer() == t@,
    {
        let r = Self {
            t,
            window: Window::new(),
            mode: InsertionMode::Initial,
            original_insertion_mode: InsertionMode::Initial,
            stack_of_open_elements: Vec::new(),
        };
        assert(r@.stack =~= Seq::empty());
        r
    }

    /// Whether the stack of open elements holds an element of this kind.
    fn contain_in_stack(&self, element_kind: ElementKind) -> (r: bool)
        requires
            self@.basic_wf(),
        ensures
            r == self@.contains(element_kind),
    {
        let mut i: usize = 0;
        while i < self.stack_of_open_elements.len()
            invariant
                self@.basic_wf(),
                i <= self.stack_of_open_elements.len(),
                forall|j: int|
                    0 <= j < i ==> #[trigger] kind_at(self@.nodes, self@.stack, j) != Some(
                        element_kind,
                    ),
            decreases self.stack_of_open_elements.len() - i,
        {
            let id = self.stack_of_open_elements[i];
            assert(0 < self@.stack[i as int] < self@.nodes.len());
            if self.window.node(id).unwrap().element_kind() == Some(element_kind) {
                assert(kind_at(self@.nodes, self@.stack, i as int) == Some(element_kind));
                return true;
            }
            i += 1;
        }
        false
    }

    /// Pops the stack of open elements up to and including the topmost
    /// element of this kind.
    fn pop_until(&mut self, element_kind: ElementKind)
        requires
            old(self)@.basic_wf(),
            old(self)@.contains(element_kind),
        ensures
            final(self)@ == old(self)@.pop_until(element_kind),
            final(self).t == old(self).t,
    {
        loop
            invariant
                self@.basic_wf(),
                self@.contains(element_kind),
                self@.pop_until(element_kind) == old(self)@.pop_until(element_kind),
                self.t == old(self).t,
            decreases self@.stack.len(),
        {
            let ghost before = self@;
            proof {
                lemma_popped_until(before.nodes, before.stack, element_kind);
                lemma_prefix(before, before.stack.len() - 1);
                assert(before.stack.take(before.stack.len() - 1) =~= before.stack.drop_last());
            }
            let current = self.stack_of_open_elements.pop().unwrap();
            assert(self@.stack =~= before.stack.drop_last());
            assert(0 < before.stack[before.stack.len() - 1] < before.nodes.len());
            if self.window.node(current).unwrap().element_kind() == Some(element_kind) {
                return ;
            }
            proof {
                let w = choose|i: int|
                    0 <= i < before.stack.len() && #[trigger] kind_at(
                        before.nodes,
                        before.stack,
                        i,
                    ) == Some(element_kind);
                assert(kind_at(self@.nodes, self@.stack, w) == Some(element_kind));
            }
        }
    }

    /// Pops the top of the stack of open elements where it is an element of
    /// this kind, and says whether it was.
    fn pop_current_node(&mut self, element_kind: ElementKind) -> (r: bool)
        requires
            old(self)@.basic_wf(),
        ensures
            r == old(self)@.top_is(element_kind),
            final(self)@ == old(self)@.pop_current(element_kind),
            final(self).t == old(self).t,
    {
        let n = self.stack_of_open_elements.len();
        if n == 0 {
            return false;
        }
        let current = self.stack_of_open_elements[n - 1];
        assert(0 < self@.stack[n - 1] < self@.nodes.len());
        if self.window.node(current).unwrap().element_kind() == Some(element_kind) {
            self.stack_of_open_elements.pop();
            return true;
        }
        false
    }

    /// An element node that names no other node.
    fn create_element(&self, tag: &str, attributes: Vec<Attribute>) -> (node: Node)
        requires
            kind_of_tag(tag@) is Some,
        ensures
            node@ == lone_node(
                NodeKindView::Element(
                    ElementView {
                        kind: kind_of_tag(tag@)->0,
                        attributes: attributes_view(attributes@),
                    },
                ),
            ),
    {
        Node::new(NodeKind::Element(Element::new(tag, attributes)))
    }

    /// Inserts an element for the tag: pops the text entries off the stack,
    /// adds the element as the last child of the top of the stack, or of the
    /// document where the stack is empty, and pushes it.
    fn insert_element(&mut self, tag: &str, attributes: Vec<Attribute>)
        requires
            old(self)@.basic_wf(),
            old(self)@.nodes.len() < usize::MAX,
            kind_of_tag(tag@) is Some,
        ensures
            final(self)@ == old(self)@.insert_element(
                kind_of_tag(tag@)->0,
                attributes_view(attributes@),
            ),
            forall|i: int|
                0 <= i < final(self)@.stack.len() ==> !#[trigger] text_at(
                    final(self)@.nodes,
                    final(self)@.stack,
                    i,
                ),
            final(self).t == old(self).t,
    {
        proof {
            lemma_insert_element(
                old(self)@,
                kind_of_tag(tag@)->0,
                attributes_view(attributes@),
            );
        }
        let mut current = self.window.document();
        loop
            invariant_except_break
                current == 0,
            invariant
                self@.basic_wf(),
                self@.nodes == old(self)@.nodes,
                self@.mode == old(self)@.mode,
                self@.original_mode == old(self)@.original_mode,
                self.t == old(self).t,
                without_text(self@.nodes, self@.stack) == without_text(
                    old(self)@.nodes,
                    old(self)@.stack,
                ),
            ensures
                self@.stack == without_text(old(self)@.nodes, old(self)@.stack),
                current == old(self)@.insertion_parent(),
            decreases self@.stack.len(),
        {
            let n = self.stack_of_open_elements.len();
            if n == 0 {
                break ;
            }
            let top = self.stack_of_open_elements[n - 1];
            assert(0 < self@.stack[n - 1] < self@.nodes.len());
            if self.window.node(top).unwrap().is_text() {
                proof {
                    lemma_prefix(self@, n - 1);
                    assert(self@.stack.take(n - 1) =~= self@.stack.drop_last());
                }
                self.stack_of_open_elements.pop();
                continue ;
            }
            current = top;
            break ;
        }
        let node = self.create_element(tag, attributes);
        let id = self.window.append_child(current, node);
        self.stack_of_open_elements.push(id);
    }

    /// A text node that holds `c` and names no other node.
    fn create_char(&self, c: char) -> (node: Node)
        ensures
            node@ == lone_node(NodeKindView::Text(seq![c])),
    {
        let mut s = String::new();
        s.push(c);
        assert(s@ =~= seq![c]);
        Node::new(NodeKind::Text(s))
    }

    /// Inserts a character: into the text at the top of the stack, or as a
    /// new text node under the element there. A space or a line feed starts
    /// no text node, and on an empty stack nothing is done.
    fn insert_char(&mut self, c: char)
        requires
            old(self)@.basic_wf(),
            old(self)@.nodes.len() < usize::MAX,
        ensures
            final(self)@ == old(self)@.insert_char(c),
            final(self).t == old(self).t,
    {
        let n = self.stack_of_open_elements.len();
        if n == 0 {
            return ;
        }
        let current = self.stack_of_open_elements[n - 1];
        assert(0 < self@.stack[n - 1] < self@.nodes.len());
        if self.window.node(current).unwrap().is_text() {
            self.window.append_text(current, c);
            return ;
        }
        if c == ' ' || c == '\n' {
            return ;
        }
        let node = self.create_char(c);
        let id = self.window.append_child(current, node);
        self.stack_of_open_elements.push(id);
    }

    /// One step of the tree constructor on `token`, as the insertion mode
    /// says.
    fn step(&mut self, token: &HtmlToken) -> (flow: Flow)
        requires
            old(self)@.wf(),
            old(self)@.nodes.len() < usize::MAX,
        ensures
            outcome_of(flow, final(self)@) == old(self)@.step(token@),
            final(self).t == old(self).t,
    {
        proof {
            lemma_tag_names();
        }
        match self.mode {
            InsertionMode::Initial => match token {
                HtmlToken::Char(_) => Flow::Advance,
                _ => {
                    self.mode = InsertionMode::BeforeHtml;
                    Flow::Again
                },
            },
            InsertionMode::BeforeHtml => {
                match token {
                    HtmlToken::Char(c) => {
                        if *c == ' ' || *c == '\n' {
                            return Flow::Advance;
                        }
                    },
                    HtmlToken::StartTag { tag, self_closing: _, attributes } => {
                        if str_equals(tag.as_str(), "html") {
                            self.insert_element(tag.as_str(), clone_attributes(attributes));
                            self.mode = InsertionMode::BeforeHead;
                            return Flow::Advance;
                        }
                    },
                    HtmlToken::Eof => {
                        return Flow::Finish;
                    },
                    _ => {},
                }
                self.insert_element("html", no_attributes());
                self.mode = InsertionMode::BeforeHead;
                Flow::Again
            },
            InsertionMode::BeforeHead => {
                match token {
                    HtmlToken::Char(c) => {
                        if *c == ' ' || *c == '\n' {
                            return Flow::Advance;
                        }
                    },
                    HtmlToken::StartTag { tag, self_closing: _, attributes } => {
                        if str_equals(tag.as_str(), "head") {
                            self.insert_element(tag.as_str(), clone_attributes(attributes));
                            self.mode = InsertionMode::InHead;
                            return Flow::Advance;
                        }
                    },
                    HtmlToken::Eof => {
                        return Flow::Finish;
                    },
                    _ => {},
                }
                self.insert_element("head", no_attributes());
                self.mode = InsertionMode::InHead;
                Flow::Again
            },
            InsertionMode::InHead => {
                proof {
                    lemma_pop_head(self@);
                }
                match token {
                    HtmlToken::Char(c) => {
                        if *c == ' ' || *c == '\n' {
                            self.insert_char(*c);
                            return Flow::Advance;
                        }
                    },
                    HtmlToken::StartTag { tag, self_closing: _, attributes } => {
                        if str_equals(tag.as_str(), "style") {
                            self.insert_element(tag.as_str(), clone_attributes(attributes));
                            self.original_insertion_mode = self.mode;
                            self.mode = InsertionMode::Text;
                            return Flow::Advance;
                        }
                        if str_equals(tag.as_str(), "body") {
                            self.pop_until(ElementKind::Head);
                            self.mode = InsertionMode::AfterHead;
                            return Flow::Again;
                        }
                    },
                    HtmlToken::EndTag { tag } => {
                        if str_equals(tag.as_str(), "head") {
                            self.mode = InsertionMode::AfterHead;
                            self.pop_until(ElementKind::Head);
                            return Flow::Advance;
                        }
                    },
                    HtmlToken::Eof => {
                        return Flow::Finish;
                    },
                }
                Flow::Advance
            },
            InsertionMode::AfterHead => {
                match token {
                    HtmlToken::Char(c) => {
                        if *c == ' ' || *c == '\n' {
                            self.insert_char(*c);
                            return Flow::Advance;
                        }
                    },
                    HtmlToken::StartTag { tag, self_closing: _, attributes } => {
                        if str_equals(tag.as_str(), "body") {
                            self.insert_element("body", clone_attributes(attributes));
                            self.mode = InsertionMode::InBody;
                            return Flow::Advance;
                        }
                    },
                    HtmlToken::Eof => {
                        return Flow::Finish;
                    },
                    _ => {},
                }
                self.insert_element("body", no_attributes());
                self.mode = InsertionMode::InBody;
                Flow::Again
            },
            InsertionMode::InBody => {
                match token {
                    HtmlToken::StartTag { tag, self_closing: _, attributes } => {
                        if str_equals(tag.as_str(), "p") || str_equals(tag.as_str(), "a")
                            || str_equals(tag.as_str(), "h1") || str_equals(tag.as_str(), "h2") {
                            self.insert_element(tag.as_str(), clone_attributes(attributes));
                        }
                        Flow::Advance
                    },
                    HtmlToken::EndTag { tag } => {
                        if str_equals(tag.as_str(), "body") {
                            self.mode = InsertionMode::AfterBody;
                            if self.contain_in_stack(ElementKind::Body) {
                                self.pop_until(ElementKind::Body);
                            }
                            Flow::Advance
                        } else if str_equals(tag.as_str(), "html") {
                            proof {
                                lemma_step(self@, token@);
                            }
                            if self.pop_current_node(ElementKind::Body) {
                                self.mode = InsertionMode::AfterAfterBody;
                                let closed = self.pop_current_node(ElementKind::Html);
                                assert(closed);
                                Flow::Again
                            } else {
                                Flow::Advance
                            }
                        } else if str_equals(tag.as_str(), "p") || str_equals(tag.as_str(), "a")
                            || str_equals(tag.as_str(), "h1") || str_equals(tag.as_str(), "h2") {
                            match ElementKind::from_str(tag.as_str()) {
                                Ok(element_kind) => {
                                    if self.contain_in_stack(element_kind) {
                                        self.pop_until(element_kind);
                                    }
                                },
                                Err(_) => {},
                            }
                            Flow::Advance
                        } else {
                            Flow::Advance
                        }
                    },
                    HtmlToken::Char(c) => {
                        self.insert_char(*c);
                        Flow::Advance
                    },
                    HtmlToken::Eof => Flow::Finish,
                }
            },
            InsertionMode::Text => {
                match token {
                    HtmlToken::Eof => {
                        return Flow::Finish;
                    },
                    HtmlToken::EndTag { tag } => {
                        if str_equals(tag.as_str(), "style") {
                            proof {
                                let w = choose|k: int|
                                    2 <= k < self@.stack.len() && #[trigger] kind_at(
                                        self@.nodes,
                                        self@.stack,
                                        k,
                                    ) == Some(ElementKind::Style);
                                assert(kind_at(self@.nodes, self@.stack, w) == Some(
                                    ElementKind::Style,
                                ));
                            }
                            self.pop_until(ElementKind::Style);
                            self.mode = self.original_insertion_mode;
                            return Flow::Advance;
                        }
                    },
                    HtmlToken::Char(c) => {
                        self.insert_char(*c);
                        return Flow::Advance;
                    },
                    _ => {},
                }
                self.mode = self.original_insertion_mode;
                Flow::Again
            },
            InsertionMode::AfterBody => {
                match token {
                    HtmlToken::Char(_) => {
                        return Flow::Advance;
                    },
                    HtmlToken::EndTag { tag } => {
                        if str_equals(tag.as_str(), "html") {
                            self.mode = InsertionMode::AfterAfterBody;
                            return Flow::Advance;
                        }
                    },
                    HtmlToken::Eof => {
                        return Flow::Finish;
                    },
                    _ => {},
                }
                self.mode = InsertionMode::InBody;
                Flow::Again
            },
            InsertionMode::AfterAfterBody => {
                match token {
                    HtmlToken::Char(_) => {
                        return Flow::Advance;
                    },
                    HtmlToken::Eof => {
                        return Flow::Finish;
                    },
                    _ => {},
                }
                self.mode = InsertionMode::InBody;
                Flow::Again
            },
        }
    }

    /// Builds the document tree: takes the tokens one by one and works on
    /// each as the insertion mode says, up to the token that ends the
    /// document or to the last one.
    pub fn construct_tree(self) -> (window: Window)
        requires
            self.wf(),
        ensures
            window.wf(),
            window@ == self@.build(self.tokenizer().tokens()).nodes,
    {
        let mut parser = self;
        proof {
            parser.t.lemma_wf();
            lemma_tokens_unfold(parser.t@);
        }
        let mut token = parser.t.next();
        proof {
            parser.t.lemma_wf();
        }
        loop
            invariant
                parser@.wf(),
                parser.t.wf(),
                parser.t@.wf(),
                parser@.size() + parser.left() + (if token is Some {
                    1int
                } else {
                    0int
                }) <= usize::MAX,
                parser@.build(pending_tokens(token_view(token), parser.t@)) == self@.build(
                    self.t@.tokens(),
                ),
            decreases
                    parser.left() + (if token is Some {
                        1int
                    } else {
                        0int
                    }),
                    parser@.fuel(),
        {
            let ghost before = parser@;
            let ghost tokens = pending_tokens(token_view(token), parser.t@);
            match &token {
                None => {
                    return parser.window;
                },
                Some(current) => {
                    proof {
                        lemma_step(before, current@);
                        assert(tokens[0] == current@);
                        assert(tokens.drop_first() =~= parser.t@.tokens());
                    }
                    match parser.step(current) {
                        Flow::Advance => {
                            proof {
                                lemma_tokens_unfold(parser.t@);
                            }
                            token = parser.t.next();
                            proof {
                                parser.t.lemma_wf();
                            }
                        },
                        Flow::Again => {
                            assert(before.process(current@) == parser@.process(current@));
                        },
                        Flow::Finish => {
                            return parser.window;
                        },
                    }
                },
            }
        }
    }
}

/// An empty list of attributes.
fn no_attributes() -> (r: Vec<Attribute>)
    ensures
        attributes_view(r@) == Seq::<AttributeView>::empty(),
{
    let r: Vec<Attribute> = Vec::new();
    assert(attributes_view(r@) =~= Seq::<AttributeView>::empty());
    r
}

} // verus!
