use saba_core::renderer::dom::node::{Element, Node, NodeKind, Window};
use saba_core::renderer::html::parser::HtmlParser;
use saba_core::renderer::html::token::HtmlTokenizer;

fn parse(html: &str) -> Window {
    let t = HtmlTokenizer::new(html.to_string());
    HtmlParser::new(t).construct_tree()
}

fn element(tag: &str) -> Node {
    Node::new(NodeKind::Element(Element::new(tag, Vec::new())))
}

#[test]
fn test_empty() {
    let window = parse("");

    let document = window.document();
    assert_eq!(
        *window.node(document).unwrap(),
        Node::new(NodeKind::Document)
    );
}

#[test]
fn test_html_head_body() {
    let window = parse("<html><head></head><body></body></html>");

    let document = window.document();
    assert_eq!(
        *window.node(document).unwrap(),
        Node::new(NodeKind::Document)
    );

    let html = window.node(document).unwrap().first_child().unwrap();
    assert_eq!(*window.node(html).unwrap(), element("html"));

    let head = window.node(html).unwrap().first_child().unwrap();
    assert_eq!(*window.node(head).unwrap(), element("head"));

    let body = window.node(head).unwrap().next_sibling().unwrap();
    assert_eq!(*window.node(body).unwrap(), element("body"));
}

#[test]
fn test_without_html() {
    let window = parse("<body></body>");

    let document = window.document();
    assert_eq!(
        *window.node(document).unwrap(),
        Node::new(NodeKind::Document)
    );

    let html = window.node(document).unwrap().first_child().unwrap();
    assert_eq!(*window.node(html).unwrap(), element("html"));

    let head = window.node(html).unwrap().first_child().unwrap();
    assert_eq!(*window.node(head).unwrap(), element("head"));

    let body = window.node(head).unwrap().next_sibling().unwrap();
    assert_eq!(*window.node(body).unwrap(), element("body"));
}

#[test]
fn test_text() {
    let window = parse("<html><head></head><body><p>hello world<p></body></html>");

    let document = window.document();
    let html = window.node(document).unwrap().first_child().unwrap();
    let head = window.node(html).unwrap().first_child().unwrap();
    let body = window.node(head).unwrap().next_sibling().unwrap();
    assert_eq!(*window.node(body).unwrap(), element("body"));

    let p = window.node(body).unwrap().first_child().unwrap();
    assert_eq!(*window.node(p).unwrap(), element("p"));

    let text = window.node(p).unwrap().first_child().unwrap();
    assert_eq!(
        *window.node(text).unwrap(),
        Node::new(NodeKind::Text("hello world".to_string()))
    );
}

#[test]
fn test_next_and_previous_siblings() {
    let window = parse("<html><head></head><body><h1></h1><a></a><p></p></body></html>");

    let document = window.document();
    let html = window.node(document).unwrap().first_child().unwrap();
    let head = window.node(html).unwrap().first_child().unwrap();
    let body = window.node(head).unwrap().next_sibling().unwrap();
    assert_eq!(*window.node(body).unwrap(), element("body"));

    let h1 = window.node(body).unwrap().first_child().unwrap();
    let a = window.node(h1).unwrap().next_sibling().unwrap();
    let p = window.node(a).unwrap().next_sibling().unwrap();

    assert_eq!(*window.node(h1).unwrap(), element("h1"));
    assert_eq!(*window.node(a).unwrap(), element("a"));
    assert_eq!(*window.node(p).unwrap(), element("p"));

    assert!(window.node(a).unwrap().previous_sibling() == Some(h1));
    assert!(window.node(p).unwrap().previous_sibling() == Some(a));
}

#[test]
fn text_next_and_previous_siblings_with_text() {
    let window = parse("<html><head></head><body><a></a>hello<p></p></body></html>");

    let document = window.document();
    let html = window.node(document).unwrap().first_child().unwrap();
    let head = window.node(html).unwrap().first_child().unwrap();
    let body = window.node(head).unwrap().next_sibling().unwrap();
    assert_eq!(*window.node(body).unwrap(), element("body"));

    let a = window.node(body).unwrap().first_child().unwrap();
    let hello = window.node(a).unwrap().next_sibling().unwrap();
    let p = window.node(hello).unwrap().next_sibling().unwrap();

    assert_eq!(*window.node(a).unwrap(), element("a"));
    assert_eq!(
        *window.node(hello).unwrap(),
        Node::new(NodeKind::Text("hello".to_string()))
    );
    assert_eq!(*window.node(p).unwrap(), element("p"));

    assert!(window.node(hello).unwrap().previous_sibling() == Some(a));
    assert!(window.node(p).unwrap().previous_sibling() == Some(hello));
}
