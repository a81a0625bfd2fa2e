use saba_core::renderer::dom::node::{Element, ElementKind, Node, NodeId, NodeKind, Window};
use saba_core::renderer::html::attribute::Attribute;
use saba_core::renderer::html::parser::HtmlParser;
use saba_core::renderer::html::token::HtmlTokenizer;

fn build(html: &str) -> Window {
    let t = HtmlTokenizer::new(html.to_string());
    HtmlParser::new(t).construct_tree()
}

fn children(window: &Window, parent: NodeId) -> Vec<NodeId> {
    let mut all = Vec::new();
    let mut next = window.node(parent).unwrap().first_child();
    while let Some(id) = next {
        all.push(id);
        next = window.node(id).unwrap().next_sibling();
    }
    all
}

/// A tree in brackets: `html(head,body(p("hi")))`.
fn shape(window: &Window, id: NodeId) -> String {
    let node = window.node(id).unwrap();
    let mut s = match &node.kind {
        NodeKind::Document => "#document".to_string(),
        NodeKind::Element(e) => format!("{:?}", e.kind()).to_lowercase(),
        NodeKind::Text(t) => format!("{:?}", t),
    };
    let kids = children(window, id);
    if !kids.is_empty() {
        let inner: Vec<String> = kids.iter().map(|k| shape(window, *k)).collect();
        s.push_str(&format!("({})", inner.join(",")));
    }
    s
}

fn tree(html: &str) -> String {
    let window = build(html);
    shape(&window, window.document())
}

fn check_links(window: &Window) {
    let n = window.len();
    let document = window.node(0).unwrap();
    assert_eq!(document.parent(), None);
    assert_eq!(document.previous_sibling(), None);
    assert_eq!(document.next_sibling(), None);
    let mut found = vec![0usize; n];
    for p in 0..n {
        let kids = children(window, p);
        let parent = window.node(p).unwrap();
        assert_eq!(parent.first_child(), kids.first().copied());
        assert_eq!(parent.last_child(), kids.last().copied());
        for (k, &c) in kids.iter().enumerate() {
            let child = window.node(c).unwrap();
            assert_eq!(child.parent(), Some(p));
            found[c] += 1;
            if k > 0 {
                assert!(kids[k - 1] < c);
                assert_eq!(child.previous_sibling(), Some(kids[k - 1]));
            } else {
                assert_eq!(child.previous_sibling(), None);
            }
        }
    }
    assert_eq!(found[0], 0);
    for c in 1..n {
        assert_eq!(found[c], 1);
    }
    assert!(window.node(n).is_none());
}

#[test]
fn a_new_window_holds_the_document_alone() {
    let window = Window::new();
    assert_eq!(window.len(), 1);
    assert_eq!(window.document(), 0);
    assert_eq!(*window.node(0).unwrap(), Node::new(NodeKind::Document));
    assert!(window.node(1).is_none());
    check_links(&window);
}

#[test]
fn full_document() {
    assert_eq!(
        tree("<html><head></head><body><p>hello world<p></body></html>"),
        "#document(html(head,body(p(\"hello world\",p))))"
    );
}

#[test]
fn html_and_head_come_without_their_tags() {
    assert_eq!(tree("<body></body>"), "#document(html(head,body))");
    assert_eq!(tree("<p>x</p>"), "#document(html(head))");
    assert_eq!(
        tree("</head><p>x</p>"),
        "#document(html(head,body(p(\"x\"))))"
    );
    assert_eq!(tree("x"), "#document");
    assert_eq!(tree("<html>"), "#document(html)");
    assert_eq!(tree("<head>"), "#document(html(head))");
}

#[test]
fn siblings_with_text_between() {
    assert_eq!(
        tree("<body><a></a>hello<p></p></body>"),
        "#document(html(head,body(a,\"hello\",p)))"
    );
}

#[test]
fn every_node_is_found_once_under_its_parent() {
    for html in [
        "",
        "<html><head></head><body><h1>a</h1><a>b</a><p>c<a>d</a>e</p>f</body></html>",
        "<body><p><p><p>x</p>y</p>z</p><h2></h2>",
        "<head><style>p { color: red; }</style></head><body>t</body>",
        "<body></body></html><p>late</p>",
        "<body><a>1<a>2<a>3",
    ] {
        check_links(&build(html));
    }
}

#[test]
fn text_of_a_style_element_is_kept_as_it_stands() {
    assert_eq!(
        tree("<html><head><style>p { a: b; }\n</style></head><body></body></html>"),
        "#document(html(head(style(\"p { a: b; }\\n\")),body))"
    );
}

#[test]
fn a_tag_in_style_text_goes_back_to_the_head() {
    assert_eq!(
        tree("<head><style>a<p>b</style></head><body>c</body>"),
        "#document(html(head(style(\"a\")),body(\"c\")))"
    );
}

#[test]
fn unknown_tags_in_the_body_are_dropped() {
    assert_eq!(
        tree("<body><div><p>x</p></div><br/></body>"),
        "#document(html(head,body(p(\"x\"))))"
    );
}

#[test]
fn an_end_tag_closes_all_that_is_open_in_its_element() {
    assert_eq!(
        tree("<body><p><a>x</p>y</body>"),
        "#document(html(head,body(p(a(\"x\")),\"y\")))"
    );
}

#[test]
fn an_end_tag_whose_element_is_not_open_is_dropped() {
    assert_eq!(
        tree("<body></p>x</h1><a></a></body>"),
        "#document(html(head,body(\"x\",a)))"
    );
}

#[test]
fn html_end_tag_with_the_body_open() {
    assert_eq!(tree("<body></html>"), "#document(html(head,body))");
    assert_eq!(
        tree("<body></html><p></p>"),
        "#document(html(head,body),p)"
    );
}

#[test]
fn html_end_tag_with_text_open_is_dropped() {
    assert_eq!(
        tree("<body>hi</html>more"),
        "#document(html(head,body(\"himore\")))"
    );
}

#[test]
fn an_element_behind_text_is_no_child_of_the_text() {
    assert_eq!(
        tree("<body>x<p>y<a>z</a>w</p>v</body>"),
        "#document(html(head,body(\"x\",p(\"y\",a(\"z\"),\"w\"),\"v\")))"
    );
}

#[test]
fn spaces_start_no_text_node() {
    assert_eq!(
        tree("<html> <head> </head> <body> <p> a b </p> </body> </html>"),
        "#document(html(head,body(p(\"a b \"))))"
    );
}

#[test]
fn characters_after_the_body_are_dropped() {
    assert_eq!(
        tree("<body>a</body>b</html>c"),
        "#document(html(head,body(\"a\")))"
    );
}

#[test]
fn an_input_that_ends_in_a_tag_ends_the_tree() {
    assert_eq!(tree("<body><p>x<a"), "#document(html(head,body(p(\"x\"))))");
}

#[test]
fn element_kinds_by_name() {
    assert_eq!(ElementKind::from_str("html"), Ok(ElementKind::Html));
    assert_eq!(ElementKind::from_str("head"), Ok(ElementKind::Head));
    assert_eq!(ElementKind::from_str("style"), Ok(ElementKind::Style));
    assert_eq!(ElementKind::from_str("body"), Ok(ElementKind::Body));
    assert_eq!(ElementKind::from_str("p"), Ok(ElementKind::P));
    assert_eq!(ElementKind::from_str("a"), Ok(ElementKind::A));
    assert_eq!(ElementKind::from_str("h1"), Ok(ElementKind::H1));
    assert_eq!(ElementKind::from_str("h2"), Ok(ElementKind::H2));
    assert_eq!(
        ElementKind::from_str("div"),
        Err("unimplemented element name \"div\"".to_string())
    );
    assert_eq!(
        ElementKind::from_str("HTML"),
        Err("unimplemented element name \"HTML\"".to_string())
    );
}

#[test]
fn nodes_are_alike_by_kind_and_text_alone() {
    let mut a = Attribute::new();
    a.add_name_char('x');
    let with_attribute = Node::new(NodeKind::Element(Element::new("p", vec![a])));
    let without = Node::new(NodeKind::Element(Element::new("p", Vec::new())));
    assert_eq!(with_attribute, without);
    assert_eq!(with_attribute.element_kind(), Some(ElementKind::P));
    assert_ne!(without, Node::new(NodeKind::Element(Element::new("a", Vec::new()))));
    assert_ne!(without, Node::new(NodeKind::Document));
    assert_ne!(
        Node::new(NodeKind::Text("a".to_string())),
        Node::new(NodeKind::Text("b".to_string()))
    );
    assert_eq!(Node::new(NodeKind::Text("a".to_string())).element_kind(), None);
    assert!(Node::new(NodeKind::Text("a".to_string())).is_text());
    assert!(!without.is_text());
}

#[test]
fn a_node_keeps_what_it_is_given() {
    let mut node = Node::new(NodeKind::Document);
    assert_eq!(node.parent(), None);
    assert_eq!(node.first_child(), None);
    assert_eq!(node.last_child(), None);
    assert_eq!(node.previous_sibling(), None);
    assert_eq!(node.next_sibling(), None);
    node.set_parent(Some(1));
    node.set_first_child(Some(2));
    node.set_last_child(Some(3));
    node.set_previous_sibling(Some(4));
    node.set_next_sibling(Some(5));
    assert_eq!(node.parent(), Some(1));
    assert_eq!(node.first_child(), Some(2));
    assert_eq!(node.last_child(), Some(3));
    assert_eq!(node.previous_sibling(), Some(4));
    assert_eq!(node.next_sibling(), Some(5));
}

#[test]
fn a_child_is_added_behind_the_last() {
    let mut window = Window::new();
    let html = window.append_child(0, Node::new(NodeKind::Element(Element::new("html", Vec::new()))));
    let a = window.append_child(html, Node::new(NodeKind::Element(Element::new("a", Vec::new()))));
    let t = window.append_child(html, Node::new(NodeKind::Text("x".to_string())));
    let p = window.append_child(html, Node::new(NodeKind::Element(Element::new("p", Vec::new()))));
    assert_eq!((html, a, t, p), (1, 2, 3, 4));
    assert_eq!(children(&window, html), vec![a, t, p]);
    window.append_text(t, 'y');
    assert_eq!(
        *window.node(t).unwrap(),
        Node::new(NodeKind::Text("xy".to_string()))
    );
    check_links(&window);
}
