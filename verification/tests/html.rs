use aevrix::hb_html::tokenizer::{Token, Tokenizer};
use aevrix::hb_html::tree_builder::{parse_to_dom, NodeId, NodeKind, TagName};

#[test]
fn parses_basic_tree() {
    let html = r#"
          <!DOCTYPE html>
          <div class="wrap" style="background:#eee">
            <p style="color:#333;font-size:18px"> Hello <span>World</span> </p>
            <link rel="stylesheet" href="/x.css" />
          </div>
        "#;

    let dom = parse_to_dom(html);

    assert!(dom.nodes.len() >= 4);

    let texts: Vec<String> = dom
        .nodes
        .iter()
        .filter_map(|n| if let NodeKind::Text(t) = &n.kind { Some(t.clone()) } else { None })
        .collect();

    assert!(texts.iter().any(|t| t.contains("Hello")));
    assert!(texts.iter().any(|t| t.contains("World")));
}

#[test]
fn attributes_are_sorted() {
    let html = r#"<div b="2" a="1" c=3></div>"#;
    let dom = parse_to_dom(html);
    let elem = dom.nodes.iter().find(|n| matches!(n.kind, NodeKind::Element(_))).unwrap();
    if let NodeKind::Element(ed) = &elem.kind {
        let keys: Vec<_> = ed.attrs.iter().map(|(k, _)| k.clone()).collect();
        assert_eq!(keys, vec!["a", "b", "c"]);
    }
}

#[test]
fn repeated_attributes_keep_the_last_value() {
    let dom = parse_to_dom(r#"<div b="2" a="1" c=3 a="9"></div>"#);
    let elem = dom.nodes.iter().find(|n| matches!(n.kind, NodeKind::Element(_))).unwrap();
    if let NodeKind::Element(ed) = &elem.kind {
        let vals: Vec<&str> = ed.attrs.iter().map(|(_, v)| v.as_str()).collect();
        assert_eq!(vals, vec!["9", "2", "3"]);
    }
}

#[test]
fn no_elements_are_implied() {
    let dom = parse_to_dom("");
    assert_eq!(dom.nodes.len(), 1);
    assert!(matches!(dom.nodes[0].kind, NodeKind::Document));

    let dom = parse_to_dom("<p>x</p><meta>");
    assert_eq!(dom.nodes.len(), 4);
    assert!(matches!(&dom.nodes[1].kind, NodeKind::Element(ed) if ed.tag == TagName::P));
    assert_eq!(dom.nodes[1].parent, Some(NodeId(0)));
    assert!(matches!(&dom.nodes[2].kind, NodeKind::Text(t) if t == "x"));
    // Meta outside a head goes to the document node.
    assert!(matches!(&dom.nodes[3].kind, NodeKind::Element(ed) if ed.tag == TagName::Meta));
    assert_eq!(dom.nodes[3].parent, Some(NodeId(0)));
}

#[test]
fn text_nodes_have_no_children() {
    let dom = parse_to_dom("a<div>b<span>c</span>d</div>e<p>f");
    for n in &dom.nodes {
        if let NodeKind::Text(_) = n.kind {
            assert!(n.children.is_empty());
        }
    }
}

#[test]
fn tokenizer_stays_at_end_of_input() {
    let mut t = Tokenizer::new("<p>x</p>");
    let mut n = 0;
    while !matches!(t.next(), Token::EOF) {
        n += 1;
        assert!(n <= 9);
    }
    for _ in 0..5 {
        assert!(matches!(t.next(), Token::EOF));
    }
}
