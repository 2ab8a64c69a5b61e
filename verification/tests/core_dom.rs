use aevrix::hb_core::dom_types::{
    parse_html_min, try_parse_html_min, html_min_reads, Dom, NodeId, NodeKind, TagName,
};

fn texts(dom: &Dom) -> Vec<String> {
    dom.nodes
        .iter()
        .filter_map(|n| if let NodeKind::Text(t) = &n.kind { Some(t.clone()) } else { None })
        .collect()
}

fn tag_of(dom: &Dom, i: usize) -> Option<TagName> {
    match &dom.nodes[i].kind {
        NodeKind::Element(ed) => Some(ed.tag.clone()),
        _ => None,
    }
}

#[test]
fn builds_html_head_body() {
    let dom = parse_html_min("").unwrap();
    assert_eq!(dom.nodes.len(), 4);
    assert_eq!(dom.root, NodeId(0));
    assert_eq!(tag_of(&dom, 1), Some(TagName::Html));
    assert_eq!(tag_of(&dom, 2), Some(TagName::Head));
    assert_eq!(tag_of(&dom, 3), Some(TagName::Body));
    assert_eq!(dom.nodes[1].children, vec![NodeId(2), NodeId(3)]);
}

#[test]
fn elements_text_and_attributes() {
    let html = r#"
        <div style="background:#eeeeee" ID='main'>
            <p style="color:#333333;font-size:18px">Hello   Aevrix</p>
            <span>Deterministic First Paint</span>
        </div>
        "#;
    let dom = parse_html_min(html).unwrap();
    assert_eq!(texts(&dom), vec!["Hello Aevrix".to_string(), "Deterministic First Paint".to_string()]);
    assert_eq!(tag_of(&dom, 4), Some(TagName::Div));
    assert_eq!(dom.nodes[4].parent, Some(NodeId(3)));
    if let NodeKind::Element(ed) = &dom.nodes[4].kind {
        let keys: Vec<&str> = ed.attrs.iter().map(|(k, _)| k.as_str()).collect();
        assert_eq!(keys, vec!["id", "style"]);
        assert_eq!(ed.attrs[0].1, "main");
        assert_eq!(ed.attrs[1].1, "background:#eeeeee");
    }
    assert_eq!(tag_of(&dom, 5), Some(TagName::P));
    assert_eq!(dom.nodes[5].parent, Some(NodeId(4)));
    assert_eq!(dom.nodes[6].parent, Some(NodeId(5)));
    assert_eq!(tag_of(&dom, 7), Some(TagName::Span));
    assert_eq!(dom.nodes[7].parent, Some(NodeId(4)));
}

#[test]
fn style_text_is_kept_whole() {
    let dom = parse_html_min("<style>p { color: red }</STYLE> after").unwrap();
    match &dom.nodes[4].kind {
        NodeKind::Style(s) => assert_eq!(s, "p { color: red }"),
        other => panic!("unexpected {:?}", other),
    }
    assert_eq!(texts(&dom), vec!["after".to_string()]);
}

#[test]
fn self_closing_and_link_stay_closed() {
    let dom = parse_html_min(r#"<br/><link rel=a><x-y a=1 / >t"#).unwrap();
    assert_eq!(tag_of(&dom, 4), Some(TagName::Unknown("br".to_string())));
    assert_eq!(tag_of(&dom, 5), Some(TagName::Link));
    assert_eq!(tag_of(&dom, 6), Some(TagName::Unknown("x-y".to_string())));
    // All three are children of body; the text too.
    for i in 4..8 {
        assert_eq!(dom.nodes[i].parent, Some(NodeId(3)));
    }
}

#[test]
fn end_tags_never_close_body() {
    let dom = parse_html_min("</div></div>a<b>c</b>").unwrap();
    // `</b>` is not one of the closing names: the unknown element stays open.
    assert_eq!(dom.nodes[4].parent, Some(NodeId(3)));
    assert_eq!(tag_of(&dom, 5), Some(TagName::Unknown("b".to_string())));
    assert_eq!(dom.nodes[6].parent, Some(NodeId(5)));
}

#[test]
fn style_text_ends_at_the_next_tag() {
    // Each piece ends at the next `<`, so a style element's text is the rest
    // of its piece, whatever case changes do to its length.
    let html = "<style>\u{212A}\u{20AC}</style>x";
    assert!(html_min_reads(html));
    let dom = try_parse_html_min(html).unwrap().unwrap();
    match &dom.nodes[4].kind {
        NodeKind::Style(s) => assert_eq!(s, "\u{212A}\u{20AC}"),
        other => panic!("unexpected {:?}", other),
    }
    assert_eq!(texts(&dom), vec!["x".to_string()]);
}

#[test]
fn the_skeleton_holds_whatever_the_input() {
    for html in ["", "text", "<div><p>a</p></div></body></html><head><meta>x", "</div></div><span>"] {
        let dom = parse_html_min(html).unwrap();
        assert_eq!(tag_of(&dom, 1), Some(TagName::Html));
        assert_eq!(tag_of(&dom, 2), Some(TagName::Head));
        assert_eq!(tag_of(&dom, 3), Some(TagName::Body));
        assert_eq!(dom.nodes[0].children, vec![NodeId(1)]);
        assert_eq!(dom.nodes[1].children, vec![NodeId(2), NodeId(3)]);
        assert!(dom.nodes[2].children.is_empty());
        for i in 4..dom.nodes.len() {
            let p = dom.nodes[i].parent.unwrap();
            assert!(3 <= p.0 && (p.0 as usize) < i);
            assert_eq!(dom.nodes[p.0 as usize].children.iter().filter(|c| c.0 as usize == i).count(), 1);
        }
    }
}
