use aevrix::hb_core::dom_types::{parse_html_min, Dom, ElementData, Node, NodeId, NodeKind, TagName};
use aevrix::hb_core::float_text::font_size_text;
use aevrix::hb_core::layout_types::{style_tree, style_tree_reads, try_style_tree, Display, Style, StyledNode};

fn find(n: &StyledNode, id: NodeId) -> Option<&StyledNode> {
    if n.node == id {
        return Some(n);
    }
    n.children.iter().find_map(|c| find(c, id))
}

fn size(t: &str) -> Option<String> {
    font_size_text(&t.chars().collect()).map(|v| v.into_iter().collect())
}

#[test]
fn inline_styles_of_elements() {
    let html = r#"
        <div style="background:#eeeeee">
            <p style="color:#333333;font-size:18px">Hello Aevrix</p>
            <span style="display:inline">Deterministic First Paint</span>
        </div>
        "#;
    let dom = parse_html_min(html).unwrap();
    let tree = style_tree(&dom);
    assert_eq!(tree.node, NodeId(0));
    let div = find(&tree, NodeId(4)).unwrap();
    assert_eq!(div.style.background, Some([0xee, 0xee, 0xee, 255]));
    assert_eq!(div.style.color, None);
    assert_eq!(div.style.display, Display::Block);
    let p = find(&tree, NodeId(5)).unwrap();
    assert_eq!(p.style.color, Some([0x33, 0x33, 0x33, 255]));
    assert_eq!(p.style.font_size.text, "18");
    let text = find(&tree, NodeId(6)).unwrap();
    assert_eq!(text.style.font_size.text, "16");
    let span = find(&tree, NodeId(7)).unwrap();
    assert_eq!(span.style.display, Display::Inline);
    assert_eq!(tree.children.len(), 1);
}

#[test]
fn declarations_in_order_and_case() {
    let dom = parse_html_min(
        r#"<p style="COLOR:#0a0B0c;display:none;Background-Color:#+f+f+f;font-size:200px;">x</p>"#,
    )
    .unwrap();
    let tree = style_tree(&dom);
    let p = find(&tree, NodeId(4)).unwrap();
    assert_eq!(p.style.color, Some([0x0a, 0x0b, 0x0c, 255]));
    assert_eq!(p.style.display, Display::Hidden);
    assert_eq!(p.style.background, Some([15, 15, 15, 255]));
    assert_eq!(p.style.font_size.text, "64");
}

#[test]
fn attribute_values_end_at_whitespace() {
    // The minimal reader splits a tag at whitespace, so `style="a: b"` keeps
    // only `"a:` as its value, which declares nothing.
    let dom = parse_html_min(r#"<p style="display: inline">x</p>"#).unwrap();
    let tree = style_tree(&dom);
    assert_eq!(find(&tree, NodeId(4)).unwrap().style.display, Display::Block);
}

#[test]
fn bad_colors_clear_and_bad_sizes_keep() {
    let dom = parse_html_min(
        r#"<p style="color:#123456;color:#12345;font-size:20px;font-size:abcpx;font-size:30">x</p>"#,
    )
    .unwrap();
    let tree = style_tree(&dom);
    let p = find(&tree, NodeId(4)).unwrap();
    assert_eq!(p.style.color, None);
    assert_eq!(p.style.font_size.text, "20");
}

#[test]
fn color_slicing_inside_a_character_would_panic() {
    let dom = parse_html_min("<p style=\"color:#a\u{e9}123\">x</p>").unwrap();
    assert!(!style_tree_reads(&dom));
    assert!(try_style_tree(&dom).is_none());
    // The same character where the slices fall on boundaries is just not a color.
    let ok = parse_html_min("<p style=\"color:#\u{e9}1234\">x</p>").unwrap();
    let tree = try_style_tree(&ok).unwrap();
    assert_eq!(find(&tree, NodeId(4)).unwrap().style.color, None);
}

#[test]
fn font_sizes_follow_the_f32_grammar() {
    assert_eq!(size("18"), Some("18".to_string()));
    assert_eq!(size("4"), Some("8".to_string()));
    assert_eq!(size("7.99999"), Some("8".to_string()));
    assert_eq!(size("64"), Some("64".to_string()));
    assert_eq!(size("64.5"), Some("64".to_string()));
    assert_eq!(size("64.000"), Some("64.000".to_string()));
    assert_eq!(size("100"), Some("64".to_string()));
    assert_eq!(size("1.6e1"), Some("1.6e1".to_string()));
    assert_eq!(size("1E2"), Some("64".to_string()));
    assert_eq!(size("800e-2"), Some("800e-2".to_string()));
    assert_eq!(size("0.00000000000001e15"), Some("0.00000000000001e15".to_string()));
    assert_eq!(size("1e-99999999999999999999999999999999"), Some("8".to_string()));
    assert_eq!(size("1e99999999999999999999999999999999"), Some("64".to_string()));
    assert_eq!(size("0e99999999999999999999999999999999"), Some("8".to_string()));
    assert_eq!(size("+20"), Some("+20".to_string()));
    assert_eq!(size("-20"), Some("8".to_string()));
    assert_eq!(size(".5"), Some("8".to_string()));
    assert_eq!(size("12."), Some("12.".to_string()));
    assert_eq!(size("NaN"), Some("8".to_string()));
    assert_eq!(size("inf"), Some("64".to_string()));
    assert_eq!(size("-Infinity"), Some("8".to_string()));
    assert_eq!(size("abc"), None);
    assert_eq!(size("."), None);
    assert_eq!(size("1e"), None);
    assert_eq!(size("1e+"), None);
    assert_eq!(size("--1"), None);
    assert_eq!(size(""), None);
    // Every accepted text reads as an f32 within the range.
    for t in ["18", "1.6e1", "800e-2", "64.000", "12.", "+20"] {
        let v: f32 = size(t).unwrap().parse().unwrap();
        assert!((8.0..=64.0).contains(&v));
        assert_eq!(v, t.parse::<f32>().unwrap().max(8.0).min(64.0));
    }
}

#[test]
fn default_style_is_block_16px() {
    let s = Style::default();
    assert_eq!(s.display, Display::Block);
    assert_eq!(s.color, None);
    assert_eq!(s.background, None);
    assert_eq!(s.font_size.text, "16");
}

#[test]
fn hand_built_trees_with_children_before_parents_are_styled() {
    // The document (node 2) holds a div (node 0), which holds text (node 1).
    let div = Node {
        id: NodeId(0),
        parent: Some(NodeId(2)),
        children: vec![NodeId(1)],
        kind: NodeKind::Element(ElementData {
            tag: TagName::Div,
            attrs: vec![("style".to_string(), "color:#010203".to_string())],
        }),
    };
    let text = Node { id: NodeId(1), parent: Some(NodeId(0)), children: vec![], kind: NodeKind::Text("hi".to_string()) };
    let doc = Node { id: NodeId(2), parent: None, children: vec![NodeId(0)], kind: NodeKind::Document };
    let dom = Dom { nodes: vec![div, text, doc], root: NodeId(2) };
    let tree = style_tree(&dom);
    assert_eq!(tree.node, NodeId(2));
    assert_eq!(tree.children.len(), 1);
    let d = &tree.children[0];
    assert_eq!(d.node, NodeId(0));
    assert_eq!(d.style.color, Some([1, 2, 3, 255]));
    assert_eq!(d.children.len(), 1);
    assert_eq!(d.children[0].node, NodeId(1));
    let def = Style::default();
    let t = &d.children[0].style;
    assert_eq!((t.display, t.color, t.background), (def.display, def.color, def.background));
    assert_eq!(t.font_size.text, def.font_size.text);
}
