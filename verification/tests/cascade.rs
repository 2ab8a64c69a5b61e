use aevrix::hb_css::cascade::{
    better, clamp_px, compute_styles_for_tree, default_user_agent_style, max_spec, specificities_fit,
    ComputedStyle, Display, Rank,
};
use aevrix::hb_css::parser::{parse_css, Color, Px};
use aevrix::hb_css::selectors::Specificity;
use aevrix::hb_html::tree_builder::{parse_to_dom, NodeId, NodeKind, TagName};
use aevrix::styling::{collect_author_css, CssDomAdapter};

#[test]
fn rank_better_specificity_first() {
    let a = Rank { spec: Specificity(0, 1, 0), order: 1 };
    let b = Rank { spec: Specificity(0, 2, 0), order: 0 };
    assert!(better(b, Some(a)));
    assert!(!better(a, Some(b)));
}

#[test]
fn rank_better_source_order_on_tie() {
    let a = Rank { spec: Specificity(0, 1, 0), order: 1 };
    let b = Rank { spec: Specificity(0, 1, 0), order: 2 };
    assert!(better(b, Some(a)));
}

fn style_of<K: PartialEq + Copy>(styles: &[(K, ComputedStyle)], k: K) -> &ComputedStyle {
    &styles.iter().find(|(n, _)| *n == k).unwrap().1
}

fn element_id(dom: &aevrix::hb_html::tree_builder::Dom, tag: TagName) -> NodeId {
    dom.nodes
        .iter()
        .find(|n| matches!(&n.kind, NodeKind::Element(ed) if ed.tag == tag))
        .unwrap()
        .id
}

#[test]
fn cascade_applies_specificity_and_inline() {
    let css = r#"
            div { color:#000000 }
            #app { color:#111111 }
            .wrap { color:#222222 }
            div.wrap > p { color:#444444 }
        "#;
    let ss = parse_css(css);
    assert!(specificities_fit(&ss));

    // div#app.wrap > p (inline style) > span, read by the HTML parser.
    let html = r#"<div id="app" class="wrap"><p style="color:#333333;font-size:18px"><span></span></p></div>"#;
    let dom = parse_to_dom(html);
    let adapter = CssDomAdapter::new(&dom);
    let map = compute_styles_for_tree(&adapter, &ss);

    let p_style = style_of(&map, element_id(&dom, TagName::P));
    assert_eq!(p_style.color.unwrap(), Color::rgba(0x33, 0x33, 0x33, 0xFF).to_rgba());
    assert_eq!(p_style.font_size.text, "18");

    let span_style = style_of(&map, element_id(&dom, TagName::Span));
    assert_eq!(span_style.color.unwrap(), default_user_agent_style().color.unwrap());

    let div_style = style_of(&map, element_id(&dom, TagName::Div));
    assert_eq!(div_style.color.unwrap(), [0x11, 0x11, 0x11, 0xFF]);
}

#[test]
fn max_spec_prefers_ids_then_classes_then_tags() {
    assert_eq!(max_spec(Specificity(0, 5, 5), Specificity(1, 0, 0)), Specificity(1, 0, 0));
    assert_eq!(max_spec(Specificity(0, 2, 0), Specificity(0, 1, 9)), Specificity(0, 2, 0));
    assert_eq!(max_spec(Specificity(0, 1, 2), Specificity(0, 1, 3)), Specificity(0, 1, 3));
}

#[test]
fn equal_rank_replaces_and_none_is_beaten() {
    let a = Rank { spec: Specificity(1, 1, 1), order: 3 };
    assert!(better(a, Some(a)));
    assert!(better(a, None));
    let older = Rank { spec: Specificity(1, 1, 1), order: 4 };
    assert!(!better(a, Some(older)));
}

#[test]
fn font_sizes_are_clamped_exactly() {
    let px = |t: &str| Px { text: t.to_string() };
    assert_eq!(clamp_px(&px("4"), 8, 96).text, "8");
    assert_eq!(clamp_px(&px("-30"), 8, 96).text, "8");
    assert_eq!(clamp_px(&px("7.99"), 8, 96).text, "8");
    assert_eq!(clamp_px(&px("8"), 8, 96).text, "8");
    assert_eq!(clamp_px(&px("18.5"), 8, 96).text, "18.5");
    assert_eq!(clamp_px(&px("96.0"), 8, 96).text, "96.0");
    assert_eq!(clamp_px(&px("96.01"), 8, 96).text, "96");
    assert_eq!(clamp_px(&px("100000"), 8, 96).text, "96");
}

#[test]
fn default_style_is_block_dark_gray_16px() {
    let s = default_user_agent_style();
    assert_eq!(s.display, Display::Block);
    assert_eq!(s.color, Some([0x22, 0x22, 0x22, 0xFF]));
    assert_eq!(s.background, None);
    assert_eq!(s.font_size.text, "16");
    let d = ComputedStyle::default();
    assert_eq!(d.font_size.text, "16");
}

#[test]
fn document_styles_from_style_elements_and_attributes() {
    let html = r#"<style>p { color:#102030; display:inline } .hide { display:none } #x { background:#010203 }</style>
<div id="x"><p class="a hide" style="font-size:200px">Hi</p><span>there</span></div>"#;
    let dom = parse_to_dom(html);
    let sheet = collect_author_css(&dom).expect("style sheet");
    assert!(specificities_fit(&sheet));
    let adapter = CssDomAdapter::new(&dom);
    let styles = compute_styles_for_tree(&adapter, &sheet);
    assert_eq!(styles.len(), dom.nodes.len());

    let p = element_id(&dom, TagName::P);
    let div = element_id(&dom, TagName::Div);
    let span = element_id(&dom, TagName::Span);

    let ps = style_of(&styles, p);
    assert_eq!(ps.color, Some([0x10, 0x20, 0x30, 0xFF]));
    assert_eq!(ps.display, Display::Hidden);
    assert_eq!(ps.font_size.text, "96");

    let ds = style_of(&styles, div);
    assert_eq!(ds.background, Some([0x01, 0x02, 0x03, 0xFF]));
    assert_eq!(ds.display, Display::Block);

    let ss = style_of(&styles, span);
    assert_eq!(ss.color, Some([0x22, 0x22, 0x22, 0xFF]));
}

#[test]
fn every_node_of_a_document_is_styled() {
    let html = "<!DOCTYPE html><div><p>a<b>b</b></p>text<span></span></div><p>tail</p>";
    let dom = parse_to_dom(html);
    let adapter = CssDomAdapter::new(&dom);
    let styles = compute_styles_for_tree(&adapter, &parse_css("p { color:#010101 }"));
    for n in &dom.nodes {
        assert_eq!(styles.iter().filter(|(id, _)| *id == n.id).count(), 1, "node {:?}", n.id);
    }
    // In the order the walk from the root reaches them.
    let order: Vec<u32> = styles.iter().map(|(id, _)| id.0).collect();
    assert_eq!(order[0], 0);
}
