use foamium::css::{parse, Color, Selector, SimpleSelector, Value};
use foamium::dom::{parse_html, AttrMap, DomNode, NodeType};
use foamium::layout::build_layout_tree;
use foamium::style::{
    compute_style, match_rule, matches_simple_selector, selector_matches, specified_values,
    ComputedStyle, Display,
};

fn elem(tag: &str, attrs: &[(&str, &str)]) -> foamium::dom::ElementData {
    let mut map = AttrMap::new();
    for (k, v) in attrs {
        map.insert(k.to_string(), v.to_string());
    }
    foamium::dom::ElementData {
        tag_name: tag.to_string(),
        attributes: map,
    }
}

#[test]
fn test_selector_matching() {
    let e = elem("p", &[("id", "main"), ("class", "wide    dark")]);
    let by_tag = SimpleSelector {
        tag_name: Some("p".to_string()),
        id: None,
        class: vec![],
    };
    assert!(matches_simple_selector(&e, &by_tag));
    let by_id = SimpleSelector {
        tag_name: None,
        id: Some("main".to_string()),
        class: vec![],
    };
    assert!(matches_simple_selector(&e, &by_id));
    let by_class = SimpleSelector {
        tag_name: Some("p".to_string()),
        id: None,
        class: vec!["dark".to_string(), "wide".to_string()],
    };
    assert!(matches_simple_selector(&e, &by_class));
    let universal = SimpleSelector {
        tag_name: None,
        id: None,
        class: vec![],
    };
    assert!(matches_simple_selector(&e, &universal));
    let wrong_tag = SimpleSelector {
        tag_name: Some("div".to_string()),
        id: None,
        class: vec![],
    };
    assert!(!matches_simple_selector(&e, &wrong_tag));
    let wrong_class = SimpleSelector {
        tag_name: None,
        id: None,
        class: vec!["missing".to_string()],
    };
    assert!(!matches_simple_selector(&e, &wrong_class));
    assert!(selector_matches(&e, &Selector::Simple(by_tag)));
}

#[test]
fn test_match_rule_takes_first_match() {
    let sheet = parse("#x, p {}");
    let e = elem("p", &[("id", "x")]);
    // selectors are sorted descending, so the first match has the
    // highest specificity
    assert_eq!(match_rule(&e, &sheet.rules[0]), Some((1, 0, 0)));
    let e2 = elem("p", &[]);
    assert_eq!(match_rule(&e2, &sheet.rules[0]), Some((0, 0, 1)));
    let e3 = elem("div", &[]);
    assert_eq!(match_rule(&e3, &sheet.rules[0]), None);
}

#[test]
fn test_cascade_tie_later_wins() {
    let sheet = parse("p { color: #ff0000; } p { color: #00ff00; }");
    let e = elem("p", &[]);
    let values = specified_values(&e, &sheet);
    assert_eq!(
        values.get(&"color".to_string()),
        Some(&Value::ColorValue(Color::new(0, 255, 0, 255)))
    );
}

#[test]
fn test_cascade_specificity_wins_over_order() {
    let sheet = parse("#x { color: #ff0000; } p { color: #00ff00; }");
    let e = elem("p", &[("id", "x")]);
    let values = specified_values(&e, &sheet);
    assert_eq!(
        values.get(&"color".to_string()),
        Some(&Value::ColorValue(Color::new(255, 0, 0, 255)))
    );
}

#[test]
fn test_last_declaration_in_rule_wins() {
    let sheet = parse("p { color: #ff0000; color: #0000ff; }");
    let e = elem("p", &[]);
    let values = specified_values(&e, &sheet);
    assert_eq!(
        values.get(&"color".to_string()),
        Some(&Value::ColorValue(Color::new(0, 0, 255, 255)))
    );
}

#[test]
fn test_unmatched_element_defaults() {
    let sheet = parse("h1 { color: #ff0000; display: block; }");
    let e = elem("p", &[]);
    let values = specified_values(&e, &sheet);
    assert!(values.get(&"color".to_string()).is_none());
    let style = compute_style(&values);
    assert_eq!(
        style,
        ComputedStyle {
            color: None,
            background_color: None,
            font_size: 16000,
            display: Display::Inline,
        }
    );
}

#[test]
fn test_computed_style_fields() {
    let sheet = parse(
        "p { color: #102030; background-color: #aabbcc; font-size: 12px; display: block; }",
    );
    let e = elem("p", &[]);
    let style = compute_style(&specified_values(&e, &sheet));
    assert_eq!(style.color, Some(Color::new(0x10, 0x20, 0x30, 255)));
    assert_eq!(style.background_color, Some(Color::new(0xaa, 0xbb, 0xcc, 255)));
    assert_eq!(style.font_size, 12000);
    assert_eq!(style.display, Display::Block);
}

#[test]
fn test_font_size_points_and_defaults() {
    let e = elem("p", &[]);
    // points are converted to pixels at 1.33
    let style = compute_style(&specified_values(&e, &parse("p{font-size:10pt}")));
    assert_eq!(style.font_size, 13300);
    // a keyword or an em length falls back to the 16px default
    let style = compute_style(&specified_values(&e, &parse("p{font-size:large}")));
    assert_eq!(style.font_size, 16000);
    let style = compute_style(&specified_values(&e, &parse("p{font-size:2em}")));
    assert_eq!(style.font_size, 16000);
}

#[test]
fn test_display_none_keyword() {
    let e = elem("p", &[]);
    let style = compute_style(&specified_values(&e, &parse("p{display:none}")));
    assert_eq!(style.display, Display::DisplayNone);
    let style = compute_style(&specified_values(&e, &parse("p{display:inline-table}")));
    assert_eq!(style.display, Display::Inline);
}

fn assert_isomorphic(b: &foamium::layout::LayoutBox, n: &DomNode) {
    assert!(std::ptr::eq(b.node, n));
    assert_eq!(b.children.len(), n.children.len());
    for (cb, cn) in b.children.iter().zip(n.children.iter()) {
        assert_isomorphic(cb, cn);
    }
}

#[test]
fn test_layout_tree_isomorphic() {
    let dom = parse_html("<a><b>x</b><c>y</c></a>").unwrap();
    let sheet = parse("b { display: none; } c { color: #ff0000; }");
    let tree = build_layout_tree(&dom, &sheet);
    assert_isomorphic(&tree, &dom);
    // a none-display node is still emitted as a box
    let a_box = &tree.children[0];
    assert_eq!(a_box.children.len(), 2);
    assert_eq!(a_box.children[0].display, Display::DisplayNone);
    assert_eq!(
        a_box.children[1].style.color,
        Some(Color::new(255, 0, 0, 255))
    );
    // geometry starts zeroed
    assert_eq!(tree.dimensions.content.width, 0);
    assert_eq!(tree.dimensions.margin.top, 0);
}

#[test]
fn test_text_nodes_get_default_style() {
    let dom = parse_html("<a>x</a>").unwrap();
    let sheet = parse("a { color: #ff0000; font-size: 10px; }");
    let tree = build_layout_tree(&dom, &sheet);
    let a_box = &tree.children[0];
    assert_eq!(a_box.style.font_size, 10000);
    let text_box = &a_box.children[0];
    assert_eq!(text_box.style.font_size, 16000);
    assert_eq!(text_box.style.color, None);
    assert!(matches!(text_box.node.node_type, NodeType::Text(_)));
}
