use foamium::css::{parse, Color, Selector, SimpleSelector, Unit, Value};

#[test]
fn test_parse_stylesheet() {
    let css = "h1, h2 { color: #ff0000; margin: 10px; }";
    let stylesheet = parse(css);
    assert_eq!(stylesheet.rules.len(), 1);
    assert_eq!(stylesheet.rules[0].selectors.len(), 2);
    assert_eq!(stylesheet.rules[0].declarations.len(), 2);
}

#[test]
fn test_robustness() {
    let css = "h1 { color: #zzzzzz; width: 100unknown; } invalid {";
    let stylesheet = parse(css);
    // Should not panic and produce something
    assert!(!stylesheet.rules.is_empty());
}

#[test]
fn test_single_rule_exact() {
    let stylesheet = parse("h1{color:#ff0000;margin:10px;}");
    assert_eq!(stylesheet.rules.len(), 1);
    let rule = &stylesheet.rules[0];
    assert_eq!(rule.selectors.len(), 1);
    let Selector::Simple(simple) = &rule.selectors[0];
    assert_eq!(simple.tag_name.as_deref(), Some("h1"));
    assert_eq!(simple.id, None);
    assert!(simple.class.is_empty());
    assert_eq!(rule.declarations.len(), 2);
    assert_eq!(rule.declarations[0].name, "color");
    assert_eq!(
        rule.declarations[0].value,
        Value::ColorValue(Color::new(255, 0, 0, 255))
    );
    assert_eq!(rule.declarations[1].name, "margin");
    assert_eq!(rule.declarations[1].value, Value::Length(10000, Unit::Px));
}

#[test]
fn test_parse_total_on_any_input() {
    assert_eq!(parse("").rules.len(), 0);
    let garbage = "\u{0}\u{1}\u{fffd}@!{{{}}};;;###...";
    let _ = parse(garbage);
    let unterminated = "h1 { color: #ff0000";
    let sheet = parse(unterminated);
    assert_eq!(sheet.rules.len(), 1);
    assert_eq!(sheet.rules[0].declarations.len(), 1);
}

#[test]
fn test_specificity_values() {
    let id_sel = Selector::Simple(SimpleSelector {
        tag_name: None,
        id: Some("a".to_string()),
        class: vec![],
    });
    let class_sel = Selector::Simple(SimpleSelector {
        tag_name: None,
        id: None,
        class: vec!["b".to_string()],
    });
    let tag_sel = Selector::Simple(SimpleSelector {
        tag_name: Some("div".to_string()),
        id: None,
        class: vec![],
    });
    let universal = Selector::Simple(SimpleSelector {
        tag_name: None,
        id: None,
        class: vec![],
    });
    assert_eq!(id_sel.specificity(), (1, 0, 0));
    assert_eq!(class_sel.specificity(), (0, 1, 0));
    assert_eq!(tag_sel.specificity(), (0, 0, 1));
    assert_eq!(universal.specificity(), (0, 0, 0));
    assert!(id_sel.specificity() > class_sel.specificity());
    assert!(class_sel.specificity() > tag_sel.specificity());
    assert!(tag_sel.specificity() > universal.specificity());
}

#[test]
fn test_selector_list_sorted_descending() {
    let sheet = parse("div.a, #x, *, p.c.d {}");
    assert_eq!(sheet.rules.len(), 1);
    let specs: Vec<_> = sheet.rules[0]
        .selectors
        .iter()
        .map(|s| s.specificity())
        .collect();
    assert_eq!(specs, vec![(1, 0, 0), (0, 2, 1), (0, 1, 1), (0, 0, 0)]);
}

#[test]
fn test_duplicate_classes_kept() {
    let sheet = parse(".a.a {}");
    let Selector::Simple(simple) = &sheet.rules[0].selectors[0];
    assert_eq!(simple.class, vec!["a".to_string(), "a".to_string()]);
    assert_eq!(sheet.rules[0].selectors[0].specificity(), (0, 2, 0));
}

#[test]
fn test_units() {
    let sheet = parse("h1{a:2em;b:3rem;c:4pt;d:5unknown;e:6PX}");
    let ds = &sheet.rules[0].declarations;
    assert_eq!(ds[0].value, Value::Length(2000, Unit::Em));
    assert_eq!(ds[1].value, Value::Length(3000, Unit::Rem));
    assert_eq!(ds[2].value, Value::Length(4000, Unit::Pt));
    assert_eq!(ds[3].value, Value::Length(5000, Unit::Px));
    assert_eq!(ds[4].value, Value::Length(6000, Unit::Px));
}

#[test]
fn test_fractional_and_malformed_numbers() {
    let sheet = parse("h1{a:1.5px;b:10.px;c:1.2.3px;d:0.1234px}");
    let ds = &sheet.rules[0].declarations;
    assert_eq!(ds[0].value, Value::Length(1500, Unit::Px));
    assert_eq!(ds[1].value, Value::Length(10000, Unit::Px));
    assert_eq!(ds[2].value, Value::Length(0, Unit::Px));
    // digits beyond the third fractional place are truncated
    assert_eq!(ds[3].value, Value::Length(123, Unit::Px));
}

#[test]
fn test_color_parsing_exact() {
    let sheet = parse("h1{color:#ff0000;}");
    assert_eq!(
        sheet.rules[0].declarations[0].value,
        Value::ColorValue(Color::new(255, 0, 0, 255))
    );
    // truncated channel pairs zero-fill and never fail
    let sheet = parse("h1{color:#f");
    assert_eq!(
        sheet.rules[0].declarations[0].value,
        Value::ColorValue(Color::new(0, 0, 0, 255))
    );
    let sheet = parse("h1{color:#12345;}");
    // two full pairs, then "5;" is not a hex pair: that channel is 0
    assert_eq!(
        sheet.rules[0].declarations[0].value,
        Value::ColorValue(Color::new(0x12, 0x34, 0, 255))
    );
}

#[test]
fn test_keyword_value() {
    let sheet = parse("p { display: none; float: left }");
    let ds = &sheet.rules[0].declarations;
    assert_eq!(ds[0].value, Value::Keyword("none".to_string()));
    assert_eq!(ds[1].value, Value::Keyword("left".to_string()));
}

#[test]
fn test_huge_number_saturates() {
    let sheet = parse("h1{width:99999999999999999999999px}");
    assert_eq!(
        sheet.rules[0].declarations[0].value,
        Value::Length(u64::MAX, Unit::Px)
    );
}

#[test]
fn test_declaration_recovery() {
    // a malformed declaration is skipped up to the next `;`
    let sheet = parse("h1 { ???; margin: 10px; }");
    assert_eq!(sheet.rules[0].declarations.len(), 1);
    assert_eq!(sheet.rules[0].declarations[0].name, "margin");
}
