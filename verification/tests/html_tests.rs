use foamium::dom::{parse_html, parse_html_simple, DomNode, HtmlError, NodeType};
use foamium::text::html_escape;

fn tag_of(node: &DomNode) -> &str {
    match &node.node_type {
        NodeType::Element(e) => &e.tag_name,
        NodeType::Text(_) => panic!("expected an element"),
    }
}

fn text_of(node: &DomNode) -> &str {
    match &node.node_type {
        NodeType::Text(t) => t,
        NodeType::Element(_) => panic!("expected a text node"),
    }
}

#[test]
fn test_simple_parse() {
    let html = "<html><body>Hello World</body></html>";
    let dom = parse_html(html).unwrap();
    assert!(matches!(dom.node_type, NodeType::Element(_)));
}

#[test]
fn test_nested_structure() {
    let dom = parse_html("<a><b>x</b></a>").unwrap();
    assert_eq!(tag_of(&dom), "html");
    assert_eq!(dom.children.len(), 1);
    let a = &dom.children[0];
    assert_eq!(tag_of(a), "a");
    assert_eq!(a.children.len(), 1);
    let b = &a.children[0];
    assert_eq!(tag_of(b), "b");
    assert_eq!(b.children.len(), 1);
    assert_eq!(text_of(&b.children[0]), "x");
}

#[test]
fn test_mismatched_closing_tag() {
    let err = parse_html("<a></b>").unwrap_err();
    assert_eq!(
        err,
        HtmlError::MismatchedClosingTag {
            expected: "a".to_string(),
            found: "b".to_string(),
        }
    );
}

#[test]
fn test_unexpected_eof() {
    assert_eq!(parse_html("<a>").unwrap_err(), HtmlError::UnexpectedEof);
    assert_eq!(parse_html("<a b=\"x").unwrap_err(), HtmlError::UnexpectedEof);
}

#[test]
fn test_missing_delimiters() {
    assert_eq!(
        parse_html("<a b>").unwrap_err(),
        HtmlError::MissingDelimiter { expected: '=' }
    );
    assert_eq!(
        parse_html("<a b=c>").unwrap_err(),
        HtmlError::MissingDelimiter { expected: '"' }
    );
    assert_eq!(
        parse_html("<a></a!").unwrap_err(),
        HtmlError::MissingDelimiter { expected: '>' }
    );
}

#[test]
fn test_attributes() {
    let dom = parse_html("<a href=\"x\" id='y'>t</a>").unwrap();
    let a = &dom.children[0];
    match &a.node_type {
        NodeType::Element(e) => {
            assert_eq!(e.attributes.get(&"href".to_string()).unwrap(), "x");
            assert_eq!(e.attributes.get(&"id".to_string()).unwrap(), "y");
            assert!(e.attributes.get(&"missing".to_string()).is_none());
        }
        NodeType::Text(_) => panic!("expected an element"),
    }
}

#[test]
fn test_duplicate_attribute_last_wins() {
    let dom = parse_html("<a id='1' id='2'>t</a>").unwrap();
    match &dom.children[0].node_type {
        NodeType::Element(e) => {
            assert_eq!(e.attributes.get(&"id".to_string()).unwrap(), "2");
        }
        NodeType::Text(_) => panic!("expected an element"),
    }
}

#[test]
fn test_root_attributes_empty() {
    let dom = parse_html("x").unwrap();
    match &dom.node_type {
        NodeType::Element(e) => {
            assert_eq!(e.tag_name, "html");
            assert!(e.attributes.get(&"id".to_string()).is_none());
        }
        NodeType::Text(_) => panic!("expected an element"),
    }
    assert_eq!(text_of(&dom.children[0]), "x");
}

#[test]
fn test_empty_input() {
    let dom = parse_html("").unwrap();
    assert_eq!(tag_of(&dom), "html");
    assert_eq!(dom.children.len(), 0);
}

#[test]
fn test_unicode_tag_names() {
    let dom = parse_html("<ß1>x</ß1>").unwrap();
    assert_eq!(tag_of(&dom.children[0]), "ß1");
}

#[test]
fn test_recovery_scanner() {
    let html = "<script>ignored</script>Hello<style>.c{}</style>World";
    let dom = parse_html_simple(html);
    assert_eq!(tag_of(&dom), "body");
    assert_eq!(dom.children.len(), 2);
    assert_eq!(text_of(&dom.children[0]), "Hello");
    assert_eq!(text_of(&dom.children[1]), "World");
}

#[test]
fn test_recovery_scanner_trims_and_flattens() {
    let dom = parse_html_simple("<div>  a b  </div><p>c</p>");
    assert_eq!(dom.children.len(), 2);
    assert_eq!(text_of(&dom.children[0]), "a b");
    assert_eq!(text_of(&dom.children[1]), "c");
}

#[test]
fn test_recovery_scanner_never_fails() {
    let dom = parse_html_simple("<<<>>> <script>");
    assert_eq!(tag_of(&dom), "body");
    assert_eq!(dom.children.len(), 0);
}

#[test]
fn test_recovery_scanner_case_insensitive() {
    let dom = parse_html_simple("<SCRIPT>skip</Script>kept");
    assert_eq!(dom.children.len(), 1);
    assert_eq!(text_of(&dom.children[0]), "kept");
}

#[test]
fn test_whitespace_between_nodes_dropped() {
    let dom = parse_html("<a>  <b>x</b>  </a>").unwrap();
    let a = &dom.children[0];
    assert_eq!(a.children.len(), 1);
    assert_eq!(tag_of(&a.children[0]), "b");
}

#[test]
fn test_html_escape() {
    assert_eq!(
        html_escape("<a href=\"x\">&'"),
        "&lt;a href=&quot;x&quot;&gt;&amp;&#39;"
    );
    assert_eq!(html_escape("plain"), "plain");
}
