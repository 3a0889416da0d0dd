use markup_dom::dom::{Node, NodeType};
use markup_dom::parser::{ParseError, Parser};

fn tag_of(n: &Node) -> &str {
    match &n.node_type {
        NodeType::Element(ed) => ed.tag_name.as_str(),
        NodeType::Text(_) => panic!("expected an element, found a text node"),
    }
}

fn text_of(n: &Node) -> &str {
    match &n.node_type {
        NodeType::Text(t) => t.as_str(),
        NodeType::Element(_) => panic!("expected a text node, found an element"),
    }
}

#[test]
fn empty_document_yields_empty_html_element() {
    let root = Parser::parse(String::new()).unwrap();
    match &root.node_type {
        NodeType::Element(ed) => {
            assert_eq!(ed.tag_name, "html");
            assert_eq!(ed.attributes.len(), 0);
        }
        NodeType::Text(_) => panic!("expected an element"),
    }
    assert!(root.children.is_empty());
}

#[test]
fn two_top_level_siblings_get_a_synthetic_html_root() {
    let root = Parser::parse("<a></a><b></b>".to_string()).unwrap();
    assert_eq!(tag_of(&root), "html");
    assert_eq!(root.children.len(), 2);
    assert_eq!(tag_of(&root.children[0]), "a");
    assert_eq!(tag_of(&root.children[1]), "b");
}

#[test]
fn single_element_with_attributes_and_text() {
    let root =
        Parser::parse("<h1 id='h1' class='title'>Hello, World!</h1>".to_string()).unwrap();
    match &root.node_type {
        NodeType::Element(ed) => {
            assert_eq!(ed.tag_name, "h1");
            assert_eq!(ed.attributes.len(), 2);
            assert_eq!(ed.attributes.get(&"id".to_string()).unwrap().as_str(), "h1");
            assert_eq!(
                ed.attributes.get(&"class".to_string()).unwrap().as_str(),
                "title"
            );
        }
        NodeType::Text(_) => panic!("expected an element"),
    }
    assert_eq!(root.children.len(), 1);
    assert_eq!(text_of(&root.children[0]), "Hello, World!");
}

#[test]
fn mismatched_closing_tag_is_reported() {
    let err = Parser::parse("<a></b>".to_string()).unwrap_err();
    match err {
        ParseError::TagMismatch(opening, closing) => {
            assert_eq!(opening, "a");
            assert_eq!(closing, "b");
        }
        other => panic!("expected TagMismatch, got {:?}", other),
    }
}

#[test]
fn unquoted_attribute_value_is_rejected() {
    let err = Parser::parse("<a id=value>".to_string()).unwrap_err();
    match err {
        ParseError::UnexpectedCharacter(expected, found, position) => {
            assert_eq!(expected, '"');
            assert_eq!(found, 'v');
            assert_eq!(position, 6);
        }
        other => panic!("expected UnexpectedCharacter, got {:?}", other),
    }
}

#[test]
fn attribute_order_does_not_affect_the_map() {
    let a = Parser::parse("<a x='1' y='2'></a>".to_string()).unwrap();
    let b = Parser::parse("<a y='2' x='1'></a>".to_string()).unwrap();
    let (ma, mb) = match (&a.node_type, &b.node_type) {
        (NodeType::Element(e1), NodeType::Element(e2)) => (&e1.attributes, &e2.attributes),
        _ => panic!("expected elements"),
    };
    assert_eq!(ma.len(), 2);
    assert_eq!(ma.len(), mb.len());
    for key in ["x", "y"] {
        assert_eq!(
            ma.get(&key.to_string()).unwrap(),
            mb.get(&key.to_string()).unwrap()
        );
    }
}

#[test]
fn nested_elements_keep_their_structure() {
    let input = "<html><head><title>Document</title></head>\
                 <body><h1 id='h1' class='title'>Hello, World!</h1></body></html>";
    let root = Parser::parse(input.to_string()).unwrap();
    assert_eq!(tag_of(&root), "html");
    assert_eq!(root.children.len(), 2);
    let head = &root.children[0];
    assert_eq!(tag_of(head), "head");
    assert_eq!(head.children.len(), 1);
    assert_eq!(tag_of(&head.children[0]), "title");
    assert_eq!(text_of(&head.children[0].children[0]), "Document");
    let body = &root.children[1];
    assert_eq!(tag_of(body), "body");
    assert_eq!(body.children.len(), 1);
    assert_eq!(tag_of(&body.children[0]), "h1");
}

#[test]
fn text_only_document_is_a_single_text_root() {
    let root = Parser::parse("hello".to_string()).unwrap();
    assert_eq!(text_of(&root), "hello");
    assert!(root.children.is_empty());
}

#[test]
fn whitespace_around_a_single_element_is_skipped() {
    let root = Parser::parse("  \n <a></a> \t ".to_string()).unwrap();
    assert_eq!(tag_of(&root), "a");
    assert!(root.children.is_empty());
}

#[test]
fn duplicate_attribute_names_last_write_wins() {
    let root = Parser::parse("<p a='1' a='2'></p>".to_string()).unwrap();
    match &root.node_type {
        NodeType::Element(ed) => {
            assert_eq!(ed.attributes.len(), 1);
            assert_eq!(ed.attributes.get(&"a".to_string()).unwrap().as_str(), "2");
        }
        NodeType::Text(_) => panic!("expected an element"),
    }
}

#[test]
fn unterminated_element_runs_out_of_input() {
    let err = Parser::parse("<a>".to_string()).unwrap_err();
    assert!(matches!(err, ParseError::UnexpectedEndOfInput));
}

#[test]
fn unterminated_attribute_value_runs_out_of_input() {
    let err = Parser::parse("<a x='1></a>".to_string()).unwrap_err();
    assert!(matches!(err, ParseError::UnexpectedEndOfInput));
}

#[test]
fn attribute_without_equals_sign_is_rejected() {
    let err = Parser::parse("<a x></a>".to_string()).unwrap_err();
    match err {
        ParseError::UnexpectedCharacter(expected, found, position) => {
            assert_eq!(expected, '=');
            assert_eq!(found, '>');
            assert_eq!(position, 4);
        }
        other => panic!("expected UnexpectedCharacter, got {:?}", other),
    }
}

#[test]
fn multi_byte_characters_are_consumed_atomically() {
    let root = Parser::parse("<p>h\u{e9}llo \u{4e16}\u{754c}</p>".to_string()).unwrap();
    assert_eq!(tag_of(&root), "p");
    assert_eq!(text_of(&root.children[0]), "h\u{e9}llo \u{4e16}\u{754c}");
}

#[test]
fn error_positions_count_characters_not_bytes() {
    // the two-byte character before the bad attribute must count as one
    let err = Parser::parse("<p \u{e4}></p>".to_string()).unwrap_err();
    match err {
        ParseError::UnexpectedCharacter(expected, found, position) => {
            assert_eq!(expected, '=');
            assert_eq!(found, '\u{e4}');
            assert_eq!(position, 3);
        }
        other => panic!("expected UnexpectedCharacter, got {:?}", other),
    }
}

#[test]
fn missing_opening_angle_for_closing_tag_is_rejected() {
    // after the child text the input ends without any closing tag
    let err = Parser::parse("<a>text".to_string()).unwrap_err();
    assert!(matches!(err, ParseError::UnexpectedEndOfInput));
}

#[test]
fn empty_quoted_attribute_value_is_allowed() {
    let root = Parser::parse("<a x=''></a>".to_string()).unwrap();
    match &root.node_type {
        NodeType::Element(ed) => {
            assert_eq!(ed.attributes.get(&"x".to_string()).unwrap().as_str(), "");
        }
        NodeType::Text(_) => panic!("expected an element"),
    }
}

#[test]
fn double_quoted_attribute_values_are_allowed() {
    let root = Parser::parse("<a x=\"1\"></a>".to_string()).unwrap();
    match &root.node_type {
        NodeType::Element(ed) => {
            assert_eq!(ed.attributes.get(&"x".to_string()).unwrap().as_str(), "1");
        }
        NodeType::Text(_) => panic!("expected an element"),
    }
}

#[test]
fn comments_are_not_supported_and_fail_as_malformed_elements() {
    // the grammar has no comment syntax; `<!` is read as an element whose
    // empty tag name must be followed by attributes, which `!` is not
    let err = Parser::parse("<!-- c -->".to_string()).unwrap_err();
    assert!(matches!(err, ParseError::UnexpectedCharacter('=', '!', 1)));
}
