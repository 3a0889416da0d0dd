use markup_dom::dom::{elem, text, AttrMap, NodeType};
use markup_dom::parser::{ParseError, Parser};

#[test]
fn attr_map_starts_empty() {
    let m = AttrMap::new();
    assert_eq!(m.len(), 0);
    assert!(m.get(&"id".to_string()).is_none());
}

#[test]
fn attr_map_insert_and_get() {
    let mut m = AttrMap::new();
    m.insert("id".to_string(), "h1".to_string());
    m.insert("class".to_string(), "title".to_string());
    assert_eq!(m.len(), 2);
    assert_eq!(m.get(&"id".to_string()).unwrap().as_str(), "h1");
    assert_eq!(m.get(&"class".to_string()).unwrap().as_str(), "title");
    assert!(m.get(&"href".to_string()).is_none());
}

#[test]
fn attr_map_insert_overwrites() {
    let mut m = AttrMap::new();
    m.insert("x".to_string(), "1".to_string());
    m.insert("x".to_string(), "2".to_string());
    assert_eq!(m.len(), 1);
    assert_eq!(m.get(&"x".to_string()).unwrap().as_str(), "2");
}

#[test]
fn text_constructor_wraps_data_without_children() {
    let n = text("abc".to_string());
    match &n.node_type {
        NodeType::Text(t) => assert_eq!(t, "abc"),
        NodeType::Element(_) => panic!("expected a text node"),
    }
    assert!(n.children.is_empty());
}

#[test]
fn elem_constructor_takes_ownership_of_parts() {
    let mut attrs = AttrMap::new();
    attrs.insert("id".to_string(), "root".to_string());
    let child = text("hi".to_string());
    let n = elem("div".to_string(), attrs, vec![child]);
    match &n.node_type {
        NodeType::Element(ed) => {
            assert_eq!(ed.tag_name, "div");
            assert_eq!(ed.attributes.get(&"id".to_string()).unwrap().as_str(), "root");
        }
        NodeType::Text(_) => panic!("expected an element"),
    }
    assert_eq!(n.children.len(), 1);
}

#[test]
fn parser_primitives_walk_the_input() {
    let mut p = Parser { pos: 0, input: "ab".to_string() };
    assert!(!p.eof());
    assert_eq!(p.next_char().unwrap(), 'a');
    assert!(p.starts_with("ab"));
    assert!(!p.starts_with("b"));
    assert_eq!(p.consume_char().unwrap(), 'a');
    assert_eq!(p.consume_char().unwrap(), 'b');
    assert!(p.eof());
    assert!(matches!(p.next_char(), Err(ParseError::UnexpectedEndOfInput)));
    assert!(matches!(p.consume_char(), Err(ParseError::UnexpectedEndOfInput)));
    assert!(!p.starts_with("a"));
    assert!(p.starts_with(""));
}

#[test]
fn parse_tag_name_stops_at_non_alphanumerics() {
    let mut p = Parser { pos: 0, input: "h1 id".to_string() };
    assert_eq!(p.parse_tag_name(), "h1");
    assert_eq!(p.pos, 2);
}

#[test]
fn consume_whitespace_skips_blanks() {
    let mut p = Parser { pos: 0, input: " \t\n x".to_string() };
    p.consume_whitespace();
    assert_eq!(p.pos, 4);
    assert_eq!(p.next_char().unwrap(), 'x');
}

#[test]
fn parse_attr_value_reads_between_quotes() {
    let mut p = Parser { pos: 0, input: "'value'rest".to_string() };
    assert_eq!(p.parse_attr_value().unwrap(), "value");
    assert_eq!(p.pos, 7);
}

#[test]
fn parse_attr_reads_a_pair() {
    let mut p = Parser { pos: 0, input: "id='h1'".to_string() };
    let (name, value) = p.parse_attr().unwrap();
    assert_eq!(name, "id");
    assert_eq!(value, "h1");
}

#[test]
fn parse_attributes_stops_before_the_closing_angle() {
    let mut p = Parser { pos: 0, input: " a='1' b='2'>".to_string() };
    let m = p.parse_attributes().unwrap();
    assert_eq!(m.len(), 2);
    assert_eq!(m.get(&"a".to_string()).unwrap().as_str(), "1");
    assert_eq!(m.get(&"b".to_string()).unwrap().as_str(), "2");
    assert_eq!(p.next_char().unwrap(), '>');
}

#[test]
fn parse_text_stops_at_an_opening_angle() {
    let mut p = Parser { pos: 0, input: "some text<a>".to_string() };
    let n = p.parse_text();
    match &n.node_type {
        NodeType::Text(t) => assert_eq!(t, "some text"),
        NodeType::Element(_) => panic!("expected a text node"),
    }
    assert_eq!(p.pos, 9);
}

#[test]
fn parse_node_dispatches_on_the_first_character() {
    let mut p = Parser { pos: 0, input: "plain".to_string() };
    let n = p.parse_node().unwrap();
    assert!(matches!(n.node_type, NodeType::Text(_)));
    let mut q = Parser { pos: 0, input: "<b></b>".to_string() };
    let m = q.parse_node().unwrap();
    assert!(matches!(m.node_type, NodeType::Element(_)));
}

#[test]
fn parse_nodes_collects_siblings_until_a_closing_marker() {
    let mut p = Parser { pos: 0, input: "one<b></b></x>".to_string() };
    let ns = p.parse_nodes().unwrap();
    assert_eq!(ns.len(), 2);
    assert!(matches!(ns[0].node_type, NodeType::Text(_)));
    assert!(matches!(ns[1].node_type, NodeType::Element(_)));
    assert!(p.starts_with("</x>"));
}

#[test]
fn parse_element_reads_one_whole_element() {
    let mut p = Parser { pos: 0, input: "<a href='x'>t</a>".to_string() };
    let n = p.parse_element().unwrap();
    match &n.node_type {
        NodeType::Element(ed) => {
            assert_eq!(ed.tag_name, "a");
            assert_eq!(ed.attributes.get(&"href".to_string()).unwrap().as_str(), "x");
        }
        NodeType::Text(_) => panic!("expected an element"),
    }
    assert_eq!(n.children.len(), 1);
    assert!(p.eof());
}

#[test]
fn parse_element_rejects_a_missing_opening_angle() {
    let mut p = Parser { pos: 0, input: "a</a>".to_string() };
    let err = p.parse_element().unwrap_err();
    match err {
        ParseError::UnexpectedCharacter(expected, found, position) => {
            assert_eq!(expected, '<');
            assert_eq!(found, 'a');
            assert_eq!(position, 0);
        }
        other => panic!("expected UnexpectedCharacter, got {:?}", other),
    }
}
