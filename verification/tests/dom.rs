use iksemel::{DomParser, IksError, IksNode, IksType, Parser, SaxHandler, TagType};

#[test]
fn test_dom_child() {
    let xml = r#"
            <root>
                <child id="3"/>
            </root>"#;

    let root = DomParser::parse_str(xml).unwrap();

    assert_eq!(root.name().unwrap(), "root");
    assert_eq!(root.children().len(), 1);

    let child = &root.children()[0];
    assert_eq!(child.name().unwrap(), "child");
    assert_eq!(child.attributes()[0], ("id".to_string(), "3".to_string()));
    assert!(child.children().is_empty());
}

#[test]
fn test_dom_parsing() {
    let xml = r#"
            <root version="1.0">
                <child id="1">Text1</child>
                <child id="2">Text2</child>
                <child id="3"/>
            </root>"#;

    let root = DomParser::parse_str(xml).unwrap();

    assert_eq!(root.name().unwrap(), "root");
    assert_eq!(root.attributes()[0], ("version".to_string(), "1.0".to_string()));
    assert_eq!(root.children().len(), 3);

    let child1 = &root.children()[0];
    assert_eq!(child1.name().unwrap(), "child");
    assert_eq!(child1.attributes()[0], ("id".to_string(), "1".to_string()));

    let text = child1.children().first().unwrap();
    assert_eq!(text.content().unwrap(), "Text1");

    let child2 = &root.children()[1];
    assert_eq!(child2.name().unwrap(), "child");
    assert_eq!(child2.attributes()[0], ("id".to_string(), "2".to_string()));
    assert_eq!(child2.children().first().unwrap().content().unwrap(), "Text2");

    let child3 = &root.children()[2];
    assert_eq!(child3.name().unwrap(), "child");
    assert_eq!(child3.attributes()[0], ("id".to_string(), "3".to_string()));
    assert!(child3.children().is_empty());
}

#[test]
fn structure_is_kept() {
    let root = DomParser::parse_str("<a x=\"1\"><b>t</b></a>").unwrap();
    assert_eq!(root.node_type(), IksType::Tag);
    assert_eq!(root.name(), Some("a"));
    assert_eq!(root.attributes().len(), 1);
    assert_eq!(root.attributes()[0], ("x".to_string(), "1".to_string()));
    assert_eq!(root.children().len(), 1);
    let b = &root.children()[0];
    assert_eq!(b.node_type(), IksType::Tag);
    assert_eq!(b.name(), Some("b"));
    assert!(!b.has_attributes());
    assert_eq!(b.children().len(), 1);
    let t = &b.children()[0];
    assert_eq!(t.node_type(), IksType::CData);
    assert_eq!(t.content(), Some("t"));
    assert_eq!(t.name(), None);
    assert!(!t.has_children());
}

#[test]
fn self_closing_and_empty_pair_give_the_same_tree() {
    let single = DomParser::parse_str("<a/>").unwrap();
    let pair = DomParser::parse_str("<a></a>").unwrap();
    for node in [&single, &pair] {
        assert_eq!(node.name(), Some("a"));
        assert_eq!(node.node_type(), IksType::Tag);
        assert!(!node.has_children());
        assert!(!node.has_attributes());
        assert_eq!(node.content(), None);
    }
    assert_eq!(single.to_string(), pair.to_string());
}

fn refused(xml: &str) -> bool {
    matches!(DomParser::parse_str(xml), Err(IksError::BadXml))
}

#[test]
fn an_element_left_open_is_refused() {
    assert!(refused("<a>"));
    assert!(refused("<a><b></b>"));
    assert!(refused("<a><b/>"));
}

#[test]
fn a_closing_tag_of_another_name_is_refused() {
    assert!(refused("<a></b>"));
    assert!(refused("<a><b></a></b>"));
}

#[test]
fn an_unknown_entity_is_refused() {
    assert!(refused("&foo;"));
    assert!(refused("<a>&foo;</a>"));
}

#[test]
fn a_document_without_an_element_is_refused() {
    assert!(refused(""));
    assert!(refused("   "));
    assert!(refused("text"));
    assert!(refused("<!-- only a comment -->"));
    assert!(refused("<a"));
}

#[test]
fn a_truncated_character_is_refused_by_the_builder_too() {
    let mut parser = Parser::new(DomParser::new().unwrap());
    parser.parse_bytes(b"<a>x\xF0\x9F").unwrap();
    assert!(matches!(parser.parse_bytes(b""), Err(IksError::BadXml)));
}

#[test]
fn a_closing_tag_with_nothing_open_is_passed_over() {
    let root = DomParser::parse_str("</x><a/></y>").unwrap();
    assert_eq!(root.name(), Some("a"));
}

#[test]
fn the_last_element_at_the_top_is_the_document() {
    let root = DomParser::parse_str("<a/><b><c/></b>").unwrap();
    assert_eq!(root.name(), Some("b"));
    assert_eq!(root.children().len(), 1);
}

#[test]
fn blank_text_and_text_outside_elements_are_dropped() {
    let root = DomParser::parse_str("x<a> \n\t<b/> y \u{a0}\u{2003}<c/>\u{3000}</a>z").unwrap();
    assert_eq!(root.children().len(), 3);
    assert_eq!(root.children()[0].name(), Some("b"));
    assert_eq!(root.children()[1].content(), Some(" y \u{a0}\u{2003}"));
    assert_eq!(root.children()[2].name(), Some("c"));
}

#[test]
fn the_builder_follows_the_events() {
    let mut dom = DomParser::new().unwrap();
    assert!(dom.document().is_none());
    assert_eq!(dom.depth(), 0);
    dom.on_cdata("dropped").unwrap();
    assert!(dom.document().is_none());
    dom.on_tag("a", &[("k".to_string(), "v".to_string())], TagType::Open).unwrap();
    assert_eq!(dom.depth(), 1);
    assert_eq!(dom.document().unwrap().to_string(), "<a k=\"v\"/>");
    dom.on_tag("b", &[], TagType::Single).unwrap();
    assert_eq!(dom.depth(), 1);
    dom.on_cdata("t").unwrap();
    dom.on_cdata("  ").unwrap();
    assert_eq!(dom.document().unwrap().to_string(), "<a k=\"v\"><b/>t</a>");
    assert!(matches!(dom.on_tag("b", &[], TagType::Close), Err(IksError::BadXml)));
    assert_eq!(dom.depth(), 1);
    dom.on_tag("a", &[], TagType::Close).unwrap();
    assert_eq!(dom.depth(), 0);
    dom.on_tag("a", &[], TagType::Close).unwrap();
    assert_eq!(dom.document().unwrap().to_string(), "<a k=\"v\"><b/>t</a>");
}

#[test]
fn an_opening_tag_becomes_a_child_at_once() {
    let mut dom = DomParser::new().unwrap();
    dom.on_tag("p", &[], TagType::Open).unwrap();
    dom.on_tag("c", &[], TagType::Single).unwrap();
    let attributes = [
        ("k".to_string(), "1".to_string()),
        ("k".to_string(), "2".to_string()),
    ];
    dom.on_tag("n", &attributes, TagType::Open).unwrap();
    assert_eq!(dom.depth(), 2);
    let p = dom.document().unwrap();
    assert_eq!(p.name(), Some("p"));
    assert_eq!(p.children().len(), 2);
    assert_eq!(p.children()[0].name(), Some("c"));
    let n = &p.children()[1];
    assert_eq!(n.name(), Some("n"));
    assert_eq!(n.attributes(), &attributes.to_vec());
    assert!(!n.has_children());

    dom.on_tag("s", &[], TagType::Single).unwrap();
    assert_eq!(dom.depth(), 2);
    let n = &dom.document().unwrap().children()[1];
    assert_eq!(n.children().len(), 1);
    assert_eq!(n.children()[0].name(), Some("s"));
    assert_eq!(dom.document().unwrap().children().len(), 2);
}

#[test]
fn text_becomes_a_child_of_the_open_element_as_it_was_written() {
    let mut dom = DomParser::new().unwrap();
    dom.on_tag("a", &[], TagType::Open).unwrap();
    dom.on_tag("b", &[], TagType::Single).unwrap();
    dom.on_cdata(" t ").unwrap();
    let a = dom.document().unwrap();
    assert_eq!(a.node_type(), IksType::Tag);
    assert_eq!(a.name(), Some("a"));
    assert_eq!(a.children().len(), 2);
    assert_eq!(a.children()[0].name(), Some("b"));
    assert!(!a.children()[0].has_children());
    assert_eq!(a.children()[1].node_type(), IksType::CData);
    assert_eq!(a.children()[1].content(), Some(" t "));
}

#[test]
fn a_document_that_is_not_closed_is_there_while_it_is_read() {
    let mut parser = Parser::new(DomParser::new().unwrap());
    parser.parse("<a><b>text<c/>").unwrap();
    parser.parse("").unwrap();
    assert_eq!(parser.handler().depth(), 2);
    assert_eq!(parser.handler().document().unwrap().to_string(), "<a><b>text<c/></b></a>");
    assert!(matches!(DomParser::parse_str("<a><b>text<c/>"), Err(IksError::BadXml)));
}

#[test]
fn a_new_element_at_the_top_takes_the_place_of_the_document() {
    let mut dom = DomParser::new().unwrap();
    dom.on_tag("a", &[], TagType::Single).unwrap();
    assert_eq!(dom.document().unwrap().name(), Some("a"));
    dom.on_tag("b", &[], TagType::Open).unwrap();
    assert_eq!(dom.document().unwrap().name(), Some("b"));
    assert_eq!(dom.depth(), 1);
}

#[test]
fn the_size_hint_sets_the_chunk_size() {
    let mut dom = DomParser::new().unwrap();
    assert_eq!(dom.chunk_size(), 256);
    dom.set_size_hint(100);
    assert_eq!(dom.chunk_size(), 256);
    dom.set_size_hint(2560);
    assert_eq!(dom.chunk_size(), 256);
    dom.set_size_hint(2570);
    assert_eq!(dom.chunk_size(), 257);
    dom.set_size_hint(1_000_000);
    assert_eq!(dom.chunk_size(), 100_000);
}

fn same(a: &IksNode, b: &IksNode) -> bool {
    a.node_type() == b.node_type()
        && a.name() == b.name()
        && a.content() == b.content()
        && a.attributes() == b.attributes()
        && a.children().len() == b.children().len()
        && a.children().iter().zip(b.children().iter()).all(|(x, y)| same(x, y))
}

#[test]
fn a_parsed_tree_written_out_parses_to_the_same_tree() {
    for xml in [
        "<a/>",
        "<a x=\"1\"><b>t</b></a>",
        "<r v='1.0'><c id='1'>Text1</c> <c id='2'>Text2</c><c id='3'/></r>",
        "<a>x &amp; y &lt;z <b k='v' l='w'>&amp;</b> tail</a>",
        "<a><b><c><d>deep</d></c></b>\u{e9}\u{20ac}\u{1F600}</a>",
    ] {
        let tree = DomParser::parse_str(xml).unwrap();
        let again = DomParser::parse_str(&tree.to_string()).unwrap();
        assert!(same(&tree, &again));
        assert_eq!(tree.to_string(), again.to_string());
    }
}

#[test]
fn pieces_build_the_same_tree_as_the_whole() {
    let xml = "<r a='1'><x>t\u{e9}xt</x><y/>&amp;more</r>";
    let whole = DomParser::parse_str(xml).unwrap().to_string();
    let bytes = xml.as_bytes();
    for cut in 1..bytes.len() {
        let mut parser = Parser::new(DomParser::new().unwrap());
        parser.parse_bytes(&bytes[..cut]).unwrap();
        parser.parse_bytes(&bytes[cut..]).unwrap();
        parser.parse_bytes(b"").unwrap();
        assert_eq!(parser.handler().document().unwrap().to_string(), whole);
    }
}

#[test]
fn text_with_a_special_character_inside_comes_back_in_two() {
    let tree = DomParser::parse_str("<a>x>y</a>").unwrap();
    assert_eq!(tree.children().len(), 1);
    assert_eq!(tree.children()[0].content(), Some("x>y"));
    assert_eq!(tree.to_string(), "<a>x&gt;y</a>");
    let again = DomParser::parse_str(&tree.to_string()).unwrap();
    assert_eq!(again.children().len(), 2);
    assert_eq!(again.children()[0].content(), Some("x"));
    assert_eq!(again.children()[1].content(), Some(">y"));
    assert_eq!(again.to_string(), tree.to_string());
}

#[test]
fn an_attribute_value_with_an_entity_comes_back_escaped() {
    let tree = DomParser::parse_str("<a k='&amp;'/>").unwrap();
    assert_eq!(tree.find_attrib("k"), Some("&amp;"));
    assert_eq!(tree.to_string(), "<a k=\"&amp;amp;\"/>");
    let again = DomParser::parse_str(&tree.to_string()).unwrap();
    assert_eq!(again.find_attrib("k"), Some("&amp;amp;"));
}

#[test]
fn character_data_sections_and_comments_part_the_text() {
    let tree = DomParser::parse_str("<a>x<!--c-->y<![CDATA[<z>]]>w</a>").unwrap();
    assert_eq!(tree.children().len(), 3);
    assert_eq!(tree.children()[0].content(), Some("x"));
    assert_eq!(tree.children()[1].content(), Some("y"));
    assert_eq!(tree.children()[2].content(), Some("<z>w"));
}

#[test]
fn the_built_tree_is_found_through() {
    let root = DomParser::parse_str(
        "<r><item id='1'>one</item><item id='2'>two</item><other/></r>",
    )
    .unwrap();
    assert_eq!(root.find_cdata("item"), Some("one".to_string()));
    assert_eq!(
        root.find_with_attrib(Some("item"), "id", "2").unwrap().children()[0].content(),
        Some("two")
    );
    assert_eq!(root.next_tag(&[0]).unwrap().find_attrib("id"), Some("2"));
    assert_eq!(root.parent(&[1, 0]).unwrap().find_attrib("id"), Some("2"));
    assert_eq!(root.prev(&[2]).unwrap().find_attrib("id"), Some("2"));
    assert_eq!(root.first_tag().unwrap().find_attrib("id"), Some("1"));
}
