use iksemel::{IksNode, IksType};

#[test]
fn test_node_creation() {
    let mut node = IksNode::new_tag("root");
    assert_eq!(node.node_type(), IksType::Tag);
    assert_eq!(node.name(), Some("root"));

    node.add_attribute("attr", "value");
    assert_eq!(node.attributes().len(), 1);

    let mut child = IksNode::new_tag("child");
    child.set_content("text");
    node.add_child(child);

    assert_eq!(node.children().len(), 1);
}

#[test]
fn test_node_display() {
    let mut node = IksNode::new_tag("test");
    node.add_attribute("attr", "value");
    node.set_content("content");

    assert_eq!(node.to_string(), "<test attr=\"value\">content</test>");
}

#[test]
fn test_node_navigation() {
    let mut root = IksNode::new_tag("root");

    let mut child1 = IksNode::new_tag("child1");
    child1.add_attribute("id", "1");
    root.add_child(child1);

    let mut child2 = IksNode::new_tag("child2");
    child2.add_attribute("id", "2");
    root.add_child(child2);

    let found = root.find("child1").unwrap();
    assert_eq!(found.name().unwrap(), "child1");

    let found = root.find_with_attrib(None, "id", "2").unwrap();
    assert_eq!(found.name().unwrap(), "child2");

    let children = root.children();
    let first = &children[0];
    assert_eq!(first.name().unwrap(), "child1");
    let second = &children[1];
    assert_eq!(second.name().unwrap(), "child2");
}

#[test]
fn test_cdata_handling() {
    let mut root = IksNode::new_tag("root");

    let mut child = IksNode::new_tag("child");
    let place = child.insert_cdata("Hello World");
    assert_eq!(place, Some(0));
    root.add_child(child);

    let content = root.find_cdata("child").unwrap();
    assert_eq!(content, "Hello World");
}

#[test]
fn test_attributes() {
    let mut node = IksNode::new_tag("test");
    node.add_attribute("id", "123");
    node.add_attribute("class", "test");

    assert!(node.has_attributes());
    assert_eq!(node.find_attrib("id"), Some("123"));
    assert_eq!(node.find_attrib("class"), Some("test"));
    assert_eq!(node.find_attrib("missing"), None);
}

#[test]
fn new_node_is_empty() {
    let node = IksNode::new(IksType::Untyped);
    assert_eq!(node.node_type(), IksType::Untyped);
    assert_eq!(node.name(), None);
    assert_eq!(node.content(), None);
    assert!(!node.has_children());
    assert!(!node.has_attributes());
    assert_eq!(node.to_string(), "");
}

#[test]
fn first_of_two_attributes_with_one_name_is_found() {
    let mut node = IksNode::new_tag("a");
    node.add_attribute("k", "first");
    node.add_attribute("k", "second");
    assert_eq!(node.find_attrib("k"), Some("first"));
    assert_eq!(node.attributes().len(), 2);
    assert_eq!(node.to_string(), "<a k=\"first\" k=\"second\"/>");
}

#[test]
fn character_data_takes_no_children() {
    let mut text = IksNode::new(IksType::CData);
    text.set_content("t");
    assert_eq!(text.add_child(IksNode::new_tag("a")), None);
    assert_eq!(text.insert_cdata("more"), None);
    assert!(!text.has_children());
    assert_eq!(text.to_string(), "t");
}

#[test]
fn add_child_tells_the_place() {
    let mut root = IksNode::new_tag("r");
    assert_eq!(root.add_child(IksNode::new_tag("a")), Some(0));
    assert_eq!(root.insert_cdata("t"), Some(1));
    assert_eq!(root.add_child(IksNode::new_tag("b")), Some(2));
    assert_eq!(root.to_string(), "<r><a/>t<b/></r>");
}

#[test]
fn markup_escapes_text_and_attribute_values() {
    let mut node = IksNode::new_tag("a");
    node.add_attribute("x", "1<2 & \"q\" 'p' >");
    node.insert_cdata("a<b & c>d \"q\" 'p'");
    assert_eq!(
        node.to_string(),
        "<a x=\"1&lt;2 &amp; &quot;q&quot; &apos;p&apos; &gt;\">a&lt;b &amp; c&gt;d \"q\" 'p'</a>"
    );
}

#[test]
fn tag_with_empty_content_is_not_self_closing() {
    let mut node = IksNode::new_tag("a");
    node.set_content("");
    assert_eq!(node.to_string(), "<a></a>");
}

#[test]
fn find_skips_character_data_and_other_names() {
    let mut root = IksNode::new_tag("r");
    root.insert_cdata("x");
    root.add_child(IksNode::new_tag("other"));
    let mut wanted = IksNode::new_tag("want");
    wanted.add_attribute("n", "1");
    root.add_child(wanted);
    let mut later = IksNode::new_tag("want");
    later.add_attribute("n", "2");
    root.add_child(later);

    assert_eq!(root.find("want").unwrap().find_attrib("n"), Some("1"));
    assert!(root.find("none").is_none());
    assert!(root.find("x").is_none());
    assert_eq!(root.first_tag().unwrap().name(), Some("other"));
    assert_eq!(
        root.find_with_attrib(Some("want"), "n", "2").unwrap().find_attrib("n"),
        Some("2")
    );
    assert!(root.find_with_attrib(Some("other"), "n", "2").is_none());
    assert!(root.find_with_attrib(None, "n", "3").is_none());
}

#[test]
fn find_cdata_wants_a_tag_and_character_data_in_it() {
    let mut root = IksNode::new_tag("r");
    let mut a = IksNode::new_tag("a");
    a.add_child(IksNode::new_tag("inner"));
    a.insert_cdata("first");
    a.insert_cdata("second");
    root.add_child(a);
    root.add_child(IksNode::new_tag("b"));
    assert_eq!(root.find_cdata("a"), Some("first".to_string()));
    assert_eq!(root.find_cdata("b"), None);
    assert_eq!(root.find_cdata("c"), None);
}

fn family() -> IksNode {
    let mut root = IksNode::new_tag("r");
    let mut a = IksNode::new_tag("a");
    a.add_child(IksNode::new_tag("a0"));
    a.insert_cdata("t");
    a.add_child(IksNode::new_tag("a2"));
    root.add_child(a);
    root.insert_cdata("u");
    root.add_child(IksNode::new_tag("c"));
    root
}

#[test]
fn paths_lead_to_nodes() {
    let root = family();
    assert_eq!(root.node_at(&[]).unwrap().name(), Some("r"));
    assert_eq!(root.node_at(&[0]).unwrap().name(), Some("a"));
    assert_eq!(root.node_at(&[0, 2]).unwrap().name(), Some("a2"));
    assert_eq!(root.node_at(&[1]).unwrap().content(), Some("u"));
    assert!(root.node_at(&[3]).is_none());
    assert!(root.node_at(&[0, 0, 0]).is_none());
}

#[test]
fn parent_and_siblings_are_looked_up_by_path() {
    let root = family();
    assert!(root.parent(&[]).is_none());
    assert_eq!(root.parent(&[0]).unwrap().name(), Some("r"));
    assert_eq!(root.parent(&[0, 1]).unwrap().name(), Some("a"));
    assert!(root.parent(&[0, 3]).is_none());
    assert!(root.parent(&[5, 0]).is_none());

    assert_eq!(root.next(&[0]).unwrap().content(), Some("u"));
    assert_eq!(root.next(&[1]).unwrap().name(), Some("c"));
    assert!(root.next(&[2]).is_none());
    assert!(root.next(&[]).is_none());

    assert!(root.prev(&[0]).is_none());
    assert_eq!(root.prev(&[1]).unwrap().name(), Some("a"));
    assert_eq!(root.prev(&[0, 2]).unwrap().content(), Some("t"));
    assert!(root.prev(&[3]).is_none());

    assert_eq!(root.next_tag(&[0]).unwrap().name(), Some("c"));
    assert_eq!(root.next_tag(&[0, 0]).unwrap().name(), Some("a2"));
    assert!(root.next_tag(&[2]).is_none());
    assert!(root.next_tag(&[0, 2]).is_none());
}

#[test]
fn a_sibling_stands_alone_until_it_is_added() {
    let root = family();
    let sibling = root.insert_sibling("s");
    assert_eq!(sibling.to_string(), "<s/>");
    let before = root.insert_before("b");
    assert_eq!(before.name(), Some("b"));
    assert_eq!(root.children().len(), 3);
}

#[test]
fn a_copy_leaves_the_children_behind() {
    let mut root = family();
    root.add_attribute("k", "v");
    let copy = root.clone();
    assert_eq!(copy.name(), Some("r"));
    assert_eq!(copy.find_attrib("k"), Some("v"));
    assert!(!copy.has_children());
    assert_eq!(root.children().len(), 3);
}
