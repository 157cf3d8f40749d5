use iksemel::lint::{Stats, TagHandler};
use iksemel::{IksError, Parser, SaxHandler, TagType};

fn counted(document: &str) -> TagHandler {
    let mut parser = Parser::new(TagHandler::new());
    parser.parse(document).unwrap();
    parser.parse("").unwrap();
    parser.into_handler()
}

#[test]
fn a_new_handler_has_counted_nothing() {
    let handler = TagHandler::new();
    assert_eq!(
        handler.stats(),
        Stats { level: 0, max_depth: 0, nr_tags: 0, nr_stags: 0, cdata_size: 0 }
    );
    assert!(handler.histogram().is_empty());
}

#[test]
fn tags_depth_and_character_data_are_counted() {
    let handler = counted("<a><b>t\u{e9}xt</b><c/><b><d><e/></d></b> </a>");
    assert_eq!(
        handler.stats(),
        Stats { level: 0, max_depth: 3, nr_tags: 4, nr_stags: 2, cdata_size: 6 }
    );
    assert_eq!(
        handler.histogram(),
        vec![
            ("b".to_string(), 2),
            ("c".to_string(), 1),
            ("e".to_string(), 1),
            ("d".to_string(), 1),
            ("a".to_string(), 1),
        ]
    );
    assert_eq!(handler.count_of("b"), 2);
    assert_eq!(handler.count_of("a"), 1);
    assert_eq!(handler.count_of("z"), 0);
}

#[test]
fn open_elements_are_counted_as_the_level() {
    let mut parser = Parser::new(TagHandler::new());
    parser.parse("<a><b><c>").unwrap();
    assert_eq!(parser.handler().stats().level, 3);
    assert_eq!(parser.handler().stats().max_depth, 3);
    parser.parse("</c>").unwrap();
    assert_eq!(parser.handler().stats().level, 2);
    assert_eq!(parser.handler().stats().max_depth, 3);
    assert_eq!(parser.handler().stats().nr_tags, 1);
}

#[test]
fn a_closing_tag_of_another_name_is_refused_by_the_counter() {
    let mut parser = Parser::new(TagHandler::new());
    assert!(matches!(parser.parse("<a><b></a>"), Err(IksError::BadXml)));
    assert_eq!(parser.handler().stats().level, 2);
    assert_eq!(parser.handler().stats().nr_tags, 0);
    assert!(parser.handler().histogram().is_empty());
}

#[test]
fn a_closing_tag_with_nothing_open_is_counted() {
    let mut handler = TagHandler::new();
    handler.on_tag("x", &[], TagType::Close).unwrap();
    assert_eq!(handler.stats().level, 0);
    assert_eq!(handler.stats().nr_tags, 1);
    assert_eq!(handler.histogram(), vec![("x".to_string(), 1)]);
}
