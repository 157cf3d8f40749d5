use iksemel::{IksError, Parser, SaxHandler, TagType};

struct TestHandler {
    tags: Vec<(String, Vec<(String, String)>, TagType)>,
    cdata: Vec<String>,
}

impl TestHandler {
    fn new() -> Self {
        TestHandler { tags: Vec::new(), cdata: Vec::new() }
    }
}

impl SaxHandler for TestHandler {
    fn on_tag(
        &mut self,
        name: &str,
        attributes: &[(String, String)],
        tag_type: TagType,
    ) -> Result<(), IksError> {
        self.tags.push((name.to_string(), attributes.to_vec(), tag_type));
        Ok(())
    }

    fn on_cdata(&mut self, data: &str) -> Result<(), IksError> {
        self.cdata.push(data.to_string());
        Ok(())
    }
}

#[test]
fn test_basic_parsing() {
    let handler = TestHandler::new();
    let mut parser = Parser::new(handler);

    parser.parse("<root attr=\"value\">text</root>").unwrap();

    assert_eq!(parser.handler().tags.len(), 2);
    assert_eq!(parser.handler().tags[0].0, "root");
    assert_eq!(parser.handler().tags[0].1[0], ("attr".to_string(), "value".to_string()));
    assert_eq!(parser.handler().tags[0].2, TagType::Open);

    assert_eq!(parser.handler().cdata[0], "text");

    assert_eq!(parser.handler().tags[1].0, "root");
    assert_eq!(parser.handler().tags[1].2, TagType::Close);
}

/// Every event in the order it came, as text.
struct Log {
    events: Vec<String>,
    refuse: Option<usize>,
}

impl Log {
    fn new() -> Self {
        Log { events: Vec::new(), refuse: None }
    }
}

impl SaxHandler for Log {
    fn on_tag(
        &mut self,
        name: &str,
        attributes: &[(String, String)],
        tag_type: TagType,
    ) -> Result<(), IksError> {
        if self.refuse == Some(self.events.len()) {
            return Err(IksError::Hook);
        }
        let mut line = format!("{:?} {}", tag_type, name);
        for (key, value) in attributes {
            line.push_str(&format!(" {}={}", key, value));
        }
        self.events.push(line);
        Ok(())
    }

    fn on_cdata(&mut self, data: &str) -> Result<(), IksError> {
        if self.refuse == Some(self.events.len()) {
            return Err(IksError::Hook);
        }
        self.events.push(format!("text {}", data));
        Ok(())
    }
}

fn events_of(pieces: &[&[u8]]) -> Result<Vec<String>, IksError> {
    let mut parser = Parser::new(Log::new());
    for piece in pieces {
        if !piece.is_empty() {
            parser.parse_bytes(piece)?;
        }
    }
    parser.parse_bytes(b"")?;
    Ok(parser.into_handler().events)
}

fn events(document: &str) -> Vec<String> {
    events_of(&[document.as_bytes()]).unwrap()
}

fn fails(document: &[u8]) -> bool {
    matches!(events_of(&[document]), Err(IksError::BadXml))
}

#[test]
fn tags_and_text_come_in_order() {
    assert_eq!(
        events("<a x='1' y=\"2\"><b/>t</a>"),
        vec!["Open a x=1 y=2", "Single b", "text t", "Close a"]
    );
}

#[test]
fn a_self_closing_tag_is_one_event() {
    assert_eq!(events("<a/>"), vec!["Single a"]);
    assert_eq!(events("<a k='v' />"), vec!["Single a k=v"]);
    assert_eq!(events("<a></a>"), vec!["Open a", "Close a"]);
}

#[test]
fn entities_are_decoded_in_text() {
    assert_eq!(events("<a>x&amp;y</a>"), vec!["Open a", "text x", "text &y", "Close a"]);
    assert_eq!(
        events("<a>&lt;&gt;&apos;&quot;</a>"),
        vec!["Open a", "text <", "text >", "text '", "text \"", "Close a"]
    );
}

#[test]
fn attribute_values_are_taken_as_written() {
    assert_eq!(events("<a x='&amp;<'/>"), vec!["Single a x=&amp;<"]);
    assert_eq!(events("<a x=\"it's\" y='\"'/>"), vec!["Single a x=it's y=\""]);
    assert_eq!(events("<a x= \n'v'/>"), vec!["Single a x=v"]);
}

#[test]
fn comments_and_instructions_are_passed_over() {
    assert_eq!(
        events("<?xml version='1.0'?><a><!-- c - c -->t</a>"),
        vec!["Open a", "text t", "Close a"]
    );
}

#[test]
fn a_character_data_section_is_taken_as_written() {
    assert_eq!(
        events("<a><![CDATA[x<&>y]]></a>"),
        vec!["Open a", "text x<&>y", "Close a"]
    );
    assert_eq!(
        events("<a><![CDATA[a]b]]c]]]d]]]]></a>"),
        vec!["Open a", "text a]b]]c]]]d]]", "Close a"]
    );
}

#[test]
fn text_at_the_end_waits_for_the_end_of_the_stream() {
    let mut parser = Parser::new(Log::new());
    parser.parse("<a>te").unwrap();
    assert_eq!(parser.handler().events, vec!["Open a"]);
    parser.parse("xt").unwrap();
    assert_eq!(parser.handler().events, vec!["Open a"]);
    parser.parse("").unwrap();
    assert_eq!(parser.handler().events, vec!["Open a", "text text"]);
    parser.parse("").unwrap();
    assert_eq!(parser.handler().events.len(), 2);
}

#[test]
fn every_split_gives_the_same_events() {
    let document = "<?x?><a k=\"v\" l='w'>t\u{e9}xt &amp; \u{20ac}<b/><!--c--><![CDATA[]]x]]>\u{1F600}</a>tail";
    let bytes = document.as_bytes();
    let whole = events_of(&[bytes]).unwrap();
    assert_eq!(whole.len(), 7);
    for cut in 0..=bytes.len() {
        assert_eq!(events_of(&[&bytes[..cut], &bytes[cut..]]).unwrap(), whole);
    }
    for first in 0..bytes.len() {
        for second in first..bytes.len() {
            let pieces = [&bytes[..first], &bytes[first..second], &bytes[second..]];
            assert_eq!(events_of(&pieces).unwrap(), whole);
        }
    }
    let single: Vec<&[u8]> = bytes.chunks(1).collect();
    assert_eq!(events_of(&single).unwrap(), whole);
}

#[test]
fn characters_of_several_bytes_are_put_together() {
    assert_eq!(
        events("<n\u{e9}e k\u{20ac}='\u{1F600}'>\u{e9}\u{20ac}\u{1F600}</n\u{e9}e>"),
        vec![
            "Open n\u{e9}e k\u{20ac}=\u{1F600}",
            "text \u{e9}\u{20ac}\u{1F600}",
            "Close n\u{e9}e"
        ]
    );
}

#[test]
fn malformed_bytes_are_refused() {
    assert!(fails(b"<a>\x80</a>"));
    assert!(fails(b"<a>\xC3</a>"));
    assert!(fails(b"<a>\xC0\x80</a>"));
    assert!(fails(b"<a>\xC1\xBF</a>"));
    assert!(fails(b"<a>\xE0\x80\x80</a>"));
    assert!(fails(b"<a>\xED\xA0\x80</a>"));
    assert!(fails(b"<a>\xF0\x80\x80\x80</a>"));
    assert!(fails(b"<a>\xF4\x90\x80\x80</a>"));
    assert!(fails(b"<a>\xF8\x88\x80\x80\x80</a>"));
    assert!(fails(b"<a>\xFC\x84\x80\x80\x80\x80</a>"));
    assert!(fails(b"<a>\xFE</a>"));
    assert!(fails(b"<a>\xFF</a>"));
    assert!(!fails(b"<a>\xC2\x80\xDF\xBF\xE0\xA0\x80\xEF\xBF\xBF\xF0\x90\x80\x80\xF4\x8F\xBF\xBF</a>"));
}

#[test]
fn a_character_cut_short_at_the_end_is_refused() {
    let mut parser = Parser::new(Log::new());
    parser.parse_bytes(b"<a>\xE2\x82").unwrap();
    assert!(matches!(parser.parse_bytes(b""), Err(IksError::BadXml)));
    assert!(matches!(parser.parse_bytes(b"\xAC"), Err(IksError::BadXml)));
}

#[test]
fn malformed_markup_is_refused() {
    assert!(fails(b"<a>&foo;</a>"));
    assert!(fails(b"<a>&verylongname;</a>"));
    assert!(fails(b"<a x=1/>"));
    assert!(fails(b"<a x = 'v'/>"));
    assert!(fails(b"<a/ >"));
    assert!(fails(b"<!DOCTYPE a>"));
    assert!(fails(b"<!>"));
    assert!(fails(b"<!-x-->"));
    assert!(fails(b"<!--x--y-->"));
    assert!(fails(b"<![CDATA(x]]>"));
    assert!(fails(b"<![cdata[x]]>"));
    assert!(!fails(b"<a>&amp;</a>"));
    assert!(!fails(b"<a>&quot;</a>"));
}

#[test]
fn an_entity_name_of_eight_characters_is_read_and_then_unknown() {
    let mut parser = Parser::new(Log::new());
    parser.parse("&abcdefgh").unwrap();
    assert!(matches!(parser.parse("i"), Err(IksError::BadXml)));
    let mut parser = Parser::new(Log::new());
    parser.parse("&abcdefgh").unwrap();
    assert!(matches!(parser.parse(";"), Err(IksError::BadXml)));
}

#[test]
fn after_a_failure_every_call_fails() {
    let mut parser = Parser::new(Log::new());
    assert!(matches!(parser.parse("<a x=y>"), Err(IksError::BadXml)));
    assert!(matches!(parser.parse("<b/>"), Err(IksError::BadXml)));
    assert!(matches!(parser.parse(""), Err(IksError::BadXml)));
    assert!(parser.handler().events.is_empty());
}

#[test]
fn a_refusal_of_the_handler_comes_back_as_it_is() {
    let mut log = Log::new();
    log.refuse = Some(1);
    let mut parser = Parser::new(log);
    assert!(matches!(parser.parse("<a><b/><c/></a>"), Err(IksError::Hook)));
    assert_eq!(parser.handler().events, vec!["Open a"]);
    assert!(matches!(parser.parse("<d/>"), Err(IksError::BadXml)));
    assert_eq!(parser.handler().events, vec!["Open a"]);
}

#[test]
fn the_handler_can_be_changed_in_place() {
    let mut parser = Parser::new(Log::new());
    parser.parse("<a/><b/>").unwrap();
    parser.handler_mut().events.clear();
    parser.parse("<c/>").unwrap();
    assert_eq!(parser.handler().events, vec!["Single c"]);
}

#[test]
fn lines_and_columns_are_counted() {
    let mut parser = Parser::new(Log::new());
    assert_eq!((parser.line(), parser.column()), (1, 0));
    parser.parse("<a>\n  <b/>\n\u{20ac}x").unwrap();
    assert_eq!((parser.line(), parser.column()), (3, 2));
    parser.parse("").unwrap();
    assert_eq!((parser.line(), parser.column()), (3, 2));
}

#[test]
fn the_pending_state_is_written_out() {
    let mut parser = Parser::new(Log::new());
    assert_eq!(parser.to_string(), "");
    assert_eq!(parser.serialized_size(), 0);
    parser.parse("<r>a&lt;b").unwrap();
    assert_eq!(parser.to_string(), "&lt;b");
    assert_eq!(parser.serialized_size(), 5);

    let mut parser = Parser::new(Log::new());
    parser.parse("x&amp;<t\"g k='v&' l=\"\"").unwrap();
    assert_eq!(parser.to_string(), "<t&quot;g k=\"v&amp;\" l=\"\">");
    assert_eq!(parser.serialized_size(), 26);

    let mut parser = Parser::new(Log::new());
    parser.parse("</t").unwrap();
    assert_eq!(parser.to_string(), "</t>");
    assert_eq!(parser.serialized_size(), 4);

    let mut parser = Parser::new(Log::new());
    parser.parse("<t k='v'/").unwrap();
    assert_eq!(parser.to_string(), "<t k=\"v\"/>");
    assert_eq!(parser.serialized_size(), 10);
}

#[test]
fn any_number_of_pieces_gives_the_events_and_the_result_of_the_whole() {
    for document in [
        "<a k='v'>one<b/>two &amp; three<!--c--><c>\u{e9}\u{20ac}\u{1F600}</c></a>",
        "<a>text &foo; more</a>",
        "<a><b>\u{20ac}</a>",
        "plain text only",
    ] {
        let bytes = document.as_bytes();
        let whole = events_of(&[bytes]);
        for size in 1..=bytes.len() {
            let pieces: Vec<&[u8]> = bytes.chunks(size).collect();
            let cut = events_of(&pieces);
            match (&whole, &cut) {
                (Ok(a), Ok(b)) => assert_eq!(a, b),
                (Err(IksError::BadXml), Err(IksError::BadXml)) => {}
                _ => panic!("pieces of {} bytes differ from the whole", size),
            }
        }
    }
}

#[test]
fn a_refusal_comes_at_the_same_event_however_the_document_is_cut() {
    let bytes = "<a><b/>text<c/></a>".as_bytes();
    for size in 1..=bytes.len() {
        let mut log = Log::new();
        log.refuse = Some(2);
        let mut parser = Parser::new(log);
        let mut result = Ok(());
        for piece in bytes.chunks(size) {
            result = parser.parse_bytes(piece);
            if result.is_err() {
                break;
            }
        }
        assert!(matches!(result, Err(IksError::Hook)));
        assert_eq!(parser.handler().events, vec!["Open a", "Single b"]);
    }
}
