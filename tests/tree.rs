use std::str::FromStr;

use quick_xml_dom::{build_from_events, decode_event, BuildError, Element, RawEvent, TreeBuilder, XmlEvent};

fn start(name: &str, attributes: Vec<Option<(&str, &str)>>) -> XmlEvent {
    XmlEvent::Start {
        name: name.to_string(),
        attributes: attributes
            .into_iter()
            .map(|a| a.map(|(k, v)| (k.to_string(), v.to_string())))
            .collect(),
    }
}

fn text(t: &str) -> XmlEvent {
    XmlEvent::Text(t.to_string())
}

#[test]
fn end_to_end_example() {
    let mut a = Element::from_str(
        "<Data count=\"3\"><Ivan lastname=\"Petrov\">Hello, DOM navigation</Ivan></Data>",
    )
    .ok()
    .unwrap();
    assert_eq!(a.tag(), "Data");
    assert_eq!(a.attributes().get("count").unwrap().value, "3");
    let ivan = a.pop_child().unwrap();
    assert_eq!(ivan.tag(), "Ivan");
    assert_eq!(ivan.attributes().get("lastname").unwrap().value, "Petrov");
    assert_eq!(ivan.text(), Some("Hello, DOM navigation"));
    assert!(a.pop_child().is_none());
    assert_eq!(a.attributes().get("count").unwrap().value, "3");
}

#[test]
fn attribute_fidelity() {
    let e = Element::from_str("<e a=\"1\" b=\"2\"></e>").ok().unwrap();
    assert_eq!(e.attributes().len(), 2);
    assert_eq!(e.attributes().get("a").unwrap().value, "1");
    assert_eq!(e.attributes().get("b").unwrap().value, "2");
    assert!(e.attributes().get("c").is_none());
}

#[test]
fn nesting_and_sibling_order_kept() {
    let mut root = Element::from_str("<r><a><a1></a1><a2></a2></a><b></b><c>t</c></r>").ok().unwrap();
    assert_eq!(root.tag(), "r");
    let c = root.pop_child().unwrap();
    assert_eq!(c.tag(), "c");
    assert_eq!(c.text(), Some("t"));
    assert_eq!(root.pop_child().unwrap().tag(), "b");
    let mut a = root.pop_child().unwrap();
    assert_eq!(a.tag(), "a");
    assert!(root.pop_child().is_none());
    assert_eq!(a.pop_child().unwrap().tag(), "a2");
    assert_eq!(a.pop_child().unwrap().tag(), "a1");
    assert!(a.pop_child().is_none());
}

#[test]
fn round_trip_of_events() {
    let events = vec![
        start("r", vec![Some(("k", "v"))]),
        text("top"),
        start("x", vec![]),
        start("y", vec![]),
        XmlEvent::End,
        XmlEvent::End,
        start("z", vec![]),
        XmlEvent::End,
        XmlEvent::End,
    ];
    let mut r = build_from_events(events).ok().unwrap();
    assert_eq!(r.tag(), "r");
    assert_eq!(r.text(), Some("top"));
    assert_eq!(r.attributes().get("k").unwrap().value, "v");
    assert_eq!(r.pop_child().unwrap().tag(), "z");
    let mut x = r.pop_child().unwrap();
    assert_eq!(x.tag(), "x");
    assert_eq!(x.pop_child().unwrap().tag(), "y");
    assert!(x.pop_child().is_none());
    assert!(r.pop_child().is_none());
}

#[test]
fn text_overwrites_not_concatenates() {
    let events = vec![start("e", vec![]), text("foo"), text("bar"), XmlEvent::End, XmlEvent::Eof];
    let e = build_from_events(events).ok().unwrap();
    assert_eq!(e.text(), Some("bar"));
}

#[test]
fn text_overwrites_in_document() {
    let e = Element::from_str("<e>foo<!-- note -->bar</e>").ok().unwrap();
    assert_eq!(e.text(), Some("bar"));
}

#[test]
fn empty_document_fails() {
    assert!(matches!(Element::from_str(""), Err(BuildError::EmptyDocument)));
    assert!(matches!(Element::from_str("just text"), Err(BuildError::EmptyDocument)));
    assert!(matches!(build_from_events(vec![]), Err(BuildError::EmptyDocument)));
}

#[test]
fn skipped_bad_attribute_in_events() {
    let events = vec![start("e", vec![Some(("good", "1")), None, Some(("other", "2"))]), XmlEvent::End];
    let e = build_from_events(events).ok().unwrap();
    assert_eq!(e.attributes().len(), 2);
    assert_eq!(e.attributes().get("good").unwrap().value, "1");
    assert_eq!(e.attributes().get("other").unwrap().value, "2");
}

#[test]
fn skipped_bad_attribute_in_document() {
    let e = Element::from_str("<tag key='value' key='dup' another=''></tag>").ok().unwrap();
    assert_eq!(e.attributes().len(), 2);
    assert_eq!(e.attributes().get("key").unwrap().value, "value");
    assert_eq!(e.attributes().get("another").unwrap().value, "");
}

#[test]
fn later_attribute_event_replaces_earlier() {
    let events = vec![start("e", vec![Some(("a", "1")), Some(("a", "2"))]), XmlEvent::End];
    let e = build_from_events(events).ok().unwrap();
    assert_eq!(e.attributes().len(), 1);
    assert_eq!(e.attributes().get("a").unwrap().value, "2");
}

#[test]
fn unmatched_end_fails() {
    let events = vec![start("a", vec![]), XmlEvent::End, XmlEvent::End];
    assert!(matches!(build_from_events(events), Err(BuildError::UnmatchedEnd)));
}

#[test]
fn unclosed_element_fails() {
    assert!(matches!(Element::from_str("<a><b></b>"), Err(BuildError::UnclosedElement)));
}

#[test]
fn multiple_roots_fail() {
    assert!(matches!(Element::from_str("<a></a><b></b>"), Err(BuildError::MultipleRoots)));
}

#[test]
fn tokenizer_failure_is_handed_on() {
    assert!(matches!(Element::from_str("<a></b>"), Err(BuildError::Xml(_))));
}

#[test]
fn other_events_change_nothing() {
    let events = vec![XmlEvent::Other, start("a", vec![]), XmlEvent::Other, XmlEvent::End, XmlEvent::Other];
    let a = build_from_events(events).ok().unwrap();
    assert_eq!(a.tag(), "a");
    assert_eq!(a.text(), None);
}

#[test]
fn events_after_end_of_input_are_ignored() {
    let events = vec![start("a", vec![]), XmlEvent::End, XmlEvent::Eof, start("b", vec![])];
    let a = build_from_events(events).ok().unwrap();
    assert_eq!(a.tag(), "a");
}

#[test]
fn tree_builder_steps() {
    let mut b = TreeBuilder::new();
    assert_eq!(b.depth(), 0);
    assert!(b.feed(start("a", vec![])).is_none());
    assert_eq!(b.depth(), 1);
    assert!(b.feed(start("b", vec![])).is_none());
    assert_eq!(b.depth(), 2);
    assert!(b.feed(XmlEvent::End).is_none());
    assert_eq!(b.depth(), 1);
    assert!(b.feed(XmlEvent::End).is_none());
    assert_eq!(b.depth(), 0);
    let mut a = b.feed(XmlEvent::Eof).unwrap().ok().unwrap();
    assert_eq!(a.tag(), "a");
    assert_eq!(a.pop_child().unwrap().tag(), "b");
}

#[test]
fn decode_event_decodes_bytes() {
    let raw = RawEvent::Start {
        name: b"n\xffm".to_vec(),
        attributes: vec![Some((b"k".to_vec(), b"v\xfe".to_vec())), None],
        closed: false,
    };
    match decode_event(raw) {
        XmlEvent::Start { name, attributes } => {
            assert_eq!(name, "n\u{FFFD}m");
            assert_eq!(attributes.len(), 2);
            assert_eq!(attributes[0], Some(("k".to_string(), "v\u{FFFD}".to_string())));
            assert_eq!(attributes[1], None);
        }
        _ => panic!("expected a start event"),
    }
    match decode_event(RawEvent::Text(b"caf\xc3\xa9".to_vec())) {
        XmlEvent::Text(t) => assert_eq!(t, "caf\u{e9}"),
        _ => panic!("expected a text event"),
    }
    assert!(matches!(decode_event(RawEvent::End), XmlEvent::End));
    assert!(matches!(decode_event(RawEvent::Eof), XmlEvent::Eof));
    assert!(matches!(decode_event(RawEvent::Other), XmlEvent::Other));
}

#[test]
fn self_closing_elements_are_children() {
    let mut a = Element::from_str("<a><b k=\"1\"/><c></c></a>").ok().unwrap();
    assert_eq!(a.pop_child().unwrap().tag(), "c");
    let b = a.pop_child().unwrap();
    assert_eq!(b.tag(), "b");
    assert_eq!(b.attributes().get("k").unwrap().value, "1");
    assert_eq!(b.text(), None);
    assert!(a.pop_child().is_none());
}

#[test]
fn self_closing_root() {
    let r = Element::from_str("<only x=\"y\"/>").ok().unwrap();
    assert_eq!(r.tag(), "only");
    assert_eq!(r.attributes().get("x").unwrap().value, "y");
}

#[test]
fn empty_event_adds_a_child() {
    let events = vec![
        start("p", vec![]),
        XmlEvent::Empty { name: "e".to_string(), attributes: vec![Some(("a".to_string(), "1".to_string()))] },
        XmlEvent::End,
    ];
    let mut p = build_from_events(events).ok().unwrap();
    let e = p.pop_child().unwrap();
    assert_eq!(e.tag(), "e");
    assert_eq!(e.attributes().get("a").unwrap().value, "1");
    assert!(p.pop_child().is_none());
}

#[test]
fn decode_self_closing_event() {
    let raw = RawEvent::Start { name: b"e".to_vec(), attributes: vec![], closed: true };
    match decode_event(raw) {
        XmlEvent::Empty { name, attributes } => {
            assert_eq!(name, "e");
            assert!(attributes.is_empty());
        }
        _ => panic!("expected a self-closing event"),
    }
}

#[test]
fn text_around_a_child_keeps_the_last() {
    let mut e = Element::from_str("<e>before<c></c>after</e>").ok().unwrap();
    assert_eq!(e.text(), Some("after"));
    assert_eq!(e.pop_child().unwrap().text(), None);
}

#[test]
fn local_names_drop_prefixes() {
    let a = Element::from_str("<ns:a ns:k=\"v\"></ns:a>").ok().unwrap();
    assert_eq!(a.tag(), "a");
    assert_eq!(a.attributes().get("ns:k").unwrap().value, "v");
}
