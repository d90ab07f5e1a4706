use quick_xml_dom::{AttributeValue, Element};

#[test]
fn new_element_is_empty() {
    let mut e = Element::new("item");
    assert_eq!(e.tag(), "item");
    assert_eq!(e.text(), None);
    assert_eq!(e.attributes().len(), 0);
    assert!(e.pop_child().is_none());
}

#[test]
fn set_tag_replaces_and_accepts_empty() {
    let mut e = Element::new("a");
    e.set_tag("b");
    assert_eq!(e.tag(), "b");
    e.set_tag("");
    assert_eq!(e.tag(), "");
}

#[test]
fn set_text_replaces_and_clears() {
    let mut e = Element::new("a");
    e.set_text(Some("foo"));
    assert_eq!(e.text(), Some("foo"));
    e.set_text(Some("bar"));
    assert_eq!(e.text(), Some("bar"));
    e.set_text(None);
    assert_eq!(e.text(), None);
}

#[test]
fn set_attribute_inserts_and_overwrites() {
    let mut e = Element::new("a");
    e.set_attribute("a", "1");
    e.set_attribute("b", "2");
    assert_eq!(e.attributes().len(), 2);
    assert_eq!(e.attributes().get("a").unwrap().value, "1");
    assert_eq!(e.attributes().get("b").unwrap().value, "2");
    assert!(e.attributes().get("c").is_none());
    assert!(!e.attributes().contains_key("c"));
    e.set_attribute("a", "3");
    assert_eq!(e.attributes().len(), 2);
    assert_eq!(e.attributes().get("a").unwrap().value, "3");
    assert!(e.attributes().contains_key("a"));
}

#[test]
fn pop_child_is_last_in_first_out() {
    let mut e = Element::new("parent");
    e.append_child(Element::new("X"));
    e.append_child(Element::new("Y"));
    e.append_child(Element::new("Z"));
    assert_eq!(e.pop_child().unwrap().tag(), "Z");
    assert_eq!(e.pop_child().unwrap().tag(), "Y");
    assert_eq!(e.pop_child().unwrap().tag(), "X");
    assert!(e.pop_child().is_none());
    assert_eq!(e.tag(), "parent");
}

#[test]
fn attribute_value_from_text() {
    let v = AttributeValue::from("hello");
    assert_eq!(v.value, "hello");
}


#[test]
fn attribute_entries_list_the_whole_map() {
    let mut e = Element::new("a");
    e.set_attribute("x", "1");
    e.set_attribute("y", "2");
    e.set_attribute("x", "3");
    let mut entries: Vec<(String, String)> =
        e.attributes().entries().iter().map(|(k, v)| (k.clone(), v.value.clone())).collect();
    entries.sort();
    assert_eq!(entries, vec![("x".to_string(), "3".to_string()), ("y".to_string(), "2".to_string())]);
}

#[test]
fn attribute_value_from_owned_string() {
    let v = AttributeValue::from(String::from("owned"));
    assert_eq!(v.value, "owned");
}
