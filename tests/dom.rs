use browsah::dom::{DOMAttributes, DOMContent, DOMElement};

#[test]
fn new_lowercases_the_name() {
    let e = DOMElement::new("DiV", None, vec![]);
    assert_eq!(e.name, "div");
    assert!(e.attributes.0.is_empty());
    assert_eq!(DOMAttributes::empty(), DOMAttributes(vec![]));
}

#[test]
fn attributes_and_children_by_name() {
    let mut attrs = DOMAttributes::empty();
    attrs.insert("id".to_string(), "b".to_string());
    attrs.insert("class".to_string(), "c".to_string());
    attrs.insert("id".to_string(), "a".to_string());
    assert_eq!(attrs.0.len(), 2);
    let e = DOMElement::new(
        "body",
        Some(attrs),
        vec![
            DOMContent::Element(DOMElement::new("p", None, vec![])),
            DOMContent::Text("t".to_string()),
            DOMContent::Element(DOMElement::new("div", None, vec![])),
            DOMContent::Element(DOMElement::new("P", None, vec![])),
        ],
    );
    assert_eq!(e.get_attribute("id"), Some(&"a".to_string()));
    assert_eq!(e.get_attribute("class"), Some(&"c".to_string()));
    assert_eq!(e.get_attribute("title"), None);
    let ps = e.get_elements_by_name("p", false);
    assert_eq!(ps.len(), 2);
    assert!(ps.iter().all(|p| p.name == "p"));
}
