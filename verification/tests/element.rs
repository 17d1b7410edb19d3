//! Element tree tests: parsing documents into trees, filtered child access
//! and attribute-map behaviour.

use xml::Element;

#[test]
fn test_get_children() {
    let elem: Element = "<a><b/><c/><b/></a>".parse().unwrap();
    let mut it = elem.get_children("b", None);
    let mut got: Vec<&Element> = Vec::new();
    while let Some(e) = it.next() {
        got.push(e);
    }
    assert_eq!(
        got,
        vec![
            &Element::new("b".to_owned(), None, vec![]),
            &Element::new("b".to_owned(), None, vec![])
        ],
    );
}

#[test]
fn test_get_child() {
    let elem: Element = "<a><b/><c/><b/></a>".parse().unwrap();
    assert_eq!(
        elem.get_child("b", None),
        Some(&Element::new("b".to_owned(), None, vec![])),
    );
}

#[test]
fn test_attribute_order_new() {
    let input_attributes = vec![
        ("href".to_owned(), None, "/".to_owned()),
        ("title".to_owned(), None, "Home".to_owned()),
        ("target".to_owned(), None, "_blank".to_owned()),
    ];

    // Run this 5 times to make it unlikely this test succeeds at random
    for _ in 0..5 {
        let elem = Element::new("a".to_owned(), None, input_attributes.clone());
        for (expected, actual) in input_attributes.iter().zip(elem.attributes) {
            assert_eq!(expected.0, (actual.0).0);
            assert_eq!(expected.1, (actual.0).1);
            assert_eq!(expected.2, actual.1);
        }
    }
}

#[test]
fn test_attribute_order_added() {
    let input_attributes = vec![
        ("href".to_owned(), None, "/".to_owned()),
        ("title".to_owned(), None, "Home".to_owned()),
        ("target".to_owned(), None, "_blank".to_owned()),
    ];

    // Run this 5 times to make it unlikely this test succeeds at random
    for _ in 0..5 {
        let mut elem = Element::new("a".to_owned(), None, vec![]);
        for attr in &input_attributes {
            elem.set_attribute(attr.0.clone(), attr.1.clone(), attr.2.clone());
        }
        for (expected, actual) in input_attributes.iter().zip(elem.attributes) {
            assert_eq!(expected.0, (actual.0).0);
            assert_eq!(expected.1, (actual.0).1);
            assert_eq!(expected.2, actual.1);
        }
    }
}

#[test]
fn set_attribute_replaces_in_place() {
    let mut elem = Element::new("a".to_owned(), None, vec![]);
    elem.set_attribute("x".to_owned(), None, "1".to_owned());
    elem.set_attribute("y".to_owned(), None, "2".to_owned());
    let old = elem.set_attribute("x".to_owned(), None, "3".to_owned());
    assert_eq!(old, Some("1".to_owned()));
    assert_eq!(elem.get_attribute("x", None), Some("3"));
    assert_eq!((elem.attributes[0].0).0, "x");
    assert_eq!((elem.attributes[1].0).0, "y");
}

#[test]
fn remove_attribute_returns_value() {
    let mut elem = Element::new(
        "a".to_owned(),
        None,
        vec![("x".to_owned(), None, "1".to_owned())],
    );
    assert_eq!(elem.remove_attribute("x", None), Some("1".to_owned()));
    assert_eq!(elem.remove_attribute("x", None), None);
    assert_eq!(elem.get_attribute("x", None), None);
}

#[test]
fn content_str_concatenates_text() {
    let elem: Element = "<a>x<b>y</b><!--nope-->z<![CDATA[w]]></a>".parse().unwrap();
    assert_eq!(elem.content_str(), "xyzw");
}

#[test]
fn children_append_in_order() {
    let mut elem = Element::new("a".to_owned(), None, vec![]);
    elem.text("one".to_owned());
    elem.comment("two".to_owned());
    elem.cdata("three".to_owned());
    elem.pi("four".to_owned());
    elem.tag(Element::new("b".to_owned(), None, vec![]));
    elem.tag_stay(Element::new("c".to_owned(), None, vec![]));
    assert_eq!(elem.children.len(), 6);
    assert_eq!(elem.content_str(), "onethree");
}

#[test]
fn escape_replaces_markup_characters() {
    assert_eq!(xml::escape("a<b&c>'d\""), "a&lt;b&amp;c&gt;&apos;d&quot;");
}
