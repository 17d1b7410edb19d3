//! Pipeline tests: chunked tokenization, tree building, namespace scoping,
//! rendering round trips and structured-value output.

use xml::{BuilderError, Element, ElementBuilder, ParseError, Parser, Value};

/// Feeds the chunks in order, draining all available events after each
/// feed, and returns the events' debug forms with their positions.
fn events_of(chunks: &[&str]) -> Vec<String> {
    let mut p = Parser::new();
    let mut out = Vec::new();
    for chunk in chunks {
        p.feed_str(chunk);
        loop {
            match p.next_event() {
                None => break,
                Some(Ok((ev, pos))) => out.push(format!("{:?} at {:?}", ev, pos)),
                Some(Err(e)) => panic!("unexpected lexical error: {:?}", e),
            }
        }
    }
    out
}

#[test]
fn chunk_split_invariance() {
    let doc = "<a x='1'>&lt;hi&gt; <b>t</b><!-- c --><![CDATA[z&z]]><?p i?></a>";
    let whole = events_of(&[doc]);
    assert!(whole.len() >= 7);
    for split in 1..doc.len() {
        if doc.is_char_boundary(split) {
            let parts = [&doc[..split], &doc[split..]];
            assert_eq!(events_of(&parts), whole, "split at {}", split);
        }
    }
}

#[test]
fn chunk_split_invariance_three_ways() {
    let doc = "<r><dose unit='mg'>200</dose><dose>3</dose></r>";
    let whole = events_of(&[doc]);
    for a in [3usize, 9, 17, 25, 33] {
        for b in [34usize, 40, 46] {
            let parts = [&doc[..a], &doc[a..b], &doc[b..]];
            assert_eq!(events_of(&parts), whole, "splits at {} and {}", a, b);
        }
    }
}

#[test]
fn round_trip_rendering() {
    let docs = [
        "<a/>",
        "<a x='1' y='two'><b>text</b><!--note--><![CDATA[raw]]><?pi data?></a>",
        "<a xmlns='urn:x'><b><c/></b></a>",
        "<a>one&amp;two&lt;three&gt;</a>",
    ];
    for doc in docs {
        let elem: Element = doc.parse().unwrap();
        let text = elem.to_xml_string().unwrap();
        let again: Element = text.parse().unwrap();
        assert_eq!(elem, again, "round trip of {} via {}", doc, text);
        assert_eq!(text, again.to_xml_string().unwrap());
    }
}

#[test]
fn namespace_scoping_child_binding_invisible_outside() {
    // The prefix bound on b is visible to b's descendants...
    let elem: Element = "<a><b xmlns:p='urn:p'><p:c/></b></a>".parse().unwrap();
    let b = elem.get_child("b", None).unwrap();
    let c = b.get_child("c", Some("urn:p")).unwrap();
    assert_eq!(c.ns.as_deref(), Some("urn:p"));
    // ...but not to a following sibling of b.
    let err = "<a><b xmlns:p='urn:p'/><p:c/></a>".parse::<Element>().unwrap_err();
    assert!(matches!(err, BuilderError::UnboundPrefix), "got {:?}", err);
}

#[test]
fn namespace_shadowing_inner_binding_wins() {
    let elem: Element = "<a xmlns:p='urn:outer'><b xmlns:p='urn:inner'><p:c/></b><p:d/></a>"
        .parse()
        .unwrap();
    let b = elem.get_child("b", None).unwrap();
    assert!(b.get_child("c", Some("urn:inner")).is_some());
    assert!(elem.get_child("d", Some("urn:outer")).is_some());
}

#[test]
fn default_namespace_applies_to_unprefixed() {
    let elem: Element = "<a xmlns='urn:x'><b/></a>".parse().unwrap();
    assert_eq!(elem.ns.as_deref(), Some("urn:x"));
    let b = elem.get_child("b", Some("urn:x")).unwrap();
    assert_eq!(b.ns.as_deref(), Some("urn:x"));
}

#[test]
fn builder_mismatch_detection() {
    let err = "<a><b></a>".parse::<Element>().unwrap_err();
    match err {
        BuilderError::MismatchedTag(expected, found) => {
            assert_eq!(expected, "b");
            assert_eq!(found, "a");
        },
        other => panic!("expected a tag mismatch, got {:?}", other),
    }
}

#[test]
fn builder_mismatch_yields_no_element() {
    let mut p = Parser::new();
    let mut b = ElementBuilder::new();
    p.feed_str("<a><b></a>");
    let mut completed = 0;
    let mut failed = false;
    loop {
        match p.next_event() {
            None => break,
            Some(Ok((ev, _))) => match b.handle_event(ev) {
                Some(Ok(_)) => completed += 1,
                Some(Err(_)) => {
                    failed = true;
                    break;
                },
                None => {},
            },
            Some(Err(e)) => panic!("unexpected lexical error: {:?}", e),
        }
    }
    assert!(failed);
    assert_eq!(completed, 0);
}

#[test]
fn empty_element_equivalence() {
    let short: Element = "<a/>".parse().unwrap();
    let long: Element = "<a></a>".parse().unwrap();
    assert_eq!(short, long);
    assert!(matches!(short.to_value(), Value::Unit));
    assert!(matches!(long.to_value(), Value::Unit));
}

#[test]
fn builder_errors_on_bad_input() {
    assert!(matches!(
        "junk<a/>".parse::<Element>().unwrap_err(),
        BuilderError::UnexpectedCharacterData
    ));
    assert!(matches!("   ".parse::<Element>().unwrap_err(), BuilderError::NoElement));
    assert!(matches!("<a>".parse::<Element>().unwrap_err(), BuilderError::NoElement));
    assert!(matches!("<p:a/>".parse::<Element>().unwrap_err(), BuilderError::UnboundPrefix));
    match "<a xmlns:p='u' xmlns:q='u' p:x='1' q:x='2'/>".parse::<Element>().unwrap_err() {
        BuilderError::DuplicateAttribute(k) => assert_eq!(k, "x"),
        other => panic!("expected a duplicate attribute, got {:?}", other),
    }
}

#[test]
fn whitespace_between_top_level_elements_is_ignored() {
    let mut p = Parser::new();
    let mut b = ElementBuilder::new();
    p.feed_str("  <a/>  ");
    let mut done: Vec<Element> = Vec::new();
    loop {
        match p.next_event() {
            None => break,
            Some(Ok((ev, _))) => {
                if let Some(r) = b.handle_event(ev) {
                    done.push(r.unwrap());
                }
            },
            Some(Err(e)) => panic!("unexpected lexical error: {:?}", e),
        }
    }
    assert_eq!(done.len(), 1);
    assert_eq!(done[0].name, "a");
}

#[test]
fn lexical_errors_carry_positions() {
    let mut p = Parser::new();
    p.feed_str("<a>\n bad&ref;</a>");
    let first = p.next_event().unwrap().unwrap();
    assert_eq!((first.1.line, first.1.col), (1, 1));
    let err: ParseError = p.next_event().unwrap().unwrap_err();
    assert_eq!(err.pos.line, 2);
    let mut q = Parser::new();
    q.feed_str("<!DOCTYPE html>");
    assert!(q.next_event().unwrap().is_err());
}

#[test]
fn entity_references_decode() {
    let elem: Element = "<a k='&quot;&apos;'>&lt;&amp;&gt;&#65;&#x42;</a>".parse().unwrap();
    assert_eq!(elem.content_str(), "<&>AB");
    assert_eq!(elem.get_attribute("k", None), Some("\"'"));
}

#[test]
fn character_references_cover_all_scalar_values() {
    let elem: Element = "<a>&#233;&#x1F600;&#x10FFFF;</a>".parse().unwrap();
    assert_eq!(elem.content_str(), "\u{e9}\u{1F600}\u{10FFFF}");
    // A surrogate code point is not a scalar value.
    let mut p = Parser::new();
    p.feed_str("<a>&#xD800;</a>");
    assert!(p.next_event().unwrap().is_ok());
    assert!(p.next_event().unwrap().is_err());
    // Neither is anything past the last code point.
    let mut q = Parser::new();
    q.feed_str("<a>&#x110000;</a>");
    assert!(q.next_event().unwrap().is_ok());
    assert!(q.next_event().unwrap().is_err());
}

#[test]
fn incomplete_input_waits_for_more() {
    let mut p = Parser::new();
    p.feed_str("<a>text");
    let first = p.next_event().unwrap().unwrap();
    assert!(format!("{:?}", first.0).starts_with("ElementStart"));
    // The text may still grow until a tag opener arrives.
    assert!(p.next_event().is_none());
    p.feed_str("</a");
    let second = p.next_event().unwrap().unwrap();
    assert!(format!("{:?}", second.0).starts_with("Characters"));
    // The end tag is still incomplete.
    assert!(p.next_event().is_none());
    p.feed_str(">");
    let third = p.next_event().unwrap().unwrap();
    assert!(format!("{:?}", third.0).starts_with("ElementEnd"));
}

#[test]
fn self_closing_tag_emits_both_halves() {
    let events = events_of(&["<a/>"]);
    assert_eq!(events.len(), 2);
    assert!(events[0].starts_with("ElementStart"));
    assert!(events[1].starts_with("ElementEnd"));
}

#[test]
fn render_emits_declarations_and_escapes() {
    let elem: Element = "<a xmlns='urn:x'><b/></a>".parse().unwrap();
    assert_eq!(elem.to_xml_string().unwrap(), "<a xmlns='urn:x'><b/></a>");
    let mut e2 = Element::new("a".to_owned(), None, vec![]);
    e2.text("x<y&z".to_owned());
    assert_eq!(e2.to_xml_string().unwrap(), "<a>x&lt;y&amp;z</a>");
    let e3 = Element::new(
        "a".to_owned(),
        None,
        vec![("k".to_owned(), None, "it's".to_owned())],
    );
    assert_eq!(e3.to_xml_string().unwrap(), "<a k='it&apos;s'/>");
}

#[test]
fn render_fails_on_unbound_namespace() {
    let mut elem = Element::new("a".to_owned(), None, vec![]);
    elem.ns = Some("urn:nowhere".to_owned());
    assert!(elem.to_xml_string().is_err());
}
