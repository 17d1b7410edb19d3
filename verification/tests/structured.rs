//! Structured-value serializer tests: grouping of repeated tags, comment
//! and body entries, and the lone-text shortcut.

use xml::{map_collect, Element, Value};

fn entries(v: &Value) -> &Vec<(String, Value)> {
    match v {
        Value::Object(e) => e,
        other => panic!("expected an object, got {:?}", other),
    }
}

fn entry<'a>(v: &'a Value, key: &str) -> &'a Value {
    for (k, val) in entries(v) {
        if k == key {
            return val;
        }
    }
    panic!("no entry {}", key);
}

#[test]
fn grouping_cardinality() {
    let one: Element = "<r><dose>1</dose></r>".parse().unwrap();
    let v1 = one.to_value();
    assert!(matches!(entry(&v1, "dose"), Value::UInt(1)));

    let two: Element = "<r><dose>1</dose><x/><dose>2</dose></r>".parse().unwrap();
    let v2 = two.to_value();
    match entry(&v2, "dose") {
        Value::List(items) => {
            assert_eq!(items.len(), 2);
            assert!(matches!(items[0], Value::UInt(1)));
            assert!(matches!(items[1], Value::UInt(2)));
        },
        other => panic!("expected a sequence, got {:?}", other),
    }
}

#[test]
fn groups_keep_first_appearance_order() {
    let e: Element = "<r><b>1</b><a>2</a><b>3</b></r>".parse().unwrap();
    let v = e.to_value();
    let es = entries(&v);
    assert_eq!(es.len(), 2);
    assert_eq!(es[0].0, "b");
    assert_eq!(es[1].0, "a");
}

#[test]
fn lone_text_is_type_guessed() {
    let e: Element = "<r> 41 </r>".parse().unwrap();
    assert!(matches!(e.to_value(), Value::UInt(41)));
    let f: Element = "<r>true</r>".parse().unwrap();
    assert!(matches!(f.to_value(), Value::Bool(true)));
    let g: Element = "<r>plain</r>".parse().unwrap();
    match g.to_value() {
        Value::Str(t) => assert_eq!(t, "plain"),
        other => panic!("expected a string, got {:?}", other),
    }
}

#[test]
fn several_texts_stay_raw() {
    let e: Element = "<r>200 MG<b/>second</r>".parse().unwrap();
    let v = e.to_value();
    match entry(&v, "_body") {
        Value::List(items) => {
            assert_eq!(items.len(), 2);
            assert!(matches!(&items[0], Value::Str(t) if t == "200 MG"));
            assert!(matches!(&items[1], Value::Str(t) if t == "second"));
        },
        other => panic!("expected a sequence, got {:?}", other),
    }
}

#[test]
fn comments_and_body_entries() {
    let e: Element = "<r><!--one--> note </r>".parse().unwrap();
    let v = e.to_value();
    assert!(matches!(entry(&v, "_comment"), Value::Str(t) if t == "one"));
    assert!(matches!(entry(&v, "_body"), Value::Str(t) if t == "note"));

    let f: Element = "<r><!--one--><!--two--><b/></r>".parse().unwrap();
    let w = f.to_value();
    match entry(&w, "_comment") {
        Value::List(items) => assert_eq!(items.len(), 2),
        other => panic!("expected a sequence, got {:?}", other),
    }
}

#[test]
fn attributes_are_guessed_into_entries() {
    let e: Element = "<r dose='200 MG' name='Aspirin' ok='true'/>".parse().unwrap();
    let v = e.to_value();
    assert!(matches!(entry(&v, "dose"), Value::Float(t) if t == "200"));
    assert!(matches!(entry(&v, "dose_unit"), Value::Str(t) if t == "mg"));
    assert!(matches!(entry(&v, "name"), Value::Str(t) if t == "Aspirin"));
    assert!(matches!(entry(&v, "ok"), Value::Bool(true)));
    assert_eq!(entries(&v).len(), 4);
}

#[test]
fn whitespace_only_text_is_dropped() {
    let e: Element = "<r>  <b/>  </r>".parse().unwrap();
    let v = e.to_value();
    assert!(matches!(entry(&v, "b"), Value::Unit));
    assert_eq!(entries(&v).len(), 1);
}

#[test]
fn map_collect_groups_repeated_keys() {
    let mut groups: Vec<(String, Vec<Value>)> = Vec::new();
    map_collect(&mut groups, "a".to_owned(), Value::UInt(1));
    map_collect(&mut groups, "b".to_owned(), Value::UInt(2));
    map_collect(&mut groups, "a".to_owned(), Value::UInt(3));
    assert_eq!(groups.len(), 2);
    assert_eq!(groups[0].0, "a");
    assert_eq!(groups[0].1.len(), 2);
    assert!(matches!(groups[0].1[0], Value::UInt(1)));
    assert!(matches!(groups[0].1[1], Value::UInt(3)));
    assert_eq!(groups[1].0, "b");
    assert_eq!(groups[1].1.len(), 1);
}
