use uml::parser::ast::{Attribute, Class, Diagram};
use uml::parser::parse::{attribute, attributes, class, class_body, parse};

fn attr(name: &str, typ: &str) -> Attribute {
    Attribute {
        name: String::from(name),
        typ: String::from(typ),
    }
}

#[test]
fn attr_normal() {
    assert_eq!(attribute("a: A", 0), Some((4, attr("a", "A"))));
}

#[test]
fn attr_ws() {
    assert_eq!(attribute(" a : A ", 0), Some((7, attr("a", "A"))));
}

#[test]
fn attrs_normal() {
    assert_eq!(
        attributes("a: A; b: B", 0),
        (10, vec![attr("a", "A"), attr("b", "B")])
    );
}

#[test]
fn attrs_trailing_semi() {
    assert_eq!(
        attributes("a: A; b: B;", 0),
        (11, vec![attr("a", "A"), attr("b", "B")])
    );
}

#[test]
fn attrs_empty() {
    assert_eq!(attributes("", 0), (0, Vec::new()));
}

#[test]
fn attrs_ws() {
    assert_eq!(
        attributes(" a : A ; b : B ", 0),
        (15, vec![attr("a", "A"), attr("b", "B")])
    );
}

#[test]
fn class_body_normal() {
    assert_eq!(
        class_body("{ a: A; b: B }", 0),
        Some((14, vec![attr("a", "A"), attr("b", "B")]))
    );
}

#[test]
fn class_body_ws() {
    assert_eq!(
        class_body(" { a : A ; b : B } ", 0),
        Some((19, vec![attr("a", "A"), attr("b", "B")]))
    );
}

#[test]
fn class_normal() {
    assert_eq!(
        class("class A { a: A; b: B }", 0),
        Some((
            22,
            Class {
                name: String::from("A"),
                superclass: None,
                attributes: vec![attr("a", "A"), attr("b", "B")],
            }
        ))
    );
}

#[test]
fn class_ws() {
    assert_eq!(
        class(" class A { a : A ; b : B } ", 0),
        Some((
            27,
            Class {
                name: String::from("A"),
                superclass: None,
                attributes: vec![attr("a", "A"), attr("b", "B")],
            }
        ))
    );
}

#[test]
fn class_keyword_nows() {
    assert!(class(" classA { a : A ; b : B } ", 0).is_none());
}

#[test]
fn parse_normal() {
    assert_eq!(
        parse("class A { a: A; b: B } class B { a: A }"),
        Ok(Diagram {
            classes: vec![
                Class {
                    name: String::from("A"),
                    superclass: None,
                    attributes: vec![attr("a", "A"), attr("b", "B")],
                },
                Class {
                    name: String::from("B"),
                    superclass: None,
                    attributes: vec![attr("a", "A")],
                },
            ],
        })
    );
}

#[test]
fn parse_nows() {
    assert_eq!(
        parse("class A{a:A;b:B}class B{a:A}"),
        Ok(Diagram {
            classes: vec![
                Class {
                    name: String::from("A"),
                    superclass: None,
                    attributes: vec![attr("a", "A"), attr("b", "B")],
                },
                Class {
                    name: String::from("B"),
                    superclass: None,
                    attributes: vec![attr("a", "A")],
                },
            ],
        })
    );
}

#[test]
fn parse_empty() {
    assert_eq!(parse(""), Ok(Diagram { classes: Vec::new() }));
}

#[test]
fn parse_ws_only() {
    assert_eq!(parse(" \t\n "), Ok(Diagram { classes: Vec::new() }));
}

#[test]
fn invalid_input() {
    assert!(parse("asdf").is_err());
}

#[test]
fn extraneous_input() {
    assert!(parse("class A {} asdf").is_err());
}

#[test]
fn error_carries_offset_and_rest() {
    let e = parse("asdf").unwrap_err();
    assert_eq!(e.offset, 0);
    assert_eq!(e.rest, "asdf");

    let e = parse("class A {} asdf").unwrap_err();
    assert_eq!(e.offset, 11);
    assert_eq!(e.rest, "asdf");
}

#[test]
fn parse_superclass() {
    assert_eq!(
        parse("class A : B { a: A }"),
        Ok(Diagram {
            classes: vec![Class {
                name: String::from("A"),
                superclass: Some(String::from("B")),
                attributes: vec![attr("a", "A")],
            }],
        })
    );
}

#[test]
fn parse_empty_body_with_semicolon() {
    assert_eq!(
        parse("class A { ; }"),
        Ok(Diagram {
            classes: vec![Class {
                name: String::from("A"),
                superclass: None,
                attributes: Vec::new(),
            }],
        })
    );
}

#[test]
fn trailing_semicolon_is_insignificant() {
    assert_eq!(
        parse("class A {a: A; b: B}"),
        parse("class A {a: A; b: B;}")
    );
}

#[test]
fn non_ascii_identifier_is_rejected() {
    // Identifiers are ASCII letters and digits; anything else stops the
    // parse at its character offset.
    assert!(parse("class Ä {}").is_err());
    let e = parse("class A { café: X }").unwrap_err();
    assert_eq!(e.offset, 0);
}

#[test]
fn whitespace_is_insignificant() {
    let terse = parse("class A:S{x:X}class S{}");
    let airy = parse("  class  A\t:\nS  {  x  :  X  ;  }\n class S { } ");
    assert!(terse.is_ok());
    assert_eq!(terse, airy);
}
