use uml::diagram::{Diagram, Relationship};
use uml::parser::parse::parse;

fn build(source: &str) -> Diagram {
    Diagram::build(&parse(source).unwrap())
}

fn names(d: &Diagram) -> Vec<String> {
    d.classes.iter().map(|c| c.name.clone()).collect()
}

#[test]
fn class() {
    let d = build("class A { }");
    assert_eq!(names(&d), vec!["A"]);
    assert!(d.classes[0].attributes.is_empty());
    assert!(d.relations.is_empty());
}

#[test]
fn attr() {
    let d = build("class A { x: X; y: Y }");
    assert_eq!(names(&d), vec!["A"]);
    let attrs: Vec<(String, String)> = d.classes[0]
        .attributes
        .iter()
        .map(|a| (a.name.clone(), a.typ.clone()))
        .collect();
    assert_eq!(
        attrs,
        vec![
            ("x".to_string(), "X".to_string()),
            ("y".to_string(), "Y".to_string())
        ]
    );
    assert!(d.relations.is_empty());
}

#[test]
fn assoc() {
    let d = build("class A { b: B } class B {}");
    assert_eq!(names(&d), vec!["A", "B"]);
    // The attribute resolves to the declared class B: it is suppressed as
    // a plain attribute and appears exactly once as an association.
    assert!(d.classes[0].attributes.is_empty());
    assert!(d.classes[1].attributes.is_empty());
    assert_eq!(d.relations.len(), 1);
    let r = &d.relations[0];
    assert_eq!(
        r.kind,
        Relationship::Association {
            attribute_name: "b".to_string()
        }
    );
    assert_eq!(d.classes[r.source].name, "A");
    assert_eq!(d.classes[r.target].name, "B");
}

#[test]
fn superclass() {
    let d = build("class A : B {} class B {}");
    assert_eq!(names(&d), vec!["A", "B"]);
    assert_eq!(d.relations.len(), 1);
    let r = &d.relations[0];
    assert_eq!(r.kind, Relationship::Inheritance);
    assert_eq!(d.classes[r.source].name, "A");
    assert_eq!(d.classes[r.target].name, "B");
}

#[test]
fn unknown_superclass() {
    // A superclass that is never declared with a body still becomes a
    // known class: it gets a class of its own, with no attributes, and
    // the inheritance link points at it.
    let d = build("class A : Z {}");
    assert_eq!(names(&d), vec!["A", "Z"]);
    assert!(d.classes[1].attributes.is_empty());
    assert_eq!(d.relations.len(), 1);
    let r = &d.relations[0];
    assert_eq!(r.kind, Relationship::Inheritance);
    assert_eq!(d.classes[r.source].name, "A");
    assert_eq!(d.classes[r.target].name, "Z");
}

#[test]
fn example() {
    let d = build(
        "class Customer : Person { name: String; home: Address } \
         class Address { street: String; city: String } \
         class Order { customer: Customer; total: Money }",
    );
    // Declared classes first, in declaration order; then the name known
    // only as a superclass.
    assert_eq!(names(&d), vec!["Customer", "Address", "Order", "Person"]);
    // Attribute types that name known classes are suppressed; the rest
    // stay primitive.
    let customer_attrs: Vec<String> = d.classes[0]
        .attributes
        .iter()
        .map(|a| a.name.clone())
        .collect();
    assert_eq!(customer_attrs, vec!["name"]);
    let order_attrs: Vec<String> = d.classes[2]
        .attributes
        .iter()
        .map(|a| a.name.clone())
        .collect();
    assert_eq!(order_attrs, vec!["total"]);
    assert!(d.classes[3].attributes.is_empty());
    // Two associations and one inheritance.
    assert_eq!(d.relations.len(), 3);
    assert_eq!(
        d.relations[0].kind,
        Relationship::Association {
            attribute_name: "home".to_string()
        }
    );
    assert_eq!(d.classes[d.relations[0].source].name, "Customer");
    assert_eq!(d.classes[d.relations[0].target].name, "Address");
    assert_eq!(d.relations[1].kind, Relationship::Inheritance);
    assert_eq!(d.classes[d.relations[1].source].name, "Customer");
    assert_eq!(d.classes[d.relations[1].target].name, "Person");
    assert_eq!(
        d.relations[2].kind,
        Relationship::Association {
            attribute_name: "customer".to_string()
        }
    );
    assert_eq!(d.classes[d.relations[2].source].name, "Order");
    assert_eq!(d.classes[d.relations[2].target].name, "Customer");
}

#[test]
fn forward_reference() {
    // A class may use another declared later in the source.
    let d = build("class A { b: B } class B { a: A }");
    assert_eq!(names(&d), vec!["A", "B"]);
    assert!(d.classes[0].attributes.is_empty());
    assert!(d.classes[1].attributes.is_empty());
    assert_eq!(d.relations.len(), 2);
}

#[test]
fn self_reference() {
    // A class may reference itself, as an attribute type and as its own
    // superclass; both produce self-loops.
    let d = build("class A : A { me: A }");
    assert_eq!(names(&d), vec!["A"]);
    assert!(d.classes[0].attributes.is_empty());
    assert_eq!(d.relations.len(), 2);
    assert_eq!(d.relations[0].source, d.relations[0].target);
    assert_eq!(d.relations[1].source, d.relations[1].target);
    assert_eq!(d.relations[1].kind, Relationship::Inheritance);
}

#[test]
fn duplicate_declaration_last_wins() {
    // A name declared twice keeps one class, with the attributes of its
    // last declaration; every declaration still contributes relations.
    let d = build("class A { x: X } class A { y: Y; b: B } class B {}");
    assert_eq!(names(&d), vec!["A", "B"]);
    let attrs: Vec<String> = d.classes[0]
        .attributes
        .iter()
        .map(|a| a.name.clone())
        .collect();
    assert_eq!(attrs, vec!["y"]);
    assert_eq!(d.relations.len(), 1);
    assert_eq!(
        d.relations[0].kind,
        Relationship::Association {
            attribute_name: "b".to_string()
        }
    );
}

#[test]
fn empty_source_builds_empty_diagram() {
    let d = build("");
    assert!(d.classes.is_empty());
    assert!(d.relations.is_empty());
}
