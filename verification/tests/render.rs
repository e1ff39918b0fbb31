use std::collections::HashSet;
use uml::diagram::Diagram;
use uml::parser::parse::parse;
use uml::render_dot;

fn build(source: &str) -> Diagram {
    Diagram::build(&parse(source).unwrap())
}

#[test]
fn render_empty() {
    assert_eq!(render_dot("").unwrap(), "digraph diagram {\n}\n");
}

#[test]
fn render_single_class() {
    assert_eq!(
        render_dot("class A {}").unwrap(),
        "digraph diagram {\n    class_A[label=\"{ A |  }\"][shape=\"record\"];\n}\n"
    );
}

#[test]
fn render_attributes() {
    assert_eq!(
        render_dot("class A { x: X; y: Y }").unwrap(),
        "digraph diagram {\n    class_A[label=\"{ A | x: X\\ny: Y }\"][shape=\"record\"];\n}\n"
    );
}

#[test]
fn render_association() {
    assert_eq!(
        render_dot("class A { b: B } class B {}").unwrap(),
        "digraph diagram {\n\
         \x20   class_A[label=\"{ A |  }\"][shape=\"record\"];\n\
         \x20   class_B[label=\"{ B |  }\"][shape=\"record\"];\n\
         \x20   class_A -> class_B[label=\"b\"][arrowhead=\"vee\"];\n\
         }\n"
    );
}

#[test]
fn render_inheritance() {
    assert_eq!(
        render_dot("class A : B {} class B {}").unwrap(),
        "digraph diagram {\n\
         \x20   class_A[label=\"{ A |  }\"][shape=\"record\"];\n\
         \x20   class_B[label=\"{ B |  }\"][shape=\"record\"];\n\
         \x20   class_A -> class_B[label=\"\"][arrowhead=\"onormal\"];\n\
         }\n"
    );
}

#[test]
fn render_syntax_error() {
    let e = render_dot("classA {}").unwrap_err();
    assert_eq!(e.offset, 0);
    assert_eq!(e.rest, "classA {}");
}

#[test]
fn rendering_is_deterministic() {
    // The rendered text — and so the set of its lines — is a function of
    // the diagram alone.
    let source = "class A : S { b: B; x: X } class B { a: A } class S {}";
    let first = render_dot(source).unwrap();
    let second = render_dot(source).unwrap();
    assert_eq!(first, second);
    let first_lines: HashSet<&str> = first.lines().collect();
    let second_lines: HashSet<&str> = second.lines().collect();
    assert_eq!(first_lines, second_lines);
}

#[test]
fn whitespace_invariant_pipeline() {
    let terse = render_dot("class A:S{x:X}class S{}").unwrap();
    let airy = render_dot(" class  A :\tS {\n x : X ;\n} class S { } ").unwrap();
    assert_eq!(terse, airy);
}

#[test]
fn node_label_joins_attributes() {
    let d = build("class A { x: X; y: Y }");
    assert_eq!(d.node_label(0), "{ A | x: X\ny: Y }");
}

#[test]
fn node_label_single_attribute() {
    let d = build("class A { x: X }");
    assert_eq!(d.node_label(0), "{ A | x: X }");
}

#[test]
fn node_id_prefixes_name() {
    let d = build("class A {}");
    assert_eq!(d.node_id(0), "class_A");
}

#[test]
fn graph_walk_accessors() {
    let d = build("class A { b: B } class B {}");
    assert_eq!(d.graph_id(), "diagram");
    assert_eq!(d.node_shape(0), Some("record".to_string()));
    assert_eq!(d.nodes().len(), 2);
    assert_eq!(d.edges().len(), 1);
    let r = &d.edges()[0];
    assert_eq!(d.source(r).name, "A");
    assert_eq!(d.target(r).name, "B");
    assert_eq!(d.edge_label(r), "b");
    assert_eq!(d.edge_end_arrow(r), "vee");
}

#[test]
fn edge_styling_per_kind() {
    let d = build("class A : B { b: B } class B {}");
    let assoc = &d.edges()[0];
    let inherit = &d.edges()[1];
    assert_eq!(d.edge_label(assoc), "b");
    assert_eq!(d.edge_end_arrow(assoc), "vee");
    assert_eq!(d.edge_label(inherit), "");
    assert_eq!(d.edge_end_arrow(inherit), "onormal");
}
