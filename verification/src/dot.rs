//! Rendering a resolved diagram as a DOT graph description.
//!
//! Each class becomes one `record`-shaped node whose label lists the class
//! name and its primitive attributes; each relation becomes one edge,
//! drawn with a plain `vee` arrowhead and the attribute's name as label
//! for an association, and with an open triangular `onormal` arrowhead and
//! no label for an inheritance. The text is emitted one line per node and
//! per edge, so the whole output is a function of the diagram alone.

use vstd::prelude::*;

verus! {

use crate::diagram::{names_of, Class, Diagram, Relation, Relationship};
use crate::diagram::{ClassView, DiagramView, RelationView, RelationshipView};
use crate::parser::ast::AttributeView;

/// The items' text with the separator between consecutive items; what
/// joining a list of text fragments yields.
pub open spec fn spec_join(items: Seq<Seq<char>>, sep: Seq<char>) -> Seq<char>
    decreases items.len(),
{
    if items.len() == 0 {
        Seq::empty()
    } else if items.len() == 1 {
        items[0]
    } else {
        items[0] + sep + spec_join(items.drop_first(), sep)
    }
}

/// Relies on itertools::join: it writes the items' text in order with the
/// separator between consecutive items, and yields an empty string for no
/// items.
#[verifier::external_body]
fn join_with(items: &Vec<String>, sep: &str) -> (r: String)
    ensures
        r@ == spec_join(names_of(items@), sep@),
{
    itertools::join(items.iter(), sep)
}

/// The node identifier of a class: its name behind a fixed prefix.
pub open spec fn spec_node_id(name: Seq<char>) -> Seq<char> {
    "class_"@ + name
}

/// One attribute as a label line.
pub open spec fn spec_attr_line(a: AttributeView) -> Seq<char> {
    a.name + ": "@ + a.typ
}

/// A class's label: its name and its attribute lines.
pub open spec fn spec_node_label(c: ClassView) -> Seq<char> {
    "{ "@ + c.name + " | "@ + spec_join(
        c.attributes.map_values(|a: AttributeView| spec_attr_line(a)),
        "\n"@,
    ) + " }"@
}

/// A class's output line. The label's line breaks are emitted as the
/// two-character escape `\n`, as the DOT grammar asks, so each node stays
/// on one output line.
pub open spec fn spec_node_line(c: ClassView) -> Seq<char> {
    "    "@ + spec_node_id(c.name) + "[label=\"{ "@ + c.name + " | "@ + spec_join(
        c.attributes.map_values(|a: AttributeView| spec_attr_line(a)),
        "\\n"@,
    ) + " }\"][shape=\"record\"];"@
}

/// An edge's label: the attribute name of an association, nothing for an
/// inheritance.
pub open spec fn spec_edge_label(k: RelationshipView) -> Seq<char> {
    match k {
        RelationshipView::Association { attribute_name } => attribute_name,
        RelationshipView::Inheritance => ""@,
    }
}

/// An edge's arrowhead: plain for an association, open triangular for an
/// inheritance.
pub open spec fn spec_edge_arrow(k: RelationshipView) -> Seq<char> {
    match k {
        RelationshipView::Association { .. } => "vee"@,
        RelationshipView::Inheritance => "onormal"@,
    }
}

/// A relation's output line.
pub open spec fn spec_edge_line(d: DiagramView, r: RelationView) -> Seq<char> {
    "    "@ + spec_node_id(d.classes[r.source].name) + " -> "@ + spec_node_id(
        d.classes[r.target].name,
    ) + "[label=\""@ + spec_edge_label(r.kind) + "\"][arrowhead=\""@ + spec_edge_arrow(r.kind)
        + "\"];"@
}

/// The whole DOT text of a diagram: the opening line, one line per class,
/// one line per relation, the closing line. Deterministic: the text, and
/// so the set of its lines, is a function of the diagram alone.
pub open spec fn spec_render(d: DiagramView) -> Seq<char> {
    "digraph diagram {\n"@ + d.classes.map_values(|c: ClassView| spec_node_line(c) + "\n"@).flatten()
        + d.relations.map_values(|r: RelationView| spec_edge_line(d, r) + "\n"@).flatten()
        + "}\n"@
}

impl Diagram {
    /// The identifier of the rendered graph.
    pub fn graph_id(&self) -> (r: String)
        ensures
            r@ == "diagram"@,
    {
        "diagram".to_owned()
    }

    /// The attribute label lines of one class.
    fn attr_lines(&self, i: usize) -> (r: Vec<String>)
        requires
            i < self@.classes.len(),
        ensures
            names_of(r@) == self@.classes[i as int].attributes.map_values(
                |a: AttributeView| spec_attr_line(a),
            ),
    {
        let class = &self.classes[i];
        let ghost attrs = self@.classes[i as int].attributes;
        let n = class.attributes.len();
        let mut lines: Vec<String> = Vec::new();
        let mut t: usize = 0;
        assert(names_of(lines@) =~= attrs.take(0).map_values(|a: AttributeView| spec_attr_line(a)));
        while t < n
            invariant
                t <= n,
                n == class.attributes@.len(),
                attrs == class@.attributes,
                names_of(lines@) == attrs.take(t as int).map_values(
                    |a: AttributeView| spec_attr_line(a),
                ),
            decreases n - t,
        {
            let a = &class.attributes[t];
            assert(a@ == attrs[t as int]);
            let mut line = a.name.clone();
            line.append(": ");
            line.append(a.typ.as_str());
            assert(line@ == spec_attr_line(attrs[t as int]));
            let ghost prev = names_of(lines@);
            lines.push(line);
            proof {
                assert(names_of(lines@) =~= prev.push(spec_attr_line(attrs[t as int])));
                assert(attrs.take(t + 1) =~= attrs.take(t as int).push(attrs[t as int]));
                assert(names_of(lines@) =~= attrs.take(t + 1).map_values(
                    |a: AttributeView| spec_attr_line(a),
                ));
            }
            t = t + 1;
        }
        assert(attrs.take(n as int) =~= attrs);
        lines
    }

    /// The node identifier of one class.
    pub fn node_id(&self, i: usize) -> (r: String)
        requires
            i < self@.classes.len(),
        ensures
            r@ == spec_node_id(self@.classes[i as int].name),
    {
        let mut r = "class_".to_owned();
        r.append(self.classes[i].name.as_str());
        r
    }

    /// The label of one class: its name and its attribute lines, one per
    /// line.
    pub fn node_label(&self, i: usize) -> (r: String)
        requires
            i < self@.classes.len(),
        ensures
            r@ == spec_node_label(self@.classes[i as int]),
    {
        let lines = self.attr_lines(i);
        let joined = join_with(&lines, "\n");
        let mut r = "{ ".to_owned();
        r.append(self.classes[i].name.as_str());
        r.append(" | ");
        r.append(joined.as_str());
        r.append(" }");
        r
    }

    /// The shape every class node is drawn with.
    pub fn node_shape(&self, _i: usize) -> (r: Option<String>)
        ensures
            match r {
                Some(s) => s@ == "record"@,
                None => false,
            },
    {
        Some("record".to_owned())
    }

    /// The label of one relation's edge.
    pub fn edge_label(&self, r: &Relation) -> (l: String)
        ensures
            l@ == spec_edge_label(r@.kind),
    {
        match &r.kind {
            Relationship::Association { attribute_name } => attribute_name.clone(),
            Relationship::Inheritance => "".to_owned(),
        }
    }

    /// The arrowhead one relation's edge ends with.
    pub fn edge_end_arrow(&self, r: &Relation) -> (a: String)
        ensures
            a@ == spec_edge_arrow(r@.kind),
    {
        match &r.kind {
            Relationship::Association { .. } => "vee".to_owned(),
            Relationship::Inheritance => "onormal".to_owned(),
        }
    }

    /// The nodes of the rendered graph: the class arena.
    pub fn nodes(&self) -> (r: &Vec<Class>)
        ensures
            r@ == self.classes@,
    {
        &self.classes
    }

    /// The edges of the rendered graph: the relations.
    pub fn edges(&self) -> (r: &Vec<Relation>)
        ensures
            r@ == self.relations@,
    {
        &self.relations
    }

    /// The class a relation starts at.
    pub fn source<'a>(&'a self, r: &Relation) -> (c: &'a Class)
        requires
            r.source < self@.classes.len(),
        ensures
            c@ == self@.classes[r.source as int],
    {
        &self.classes[r.source]
    }

    /// The class a relation points at.
    pub fn target<'a>(&'a self, r: &Relation) -> (c: &'a Class)
        requires
            r.target < self@.classes.len(),
        ensures
            c@ == self@.classes[r.target as int],
    {
        &self.classes[r.target]
    }
}

/// Renders a diagram as DOT text: the graph header, one node line per
/// class, one edge line per relation, and the closing brace.
pub fn render(d: &Diagram) -> (r: String)
    requires
        d@.wf(),
    ensures
        r@ == spec_render(d@),
{
    let ghost dv = d@;
    let mut out = "digraph diagram {\n".to_owned();

    let n = d.classes.len();
    let ghost node_lines = dv.classes.map_values(|c: ClassView| spec_node_line(c) + "\n"@);
    let mut i: usize = 0;
    assert(out@ =~= "digraph diagram {\n"@ + node_lines.take(0).flatten());
    while i < n
        invariant
            i <= n,
            n == d.classes@.len(),
            dv == d@,
            dv.wf(),
            node_lines == dv.classes.map_values(|c: ClassView| spec_node_line(c) + "\n"@),
            out@ == "digraph diagram {\n"@ + node_lines.take(i as int).flatten(),
        decreases n - i,
    {
        let id = d.node_id(i);
        assert(d.classes@[i as int]@ == dv.classes[i as int]);
        let lines = d.attr_lines(i);
        let joined = join_with(&lines, "\\n");
        out.append("    ");
        out.append(id.as_str());
        out.append("[label=\"{ ");
        out.append(d.classes[i].name.as_str());
        out.append(" | ");
        out.append(joined.as_str());
        out.append(" }\"][shape=\"record\"];");
        out.append("\n");
        proof {
            broadcast use Seq::lemma_flatten_push;

            assert(node_lines.take(i + 1) =~= node_lines.take(i as int).push(
                node_lines[i as int],
            ));
            assert(out@ =~= "digraph diagram {\n"@ + node_lines.take(i + 1).flatten());
        }
        i = i + 1;
    }
    assert(node_lines.take(n as int) =~= node_lines);

    let m = d.relations.len();
    let ghost edge_lines = dv.relations.map_values(|r: RelationView| spec_edge_line(dv, r) + "\n"@);
    let ghost nodes_done = "digraph diagram {\n"@ + node_lines.flatten();
    let mut k: usize = 0;
    assert(out@ =~= nodes_done + edge_lines.take(0).flatten());
    while k < m
        invariant
            k <= m,
            m == d.relations@.len(),
            dv == d@,
            dv.wf(),
            edge_lines == dv.relations.map_values(|r: RelationView| spec_edge_line(dv, r) + "\n"@),
            out@ == nodes_done + edge_lines.take(k as int).flatten(),
        decreases m - k,
    {
        let r = &d.relations[k];
        assert(r@ == dv.relations[k as int]);
        let src_id = d.node_id(r.source);
        let tgt_id = d.node_id(r.target);
        let label = d.edge_label(r);
        let arrow = d.edge_end_arrow(r);
        out.append("    ");
        out.append(src_id.as_str());
        out.append(" -> ");
        out.append(tgt_id.as_str());
        out.append("[label=\"");
        out.append(label.as_str());
        out.append("\"][arrowhead=\"");
        out.append(arrow.as_str());
        out.append("\"];");
        out.append("\n");
        proof {
            broadcast use Seq::lemma_flatten_push;

            assert(edge_lines.take(k + 1) =~= edge_lines.take(k as int).push(
                edge_lines[k as int],
            ));
            assert(out@ =~= nodes_done + edge_lines.take(k + 1).flatten());
        }
        k = k + 1;
    }
    assert(edge_lines.take(m as int) =~= edge_lines);

    out.append("}\n");
    proof {
        assert(out@ =~= spec_render(dv));
    }
    out
}

} // verus!
