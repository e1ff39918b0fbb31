//! The resolved diagram model and the builder that produces it.
//!
//! The builder consumes the syntax tree and resolves every name: the set of
//! known class names is the union of all declared class names and all
//! referenced superclass names. An attribute whose type names a known class
//! becomes an association relation instead of a plain attribute; a declared
//! superclass becomes an inheritance relation; a name known only as a
//! superclass becomes a class with no attributes. Classes are kept in one
//! arena, and relations address their endpoints by index into it, so one
//! name has exactly one class, however many relations touch it.
//!
//! Building is total: every syntactically valid syntax tree resolves. A
//! name declared more than once yields one class, with the attributes of
//! its last declaration, while every declaration contributes relations.

use vstd::prelude::*;

verus! {

use crate::parser::ast;
use crate::parser::ast::{is_ident, AttributeView};

/// An attribute kept on a class: its type did not resolve to a known class
/// name, so it is taken as primitive.
#[derive(Debug, PartialEq)]
pub struct Attribute {
    pub name: String,
    pub typ: String,
}

impl View for Attribute {
    type V = AttributeView;

    open spec fn view(&self) -> AttributeView {
        AttributeView { name: self.name@, typ: self.typ@ }
    }
}

/// The mathematical model of a resolved class.
#[verifier::ext_equal]
pub ghost struct ClassView {
    pub name: Seq<char>,
    pub attributes: Seq<AttributeView>,
}

/// A resolved class: its name and its primitive attributes, in declaration
/// order.
#[derive(Debug, PartialEq)]
pub struct Class {
    pub name: String,
    pub attributes: Vec<Attribute>,
}

impl View for Class {
    type V = ClassView;

    open spec fn view(&self) -> ClassView {
        ClassView { name: self.name@, attributes: self.attributes@.map_values(|a: Attribute| a@) }
    }
}

/// The mathematical model of a relation's kind.
#[verifier::ext_equal]
pub ghost enum RelationshipView {
    Association { attribute_name: Seq<char> },
    Inheritance,
}

/// What a relation means: an association carries the name of the attribute
/// that produced it; an inheritance edge carries nothing.
#[derive(Debug, PartialEq)]
pub enum Relationship {
    Association { attribute_name: String },
    Inheritance,
}

impl View for Relationship {
    type V = RelationshipView;

    open spec fn view(&self) -> RelationshipView {
        match self {
            Relationship::Association { attribute_name } => RelationshipView::Association {
                attribute_name: attribute_name@,
            },
            Relationship::Inheritance => RelationshipView::Inheritance,
        }
    }
}

/// The mathematical model of a relation.
#[verifier::ext_equal]
pub ghost struct RelationView {
    pub kind: RelationshipView,
    pub source: int,
    pub target: int,
}

/// A directed edge of the diagram. `source` and `target` are indices into
/// the diagram's class arena, so relations that touch the same class share
/// its identity.
#[derive(Debug, PartialEq)]
pub struct Relation {
    pub kind: Relationship,
    pub source: usize,
    pub target: usize,
}

impl View for Relation {
    type V = RelationView;

    open spec fn view(&self) -> RelationView {
        RelationView { kind: self.kind@, source: self.source as int, target: self.target as int }
    }
}

/// The mathematical model of a resolved diagram.
#[verifier::ext_equal]
pub ghost struct DiagramView {
    pub classes: Seq<ClassView>,
    pub relations: Seq<RelationView>,
}

impl DiagramView {
    /// Every name is an identifier, and every relation's endpoints lie in
    /// the class arena.
    pub open spec fn wf(self) -> bool {
        &&& forall|i: int|
            0 <= i < self.classes.len() ==> is_ident((#[trigger] self.classes[i]).name)
        &&& forall|i: int, k: int|
            0 <= i < self.classes.len() && 0 <= k < self.classes[i].attributes.len() ==> (
            #[trigger] self.classes[i].attributes[k]).wf()
        &&& forall|i: int|
            0 <= i < self.relations.len() ==> {
                let r = #[trigger] self.relations[i];
                &&& 0 <= r.source < self.classes.len()
                &&& 0 <= r.target < self.classes.len()
                &&& match r.kind {
                    RelationshipView::Association { attribute_name } => is_ident(attribute_name),
                    RelationshipView::Inheritance => true,
                }
            }
    }
}

/// A resolved diagram: the class arena and the relations among its classes.
pub struct Diagram {
    pub classes: Vec<Class>,
    pub relations: Vec<Relation>,
}

impl View for Diagram {
    type V = DiagramView;

    open spec fn view(&self) -> DiagramView {
        DiagramView {
            classes: self.classes@.map_values(|c: Class| c@),
            relations: self.relations@.map_values(|r: Relation| r@),
        }
    }
}

/// True where some class declares this name.
pub open spec fn is_declared(cs: Seq<ast::ClassView>, n: Seq<char>) -> bool {
    exists|i: int| 0 <= i < cs.len() && (#[trigger] cs[i]).name == n
}

/// True where some class names this name as its superclass.
pub open spec fn is_super_ref(cs: Seq<ast::ClassView>, n: Seq<char>) -> bool {
    exists|i: int| 0 <= i < cs.len() && (#[trigger] cs[i]).superclass == Some(n)
}

/// A known class name: declared somewhere, or referenced as a superclass
/// somewhere. Only these names become classes of the diagram; an
/// attribute's type that is not among them stays a primitive attribute.
pub open spec fn is_known(cs: Seq<ast::ClassView>, n: Seq<char>) -> bool {
    is_declared(cs, n) || is_super_ref(cs, n)
}

/// Appends a name unless it is already present.
pub open spec fn push_new(names: Seq<Seq<char>>, n: Seq<char>) -> Seq<Seq<char>> {
    if names.contains(n) {
        names
    } else {
        names.push(n)
    }
}

/// The declared class names in order of first declaration, each once.
pub open spec fn declared_names(cs: Seq<ast::ClassView>) -> Seq<Seq<char>>
    decreases cs.len(),
{
    if cs.len() == 0 {
        Seq::empty()
    } else {
        push_new(declared_names(cs.drop_last()), cs.last().name)
    }
}

/// Appends, in order of first reference, each referenced superclass name
/// not yet present.
pub open spec fn add_super_names(names: Seq<Seq<char>>, cs: Seq<ast::ClassView>) -> Seq<Seq<char>>
    decreases cs.len(),
{
    if cs.len() == 0 {
        names
    } else {
        let prev = add_super_names(names, cs.drop_last());
        match cs.last().superclass {
            Some(sc) => push_new(prev, sc),
            None => prev,
        }
    }
}

/// All known class names, each once: the declared names in declaration
/// order, then the names known only as superclasses in reference order.
pub open spec fn known_names(cs: Seq<ast::ClassView>) -> Seq<Seq<char>> {
    add_super_names(declared_names(cs), cs)
}

/// The arena index of a known class name.
pub open spec fn known_index(cs: Seq<ast::ClassView>, n: Seq<char>) -> int {
    known_names(cs).index_of(n)
}

/// The last declaration of a declared name; later declarations of a name
/// shadow earlier ones.
pub open spec fn last_decl(cs: Seq<ast::ClassView>, n: Seq<char>) -> ast::ClassView
    decreases cs.len(),
{
    if cs.len() == 0 {
        arbitrary()
    } else if cs.last().name == n {
        cs.last()
    } else {
        last_decl(cs.drop_last(), n)
    }
}

/// The attributes among `attrs` whose type is not a known class name.
pub open spec fn primitive_attrs(cs: Seq<ast::ClassView>, attrs: Seq<AttributeView>) -> Seq<
    AttributeView,
> {
    attrs.filter(|a: AttributeView| !is_known(cs, a.typ))
}

/// The class built for a known name: a declared name keeps the primitive
/// attributes of its last declaration; a name known only as a superclass
/// gets no attributes.
pub open spec fn node_for(cs: Seq<ast::ClassView>, n: Seq<char>) -> ClassView {
    ClassView {
        name: n,
        attributes: if is_declared(cs, n) {
            primitive_attrs(cs, last_decl(cs, n).attributes)
        } else {
            Seq::empty()
        },
    }
}

/// The class arena: one class per known name, in arena order.
pub open spec fn build_classes(cs: Seq<ast::ClassView>) -> Seq<ClassView> {
    known_names(cs).map_values(|n: Seq<char>| node_for(cs, n))
}

/// The association relations one declaration contributes: one per
/// attribute whose type is a known class name, labelled with the
/// attribute's name.
pub open spec fn assoc_rels(cs: Seq<ast::ClassView>, c: ast::ClassView) -> Seq<RelationView> {
    c.attributes.filter(|a: AttributeView| is_known(cs, a.typ)).map_values(
        |a: AttributeView|
            RelationView {
                kind: RelationshipView::Association { attribute_name: a.name },
                source: known_index(cs, c.name),
                target: known_index(cs, a.typ),
            },
    )
}

/// All relations one declaration contributes: its associations, then, if
/// it names a superclass, one inheritance relation to it.
pub open spec fn class_rels(cs: Seq<ast::ClassView>, c: ast::ClassView) -> Seq<RelationView> {
    assoc_rels(cs, c) + match c.superclass {
        Some(sc) => seq![
            RelationView {
                kind: RelationshipView::Inheritance,
                source: known_index(cs, c.name),
                target: known_index(cs, sc),
            },
        ],
        None => Seq::empty(),
    }
}

/// The diagram's relations: what each declaration contributes, in
/// declaration order.
pub open spec fn build_relations(cs: Seq<ast::ClassView>) -> Seq<RelationView> {
    cs.map_values(|c: ast::ClassView| class_rels(cs, c)).flatten()
}

/// What the builder produces from a syntax tree.
pub open spec fn spec_build(d: ast::DiagramView) -> DiagramView {
    DiagramView { classes: build_classes(d.classes), relations: build_relations(d.classes) }
}

proof fn lemma_push_contains(s: Seq<Seq<char>>, x: Seq<char>, y: Seq<char>)
    ensures
        s.push(x).contains(y) <==> (s.contains(y) || x == y),
{
    if s.contains(y) {
        let i = choose|i: int| 0 <= i < s.len() && s[i] == y;
        assert(s.push(x)[i] == y);
    }
    if x == y {
        assert(s.push(x)[s.len() as int] == y);
    }
    if s.push(x).contains(y) {
        let i = choose|i: int| 0 <= i < s.push(x).len() && s.push(x)[i] == y;
        if i < s.len() {
            assert(s[i] == y);
        }
    }
}

/// A name is in the declared-name list exactly where some class declares it.
pub proof fn lemma_declared_names_contains(cs: Seq<ast::ClassView>, n: Seq<char>)
    ensures
        declared_names(cs).contains(n) <==> is_declared(cs, n),
    decreases cs.len(),
{
    if cs.len() == 0 {
    } else {
        let prev = declared_names(cs.drop_last());
        lemma_declared_names_contains(cs.drop_last(), n);
        lemma_push_contains(prev, cs.last().name, n);
        if is_declared(cs, n) {
            let i = choose|i: int| 0 <= i < cs.len() && cs[i].name == n;
            if i < cs.len() - 1 {
                assert(cs.drop_last()[i].name == n);
            }
        }
        if is_declared(cs.drop_last(), n) {
            let i = choose|i: int| 0 <= i < cs.drop_last().len() && cs.drop_last()[i].name == n;
            assert(cs[i].name == n);
        }
    }
}

/// A name is in the extended list exactly where it was already there or
/// some class names it as its superclass.
pub proof fn lemma_add_super_names_contains(
    names: Seq<Seq<char>>,
    cs: Seq<ast::ClassView>,
    n: Seq<char>,
)
    ensures
        add_super_names(names, cs).contains(n) <==> (names.contains(n) || is_super_ref(cs, n)),
    decreases cs.len(),
{
    if cs.len() == 0 {
    } else {
        let prev = add_super_names(names, cs.drop_last());
        lemma_add_super_names_contains(names, cs.drop_last(), n);
        match cs.last().superclass {
            Some(sc) => {
                lemma_push_contains(prev, sc, n);
            },
            None => {},
        }
        if is_super_ref(cs, n) {
            let i = choose|i: int| 0 <= i < cs.len() && cs[i].superclass == Some(n);
            if i < cs.len() - 1 {
                assert(cs.drop_last()[i].superclass == Some(n));
            }
        }
        if is_super_ref(cs.drop_last(), n) {
            let i = choose|i: int|
                0 <= i < cs.drop_last().len() && cs.drop_last()[i].superclass == Some(n);
            assert(cs[i].superclass == Some(n));
        }
    }
}

/// A name is known exactly where the arena has a class for it.
pub proof fn lemma_known_names_contains(cs: Seq<ast::ClassView>, n: Seq<char>)
    ensures
        known_names(cs).contains(n) <==> is_known(cs, n),
{
    lemma_declared_names_contains(cs, n);
    lemma_add_super_names_contains(declared_names(cs), cs, n);
}

proof fn lemma_push_new_distinct(names: Seq<Seq<char>>, x: Seq<char>)
    requires
        names.no_duplicates(),
    ensures
        push_new(names, x).no_duplicates(),
{
    if !names.contains(x) {
        assert forall|i: int, j: int|
            0 <= i < push_new(names, x).len() && 0 <= j < push_new(names, x).len() && i
                != j implies push_new(names, x)[i] != push_new(names, x)[j] by {
            if i < names.len() && j < names.len() {
            } else if i < names.len() {
                assert(names[i] == push_new(names, x)[i]);
            } else if j < names.len() {
                assert(names[j] == push_new(names, x)[j]);
            }
        }
    }
}

proof fn lemma_declared_names_distinct(cs: Seq<ast::ClassView>)
    ensures
        declared_names(cs).no_duplicates(),
    decreases cs.len(),
{
    if cs.len() > 0 {
        lemma_declared_names_distinct(cs.drop_last());
        lemma_push_new_distinct(declared_names(cs.drop_last()), cs.last().name);
    }
}

proof fn lemma_add_super_names_distinct(names: Seq<Seq<char>>, cs: Seq<ast::ClassView>)
    requires
        names.no_duplicates(),
    ensures
        add_super_names(names, cs).no_duplicates(),
    decreases cs.len(),
{
    if cs.len() > 0 {
        lemma_add_super_names_distinct(names, cs.drop_last());
        match cs.last().superclass {
            Some(sc) => {
                lemma_push_new_distinct(add_super_names(names, cs.drop_last()), sc);
            },
            None => {},
        }
    }
}

/// Every known name has exactly one class in the arena.
pub proof fn lemma_known_names_distinct(cs: Seq<ast::ClassView>)
    ensures
        known_names(cs).no_duplicates(),
{
    lemma_declared_names_distinct(cs);
    lemma_add_super_names_distinct(declared_names(cs), cs);
}

/// The arena index of a known name is in range, leads back to the name,
/// and is the only index that does.
pub proof fn lemma_known_index(cs: Seq<ast::ClassView>, n: Seq<char>)
    requires
        is_known(cs, n),
    ensures
        0 <= known_index(cs, n) < known_names(cs).len(),
        known_names(cs)[known_index(cs, n)] == n,
        forall|i: int|
            0 <= i < known_names(cs).len() && known_names(cs)[i] == n ==> i == known_index(cs, n),
{
    lemma_known_names_contains(cs, n);
    lemma_known_names_distinct(cs);
    let idx = known_index(cs, n);
    let i0 = choose|i: int| 0 <= i < known_names(cs).len() && known_names(cs)[i] == n;
    assert(0 <= idx < known_names(cs).len() && known_names(cs)[idx] == n);
}

/// The last declaration of a name is the one after which no class declares
/// the name again.
pub proof fn lemma_last_decl_char(cs: Seq<ast::ClassView>, n: Seq<char>, j: int)
    requires
        0 <= j < cs.len(),
        cs[j].name == n,
        forall|k: int| j < k < cs.len() ==> (#[trigger] cs[k]).name != n,
    ensures
        last_decl(cs, n) == cs[j],
    decreases cs.len(),
{
    if cs.last().name == n {
        assert(j == cs.len() - 1);
    } else {
        assert(j < cs.len() - 1);
        assert(cs.drop_last()[j] == cs[j]);
        assert forall|k: int| j < k < cs.drop_last().len() implies (#[trigger] cs.drop_last()[k]).name
            != n by {
            assert(cs.drop_last()[k] == cs[k]);
        }
        lemma_last_decl_char(cs.drop_last(), n, j);
    }
}

/// The last declaration of a declared name is one of the declarations.
pub proof fn lemma_last_decl_is_elem(cs: Seq<ast::ClassView>, n: Seq<char>)
    requires
        is_declared(cs, n),
    ensures
        exists|j: int| 0 <= j < cs.len() && cs[j] == last_decl(cs, n),
        last_decl(cs, n).name == n,
    decreases cs.len(),
{
    if cs.last().name == n {
        assert(cs[cs.len() - 1] == last_decl(cs, n));
    } else {
        let i = choose|i: int| 0 <= i < cs.len() && cs[i].name == n;
        assert(cs.drop_last()[i] == cs[i]);
        lemma_last_decl_is_elem(cs.drop_last(), n);
        let j = choose|j: int|
            0 <= j < cs.drop_last().len() && cs.drop_last()[j] == last_decl(cs.drop_last(), n);
        assert(cs[j] == last_decl(cs, n));
    }
}

/// The classes wear identifiers, and every relation's endpoints and label
/// are sound, whenever the syntax tree was well formed; so whatever the
/// parser accepts builds into a well-formed diagram.
pub proof fn lemma_spec_build_wf(d: ast::DiagramView)
    requires
        d.wf(),
    ensures
        spec_build(d).wf(),
{
    let cs = d.classes;
    let out = spec_build(d);
    let kn = known_names(cs);
    assert(out.classes.len() == kn.len());

    assert forall|i: int| 0 <= i < out.classes.len() implies is_ident(
        (#[trigger] out.classes[i]).name,
    ) by {
        lemma_known_name_is_ident(d, kn[i]);
    }
    assert forall|i: int, k: int|
        0 <= i < out.classes.len() && 0 <= k < out.classes[i].attributes.len() implies (
    #[trigger] out.classes[i].attributes[k]).wf() by {
        let n = kn[i];
        assert(out.classes[i] == node_for(cs, n));
        if is_declared(cs, n) {
            lemma_last_decl_is_elem(cs, n);
            let j = choose|j: int| 0 <= j < cs.len() && cs[j] == last_decl(cs, n);
            assert(cs[j].wf());
            let attrs = last_decl(cs, n).attributes;
            let pred = |a: AttributeView| !is_known(cs, a.typ);
            let e = attrs.filter(pred)[k];
            assert(attrs.filter(pred).contains(e));
            attrs.lemma_filter_contains_rev(pred, e);
            let m = choose|m: int| 0 <= m < attrs.len() && attrs[m] == e;
            assert(cs[j].attributes[m].wf());
        }
    }

    lemma_relations_prefix_wf(d, cs.len() as int);
    assert(cs.map_values(|c: ast::ClassView| class_rels(cs, c)).take(cs.len() as int) =~= cs
        .map_values(|c: ast::ClassView| class_rels(cs, c)));
}

/// Every known name is an identifier in a well-formed syntax tree.
proof fn lemma_known_name_is_ident(d: ast::DiagramView, n: Seq<char>)
    requires
        d.wf(),
        known_names(d.classes).contains(n),
    ensures
        is_ident(n),
{
    let cs = d.classes;
    lemma_known_names_contains(cs, n);
    if is_declared(cs, n) {
        let i = choose|i: int| 0 <= i < cs.len() && cs[i].name == n;
        assert(cs[i].wf());
    } else {
        let i = choose|i: int| 0 <= i < cs.len() && cs[i].superclass == Some(n);
        assert(cs[i].wf());
    }
}

/// Every relation contributed by the first `m` declarations is sound.
proof fn lemma_relations_prefix_wf(d: ast::DiagramView, m: int)
    requires
        d.wf(),
        0 <= m <= d.classes.len(),
    ensures
        ({
            let cs = d.classes;
            let rels = cs.map_values(|c: ast::ClassView| class_rels(cs, c)).take(m).flatten();
            forall|i: int|
                0 <= i < rels.len() ==> {
                    let r = #[trigger] rels[i];
                    &&& 0 <= r.source < known_names(cs).len()
                    &&& 0 <= r.target < known_names(cs).len()
                    &&& match r.kind {
                        RelationshipView::Association { attribute_name } => is_ident(
                            attribute_name,
                        ),
                        RelationshipView::Inheritance => true,
                    }
                }
        }),
    decreases m,
{
    broadcast use Seq::lemma_flatten_push;

    let cs = d.classes;
    let per_class = cs.map_values(|c: ast::ClassView| class_rels(cs, c));
    if m > 0 {
        lemma_relations_prefix_wf(d, m - 1);
        assert(per_class.take(m) =~= per_class.take(m - 1).push(per_class[m - 1]));
        let prev = per_class.take(m - 1).flatten();
        let here = per_class[m - 1];
        assert(per_class.take(m).flatten() == prev + here);
        lemma_class_rels_wf(d, m - 1);
        let rels = per_class.take(m).flatten();
        assert forall|i: int| 0 <= i < rels.len() implies {
            let r = #[trigger] rels[i];
            &&& 0 <= r.source < known_names(cs).len()
            &&& 0 <= r.target < known_names(cs).len()
            &&& match r.kind {
                RelationshipView::Association { attribute_name } => is_ident(attribute_name),
                RelationshipView::Inheritance => true,
            }
        } by {
            if i < prev.len() {
                assert(rels[i] == prev[i]);
            } else {
                assert(rels[i] == here[i - prev.len()]);
            }
        }
    }
}

/// Every relation one declaration contributes is sound.
proof fn lemma_class_rels_wf(d: ast::DiagramView, m: int)
    requires
        d.wf(),
        0 <= m < d.classes.len(),
    ensures
        ({
            let cs = d.classes;
            let rels = class_rels(cs, cs[m]);
            forall|i: int|
                0 <= i < rels.len() ==> {
                    let r = #[trigger] rels[i];
                    &&& 0 <= r.source < known_names(cs).len()
                    &&& 0 <= r.target < known_names(cs).len()
                    &&& match r.kind {
                        RelationshipView::Association { attribute_name } => is_ident(
                            attribute_name,
                        ),
                        RelationshipView::Inheritance => true,
                    }
                }
        }),
{
    let cs = d.classes;
    let c = cs[m];
    assert(c.wf());
    assert(is_declared(cs, c.name));
    lemma_known_index(cs, c.name);
    let pred = |a: AttributeView| is_known(cs, a.typ);
    let assoc = assoc_rels(cs, c);
    assert forall|i: int| 0 <= i < assoc.len() implies {
        let r = #[trigger] assoc[i];
        &&& 0 <= r.source < known_names(cs).len()
        &&& 0 <= r.target < known_names(cs).len()
        &&& match r.kind {
            RelationshipView::Association { attribute_name } => is_ident(attribute_name),
            RelationshipView::Inheritance => true,
        }
    } by {
        let a = c.attributes.filter(pred)[i];
        c.attributes.lemma_filter_pred(pred, i);
        assert(c.attributes.filter(pred).contains(a));
        c.attributes.lemma_filter_contains_rev(pred, a);
        let w = choose|w: int| 0 <= w < c.attributes.len() && c.attributes[w] == a;
        assert(c.attributes[w].wf());
        lemma_known_index(cs, a.typ);
    }
    match c.superclass {
        Some(sc) => {
            assert(is_super_ref(cs, sc));
            lemma_known_index(cs, sc);
            let rels = class_rels(cs, c);
            assert forall|i: int| 0 <= i < rels.len() implies {
                let r = #[trigger] rels[i];
                &&& 0 <= r.source < known_names(cs).len()
                &&& 0 <= r.target < known_names(cs).len()
                &&& match r.kind {
                    RelationshipView::Association { attribute_name } => is_ident(attribute_name),
                    RelationshipView::Inheritance => true,
                }
            } by {
                if i < assoc.len() {
                    assert(rels[i] == assoc[i]);
                }
            }
        },
        None => {
            assert(class_rels(cs, c) =~= assoc);
        },
    }
}

/// A name referenced as a superclass but never declared with a body still
/// has a class in the diagram, and every class of the diagram carrying
/// such a name has no attributes.
pub proof fn lemma_superclass_only_class_empty(d: ast::DiagramView, n: Seq<char>)
    requires
        is_super_ref(d.classes, n),
        !is_declared(d.classes, n),
    ensures
        exists|k: int|
            0 <= k < spec_build(d).classes.len() && (#[trigger] spec_build(d).classes[k]).name
                == n,
        forall|k: int|
            0 <= k < spec_build(d).classes.len() && (#[trigger] spec_build(d).classes[k]).name == n
                ==> spec_build(d).classes[k].attributes.len() == 0,
{
    let cs = d.classes;
    lemma_known_names_contains(cs, n);
    let kn = known_names(cs);
    let i = choose|i: int| 0 <= i < kn.len() && kn[i] == n;
    assert(spec_build(d).classes[i].name == n);
}

/// True where no two classes declare the same name.
pub open spec fn decl_names_distinct(cs: Seq<ast::ClassView>) -> bool {
    forall|i1: int, i2: int|
        0 <= i1 < i2 < cs.len() ==> (#[trigger] cs[i1]).name != (#[trigger] cs[i2]).name
}

/// The association relation that attribute `j` of declaration `i` yields.
pub open spec fn association_of(cs: Seq<ast::ClassView>, i: int, j: int) -> RelationView {
    RelationView {
        kind: RelationshipView::Association { attribute_name: cs[i].attributes[j].name },
        source: known_index(cs, cs[i].name),
        target: known_index(cs, cs[i].attributes[j].typ),
    }
}

/// How often a relation occurs among the diagram's relations.
pub open spec fn count_rel(rels: Seq<RelationView>, r: RelationView) -> int
    decreases rels.len(),
{
    if rels.len() == 0 {
        0
    } else {
        count_rel(rels.drop_last(), r) + if rels.last() == r {
            1int
        } else {
            0int
        }
    }
}

/// How often an attribute occurs in an attribute list.
pub open spec fn count_attr(attrs: Seq<AttributeView>, a: AttributeView) -> int
    decreases attrs.len(),
{
    if attrs.len() == 0 {
        0
    } else {
        count_attr(attrs.drop_last(), a) + if attrs.last() == a {
            1int
        } else {
            0int
        }
    }
}

proof fn lemma_count_rel_push(s: Seq<RelationView>, x: RelationView, r: RelationView)
    ensures
        count_rel(s.push(x), r) == count_rel(s, r) + if x == r {
            1int
        } else {
            0int
        },
{
    assert(s.push(x).drop_last() =~= s);
}

proof fn lemma_count_rel_add(s1: Seq<RelationView>, s2: Seq<RelationView>, r: RelationView)
    ensures
        count_rel(s1 + s2, r) == count_rel(s1, r) + count_rel(s2, r),
    decreases s2.len(),
{
    if s2.len() == 0 {
        assert(s1 + s2 =~= s1);
    } else {
        lemma_count_rel_add(s1, s2.drop_last(), r);
        assert((s1 + s2).drop_last() =~= s1 + s2.drop_last());
        assert((s1 + s2).last() == s2.last());
    }
}

proof fn lemma_count_rel_zero(s: Seq<RelationView>, r: RelationView)
    requires
        forall|k: int| 0 <= k < s.len() ==> s[k] != r,
    ensures
        count_rel(s, r) == 0,
    decreases s.len(),
{
    if s.len() > 0 {
        assert forall|k: int| 0 <= k < s.drop_last().len() implies s.drop_last()[k] != r by {
            assert(s.drop_last()[k] == s[k]);
        }
        lemma_count_rel_zero(s.drop_last(), r);
    }
}

proof fn lemma_count_attr_push(s: Seq<AttributeView>, x: AttributeView, a: AttributeView)
    ensures
        count_attr(s.push(x), a) == count_attr(s, a) + if x == a {
            1int
        } else {
            0int
        },
{
    assert(s.push(x).drop_last() =~= s);
}

proof fn lemma_count_attr_member(s: Seq<AttributeView>, j: int)
    requires
        0 <= j < s.len(),
    ensures
        count_attr(s, s[j]) >= 1,
    decreases s.len(),
{
    if j == s.len() - 1 {
        lemma_count_attr_nonneg(s.drop_last(), s[j]);
    } else {
        assert(s.drop_last()[j] == s[j]);
        lemma_count_attr_member(s.drop_last(), j);
    }
}

proof fn lemma_count_attr_nonneg(s: Seq<AttributeView>, a: AttributeView)
    ensures
        count_attr(s, a) >= 0,
    decreases s.len(),
{
    if s.len() > 0 {
        lemma_count_attr_nonneg(s.drop_last(), a);
    }
}

/// An attribute whose type is a known class name is suppressed
/// everywhere: no class of the built diagram carries it as a plain
/// attribute, whichever class declared it.
pub proof fn lemma_known_typed_attribute_suppressed(d: ast::DiagramView, a: AttributeView)
    requires
        is_known(d.classes, a.typ),
    ensures
        forall|k: int|
            0 <= k < spec_build(d).classes.len() ==> !(#[trigger] spec_build(
                d,
            ).classes[k].attributes.contains(a)),
{
    let cs = d.classes;
    let out = spec_build(d);
    let pred = |x: AttributeView| !is_known(cs, x.typ);
    assert forall|k: int| 0 <= k < out.classes.len() implies !(#[trigger] out.classes[k].attributes
        .contains(a)) by {
        let n = known_names(cs)[k];
        assert(out.classes[k] == node_for(cs, n));
        if is_declared(cs, n) {
            let attrs = last_decl(cs, n).attributes;
            if attrs.filter(pred).contains(a) {
                let w = choose|w: int|
                    0 <= w < attrs.filter(pred).len() && attrs.filter(pred)[w] == a;
                attrs.lemma_filter_pred(pred, w);
            }
        }
    }
}

/// The associations out of the first `t` attributes of declaration `i`
/// hold the relation of attribute `j` as often as those attributes equal
/// attribute `j`.
proof fn lemma_assoc_count_partial(cs: Seq<ast::ClassView>, i: int, j: int, t: int)
    requires
        0 <= i < cs.len(),
        0 <= j < cs[i].attributes.len(),
        is_known(cs, cs[i].attributes[j].typ),
        0 <= t <= cs[i].attributes.len(),
    ensures
        count_rel(assoc_rels_partial(cs, cs[i], t), association_of(cs, i, j)) == count_attr(
            cs[i].attributes.take(t),
            cs[i].attributes[j],
        ),
    decreases t,
{
    let c = cs[i];
    let a = c.attributes[j];
    let rel = association_of(cs, i, j);
    if t == 0 {
        assert(c.attributes.take(0) =~= Seq::<AttributeView>::empty());
        assert(assoc_rels_partial(cs, c, 0) =~= Seq::<RelationView>::empty());
    } else {
        lemma_assoc_count_partial(cs, i, j, t - 1);
        let x = c.attributes[t - 1];
        lemma_assoc_rels_partial_step(cs, c, t - 1);
        assert(c.attributes.take(t) =~= c.attributes.take(t - 1).push(x));
        lemma_count_attr_push(c.attributes.take(t - 1), x, a);
        if is_known(cs, x.typ) {
            let mkx = RelationView {
                kind: RelationshipView::Association { attribute_name: x.name },
                source: known_index(cs, c.name),
                target: known_index(cs, x.typ),
            };
            lemma_known_index(cs, x.typ);
            lemma_known_index(cs, a.typ);
            if mkx == rel {
                assert(known_names(cs)[known_index(cs, x.typ)] == x.typ);
                assert(x == a);
            }
            if x == a {
                assert(mkx == rel);
            }
            lemma_count_rel_push(assoc_rels_partial(cs, c, t - 1), mkx, rel);
        } else {
            assert(x != a);
        }
    }
}

/// A declaration other than `i` contributes no copy of attribute `j`'s
/// association, as long as class names are declared once.
proof fn lemma_class_rels_count_other(cs: Seq<ast::ClassView>, i: int, j: int, m: int)
    requires
        decl_names_distinct(cs),
        0 <= i < cs.len(),
        0 <= j < cs[i].attributes.len(),
        is_known(cs, cs[i].attributes[j].typ),
        0 <= m < cs.len(),
        m != i,
    ensures
        count_rel(class_rels(cs, cs[m]), association_of(cs, i, j)) == 0,
{
    let rel = association_of(cs, i, j);
    let rels = class_rels(cs, cs[m]);
    assert(is_declared(cs, cs[m].name));
    assert(is_declared(cs, cs[i].name));
    lemma_known_index(cs, cs[m].name);
    lemma_known_index(cs, cs[i].name);
    assert(cs[m].name != cs[i].name);
    assert forall|k: int| 0 <= k < rels.len() implies rels[k] != rel by {
        let assoc = assoc_rels(cs, cs[m]);
        if k < assoc.len() {
            assert(rels[k] == assoc[k]);
            assert(assoc[k].source == known_index(cs, cs[m].name));
            assert(known_names(cs)[known_index(cs, cs[m].name)] == cs[m].name);
            assert(known_names(cs)[known_index(cs, cs[i].name)] == cs[i].name);
        } else {
            assert(rels[k].kind is Inheritance);
        }
    }
    lemma_count_rel_zero(rels, rel);
}

proof fn lemma_relations_count_prefix(d: ast::DiagramView, i: int, j: int, m: int)
    requires
        decl_names_distinct(d.classes),
        0 <= i < d.classes.len(),
        0 <= j < d.classes[i].attributes.len(),
        is_known(d.classes, d.classes[i].attributes[j].typ),
        0 <= m <= d.classes.len(),
    ensures
        ({
            let cs = d.classes;
            let per_class = cs.map_values(|c: ast::ClassView| class_rels(cs, c));
            count_rel(per_class.take(m).flatten(), association_of(cs, i, j)) == if m > i {
                count_attr(cs[i].attributes, cs[i].attributes[j])
            } else {
                0
            }
        }),
    decreases m,
{
    broadcast use Seq::lemma_flatten_push;

    let cs = d.classes;
    let rel = association_of(cs, i, j);
    let per_class = cs.map_values(|c: ast::ClassView| class_rels(cs, c));
    if m == 0 {
        assert(per_class.take(0).flatten() =~= Seq::<RelationView>::empty());
    } else {
        lemma_relations_count_prefix(d, i, j, m - 1);
        assert(per_class.take(m) =~= per_class.take(m - 1).push(per_class[m - 1]));
        assert(per_class.take(m).flatten() == per_class.take(m - 1).flatten() + per_class[m - 1]);
        lemma_count_rel_add(per_class.take(m - 1).flatten(), per_class[m - 1], rel);
        if m - 1 == i {
            lemma_assoc_count_partial(cs, i, j, cs[i].attributes.len() as int);
            assert(cs[i].attributes.take(cs[i].attributes.len() as int) =~= cs[i].attributes);
            let assoc = assoc_rels(cs, cs[i]);
            assert(assoc == assoc_rels_partial(cs, cs[i], cs[i].attributes.len() as int));
            match cs[i].superclass {
                Some(sc) => {
                    let inh = RelationView {
                        kind: RelationshipView::Inheritance,
                        source: known_index(cs, cs[i].name),
                        target: known_index(cs, sc),
                    };
                    assert(class_rels(cs, cs[i]) == assoc + seq![inh]);
                    lemma_count_rel_add(assoc, seq![inh], rel);
                    assert(seq![inh].drop_last() =~= Seq::<RelationView>::empty());
                    assert(seq![inh].last() == inh);
                    assert(inh != rel);
                    assert(count_rel(Seq::<RelationView>::empty(), rel) == 0);
                    assert(count_rel(seq![inh], rel) == 0);
                },
                None => {
                    assert(class_rels(cs, cs[i]) =~= assoc + Seq::<RelationView>::empty());
                    lemma_count_rel_add(assoc, Seq::empty(), rel);
                },
            }
        } else {
            lemma_class_rels_count_other(cs, i, j, m - 1);
        }
    }
}

/// An attribute whose type is a known class name appears among the
/// relations as its association, exactly as often as its class declares
/// that attribute — so once, when the declaration lists it once — as long
/// as class names are declared once.
pub proof fn lemma_attribute_association_count(d: ast::DiagramView, i: int, j: int)
    requires
        decl_names_distinct(d.classes),
        0 <= i < d.classes.len(),
        0 <= j < d.classes[i].attributes.len(),
        is_known(d.classes, d.classes[i].attributes[j].typ),
    ensures
        count_rel(spec_build(d).relations, association_of(d.classes, i, j)) == count_attr(
            d.classes[i].attributes,
            d.classes[i].attributes[j],
        ),
        count_rel(spec_build(d).relations, association_of(d.classes, i, j)) >= 1,
{
    let cs = d.classes;
    lemma_relations_count_prefix(d, i, j, cs.len() as int);
    let per_class = cs.map_values(|c: ast::ClassView| class_rels(cs, c));
    assert(per_class.take(cs.len() as int) =~= per_class);
    lemma_count_attr_member(cs[i].attributes, j);
}

/// The views of a list of owned names.
pub open spec fn names_of(v: Seq<String>) -> Seq<Seq<char>> {
    v.map_values(|s: String| s@)
}

fn contains_name(v: &Vec<String>, x: &String) -> (r: bool)
    ensures
        r == names_of(v@).contains(x@),
{
    let mut i: usize = 0;
    while i < v.len()
        invariant
            i <= v@.len(),
            forall|j: int| 0 <= j < i ==> names_of(v@)[j] != x@,
        decreases v@.len() - i,
    {
        if v[i].eq(x) {
            assert(names_of(v@)[i as int] == x@);
            return true;
        }
        i = i + 1;
    }
    false
}

fn find_name(v: &Vec<String>, x: &String) -> (r: Option<usize>)
    ensures
        match r {
            Some(k) => k < v@.len() && names_of(v@)[k as int] == x@,
            None => !names_of(v@).contains(x@),
        },
{
    let mut i: usize = 0;
    while i < v.len()
        invariant
            i <= v@.len(),
            forall|j: int| 0 <= j < i ==> names_of(v@)[j] != x@,
        decreases v@.len() - i,
    {
        if v[i].eq(x) {
            assert(names_of(v@)[i as int] == x@);
            return Some(i);
        }
        i = i + 1;
    }
    None
}

impl Diagram {
    /// Resolves a syntax tree into a diagram. Total: every parsed input
    /// builds; an attribute type or superclass that resolves to no known
    /// class never fails the build, it stays primitive or is simply not
    /// linked.
    pub fn build(ast: &ast::Diagram) -> (d: Diagram)
        ensures
            d@ == spec_build(ast@),
    {
        let ghost csv = ast@.classes;
        let n_classes = ast.classes.len();

        // The known names: first every declared class name, in order of
        // first declaration ...
        let mut known: Vec<String> = Vec::new();
        let mut i: usize = 0;
        assert(names_of(known@) =~= declared_names(csv.take(0)));
        while i < n_classes
            invariant
                i <= n_classes,
                n_classes == ast.classes@.len(),
                csv == ast@.classes,
                names_of(known@) == declared_names(csv.take(i as int)),
            decreases n_classes - i,
        {
            let c = &ast.classes[i];
            assert(c@ == csv[i as int]);
            if !contains_name(&known, &c.name) {
                let ghost prev = names_of(known@);
                known.push(c.name.clone());
                assert(names_of(known@) =~= prev.push(c.name@));
            }
            proof {
                assert(csv.take(i + 1).drop_last() =~= csv.take(i as int));
                assert(csv.take(i + 1).last() == csv[i as int]);
            }
            i = i + 1;
        }
        assert(csv.take(n_classes as int) =~= csv);

        // ... then every referenced superclass name not yet present, in
        // order of first reference.
        let mut i: usize = 0;
        assert(csv.take(0) =~= Seq::<ast::ClassView>::empty());
        while i < n_classes
            invariant
                i <= n_classes,
                n_classes == ast.classes@.len(),
                csv == ast@.classes,
                names_of(known@) == add_super_names(declared_names(csv), csv.take(i as int)),
            decreases n_classes - i,
        {
            let c = &ast.classes[i];
            assert(c@ == csv[i as int]);
            match &c.superclass {
                Some(sc) => {
                    if !contains_name(&known, sc) {
                        let ghost prev = names_of(known@);
                        known.push(sc.clone());
                        assert(names_of(known@) =~= prev.push(sc@));
                    }
                },
                None => {},
            }
            proof {
                assert(csv.take(i + 1).drop_last() =~= csv.take(i as int));
                assert(csv.take(i + 1).last() == csv[i as int]);
            }
            i = i + 1;
        }
        assert(csv.take(n_classes as int) =~= csv);
        assert(names_of(known@) == known_names(csv));

        // One class per known name: a declared name carries the primitive
        // attributes of its last declaration, a name known only as a
        // superclass carries none.
        let mut classes: Vec<Class> = Vec::new();
        let mut idx: usize = 0;
        assert(classes@.map_values(|c: Class| c@) =~= build_classes(csv).take(0));
        while idx < known.len()
            invariant
                idx <= known@.len(),
                n_classes == ast.classes@.len(),
                csv == ast@.classes,
                names_of(known@) == known_names(csv),
                classes@.map_values(|c: Class| c@) == build_classes(csv).take(idx as int),
            decreases known@.len() - idx,
        {
            let name = &known[idx];
            let ghost nv = name@;
            assert(nv == known_names(csv)[idx as int]);

            // The last declaration of this name, if there is one.
            let mut found: Option<usize> = None;
            let mut j: usize = 0;
            while j < n_classes
                invariant
                    j <= n_classes,
                    n_classes == ast.classes@.len(),
                    csv == ast@.classes,
                    nv == name@,
                    match found {
                        Some(k) => k < j && csv[k as int].name == nv && forall|m: int|
                            k < m < j ==> (#[trigger] csv[m]).name != nv,
                        None => forall|m: int| 0 <= m < j ==> (#[trigger] csv[m]).name != nv,
                    },
                decreases n_classes - j,
            {
                let c = &ast.classes[j];
                assert(c@ == csv[j as int]);
                if c.name.eq(name) {
                    found = Some(j);
                }
                j = j + 1;
            }

            let node = match found {
                Some(k) => {
                    proof {
                        assert(csv[k as int].name == nv);
                        lemma_last_decl_char(csv, nv, k as int);
                    }
                    let decl = &ast.classes[k];
                    assert(decl@ == csv[k as int]);
                    let ghost davs = csv[k as int].attributes;
                    let n_attrs = decl.attributes.len();
                    let mut attrs: Vec<Attribute> = Vec::new();
                    let mut t: usize = 0;
                    assert(attrs@.map_values(|a: Attribute| a@) =~= primitive_attrs(
                        csv,
                        davs.take(0),
                    ));
                    while t < n_attrs
                        invariant
                            t <= n_attrs,
                            n_attrs == decl.attributes@.len(),
                            davs == decl@.attributes,
                            csv == ast@.classes,
                            names_of(known@) == known_names(csv),
                            attrs@.map_values(|a: Attribute| a@) == primitive_attrs(
                                csv,
                                davs.take(t as int),
                            ),
                        decreases n_attrs - t,
                    {
                        let a = &decl.attributes[t];
                        assert(a@ == davs[t as int]);
                        proof {
                            lemma_known_names_contains(csv, a.typ@);
                        }
                        if !contains_name(&known, &a.typ) {
                            let ghost prev = attrs@.map_values(|a: Attribute| a@);
                            attrs.push(Attribute { name: a.name.clone(), typ: a.typ.clone() });
                            assert(attrs@.map_values(|a: Attribute| a@) =~= prev.push(a@));
                        }
                        proof {
                            assert(davs.take(t + 1).drop_last() =~= davs.take(t as int));
                            assert(davs.take(t + 1).last() == davs[t as int]);
                            broadcast use Seq::lemma_filter_push;

                            assert(davs.take(t + 1) == davs.take(t as int).push(davs[t as int]));
                        }
                        t = t + 1;
                    }
                    assert(davs.take(n_attrs as int) =~= davs);
                    Class { name: name.clone(), attributes: attrs }
                },
                None => {
                    proof {
                        lemma_known_names_contains(csv, nv);
                        if is_declared(csv, nv) {
                            let w = choose|w: int| 0 <= w < csv.len() && csv[w].name == nv;
                            assert(csv[w].name == nv);
                        }
                    }
                    Class { name: name.clone(), attributes: Vec::new() }
                },
            };
            proof {
                assert(node@ =~= node_for(csv, nv));
            }
            let ghost prev = classes@.map_values(|c: Class| c@);
            classes.push(node);
            proof {
                assert(classes@.map_values(|c: Class| c@) =~= prev.push(node_for(csv, nv)));
                assert(build_classes(csv).take(idx + 1) =~= build_classes(csv).take(
                    idx as int,
                ).push(node_for(csv, nv)));
            }
            idx = idx + 1;
        }
        assert(build_classes(csv).take(known@.len() as int) =~= build_classes(csv));

        // The relations, in declaration order: each declaration contributes
        // an association per attribute of known type, then its inheritance
        // link, if any.
        let ghost per_class = csv.map_values(|c: ast::ClassView| class_rels(csv, c));
        let mut relations: Vec<Relation> = Vec::new();
        let mut i: usize = 0;
        assert(relations@.map_values(|r: Relation| r@) =~= per_class.take(0).flatten());
        while i < n_classes
            invariant
                i <= n_classes,
                n_classes == ast.classes@.len(),
                csv == ast@.classes,
                names_of(known@) == known_names(csv),
                per_class == csv.map_values(|c: ast::ClassView| class_rels(csv, c)),
                relations@.map_values(|r: Relation| r@) == per_class.take(i as int).flatten(),
            decreases n_classes - i,
        {
            let c = &ast.classes[i];
            assert(c@ == csv[i as int]);
            let ghost cv = csv[i as int];
            proof {
                assert(is_declared(csv, cv.name));
                lemma_known_names_contains(csv, cv.name);
                lemma_known_index(csv, cv.name);
            }
            let src = match find_name(&known, &c.name) {
                Some(k) => k,
                None => {
                    proof {
                        assert(false);
                    }
                    0
                },
            };
            assert(src as int == known_index(csv, cv.name));

            let ghost davs = cv.attributes;
            let n_attrs = c.attributes.len();
            let mut t: usize = 0;
            proof {
                assert(davs.take(0).filter(|a: AttributeView| is_known(csv, a.typ)) =~= Seq::<
                    AttributeView,
                >::empty());
                assert(relations@.map_values(|r: Relation| r@) =~= per_class.take(
                    i as int,
                ).flatten() + assoc_rels_partial(csv, cv, 0));
            }
            while t < n_attrs
                invariant
                    t <= n_attrs,
                    n_attrs == c.attributes@.len(),
                    davs == c@.attributes,
                    davs == cv.attributes,
                    n_attrs == davs.len(),
                    cv == csv[i as int],
                    0 <= i < csv.len(),
                    n_classes == ast.classes@.len(),
                    csv == ast@.classes,
                    names_of(known@) == known_names(csv),
                    src as int == known_index(csv, cv.name),
                    per_class == csv.map_values(|c: ast::ClassView| class_rels(csv, c)),
                    relations@.map_values(|r: Relation| r@) == per_class.take(i as int).flatten()
                        + assoc_rels_partial(csv, cv, t as int),
                decreases n_attrs - t,
            {
                let a = &c.attributes[t];
                assert(a@ == davs[t as int]);
                proof {
                    lemma_known_names_contains(csv, a.typ@);
                }
                match find_name(&known, &a.typ) {
                    Some(k) => {
                        proof {
                            lemma_known_index(csv, a.typ@);
                        }
                        let ghost prev = relations@.map_values(|r: Relation| r@);
                        relations.push(
                            Relation {
                                kind: Relationship::Association { attribute_name: a.name.clone() },
                                source: src,
                                target: k,
                            },
                        );
                        proof {
                            let rv = RelationView {
                                kind: RelationshipView::Association { attribute_name: a@.name },
                                source: known_index(csv, cv.name),
                                target: known_index(csv, a@.typ),
                            };
                            assert(relations@.map_values(|r: Relation| r@) =~= prev.push(rv));
                            lemma_assoc_rels_partial_step(csv, cv, t as int);
                            assert(prev.push(rv) =~= per_class.take(i as int).flatten()
                                + assoc_rels_partial(csv, cv, t + 1));
                        }
                    },
                    None => {
                        proof {
                            lemma_assoc_rels_partial_step(csv, cv, t as int);
                        }
                    },
                }
                t = t + 1;
            }
            proof {
                assert(davs.take(n_attrs as int) =~= davs);
                assert(assoc_rels_partial(csv, cv, n_attrs as int) == assoc_rels(csv, cv));
            }

            match &c.superclass {
                Some(sc) => {
                    proof {
                        assert(cv.superclass == Some(sc@));
                        assert(is_super_ref(csv, sc@));
                        lemma_known_names_contains(csv, sc@);
                        lemma_known_index(csv, sc@);
                    }
                    let tgt = match find_name(&known, sc) {
                        Some(k) => k,
                        None => {
                            proof {
                                assert(false);
                            }
                            0
                        },
                    };
                    let ghost prev = relations@.map_values(|r: Relation| r@);
                    relations.push(
                        Relation { kind: Relationship::Inheritance, source: src, target: tgt },
                    );
                    proof {
                        let rv = RelationView {
                            kind: RelationshipView::Inheritance,
                            source: known_index(csv, cv.name),
                            target: known_index(csv, sc@),
                        };
                        assert(relations@.map_values(|r: Relation| r@) =~= prev.push(rv));
                        assert(prev.push(rv) =~= per_class.take(i as int).flatten() + class_rels(
                            csv,
                            cv,
                        ));
                    }
                },
                None => {
                    proof {
                        assert(assoc_rels(csv, cv) + Seq::<RelationView>::empty() =~= assoc_rels(
                            csv,
                            cv,
                        ));
                        assert(class_rels(csv, cv) == assoc_rels(csv, cv));
                    }
                },
            }
            proof {
                broadcast use Seq::lemma_flatten_push;

                assert(per_class.take(i + 1) =~= per_class.take(i as int).push(
                    class_rels(csv, cv),
                ));
                assert(per_class.take(i as int).flatten() + class_rels(csv, cv) == per_class.take(
                    i + 1,
                ).flatten());
            }
            i = i + 1;
        }
        assert(per_class.take(n_classes as int) =~= per_class);

        let d = Diagram { classes, relations };
        proof {
            assert(d@ =~= spec_build(ast@));
        }
        d
    }
}

/// The associations contributed by the first `t` attributes of one
/// declaration.
pub open spec fn assoc_rels_partial(cs: Seq<ast::ClassView>, c: ast::ClassView, t: int) -> Seq<
    RelationView,
> {
    c.attributes.take(t).filter(|a: AttributeView| is_known(cs, a.typ)).map_values(
        |a: AttributeView|
            RelationView {
                kind: RelationshipView::Association { attribute_name: a.name },
                source: known_index(cs, c.name),
                target: known_index(cs, a.typ),
            },
    )
}

proof fn lemma_assoc_rels_partial_step(cs: Seq<ast::ClassView>, c: ast::ClassView, t: int)
    requires
        0 <= t < c.attributes.len(),
    ensures
        assoc_rels_partial(cs, c, t + 1) == if is_known(cs, c.attributes[t].typ) {
            assoc_rels_partial(cs, c, t).push(
                RelationView {
                    kind: RelationshipView::Association { attribute_name: c.attributes[t].name },
                    source: known_index(cs, c.name),
                    target: known_index(cs, c.attributes[t].typ),
                },
            )
        } else {
            assoc_rels_partial(cs, c, t)
        },
{
    broadcast use Seq::lemma_filter_push;

    let pred = |a: AttributeView| is_known(cs, a.typ);
    let mk = |a: AttributeView|
        RelationView {
            kind: RelationshipView::Association { attribute_name: a.name },
            source: known_index(cs, c.name),
            target: known_index(cs, a.typ),
        };
    assert(c.attributes.take(t + 1) =~= c.attributes.take(t).push(c.attributes[t]));
    if pred(c.attributes[t]) {
        assert(c.attributes.take(t).filter(pred).push(c.attributes[t]).map_values(mk)
            =~= c.attributes.take(t).filter(pred).map_values(mk).push(mk(c.attributes[t])));
    }
}

} // verus!
