//! The parser: source text in, abstract syntax tree out.
//!
//! The grammar, with `ws` insignificant whitespace:
//!
//! ```text
//! diagram     := class*
//! class       := "class" ws+ identifier ws* (":" ws* identifier)? ws* "{" attribute_list "}"
//! attribute_list := ws* (attribute (ws* ";" ws* attribute)*)? ws* (";")? ws*
//! attribute   := identifier ws* ":" ws* identifier
//! identifier  := one or more ASCII letters or digits
//! ```
//!
//! The `class` keyword must be followed by at least one whitespace character,
//! a trailing `;` before `}` is permitted and ignored, and an input that the
//! grammar does not consume completely is rejected.
//!
//! The functions named `spec_*` form a mathematical description of the
//! parse: each takes the input and a position and gives the position after
//! the construct together with its value, or nothing where the construct is
//! not there. The executable functions are proved to return exactly what
//! the `spec_*` functions describe.

use vstd::prelude::*;

verus! {

use crate::parser::ast::{is_ident_char, AttributeView, ClassView, DiagramView};

/// True of the characters that the grammar treats as insignificant
/// whitespace: space, tab and newline.
pub open spec fn is_ws(c: char) -> bool {
    c == ' ' || c == '\t' || c == '\n'
}

/// The first position at or after `i` that does not hold whitespace.
pub open spec fn spec_skip_ws(s: Seq<char>, i: int) -> int
    decreases s.len() - i,
{
    if i < s.len() && is_ws(s[i]) {
        spec_skip_ws(s, i + 1)
    } else {
        i
    }
}

/// The first position at or after `i` that does not hold an identifier
/// character; the run from `i` to that position is the identifier starting
/// at `i`, empty if there is none.
pub open spec fn spec_ident_end(s: Seq<char>, i: int) -> int
    decreases s.len() - i,
{
    if i < s.len() && is_ident_char(s[i]) {
        spec_ident_end(s, i + 1)
    } else {
        i
    }
}

/// Skipping whitespace stays within the input, skips only whitespace,
/// and stops before anything else.
pub proof fn lemma_skip_ws_bounds(s: Seq<char>, i: int)
    requires
        0 <= i <= s.len(),
    ensures
        i <= spec_skip_ws(s, i) <= s.len(),
        spec_skip_ws(s, i) < s.len() ==> !is_ws(s[spec_skip_ws(s, i)]),
        forall|k: int| i <= k < spec_skip_ws(s, i) ==> is_ws(s[k]),
    decreases s.len() - i,
{
    if i < s.len() && is_ws(s[i]) {
        lemma_skip_ws_bounds(s, i + 1);
    }
}

/// An identifier run stays within the input, covers only identifier
/// characters, and stops before anything else.
pub proof fn lemma_ident_end_bounds(s: Seq<char>, i: int)
    requires
        0 <= i <= s.len(),
    ensures
        i <= spec_ident_end(s, i) <= s.len(),
        spec_ident_end(s, i) < s.len() ==> !is_ident_char(s[spec_ident_end(s, i)]),
        forall|k: int| i <= k < spec_ident_end(s, i) ==> is_ident_char(s[k]),
    decreases s.len() - i,
{
    if i < s.len() && is_ident_char(s[i]) {
        lemma_ident_end_bounds(s, i + 1);
    }
}

/// The attribute production: `identifier ws* ':' ws* identifier`, with
/// whitespace allowed before the first identifier and consumed after the
/// second.
pub open spec fn spec_attribute(s: Seq<char>, i: int) -> Option<(int, AttributeView)> {
    let j0 = spec_skip_ws(s, i);
    let e1 = spec_ident_end(s, j0);
    if e1 == j0 {
        None
    } else {
        let name = s.subrange(j0, e1);
        let j1 = spec_skip_ws(s, e1);
        if j1 < s.len() && s[j1] == ':' {
            let j2 = spec_skip_ws(s, j1 + 1);
            let e2 = spec_ident_end(s, j2);
            if e2 == j2 {
                None
            } else {
                let typ = s.subrange(j2, e2);
                let j3 = spec_skip_ws(s, e2);
                Some((j3, AttributeView { name, typ }))
            }
        } else {
            None
        }
    }
}

/// The attributes after the first one: each preceded by `;`, with one
/// optional trailing `;` consumed at the end. `acc` holds the attributes
/// seen so far.
///
/// A parsed attribute always ends past the `;` it started at; the bounds
/// check on `j` only keeps the recursion well founded.
pub open spec fn spec_attr_tail(s: Seq<char>, i: int, acc: Seq<AttributeView>) -> (
    int,
    Seq<AttributeView>,
)
    decreases s.len() - i,
{
    if i < s.len() && s[i] == ';' {
        match spec_attribute(s, i + 1) {
            Some((j, a)) => {
                if i < j <= s.len() {
                    spec_attr_tail(s, j, acc.push(a))
                } else {
                    (i, acc)
                }
            },
            None => (spec_skip_ws(s, i + 1), acc),
        }
    } else {
        (i, acc)
    }
}

/// The attribute_list production: a possibly empty `;`-separated list of
/// attributes, with one optional trailing `;`, surrounded by whitespace.
/// It cannot fail; an input that starts with no attribute yields the empty
/// list.
pub open spec fn spec_attributes(s: Seq<char>, i: int) -> (int, Seq<AttributeView>) {
    match spec_attribute(s, i) {
        Some((j, a)) => {
            if i < j <= s.len() {
                spec_attr_tail(s, j, seq![a])
            } else {
                (i, seq![a])
            }
        },
        None => {
            let j0 = spec_skip_ws(s, i);
            if j0 < s.len() && s[j0] == ';' {
                (spec_skip_ws(s, j0 + 1), Seq::empty())
            } else {
                (j0, Seq::empty())
            }
        },
    }
}

/// A class body: `'{' attribute_list '}'`, with whitespace allowed before
/// the `{` and consumed after the `}`.
pub open spec fn spec_class_body(s: Seq<char>, i: int) -> Option<(int, Seq<AttributeView>)> {
    let j0 = spec_skip_ws(s, i);
    if j0 < s.len() && s[j0] == '{' {
        let (j, attrs) = spec_attributes(s, j0 + 1);
        if j < s.len() && s[j] == '}' {
            Some((spec_skip_ws(s, j + 1), attrs))
        } else {
            None
        }
    } else {
        None
    }
}

/// The class production: the `class` keyword followed by at least one
/// whitespace character, the class name, an optional `: superclass`, and
/// the body. Whitespace is allowed before the keyword and consumed after
/// the body.
pub open spec fn spec_class(s: Seq<char>, i: int) -> Option<(int, ClassView)> {
    let j0 = spec_skip_ws(s, i);
    if j0 + 5 < s.len() && s[j0] == 'c' && s[j0 + 1] == 'l' && s[j0 + 2] == 'a' && s[j0 + 3] == 's'
        && s[j0 + 4] == 's' && is_ws(s[j0 + 5]) {
        let j1 = spec_skip_ws(s, j0 + 5);
        let e1 = spec_ident_end(s, j1);
        if e1 == j1 {
            None
        } else {
            let name = s.subrange(j1, e1);
            let j2 = spec_skip_ws(s, e1);
            if j2 < s.len() && s[j2] == ':' {
                let j3 = spec_skip_ws(s, j2 + 1);
                let e2 = spec_ident_end(s, j3);
                if e2 == j3 {
                    None
                } else {
                    match spec_class_body(s, e2) {
                        Some((j, attrs)) => Some(
                            (
                                j,
                                ClassView {
                                    name,
                                    superclass: Some(s.subrange(j3, e2)),
                                    attributes: attrs,
                                },
                            ),
                        ),
                        None => None,
                    }
                }
            } else {
                match spec_class_body(s, j2) {
                    Some((j, attrs)) => Some(
                        (j, ClassView { name, superclass: None, attributes: attrs }),
                    ),
                    None => None,
                }
            }
        }
    } else {
        None
    }
}

/// The diagram production: as many classes as the input offers, in order.
/// The returned position is where the last parsed class ended.
///
/// A parsed class always ends past its keyword; the bounds check on `j`
/// only keeps the recursion well founded.
pub open spec fn spec_classes(s: Seq<char>, i: int) -> (int, Seq<ClassView>)
    decreases s.len() - i,
{
    match spec_class(s, i) {
        Some((j, c)) => {
            if i < j <= s.len() {
                let (k, rest) = spec_classes(s, j);
                (k, seq![c] + rest)
            } else {
                (i, Seq::empty())
            }
        },
        None => (i, Seq::empty()),
    }
}

/// A successful attribute parse moves strictly forward, stays within the
/// input, and yields two identifiers.
pub proof fn lemma_attribute_props(s: Seq<char>, i: int)
    requires
        0 <= i <= s.len(),
    ensures
        match spec_attribute(s, i) {
            Some((j, a)) => i < j <= s.len() && a.wf(),
            None => true,
        },
{
    let j0 = spec_skip_ws(s, i);
    lemma_skip_ws_bounds(s, i);
    let e1 = spec_ident_end(s, j0);
    lemma_ident_end_bounds(s, j0);
    if e1 != j0 {
        let j1 = spec_skip_ws(s, e1);
        lemma_skip_ws_bounds(s, e1);
        if j1 < s.len() && s[j1] == ':' {
            let j2 = spec_skip_ws(s, j1 + 1);
            lemma_skip_ws_bounds(s, j1 + 1);
            let e2 = spec_ident_end(s, j2);
            lemma_ident_end_bounds(s, j2);
            if e2 != j2 {
                lemma_skip_ws_bounds(s, e2);
            }
        }
    }
}

/// What `spec_attr_tail` adds: it moves forward, stays within the input,
/// keeps what was accumulated, and everything it appends is well formed.
pub proof fn lemma_attr_tail_props(s: Seq<char>, i: int, acc: Seq<AttributeView>)
    requires
        0 <= i <= s.len(),
    ensures
        ({
            let (j, r) = spec_attr_tail(s, i, acc);
            &&& i <= j <= s.len()
            &&& r.len() >= acc.len()
            &&& r.take(acc.len() as int) == acc
            &&& forall|k: int| acc.len() <= k < r.len() ==> (#[trigger] r[k]).wf()
        }),
    decreases s.len() - i,
{
    let (j, r) = spec_attr_tail(s, i, acc);
    if i < s.len() && s[i] == ';' {
        match spec_attribute(s, i + 1) {
            Some((j1, a)) => {
                lemma_attribute_props(s, i + 1);
                lemma_attr_tail_props(s, j1, acc.push(a));
                let (j2, r2) = spec_attr_tail(s, j1, acc.push(a));
                let n = acc.len() as int;
                assert(r2.take(n + 1) == acc.push(a));
                assert forall|k: int| 0 <= k <= n implies r2[k] == acc.push(a)[k] by {
                    assert(r2.take(n + 1)[k] == r2[k]);
                }
                assert(r.take(n) =~= acc);
                assert(r2[n] == a);
            },
            None => {
                lemma_skip_ws_bounds(s, i + 1);
                assert(r.take(acc.len() as int) =~= acc);
            },
        }
    } else {
        assert(r.take(acc.len() as int) =~= acc);
    }
}

/// An attribute list stays within the input, never moves backwards, and
/// yields well-formed attributes.
pub proof fn lemma_attributes_props(s: Seq<char>, i: int)
    requires
        0 <= i <= s.len(),
    ensures
        ({
            let (j, r) = spec_attributes(s, i);
            &&& i <= j <= s.len()
            &&& forall|k: int| 0 <= k < r.len() ==> (#[trigger] r[k]).wf()
        }),
{
    match spec_attribute(s, i) {
        Some((j, a)) => {
            lemma_attribute_props(s, i);
            lemma_attr_tail_props(s, j, seq![a]);
            let (j2, r) = spec_attr_tail(s, j, seq![a]);
            assert(r.take(1) == seq![a]);
            assert(r[0] == r.take(1)[0]);
        },
        None => {
            lemma_skip_ws_bounds(s, i);
            let j0 = spec_skip_ws(s, i);
            if j0 < s.len() && s[j0] == ';' {
                lemma_skip_ws_bounds(s, j0 + 1);
            }
        },
    }
}

/// A successful class body parse moves at least past its `{`, stays within
/// the input, and yields well-formed attributes.
pub proof fn lemma_class_body_props(s: Seq<char>, i: int)
    requires
        0 <= i <= s.len(),
    ensures
        match spec_class_body(s, i) {
            Some((j, r)) => {
                &&& i < j <= s.len()
                &&& forall|k: int| 0 <= k < r.len() ==> (#[trigger] r[k]).wf()
            },
            None => true,
        },
{
    let j0 = spec_skip_ws(s, i);
    lemma_skip_ws_bounds(s, i);
    if j0 < s.len() && s[j0] == '{' {
        lemma_attributes_props(s, j0 + 1);
        let (j, attrs) = spec_attributes(s, j0 + 1);
        if j < s.len() && s[j] == '}' {
            lemma_skip_ws_bounds(s, j + 1);
        }
    }
}

/// A successful class parse moves strictly forward, stays within the
/// input, and yields a well-formed declaration.
pub proof fn lemma_class_props(s: Seq<char>, i: int)
    requires
        0 <= i <= s.len(),
    ensures
        match spec_class(s, i) {
            Some((j, c)) => i < j <= s.len() && c.wf(),
            None => true,
        },
{
    let j0 = spec_skip_ws(s, i);
    lemma_skip_ws_bounds(s, i);
    if j0 + 5 < s.len() && s[j0] == 'c' && s[j0 + 1] == 'l' && s[j0 + 2] == 'a' && s[j0 + 3] == 's'
        && s[j0 + 4] == 's' && is_ws(s[j0 + 5]) {
        let j1 = spec_skip_ws(s, j0 + 5);
        lemma_skip_ws_bounds(s, j0 + 5);
        let e1 = spec_ident_end(s, j1);
        lemma_ident_end_bounds(s, j1);
        if e1 != j1 {
            let j2 = spec_skip_ws(s, e1);
            lemma_skip_ws_bounds(s, e1);
            if j2 < s.len() && s[j2] == ':' {
                let j3 = spec_skip_ws(s, j2 + 1);
                lemma_skip_ws_bounds(s, j2 + 1);
                let e2 = spec_ident_end(s, j3);
                lemma_ident_end_bounds(s, j3);
                if e2 != j3 {
                    lemma_class_body_props(s, e2);
                }
            } else {
                lemma_class_body_props(s, j2);
            }
        }
    }
}

/// The class list stays within the input, never moves backwards, and
/// yields well-formed declarations.
pub proof fn lemma_classes_props(s: Seq<char>, i: int)
    requires
        0 <= i <= s.len(),
    ensures
        ({
            let (j, r) = spec_classes(s, i);
            &&& i <= j <= s.len()
            &&& forall|k: int| 0 <= k < r.len() ==> (#[trigger] r[k]).wf()
        }),
    decreases s.len() - i,
{
    match spec_class(s, i) {
        Some((j, c)) => {
            lemma_class_props(s, i);
            lemma_classes_props(s, j);
        },
        None => {},
    }
}

/// Whatever the parse accepts is a well-formed syntax tree, and a syntax
/// error is reported at a position within the input.
pub proof fn lemma_spec_parse_wf(s: Seq<char>)
    ensures
        match spec_parse(s) {
            Ok(d) => d.wf(),
            Err(off) => 0 <= off <= s.len(),
        },
{
    lemma_classes_props(s, 0);
}

/// The whole parse: every class the grammar can read, and then, after
/// trailing whitespace, the end of the input. Anything else is a syntax
/// error, reported at the position where the last class ended.
pub open spec fn spec_parse(s: Seq<char>) -> Result<DiagramView, int> {
    let (j, cs) = spec_classes(s, 0);
    if spec_skip_ws(s, j) == s.len() {
        Ok(DiagramView { classes: cs })
    } else {
        Err(j)
    }
}

/// True where no `;` stands between `i` and `j` with only whitespace
/// after it before `j`: the text of the list does not already end in a
/// trailing semicolon.
pub open spec fn no_trailing_semi(s: Seq<char>, i: int, j: int) -> bool {
    forall|k: int|
        i <= k < j && (#[trigger] s[k]) == ';' ==> exists|m: int|
            k < m < j && !is_ws(#[trigger] s[m])
}

/// Inserting a non-whitespace character at `j` does not disturb a
/// whitespace skip that ends at or before `j`.
proof fn lemma_skip_ws_insert(s: Seq<char>, j: int, p: int)
    requires
        0 <= p <= j < s.len(),
        spec_skip_ws(s, p) <= j,
    ensures
        spec_skip_ws(s.insert(j, ';'), p) == spec_skip_ws(s, p),
    decreases j - p,
{
    let s2 = s.insert(j, ';');
    s.insert_ensures(j, ';');
    lemma_skip_ws_bounds(s, p);
    if p < s.len() && is_ws(s[p]) {
        assert(p < j);
        assert(s2[p] == s[p]);
        lemma_skip_ws_insert(s, j, p + 1);
    } else {
        if p < j {
            assert(s2[p] == s[p]);
        } else {
            assert(s2[p] == ';');
            assert(!is_ws(';'));
        }
    }
}

/// Inserting `;` at `j` does not disturb an identifier run that ends at
/// or before `j`.
proof fn lemma_ident_end_insert(s: Seq<char>, j: int, p: int)
    requires
        0 <= p <= j < s.len(),
        spec_ident_end(s, p) <= j,
    ensures
        spec_ident_end(s.insert(j, ';'), p) == spec_ident_end(s, p),
    decreases j - p,
{
    let s2 = s.insert(j, ';');
    s.insert_ensures(j, ';');
    lemma_ident_end_bounds(s, p);
    if p < s.len() && is_ident_char(s[p]) {
        assert(p < j);
        assert(s2[p] == s[p]);
        lemma_ident_end_insert(s, j, p + 1);
    } else {
        if p < j {
            assert(s2[p] == s[p]);
        } else {
            assert(s2[p] == ';');
            assert(!is_ident_char(';'));
        }
    }
}

/// Inserting `;` where the closing brace stands does not disturb an
/// attribute parse that ends at or before it.
proof fn lemma_attribute_insert(s: Seq<char>, j: int, p: int)
    requires
        0 <= p <= j < s.len(),
        s[j] == '}',
        spec_attribute(s, p) is Some,
        spec_attribute(s, p)->Some_0.0 <= j,
    ensures
        spec_attribute(s.insert(j, ';'), p) == spec_attribute(s, p),
{
    let s2 = s.insert(j, ';');
    s.insert_ensures(j, ';');
    let j0 = spec_skip_ws(s, p);
    lemma_skip_ws_bounds(s, p);
    let e1 = spec_ident_end(s, j0);
    lemma_ident_end_bounds(s, j0);
    let j1 = spec_skip_ws(s, e1);
    lemma_skip_ws_bounds(s, e1);
    let j2 = spec_skip_ws(s, j1 + 1);
    let e2 = spec_ident_end(s, j2);
    let j3 = spec_skip_ws(s, e2);
    assert(e1 != j0 && j1 < s.len() && s[j1] == ':');
    lemma_skip_ws_bounds(s, j1 + 1);
    lemma_ident_end_bounds(s, j2);
    assert(e2 != j2);
    lemma_skip_ws_bounds(s, e2);
    assert(j0 <= e1 <= j1 < j2 <= e2 <= j3 <= j);
    assert(j1 != j);
    lemma_skip_ws_insert(s, j, p);
    lemma_ident_end_insert(s, j, j0);
    lemma_skip_ws_insert(s, j, e1);
    assert(s2[j1] == s[j1]);
    lemma_skip_ws_insert(s, j, j1 + 1);
    lemma_ident_end_insert(s, j, j2);
    lemma_skip_ws_insert(s, j, e2);
    assert(s2.subrange(j0, e1) =~= s.subrange(j0, e1));
    assert(s2.subrange(j2, e2) =~= s.subrange(j2, e2));
}

/// Inserting `;` where the closing brace stands moves the end of the
/// attribute list past it and changes no attribute, as long as the list
/// does not already end in a semicolon.
proof fn lemma_attr_tail_insert(s: Seq<char>, p: int, acc: Seq<AttributeView>)
    requires
        0 <= p <= s.len(),
        spec_attr_tail(s, p, acc).0 < s.len(),
        s[spec_attr_tail(s, p, acc).0] == '}',
        no_trailing_semi(s, p, spec_attr_tail(s, p, acc).0),
    ensures
        spec_attr_tail(s.insert(spec_attr_tail(s, p, acc).0, ';'), p, acc) == (
            spec_attr_tail(s, p, acc).0 + 1,
            spec_attr_tail(s, p, acc).1,
        ),
    decreases s.len() - p,
{
    let (j, out) = spec_attr_tail(s, p, acc);
    lemma_attr_tail_props(s, p, acc);
    let s2 = s.insert(j, ';');
    s.insert_ensures(j, ';');
    if p < s.len() && s[p] == ';' {
        assert(p < j);
        assert(s2[p] == s[p]);
        match spec_attribute(s, p + 1) {
            Some((q, a)) => {
                lemma_attribute_props(s, p + 1);
                assert(p < q <= s.len());
                assert(spec_attr_tail(s, q, acc.push(a)) == (j, out));
                lemma_attr_tail_props(s, q, acc.push(a));
                assert(q <= j);
                lemma_attribute_insert(s, j, p + 1);
                lemma_attr_tail_insert(s, q, acc.push(a));
            },
            None => {
                assert(spec_skip_ws(s, p + 1) == j);
                lemma_skip_ws_bounds(s, p + 1);
                let m = choose|m: int| p < m < j && !is_ws(s[m]);
                assert(is_ws(s[m]));
                assert(false);
            },
        }
    } else {
        assert(j == p);
        assert(s2[j] == ';');
        assert(j + 1 < s2.len());
        assert(s2[j + 1] == s[j]);
        assert(!is_ws('}') && !is_ident_char('}'));
        assert(spec_skip_ws(s2, j + 1) == j + 1);
        assert(spec_ident_end(s2, j + 1) == j + 1);
        assert(spec_attribute(s2, j + 1) is None);
        assert(spec_attr_tail(s2, p, acc) == (j + 1, acc));
    }
}

/// Law: a trailing semicolon before the closing brace is insignificant.
/// Where an attribute list parses up to a `}` and its text does not
/// already end in a semicolon, inserting `;` just before the `}` leaves
/// the parsed attributes unchanged; only the end position moves past the
/// inserted character. So `{a: A; b: B}` and `{a: A; b: B;}` parse to
/// the same attribute list.
pub proof fn lemma_trailing_semicolon_invariant(s: Seq<char>, i: int)
    requires
        0 <= i <= s.len(),
        spec_attributes(s, i).0 < s.len(),
        s[spec_attributes(s, i).0] == '}',
        no_trailing_semi(s, i, spec_attributes(s, i).0),
    ensures
        spec_attributes(s.insert(spec_attributes(s, i).0, ';'), i) == (
            spec_attributes(s, i).0 + 1,
            spec_attributes(s, i).1,
        ),
{
    let (j, attrs) = spec_attributes(s, i);
    lemma_attributes_props(s, i);
    let s2 = s.insert(j, ';');
    s.insert_ensures(j, ';');
    match spec_attribute(s, i) {
        Some((q, a)) => {
            lemma_attribute_props(s, i);
            assert(i < q <= s.len());
            assert(spec_attr_tail(s, q, seq![a]) == (j, attrs));
            lemma_attr_tail_props(s, q, seq![a]);
            assert(q <= j);
            lemma_attribute_insert(s, j, i);
            lemma_attr_tail_insert(s, q, seq![a]);
        },
        None => {
            let j0 = spec_skip_ws(s, i);
            lemma_skip_ws_bounds(s, i);
            if j0 < s.len() && s[j0] == ';' {
                assert(j == spec_skip_ws(s, j0 + 1));
                lemma_skip_ws_bounds(s, j0 + 1);
                assert(j0 < j);
                let m = choose|m: int| j0 < m < j && !is_ws(s[m]);
                assert(is_ws(s[m]));
                assert(false);
            } else {
                assert(j == j0);
                assert(s[j0] == '}');
                lemma_skip_ws_insert(s, j, i);
                assert(s2[j0] == ';');
                assert(!is_ident_char(';'));
                assert(spec_ident_end(s2, j0) == j0);
                assert(spec_attribute(s2, i) is None);
                assert(j + 1 < s2.len());
                assert(s2[j + 1] == s[j]);
                assert(!is_ws('}'));
                assert(spec_skip_ws(s2, j + 1) == j + 1);
                assert(spec_attributes(s2, i) == (j + 1, attrs));
            }
        },
    }
}

/// True where the text of `s1` from `i1` on and the text of `s2` from
/// `i2` on are the same, character for character.
pub open spec fn suffix_agree(s1: Seq<char>, i1: int, s2: Seq<char>, i2: int) -> bool {
    &&& 0 <= i1 <= s1.len()
    &&& 0 <= i2 <= s2.len()
    &&& s1.len() - i1 == s2.len() - i2
    &&& forall|k: int| 0 <= k < s1.len() - i1 ==> #[trigger] s1[i1 + k] == s2[i2 + k]
}

/// Texts that agree from `i1` and `i2` on also agree from any later
/// pair of corresponding positions on.
proof fn lemma_suffix_agree_advance(s1: Seq<char>, i1: int, s2: Seq<char>, i2: int, q: int)
    requires
        suffix_agree(s1, i1, s2, i2),
        i1 <= q <= s1.len(),
    ensures
        suffix_agree(s1, q, s2, q + (i2 - i1)),
        forall|t: int| q <= t < s1.len() ==> s1[t] == s2[t + (i2 - i1)],
{
    let d = i2 - i1;
    assert forall|t: int| q <= t < s1.len() implies s1[t] == s2[t + d] by {
        assert(s1[i1 + (t - i1)] == s2[i2 + (t - i1)]);
    }
    assert forall|k: int| 0 <= k < s1.len() - q implies #[trigger] s1[q + k] == s2[(q + d) + k] by {
        assert(s1[i1 + (q + k - i1)] == s2[i2 + (q + k - i1)]);
    }
}

/// A whitespace skip depends only on the text from its start on.
proof fn lemma_skip_ws_suffix(s1: Seq<char>, i1: int, s2: Seq<char>, i2: int)
    requires
        suffix_agree(s1, i1, s2, i2),
    ensures
        spec_skip_ws(s2, i2) == spec_skip_ws(s1, i1) + (i2 - i1),
    decreases s1.len() - i1,
{
    if i1 < s1.len() {
        assert(s1[i1 + 0] == s2[i2 + 0]);
        if is_ws(s1[i1]) {
            lemma_suffix_agree_advance(s1, i1, s2, i2, i1 + 1);
            lemma_skip_ws_suffix(s1, i1 + 1, s2, i2 + 1);
        }
    }
}

/// An identifier run depends only on the text from its start on.
proof fn lemma_ident_end_suffix(s1: Seq<char>, i1: int, s2: Seq<char>, i2: int)
    requires
        suffix_agree(s1, i1, s2, i2),
    ensures
        spec_ident_end(s2, i2) == spec_ident_end(s1, i1) + (i2 - i1),
    decreases s1.len() - i1,
{
    if i1 < s1.len() {
        assert(s1[i1 + 0] == s2[i2 + 0]);
        if is_ident_char(s1[i1]) {
            lemma_suffix_agree_advance(s1, i1, s2, i2, i1 + 1);
            lemma_ident_end_suffix(s1, i1 + 1, s2, i2 + 1);
        }
    }
}

/// An attribute parse depends only on the text from its start on.
proof fn lemma_attribute_suffix(s1: Seq<char>, i1: int, s2: Seq<char>, i2: int)
    requires
        suffix_agree(s1, i1, s2, i2),
    ensures
        match spec_attribute(s1, i1) {
            Some((j, a)) => spec_attribute(s2, i2) == Some((j + (i2 - i1), a)),
            None => spec_attribute(s2, i2) is None,
        },
{
    let d = i2 - i1;
    lemma_suffix_agree_advance(s1, i1, s2, i2, i1);
    let j0 = spec_skip_ws(s1, i1);
    lemma_skip_ws_bounds(s1, i1);
    lemma_skip_ws_suffix(s1, i1, s2, i2);
    lemma_suffix_agree_advance(s1, i1, s2, i2, j0);
    let e1 = spec_ident_end(s1, j0);
    lemma_ident_end_bounds(s1, j0);
    lemma_ident_end_suffix(s1, j0, s2, j0 + d);
    if e1 != j0 {
        assert(s2.subrange(j0 + d, e1 + d) =~= s1.subrange(j0, e1));
        lemma_suffix_agree_advance(s1, i1, s2, i2, e1);
        let j1 = spec_skip_ws(s1, e1);
        lemma_skip_ws_bounds(s1, e1);
        lemma_skip_ws_suffix(s1, e1, s2, e1 + d);
        if j1 < s1.len() && s1[j1] == ':' {
            assert(s2[j1 + d] == s1[j1]);
            lemma_suffix_agree_advance(s1, i1, s2, i2, j1 + 1);
            let j2 = spec_skip_ws(s1, j1 + 1);
            lemma_skip_ws_bounds(s1, j1 + 1);
            lemma_skip_ws_suffix(s1, j1 + 1, s2, j1 + 1 + d);
            lemma_suffix_agree_advance(s1, i1, s2, i2, j2);
            let e2 = spec_ident_end(s1, j2);
            lemma_ident_end_bounds(s1, j2);
            lemma_ident_end_suffix(s1, j2, s2, j2 + d);
            if e2 != j2 {
                assert(s2.subrange(j2 + d, e2 + d) =~= s1.subrange(j2, e2));
                lemma_suffix_agree_advance(s1, i1, s2, i2, e2);
                lemma_skip_ws_suffix(s1, e2, s2, e2 + d);
            }
        } else {
            if j1 < s1.len() {
                assert(s2[j1 + d] == s1[j1]);
            }
        }
    }
}

/// The attribute-list tail depends only on the text from its start on.
proof fn lemma_attr_tail_suffix(
    s1: Seq<char>,
    i1: int,
    s2: Seq<char>,
    i2: int,
    acc: Seq<AttributeView>,
)
    requires
        suffix_agree(s1, i1, s2, i2),
    ensures
        spec_attr_tail(s2, i2, acc) == (
            spec_attr_tail(s1, i1, acc).0 + (i2 - i1),
            spec_attr_tail(s1, i1, acc).1,
        ),
    decreases s1.len() - i1,
{
    let d = i2 - i1;
    if i1 < s1.len() {
        assert(s1[i1 + 0] == s2[i2 + 0]);
    }
    if i1 < s1.len() && s1[i1] == ';' {
        lemma_suffix_agree_advance(s1, i1, s2, i2, i1 + 1);
        lemma_attribute_suffix(s1, i1 + 1, s2, i2 + 1);
        match spec_attribute(s1, i1 + 1) {
            Some((j, a)) => {
                lemma_attribute_props(s1, i1 + 1);
                lemma_suffix_agree_advance(s1, i1, s2, i2, j);
                lemma_attr_tail_suffix(s1, j, s2, j + d, acc.push(a));
            },
            None => {
                lemma_skip_ws_suffix(s1, i1 + 1, s2, i2 + 1);
            },
        }
    }
}

/// An attribute-list parse depends only on the text from its start on.
proof fn lemma_attributes_suffix(s1: Seq<char>, i1: int, s2: Seq<char>, i2: int)
    requires
        suffix_agree(s1, i1, s2, i2),
    ensures
        spec_attributes(s2, i2) == (
            spec_attributes(s1, i1).0 + (i2 - i1),
            spec_attributes(s1, i1).1,
        ),
{
    let d = i2 - i1;
    lemma_attribute_suffix(s1, i1, s2, i2);
    match spec_attribute(s1, i1) {
        Some((j, a)) => {
            lemma_attribute_props(s1, i1);
            lemma_suffix_agree_advance(s1, i1, s2, i2, j);
            lemma_attr_tail_suffix(s1, j, s2, j + d, seq![a]);
        },
        None => {
            let j0 = spec_skip_ws(s1, i1);
            lemma_skip_ws_bounds(s1, i1);
            lemma_skip_ws_suffix(s1, i1, s2, i2);
            if j0 < s1.len() {
                assert(s1[i1 + (j0 - i1)] == s2[i2 + (j0 - i1)]);
                if s1[j0] == ';' {
                    lemma_suffix_agree_advance(s1, i1, s2, i2, j0 + 1);
                    lemma_skip_ws_suffix(s1, j0 + 1, s2, j0 + 1 + d);
                }
            }
        },
    }
}

/// A class-body parse depends only on the text from its start on.
proof fn lemma_class_body_suffix(s1: Seq<char>, i1: int, s2: Seq<char>, i2: int)
    requires
        suffix_agree(s1, i1, s2, i2),
    ensures
        match spec_class_body(s1, i1) {
            Some((j, attrs)) => spec_class_body(s2, i2) == Some((j + (i2 - i1), attrs)),
            None => spec_class_body(s2, i2) is None,
        },
{
    let d = i2 - i1;
    let j0 = spec_skip_ws(s1, i1);
    lemma_skip_ws_bounds(s1, i1);
    lemma_skip_ws_suffix(s1, i1, s2, i2);
    if j0 < s1.len() {
        assert(s1[i1 + (j0 - i1)] == s2[i2 + (j0 - i1)]);
        if s1[j0] == '{' {
            lemma_suffix_agree_advance(s1, i1, s2, i2, j0 + 1);
            lemma_attributes_suffix(s1, j0 + 1, s2, j0 + 1 + d);
            let (j, attrs) = spec_attributes(s1, j0 + 1);
            lemma_attributes_props(s1, j0 + 1);
            if j < s1.len() {
                assert(s1[i1 + (j - i1)] == s2[i2 + (j - i1)]);
                if s1[j] == '}' {
                    lemma_suffix_agree_advance(s1, i1, s2, i2, j + 1);
                    lemma_skip_ws_suffix(s1, j + 1, s2, j + 1 + d);
                }
            }
        }
    }
}

/// A class parse depends only on the text from its start on.
proof fn lemma_class_suffix(s1: Seq<char>, i1: int, s2: Seq<char>, i2: int)
    requires
        suffix_agree(s1, i1, s2, i2),
    ensures
        match spec_class(s1, i1) {
            Some((j, c)) => spec_class(s2, i2) == Some((j + (i2 - i1), c)),
            None => spec_class(s2, i2) is None,
        },
{
    let d = i2 - i1;
    let j0 = spec_skip_ws(s1, i1);
    lemma_skip_ws_bounds(s1, i1);
    lemma_skip_ws_suffix(s1, i1, s2, i2);
    lemma_suffix_agree_advance(s1, i1, s2, i2, j0);
    if j0 + 5 < s1.len() && s1[j0] == 'c' && s1[j0 + 1] == 'l' && s1[j0 + 2] == 'a' && s1[j0 + 3]
        == 's' && s1[j0 + 4] == 's' && is_ws(s1[j0 + 5]) {
        lemma_suffix_agree_advance(s1, i1, s2, i2, j0 + 5);
        let j1 = spec_skip_ws(s1, j0 + 5);
        lemma_skip_ws_bounds(s1, j0 + 5);
        lemma_skip_ws_suffix(s1, j0 + 5, s2, j0 + 5 + d);
        lemma_suffix_agree_advance(s1, i1, s2, i2, j1);
        let e1 = spec_ident_end(s1, j1);
        lemma_ident_end_bounds(s1, j1);
        lemma_ident_end_suffix(s1, j1, s2, j1 + d);
        if e1 != j1 {
            assert(s2.subrange(j1 + d, e1 + d) =~= s1.subrange(j1, e1));
            lemma_suffix_agree_advance(s1, i1, s2, i2, e1);
            let j2 = spec_skip_ws(s1, e1);
            lemma_skip_ws_bounds(s1, e1);
            lemma_skip_ws_suffix(s1, e1, s2, e1 + d);
            lemma_suffix_agree_advance(s1, i1, s2, i2, j2);
            if j2 < s1.len() && s1[j2] == ':' {
                lemma_suffix_agree_advance(s1, i1, s2, i2, j2 + 1);
                let j3 = spec_skip_ws(s1, j2 + 1);
                lemma_skip_ws_bounds(s1, j2 + 1);
                lemma_skip_ws_suffix(s1, j2 + 1, s2, j2 + 1 + d);
                lemma_suffix_agree_advance(s1, i1, s2, i2, j3);
                let e2 = spec_ident_end(s1, j3);
                lemma_ident_end_bounds(s1, j3);
                lemma_ident_end_suffix(s1, j3, s2, j3 + d);
                if e2 != j3 {
                    assert(s2.subrange(j3 + d, e2 + d) =~= s1.subrange(j3, e2));
                    lemma_suffix_agree_advance(s1, i1, s2, i2, e2);
                    lemma_class_body_suffix(s1, e2, s2, e2 + d);
                }
            } else {
                lemma_class_body_suffix(s1, j2, s2, j2 + d);
            }
        }
    } else {
        if spec_class(s2, i2) is Some {
            let j0b = spec_skip_ws(s2, i2);
            assert(j0b == j0 + d);
            lemma_suffix_agree_advance(s1, i1, s2, i2, j0);
            if j0 + 5 < s1.len() {
                assert(s1[j0] == s2[j0 + d] && s1[j0 + 1] == s2[j0 + 1 + d] && s1[j0 + 2] == s2[j0
                    + 2 + d] && s1[j0 + 3] == s2[j0 + 3 + d] && s1[j0 + 4] == s2[j0 + 4 + d]
                    && s1[j0 + 5] == s2[j0 + 5 + d]);
                assert(false);
            } else {
                assert(false);
            }
        }
    }
}

/// The class-list parse depends only on the text from its start on.
proof fn lemma_classes_suffix(s1: Seq<char>, i1: int, s2: Seq<char>, i2: int)
    requires
        suffix_agree(s1, i1, s2, i2),
    ensures
        spec_classes(s2, i2) == (
            spec_classes(s1, i1).0 + (i2 - i1),
            spec_classes(s1, i1).1,
        ),
    decreases s1.len() - i1,
{
    let d = i2 - i1;
    lemma_class_suffix(s1, i1, s2, i2);
    match spec_class(s1, i1) {
        Some((j, c)) => {
            lemma_class_props(s1, i1);
            lemma_suffix_agree_advance(s1, i1, s2, i2, j);
            lemma_classes_suffix(s1, j, s2, j + d);
        },
        None => {},
    }
}

/// A whitespace skip passes through any whitespace run it starts in.
proof fn lemma_skip_ws_through(s: Seq<char>, i: int, q: int)
    requires
        0 <= i <= q <= s.len(),
        forall|k: int| i <= k < q ==> is_ws(s[k]),
    ensures
        spec_skip_ws(s, i) == spec_skip_ws(s, q),
    decreases q - i,
{
    if i < q {
        lemma_skip_ws_through(s, i + 1, q);
    }
}

/// Law (whitespace invariance, at the front): whitespace before the
/// first declaration is insignificant. Prepending any whitespace to the
/// input leaves a successful parse's syntax tree unchanged — and so the
/// resolved diagram and its rendering — and leaves a failing parse
/// failing.
pub proof fn lemma_leading_ws_invariant(u: Seq<char>, s: Seq<char>)
    requires
        forall|k: int| 0 <= k < u.len() ==> is_ws(#[trigger] u[k]),
    ensures
        match spec_parse(s) {
            Ok(d) => spec_parse(u + s) == Ok::<DiagramView, int>(d),
            Err(off) => spec_parse(u + s) is Err,
        },
{
    let t = u + s;
    let ul = u.len() as int;
    let sl = s.len() as int;
    assert forall|k: int| 0 <= k < sl implies s[k] == t[ul + k] by {
        assert(t[ul + k] == s[k]);
    }
    assert forall|k: int| 0 <= k < ul implies is_ws(t[k]) by {
        assert(t[k] == u[k]);
    }
    assert(suffix_agree(s, 0, t, ul));

    // From past the prefix, `t` parses exactly as `s`, shifted.
    let (j, cs) = spec_classes(s, 0);
    lemma_classes_props(s, 0);
    lemma_classes_suffix(s, 0, t, ul);
    lemma_class_suffix(s, 0, t, ul);

    // Parsing `t` from the very start is the same from past the prefix:
    // the first thing a class parse does is skip whitespace, and the
    // prefix is whitespace.
    lemma_skip_ws_through(t, 0, ul);
    assert(spec_class(t, 0) == spec_class(t, ul));
    match spec_class(t, ul) {
        Some((jc, c)) => {
            lemma_class_props(t, ul);
            assert(spec_classes(t, 0) == spec_classes(t, ul));
        },
        None => {
            assert(spec_classes(t, 0) == (0int, Seq::<ClassView>::empty()));
            assert(spec_classes(t, ul) == (ul, Seq::<ClassView>::empty()));
            assert(spec_class(s, 0) is None);
            assert(spec_classes(s, 0) == (0int, Seq::<ClassView>::empty()));
        },
    }

    // The final check — only whitespace may remain — agrees on both
    // sides, since the remainders agree.
    lemma_skip_ws_bounds(s, j);
    lemma_suffix_agree_advance(s, 0, t, ul, j);
    lemma_skip_ws_suffix(s, j, t, j + ul);
    if spec_class(t, ul) is None {
        assert(spec_skip_ws(t, 0) == spec_skip_ws(t, ul));
    }
}

/// A whitespace character is not an identifier character and none of
/// the grammar's punctuation.
proof fn lemma_ws_not_ident(c: char)
    requires
        is_ws(c),
    ensures
        !is_ident_char(c),
        c != ';' && c != ':' && c != '{' && c != '}',
{
}

/// Appending one whitespace character extends exactly the whitespace
/// skips that reach the end of the input.
proof fn lemma_skip_ws_append(s: Seq<char>, c: char, q: int)
    requires
        0 <= q <= s.len(),
        is_ws(c),
    ensures
        spec_skip_ws(s.push(c), q) == if spec_skip_ws(s, q) < s.len() {
            spec_skip_ws(s, q)
        } else {
            s.len() as int + 1
        },
    decreases s.len() - q,
{
    let t = s.push(c);
    let n = s.len() as int;
    lemma_skip_ws_bounds(s, q);
    if q < s.len() {
        assert(t[q] == s[q]);
        if is_ws(s[q]) {
            lemma_skip_ws_append(s, c, q + 1);
            assert(spec_skip_ws(s, q) == spec_skip_ws(s, q + 1));
            assert(spec_skip_ws(t, q) == spec_skip_ws(t, q + 1));
        } else {
            assert(spec_skip_ws(s, q) == q);
            assert(spec_skip_ws(t, q) == q);
        }
    } else {
        assert(t[q] == c);
        assert(spec_skip_ws(s, q) == q);
        assert(spec_skip_ws(t, n + 1) == n + 1);
        assert(spec_skip_ws(t, q) == spec_skip_ws(t, n + 1));
    }
}

/// Appending a whitespace character never extends an identifier run.
proof fn lemma_ident_end_append(s: Seq<char>, c: char, q: int)
    requires
        0 <= q <= s.len(),
        is_ws(c),
    ensures
        spec_ident_end(s.push(c), q) == spec_ident_end(s, q),
    decreases s.len() - q,
{
    let t = s.push(c);
    lemma_ws_not_ident(c);
    if q < s.len() {
        assert(t[q] == s[q]);
        if is_ident_char(s[q]) {
            lemma_ident_end_append(s, c, q + 1);
        }
    } else {
        assert(t[q] == c);
    }
}

/// Appending one whitespace character leaves an attribute parse as it
/// was; only an end position at the very end of the input moves past
/// the appended character.
proof fn lemma_attribute_append(s: Seq<char>, c: char, q: int)
    requires
        0 <= q <= s.len(),
        is_ws(c),
    ensures
        match spec_attribute(s, q) {
            Some((j, a)) => spec_attribute(s.push(c), q) == Some(
                (
                    if j < s.len() {
                        j
                    } else {
                        j + 1
                    },
                    a,
                ),
            ),
            None => spec_attribute(s.push(c), q) is None,
        },
{
    let t = s.push(c);
    let n = s.len() as int;
    lemma_ws_not_ident(c);
    let j0 = spec_skip_ws(s, q);
    lemma_skip_ws_bounds(s, q);
    lemma_skip_ws_append(s, c, q);
    if j0 == n {
        assert(spec_ident_end(t, n + 1) == n + 1);
        assert(spec_ident_end(s, n) == n);
    } else {
        let e1 = spec_ident_end(s, j0);
        lemma_ident_end_bounds(s, j0);
        lemma_ident_end_append(s, c, j0);
        if e1 != j0 {
            assert(t.subrange(j0, e1) =~= s.subrange(j0, e1));
            let j1 = spec_skip_ws(s, e1);
            lemma_skip_ws_bounds(s, e1);
            lemma_skip_ws_append(s, c, e1);
            if j1 == n {
                assert(!(n + 1 < t.len()));
            } else {
                assert(t[j1] == s[j1]);
                if s[j1] == ':' {
                    let j2 = spec_skip_ws(s, j1 + 1);
                    lemma_skip_ws_bounds(s, j1 + 1);
                    lemma_skip_ws_append(s, c, j1 + 1);
                    if j2 == n {
                        assert(spec_ident_end(t, n + 1) == n + 1);
                        assert(spec_ident_end(s, n) == n);
                    } else {
                        let e2 = spec_ident_end(s, j2);
                        lemma_ident_end_bounds(s, j2);
                        lemma_ident_end_append(s, c, j2);
                        if e2 != j2 {
                            assert(t.subrange(j2, e2) =~= s.subrange(j2, e2));
                            lemma_skip_ws_bounds(s, e2);
                            lemma_skip_ws_append(s, c, e2);
                        }
                    }
                }
            }
        }
    }
}

/// Appending one whitespace character changes no attribute of the
/// list's tail and moves its end position one place at most.
proof fn lemma_attr_tail_append(s: Seq<char>, c: char, q: int, acc: Seq<AttributeView>)
    requires
        0 <= q <= s.len(),
        is_ws(c),
    ensures
        ({
            let (j, out) = spec_attr_tail(s, q, acc);
            let (jt, outt) = spec_attr_tail(s.push(c), q, acc);
            &&& outt == out
            &&& j <= jt <= j + 1
            &&& j < s.len() ==> jt == j
        }),
    decreases s.len() - q,
{
    let t = s.push(c);
    let n = s.len() as int;
    lemma_ws_not_ident(c);
    lemma_attr_tail_props(s, q, acc);
    if q < n && s[q] == ';' {
        assert(t[q] == s[q]);
        lemma_attribute_append(s, c, q + 1);
        match spec_attribute(s, q + 1) {
            Some((j2, a)) => {
                lemma_attribute_props(s, q + 1);
                if j2 < n {
                    lemma_attr_tail_append(s, c, j2, acc.push(a));
                    lemma_attr_tail_props(s, j2, acc.push(a));
                } else {
                    assert(spec_attr_tail(s, n, acc.push(a)) == (n, acc.push(a)));
                    assert(!(n + 1 < t.len()));
                    assert(spec_attr_tail(t, n + 1, acc.push(a)) == (n + 1, acc.push(a)));
                }
            },
            None => {
                lemma_skip_ws_bounds(s, q + 1);
                lemma_skip_ws_append(s, c, q + 1);
            },
        }
    } else {
        if q < n {
            assert(t[q] == s[q]);
        } else {
            assert(q == n && t[q] == c);
            assert(c != ';');
        }
    }
}

/// Appending one whitespace character changes no attribute of the list
/// and moves its end position one place at most.
proof fn lemma_attributes_append(s: Seq<char>, c: char, q: int)
    requires
        0 <= q <= s.len(),
        is_ws(c),
    ensures
        ({
            let (j, out) = spec_attributes(s, q);
            let (jt, outt) = spec_attributes(s.push(c), q);
            &&& outt == out
            &&& j <= jt <= j + 1
            &&& j < s.len() ==> jt == j
        }),
{
    let t = s.push(c);
    let n = s.len() as int;
    lemma_ws_not_ident(c);
    lemma_attribute_append(s, c, q);
    match spec_attribute(s, q) {
        Some((j1, a)) => {
            lemma_attribute_props(s, q);
            if j1 < n {
                lemma_attr_tail_append(s, c, j1, seq![a]);
                lemma_attr_tail_props(s, j1, seq![a]);
            } else {
                assert(spec_attr_tail(s, n, seq![a]) == (n, seq![a]));
                assert(!(n + 1 < t.len()));
                assert(spec_attr_tail(t, n + 1, seq![a]) == (n + 1, seq![a]));
            }
        },
        None => {
            let j0 = spec_skip_ws(s, q);
            lemma_skip_ws_bounds(s, q);
            lemma_skip_ws_append(s, c, q);
            if j0 < n {
                assert(t[j0] == s[j0]);
                if s[j0] == ';' {
                    lemma_skip_ws_bounds(s, j0 + 1);
                    lemma_skip_ws_append(s, c, j0 + 1);
                }
            } else {
                assert(t[j0] == c);
                assert(c != ';');
            }
        },
    }
}

/// Appending one whitespace character leaves a class-body parse as it
/// was; only an end position at the very end of the input moves past
/// the appended character.
proof fn lemma_class_body_append(s: Seq<char>, c: char, q: int)
    requires
        0 <= q <= s.len(),
        is_ws(c),
    ensures
        match spec_class_body(s, q) {
            Some((j, attrs)) => spec_class_body(s.push(c), q) == Some(
                (
                    if j < s.len() {
                        j
                    } else {
                        j + 1
                    },
                    attrs,
                ),
            ),
            None => spec_class_body(s.push(c), q) is None,
        },
{
    let t = s.push(c);
    let n = s.len() as int;
    lemma_ws_not_ident(c);
    let j0 = spec_skip_ws(s, q);
    lemma_skip_ws_bounds(s, q);
    lemma_skip_ws_append(s, c, q);
    if j0 < n {
        assert(t[j0] == s[j0]);
        if s[j0] == '{' {
            lemma_attributes_append(s, c, j0 + 1);
            let (ja, attrs) = spec_attributes(s, j0 + 1);
            lemma_attributes_props(s, j0 + 1);
            let (jat, _) = spec_attributes(t, j0 + 1);
            if ja < n {
                assert(jat == ja);
                assert(t[ja] == s[ja]);
                if s[ja] == '}' {
                    lemma_skip_ws_bounds(s, ja + 1);
                    lemma_skip_ws_append(s, c, ja + 1);
                }
            } else {
                assert(ja == n);
                if jat == n {
                    assert(t[n] == c);
                    assert(c != '}');
                } else {
                    assert(!(jat < t.len()));
                }
            }
        }
    } else {
        assert(t[j0] == c);
        assert(c != '{');
    }
}

/// Appending one whitespace character leaves a class parse as it was;
/// only an end position at the very end of the input moves past the
/// appended character.
proof fn lemma_class_append(s: Seq<char>, c: char, q: int)
    requires
        0 <= q <= s.len(),
        is_ws(c),
    ensures
        match spec_class(s, q) {
            Some((j, cl)) => spec_class(s.push(c), q) == Some(
                (
                    if j < s.len() {
                        j
                    } else {
                        j + 1
                    },
                    cl,
                ),
            ),
            None => spec_class(s.push(c), q) is None,
        },
{
    let t = s.push(c);
    let n = s.len() as int;
    lemma_ws_not_ident(c);
    let j0 = spec_skip_ws(s, q);
    lemma_skip_ws_bounds(s, q);
    lemma_skip_ws_append(s, c, q);
    if j0 + 5 < n && s[j0] == 'c' && s[j0 + 1] == 'l' && s[j0 + 2] == 'a' && s[j0 + 3] == 's'
        && s[j0 + 4] == 's' && is_ws(s[j0 + 5]) {
        assert(t[j0] == s[j0] && t[j0 + 1] == s[j0 + 1] && t[j0 + 2] == s[j0 + 2] && t[j0 + 3]
            == s[j0 + 3] && t[j0 + 4] == s[j0 + 4] && t[j0 + 5] == s[j0 + 5]);
        let j1 = spec_skip_ws(s, j0 + 5);
        lemma_skip_ws_bounds(s, j0 + 5);
        lemma_skip_ws_append(s, c, j0 + 5);
        if j1 == n {
            assert(spec_ident_end(t, n + 1) == n + 1);
            assert(spec_ident_end(s, n) == n);
        } else {
            let e1 = spec_ident_end(s, j1);
            lemma_ident_end_bounds(s, j1);
            lemma_ident_end_append(s, c, j1);
            if e1 != j1 {
                assert(t.subrange(j1, e1) =~= s.subrange(j1, e1));
                let j2 = spec_skip_ws(s, e1);
                lemma_skip_ws_bounds(s, e1);
                lemma_skip_ws_append(s, c, e1);
                if j2 < n && s[j2] == ':' {
                    assert(t[j2] == s[j2]);
                    let j3 = spec_skip_ws(s, j2 + 1);
                    lemma_skip_ws_bounds(s, j2 + 1);
                    lemma_skip_ws_append(s, c, j2 + 1);
                    if j3 == n {
                        assert(spec_ident_end(t, n + 1) == n + 1);
                        assert(spec_ident_end(s, n) == n);
                    } else {
                        let e2 = spec_ident_end(s, j3);
                        lemma_ident_end_bounds(s, j3);
                        lemma_ident_end_append(s, c, j3);
                        if e2 != j3 {
                            assert(t.subrange(j3, e2) =~= s.subrange(j3, e2));
                            lemma_class_body_append(s, c, e2);
                        }
                    }
                } else {
                    if j2 == n {
                        assert(t[j2] == c);
                        assert(c != ':');
                        lemma_class_body_append(s, c, j2);
                    } else {
                        assert(t[j2] == s[j2]);
                        lemma_class_body_append(s, c, j2);
                    }
                }
            }
        }
    } else {
        // The keyword did not match within `s`. With one whitespace
        // character appended it can match only when `s` ends right after
        // the keyword — and then no class name can follow.
        if j0 == n {
            assert(spec_skip_ws(t, q) == n + 1);
            assert(!(n + 1 + 5 < t.len()));
        } else {
            let j0t = spec_skip_ws(t, q);
            assert(j0t == j0);
            if j0 + 5 < t.len() && t[j0] == 'c' && t[j0 + 1] == 'l' && t[j0 + 2] == 'a' && t[j0 + 3]
                == 's' && t[j0 + 4] == 's' && is_ws(t[j0 + 5]) {
                assert(j0 + 5 == n || j0 + 5 < n);
                if j0 + 5 < n {
                    assert(s[j0] == t[j0] && s[j0 + 1] == t[j0 + 1] && s[j0 + 2] == t[j0 + 2] && s[j0
                        + 3] == t[j0 + 3] && s[j0 + 4] == t[j0 + 4] && s[j0 + 5] == t[j0 + 5]);
                    assert(false);
                } else {
                    // `s` ends right after the keyword; in the appended
                    // text only the new whitespace follows it.
                    assert(t[j0 + 5] == c);
                    assert(spec_skip_ws(t, n + 1) == n + 1);
                    assert(spec_skip_ws(t, j0 + 5) == spec_skip_ws(t, n + 1));
                    assert(spec_ident_end(t, n + 1) == n + 1);
                    assert(spec_class(t, q) is None);
                }
            }
        }
    }
}

/// Appending one whitespace character changes no class of the list,
/// and whatever follows the list is whitespace on one side exactly
/// where it is on the other.
proof fn lemma_classes_append(s: Seq<char>, c: char, q: int)
    requires
        0 <= q <= s.len(),
        is_ws(c),
    ensures
        ({
            let (j, cs) = spec_classes(s, q);
            let (jt, cst) = spec_classes(s.push(c), q);
            &&& cst == cs
            &&& j <= jt <= j + 1
            &&& (spec_skip_ws(s, j) == s.len() ==> spec_skip_ws(s.push(c), jt) == s.len() as int
                + 1)
            &&& (spec_skip_ws(s, j) < s.len() ==> spec_skip_ws(s.push(c), jt) == spec_skip_ws(
                s,
                j,
            ))
        }),
    decreases s.len() - q,
{
    let t = s.push(c);
    let n = s.len() as int;
    lemma_classes_props(s, q);
    lemma_class_append(s, c, q);
    match spec_class(s, q) {
        Some((j1, cl)) => {
            lemma_class_props(s, q);
            if j1 < n {
                lemma_classes_append(s, c, j1);
            } else {
                // The class consumed the whole input; nothing but the
                // appended whitespace remains on either side.
                assert(spec_classes(s, n) == (n, Seq::<ClassView>::empty()));
                assert(spec_class(t, n + 1) is None) by {
                    assert(spec_skip_ws(t, n + 1) == n + 1);
                    assert(!(n + 1 + 5 < t.len()));
                }
                assert(spec_classes(t, n + 1) == (n + 1, Seq::<ClassView>::empty()));
                assert(seq![cl] + Seq::<ClassView>::empty() =~= seq![cl]);
                assert(spec_skip_ws(s, n) == n);
                assert(spec_skip_ws(t, n + 1) == n + 1);
            }
        },
        None => {
            assert(spec_classes(t, q) == (q, Seq::<ClassView>::empty()));
            lemma_skip_ws_bounds(s, q);
            lemma_skip_ws_append(s, c, q);
        },
    }
}

/// Law (whitespace invariance, at the end): whitespace after the last
/// declaration is insignificant. Appending any whitespace to the input
/// leaves a successful parse's syntax tree unchanged — and so the
/// resolved diagram and its rendering — and leaves a failing parse
/// failing.
pub proof fn lemma_trailing_ws_invariant(s: Seq<char>, v: Seq<char>)
    requires
        forall|k: int| 0 <= k < v.len() ==> is_ws(#[trigger] v[k]),
    ensures
        match spec_parse(s) {
            Ok(d) => spec_parse(s + v) == Ok::<DiagramView, int>(d),
            Err(off) => spec_parse(s + v) is Err,
        },
    decreases v.len(),
{
    if v.len() == 0 {
        assert(s + v =~= s);
    } else {
        let c = v[0];
        let t = s.push(c);
        lemma_classes_append(s, c, 0);
        lemma_classes_props(s, 0);
        let (j, cs) = spec_classes(s, 0);
        lemma_skip_ws_bounds(s, j);
        let rest = v.subrange(1, v.len() as int);
        assert(forall|k: int| 0 <= k < rest.len() ==> is_ws(#[trigger] rest[k]));
        lemma_trailing_ws_invariant(t, rest);
        assert(t + rest =~= s + v);
    }
}

/// Law (whitespace invariance at the input's edges): whitespace around
/// the declarations is insignificant. Surrounding the input with any
/// whitespace leaves a successful parse's syntax tree — and so the
/// resolved diagram and its rendering — unchanged, and leaves a failing
/// parse failing.
pub proof fn lemma_surrounding_ws_invariant(u: Seq<char>, s: Seq<char>, v: Seq<char>)
    requires
        forall|k: int| 0 <= k < u.len() ==> is_ws(#[trigger] u[k]),
        forall|k: int| 0 <= k < v.len() ==> is_ws(#[trigger] v[k]),
    ensures
        match spec_parse(s) {
            Ok(d) => spec_parse(u + s + v) == Ok::<DiagramView, int>(d),
            Err(off) => spec_parse(u + s + v) is Err,
        },
{
    lemma_trailing_ws_invariant(s, v);
    lemma_leading_ws_invariant(u, s + v);
    assert(u + (s + v) =~= u + s + v);
}

/// The error returned when the input does not match the grammar: the
/// character offset where parsing stopped, and the text from there on.
#[derive(Debug, PartialEq)]
pub struct ParseError {
    pub offset: usize,
    pub rest: String,
}

fn is_ws_char(c: char) -> (r: bool)
    ensures
        r == is_ws(c),
{
    c == ' ' || c == '\t' || c == '\n'
}

fn is_ident_char_exec(c: char) -> (r: bool)
    ensures
        r == is_ident_char(c),
{
    let u = c as u32;
    ('0' as u32 <= u && u <= '9' as u32) || ('A' as u32 <= u && u <= 'Z' as u32) || ('a' as u32 <= u
        && u <= 'z' as u32)
}

/// Advances past whitespace.
pub fn skip_ws(s: &str, from: usize) -> (r: usize)
    requires
        from <= s@.len(),
    ensures
        r as int == spec_skip_ws(s@, from as int),
        from <= r <= s@.len(),
{
    let n = s.unicode_len();
    let mut i = from;
    while i < n && is_ws_char(s.get_char(i))
        invariant
            from <= i <= n,
            n == s@.len(),
            spec_skip_ws(s@, from as int) == spec_skip_ws(s@, i as int),
        decreases n - i,
    {
        i = i + 1;
    }
    i
}

/// Advances past identifier characters.
pub fn ident_end(s: &str, from: usize) -> (r: usize)
    requires
        from <= s@.len(),
    ensures
        r as int == spec_ident_end(s@, from as int),
        from <= r <= s@.len(),
{
    let n = s.unicode_len();
    let mut i = from;
    while i < n && is_ident_char_exec(s.get_char(i))
        invariant
            from <= i <= n,
            n == s@.len(),
            spec_ident_end(s@, from as int) == spec_ident_end(s@, i as int),
        decreases n - i,
    {
        i = i + 1;
    }
    i
}

/// Parses one attribute starting at `from`; returns the position after it
/// and its syntax tree, or nothing where the input holds no attribute.
pub fn attribute(s: &str, from: usize) -> (r: Option<(usize, crate::parser::ast::Attribute)>)
    requires
        from <= s@.len(),
    ensures
        match r {
            Some((j, a)) => spec_attribute(s@, from as int) == Some((j as int, a@)) && from < j
                <= s@.len(),
            None => spec_attribute(s@, from as int) is None,
        },
{
    proof {
        lemma_attribute_props(s@, from as int);
    }
    let n = s.unicode_len();
    let j0 = skip_ws(s, from);
    let e1 = ident_end(s, j0);
    if e1 == j0 {
        return None;
    }
    let name = s.substring_char(j0, e1).to_owned();
    let j1 = skip_ws(s, e1);
    if !(j1 < n && s.get_char(j1) == ':') {
        return None;
    }
    let j2 = skip_ws(s, j1 + 1);
    let e2 = ident_end(s, j2);
    if e2 == j2 {
        return None;
    }
    let typ = s.substring_char(j2, e2).to_owned();
    let j3 = skip_ws(s, e2);
    Some((j3, crate::parser::ast::Attribute { name, typ }))
}

/// Parses an attribute list starting at `from`: possibly empty,
/// `;`-separated, with one optional trailing `;`. It cannot fail; it
/// returns the position after the list and the attributes in source order.
pub fn attributes(s: &str, from: usize) -> (r: (usize, Vec<crate::parser::ast::Attribute>))
    requires
        from <= s@.len(),
    ensures
        ({
            let (j, attrs) = spec_attributes(s@, from as int);
            r.0 as int == j && r.1@.map_values(|a: crate::parser::ast::Attribute| a@) == attrs
        }),
{
    let n = s.unicode_len();
    let mut acc: Vec<crate::parser::ast::Attribute> = Vec::new();
    match attribute(s, from) {
        None => {
            let j0 = skip_ws(s, from);
            if j0 < n && s.get_char(j0) == ';' {
                let j = skip_ws(s, j0 + 1);
                assert(acc@.map_values(|a: crate::parser::ast::Attribute| a@) =~= Seq::<
                    AttributeView,
                >::empty());
                (j, acc)
            } else {
                assert(acc@.map_values(|a: crate::parser::ast::Attribute| a@) =~= Seq::<
                    AttributeView,
                >::empty());
                (j0, acc)
            }
        },
        Some((j, a)) => {
            let ghost first = a@;
            acc.push(a);
            let mut pos = j;
            assert(acc@.map_values(|a: crate::parser::ast::Attribute| a@) =~= seq![first]);
            while pos < n && s.get_char(pos) == ';'
                invariant
                    from <= pos <= n,
                    n == s@.len(),
                    spec_attributes(s@, from as int) == spec_attr_tail(
                        s@,
                        pos as int,
                        acc@.map_values(|a: crate::parser::ast::Attribute| a@),
                    ),
                decreases n - pos,
            {
                match attribute(s, pos + 1) {
                    Some((j2, a2)) => {
                        let ghost accv = acc@.map_values(
                            |a: crate::parser::ast::Attribute| a@,
                        );
                        let ghost a2v = a2@;
                        acc.push(a2);
                        assert(acc@.map_values(|a: crate::parser::ast::Attribute| a@)
                            =~= accv.push(a2v));
                        pos = j2;
                    },
                    None => {
                        let p = skip_ws(s, pos + 1);
                        return (p, acc);
                    },
                }
            }
            (pos, acc)
        },
    }
}

/// Parses a class body starting at `from`: `{`, an attribute list, `}`.
pub fn class_body(s: &str, from: usize) -> (r: Option<(usize, Vec<crate::parser::ast::Attribute>)>)
    requires
        from <= s@.len(),
    ensures
        match r {
            Some((j, attrs)) => spec_class_body(s@, from as int) == Some(
                ((j as int), attrs@.map_values(|a: crate::parser::ast::Attribute| a@)),
            ) && from < j <= s@.len(),
            None => spec_class_body(s@, from as int) is None,
        },
{
    proof {
        lemma_class_body_props(s@, from as int);
    }
    let n = s.unicode_len();
    let j0 = skip_ws(s, from);
    if !(j0 < n && s.get_char(j0) == '{') {
        return None;
    }
    let (j, attrs) = attributes(s, j0 + 1);
    proof {
        lemma_attributes_props(s@, j0 + 1 as int);
    }
    if !(j < n && s.get_char(j) == '}') {
        return None;
    }
    let end = skip_ws(s, j + 1);
    Some((end, attrs))
}

/// Parses one class declaration starting at `from`; returns the position
/// after it and its syntax tree, or nothing where the input holds no class.
pub fn class(s: &str, from: usize) -> (r: Option<(usize, crate::parser::ast::Class)>)
    requires
        from <= s@.len(),
    ensures
        match r {
            Some((j, c)) => spec_class(s@, from as int) == Some((j as int, c@)) && from < j
                <= s@.len(),
            None => spec_class(s@, from as int) is None,
        },
{
    proof {
        lemma_class_props(s@, from as int);
    }
    let n = s.unicode_len();
    let j0 = skip_ws(s, from);
    if j0 >= n || n - j0 < 6 {
        return None;
    }
    if !(s.get_char(j0) == 'c' && s.get_char(j0 + 1) == 'l' && s.get_char(j0 + 2) == 'a'
        && s.get_char(j0 + 3) == 's' && s.get_char(j0 + 4) == 's' && is_ws_char(
        s.get_char(j0 + 5),
    )) {
        return None;
    }
    let j1 = skip_ws(s, j0 + 5);
    let e1 = ident_end(s, j1);
    if e1 == j1 {
        return None;
    }
    let name = s.substring_char(j1, e1).to_owned();
    let j2 = skip_ws(s, e1);
    let (superclass, body_start): (Option<String>, usize) = if j2 < n && s.get_char(j2) == ':' {
        let j3 = skip_ws(s, j2 + 1);
        let e2 = ident_end(s, j3);
        if e2 == j3 {
            return None;
        }
        (Some(s.substring_char(j3, e2).to_owned()), e2)
    } else {
        (None, j2)
    };
    match class_body(s, body_start) {
        Some((j, attributes)) => Some(
            (j, crate::parser::ast::Class { name, superclass, attributes }),
        ),
        None => None,
    }
}

/// Parses a whole diagram source text.
///
/// Succeeds exactly on the inputs that the grammar consumes completely, and
/// then returns the declared classes in source order. On any other input it
/// fails with the offset where the last class ended and the text from there
/// on; no partial syntax tree is returned.
pub fn parse(input: &str) -> (r: Result<crate::parser::ast::Diagram, ParseError>)
    ensures
        match r {
            Ok(d) => spec_parse(input@) == Ok::<DiagramView, int>(d@),
            Err(e) => {
                &&& spec_parse(input@) == Err::<DiagramView, int>(e.offset as int)
                &&& e.rest@ == input@.subrange(e.offset as int, input@.len() as int)
            },
        },
{
    let n = input.unicode_len();
    let mut classes: Vec<crate::parser::ast::Class> = Vec::new();
    let mut pos: usize = 0;
    assert(classes@.map_values(|c: crate::parser::ast::Class| c@) =~= Seq::<ClassView>::empty());
    loop
        invariant
            pos <= n,
            n == input@.len(),
            spec_classes(input@, 0).0 == spec_classes(input@, pos as int).0,
            spec_classes(input@, 0).1 == classes@.map_values(|c: crate::parser::ast::Class| c@)
                + spec_classes(input@, pos as int).1,
        ensures
            pos <= n,
            spec_classes(input@, 0).0 == pos as int,
            spec_classes(input@, 0).1 == classes@.map_values(|c: crate::parser::ast::Class| c@),
        decreases n - pos,
    {
        match class(input, pos) {
            Some((j, c)) => {
                let ghost csv = classes@.map_values(|c: crate::parser::ast::Class| c@);
                let ghost cv = c@;
                classes.push(c);
                assert(classes@.map_values(|c: crate::parser::ast::Class| c@) =~= csv.push(cv));
                proof {
                    let (k, rest) = spec_classes(input@, j as int);
                    assert(csv.push(cv) + rest =~= csv + (seq![cv] + rest));
                }
                pos = j;
            },
            None => {
                assert(spec_classes(input@, pos as int) == (pos as int, Seq::<ClassView>::empty()));
                assert(classes@.map_values(|c: crate::parser::ast::Class| c@) + Seq::<
                    ClassView,
                >::empty() =~= classes@.map_values(|c: crate::parser::ast::Class| c@));
                break ;
            },
        }
    }
    let end = skip_ws(input, pos);
    if end == n {
        Ok(crate::parser::ast::Diagram { classes })
    } else {
        let rest = input.substring_char(pos, n).to_owned();
        Err(ParseError { offset: pos, rest })
    }
}

} // verus!
