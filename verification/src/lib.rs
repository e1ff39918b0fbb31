//! A small class-diagram language: a parser for `class X : Super { a: T; ... }`
//! declarations, a builder that resolves attribute types into association and
//! inheritance relations, and a renderer that emits the diagram as a DOT graph.

pub mod diagram;
pub mod dot;
pub mod parser;

use vstd::prelude::*;

verus! {

use crate::diagram::{spec_build, Diagram};
use crate::dot::{render, spec_render};
use crate::parser::parse::{parse, spec_parse, ParseError};

/// Runs the whole pipeline on one source text: parses the class
/// declarations, resolves them into a diagram, and renders the diagram as
/// DOT text.
///
/// A syntax error in the input is returned as is. Every syntactically
/// valid input yields the rendered text of its resolved diagram: the
/// resolution and the rendering themselves never fail.
pub fn render_dot(input: &str) -> (r: Result<String, ParseError>)
    ensures
        match r {
            Ok(out) => {
                &&& spec_parse(input@) is Ok
                &&& out@ == spec_render(spec_build(spec_parse(input@)->Ok_0))
            },
            Err(e) => {
                &&& spec_parse(input@) is Err
                &&& e.offset as int == spec_parse(input@)->Err_0
                &&& e.rest@ == input@.subrange(e.offset as int, input@.len() as int)
            },
        },
{
    let ast = match parse(input) {
        Ok(ast) => ast,
        Err(e) => {
            return Err(e);
        },
    };
    let diagram = Diagram::build(&ast);
    proof {
        crate::parser::parse::lemma_spec_parse_wf(input@);
        crate::diagram::lemma_spec_build_wf(ast@);
    }
    Ok(render(&diagram))
}

} // verus!
