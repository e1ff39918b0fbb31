//! The abstract syntax tree produced by the parser.
//!
//! The AST is purely syntactic: an attribute's type name is an uninterpreted
//! identifier here, and nothing relates one class to another yet.

use vstd::prelude::*;

verus! {

/// True of the characters that may appear in an identifier: the ASCII
/// letters and digits.
pub open spec fn is_ident_char(c: char) -> bool {
    ('0' as u32 <= c as u32 && c as u32 <= '9' as u32) || ('A' as u32 <= c as u32 && c as u32
        <= 'Z' as u32) || ('a' as u32 <= c as u32 && c as u32 <= 'z' as u32)
}

/// A valid identifier: nonempty, made of letters and digits only.
pub open spec fn is_ident(s: Seq<char>) -> bool {
    s.len() > 0 && (forall|i: int| 0 <= i < s.len() ==> is_ident_char(s[i]))
}

/// The mathematical model of a parsed attribute.
#[verifier::ext_equal]
pub ghost struct AttributeView {
    pub name: Seq<char>,
    pub typ: Seq<char>,
}

impl AttributeView {
    /// Both parts of the attribute are identifiers.
    pub open spec fn wf(self) -> bool {
        is_ident(self.name) && is_ident(self.typ)
    }
}

/// The mathematical model of a parsed class declaration.
#[verifier::ext_equal]
pub ghost struct ClassView {
    pub name: Seq<char>,
    pub superclass: Option<Seq<char>>,
    pub attributes: Seq<AttributeView>,
}

impl ClassView {
    /// Every name in the declaration is an identifier.
    pub open spec fn wf(self) -> bool {
        &&& is_ident(self.name)
        &&& match self.superclass {
            Some(s) => is_ident(s),
            None => true,
        }
        &&& forall|i: int| 0 <= i < self.attributes.len() ==> (#[trigger] self.attributes[i]).wf()
    }
}

/// The mathematical model of a parsed diagram: the declared classes in
/// source order.
#[verifier::ext_equal]
pub ghost struct DiagramView {
    pub classes: Seq<ClassView>,
}

impl DiagramView {
    /// Every declaration is well formed.
    pub open spec fn wf(self) -> bool {
        forall|i: int| 0 <= i < self.classes.len() ==> (#[trigger] self.classes[i]).wf()
    }
}

/// An attribute declaration `name: Type`. The type name may or may not
/// denote a declared class; the parser does not know.
#[derive(Debug, PartialEq)]
pub struct Attribute {
    pub name: String,
    pub typ: String,
}

impl View for Attribute {
    type V = AttributeView;

    open spec fn view(&self) -> AttributeView {
        AttributeView { name: self.name@, typ: self.typ@ }
    }
}

/// A class declaration: its name, its optional superclass name, and its
/// attribute declarations in source order.
#[derive(Debug, PartialEq)]
pub struct Class {
    pub name: String,
    pub superclass: Option<String>,
    pub attributes: Vec<Attribute>,
}

impl View for Class {
    type V = ClassView;

    open spec fn view(&self) -> ClassView {
        ClassView {
            name: self.name@,
            superclass: match self.superclass {
                Some(s) => Some(s@),
                None => None,
            },
            attributes: self.attributes@.map_values(|a: Attribute| a@),
        }
    }
}

/// A parsed diagram: the class declarations in source order. Nothing is
/// resolved or deduplicated at this stage.
#[derive(Debug, PartialEq)]
pub struct Diagram {
    pub classes: Vec<Class>,
}

impl View for Diagram {
    type V = DiagramView;

    open spec fn view(&self) -> DiagramView {
        DiagramView { classes: self.classes@.map_values(|c: Class| c@) }
    }
}

} // verus!
