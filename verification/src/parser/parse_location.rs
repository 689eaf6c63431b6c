//! Location-bearing wrappers for syntax nodes.

use vstd::prelude::*;
use crate::parser::ruulang_ast::{
    Attribute, AttributeModel, Entrypoint, EntrypointModel, Fragment, FragmentModel, Grant, Rule,
    RuleModel,
};
use crate::parser::schema_ast::{Entity, EntityModel, Relationship, RelationshipModel};
use crate::utils::text::{copy_opt_text, opt_text};
use crate::utils::trie::Path;

verus! {

/// What an identifier names.
#[derive(Clone, Copy, Debug, PartialEq, Eq, Structural)]
pub enum IdentifierKind {
    Entity,
    Fragment,
    Rule,
    Attribute,
    Grant,
    Other,
}

/// A name together with the kind of thing it names.
#[derive(Debug)]
pub struct Identifier {
    pub value: String,
    pub kind: IdentifierKind,
}

/// The mathematical value of an [`Identifier`].
pub struct IdentifierModel {
    pub value: Seq<char>,
    pub kind: IdentifierKind,
}

impl View for Identifier {
    type V = IdentifierModel;

    open spec fn view(&self) -> IdentifierModel {
        IdentifierModel { value: self.value@, kind: self.kind }
    }
}

impl Identifier {
    pub fn new(value: String, kind: IdentifierKind) -> (r: Self)
        ensures
            r@ == (IdentifierModel { value: value@, kind }),
    {
        Identifier { value, kind }
    }
}

impl Clone for Identifier {
    fn clone(&self) -> (r: Self)
        ensures
            r@ == self@,
    {
        Identifier { value: self.value.clone(), kind: self.kind }
    }
}

/// The kind of node that a step of a descent passed, with the node.
#[derive(Debug)]
pub enum Context<'a> {
    /// No node: the step for the file itself.
    Empty,
    Rule(&'a Rule),
    Entrypoint(&'a Entrypoint),
    Entity(&'a Entity),
    Fragment(&'a Fragment),
    Attribute(&'a Attribute),
    Grant(&'a Grant),
    Relationship(&'a Relationship),
    Identifier(&'a Identifier),
}

/// The mathematical value of a [`Context`].
pub enum ContextModel {
    Empty,
    Rule(RuleModel),
    Entrypoint(EntrypointModel),
    Entity(EntityModel),
    Fragment(FragmentModel),
    Attribute(AttributeModel),
    Grant(Path),
    Relationship(RelationshipModel),
    Identifier(IdentifierModel),
}

impl<'a> View for Context<'a> {
    type V = ContextModel;

    open spec fn view(&self) -> ContextModel {
        match self {
            Context::Empty => ContextModel::Empty,
            Context::Rule(n) => ContextModel::Rule(n@),
            Context::Entrypoint(n) => ContextModel::Entrypoint(n@),
            Context::Entity(n) => ContextModel::Entity(n@),
            Context::Fragment(n) => ContextModel::Fragment(n@),
            Context::Attribute(n) => ContextModel::Attribute(n@),
            Context::Grant(n) => ContextModel::Grant(n@),
            Context::Relationship(n) => ContextModel::Relationship(n@),
            Context::Identifier(n) => ContextModel::Identifier(n@),
        }
    }
}

/// One step of a descent: the node that was passed, its name, and its
/// documentation.
#[derive(Debug)]
pub struct DescentContext<'a> {
    pub context: Context<'a>,
    pub name: Option<String>,
    pub docstring: Option<&'a String>,
}

/// The mathematical value of a [`DescentContext`].
pub struct DescentModel {
    pub context: ContextModel,
    pub name: Option<Seq<char>>,
    pub docstring: Option<Seq<char>>,
}

impl<'a> View for DescentContext<'a> {
    type V = DescentModel;

    open spec fn view(&self) -> DescentModel {
        DescentModel {
            context: self.context@,
            name: opt_text(self.name),
            docstring: match self.docstring {
                Some(d) => Some(d@),
                None => None,
            },
        }
    }
}

impl<'a> DescentContext<'a> {
    pub fn new(context: Context<'a>, name: Option<String>, docstring: Option<&'a String>) -> (r:
        Self)
        ensures
            r.context == context,
            r.name == name,
            r.docstring == docstring,
    {
        DescentContext { context, name, docstring }
    }
}

/// A payload with the byte range it was read from, the file it came from and
/// the documentation comment that preceded it.
#[derive(Debug)]
pub struct Parsed<T> {
    pub loc: Option<(usize, usize)>,
    pub file_name: Option<String>,
    pub docstring: Option<String>,
    pub data: T,
}

/// The mathematical value of a [`Parsed`] node.
pub struct ParsedModel<M> {
    pub loc: Option<(usize, usize)>,
    pub file_name: Option<Seq<char>>,
    pub docstring: Option<Seq<char>>,
    pub data: M,
}

impl<T: View> View for Parsed<T> {
    type V = ParsedModel<T::V>;

    open spec fn view(&self) -> ParsedModel<T::V> {
        ParsedModel {
            loc: self.loc,
            file_name: opt_text(self.file_name),
            docstring: opt_text(self.docstring),
            data: self.data@,
        }
    }
}

impl<T: View + Clone> Clone for Parsed<T> {
    fn clone(&self) -> (r: Self)
        ensures
            r.loc == self.loc,
            opt_text(r.file_name) == opt_text(self.file_name),
            opt_text(r.docstring) == opt_text(self.docstring),
            call_ensures(T::clone, (&self.data,), r.data),
    {
        Parsed {
            loc: self.loc,
            file_name: copy_opt_text(&self.file_name),
            docstring: copy_opt_text(&self.docstring),
            data: self.data.clone(),
        }
    }
}

impl<T: View> Parsed<T> {
    /// A node with every part given.
    pub fn new(
        data: T,
        loc: Option<(usize, usize)>,
        file_name: Option<String>,
        docstring: Option<String>,
    ) -> (r: Self)
        ensures
            r@ == (ParsedModel {
                loc,
                file_name: opt_text(file_name),
                docstring: opt_text(docstring),
                data: data@,
            }),
            r.data == data,
    {
        Parsed { loc, file_name, docstring, data }
    }

    /// A node at a byte range, with no file name and no documentation.
    pub fn new_at_loc(loc: (usize, usize), data: T) -> (r: Self)
        ensures
            r@ == (ParsedModel::<T::V> {
                loc: Some(loc),
                file_name: None,
                docstring: None,
                data: data@,
            }),
            r.data == data,
    {
        Parsed { loc: Some(loc), file_name: None, docstring: None, data }
    }

    /// A node with this node's location, file name and documentation around
    /// another payload.
    pub fn as_with_data<U: View>(&self, new_data: U) -> (r: Parsed<U>)
        ensures
            r@ == (ParsedModel {
                loc: self@.loc,
                file_name: self@.file_name,
                docstring: self@.docstring,
                data: new_data@,
            }),
            r.data == new_data,
    {
        Parsed {
            loc: self.loc,
            file_name: copy_opt_text(&self.file_name),
            docstring: copy_opt_text(&self.docstring),
            data: new_data,
        }
    }

    /// Replaces the payload and hands back the old one.
    pub fn into_with_data<U: View>(self, new_data: U) -> (r: (Parsed<U>, T))
        ensures
            r.0@ == (ParsedModel {
                loc: self@.loc,
                file_name: self@.file_name,
                docstring: self@.docstring,
                data: new_data@,
            }),
            r.0.data == new_data,
            r.1 == self.data,
    {
        let Parsed { loc, file_name, docstring, data } = self;
        (Parsed { loc, file_name, docstring, data: new_data }, data)
    }

    /// Replaces the file name and hands back the old one.
    pub fn into_with_filename(self, new_filename: String) -> (r: (Parsed<T>, Option<String>))
        ensures
            r.0@ == (ParsedModel {
                loc: self@.loc,
                file_name: Some(new_filename@),
                docstring: self@.docstring,
                data: self@.data,
            }),
            r.0.data == self.data,
            r.1 == self.file_name,
    {
        let Parsed { loc, file_name, docstring, data } = self;
        (Parsed { loc, file_name: Some(new_filename), docstring, data }, file_name)
    }

    /// Replaces the documentation and hands back the old one.
    pub fn into_with_docstring(self, new_docstring: Option<String>) -> (r: (
        Parsed<T>,
        Option<String>,
    ))
        ensures
            r.0@ == (ParsedModel {
                loc: self@.loc,
                file_name: self@.file_name,
                docstring: opt_text(new_docstring),
                data: self@.data,
            }),
            r.0.data == self.data,
            r.1 == self.docstring,
    {
        let Parsed { loc, file_name, docstring, data } = self;
        (Parsed { loc, file_name, docstring: new_docstring, data }, docstring)
    }
}

} // verus!
