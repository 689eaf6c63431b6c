//! Syntax of entity declarations.

use vstd::prelude::*;
use crate::parser::parse_location::{Identifier, IdentifierModel, Parsed, ParsedModel};
use crate::parser::ruulang_ast::{Attribute, AttributeModel, Grant};
use crate::utils::text::{copy_vec, views};

verus! {

/// A named edge from the declaring entity to another entity.
#[derive(Debug)]
pub struct Relationship {
    pub relationship_name: Parsed<Identifier>,
    pub entity_name: Parsed<Identifier>,
    pub attributes: Vec<Parsed<Attribute>>,
}

/// The mathematical value of a [`Relationship`].
pub struct RelationshipModel {
    pub relationship_name: ParsedModel<IdentifierModel>,
    pub entity_name: ParsedModel<IdentifierModel>,
    pub attributes: Seq<ParsedModel<AttributeModel>>,
}

impl View for Relationship {
    type V = RelationshipModel;

    open spec fn view(&self) -> RelationshipModel {
        RelationshipModel {
            relationship_name: self.relationship_name@,
            entity_name: self.entity_name@,
            attributes: views(self.attributes@),
        }
    }
}

impl Clone for Relationship {
    fn clone(&self) -> (r: Self)
        ensures
            r@ == self@,
    {
        Relationship {
            relationship_name: self.relationship_name.clone(),
            entity_name: self.entity_name.clone(),
            attributes: copy_vec(&self.attributes),
        }
    }
}

/// One declaration of an entity: its relationships and its grants.
#[derive(Debug)]
pub struct Entity {
    pub name: Parsed<Identifier>,
    pub relationships: Vec<Parsed<Relationship>>,
    pub grants: Vec<Parsed<Grant>>,
}

/// The mathematical value of an [`Entity`].
pub struct EntityModel {
    pub name: ParsedModel<IdentifierModel>,
    pub relationships: Seq<ParsedModel<RelationshipModel>>,
    pub grants: Seq<ParsedModel<Seq<Seq<char>>>>,
}

impl View for Entity {
    type V = EntityModel;

    open spec fn view(&self) -> EntityModel {
        EntityModel {
            name: self.name@,
            relationships: views(self.relationships@),
            grants: views(self.grants@),
        }
    }
}

impl Clone for Entity {
    fn clone(&self) -> (r: Self)
        ensures
            r@ == self@,
    {
        Entity {
            name: self.name.clone(),
            relationships: copy_vec(&self.relationships),
            grants: copy_vec(&self.grants),
        }
    }
}

/// The entity declarations of one source file.
#[derive(Debug)]
pub struct RuuLangSchema {
    pub entities: Vec<Parsed<Entity>>,
}

impl View for RuuLangSchema {
    type V = Seq<ParsedModel<EntityModel>>;

    open spec fn view(&self) -> Seq<ParsedModel<EntityModel>> {
        views(self.entities@)
    }
}

} // verus!
