//! The merged record of one entity: its relationships by name and its grants.

use vstd::prelude::*;
use crate::parser::parse_location::{Parsed, ParsedModel};
use crate::parser::ruulang_ast::Grant;
use crate::parser::schema_ast::{Relationship, RelationshipModel};
use crate::utils::text::{copy_texts, texts};
use crate::utils::trie::{has_prefix, Path, Trie};

verus! {

/// The mathematical value of a [`TcEntity`].
pub struct TcEntityModel {
    pub name: Seq<char>,
    /// The relationships, by name.
    pub relationships: Map<Seq<char>, ParsedModel<RelationshipModel>>,
    /// The declared grants, by path.
    pub grants: Map<Path, ParsedModel<Path>>,
}

/// The record of an entity that nothing has been declared for yet.
pub open spec fn empty_record(name: Seq<char>) -> TcEntityModel {
    TcEntityModel { name, relationships: Map::empty(), grants: Map::empty() }
}

/// The name under which a relationship is filed.
pub open spec fn relationship_key(rel: ParsedModel<RelationshipModel>) -> Seq<char> {
    rel.data.relationship_name.data.value
}

/// Everything known of one entity once its declarations are merged.
///
/// A relationship name is declared once: a later declaration under a name
/// that is taken is dropped. A grant path is stored once.
pub struct TcEntity {
    pub name: String,
    relationships: Vec<Parsed<Relationship>>,
    grants: Trie<String, Parsed<Grant>>,
}

impl View for TcEntity {
    type V = TcEntityModel;

    closed spec fn view(&self) -> TcEntityModel {
        TcEntityModel {
            name: self.name@,
            relationships: Map::new(
                |k: Seq<char>| self.position(k).is_some(),
                |k: Seq<char>| self.relationships@[self.position(k).unwrap()]@,
            ),
            grants: Map::new(
                |p: Path| self.grants@.contains_key(p),
                |p: Path| self.grants@[p]@,
            ),
        }
    }
}

impl TcEntity {
    /// Where the relationship named `key` is kept.
    closed spec fn position(self, key: Seq<char>) -> Option<int> {
        if exists|i: int|
            0 <= i < self.relationships@.len() && relationship_key(
                (#[trigger] self.relationships@[i])@,
            ) == key {
            Some(
                choose|i: int|
                    0 <= i < self.relationships@.len() && relationship_key(
                        (#[trigger] self.relationships@[i])@,
                    ) == key,
            )
        } else {
            None
        }
    }

    /// The invariant of the representation.
    pub closed spec fn wf(self) -> bool {
        &&& self.grants.wf()
        &&& forall|i: int, j: int|
            0 <= i < j < self.relationships@.len() ==> relationship_key(
                (#[trigger] self.relationships@[i])@,
            ) != relationship_key((#[trigger] self.relationships@[j])@)
    }

    /// The entity's name.
    pub fn name(&self) -> (r: &String)
        ensures
            r@ == self@.name,
    {
        &self.name
    }

    proof fn lemma_position(self, i: int)
        requires
            self.wf(),
            0 <= i < self.relationships@.len(),
        ensures
            self.position(relationship_key(self.relationships@[i]@)) == Some(i),
    {
        let key = relationship_key(self.relationships@[i]@);
        let j = choose|j: int|
            0 <= j < self.relationships@.len() && relationship_key(
                (#[trigger] self.relationships@[j])@,
            ) == key;
        if j < i {
            assert(relationship_key(self.relationships@[j]@) != relationship_key(
                self.relationships@[i]@,
            ));
        } else if i < j {
            assert(relationship_key(self.relationships@[i]@) != relationship_key(
                self.relationships@[j]@,
            ));
        }
    }

    /// The record of `name` with nothing declared.
    pub fn new(name: String) -> (r: Self)
        ensures
            r.wf(),
            r@ == empty_record(name@),
    {
        let r = TcEntity { name, relationships: Vec::new(), grants: Trie::new() };
        proof {
            assert(r@.relationships =~= Map::empty());
            assert(r@.grants =~= Map::empty());
        }
        r
    }

    fn find(&self, key: &String) -> (r: Option<usize>)
        requires
            self.wf(),
        ensures
            match r {
                Some(i) => i < self.relationships@.len() && self.position(key@) == Some(i as int),
                None => self.position(key@).is_none(),
            },
    {
        let mut i: usize = 0;
        while i < self.relationships.len()
            invariant
                self.wf(),
                i <= self.relationships@.len(),
                forall|k: int|
                    0 <= k < i ==> relationship_key((#[trigger] self.relationships@[k])@) != key@,
            decreases self.relationships@.len() - i,
        {
            if self.relationships[i].data.relationship_name.data.value == *key {
                proof {
                    self.lemma_position(i as int);
                }
                return Some(i);
            }
            i += 1;
        }
        None
    }

    /// Files `rel` under its name unless the name is taken: the first
    /// declaration of a name stays.
    pub fn add_relationship(&mut self, rel: Parsed<Relationship>) -> (r: bool)
        requires
            old(self).wf(),
        ensures
            final(self).wf(),
            r == !old(self)@.relationships.contains_key(relationship_key(rel@)),
            final(self)@.name == old(self)@.name,
            final(self)@.grants == old(self)@.grants,
            final(self)@.relationships == (if r {
                old(self)@.relationships.insert(relationship_key(rel@), rel@)
            } else {
                old(self)@.relationships
            }),
    {
        let ghost before = *self;
        let ghost key = relationship_key(rel@);
        if self.find(&rel.data.relationship_name.data.value).is_some() {
            return false;
        }
        self.relationships.push(rel);
        proof {
            let n = before.relationships@.len() as int;
            assert(self.relationships@[n] == rel);
            assert forall|i: int| 0 <= i < n implies #[trigger] self.relationships@[i]
                == before.relationships@[i] by {}
            assert(self.wf());
            assert forall|k: Seq<char>| #[trigger]
                self@.relationships.contains_key(k) == before@.relationships.insert(
                    key,
                    rel@,
                ).contains_key(k) by {
                if k == key {
                    self.lemma_position(n);
                } else {
                    if before.position(k).is_some() {
                        let i = before.position(k).unwrap();
                        assert(relationship_key(self.relationships@[i]@) == k);
                    }
                    if self.position(k).is_some() {
                        let i = self.position(k).unwrap();
                        assert(i < n);
                        assert(relationship_key(before.relationships@[i]@) == k);
                    }
                }
            }
            assert forall|k: Seq<char>| #[trigger]
                self@.relationships.contains_key(k) implies self@.relationships[k]
                == before@.relationships.insert(key, rel@)[k] by {
                let i = self.position(k).unwrap();
                self.lemma_position(i);
                if k == key {
                    self.lemma_position(n);
                } else {
                    assert(i < n);
                    before.lemma_position(i);
                }
            }
            assert(self@.relationships =~= before@.relationships.insert(key, rel@));
            assert(self@.grants =~= before@.grants);
        }
        true
    }

    /// Stores `grant` under its path unless the path is empty or stored
    /// already.
    pub fn add_grant(&mut self, grant: Parsed<Grant>)
        requires
            old(self).wf(),
        ensures
            final(self).wf(),
            final(self)@.name == old(self)@.name,
            final(self)@.relationships == old(self)@.relationships,
            final(self)@.grants == (if grant@.data.len() > 0 && !old(self)@.grants.contains_key(
                grant@.data,
            ) {
                old(self)@.grants.insert(grant@.data, grant@)
            } else {
                old(self)@.grants
            }),
    {
        let ghost before = *self;
        if self.grants.contains(&grant.data.grant) {
            return ;
        }
        let path = copy_texts(&grant.data.grant);
        let added = self.grants.add(&path, grant);
        proof {
            assert(self.relationships@ == before.relationships@);
            assert forall|k: Seq<char>| self.position(k) == before.position(k) by {}
            assert(self@.relationships =~= before@.relationships);
            if added {
                assert(self@.grants =~= before@.grants.insert(grant@.data, grant@));
            } else {
                assert(self@.grants =~= before@.grants);
            }
        }
    }

    /// The relationship declared under `rule`, if there is one.
    pub fn get_rule<'a>(&'a self, rule: &String) -> (r: Option<&'a Parsed<Relationship>>)
        requires
            self.wf(),
        ensures
            r.is_some() == self@.relationships.contains_key(rule@),
            r.is_some() ==> r.unwrap()@ == self@.relationships[rule@],
    {
        match self.find(rule) {
            Some(i) => Some(&self.relationships[i]),
            None => None,
        }
    }

    /// Whether `grant` is, or leads towards, a declared grant.
    pub fn allows_grant(&self, grant: &Vec<String>) -> (r: bool)
        requires
            self.wf(),
        ensures
            r == has_prefix(self@.grants.dom(), texts(grant@)),
    {
        proof {
            assert(self@.grants.dom() =~= self.grants@.dom());
        }
        self.grants.contains_prefix(grant)
    }
}

} // verus!
