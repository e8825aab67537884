//! Entities.
use crate::collections::StringMap;
use crate::ids::{self, new_uuid};
use crate::json::{self, clone_attributes, Json, JsonView};
use crate::text::{self, clone_strings, single};
use crate::time::Timestamp;
use crate::types::{self, clone_embedding, Embedding};
use vstd::prelude::*;

verus! {

/// An entity of the graph.
#[derive(Debug)]
pub struct EntityNode {
    pub uuid: String,
    pub name: String,
    pub group_id: String,
    /// `Entity`, followed by more specific types.
    pub labels: Vec<String>,
    pub created_at: Timestamp,
    pub summary: String,
    pub attributes: StringMap<Json>,
    pub name_embedding: Option<Embedding>,
}

/// [`EntityNode`] as plain values.
pub struct EntityNodeView {
    pub uuid: Seq<char>,
    pub name: Seq<char>,
    pub group_id: Seq<char>,
    pub labels: Seq<Seq<char>>,
    pub created_at: Timestamp,
    pub summary: Seq<char>,
    pub attributes: Map<Seq<char>, JsonView>,
    pub name_embedding: Option<Seq<u32>>,
}

impl View for EntityNode {
    type V = EntityNodeView;

    open spec fn view(&self) -> EntityNodeView {
        EntityNodeView {
            uuid: self.uuid@,
            name: self.name@,
            group_id: self.group_id@,
            labels: text::views(self.labels@),
            created_at: self.created_at,
            summary: self.summary@,
            attributes: json::attributes_view(self.attributes@),
            name_embedding: types::embedding_view(self.name_embedding),
        }
    }
}

impl Clone for EntityNode {
    fn clone(&self) -> (r: EntityNode)
        ensures
            r@ == self@,
    {
        EntityNode {
            uuid: self.uuid.clone(),
            name: self.name.clone(),
            group_id: self.group_id.clone(),
            labels: clone_strings(&self.labels),
            created_at: self.created_at,
            summary: self.summary.clone(),
            attributes: clone_attributes(&self.attributes),
            name_embedding: clone_embedding(&self.name_embedding),
        }
    }
}

impl EntityNode {
    /// A fresh entity without summary, attributes or embedding.
    pub fn new(
        name: String,
        group_id: String,
        created_at: Timestamp,
    ) -> (r: EntityNode)
        ensures
            ids::is_random_uuid(r@.uuid),
            r@ == (EntityNodeView {
                uuid: r@.uuid,
                name: name@,
                group_id: group_id@,
                labels: seq!["Entity"@],
                created_at: created_at,
                summary: Seq::empty(),
                attributes: Map::empty(),
                name_embedding: None,
            }),
    {
        let r = EntityNode {
            uuid: new_uuid(),
            name: name,
            group_id: group_id,
            labels: single("Entity"),
            created_at: created_at,
            summary: String::new(),
            attributes: StringMap::new(),
            name_embedding: None,
        };
        assert(r@.attributes =~= Map::<Seq<char>, JsonView>::empty());
        r
    }
}

} // verus!
