//! Facts and mentions.
use crate::collections::StringMap;
use crate::ids::{self, new_uuid};
use crate::json::{self, clone_attributes, Json, JsonView};
use crate::text::{self, clone_strings};
use crate::time::{utc_now, Timestamp};
use crate::types::{self, clone_embedding, Embedding};
use vstd::prelude::*;

verus! {

/// A dated fact between two entities.
#[derive(Debug)]
pub struct EntityEdge {
    pub uuid: String,
    pub source_node_uuid: String,
    pub target_node_uuid: String,
    /// The type of the relation, such as `WORKS_AT`.
    pub name: String,
    pub fact: String,
    pub group_id: String,
    /// The episodes that mention the fact.
    pub episodes: Vec<String>,
    pub created_at: Timestamp,
    /// When the fact was found to be superseded.
    pub expired_at: Option<Timestamp>,
    /// When the fact became true.
    pub valid_at: Option<Timestamp>,
    /// When the fact stopped being true.
    pub invalid_at: Option<Timestamp>,
    pub attributes: StringMap<Json>,
    pub fact_embedding: Option<Embedding>,
}

/// [`EntityEdge`] as plain values.
pub struct EntityEdgeView {
    pub uuid: Seq<char>,
    pub source_node_uuid: Seq<char>,
    pub target_node_uuid: Seq<char>,
    pub name: Seq<char>,
    pub fact: Seq<char>,
    pub group_id: Seq<char>,
    pub episodes: Seq<Seq<char>>,
    pub created_at: Timestamp,
    pub expired_at: Option<Timestamp>,
    pub valid_at: Option<Timestamp>,
    pub invalid_at: Option<Timestamp>,
    pub attributes: Map<Seq<char>, JsonView>,
    pub fact_embedding: Option<Seq<u32>>,
}

impl View for EntityEdge {
    type V = EntityEdgeView;

    open spec fn view(&self) -> EntityEdgeView {
        EntityEdgeView {
            uuid: self.uuid@,
            source_node_uuid: self.source_node_uuid@,
            target_node_uuid: self.target_node_uuid@,
            name: self.name@,
            fact: self.fact@,
            group_id: self.group_id@,
            episodes: text::views(self.episodes@),
            created_at: self.created_at,
            expired_at: self.expired_at,
            valid_at: self.valid_at,
            invalid_at: self.invalid_at,
            attributes: json::attributes_view(self.attributes@),
            fact_embedding: types::embedding_view(self.fact_embedding),
        }
    }
}

impl Clone for EntityEdge {
    fn clone(&self) -> (r: EntityEdge)
        ensures
            r@ == self@,
    {
        EntityEdge {
            uuid: self.uuid.clone(),
            source_node_uuid: self.source_node_uuid.clone(),
            target_node_uuid: self.target_node_uuid.clone(),
            name: self.name.clone(),
            fact: self.fact.clone(),
            group_id: self.group_id.clone(),
            episodes: clone_strings(&self.episodes),
            created_at: self.created_at,
            expired_at: self.expired_at,
            valid_at: self.valid_at,
            invalid_at: self.invalid_at,
            attributes: clone_attributes(&self.attributes),
            fact_embedding: clone_embedding(&self.fact_embedding),
        }
    }
}

impl EntityEdge {
    /// A fresh fact without dates, episodes, attributes or embedding.
    pub fn new(
        source_node_uuid: String,
        target_node_uuid: String,
        name: String,
        fact: String,
        group_id: String,
    ) -> (r: EntityEdge)
        ensures
            ids::is_random_uuid(r@.uuid),
            r@ == (EntityEdgeView {
                uuid: r@.uuid,
                source_node_uuid: source_node_uuid@,
                target_node_uuid: target_node_uuid@,
                name: name@,
                fact: fact@,
                group_id: group_id@,
                episodes: Seq::empty(),
                created_at: r@.created_at,
                expired_at: None,
                valid_at: None,
                invalid_at: None,
                attributes: Map::empty(),
                fact_embedding: None,
            }),
    {
        let r = EntityEdge {
            uuid: new_uuid(),
            source_node_uuid: source_node_uuid,
            target_node_uuid: target_node_uuid,
            name: name,
            fact: fact,
            group_id: group_id,
            episodes: Vec::new(),
            created_at: utc_now(),
            expired_at: None,
            valid_at: None,
            invalid_at: None,
            attributes: StringMap::new(),
            fact_embedding: None,
        };
        assert(r@.attributes =~= Map::<Seq<char>, JsonView>::empty());
        assert(r@.episodes =~= Seq::<Seq<char>>::empty());
        r
    }
}

/// The mention of an entity in an episode.
#[derive(Debug)]
pub struct EpisodicEdge {
    pub uuid: String,
    pub source_node_uuid: String,
    pub target_node_uuid: String,
    pub group_id: String,
    pub created_at: Timestamp,
}

/// [`EpisodicEdge`] as plain values.
pub struct EpisodicEdgeView {
    pub uuid: Seq<char>,
    pub source_node_uuid: Seq<char>,
    pub target_node_uuid: Seq<char>,
    pub group_id: Seq<char>,
    pub created_at: Timestamp,
}

impl View for EpisodicEdge {
    type V = EpisodicEdgeView;

    open spec fn view(&self) -> EpisodicEdgeView {
        EpisodicEdgeView {
            uuid: self.uuid@,
            source_node_uuid: self.source_node_uuid@,
            target_node_uuid: self.target_node_uuid@,
            group_id: self.group_id@,
            created_at: self.created_at,
        }
    }
}

impl Clone for EpisodicEdge {
    fn clone(&self) -> (r: EpisodicEdge)
        ensures
            r@ == self@,
    {
        EpisodicEdge {
            uuid: self.uuid.clone(),
            source_node_uuid: self.source_node_uuid.clone(),
            target_node_uuid: self.target_node_uuid.clone(),
            group_id: self.group_id.clone(),
            created_at: self.created_at,
        }
    }
}

impl EpisodicEdge {
    /// A fresh mention.
    pub fn new(
        source_node_uuid: String,
        target_node_uuid: String,
        group_id: String,
        created_at: Timestamp,
    ) -> (r: EpisodicEdge)
        ensures
            ids::is_random_uuid(r@.uuid),
            r@ == (EpisodicEdgeView {
                uuid: r@.uuid,
                source_node_uuid: source_node_uuid@,
                target_node_uuid: target_node_uuid@,
                group_id: group_id@,
                created_at: created_at,
            }),
    {
        let r = EpisodicEdge {
            uuid: new_uuid(),
            source_node_uuid: source_node_uuid,
            target_node_uuid: target_node_uuid,
            group_id: group_id,
            created_at: created_at,
        };
        r
    }
}

} // verus!
