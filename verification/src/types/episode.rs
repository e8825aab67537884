//! Episodes.
use crate::ids::{self, new_uuid};
use crate::text::{self, clone_strings};
use crate::time::Timestamp;
use vstd::prelude::*;

verus! {

/// The kind of text that an episode holds.
#[derive(Clone, Copy, Debug, PartialEq, Eq, Structural)]
pub enum EpisodeType {
    Message,
    Text,
    Json,
}

/// An episode: a piece of text with the time that it is about.
#[derive(Debug)]
pub struct EpisodicNode {
    pub uuid: String,
    pub name: String,
    pub group_id: String,
    pub labels: Vec<String>,
    pub source: EpisodeType,
    pub source_description: String,
    pub content: String,
    /// The facts derived from the episode.
    pub entity_edges: Vec<String>,
    pub created_at: Timestamp,
    /// When the text was written or the event took place.
    pub valid_at: Timestamp,
}

/// [`EpisodicNode`] as plain values.
pub struct EpisodicNodeView {
    pub uuid: Seq<char>,
    pub name: Seq<char>,
    pub group_id: Seq<char>,
    pub labels: Seq<Seq<char>>,
    pub source: EpisodeType,
    pub source_description: Seq<char>,
    pub content: Seq<char>,
    pub entity_edges: Seq<Seq<char>>,
    pub created_at: Timestamp,
    pub valid_at: Timestamp,
}

impl View for EpisodicNode {
    type V = EpisodicNodeView;

    open spec fn view(&self) -> EpisodicNodeView {
        EpisodicNodeView {
            uuid: self.uuid@,
            name: self.name@,
            group_id: self.group_id@,
            labels: text::views(self.labels@),
            source: self.source,
            source_description: self.source_description@,
            content: self.content@,
            entity_edges: text::views(self.entity_edges@),
            created_at: self.created_at,
            valid_at: self.valid_at,
        }
    }
}

impl Clone for EpisodicNode {
    fn clone(&self) -> (r: EpisodicNode)
        ensures
            r@ == self@,
    {
        EpisodicNode {
            uuid: self.uuid.clone(),
            name: self.name.clone(),
            group_id: self.group_id.clone(),
            labels: clone_strings(&self.labels),
            source: self.source,
            source_description: self.source_description.clone(),
            content: self.content.clone(),
            entity_edges: clone_strings(&self.entity_edges),
            created_at: self.created_at,
            valid_at: self.valid_at,
        }
    }
}

impl EpisodicNode {
    /// A fresh episode without labels or facts.
    pub fn new(
        name: String,
        group_id: String,
        source: EpisodeType,
        source_description: String,
        content: String,
        created_at: Timestamp,
        valid_at: Timestamp,
    ) -> (r: EpisodicNode)
        ensures
            ids::is_random_uuid(r@.uuid),
            r@ == (EpisodicNodeView {
                uuid: r@.uuid,
                name: name@,
                group_id: group_id@,
                labels: Seq::empty(),
                source: source,
                source_description: source_description@,
                content: content@,
                entity_edges: Seq::empty(),
                created_at: created_at,
                valid_at: valid_at,
            }),
    {
        let r = EpisodicNode {
            uuid: new_uuid(),
            name: name,
            group_id: group_id,
            labels: Vec::new(),
            source: source,
            source_description: source_description,
            content: content,
            entity_edges: Vec::new(),
            created_at: created_at,
            valid_at: valid_at,
        };
        assert(r@.labels =~= Seq::<Seq<char>>::empty());
        assert(r@.entity_edges =~= Seq::<Seq<char>>::empty());
        r
    }
}

} // verus!
