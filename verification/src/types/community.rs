//! Communities and their members.
use crate::ids::{self, new_uuid};
use crate::text::{self, clone_strings, single};
use crate::time::Timestamp;
use crate::types::{self, clone_embedding, Embedding};
use vstd::prelude::*;

verus! {

/// A community of entities.
#[derive(Debug)]
pub struct CommunityNode {
    pub uuid: String,
    pub name: String,
    pub group_id: String,
    /// Always `Community`.
    pub labels: Vec<String>,
    pub created_at: Timestamp,
    pub summary: String,
    pub name_embedding: Option<Embedding>,
}

/// [`CommunityNode`] as plain values.
pub struct CommunityNodeView {
    pub uuid: Seq<char>,
    pub name: Seq<char>,
    pub group_id: Seq<char>,
    pub labels: Seq<Seq<char>>,
    pub created_at: Timestamp,
    pub summary: Seq<char>,
    pub name_embedding: Option<Seq<u32>>,
}

impl View for CommunityNode {
    type V = CommunityNodeView;

    open spec fn view(&self) -> CommunityNodeView {
        CommunityNodeView {
            uuid: self.uuid@,
            name: self.name@,
            group_id: self.group_id@,
            labels: text::views(self.labels@),
            created_at: self.created_at,
            summary: self.summary@,
            name_embedding: types::embedding_view(self.name_embedding),
        }
    }
}

impl Clone for CommunityNode {
    fn clone(&self) -> (r: CommunityNode)
        ensures
            r@ == self@,
    {
        CommunityNode {
            uuid: self.uuid.clone(),
            name: self.name.clone(),
            group_id: self.group_id.clone(),
            labels: clone_strings(&self.labels),
            created_at: self.created_at,
            summary: self.summary.clone(),
            name_embedding: clone_embedding(&self.name_embedding),
        }
    }
}

impl CommunityNode {
    /// A fresh community without summary or embedding.
    pub fn new(
        name: String,
        group_id: String,
        created_at: Timestamp,
    ) -> (r: CommunityNode)
        ensures
            ids::is_random_uuid(r@.uuid),
            r@ == (CommunityNodeView {
                uuid: r@.uuid,
                name: name@,
                group_id: group_id@,
                labels: seq!["Community"@],
                created_at: created_at,
                summary: Seq::empty(),
                name_embedding: None,
            }),
    {
        let r = CommunityNode {
            uuid: new_uuid(),
            name: name,
            group_id: group_id,
            labels: single("Community"),
            created_at: created_at,
            summary: String::new(),
            name_embedding: None,
        };
        r
    }
}

/// The membership of an entity in a community.
#[derive(Debug)]
pub struct CommunityEdge {
    pub uuid: String,
    pub source_node_uuid: String,
    pub target_node_uuid: String,
    pub group_id: String,
    pub created_at: Timestamp,
}

/// [`CommunityEdge`] as plain values.
pub struct CommunityEdgeView {
    pub uuid: Seq<char>,
    pub source_node_uuid: Seq<char>,
    pub target_node_uuid: Seq<char>,
    pub group_id: Seq<char>,
    pub created_at: Timestamp,
}

impl View for CommunityEdge {
    type V = CommunityEdgeView;

    open spec fn view(&self) -> CommunityEdgeView {
        CommunityEdgeView {
            uuid: self.uuid@,
            source_node_uuid: self.source_node_uuid@,
            target_node_uuid: self.target_node_uuid@,
            group_id: self.group_id@,
            created_at: self.created_at,
        }
    }
}

impl Clone for CommunityEdge {
    fn clone(&self) -> (r: CommunityEdge)
        ensures
            r@ == self@,
    {
        CommunityEdge {
            uuid: self.uuid.clone(),
            source_node_uuid: self.source_node_uuid.clone(),
            target_node_uuid: self.target_node_uuid.clone(),
            group_id: self.group_id.clone(),
            created_at: self.created_at,
        }
    }
}

impl CommunityEdge {
    /// A fresh membership.
    pub fn new(
        source_node_uuid: String,
        target_node_uuid: String,
        group_id: String,
        created_at: Timestamp,
    ) -> (r: CommunityEdge)
        ensures
            ids::is_random_uuid(r@.uuid),
            r@ == (CommunityEdgeView {
                uuid: r@.uuid,
                source_node_uuid: source_node_uuid@,
                target_node_uuid: target_node_uuid@,
                group_id: group_id@,
                created_at: created_at,
            }),
    {
        let r = CommunityEdge {
            uuid: new_uuid(),
            source_node_uuid: source_node_uuid,
            target_node_uuid: target_node_uuid,
            group_id: group_id,
            created_at: created_at,
        };
        r
    }
}

} // verus!
