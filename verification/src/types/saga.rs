//! Sagas and the order of their episodes.
use crate::ids::{self, new_uuid};
use crate::text::{self, clone_opt_string, clone_strings, single};
use crate::time::Timestamp;
use vstd::prelude::*;

verus! {

/// A thread of episodes.
#[derive(Debug)]
pub struct SagaNode {
    pub uuid: String,
    pub name: String,
    pub group_id: String,
    /// Always `Saga`.
    pub labels: Vec<String>,
    pub created_at: Timestamp,
    pub summary: String,
    pub first_episode_uuid: Option<String>,
    pub last_episode_uuid: Option<String>,
    /// When the summary was last written.
    pub last_summarized_at: Option<Timestamp>,
    /// The latest time of the episodes that the summary covers.
    pub last_summarized_episode_valid_at: Option<Timestamp>,
}

/// [`SagaNode`] as plain values.
pub struct SagaNodeView {
    pub uuid: Seq<char>,
    pub name: Seq<char>,
    pub group_id: Seq<char>,
    pub labels: Seq<Seq<char>>,
    pub created_at: Timestamp,
    pub summary: Seq<char>,
    pub first_episode_uuid: Option<Seq<char>>,
    pub last_episode_uuid: Option<Seq<char>>,
    pub last_summarized_at: Option<Timestamp>,
    pub last_summarized_episode_valid_at: Option<Timestamp>,
}

impl View for SagaNode {
    type V = SagaNodeView;

    open spec fn view(&self) -> SagaNodeView {
        SagaNodeView {
            uuid: self.uuid@,
            name: self.name@,
            group_id: self.group_id@,
            labels: text::views(self.labels@),
            created_at: self.created_at,
            summary: self.summary@,
            first_episode_uuid: text::opt_view(self.first_episode_uuid),
            last_episode_uuid: text::opt_view(self.last_episode_uuid),
            last_summarized_at: self.last_summarized_at,
            last_summarized_episode_valid_at: self.last_summarized_episode_valid_at,
        }
    }
}

impl Clone for SagaNode {
    fn clone(&self) -> (r: SagaNode)
        ensures
            r@ == self@,
    {
        SagaNode {
            uuid: self.uuid.clone(),
            name: self.name.clone(),
            group_id: self.group_id.clone(),
            labels: clone_strings(&self.labels),
            created_at: self.created_at,
            summary: self.summary.clone(),
            first_episode_uuid: clone_opt_string(&self.first_episode_uuid),
            last_episode_uuid: clone_opt_string(&self.last_episode_uuid),
            last_summarized_at: self.last_summarized_at,
            last_summarized_episode_valid_at: self.last_summarized_episode_valid_at,
        }
    }
}

impl SagaNode {
    /// A fresh saga without episodes or summary.
    pub fn new(
        name: String,
        group_id: String,
        created_at: Timestamp,
    ) -> (r: SagaNode)
        ensures
            ids::is_random_uuid(r@.uuid),
            r@ == (SagaNodeView {
                uuid: r@.uuid,
                name: name@,
                group_id: group_id@,
                labels: seq!["Saga"@],
                created_at: created_at,
                summary: Seq::empty(),
                first_episode_uuid: None,
                last_episode_uuid: None,
                last_summarized_at: None,
                last_summarized_episode_valid_at: None,
            }),
    {
        let r = SagaNode {
            uuid: new_uuid(),
            name: name,
            group_id: group_id,
            labels: single("Saga"),
            created_at: created_at,
            summary: String::new(),
            first_episode_uuid: None,
            last_episode_uuid: None,
            last_summarized_at: None,
            last_summarized_episode_valid_at: None,
        };
        r
    }
}

/// The membership of an episode in a saga.
#[derive(Debug)]
pub struct HasEpisodeEdge {
    pub uuid: String,
    pub source_node_uuid: String,
    pub target_node_uuid: String,
    pub group_id: String,
    pub created_at: Timestamp,
}

/// [`HasEpisodeEdge`] as plain values.
pub struct HasEpisodeEdgeView {
    pub uuid: Seq<char>,
    pub source_node_uuid: Seq<char>,
    pub target_node_uuid: Seq<char>,
    pub group_id: Seq<char>,
    pub created_at: Timestamp,
}

impl View for HasEpisodeEdge {
    type V = HasEpisodeEdgeView;

    open spec fn view(&self) -> HasEpisodeEdgeView {
        HasEpisodeEdgeView {
            uuid: self.uuid@,
            source_node_uuid: self.source_node_uuid@,
            target_node_uuid: self.target_node_uuid@,
            group_id: self.group_id@,
            created_at: self.created_at,
        }
    }
}

impl Clone for HasEpisodeEdge {
    fn clone(&self) -> (r: HasEpisodeEdge)
        ensures
            r@ == self@,
    {
        HasEpisodeEdge {
            uuid: self.uuid.clone(),
            source_node_uuid: self.source_node_uuid.clone(),
            target_node_uuid: self.target_node_uuid.clone(),
            group_id: self.group_id.clone(),
            created_at: self.created_at,
        }
    }
}

impl HasEpisodeEdge {
    /// A fresh membership.
    pub fn new(
        source_node_uuid: String,
        target_node_uuid: String,
        group_id: String,
        created_at: Timestamp,
    ) -> (r: HasEpisodeEdge)
        ensures
            ids::is_random_uuid(r@.uuid),
            r@ == (HasEpisodeEdgeView {
                uuid: r@.uuid,
                source_node_uuid: source_node_uuid@,
                target_node_uuid: target_node_uuid@,
                group_id: group_id@,
                created_at: created_at,
            }),
    {
        let r = HasEpisodeEdge {
            uuid: new_uuid(),
            source_node_uuid: source_node_uuid,
            target_node_uuid: target_node_uuid,
            group_id: group_id,
            created_at: created_at,
        };
        r
    }
}

/// The order of two episodes in a saga.
#[derive(Debug)]
pub struct NextEpisodeEdge {
    pub uuid: String,
    pub source_node_uuid: String,
    pub target_node_uuid: String,
    pub group_id: String,
    pub created_at: Timestamp,
}

/// [`NextEpisodeEdge`] as plain values.
pub struct NextEpisodeEdgeView {
    pub uuid: Seq<char>,
    pub source_node_uuid: Seq<char>,
    pub target_node_uuid: Seq<char>,
    pub group_id: Seq<char>,
    pub created_at: Timestamp,
}

impl View for NextEpisodeEdge {
    type V = NextEpisodeEdgeView;

    open spec fn view(&self) -> NextEpisodeEdgeView {
        NextEpisodeEdgeView {
            uuid: self.uuid@,
            source_node_uuid: self.source_node_uuid@,
            target_node_uuid: self.target_node_uuid@,
            group_id: self.group_id@,
            created_at: self.created_at,
        }
    }
}

impl Clone for NextEpisodeEdge {
    fn clone(&self) -> (r: NextEpisodeEdge)
        ensures
            r@ == self@,
    {
        NextEpisodeEdge {
            uuid: self.uuid.clone(),
            source_node_uuid: self.source_node_uuid.clone(),
            target_node_uuid: self.target_node_uuid.clone(),
            group_id: self.group_id.clone(),
            created_at: self.created_at,
        }
    }
}

impl NextEpisodeEdge {
    /// A fresh link from an episode to the one after it.
    pub fn new(
        source_node_uuid: String,
        target_node_uuid: String,
        group_id: String,
        created_at: Timestamp,
    ) -> (r: NextEpisodeEdge)
        ensures
            ids::is_random_uuid(r@.uuid),
            r@ == (NextEpisodeEdgeView {
                uuid: r@.uuid,
                source_node_uuid: source_node_uuid@,
                target_node_uuid: target_node_uuid@,
                group_id: group_id@,
                created_at: created_at,
            }),
    {
        let r = NextEpisodeEdge {
            uuid: new_uuid(),
            source_node_uuid: source_node_uuid,
            target_node_uuid: target_node_uuid,
            group_id: group_id,
            created_at: created_at,
        };
        r
    }
}

} // verus!
