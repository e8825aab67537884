//! What callers ask for and get back.
use crate::helpers::SEMAPHORE_LIMIT;
use crate::json::Json;
use crate::time::{epoch, Timestamp};
use crate::types::community::{CommunityEdge, CommunityNode};
use crate::types::edge::{EntityEdge, EpisodicEdge};
use crate::types::episode::{EpisodeType, EpisodicNode};
use crate::types::node::EntityNode;
use vstd::prelude::*;

verus! {

/// A request to ingest an episode.
#[derive(Debug)]
pub struct AddEpisodeRequest {
    pub name: String,
    pub episode_body: String,
    pub source: EpisodeType,
    pub source_description: String,
    pub reference_time: Timestamp,
    pub group_id: String,
    /// The identifier of an episode that is stored already.
    pub uuid: Option<String>,
    /// The episodes that give context, in the place of the latest ones.
    pub previous_episode_uuids: Option<Vec<String>>,
    /// The entity types that are looked for.
    pub entity_types: Option<Json>,
    pub custom_extraction_instructions: Option<String>,
    /// Whether the communities of the entities are updated.
    pub update_communities: bool,
    /// The saga that the episode belongs to.
    pub saga: Option<String>,
    /// The episode before it in the saga, where the caller knows it.
    pub saga_previous_episode_uuid: Option<String>,
}

impl AddEpisodeRequest {
    /// A request without anything that is optional.
    pub fn new(
        name: String,
        episode_body: String,
        source: EpisodeType,
        source_description: String,
        reference_time: Timestamp,
        group_id: String,
    ) -> (r: AddEpisodeRequest)
        ensures
            r == (AddEpisodeRequest {
                name,
                episode_body,
                source,
                source_description,
                reference_time,
                group_id,
                uuid: None,
                previous_episode_uuids: None,
                entity_types: None,
                custom_extraction_instructions: None,
                update_communities: false,
                saga: None,
                saga_previous_episode_uuid: None,
            }),
    {
        AddEpisodeRequest {
            name,
            episode_body,
            source,
            source_description,
            reference_time,
            group_id,
            uuid: None,
            previous_episode_uuids: None,
            entity_types: None,
            custom_extraction_instructions: None,
            update_communities: false,
            saga: None,
            saga_previous_episode_uuid: None,
        }
    }
}

impl Default for AddEpisodeRequest {
    /// An empty text at the epoch, without anything else.
    fn default() -> (r: AddEpisodeRequest)
        ensures
            r.name@.len() == 0,
            r.episode_body@.len() == 0,
            r.source == EpisodeType::Text,
            r.source_description@.len() == 0,
            r.reference_time.seconds() == 0,
            r.reference_time.nanoseconds() == 0,
            r.group_id@.len() == 0,
            r.uuid is None,
            r.previous_episode_uuids is None,
            r.entity_types is None,
            r.custom_extraction_instructions is None,
            !r.update_communities,
            r.saga is None,
            r.saga_previous_episode_uuid is None,
    {
        AddEpisodeRequest::new(
            String::new(),
            String::new(),
            EpisodeType::Text,
            String::new(),
            epoch(),
            String::new(),
        )
    }
}

/// What the ingestion of an episode stored.
#[derive(Debug)]
pub struct AddEpisodeResults {
    pub episode: EpisodicNode,
    pub episodic_edges: Vec<EpisodicEdge>,
    pub nodes: Vec<EntityNode>,
    pub edges: Vec<EntityEdge>,
    /// The communities that were updated; empty unless that was asked for.
    pub communities: Vec<CommunityNode>,
    /// The memberships that were added; empty unless that was asked for.
    pub community_edges: Vec<CommunityEdge>,
}

/// How many operations may be in flight at once: as many as asked for, and the usual number where
/// none is given.
pub fn permits(max_concurrency: usize) -> (r: usize)
    ensures
        r == (if max_concurrency == 0 {
            SEMAPHORE_LIMIT
        } else {
            max_concurrency
        }),
{
    if max_concurrency == 0 {
        SEMAPHORE_LIMIT
    } else {
        max_concurrency
    }
}

} // verus!
