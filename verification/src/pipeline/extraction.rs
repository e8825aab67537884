//! What the model is told of an episode when it is asked for the entities of it.
use crate::json::{Json, JsonView};
use crate::llm::{self, LlmRequest, ModelSize};
use crate::llm::message::{self, Message};
use crate::pipeline::edge_ops;
use crate::pipeline::node_ops::{self, build_entity_types_context, previous_episodes_context};
use crate::prompts::extract_edges;
use crate::text::owned;
use crate::types;
use crate::types::episode::{EpisodeType, EpisodicNode, EpisodicNodeView};
use vstd::prelude::*;

verus! {

/// What the model is told of an episode, which depends on what the episode is.
#[derive(Debug)]
pub enum ExtractionContext {
    Message {
        entity_types: Json,
        previous_episodes: Json,
        episode_content: String,
        custom_extraction_instructions: String,
    },
    Json {
        entity_types: Json,
        source_description: String,
        episode_content: String,
        custom_extraction_instructions: String,
    },
    Text { entity_types: Json, episode_content: String, custom_extraction_instructions: String },
}

/// [`ExtractionContext`] as plain values.
pub enum ExtractionContextView {
    Message {
        entity_types: JsonView,
        previous_episodes: JsonView,
        episode_content: Seq<char>,
        custom_extraction_instructions: Seq<char>,
    },
    Json {
        entity_types: JsonView,
        source_description: Seq<char>,
        episode_content: Seq<char>,
        custom_extraction_instructions: Seq<char>,
    },
    Text {
        entity_types: JsonView,
        episode_content: Seq<char>,
        custom_extraction_instructions: Seq<char>,
    },
}

impl View for ExtractionContext {
    type V = ExtractionContextView;

    open spec fn view(&self) -> ExtractionContextView {
        match self {
            ExtractionContext::Message {
                entity_types,
                previous_episodes,
                episode_content,
                custom_extraction_instructions,
            } => ExtractionContextView::Message {
                entity_types: entity_types@,
                previous_episodes: previous_episodes@,
                episode_content: episode_content@,
                custom_extraction_instructions: custom_extraction_instructions@,
            },
            ExtractionContext::Json {
                entity_types,
                source_description,
                episode_content,
                custom_extraction_instructions,
            } => ExtractionContextView::Json {
                entity_types: entity_types@,
                source_description: source_description@,
                episode_content: episode_content@,
                custom_extraction_instructions: custom_extraction_instructions@,
            },
            ExtractionContext::Text {
                entity_types,
                episode_content,
                custom_extraction_instructions,
            } => ExtractionContextView::Text {
                entity_types: entity_types@,
                episode_content: episode_content@,
                custom_extraction_instructions: custom_extraction_instructions@,
            },
        }
    }
}

/// What the model is told of an episode: of a message the episodes before it, and of a document
/// where it comes from.
pub open spec fn told(
    episode: EpisodicNodeView,
    previous: Seq<EpisodicNodeView>,
    registry: Option<JsonView>,
    custom: Seq<char>,
) -> ExtractionContextView {
    match episode.source {
        EpisodeType::Message => ExtractionContextView::Message {
            entity_types: node_ops::entity_types(registry),
            previous_episodes: node_ops::episode_entries(previous),
            episode_content: episode.content,
            custom_extraction_instructions: custom,
        },
        EpisodeType::Json => ExtractionContextView::Json {
            entity_types: node_ops::entity_types(registry),
            source_description: episode.source_description,
            episode_content: episode.content,
            custom_extraction_instructions: custom,
        },
        EpisodeType::Text => ExtractionContextView::Text {
            entity_types: node_ops::entity_types(registry),
            episode_content: episode.content,
            custom_extraction_instructions: custom,
        },
    }
}

/// What the model is told of an episode.
pub fn extraction_context(
    episode: &EpisodicNode,
    previous_episodes: &[EpisodicNode],
    registry: Option<&Json>,
    custom_extraction_instructions: Option<&str>,
) -> (r: ExtractionContext)
    ensures
        r@ == told(
            episode@,
            types::episode_views(previous_episodes@),
            extract_edges::opt_json(registry),
            edge_ops::text_or_empty(custom_extraction_instructions),
        ),
{
    let entity_types = build_entity_types_context(registry);
    let custom_extraction_instructions = match custom_extraction_instructions {
        Some(custom) => owned(custom),
        None => owned(""),
    };
    match episode.source {
        EpisodeType::Message => ExtractionContext::Message {
            entity_types,
            previous_episodes: previous_episodes_context(previous_episodes),
            episode_content: episode.content.clone(),
            custom_extraction_instructions,
        },
        EpisodeType::Json => ExtractionContext::Json {
            entity_types,
            source_description: episode.source_description.clone(),
            episode_content: episode.content.clone(),
            custom_extraction_instructions,
        },
        EpisodeType::Text => ExtractionContext::Text {
            entity_types,
            episode_content: episode.content.clone(),
            custom_extraction_instructions,
        },
    }
}

/// The name of the request for the entities of an episode.
pub open spec fn extraction_name(source: EpisodeType) -> Seq<char> {
    match source {
        EpisodeType::Message => "extract_nodes.extract_message"@,
        EpisodeType::Json => "extract_nodes.extract_json"@,
        EpisodeType::Text => "extract_nodes.extract_text"@,
    }
}

/// Asks the model for the entities of an episode, with the messages that put it to the model.
pub fn extraction_request(source: EpisodeType, messages: Vec<Message>) -> (r: LlmRequest)
    ensures
        llm::asks(r, message::message_views(messages@), ModelSize::Medium, extraction_name(source)),
{
    let name = match source {
        EpisodeType::Message => "extract_nodes.extract_message",
        EpisodeType::Json => "extract_nodes.extract_json",
        EpisodeType::Text => "extract_nodes.extract_text",
    };
    LlmRequest::new(messages).named(name)
}

/// The model is told the content of every episode and the types of entities. Of a message it is told
/// the episodes before it, and of a document where it comes from.
pub proof fn law_model_is_told_of_the_episode(
    episode: EpisodicNodeView,
    previous: Seq<EpisodicNodeView>,
    registry: Option<JsonView>,
    custom: Seq<char>,
)
    ensures
        match told(episode, previous, registry, custom) {
            ExtractionContextView::Message {
                entity_types,
                previous_episodes,
                episode_content,
                custom_extraction_instructions,
            } => {
                &&& episode.source is Message
                &&& entity_types == node_ops::entity_types(registry)
                &&& previous_episodes == node_ops::episode_entries(previous)
                &&& episode_content == episode.content
                &&& custom_extraction_instructions == custom
            },
            ExtractionContextView::Json {
                entity_types,
                source_description,
                episode_content,
                custom_extraction_instructions,
            } => {
                &&& episode.source is Json
                &&& entity_types == node_ops::entity_types(registry)
                &&& source_description == episode.source_description
                &&& episode_content == episode.content
                &&& custom_extraction_instructions == custom
            },
            ExtractionContextView::Text {
                entity_types,
                episode_content,
                custom_extraction_instructions,
            } => {
                &&& episode.source is Text
                &&& entity_types == node_ops::entity_types(registry)
                &&& episode_content == episode.content
                &&& custom_extraction_instructions == custom
            },
        },
{
}

} // verus!
