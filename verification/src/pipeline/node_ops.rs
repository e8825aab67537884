//! Extraction and resolution of entities.
use crate::collections::{StringMap, StringSet};
use crate::helpers::utc_now;
use crate::ids;
use crate::json::{
    self, attributes_to_json, clone_attributes, strings_to_json, text_member, Json, JsonView,
};
use crate::llm::Message;
use crate::llm::message;
use crate::pipeline::dedup_index::{
    self, build_candidate_indexes, find_similar, promote_resolved_node, Candidates,
    DedupCandidateIndexes,
};
use crate::pipeline::uuid_map;
use crate::prompts::dedupe_nodes::{self, nodes, NodesContext};
use crate::prompts::extract_edges;
use crate::prompts::models::{ExtractedEntity, NodeDuplicate};
use crate::text::{self, chars_of, is_blank, owned, replace_char, single, str_eq, string_of};
use crate::time::{self, isoformat};
use crate::types::{self, clone_nodes, EntityNode, EntityNodeView, EpisodicNode, EpisodicNodeView};
use vstd::prelude::*;

verus! {

/// How many entities one episode may yield.
pub const MAX_NODES: usize = 30;

/// How many known entities are looked at for one new entity.
pub const NODE_DEDUP_CANDIDATE_LIMIT: usize = 15;

/// The least cosine similarity of a known entity that is looked at: the bits of the
/// single-precision number 0.6.
pub const NODE_DEDUP_COSINE_MIN_SCORE: u32 = 0x3f19_999a;

/// What the deterministic and the model-backed passes of a resolution fill in.
#[derive(Debug)]
pub struct DedupResolutionState {
    /// For each new entity what it resolved to.
    pub resolved_nodes: Vec<Option<EntityNode>>,
    /// What each new entity's identifier became.
    pub uuid_map: StringMap<String>,
    /// The positions of the new entities that are open.
    pub unresolved_indices: Vec<usize>,
    /// The new entities that duplicate a known one, with that one.
    pub duplicate_pairs: Vec<(EntityNode, EntityNode)>,
}

/// A resolution in progress as plain values.
pub struct ResolutionView {
    pub resolved: Seq<Option<EntityNodeView>>,
    pub uuid_map: Map<Seq<char>, Seq<char>>,
    pub unresolved: Seq<usize>,
    pub duplicates: Seq<(EntityNodeView, EntityNodeView)>,
}

/// The views of optional entities.
pub open spec fn opt_node_views(nodes: Seq<Option<EntityNode>>) -> Seq<Option<EntityNodeView>> {
    nodes.map_values(
        |n: Option<EntityNode>|
            match n {
                Some(v) => Some(v@),
                None => None,
            },
    )
}

/// The views of pairs of entities.
pub open spec fn node_pair_views(pairs: Seq<(EntityNode, EntityNode)>) -> Seq<
    (EntityNodeView, EntityNodeView),
> {
    pairs.map_values(|p: (EntityNode, EntityNode)| (p.0@, p.1@))
}

impl View for DedupResolutionState {
    type V = ResolutionView;

    open spec fn view(&self) -> ResolutionView {
        ResolutionView {
            resolved: opt_node_views(self.resolved_nodes@),
            uuid_map: uuid_map::text_map(self.uuid_map@),
            unresolved: self.unresolved_indices@,
            duplicates: node_pair_views(self.duplicate_pairs@),
        }
    }
}

impl ResolutionView {
    /// The resolution once the new entity at `i` is found to be `found`.
    pub open spec fn record(self, i: int, node: EntityNodeView, found: EntityNodeView) -> ResolutionView {
        ResolutionView {
            resolved: self.resolved.update(i, Some(found)),
            uuid_map: self.uuid_map.insert(node.uuid, found.uuid),
            unresolved: self.unresolved,
            duplicates: if found.uuid != node.uuid {
                self.duplicates.push((node, found))
            } else {
                self.duplicates
            },
        }
    }

    /// The resolution once the new entity at `i` is left open.
    pub open spec fn leave_open(self, i: int) -> ResolutionView {
        ResolutionView { unresolved: self.unresolved.push(i as usize), ..self }
    }
}

/// The resolution after the first `k` new entities were looked up by name.
pub open spec fn resolved_by_name(
    c: Candidates,
    nodes: Seq<EntityNodeView>,
    start: ResolutionView,
    k: nat,
) -> ResolutionView
    decreases k,
{
    if k == 0 {
        start
    } else {
        let before = resolved_by_name(c, nodes, start, (k - 1) as nat);
        match dedup_index::similar_entity(c, nodes[k - 1]) {
            Some(found) => before.record(k - 1, nodes[k - 1], found),
            None => before.leave_open(k - 1),
        }
    }
}

impl DedupResolutionState {
    /// A resolution of `n` new entities of which none is looked at yet.
    pub fn new(n: usize) -> (r: DedupResolutionState)
        ensures
            r@ == (ResolutionView {
                resolved: Seq::new(n as nat, |i: int| None),
                uuid_map: Map::empty(),
                unresolved: Seq::empty(),
                duplicates: Seq::empty(),
            }),
            r.resolved_nodes@.len() == n,
    {
        let mut resolved_nodes: Vec<Option<EntityNode>> = Vec::new();
        let mut i: usize = 0;
        while i < n
            invariant
                i <= n,
                resolved_nodes@.len() == i,
                forall|j: int| 0 <= j < i ==> (#[trigger] resolved_nodes@[j]) is None,
            decreases n - i,
        {
            resolved_nodes.push(None);
            i += 1;
        }
        let r = DedupResolutionState {
            resolved_nodes,
            uuid_map: StringMap::new(),
            unresolved_indices: Vec::new(),
            duplicate_pairs: Vec::new(),
        };
        assert(r@.resolved =~= Seq::new(n as nat, |i: int| None::<EntityNodeView>));
        assert(r@.uuid_map =~= Map::<Seq<char>, Seq<char>>::empty());
        assert(r@.duplicates =~= Seq::<(EntityNodeView, EntityNodeView)>::empty());
        r
    }

    /// Records that the new entity at `i` is `found`.
    fn record(&mut self, i: usize, node: &EntityNode, found: EntityNode)
        requires
            i < old(self).resolved_nodes@.len(),
        ensures
            final(self)@ == old(self)@.record(i as int, node@, found@),
            final(self).resolved_nodes@.len() == old(self).resolved_nodes@.len(),
            final(self).unresolved_indices == old(self).unresolved_indices,
    {
        let ghost before = *self;
        self.uuid_map.insert(node.uuid.clone(), found.uuid.clone());
        if !str_eq(found.uuid.as_str(), node.uuid.as_str()) {
            self.duplicate_pairs.push((node.clone(), found.clone()));
        }
        let ghost f = found@;
        self.resolved_nodes.set(i, Some(found));
        proof {
            let goal = before@.record(i as int, node@, f);
            assert(self@.resolved =~= goal.resolved);
            assert(self@.uuid_map =~= goal.uuid_map);
            assert(self@.duplicates =~= goal.duplicates);
        }
    }
}

/// Looks every new entity up by name: by the only known entity with the same normal form, or
/// by approximate matching. What stays open is listed.
pub fn resolve_with_similarity(
    extracted_nodes: &[EntityNode],
    indexes: &DedupCandidateIndexes,
    state: &mut DedupResolutionState,
)
    requires
        extracted_nodes@.len() <= old(state).resolved_nodes@.len(),
    ensures
        final(state)@ == resolved_by_name(
            indexes@,
            types::node_views(extracted_nodes@),
            old(state)@,
            extracted_nodes@.len(),
        ),
        final(state).resolved_nodes@.len() == old(state).resolved_nodes@.len(),
{
    let ghost all = types::node_views(extracted_nodes@);
    let ghost start = state@;
    let mut i: usize = 0;
    while i < extracted_nodes.len()
        invariant
            i <= extracted_nodes@.len(),
            extracted_nodes@.len() <= state.resolved_nodes@.len(),
            state.resolved_nodes@.len() == old(state).resolved_nodes@.len(),
            all == types::node_views(extracted_nodes@),
            state@ == resolved_by_name(indexes@, all, start, i as nat),
        decreases extracted_nodes.len() - i,
    {
        let node = &extracted_nodes[i];
        assert(all[i as int] == node@);
        match find_similar(indexes, node) {
            Some(found) => {
                state.record(i, node, found);
            },
            None => {
                let ghost before = *state;
                state.unresolved_indices.push(i);
                assert(state@ == before@.leave_open(i as int));
            },
        }
        i += 1;
    }
}

/// The description of the entity type that every entity has.
pub const ENTITY_DESCRIPTION: &'static str = "A specific, identifiable entity that does not fit any of the other listed types. Must still be a concrete, meaningful thing — specific enough to be uniquely identifiable. GOOD: a named entity not covered by the other types. BAD: \"luck\", \"ideas\", \"tomorrow\", \"things\", \"them\", \"everybody\", \"a sense of wonder\", \"great times\". When in doubt, do not extract the entity.";

/// An entity type as the model is shown it.
pub open spec fn entity_type_entry(id: int, name: Seq<char>, description: JsonView) -> JsonView {
    JsonView::Object(
        seq![
            ("entity_type_description"@, description),
            ("entity_type_id"@, JsonView::Int(id)),
            ("entity_type_name"@, JsonView::Str(name)),
        ],
    )
}

/// The description that a registered entity type gives; null where it gives none.
pub open spec fn registered_description(model: JsonView) -> JsonView {
    match json::json_member(model, "description"@) {
        Some(d) => d,
        None => JsonView::Null,
    }
}

/// The entity types that the model is shown: `Entity` under id 0, then the registered ones.
pub open spec fn entity_types(registry: Option<JsonView>) -> JsonView {
    let first = entity_type_entry(0, "Entity"@, JsonView::Str(ENTITY_DESCRIPTION@));
    match registry {
        Some(JsonView::Object(members)) => JsonView::Array(
            seq![first] + members.map(
                |i: int, m: (Seq<char>, JsonView)| entity_type_entry(
                    i + 1,
                    m.0,
                    registered_description(m.1),
                ),
            ),
        ),
        _ => JsonView::Array(seq![first]),
    }
}

fn make_entity_type(id: usize, name: &str, description: Json) -> (r: Json)
    ensures
        r@ == entity_type_entry(id as int, name@, description@),
{
    let mut members: Vec<(String, Json)> = Vec::new();
    members.push((owned("entity_type_description"), description));
    members.push((owned("entity_type_id"), Json::Int(id as i128)));
    members.push(text_member("entity_type_name", name));
    proof {
        json::lemma_member_views_index(members@);
        assert(json::member_views(members@) =~= seq![
            ("entity_type_description"@, description@),
            ("entity_type_id"@, JsonView::Int(id as int)),
            ("entity_type_name"@, JsonView::Str(name@)),
        ]);
    }
    Json::Object(members)
}

/// The entity types that the model is shown. The registry maps type names to objects with a
/// description.
pub fn build_entity_types_context(registry: Option<&Json>) -> (r: Json)
    ensures
        r@ == entity_types(extract_edges::opt_json(registry)),
{
    let mut out: Vec<Json> = Vec::new();
    out.push(make_entity_type(0, "Entity", Json::Str(owned(ENTITY_DESCRIPTION))));
    match registry {
        Some(Json::Object(members)) => {
            let ghost all = json::member_views(members@);
            let mut i: usize = 0;
            proof {
                json::lemma_member_views_index(members@);
            }
            while i < members.len()
                invariant
                    i <= members@.len(),
                    all == json::member_views(members@),
                    all.len() == members@.len(),
                    forall|j: int|
                        0 <= j < members@.len() ==> #[trigger] all[j] == (
                            members@[j].0@,
                            members@[j].1@,
                        ),
                    out@.len() == i + 1,
                    out@[0]@ == entity_type_entry(
                        0,
                        "Entity"@,
                        JsonView::Str(ENTITY_DESCRIPTION@),
                    ),
                    forall|j: int|
                        0 <= j < i ==> (#[trigger] out@[j + 1])@ == entity_type_entry(
                            j + 1,
                            all[j].0,
                            registered_description(all[j].1),
                        ),
                decreases members.len() - i,
            {
                assert(all[i as int] == (members@[i as int].0@, members@[i as int].1@));
                let description = match members[i].1.member("description") {
                    Some(d) => d.clone(),
                    None => Json::Null,
                };
                let ghost before = out@;
                out.push(make_entity_type(i + 1, members[i].0.as_str(), description));
                proof {
                    assert forall|j: int| 0 <= j < i + 1 implies (#[trigger] out@[j + 1])@
                        == entity_type_entry(j + 1, all[j].0, registered_description(all[j].1)) by {
                        if j < i {
                            assert(out@[j + 1] == before[j + 1]);
                        }
                    }
                }
                i += 1;
            }
            proof {
                json::lemma_json_views_index(out@);
                let goal = seq![
                    entity_type_entry(0, "Entity"@, JsonView::Str(ENTITY_DESCRIPTION@)),
                ] + all.map(
                    |i: int, m: (Seq<char>, JsonView)| entity_type_entry(
                        i + 1,
                        m.0,
                        registered_description(m.1),
                    ),
                );
                assert forall|j: int| 0 <= j < goal.len() implies json::json_views(out@)[j] == goal[j] by {
                    if j > 0 {
                        assert(out@[(j - 1) + 1]@ == entity_type_entry(
                            j,
                            all[j - 1].0,
                            registered_description(all[j - 1].1),
                        ));
                    }
                }
                assert(json::json_views(out@) =~= goal);
            }
        },
        _ => {
            proof {
                json::lemma_json_views_index(out@);
                assert(json::json_views(out@) =~= seq![
                    entity_type_entry(0, "Entity"@, JsonView::Str(ENTITY_DESCRIPTION@)),
                ]);
            }
        },
    }
    Json::Array(out)
}

/// The name of the entity type with an id; `Entity` where there is none.
pub open spec fn name_of_type(types: JsonView, id: int) -> Seq<char> {
    match types {
        JsonView::Array(items) => if 0 <= id < items.len() {
            match json::json_member(items[id], "entity_type_name"@) {
                Some(JsonView::Str(name)) => name,
                _ => "Entity"@,
            }
        } else {
            "Entity"@
        },
        _ => "Entity"@,
    }
}

/// The name of the entity type with an id among the types that the model was shown.
pub fn entity_type_name_for_id(entity_types_context: &Json, type_id: i64) -> (r: String)
    ensures
        r@ == name_of_type(entity_types_context@, type_id as int),
{
    match entity_types_context {
        Json::Array(items) => {
            proof {
                json::lemma_json_views_index(items@);
            }
            if type_id >= 0 && (type_id as u64) < items.len() as u64 {
                let entry = &items[type_id as usize];
                assert(json::json_views(items@)[type_id as int] == entry@);
                match entry.member("entity_type_name") {
                    Some(Json::Str(name)) => {
                        return name.clone();
                    },
                    _ => {},
                }
            }
            owned("Entity")
        },
        _ => owned("Entity"),
    }
}

/// The labels of an entity of a type.
pub open spec fn type_labels(name: Seq<char>) -> Seq<Seq<char>> {
    if name == "Entity"@ {
        seq!["Entity"@]
    } else {
        seq!["Entity"@, name]
    }
}

/// The labels of an entity of a type.
pub fn labels_for(entity_type_name: &str) -> (r: Vec<String>)
    ensures
        text::views(r@) == type_labels(entity_type_name@),
{
    let mut out = single("Entity");
    if !str_eq(entity_type_name, "Entity") {
        let ghost before = out@;
        out.push(owned(entity_type_name));
        assert(text::views(out@) =~= text::views(before).push(entity_type_name@));
        assert(text::views(out@) =~= type_labels(entity_type_name@));
    }
    out
}

/// What the model is told of the type of an entity: no registry is at hand when entities are
/// resolved, so it is always the same.
pub fn get_entity_type_description(labels: &[String]) -> (r: &'static str)
    ensures
        r@ == "Default Entity Type"@,
{
    "Default Entity Type"
}

/// An earlier episode as the model is shown it.
pub open spec fn episode_entry(e: EpisodicNodeView) -> JsonView {
    JsonView::Object(
        seq![
            ("content"@, JsonView::Str(e.content)),
            ("timestamp"@, JsonView::Str(time::iso_text(e.valid_at))),
        ],
    )
}

/// Earlier episodes as the model is shown them.
pub open spec fn episode_entries(episodes: Seq<EpisodicNodeView>) -> JsonView {
    JsonView::Array(episodes.map_values(|e: EpisodicNodeView| episode_entry(e)))
}

/// Earlier episodes as the model is shown them: content and time of each.
pub fn previous_episodes_context(previous_episodes: &[EpisodicNode]) -> (r: Json)
    ensures
        r@ == episode_entries(types::episode_views(previous_episodes@)),
{
    let mut out: Vec<Json> = Vec::new();
    let mut i: usize = 0;
    while i < previous_episodes.len()
        invariant
            i <= previous_episodes@.len(),
            out@.len() == i,
            forall|j: int|
                0 <= j < i ==> (#[trigger] out@[j])@ == episode_entry(previous_episodes@[j]@),
        decreases previous_episodes.len() - i,
    {
        let episode = &previous_episodes[i];
        let mut members: Vec<(String, Json)> = Vec::new();
        members.push(text_member("content", episode.content.as_str()));
        let time = isoformat(episode.valid_at);
        members.push(text_member("timestamp", time.as_str()));
        proof {
            json::lemma_member_views_index(members@);
            assert(json::member_views(members@) =~= seq![
                ("content"@, JsonView::Str(episode@.content)),
                ("timestamp"@, JsonView::Str(time::iso_text(episode@.valid_at))),
            ]);
        }
        out.push(Json::Object(members));
        i += 1;
    }
    proof {
        json::lemma_json_views_index(out@);
        assert(json::json_views(out@) =~= types::episode_views(previous_episodes@).map_values(
            |e: EpisodicNodeView| episode_entry(e),
        ));
    }
    Json::Array(out)
}

/// The extracted entities whose names are not blank, in order.
pub open spec fn named_entities(entities: Seq<ExtractedEntity>) -> Seq<ExtractedEntity>
    decreases entities.len(),
{
    if entities.len() == 0 {
        Seq::empty()
    } else if text::trim(entities.last().name@).len() == 0 {
        named_entities(entities.drop_last())
    } else {
        named_entities(entities.drop_last()).push(entities.last())
    }
}

/// Holds where `node` is the fresh node of an extracted entity.
pub open spec fn is_node_of(
    node: EntityNodeView,
    entity: ExtractedEntity,
    types: JsonView,
    group_id: Seq<char>,
) -> bool {
    &&& ids::is_random_uuid(node.uuid)
    &&& node == EntityNodeView {
        uuid: node.uuid,
        name: entity.name@,
        group_id,
        labels: type_labels(name_of_type(types, entity.entity_type_id as int)),
        created_at: node.created_at,
        summary: Seq::empty(),
        attributes: Map::empty(),
        name_embedding: None,
    }
}

/// The nodes of the entities that the model found in an episode: one for each entity whose
/// name is not blank, labelled by its type, without summary or attributes.
pub fn nodes_from_extraction(
    entities: &Vec<ExtractedEntity>,
    entity_types_context: &Json,
    group_id: &str,
) -> (r: Vec<EntityNode>)
    ensures
        r@.len() == named_entities(entities@).len(),
        forall|i: int|
            0 <= i < r@.len() ==> is_node_of(
                (#[trigger] r@[i])@,
                named_entities(entities@)[i],
                entity_types_context@,
                group_id@,
            ),
{
    let mut out: Vec<EntityNode> = Vec::new();
    let mut i: usize = 0;
    while i < entities.len()
        invariant
            i <= entities@.len(),
            out@.len() == named_entities(entities@.take(i as int)).len(),
            forall|j: int|
                0 <= j < out@.len() ==> is_node_of(
                    (#[trigger] out@[j])@,
                    named_entities(entities@.take(i as int))[j],
                    entity_types_context@,
                    group_id@,
                ),
        decreases entities.len() - i,
    {
        assert(entities@.take(i as int + 1).drop_last() =~= entities@.take(i as int));
        let entity = &entities[i];
        if !is_blank(entity.name.as_str()) {
            let kind = entity_type_name_for_id(entity_types_context, entity.entity_type_id);
            let mut node = EntityNode::new(entity.name.clone(), owned(group_id), utc_now());
            node.labels = labels_for(kind.as_str());
            out.push(node);
        }
        i += 1;
    }
    assert(entities@.take(entities@.len() as int) =~= entities@);
    out
}

/// The texts to embed in the search for known entities: the names, on one line each.
pub fn candidate_queries(extracted_nodes: &Vec<EntityNode>) -> (r: Vec<String>)
    ensures
        text::views(r@) == types::node_views(extracted_nodes@).map_values(
            |n: EntityNodeView| text::replaced(n.name, '\n', " "@),
        ),
{
    let mut out: Vec<String> = Vec::new();
    let mut i: usize = 0;
    while i < extracted_nodes.len()
        invariant
            i <= extracted_nodes@.len(),
            out@.len() == i,
            forall|j: int|
                0 <= j < i ==> (#[trigger] out@[j])@ == text::replaced(
                    extracted_nodes@[j].name@,
                    '\n',
                    " "@,
                ),
        decreases extracted_nodes.len() - i,
    {
        out.push(replace_char(extracted_nodes[i].name.as_str(), '\n', " "));
        i += 1;
    }
    assert(text::views(out@) =~= types::node_views(extracted_nodes@).map_values(
        |n: EntityNodeView| text::replaced(n.name, '\n', " "@),
    ));
    out
}

/// The resolution at its start.
pub open spec fn unresolved(n: nat) -> ResolutionView {
    ResolutionView {
        resolved: Seq::new(n, |i: int| None),
        uuid_map: Map::empty(),
        unresolved: Seq::empty(),
        duplicates: Seq::empty(),
    }
}

/// The resolution after the first `k` new entities were looked up by name among their own
/// candidates. A new entity without candidates is neither resolved nor open.
pub open spec fn looked_up(
    nodes: Seq<EntityNodeView>,
    candidates: Seq<Seq<EntityNodeView>>,
    k: nat,
) -> ResolutionView
    decreases k,
{
    if k == 0 {
        unresolved(nodes.len())
    } else {
        let before = looked_up(nodes, candidates, (k - 1) as nat);
        if candidates[k - 1].len() == 0 {
            before
        } else {
            let known = dedup_index::candidates_among(candidates[k - 1]);
            match dedup_index::similar_entity(known, nodes[k - 1]) {
                Some(found) => before.record(k - 1, nodes[k - 1], found),
                None => before.leave_open(k - 1),
            }
        }
    }
}

/// The number of new entities for which there is a list of candidates.
pub open spec fn paired(nodes: nat, candidates: nat) -> nat {
    if nodes <= candidates {
        nodes
    } else {
        candidates
    }
}

/// The views of lists of entities.
pub open spec fn node_list_views(lists: Seq<Vec<EntityNode>>) -> Seq<Seq<EntityNodeView>> {
    lists.map_values(|l: Vec<EntityNode>| types::node_views(l@))
}

/// Holds where every resolved new entity has an entry in the identifier map, and every open
/// one is listed with a position that exists and is not resolved.
pub open spec fn coherent(state: ResolutionView, nodes: Seq<EntityNodeView>) -> bool {
    &&& state.resolved.len() == nodes.len()
    &&& forall|i: int|
        0 <= i < nodes.len() && (#[trigger] state.resolved[i]) is Some
            ==> state.uuid_map.dom().contains(nodes[i].uuid)
    &&& forall|j: int| 0 <= j < state.unresolved.len() ==> (#[trigger] state.unresolved[j]) < nodes.len()
}

/// Looks the new entities up by name, each among the known entities that were found for it.
pub fn resolve_by_names(extracted_nodes: &Vec<EntityNode>, candidates: &Vec<Vec<EntityNode>>) -> (r:
    DedupResolutionState)
    ensures
        r@ == looked_up(
            types::node_views(extracted_nodes@),
            node_list_views(candidates@),
            paired(extracted_nodes@.len(), candidates@.len()),
        ),
        coherent(r@, types::node_views(extracted_nodes@)),
        forall|j: int|
            0 <= j < r@.unresolved.len() ==> (#[trigger] r@.unresolved[j]) < candidates@.len(),
        r.resolved_nodes@.len() == extracted_nodes@.len(),
{
    let ghost all = types::node_views(extracted_nodes@);
    let ghost lists = node_list_views(candidates@);
    let mut state = DedupResolutionState::new(extracted_nodes.len());
    let mut i: usize = 0;
    while i < extracted_nodes.len() && i < candidates.len()
        invariant
            i <= extracted_nodes@.len(),
            i <= candidates@.len(),
            all == types::node_views(extracted_nodes@),
            lists == node_list_views(candidates@),
            state@ == looked_up(all, lists, i as nat),
            coherent(state@, all),
            forall|j: int| 0 <= j < state@.unresolved.len() ==> (#[trigger] state@.unresolved[j]) < i,
            state.resolved_nodes@.len() == extracted_nodes@.len(),
        decreases extracted_nodes.len() - i,
    {
        let node = &extracted_nodes[i];
        assert(all[i as int] == node@);
        assert(lists[i as int] == types::node_views(candidates@[i as int]@));
        assert(lists[i as int].len() == candidates@[i as int]@.len());
        if candidates[i].len() > 0 {
            let indexes = build_candidate_indexes(clone_nodes(&candidates[i]));
            match find_similar(&indexes, node) {
                Some(found) => {
                    let ghost before = state@;
                    state.record(i, node, found);
                    assert(coherent(state@, all)) by {
                        assert forall|k: int| 0 <= k < all.len() && (#[trigger] state@.resolved[k])
                            is Some implies state@.uuid_map.dom().contains(all[k].uuid) by {
                            if k != i {
                                assert(before.resolved[k] is Some);
                            }
                        }
                    }
                },
                None => {
                    let ghost before = state;
                    state.unresolved_indices.push(i);
                    assert(state@ == before@.leave_open(i as int));
                },
            }
        }
        i += 1;
    }
    state
}

/// Among `nodes` those whose identifier does not occur before, in order.
pub open spec fn distinct_nodes(nodes: Seq<EntityNodeView>) -> Seq<EntityNodeView>
    decreases nodes.len(),
{
    if nodes.len() == 0 {
        Seq::empty()
    } else {
        let before = distinct_nodes(nodes.drop_last());
        if uuids_of(nodes.drop_last()).contains(nodes.last().uuid) {
            before
        } else {
            before.push(nodes.last())
        }
    }
}

/// The identifiers of a sequence of entities.
pub open spec fn uuids_of(nodes: Seq<EntityNodeView>) -> Set<Seq<char>> {
    nodes.map_values(|n: EntityNodeView| n.uuid).to_set()
}

/// The candidates of the first `k` open entities, one list after the other.
pub open spec fn open_candidates(
    candidates: Seq<Seq<EntityNodeView>>,
    open_indices: Seq<usize>,
    k: nat,
) -> Seq<EntityNodeView>
    decreases k,
{
    if k == 0 {
        Seq::empty()
    } else {
        open_candidates(candidates, open_indices, (k - 1) as nat) + candidates[open_indices[k - 1] as int]
    }
}

/// The known entities that the model is to compare the open ones with: the candidates of
/// each, the first of those with the same identifier.
pub fn merge_candidates(candidates: &Vec<Vec<EntityNode>>, unresolved_indices: &Vec<usize>) -> (r: Vec<
    EntityNode,
>)
    requires
        forall|j: int|
            0 <= j < unresolved_indices@.len() ==> (#[trigger] unresolved_indices@[j])
                < candidates@.len(),
    ensures
        types::node_views(r@) == distinct_nodes(
            open_candidates(
                node_list_views(candidates@),
                unresolved_indices@,
                unresolved_indices@.len(),
            ),
        ),
{
    let ghost lists = node_list_views(candidates@);
    let mut out: Vec<EntityNode> = Vec::new();
    let mut seen = StringSet::new();
    let mut i: usize = 0;
    assert(
        types::node_views(out@) =~= distinct_nodes(open_candidates(lists, unresolved_indices@, 0))
    );
    assert(seen@ =~= uuids_of(open_candidates(lists, unresolved_indices@, 0)));
    while i < unresolved_indices.len()
        invariant
            i <= unresolved_indices@.len(),
            lists == node_list_views(candidates@),
            forall|j: int|
                0 <= j < unresolved_indices@.len() ==> (#[trigger] unresolved_indices@[j])
                    < candidates@.len(),
            types::node_views(out@) == distinct_nodes(
                open_candidates(lists, unresolved_indices@, i as nat),
            ),
            seen@ == uuids_of(open_candidates(lists, unresolved_indices@, i as nat)),
        decreases unresolved_indices.len() - i,
    {
        let list = &candidates[unresolved_indices[i]];
        let ghost done = open_candidates(lists, unresolved_indices@, i as nat);
        let ghost more = types::node_views(list@);
        assert(lists[unresolved_indices@[i as int] as int] == more);
        let mut k: usize = 0;
        assert(done + more.take(0) =~= done);
        while k < list.len()
            invariant
                k <= list@.len(),
                more == types::node_views(list@),
                types::node_views(out@) == distinct_nodes(done + more.take(k as int)),
                seen@ == uuids_of(done + more.take(k as int)),
            decreases list.len() - k,
        {
            proof {
                let next = done + more.take(k as int + 1);
                assert(next.drop_last() =~= done + more.take(k as int));
                assert(next.last() == list@[k as int]@);
                lemma_uuids_push(done + more.take(k as int), list@[k as int]@);
                assert(next =~= (done + more.take(k as int)).push(list@[k as int]@));
            }
            if seen.insert(list[k].uuid.clone()) {
                let ghost before = out@;
                out.push(list[k].clone());
                assert(
                    types::node_views(out@) =~= types::node_views(before).push(list@[k as int]@)
                );
            }
            k += 1;
        }
        assert(more.take(more.len() as int) =~= more);
        i += 1;
    }
    out
}

pub proof fn lemma_uuids_push(nodes: Seq<EntityNodeView>, node: EntityNodeView)
    ensures
        uuids_of(nodes.push(node)) == uuids_of(nodes).insert(node.uuid),
{
    let a = nodes.push(node).map_values(|n: EntityNodeView| n.uuid);
    let b = nodes.map_values(|n: EntityNodeView| n.uuid);
    assert(a =~= b.push(node.uuid));
    assert(a.to_set() =~= b.to_set().insert(node.uuid)) by {
        assert forall|x: Seq<char>| a.contains(x) == (b.contains(x) || x == node.uuid) by {
            if b.contains(x) {
                assert(a[b.index_of(x)] == x);
            }
            if x == node.uuid {
                assert(a[b.len() as int] == x);
            }
            if a.contains(x) && x != node.uuid {
                assert(b[a.index_of(x)] == x);
            }
        }
    }
}

/// How much of a known entity's summary the model is shown.
pub const SUMMARY_PREVIEW_CHARS: usize = 120;

/// An open entity as the model is shown it, under its position among the open ones.
pub open spec fn extracted_entry(id: int, node: EntityNodeView) -> JsonView {
    JsonView::Object(
        seq![
            ("entity_type"@, json::string_array(node.labels)),
            ("entity_type_description"@, JsonView::Str("Default Entity Type"@)),
            ("id"@, JsonView::Int(id)),
            ("name"@, JsonView::Str(node.name)),
        ],
    )
}

/// The first characters of a text.
pub open spec fn preview(s: Seq<char>, n: nat) -> Seq<char> {
    if s.len() <= n {
        s
    } else {
        s.take(n as int)
    }
}

/// A known entity as the model is shown it: its attributes, with position, name, types and
/// the beginning of its summary over attributes of the same names.
pub open spec fn existing_entry(id: int, node: EntityNodeView) -> JsonView {
    json::object_of(
        node.attributes.insert("candidate_id"@, JsonView::Int(id)).insert(
            "name"@,
            JsonView::Str(node.name),
        ).insert("entity_types"@, json::string_array(node.labels)).insert(
            "summary"@,
            JsonView::Str(preview(node.summary, SUMMARY_PREVIEW_CHARS as nat)),
        ),
    )
}

/// The open entities as the model is shown them.
pub open spec fn extracted_entries(nodes: Seq<EntityNodeView>, open_indices: Seq<usize>) -> JsonView {
    JsonView::Array(
        open_indices.map(|i: int, at: usize| extracted_entry(i, nodes[at as int])),
    )
}

/// The known entities as the model is shown them.
pub open spec fn existing_entries(nodes: Seq<EntityNodeView>) -> JsonView {
    JsonView::Array(nodes.map(|i: int, n: EntityNodeView| existing_entry(i, n)))
}

fn make_extracted_entry(id: usize, node: &EntityNode) -> (r: Json)
    ensures
        r@ == extracted_entry(id as int, node@),
{
    let mut members: Vec<(String, Json)> = Vec::new();
    members.push((owned("entity_type"), strings_to_json(&node.labels)));
    members.push(
        text_member(
            "entity_type_description",
            get_entity_type_description(node.labels.as_slice()),
        ),
    );
    members.push((owned("id"), Json::Int(id as i128)));
    members.push(text_member("name", node.name.as_str()));
    proof {
        json::lemma_member_views_index(members@);
        assert(json::member_views(members@) =~= seq![
            ("entity_type"@, json::string_array(node@.labels)),
            ("entity_type_description"@, JsonView::Str("Default Entity Type"@)),
            ("id"@, JsonView::Int(id as int)),
            ("name"@, JsonView::Str(node@.name)),
        ]);
    }
    Json::Object(members)
}

/// The first characters of a text.
pub fn first_chars(s: &str, n: usize) -> (r: String)
    ensures
        r@ == preview(s@, n as nat),
{
    let chars = chars_of(s);
    if chars.len() <= n {
        owned(s)
    } else {
        string_of(&chars, 0, n)
    }
}

fn make_existing_entry(id: usize, node: &EntityNode) -> (r: Json)
    ensures
        r@ == existing_entry(id as int, node@),
{
    let mut members = clone_attributes(&node.attributes);
    let ghost a0 = json::attributes_view(members@);
    members.insert(owned("candidate_id"), Json::Int(id as i128));
    let ghost a1 = json::attributes_view(members@);
    assert(a1 =~= a0.insert("candidate_id"@, JsonView::Int(id as int)));
    members.insert(owned("name"), Json::Str(node.name.clone()));
    let ghost a2 = json::attributes_view(members@);
    assert(a2 =~= a1.insert("name"@, JsonView::Str(node@.name)));
    members.insert(owned("entity_types"), strings_to_json(&node.labels));
    let ghost a3 = json::attributes_view(members@);
    assert(a3 =~= a2.insert("entity_types"@, json::string_array(node@.labels)));
    let summary = first_chars(node.summary.as_str(), SUMMARY_PREVIEW_CHARS);
    members.insert(owned("summary"), Json::Str(summary));
    assert(json::attributes_view(members@) =~= a3.insert(
        "summary"@,
        JsonView::Str(preview(node@.summary, SUMMARY_PREVIEW_CHARS as nat)),
    ));
    attributes_to_json(&members)
}

/// Asks the model which known entities the open ones duplicate.
pub fn dedupe_messages(
    extracted_nodes: &Vec<EntityNode>,
    existing_nodes: &Vec<EntityNode>,
    unresolved_indices: &Vec<usize>,
    episode: &EpisodicNode,
    previous_episodes: &[EpisodicNode],
) -> (r: Vec<Message>)
    requires
        unresolved_indices@.len() > 0,
        forall|j: int|
            0 <= j < unresolved_indices@.len() ==> (#[trigger] unresolved_indices@[j])
                < extracted_nodes@.len(),
    ensures
        message::message_views(r@) == dedupe_nodes::nodes_prompt(
            episode_entries(types::episode_views(previous_episodes@)),
            episode.content@,
            extracted_entries(types::node_views(extracted_nodes@), unresolved_indices@),
            existing_entries(types::node_views(existing_nodes@)),
        ),
{
    let mut fresh: Vec<Json> = Vec::new();
    let mut i: usize = 0;
    while i < unresolved_indices.len()
        invariant
            i <= unresolved_indices@.len(),
            forall|j: int|
                0 <= j < unresolved_indices@.len() ==> (#[trigger] unresolved_indices@[j])
                    < extracted_nodes@.len(),
            fresh@.len() == i,
            forall|j: int|
                0 <= j < i ==> (#[trigger] fresh@[j])@ == extracted_entry(
                    j,
                    extracted_nodes@[unresolved_indices@[j] as int]@,
                ),
        decreases unresolved_indices.len() - i,
    {
        fresh.push(make_extracted_entry(i, &extracted_nodes[unresolved_indices[i]]));
        i += 1;
    }
    let mut known: Vec<Json> = Vec::new();
    let mut k: usize = 0;
    while k < existing_nodes.len()
        invariant
            k <= existing_nodes@.len(),
            known@.len() == k,
            forall|j: int|
                0 <= j < k ==> (#[trigger] known@[j])@ == existing_entry(j, existing_nodes@[j]@),
        decreases existing_nodes.len() - k,
    {
        known.push(make_existing_entry(k, &existing_nodes[k]));
        k += 1;
    }
    proof {
        json::lemma_json_views_index(fresh@);
        json::lemma_json_views_index(known@);
        let all = types::node_views(extracted_nodes@);
        let goal = unresolved_indices@.map(
            |i: int, at: usize| extracted_entry(i, all[at as int]),
        );
        assert forall|j: int| 0 <= j < goal.len() implies json::json_views(fresh@)[j] == goal[j] by {
            assert(unresolved_indices@[j] < extracted_nodes@.len());
        }
        assert(json::json_views(fresh@) =~= goal);
        assert(json::json_views(known@) =~= types::node_views(existing_nodes@).map(
            |i: int, n: EntityNodeView| existing_entry(i, n),
        ));
    }
    let previous = previous_episodes_context(previous_episodes);
    let extracted_value = Json::Array(fresh);
    let existing_value = Json::Array(known);
    let ctx = NodesContext {
        previous_episodes: &previous,
        episode_content: episode.content.as_str(),
        extracted_nodes: &extracted_value,
        existing_nodes: &existing_value,
    };
    nodes(&ctx)
}

/// What an open entity is, by the position of a known entity that the model answered with:
/// itself where the position is negative or beyond the known entities.
pub open spec fn answered(
    node: EntityNodeView,
    existing: Seq<EntityNodeView>,
    candidate: int,
) -> EntityNodeView {
    if 0 <= candidate < existing.len() {
        dedup_index::promoted(node, existing[candidate])
    } else {
        node
    }
}

/// Holds where the k-th answer counts: it names an open entity that no earlier answer names.
pub open spec fn counts(replies: Seq<NodeDuplicate>, open: nat, k: int) -> bool {
    &&& 0 <= replies[k].id < open
    &&& forall|j: int| 0 <= j < k ==> (#[trigger] replies[j]).id != replies[k].id
}

/// The resolution after the first `k` answers of the model.
pub open spec fn resolved_by_model(
    nodes: Seq<EntityNodeView>,
    existing: Seq<EntityNodeView>,
    open_indices: Seq<usize>,
    replies: Seq<NodeDuplicate>,
    start: ResolutionView,
    k: nat,
) -> ResolutionView
    decreases k,
{
    if k == 0 {
        start
    } else {
        let before = resolved_by_model(
            nodes,
            existing,
            open_indices,
            replies,
            start,
            (k - 1) as nat,
        );
        let reply = replies[k - 1];
        if counts(replies, open_indices.len(), k - 1) {
            let at = open_indices[reply.id as int] as int;
            before.record(
                at,
                nodes[at],
                answered(nodes[at], existing, reply.duplicate_candidate_id as int),
            )
        } else {
            before
        }
    }
}

/// Takes the answers of the model into a resolution. An answer that names no open entity, or
/// one that an earlier answer named, is passed over.
pub fn apply_resolutions(
    extracted_nodes: &Vec<EntityNode>,
    existing_nodes: &Vec<EntityNode>,
    unresolved_indices: &Vec<usize>,
    replies: &Vec<NodeDuplicate>,
    state: &mut DedupResolutionState,
)
    requires
        coherent(old(state)@, types::node_views(extracted_nodes@)),
        old(state).resolved_nodes@.len() == extracted_nodes@.len(),
        forall|j: int|
            0 <= j < unresolved_indices@.len() ==> (#[trigger] unresolved_indices@[j])
                < extracted_nodes@.len(),
    ensures
        final(state)@ == resolved_by_model(
            types::node_views(extracted_nodes@),
            types::node_views(existing_nodes@),
            unresolved_indices@,
            replies@,
            old(state)@,
            replies@.len(),
        ),
        coherent(final(state)@, types::node_views(extracted_nodes@)),
        final(state).resolved_nodes@.len() == extracted_nodes@.len(),
{
    let ghost all = types::node_views(extracted_nodes@);
    let ghost known = types::node_views(existing_nodes@);
    let ghost start = state@;
    let mut k: usize = 0;
    while k < replies.len()
        invariant
            k <= replies@.len(),
            all == types::node_views(extracted_nodes@),
            known == types::node_views(existing_nodes@),
            forall|j: int|
                0 <= j < unresolved_indices@.len() ==> (#[trigger] unresolved_indices@[j])
                    < extracted_nodes@.len(),
            state.resolved_nodes@.len() == extracted_nodes@.len(),
            coherent(state@, all),
            state@ == resolved_by_model(
                all,
                known,
                unresolved_indices@,
                replies@,
                start,
                k as nat,
            ),
        decreases replies.len() - k,
    {
        let id = replies[k].id;
        let mut fresh = id >= 0 && (id as u64) < unresolved_indices.len() as u64;
        let mut j: usize = 0;
        while j < k
            invariant
                j <= k < replies@.len(),
                id == replies@[k as int].id,
                fresh == (0 <= id < unresolved_indices@.len() && forall|m: int|
                    0 <= m < j ==> (#[trigger] replies@[m]).id != id),
            decreases k - j,
        {
            if replies[j].id == id {
                fresh = false;
            }
            j += 1;
        }
        if fresh {
            let at = unresolved_indices[id as usize];
            let node = &extracted_nodes[at];
            let candidate = replies[k].duplicate_candidate_id;
            let found = if candidate >= 0 && (candidate as u64) < existing_nodes.len() as u64 {
                assert(known[candidate as int] == existing_nodes@[candidate as int]@);
                promote_resolved_node(node, &existing_nodes[candidate as usize])
            } else {
                node.clone()
            };
            assert(all[at as int] == node@);
            let ghost before = state@;
            state.record(at, node, found);
            assert(coherent(state@, all)) by {
                assert forall|m: int| 0 <= m < all.len() && (#[trigger] state@.resolved[m])
                    is Some implies state@.uuid_map.dom().contains(all[m].uuid) by {
                    if m != at {
                        assert(before.resolved[m] is Some);
                    }
                }
            }
        }
        k += 1;
    }
}

/// The outcome of a resolution.
#[derive(Debug)]
pub struct NodeResolutionOutcome {
    /// What each new entity became.
    pub nodes: Vec<EntityNode>,
    /// What each new entity's identifier became; an entity that is kept maps to itself.
    pub uuid_map: StringMap<String>,
    /// The new entities that duplicate a known one, with that one.
    pub duplicates: Vec<(EntityNode, EntityNode)>,
}

/// What each new entity became: what it resolved to, or else itself.
pub open spec fn final_nodes(nodes: Seq<EntityNodeView>, resolved: Seq<Option<EntityNodeView>>) -> Seq<
    EntityNodeView,
> {
    nodes.map(
        |i: int, n: EntityNodeView|
            match resolved[i] {
                Some(found) => found,
                None => n,
            },
    )
}

/// The identifier map with the first `k` entities mapped to themselves where they did not
/// resolve.
pub open spec fn with_kept(
    nodes: Seq<EntityNodeView>,
    resolved: Seq<Option<EntityNodeView>>,
    m: Map<Seq<char>, Seq<char>>,
    k: nat,
) -> Map<Seq<char>, Seq<char>>
    decreases k,
{
    if k == 0 {
        m
    } else {
        let before = with_kept(nodes, resolved, m, (k - 1) as nat);
        if resolved[k - 1] is None {
            before.insert(nodes[k - 1].uuid, nodes[k - 1].uuid)
        } else {
            before
        }
    }
}

/// Ends a resolution: whatever did not resolve is kept as a new entity.
pub fn finish_resolution(extracted_nodes: &Vec<EntityNode>, state: DedupResolutionState) -> (r:
    NodeResolutionOutcome)
    requires
        coherent(state@, types::node_views(extracted_nodes@)),
    ensures
        types::node_views(r.nodes@) == final_nodes(
            types::node_views(extracted_nodes@),
            state@.resolved,
        ),
        uuid_map::text_map(r.uuid_map@) == with_kept(
            types::node_views(extracted_nodes@),
            state@.resolved,
            state@.uuid_map,
            extracted_nodes@.len(),
        ),
        node_pair_views(r.duplicates@) == state@.duplicates,
        forall|i: int|
            0 <= i < extracted_nodes@.len() ==> r.uuid_map@.dom().contains(
                (#[trigger] extracted_nodes@[i])@.uuid,
            ),
{
    let ghost all = types::node_views(extracted_nodes@);
    let ghost resolved = state@.resolved;
    let ghost m0 = state@.uuid_map;
    let mut nodes: Vec<EntityNode> = Vec::new();
    let mut uuid_map = state.uuid_map;
    let mut i: usize = 0;
    while i < extracted_nodes.len()
        invariant
            i <= extracted_nodes@.len(),
            all == types::node_views(extracted_nodes@),
            resolved == opt_node_views(state.resolved_nodes@),
            coherent(
                ResolutionView {
                    resolved,
                    uuid_map: m0,
                    unresolved: state.unresolved_indices@,
                    duplicates: node_pair_views(state.duplicate_pairs@),
                },
                all,
            ),
            nodes@.len() == i,
            forall|j: int| 0 <= j < i ==> (#[trigger] nodes@[j])@ == final_nodes(all, resolved)[j],
            uuid_map::text_map(uuid_map@) == with_kept(all, resolved, m0, i as nat),
            forall|k: Seq<char>| #[trigger] m0.dom().contains(k) ==> uuid_map@.dom().contains(k),
            forall|j: int| 0 <= j < i ==> uuid_map@.dom().contains((#[trigger] all[j]).uuid),
        decreases extracted_nodes.len() - i,
    {
        assert(all[i as int] == extracted_nodes@[i as int]@);
        assert(resolved.len() == state.resolved_nodes@.len());
        let ghost before = uuid_map@;
        match &state.resolved_nodes[i] {
            Some(found) => {
                assert(resolved[i as int] == Some(found@));
                nodes.push(found.clone());
            },
            None => {
                let node = &extracted_nodes[i];
                nodes.push(node.clone());
                uuid_map.insert(node.uuid.clone(), node.uuid.clone());
                assert(resolved[i as int] is None);
                assert(
                    uuid_map::text_map(uuid_map@) =~= uuid_map::text_map(before).insert(
                        node@.uuid,
                        node@.uuid,
                    )
                );
            },
        }
        proof {
            assert forall|j: int| 0 <= j < i + 1 implies uuid_map@.dom().contains(
                (#[trigger] all[j]).uuid,
            ) by {
                if j < i {
                    assert(before.dom().contains(all[j].uuid));
                }
            }
        }
        i += 1;
    }
    assert(types::node_views(nodes@) =~= final_nodes(all, resolved));
    proof {
        assert forall|j: int| 0 <= j < extracted_nodes@.len() implies uuid_map@.dom().contains(
            (#[trigger] extracted_nodes@[j])@.uuid,
        ) by {
            assert(all[j] == extracted_nodes@[j]@);
        }
    }
    NodeResolutionOutcome { nodes, uuid_map, duplicates: state.duplicate_pairs }
}

/// [`NodeResolutionOutcome`] as plain values.
pub struct NodeOutcomeView {
    pub nodes: Seq<EntityNodeView>,
    pub uuid_map: Map<Seq<char>, Seq<char>>,
    pub duplicates: Seq<(EntityNodeView, EntityNodeView)>,
}

impl View for NodeResolutionOutcome {
    type V = NodeOutcomeView;

    open spec fn view(&self) -> NodeOutcomeView {
        NodeOutcomeView {
            nodes: types::node_views(self.nodes@),
            uuid_map: uuid_map::text_map(self.uuid_map@),
            duplicates: node_pair_views(self.duplicates@),
        }
    }
}

} // verus!
