//! The resolution of new entities, from the known ones that are alike to what the model says of
//! those that names alone leave open.
use crate::llm::{self, LlmRequest, ModelSize};
use crate::pipeline::dedup_index;
use crate::pipeline::node_ops::{
    self, apply_resolutions, dedupe_messages, finish_resolution, merge_candidates, resolve_by_names,
    DedupResolutionState, NodeOutcomeView, NodeResolutionOutcome, ResolutionView,
};
use crate::helpers;
use crate::json::{self, JsonView};
use crate::prompts::dedupe_nodes;
use crate::prompts::models::NodeDuplicate;
use crate::selection;
use crate::types;
use crate::types::episode::EpisodicNode;
use crate::types::node::{EntityNode, EntityNodeView};
use vstd::prelude::*;

verus! {

/// The end of a resolution: whatever did not resolve is kept as a new entity.
pub open spec fn outcome_of(nodes: Seq<EntityNodeView>, state: ResolutionView) -> NodeOutcomeView {
    NodeOutcomeView {
        nodes: node_ops::final_nodes(nodes, state.resolved),
        uuid_map: node_ops::with_kept(nodes, state.resolved, state.uuid_map, nodes.len()),
        duplicates: state.duplicates,
    }
}

/// The resolution once every new entity was looked up by name.
pub open spec fn named(nodes: Seq<EntityNodeView>, candidates: Seq<Seq<EntityNodeView>>) -> ResolutionView {
    node_ops::looked_up(nodes, candidates, node_ops::paired(nodes.len(), candidates.len()))
}

/// The known entities that the model compares the open ones with.
pub open spec fn compared(nodes: Seq<EntityNodeView>, candidates: Seq<Seq<EntityNodeView>>) -> Seq<
    EntityNodeView,
> {
    let open = named(nodes, candidates).unresolved;
    node_ops::distinct_nodes(node_ops::open_candidates(candidates, open, open.len()))
}

/// What new entities resolve to, by the known entities that were found for each and by the answers
/// of the model, which is asked only where names leave an entity open.
pub open spec fn resolution(
    nodes: Seq<EntityNodeView>,
    candidates: Seq<Seq<EntityNodeView>>,
    replies: Seq<NodeDuplicate>,
) -> NodeOutcomeView {
    let state = named(nodes, candidates);
    if state.unresolved.len() == 0 {
        outcome_of(nodes, state)
    } else {
        outcome_of(
            nodes,
            node_ops::resolved_by_model(
                nodes,
                compared(nodes, candidates),
                state.unresolved,
                replies,
                state,
                replies.len(),
            ),
        )
    }
}

/// New entities of which names leave some open.
#[derive(Debug)]
pub struct NodeQuestion {
    extracted: Vec<EntityNode>,
    existing: Vec<EntityNode>,
    open: Vec<usize>,
    state: DedupResolutionState,
}

/// [`NodeQuestion`] as plain values.
pub struct NodeQuestionView {
    /// The new entities.
    pub extracted: Seq<EntityNodeView>,
    /// The known entities to compare the open ones with.
    pub existing: Seq<EntityNodeView>,
    /// The positions of the open ones.
    pub open: Seq<usize>,
    /// What names resolve.
    pub state: ResolutionView,
}

impl View for NodeQuestion {
    type V = NodeQuestionView;

    closed spec fn view(&self) -> NodeQuestionView {
        NodeQuestionView {
            extracted: types::node_views(self.extracted@),
            existing: types::node_views(self.existing@),
            open: self.open@,
            state: self.state@,
        }
    }
}

/// What comes next in a resolution.
#[derive(Debug)]
pub enum NodeStep {
    /// Nothing: every new entity is resolved.
    Done(NodeResolutionOutcome),
    /// The model is to be asked.
    AskModel(NodeQuestion),
}

/// Begins a resolution with the known entities that were found for each new one.
pub fn begin_node_resolution(extracted_nodes: Vec<EntityNode>, candidates: &Vec<Vec<EntityNode>>) -> (r:
    NodeStep)
    ensures
        match r {
            NodeStep::Done(outcome) => {
                &&& named(
                    types::node_views(extracted_nodes@),
                    node_ops::node_list_views(candidates@),
                ).unresolved.len() == 0
                &&& outcome@ == outcome_of(
                    types::node_views(extracted_nodes@),
                    named(
                        types::node_views(extracted_nodes@),
                        node_ops::node_list_views(candidates@),
                    ),
                )
            },
            NodeStep::AskModel(question) => {
                &&& named(
                    types::node_views(extracted_nodes@),
                    node_ops::node_list_views(candidates@),
                ).unresolved.len() > 0
                &&& question@ == (NodeQuestionView {
                    extracted: types::node_views(extracted_nodes@),
                    existing: compared(
                        types::node_views(extracted_nodes@),
                        node_ops::node_list_views(candidates@),
                    ),
                    open: named(
                        types::node_views(extracted_nodes@),
                        node_ops::node_list_views(candidates@),
                    ).unresolved,
                    state: named(
                        types::node_views(extracted_nodes@),
                        node_ops::node_list_views(candidates@),
                    ),
                })
            },
        },
{
    let state = resolve_by_names(&extracted_nodes, candidates);
    if state.unresolved_indices.len() == 0 {
        return NodeStep::Done(finish_resolution(&extracted_nodes, state));
    }
    let open = clone_indices(&state.unresolved_indices);
    let existing = merge_candidates(candidates, &open);
    NodeStep::AskModel(NodeQuestion { extracted: extracted_nodes, existing, open, state })
}

fn clone_indices(indices: &Vec<usize>) -> (r: Vec<usize>)
    ensures
        r@ == indices@,
{
    let mut out: Vec<usize> = Vec::new();
    let mut i: usize = 0;
    while i < indices.len()
        invariant
            i <= indices@.len(),
            out@ =~= indices@.take(i as int),
        decreases indices.len() - i,
    {
        out.push(indices[i]);
        i += 1;
    }
    assert(indices@.take(indices@.len() as int) =~= indices@);
    out
}

impl NodeQuestion {
    #[verifier::type_invariant]
    spec fn valid(self) -> bool {
        &&& node_ops::coherent(self.state@, types::node_views(self.extracted@))
        &&& self.state.resolved_nodes@.len() == self.extracted@.len()
        &&& self.open@.len() > 0
        &&& forall|j: int|
            0 <= j < self.open@.len() ==> (#[trigger] self.open@[j]) < self.extracted@.len()
    }

    /// Asks the model which known entities the open ones duplicate.
    pub fn request(
        &self,
        episode: &EpisodicNode,
        previous_episodes: &[EpisodicNode],
    ) -> (r: LlmRequest)
        ensures
            llm::asks(
                r,
                dedupe_nodes::nodes_prompt(
                    node_ops::episode_entries(types::episode_views(previous_episodes@)),
                    episode@.content,
                    node_ops::extracted_entries(self@.extracted, self@.open),
                    node_ops::existing_entries(self@.existing),
                ),
                ModelSize::Medium,
                "dedupe_nodes.nodes"@,
            ),
    {
        proof {
            use_type_invariant(self);
        }
        let messages = dedupe_messages(
            &self.extracted,
            &self.existing,
            &self.open,
            episode,
            previous_episodes,
        );
        LlmRequest::new(messages).named("dedupe_nodes.nodes")
    }

    /// Ends the resolution with the answers of the model.
    pub fn take_replies(self, replies: &Vec<NodeDuplicate>) -> (r: NodeResolutionOutcome)
        ensures
            r@ == outcome_of(
                self@.extracted,
                node_ops::resolved_by_model(
                    self@.extracted,
                    self@.existing,
                    self@.open,
                    replies@,
                    self@.state,
                    replies@.len(),
                ),
            ),
    {
        proof {
            use_type_invariant(&self);
        }
        let extracted = self.extracted;
        let existing = self.existing;
        let open = self.open;
        let mut state = self.state;
        apply_resolutions(&extracted, &existing, &open, replies, &mut state);
        finish_resolution(&extracted, state)
    }
}

/// Holds where the identifier of every resolved entity leads to what it resolved to.
pub open spec fn leads(state: ResolutionView, nodes: Seq<EntityNodeView>) -> bool {
    &&& node_ops::coherent(state, nodes)
    &&& forall|i: int|
        0 <= i < nodes.len() && (#[trigger] state.resolved[i]) is Some
            ==> state.uuid_map[nodes[i].uuid] == state.resolved[i]->0.uuid
}

/// Holds where no two entities have the same identifier.
pub open spec fn distinct_identifiers(nodes: Seq<EntityNodeView>) -> bool {
    forall|i: int, j: int|
        0 <= i < nodes.len() && 0 <= j < nodes.len() && i != j ==> (#[trigger] nodes[i]).uuid != (
        #[trigger] nodes[j]).uuid
}

proof fn lemma_record_leads(
    state: ResolutionView,
    nodes: Seq<EntityNodeView>,
    at: int,
    found: EntityNodeView,
)
    requires
        distinct_identifiers(nodes),
        leads(state, nodes),
        0 <= at < nodes.len(),
    ensures
        leads(state.record(at, nodes[at], found), nodes),
{
    let after = state.record(at, nodes[at], found);
    assert forall|i: int| 0 <= i < nodes.len() && (#[trigger] after.resolved[i]) is Some implies {
        &&& after.uuid_map.dom().contains(nodes[i].uuid)
        &&& after.uuid_map[nodes[i].uuid] == after.resolved[i]->0.uuid
    } by {
        if i != at {
            assert(state.resolved[i] is Some);
            assert(nodes[i].uuid != nodes[at].uuid);
        }
    }
}

proof fn lemma_names_lead(nodes: Seq<EntityNodeView>, candidates: Seq<Seq<EntityNodeView>>, k: nat)
    requires
        distinct_identifiers(nodes),
        k <= nodes.len(),
        nodes.len() <= usize::MAX,
    ensures
        leads(node_ops::looked_up(nodes, candidates, k), nodes),
        forall|j: int|
            0 <= j < node_ops::looked_up(nodes, candidates, k).unresolved.len() ==> (
            #[trigger] node_ops::looked_up(nodes, candidates, k).unresolved[j]) < k,
    decreases k,
{
    if k > 0 {
        lemma_names_lead(nodes, candidates, (k - 1) as nat);
        let before = node_ops::looked_up(nodes, candidates, (k - 1) as nat);
        if candidates[k - 1].len() > 0 {
            let known = dedup_index::candidates_among(candidates[k - 1]);
            match dedup_index::similar_entity(known, nodes[k - 1]) {
                Some(found) => {
                    lemma_record_leads(before, nodes, k - 1, found);
                },
                None => {},
            }
        }
    }
}

proof fn lemma_model_leads(
    nodes: Seq<EntityNodeView>,
    existing: Seq<EntityNodeView>,
    open: Seq<usize>,
    replies: Seq<NodeDuplicate>,
    start: ResolutionView,
    k: nat,
)
    requires
        distinct_identifiers(nodes),
        leads(start, nodes),
        forall|j: int| 0 <= j < open.len() ==> (#[trigger] open[j]) < nodes.len(),
        k <= replies.len(),
    ensures
        leads(node_ops::resolved_by_model(nodes, existing, open, replies, start, k), nodes),
    decreases k,
{
    if k > 0 {
        lemma_model_leads(nodes, existing, open, replies, start, (k - 1) as nat);
        if node_ops::counts(replies, open.len(), k - 1) {
            let before = node_ops::resolved_by_model(
                nodes,
                existing,
                open,
                replies,
                start,
                (k - 1) as nat,
            );
            let at = open[replies[k - 1].id as int] as int;
            lemma_record_leads(
                before,
                nodes,
                at,
                node_ops::answered(
                    nodes[at],
                    existing,
                    replies[k - 1].duplicate_candidate_id as int,
                ),
            );
        }
    }
}

proof fn lemma_kept_lead(nodes: Seq<EntityNodeView>, state: ResolutionView, k: nat)
    requires
        distinct_identifiers(nodes),
        leads(state, nodes),
        k <= nodes.len(),
    ensures
        forall|i: int|
            0 <= i < nodes.len() && (i < k || state.resolved[i] is Some) ==> {
                &&& node_ops::with_kept(nodes, state.resolved, state.uuid_map, k).dom().contains(
                    (#[trigger] nodes[i]).uuid,
                )
                &&& node_ops::with_kept(nodes, state.resolved, state.uuid_map, k)[nodes[i].uuid]
                    == node_ops::final_nodes(nodes, state.resolved)[i].uuid
            },
    decreases k,
{
    if k > 0 {
        lemma_kept_lead(nodes, state, (k - 1) as nat);
        let before = node_ops::with_kept(nodes, state.resolved, state.uuid_map, (k - 1) as nat);
        let after = node_ops::with_kept(nodes, state.resolved, state.uuid_map, k);
        assert forall|i: int|
            0 <= i < nodes.len() && (i < k || state.resolved[i] is Some) implies {
            &&& after.dom().contains((#[trigger] nodes[i]).uuid)
            &&& after[nodes[i].uuid] == node_ops::final_nodes(nodes, state.resolved)[i].uuid
        } by {
            if i != k - 1 {
                assert(nodes[i].uuid != nodes[k - 1].uuid);
            }
        }
    } else {
        assert forall|i: int| 0 <= i < nodes.len() && state.resolved[i] is Some implies {
            &&& state.uuid_map.dom().contains((#[trigger] nodes[i]).uuid)
            &&& state.uuid_map[nodes[i].uuid] == node_ops::final_nodes(nodes, state.resolved)[i].uuid
        } by {
            assert(state.resolved[i] is Some);
        }
    }
}

/// A resolution loses no new entity: each becomes one entity, in order, and the identifier map
/// takes the identifier of each to that of what it became.
pub proof fn law_resolution_accounts_for_every_entity(
    nodes: Seq<EntityNodeView>,
    candidates: Seq<Seq<EntityNodeView>>,
    replies: Seq<NodeDuplicate>,
    i: int,
)
    requires
        distinct_identifiers(nodes),
        nodes.len() <= usize::MAX,
        0 <= i < nodes.len(),
    ensures
        resolution(nodes, candidates, replies).nodes.len() == nodes.len(),
        resolution(nodes, candidates, replies).uuid_map.dom().contains(nodes[i].uuid),
        resolution(nodes, candidates, replies).uuid_map[nodes[i].uuid] == resolution(
            nodes,
            candidates,
            replies,
        ).nodes[i].uuid,
{
    let n = node_ops::paired(nodes.len(), candidates.len());
    lemma_names_lead(nodes, candidates, n);
    let state = named(nodes, candidates);
    let end = if state.unresolved.len() == 0 {
        state
    } else {
        lemma_model_leads(
            nodes,
            compared(nodes, candidates),
            state.unresolved,
            replies,
            state,
            replies.len(),
        );
        node_ops::resolved_by_model(
            nodes,
            compared(nodes, candidates),
            state.unresolved,
            replies,
            state,
            replies.len(),
        )
    };
    lemma_kept_lead(nodes, end, nodes.len());
}

/// Holds where the positions of the open entities exist and differ.
pub open spec fn distinct_positions(open: Seq<usize>, n: nat) -> bool {
    &&& forall|j: int| 0 <= j < open.len() ==> (#[trigger] open[j]) < n
    &&& forall|i: int, j: int|
        0 <= i < j < open.len() ==> #[trigger] open[i] != #[trigger] open[j]
}

proof fn lemma_reply_stays(
    nodes: Seq<EntityNodeView>,
    existing: Seq<EntityNodeView>,
    open: Seq<usize>,
    replies: Seq<NodeDuplicate>,
    start: ResolutionView,
    m: nat,
    k: int,
)
    requires
        distinct_positions(open, nodes.len()),
        start.resolved.len() == nodes.len(),
        0 <= k < m <= replies.len(),
        0 <= replies[k].id < open.len(),
        forall|j: int| 0 <= j < k ==> (#[trigger] replies[j]).id != replies[k].id,
    ensures
        ({
            let at = open[replies[k].id as int] as int;
            let end = node_ops::resolved_by_model(nodes, existing, open, replies, start, m);
            &&& end.resolved.len() == nodes.len()
            &&& end.resolved[at] == Some(
                node_ops::answered(nodes[at], existing, replies[k].duplicate_candidate_id as int),
            )
        }),
    decreases m,
{
    lemma_resolved_length(nodes, existing, open, replies, start, (m - 1) as nat);
    if k < m - 1 {
        lemma_reply_stays(nodes, existing, open, replies, start, (m - 1) as nat, k);
        if node_ops::counts(replies, open.len(), m - 1) {
            assert(replies[k].id != replies[m - 1].id);
            let a = replies[k].id as int;
            let b = replies[m - 1].id as int;
            if a < b {
                assert(open[a] != open[b]);
            } else {
                assert(open[b] != open[a]);
            }
        }
    } else {
        assert(node_ops::counts(replies, open.len(), m - 1));
    }
}

proof fn lemma_resolved_length(
    nodes: Seq<EntityNodeView>,
    existing: Seq<EntityNodeView>,
    open: Seq<usize>,
    replies: Seq<NodeDuplicate>,
    start: ResolutionView,
    m: nat,
)
    requires
        forall|j: int| 0 <= j < open.len() ==> (#[trigger] open[j]) < nodes.len(),
        start.resolved.len() == nodes.len(),
        m <= replies.len(),
    ensures
        node_ops::resolved_by_model(nodes, existing, open, replies, start, m).resolved.len()
            == start.resolved.len(),
    decreases m,
{
    if m > 0 {
        lemma_resolved_length(nodes, existing, open, replies, start, (m - 1) as nat);
    }
}

proof fn lemma_unasked_stays(
    nodes: Seq<EntityNodeView>,
    existing: Seq<EntityNodeView>,
    open: Seq<usize>,
    replies: Seq<NodeDuplicate>,
    start: ResolutionView,
    m: nat,
    p: int,
)
    requires
        forall|j: int| 0 <= j < open.len() ==> (#[trigger] open[j]) < nodes.len(),
        start.resolved.len() == nodes.len(),
        m <= replies.len(),
        0 <= p < nodes.len(),
        forall|j: int|
            0 <= j < m && 0 <= (#[trigger] replies[j]).id < open.len() ==> open[replies[j].id as int]
                != p,
    ensures
        node_ops::resolved_by_model(nodes, existing, open, replies, start, m).resolved[p]
            == start.resolved[p],
    decreases m,
{
    if m > 0 {
        lemma_resolved_length(nodes, existing, open, replies, start, (m - 1) as nat);
        lemma_unasked_stays(nodes, existing, open, replies, start, (m - 1) as nat, p);
        if node_ops::counts(replies, open.len(), m - 1) {
            assert(open[replies[m - 1].id as int] != p);
        }
    }
}

/// An answer is about the entity that the model was shown under its id: the first answer with an
/// id makes the open entity at that place the known entity at the position that it names, and
/// leaves it a new entity where it names none. The known entity keeps everything but its labels.
pub proof fn law_answer_is_about_the_entity_shown(
    nodes: Seq<EntityNodeView>,
    existing: Seq<EntityNodeView>,
    open: Seq<usize>,
    replies: Seq<NodeDuplicate>,
    start: ResolutionView,
    k: int,
)
    requires
        distinct_positions(open, nodes.len()),
        start.resolved.len() == nodes.len(),
        0 <= k < replies.len(),
        0 <= replies[k].id < open.len(),
        forall|j: int| 0 <= j < k ==> (#[trigger] replies[j]).id != replies[k].id,
    ensures
        ({
            let at = open[replies[k].id as int] as int;
            let c = replies[k].duplicate_candidate_id as int;
            let out = outcome_of(
                nodes,
                node_ops::resolved_by_model(
                    nodes,
                    existing,
                    open,
                    replies,
                    start,
                    replies.len(),
                ),
            );
            &&& out.nodes.len() == nodes.len()
            &&& 0 <= c < existing.len() ==> out.nodes[at] == EntityNodeView {
                labels: out.nodes[at].labels,
                ..existing[c]
            }
            &&& !(0 <= c < existing.len()) ==> out.nodes[at] == nodes[at]
        }),
{
    lemma_reply_stays(nodes, existing, open, replies, start, replies.len(), k);
}

/// The identifier of an open entity leads to that of the known entity that the first answer about
/// it names, and to itself where that answer names none.
pub proof fn law_answer_leads_to_the_named_entity(
    nodes: Seq<EntityNodeView>,
    existing: Seq<EntityNodeView>,
    open: Seq<usize>,
    replies: Seq<NodeDuplicate>,
    start: ResolutionView,
    k: int,
)
    requires
        distinct_identifiers(nodes),
        leads(start, nodes),
        distinct_positions(open, nodes.len()),
        0 <= k < replies.len(),
        0 <= replies[k].id < open.len(),
        forall|j: int| 0 <= j < k ==> (#[trigger] replies[j]).id != replies[k].id,
    ensures
        ({
            let at = open[replies[k].id as int] as int;
            let c = replies[k].duplicate_candidate_id as int;
            let out = outcome_of(
                nodes,
                node_ops::resolved_by_model(
                    nodes,
                    existing,
                    open,
                    replies,
                    start,
                    replies.len(),
                ),
            );
            &&& out.uuid_map.dom().contains(nodes[at].uuid)
            &&& 0 <= c < existing.len() ==> out.uuid_map[nodes[at].uuid] == existing[c].uuid
            &&& !(0 <= c < existing.len()) ==> out.uuid_map[nodes[at].uuid] == nodes[at].uuid
        }),
{
    let end = node_ops::resolved_by_model(nodes, existing, open, replies, start, replies.len());
    law_answer_is_about_the_entity_shown(nodes, existing, open, replies, start, k);
    lemma_model_leads(nodes, existing, open, replies, start, replies.len());
    lemma_kept_lead(nodes, end, nodes.len());
}

/// An entity that no answer is about stays what it was before the model was asked: what its name
/// resolved it to, or itself.
pub proof fn law_unanswered_entity_stays(
    nodes: Seq<EntityNodeView>,
    existing: Seq<EntityNodeView>,
    open: Seq<usize>,
    replies: Seq<NodeDuplicate>,
    start: ResolutionView,
    p: int,
)
    requires
        forall|j: int| 0 <= j < open.len() ==> (#[trigger] open[j]) < nodes.len(),
        start.resolved.len() == nodes.len(),
        0 <= p < nodes.len(),
        forall|j: int|
            0 <= j < replies.len() && 0 <= (#[trigger] replies[j]).id < open.len()
                ==> open[replies[j].id as int] != p,
    ensures
        outcome_of(
            nodes,
            node_ops::resolved_by_model(nodes, existing, open, replies, start, replies.len()),
        ).nodes[p] == if start.resolved[p] is Some {
            start.resolved[p]->0
        } else {
            nodes[p]
        },
{
    lemma_unasked_stays(nodes, existing, open, replies, start, replies.len(), p);
}

/// The model is shown every open entity under its place among the open ones, by its own name, and
/// every known entity under its position, by its own name and with its position as the candidate
/// that an answer names.
pub proof fn law_entities_are_shown_under_their_ids(
    nodes: Seq<EntityNodeView>,
    open: Seq<usize>,
    existing: Seq<EntityNodeView>,
    i: int,
    c: int,
) -> (members: Map<Seq<char>, JsonView>)
    ensures
        node_ops::extracted_entries(nodes, open) matches JsonView::Array(items) && {
            &&& items.len() == open.len()
            &&& 0 <= i < open.len() ==> items[i] == JsonView::Object(
                seq![
                    ("entity_type"@, json::string_array(nodes[open[i] as int].labels)),
                    ("entity_type_description"@, JsonView::Str("Default Entity Type"@)),
                    ("id"@, JsonView::Int(i)),
                    ("name"@, JsonView::Str(nodes[open[i] as int].name)),
                ],
            )
        },
        node_ops::existing_entries(existing) matches JsonView::Array(items) && {
            &&& items.len() == existing.len()
            &&& 0 <= c < existing.len() ==> {
                &&& items[c] == json::object_of(members)
                &&& members.dom().contains("candidate_id"@)
                &&& members["candidate_id"@] == JsonView::Int(c)
                &&& members.dom().contains("name"@)
                &&& members["name"@] == JsonView::Str(existing[c].name)
                &&& members.dom().contains("entity_types"@)
                &&& members["entity_types"@] == json::string_array(existing[c].labels)
                &&& members.dom().contains("summary"@)
                &&& members["summary"@] == JsonView::Str(
                    if existing[c].summary.len() <= 120 {
                        existing[c].summary
                    } else {
                        existing[c].summary.take(120)
                    },
                )
            }
        },
{
    reveal_strlit("candidate_id");
    reveal_strlit("name");
    reveal_strlit("entity_types");
    reveal_strlit("summary");
    assert("candidate_id"@.len() == 12);
    assert("name"@.len() == 4);
    assert("entity_types"@.len() == 12 && "entity_types"@[0] == 'e');
    assert("candidate_id"@[0] == 'c');
    assert("summary"@.len() == 7);
    let node = existing[c];
    node.attributes.insert("candidate_id"@, JsonView::Int(c)).insert(
        "name"@,
        JsonView::Str(node.name),
    ).insert("entity_types"@, json::string_array(node.labels)).insert(
        "summary"@,
        JsonView::Str(
            node_ops::preview(node.summary, node_ops::SUMMARY_PREVIEW_CHARS as nat),
        ),
    )
}

/// The entities that the model compares the open ones with are the candidates that were found for
/// these, each identifier once.
pub proof fn law_model_compares_with_every_candidate(
    candidates: Seq<Seq<EntityNodeView>>,
    open: Seq<usize>,
    j: int,
    c: int,
    x: EntityNodeView,
)
    ensures
        ({
            let out = node_ops::distinct_nodes(
                node_ops::open_candidates(candidates, open, open.len()),
            );
            &&& 0 <= j < open.len() && 0 <= c < candidates[open[j] as int].len() ==> exists|m: int|
                0 <= m < out.len() && (#[trigger] out[m]).uuid == candidates[open[j] as int][c].uuid
            &&& out.contains(x) ==> exists|i: int|
                0 <= i < open.len() && candidates[#[trigger] open[i] as int].contains(x)
            &&& forall|a: int, b: int|
                0 <= a < b < out.len() ==> (#[trigger] out[a]).uuid != (#[trigger] out[b]).uuid
        }),
{
    let all = node_ops::open_candidates(candidates, open, open.len());
    let out = node_ops::distinct_nodes(all);
    let at = law_first_of_each_identifier_is_left(all);
    if 0 <= j < open.len() && 0 <= c < candidates[open[j] as int].len() {
        let p = lemma_open_candidate(candidates, open, open.len(), j, c);
        let q = lemma_first_with_identifier(all, p);
        let m = choose|m: int| 0 <= m < at.len() && at[m] == q;
        assert(out[m].uuid == candidates[open[j] as int][c].uuid);
    }
    if out.contains(x) {
        let m = choose|m: int| 0 <= m < out.len() && out[m] == x;
        let i = lemma_open_candidate_of(candidates, open, open.len(), at[m]);
        assert(candidates[open[i] as int].contains(x));
    }
    assert forall|a: int, b: int| 0 <= a < b < out.len() implies (#[trigger] out[a]).uuid != (
    #[trigger] out[b]).uuid by {
        assert(at[a] < at[b]);
        assert(all[at[a]].uuid != all[at[b]].uuid);
    }
}

proof fn lemma_open_candidate(
    candidates: Seq<Seq<EntityNodeView>>,
    open: Seq<usize>,
    k: nat,
    j: int,
    c: int,
) -> (p: int)
    requires
        0 <= j < k <= open.len(),
        0 <= c < candidates[open[j] as int].len(),
    ensures
        0 <= p < node_ops::open_candidates(candidates, open, k).len(),
        node_ops::open_candidates(candidates, open, k)[p] == candidates[open[j] as int][c],
    decreases k,
{
    let before = node_ops::open_candidates(candidates, open, (k - 1) as nat);
    if j == k - 1 {
        before.len() + c
    } else {
        lemma_open_candidate(candidates, open, (k - 1) as nat, j, c)
    }
}

proof fn lemma_open_candidate_of(
    candidates: Seq<Seq<EntityNodeView>>,
    open: Seq<usize>,
    k: nat,
    p: int,
) -> (i: int)
    requires
        k <= open.len(),
        0 <= p < node_ops::open_candidates(candidates, open, k).len(),
    ensures
        0 <= i < k,
        candidates[open[i] as int].contains(node_ops::open_candidates(candidates, open, k)[p]),
    decreases k,
{
    let before = node_ops::open_candidates(candidates, open, (k - 1) as nat);
    let last = candidates[open[k - 1] as int];
    if p < before.len() {
        lemma_open_candidate_of(candidates, open, (k - 1) as nat, p)
    } else {
        assert(last[p - before.len()] == node_ops::open_candidates(candidates, open, k)[p]);
        k - 1
    }
}

/// Of entities with the same identifier the first is left, as it is and in order.
pub proof fn law_first_of_each_identifier_is_left(all: Seq<EntityNodeView>) -> (at: Seq<int>)
    ensures
        selection::selects(
            all,
            node_ops::distinct_nodes(all),
            at,
            |i: int, n: EntityNodeView|
                forall|j: int| 0 <= j < i ==> (#[trigger] all[j]).uuid != n.uuid,
            |n: EntityNodeView| n,
        ),
    decreases all.len(),
{
    let keep = |i: int, n: EntityNodeView|
        forall|j: int| 0 <= j < i ==> (#[trigger] all[j]).uuid != n.uuid;
    let make = |n: EntityNodeView| n;
    if all.len() == 0 {
        Seq::empty()
    } else {
        let init = all.drop_last();
        let last = all.last();
        let n = all.len() - 1;
        let had = |i: int, n: EntityNodeView|
            forall|j: int| 0 <= j < i ==> (#[trigger] init[j]).uuid != n.uuid;
        let before = law_first_of_each_identifier_is_left(init);
        assert forall|i: int| 0 <= i < n implies had(i, #[trigger] all[i]) == keep(i, all[i]) by {
            assert forall|j: int| 0 <= j < i implies #[trigger] init[j] == all[j] by {}
            if had(i, all[i]) {
                assert forall|j: int| 0 <= j < i implies (#[trigger] all[j]).uuid
                    != all[i].uuid by {
                    assert(init[j] == all[j]);
                }
            }
        }
        selection::lemma_selects_next(
            all,
            node_ops::distinct_nodes(init),
            before,
            had,
            keep,
            make,
        );
        let ids = init.map_values(|n: EntityNodeView| n.uuid);
        assert(node_ops::uuids_of(init).contains(last.uuid) == !keep(n, last)) by {
            if node_ops::uuids_of(init).contains(last.uuid) {
                let q = choose|q: int| 0 <= q < ids.len() && ids[q] == last.uuid;
                assert(all[q].uuid == last.uuid);
            }
            if !keep(n, last) {
                let j = choose|j: int| 0 <= j < n && (#[trigger] all[j]).uuid == last.uuid;
                assert(ids[j] == last.uuid);
            }
        }
        if keep(n, last) {
            before.push(n)
        } else {
            before
        }
    }
}

proof fn lemma_first_with_identifier(all: Seq<EntityNodeView>, p: int) -> (q: int)
    requires
        0 <= p < all.len(),
    ensures
        0 <= q <= p,
        all[q].uuid == all[p].uuid,
        forall|j: int| 0 <= j < q ==> (#[trigger] all[j]).uuid != all[q].uuid,
    decreases p,
{
    if exists|j: int| 0 <= j < p && (#[trigger] all[j]).uuid == all[p].uuid {
        let j = choose|j: int| 0 <= j < p && (#[trigger] all[j]).uuid == all[p].uuid;
        lemma_first_with_identifier(all, j)
    } else {
        p
    }
}

/// Holds where exactly one of the candidates, at a position, has the normal form of a name.
pub open spec fn only_namesake(
    candidates: Seq<EntityNodeView>,
    name: Seq<char>,
    c: int,
) -> bool {
    &&& 0 <= c < candidates.len()
    &&& helpers::normal_form(candidates[c].name) == helpers::normal_form(name)
    &&& forall|j: int|
        0 <= j < candidates.len() && j != c ==> helpers::normal_form(
            (#[trigger] candidates[j]).name,
        ) != helpers::normal_form(name)
}

/// The candidates with the normal form of a name are found, and no others, in order.
pub proof fn law_namesakes_are_found(nodes: Seq<EntityNodeView>, normal: Seq<char>) -> (at: Seq<int>)
    ensures
        selection::selects(
            nodes,
            dedup_index::nodes_named(nodes, normal),
            at,
            |i: int, n: EntityNodeView| helpers::normal_form(n.name) == normal,
            |n: EntityNodeView| n,
        ),
    decreases nodes.len(),
{
    let keep = |i: int, n: EntityNodeView| helpers::normal_form(n.name) == normal;
    let make = |n: EntityNodeView| n;
    if nodes.len() == 0 {
        Seq::empty()
    } else {
        let init = nodes.drop_last();
        let before = law_namesakes_are_found(init, normal);
        selection::lemma_selects_next(
            nodes,
            dedup_index::nodes_named(init, normal),
            before,
            keep,
            keep,
            make,
        );
        if keep(nodes.len() - 1, nodes.last()) {
            before.push(nodes.len() - 1)
        } else {
            before
        }
    }
}

/// A new entity with exactly one namesake among its candidates, white space and case aside, is that
/// known entity, up to its labels; with two namesakes no name decides.
pub proof fn law_namesake_decides(candidates: Seq<EntityNodeView>, node: EntityNodeView, c: int, d: int)
    ensures
        only_namesake(candidates, node.name, c) ==> (dedup_index::similar_entity(
            dedup_index::candidates_among(candidates),
            node,
        ) matches Some(found) && found == (EntityNodeView {
            labels: found.labels,
            ..candidates[c]
        })),
        0 <= c < d < candidates.len() && helpers::normal_form(candidates[c].name)
            == helpers::normal_form(node.name) && helpers::normal_form(candidates[d].name)
            == helpers::normal_form(node.name) ==> dedup_index::similar_entity(
            dedup_index::candidates_among(candidates),
            node,
        ) is None,
{
    let normal = helpers::normal_form(node.name);
    let exact = dedup_index::nodes_named(candidates, normal);
    let at = law_namesakes_are_found(candidates, normal);
    if only_namesake(candidates, node.name, c) {
        let k = choose|k: int| 0 <= k < at.len() && at[k] == c;
        if at.len() > 1 {
            let other: int = if k == 0 {
                1
            } else {
                0
            };
            assert(at[other] != at[k]);
            assert(helpers::normal_form(candidates[at[other]].name) == normal);
        }
        assert(exact[0] == candidates[c]);
    }
    if 0 <= c < d < candidates.len() && helpers::normal_form(candidates[c].name) == normal
        && helpers::normal_form(candidates[d].name) == normal {
        let i = choose|i: int| 0 <= i < at.len() && at[i] == c;
        let j = choose|j: int| 0 <= j < at.len() && at[j] == d;
        assert(i != j);
    }
}

proof fn lemma_looked_up(
    nodes: Seq<EntityNodeView>,
    candidates: Seq<Seq<EntityNodeView>>,
    k: nat,
    i: int,
)
    requires
        k <= nodes.len() <= usize::MAX,
        0 <= i < nodes.len(),
    ensures
        ({
            let state = node_ops::looked_up(nodes, candidates, k);
            let found = dedup_index::similar_entity(
                dedup_index::candidates_among(candidates[i]),
                nodes[i],
            );
            &&& state.resolved.len() == nodes.len()
            &&& i >= k ==> state.resolved[i] is None
            &&& i < k && candidates[i].len() == 0 ==> state.resolved[i] is None
            &&& i < k && candidates[i].len() > 0 ==> state.resolved[i] == found
            &&& (exists|j: int|
                0 <= j < state.unresolved.len() && (#[trigger] state.unresolved[j]) == i) <==> i < k
                && candidates[i].len() > 0 && found is None
            &&& forall|a: int, b: int|
                0 <= a < b < state.unresolved.len() ==> (#[trigger] state.unresolved[a]) < (
                #[trigger] state.unresolved[b])
            &&& forall|a: int|
                0 <= a < state.unresolved.len() ==> (#[trigger] state.unresolved[a]) < k
        }),
    decreases k,
{
    if k > 0 {
        lemma_looked_up(nodes, candidates, (k - 1) as nat, i);
        let before = node_ops::looked_up(nodes, candidates, (k - 1) as nat);
        let state = node_ops::looked_up(nodes, candidates, k);
        if candidates[k - 1].len() > 0 {
            let known = dedup_index::candidates_among(candidates[k - 1]);
            if dedup_index::similar_entity(known, nodes[k - 1]) is None {
                let n = before.unresolved.len();
                assert(state.unresolved == before.unresolved.push((k - 1) as usize));
                assert(state.unresolved[n as int] == k - 1);
                if i != k - 1 {
                    assert((exists|j: int|
                        0 <= j < state.unresolved.len() && (#[trigger] state.unresolved[j]) == i)
                        <==> (exists|j: int|
                        0 <= j < before.unresolved.len() && (#[trigger] before.unresolved[j])
                            == i)) by {
                        if exists|j: int|
                            0 <= j < before.unresolved.len() && (#[trigger] before.unresolved[j])
                                == i {
                            let j = choose|j: int|
                                0 <= j < before.unresolved.len() && (
                                #[trigger] before.unresolved[j]) == i;
                            assert(state.unresolved[j] == i);
                        }
                        if exists|j: int|
                            0 <= j < state.unresolved.len() && (#[trigger] state.unresolved[j])
                                == i {
                            let j = choose|j: int|
                                0 <= j < state.unresolved.len() && (#[trigger] state.unresolved[j])
                                    == i;
                            assert(before.unresolved[j] == i);
                        }
                    }
                }
                assert forall|a: int, b: int| 0 <= a < b < state.unresolved.len() implies (
                #[trigger] state.unresolved[a]) < (#[trigger] state.unresolved[b]) by {
                    assert(state.unresolved[a] == before.unresolved[a]);
                    if b < n {
                        assert(state.unresolved[b] == before.unresolved[b]);
                    }
                }
            }
        }
        let found = dedup_index::similar_entity(
            dedup_index::candidates_among(candidates[i]),
            nodes[i],
        );
        if i < k && candidates[i].len() > 0 && found is None {
            if i == k - 1 {
                let n = before.unresolved.len() as int;
                assert(state.unresolved == before.unresolved.push((k - 1) as usize));
                assert(state.unresolved[n] == i);
            } else {
                let j = choose|j: int|
                    0 <= j < before.unresolved.len() && (#[trigger] before.unresolved[j]) == i;
                assert(before.unresolved[j] == i);
                assert(state.unresolved[j] == i);
            }
        }
    }
}

/// Every new entity is looked up among the candidates at its own position. One that finds what it
/// duplicates there is that; one that has candidates and finds nothing is open, and no other is. The
/// open ones are listed in order.
pub proof fn law_entities_are_looked_up_among_their_own_candidates(
    nodes: Seq<EntityNodeView>,
    candidates: Seq<Seq<EntityNodeView>>,
    i: int,
    c: int,
)
    requires
        nodes.len() <= usize::MAX,
        0 <= i < nodes.len(),
        i < candidates.len(),
    ensures
        ({
            let state = named(nodes, candidates);
            &&& only_namesake(candidates[i], nodes[i].name, c) ==> (state.resolved[i]
                matches Some(found) && found == (EntityNodeView {
                labels: found.labels,
                ..candidates[i][c]
            }))
            &&& candidates[i].len() == 0 ==> state.resolved[i] is None
            &&& (exists|j: int|
                0 <= j < state.unresolved.len() && (#[trigger] state.unresolved[j]) == i)
                <==> candidates[i].len() > 0 && state.resolved[i] is None
            &&& distinct_positions(state.unresolved, nodes.len())
        }),
{
    let k = node_ops::paired(nodes.len(), candidates.len());
    lemma_looked_up(nodes, candidates, k, i);
    law_namesake_decides(candidates[i], nodes[i], c, c);
    let open = named(nodes, candidates).unresolved;
    assert forall|a: int, b: int| 0 <= a < b < open.len() implies #[trigger] open[a]
        != #[trigger] open[b] by {
        assert(open[a] < open[b]);
    }
}

/// A new entity with exactly one namesake among its candidates becomes that known entity, up to its
/// labels, whatever the model answers.
pub proof fn law_namesake_stands_whatever_is_answered(
    nodes: Seq<EntityNodeView>,
    candidates: Seq<Seq<EntityNodeView>>,
    replies: Seq<NodeDuplicate>,
    i: int,
    c: int,
)
    requires
        nodes.len() <= usize::MAX,
        0 <= i < nodes.len(),
        i < candidates.len(),
        only_namesake(candidates[i], nodes[i].name, c),
    ensures
        resolution(nodes, candidates, replies).nodes[i] == (EntityNodeView {
            labels: resolution(nodes, candidates, replies).nodes[i].labels,
            ..candidates[i][c]
        }),
{
    law_entities_are_looked_up_among_their_own_candidates(nodes, candidates, i, c);
    let state = named(nodes, candidates);
    let open = state.unresolved;
    lemma_looked_up(nodes, candidates, node_ops::paired(nodes.len(), candidates.len()), i);
    if open.len() > 0 {
        assert forall|j: int|
            0 <= j < replies.len() && 0 <= (#[trigger] replies[j]).id < open.len() implies open[replies[j].id as int]
            != i by {
            assert(open[replies[j].id as int] < nodes.len());
        }
        law_unanswered_entity_stays(
            nodes,
            compared(nodes, candidates),
            open,
            replies,
            state,
            i,
        );
    }
}

} // verus!
