//! What the extraction of entities and the record of their duplicates promise.
use crate::json::{self, JsonView};
use crate::pipeline::dedup_index;
use crate::pipeline::edge_ops;
use crate::pipeline::node_ops::{self, ResolutionView};
use crate::prompts::models::{ExtractedEntity, NodeDuplicate};
use crate::selection;
use crate::text;
use crate::time;
use crate::types::episode::EpisodicNodeView;
use crate::types::EntityNodeView;
use vstd::prelude::*;

verus! {

/// The extracted entities that are kept are those whose names are not blank, in order.
pub proof fn law_named_entities_are_kept(entities: Seq<ExtractedEntity>) -> (at: Seq<int>)
    ensures
        selection::selects(
            entities,
            node_ops::named_entities(entities),
            at,
            |i: int, e: ExtractedEntity| text::trim(e.name@).len() > 0,
            |e: ExtractedEntity| e,
        ),
    decreases entities.len(),
{
    let keep = |i: int, e: ExtractedEntity| text::trim(e.name@).len() > 0;
    let make = |e: ExtractedEntity| e;
    if entities.len() == 0 {
        Seq::empty()
    } else {
        let init = entities.drop_last();
        let at = law_named_entities_are_kept(init);
        selection::lemma_selects_next(
            entities,
            node_ops::named_entities(init),
            at,
            keep,
            keep,
            make,
        );
        if keep(entities.len() - 1, entities.last()) {
            at.push(entities.len() - 1)
        } else {
            at
        }
    }
}

/// The member of an object under a name is the first that has the name; there is none where none
/// has it, and in what is no object.
pub proof fn law_first_member_is_found(
    members: Seq<(Seq<char>, JsonView)>,
    name: Seq<char>,
    i: int,
)
    ensures
        0 <= i < members.len() && members[i].0 == name && (forall|j: int|
            0 <= j < i ==> (#[trigger] members[j]).0 != name) ==> json::json_member(
            JsonView::Object(members),
            name,
        ) == Some(members[i].1),
        (forall|j: int| 0 <= j < members.len() ==> (#[trigger] members[j]).0 != name)
            ==> json::json_member(JsonView::Object(members), name) is None,
{
    lemma_first_member(members, name, 0, i);
}

proof fn lemma_first_member(
    members: Seq<(Seq<char>, JsonView)>,
    name: Seq<char>,
    from: int,
    i: int,
)
    requires
        0 <= from,
    ensures
        from <= i < members.len() && members[i].0 == name && (forall|j: int|
            from <= j < i ==> (#[trigger] members[j]).0 != name) ==> json::first_member(
            members,
            name,
            from,
        ) == Some(members[i].1),
        (forall|j: int| from <= j < members.len() ==> (#[trigger] members[j]).0 != name)
            ==> json::first_member(members, name, from) is None,
    decreases members.len() - from,
{
    if from < members.len() && members[from].0 != name {
        lemma_first_member(members, name, from + 1, i);
    }
}

/// The model is shown `Entity` under the number nought and the registered types under the numbers
/// from one on, and the number of a type leads back to its name. Any other number stands for
/// `Entity`.
pub proof fn law_type_numbers_lead_back(members: Seq<(Seq<char>, JsonView)>, i: int)
    ensures
        ({
            let shown = node_ops::entity_types(Some(JsonView::Object(members)));
            &&& node_ops::name_of_type(shown, 0) == "Entity"@
            &&& 0 <= i < members.len() ==> node_ops::name_of_type(shown, i + 1) == members[i].0
            &&& i < 0 || i > members.len() ==> node_ops::name_of_type(shown, i) == "Entity"@
        }),
        node_ops::name_of_type(node_ops::entity_types(None), i) == "Entity"@,
{
    lemma_type_entry(0, "Entity"@, JsonView::Str(node_ops::ENTITY_DESCRIPTION@));
    if 0 <= i < members.len() {
        lemma_type_entry(i + 1, members[i].0, node_ops::registered_description(members[i].1));
    }
}

proof fn lemma_type_entry(id: int, name: Seq<char>, description: JsonView)
    ensures
        json::json_member(
            node_ops::entity_type_entry(id, name, description),
            "entity_type_name"@,
        ) == Some(JsonView::Str(name)),
        json::json_member(
            node_ops::entity_type_entry(id, name, description),
            "entity_type_id"@,
        ) == Some(JsonView::Int(id)),
        json::json_member(
            node_ops::entity_type_entry(id, name, description),
            "entity_type_description"@,
        ) == Some(description),
{
    reveal_strlit("entity_type_name");
    reveal_strlit("entity_type_id");
    reveal_strlit("entity_type_description");
    assert("entity_type_name"@.len() == 16);
    assert("entity_type_id"@.len() == 14);
    assert("entity_type_description"@.len() == 23);
    let members = seq![
        ("entity_type_description"@, description),
        ("entity_type_id"@, JsonView::Int(id)),
        ("entity_type_name"@, JsonView::Str(name)),
    ];
    law_first_member_is_found(members, "entity_type_description"@, 0);
    law_first_member_is_found(members, "entity_type_id"@, 1);
    law_first_member_is_found(members, "entity_type_name"@, 2);
}

/// The entry of a type that the model is shown has its number, its name and its description.
pub proof fn law_types_are_shown_under_their_numbers(
    members: Seq<(Seq<char>, JsonView)>,
    i: int,
)
    requires
        0 <= i < members.len(),
    ensures
        node_ops::entity_types(Some(JsonView::Object(members))) matches JsonView::Array(items)
            && items.len() == members.len() + 1 && json::json_member(items[i + 1], "entity_type_id"@)
            == Some(JsonView::Int(i + 1)) && json::json_member(items[i + 1], "entity_type_name"@)
            == Some(JsonView::Str(members[i].0)) && json::json_member(
            items[i + 1],
            "entity_type_description"@,
        ) == Some(
            match json::json_member(members[i].1, "description"@) {
                Some(d) => d,
                None => JsonView::Null,
            },
        ),
{
    lemma_type_entry(i + 1, members[i].0, node_ops::registered_description(members[i].1));
}

/// An extracted entity becomes a node of its name and group. It is labelled `Entity`, and with the
/// registered type whose number the model gave; nothing else is known of it.
pub proof fn law_extracted_entity_has_its_type(
    node: EntityNodeView,
    entity: ExtractedEntity,
    members: Seq<(Seq<char>, JsonView)>,
    group_id: Seq<char>,
)
    requires
        node_ops::is_node_of(
            node,
            entity,
            node_ops::entity_types(Some(JsonView::Object(members))),
            group_id,
        ),
    ensures
        node.name == entity.name@,
        node.group_id == group_id,
        node.summary.len() == 0,
        node.attributes.dom() == Set::<Seq<char>>::empty(),
        node.name_embedding is None,
        node.labels.len() > 0 && node.labels[0] == "Entity"@,
        1 <= entity.entity_type_id <= members.len() && members[entity.entity_type_id - 1].0
            != "Entity"@ ==> node.labels == seq![
            "Entity"@,
            members[entity.entity_type_id - 1].0,
        ],
        !(1 <= entity.entity_type_id <= members.len()) ==> node.labels == seq!["Entity"@],
{
    law_type_numbers_lead_back(members, entity.entity_type_id - 1);
    law_type_numbers_lead_back(members, entity.entity_type_id as int);
    assert(node.attributes.dom() =~= Set::<Seq<char>>::empty());
}

/// Every earlier episode is shown with its content and its time, in order.
pub proof fn law_episodes_are_shown_in_order(episodes: Seq<EpisodicNodeView>, i: int)
    requires
        0 <= i < episodes.len(),
    ensures
        node_ops::episode_entries(episodes) matches JsonView::Array(items) && items.len()
            == episodes.len() && json::json_member(items[i], "content"@) == Some(
            JsonView::Str(episodes[i].content),
        ) && json::json_member(items[i], "timestamp"@) == Some(
            JsonView::Str(time::iso_text(episodes[i].valid_at)),
        ),
{
    reveal_strlit("content");
    reveal_strlit("timestamp");
    assert("content"@.len() == 7);
    assert("timestamp"@.len() == 9);
    let members = seq![
        ("content"@, JsonView::Str(episodes[i].content)),
        ("timestamp"@, JsonView::Str(time::iso_text(episodes[i].valid_at))),
    ];
    law_first_member_is_found(members, "content"@, 0);
    law_first_member_is_found(members, "timestamp"@, 1);
}

/// Holds where the duplicates are the new entities that became one with another identifier, each
/// with what it became.
pub open spec fn duplicates_in_step(state: ResolutionView, nodes: Seq<EntityNodeView>) -> bool {
    &&& state.resolved.len() == nodes.len()
    &&& forall|i: int|
        0 <= i < nodes.len() && (#[trigger] state.resolved[i]) is Some
            && state.resolved[i]->0.uuid != nodes[i].uuid ==> state.duplicates.contains(
            (nodes[i], state.resolved[i]->0),
        )
    &&& forall|d: int|
        0 <= d < state.duplicates.len() ==> became(
            state.resolved,
            nodes,
            (#[trigger] state.duplicates[d]).0,
            state.duplicates[d].1,
        )
}

/// Holds where a new entity became another.
pub open spec fn became(
    resolved: Seq<Option<EntityNodeView>>,
    nodes: Seq<EntityNodeView>,
    node: EntityNodeView,
    found: EntityNodeView,
) -> bool {
    &&& node.uuid != found.uuid
    &&& exists|i: int|
        0 <= i < nodes.len() && i < resolved.len() && #[trigger] nodes[i] == node && resolved[i]
            == Some(found)
}

proof fn lemma_record_in_step(
    state: ResolutionView,
    nodes: Seq<EntityNodeView>,
    at: int,
    found: EntityNodeView,
)
    requires
        duplicates_in_step(state, nodes),
        0 <= at < nodes.len(),
        state.resolved[at] is None,
    ensures
        duplicates_in_step(state.record(at, nodes[at], found), nodes),
{
    let after = state.record(at, nodes[at], found);
    let n = state.duplicates.len();
    assert forall|i: int|
        0 <= i < nodes.len() && (#[trigger] after.resolved[i]) is Some && after.resolved[i]->0.uuid
            != nodes[i].uuid implies after.duplicates.contains(
        (nodes[i], after.resolved[i]->0),
    ) by {
        if i == at {
            assert(after.duplicates[n as int] == (nodes[at], found));
        } else {
            assert(state.resolved[i] == after.resolved[i]);
            let d = choose|d: int|
                0 <= d < n && state.duplicates[d] == (nodes[i], state.resolved[i]->0);
            assert(after.duplicates[d] == state.duplicates[d]);
        }
    }
    assert forall|d: int| 0 <= d < after.duplicates.len() implies became(
        after.resolved,
        nodes,
        (#[trigger] after.duplicates[d]).0,
        after.duplicates[d].1,
    ) by {
        if d < n {
            let p = state.duplicates[d];
            assert(after.duplicates[d] == p);
            let i = choose|i: int|
                0 <= i < nodes.len() && i < state.resolved.len() && #[trigger] nodes[i] == p.0
                    && state.resolved[i] == Some(p.1);
            assert(nodes[i] == p.0 && after.resolved[i] == Some(p.1));
        } else {
            assert(nodes[at] == after.duplicates[d].0 && after.resolved[at] == Some(found));
        }
    }
}

/// After the look-up by name, the duplicates are the new entities that were found to be known under
/// another identifier, each with the known one.
pub proof fn law_duplicates_are_recorded(
    nodes: Seq<EntityNodeView>,
    candidates: Seq<Seq<EntityNodeView>>,
    k: nat,
)
    requires
        k <= nodes.len(),
    ensures
        duplicates_in_step(node_ops::looked_up(nodes, candidates, k), nodes),
        forall|i: int|
            k <= i < nodes.len() ==> (#[trigger] node_ops::looked_up(
                nodes,
                candidates,
                k,
            ).resolved[i]) is None,
    decreases k,
{
    if k > 0 {
        let before = node_ops::looked_up(nodes, candidates, (k - 1) as nat);
        law_duplicates_are_recorded(nodes, candidates, (k - 1) as nat);
        if candidates[k - 1].len() > 0 {
            let known = dedup_index::candidates_among(candidates[k - 1]);
            match dedup_index::similar_entity(known, nodes[k - 1]) {
                Some(found) => {
                    assert(before.resolved[k - 1] is None);
                    lemma_record_in_step(before, nodes, k - 1, found);
                    let after = before.record(k - 1, nodes[k - 1], found);
                    assert forall|i: int| k <= i < nodes.len() implies (
                    #[trigger] after.resolved[i]) is None by {
                        assert(before.resolved[i] is None);
                    }
                },
                None => {
                    let after = before.leave_open(k - 1);
                    assert(after.resolved == before.resolved);
                    assert(after.duplicates == before.duplicates);
                    assert forall|i: int| k <= i < nodes.len() implies (
                    #[trigger] after.resolved[i]) is None by {
                        assert(before.resolved[i] is None);
                    }
                },
            }
        }
    }
}

/// Holds where one of the first `k` answers names the open entity at `o`.
pub open spec fn is_named(replies: Seq<NodeDuplicate>, k: int, o: int) -> bool {
    exists|j: int| 0 <= j < k && (#[trigger] replies[j]).id == o
}

/// The answers of the model keep the duplicates in step: those that it says are known under another
/// identifier join, each with the known one.
pub proof fn law_answers_record_duplicates(
    nodes: Seq<EntityNodeView>,
    existing: Seq<EntityNodeView>,
    open_indices: Seq<usize>,
    replies: Seq<NodeDuplicate>,
    start: ResolutionView,
    k: nat,
)
    requires
        k <= replies.len(),
        duplicates_in_step(start, nodes),
        forall|o: int|
            0 <= o < open_indices.len() ==> (#[trigger] open_indices[o]) < nodes.len()
                && start.resolved[open_indices[o] as int] is None,
        forall|a: int, b: int|
            0 <= a < b < open_indices.len() ==> #[trigger] open_indices[a]
                != #[trigger] open_indices[b],
    ensures
        duplicates_in_step(
            node_ops::resolved_by_model(nodes, existing, open_indices, replies, start, k),
            nodes,
        ),
        forall|o: int|
            0 <= o < open_indices.len() && !is_named(replies, k as int, o)
                ==> node_ops::resolved_by_model(
                nodes,
                existing,
                open_indices,
                replies,
                start,
                k,
            ).resolved[(#[trigger] open_indices[o]) as int] is None,
    decreases k,
{
    if k > 0 {
        law_answers_record_duplicates(
            nodes,
            existing,
            open_indices,
            replies,
            start,
            (k - 1) as nat,
        );
        let before = node_ops::resolved_by_model(
            nodes,
            existing,
            open_indices,
            replies,
            start,
            (k - 1) as nat,
        );
        let after = node_ops::resolved_by_model(nodes, existing, open_indices, replies, start, k);
        let reply = replies[k - 1];
        if node_ops::counts(replies, open_indices.len(), k - 1) {
            let o = reply.id as int;
            let at = open_indices[o] as int;
            assert(!is_named(replies, k - 1, o));
            lemma_record_in_step(
                before,
                nodes,
                at,
                node_ops::answered(nodes[at], existing, reply.duplicate_candidate_id as int),
            );
        }
        assert forall|o: int|
            0 <= o < open_indices.len() && !is_named(replies, k as int, o) implies after.resolved[(
        #[trigger] open_indices[o]) as int] is None by {
            if is_named(replies, k - 1, o) {
                let j = choose|j: int| 0 <= j < k - 1 && (#[trigger] replies[j]).id == o;
                assert(replies[j].id == o);
                assert(is_named(replies, k as int, o));
            }
            if reply.id == o {
                assert(replies[k - 1].id == o);
                assert(is_named(replies, k as int, o));
            }
            if node_ops::counts(replies, open_indices.len(), k - 1) {
                let q = reply.id as int;
                assert(q != o);
                if q < o {
                    assert(open_indices[q] != open_indices[o]);
                } else {
                    assert(open_indices[o] != open_indices[q]);
                }
            }
        }
    }
}

/// The entities that a fact can lead between are shown with their names and types, in order.
pub proof fn law_entities_are_shown_in_order(nodes: Seq<EntityNodeView>, i: int)
    requires
        0 <= i < nodes.len(),
    ensures
        edge_ops::entity_entries(nodes) matches JsonView::Array(items) && items.len() == nodes.len()
            && json::json_member(items[i], "name"@) == Some(JsonView::Str(nodes[i].name)) && (
        json::json_member(items[i], "entity_types"@) matches Some(JsonView::Array(labels))
            && labels.len() == nodes[i].labels.len() && forall|j: int|
            0 <= j < labels.len() ==> #[trigger] labels[j] == JsonView::Str(nodes[i].labels[j])),
{
    reveal_strlit("name");
    reveal_strlit("entity_types");
    assert("name"@.len() == 4);
    assert("entity_types"@.len() == 12);
    if let JsonView::Object(members) = edge_ops::entity_entry(nodes[i]) {
        law_first_member_is_found(members, "entity_types"@, 0);
        law_first_member_is_found(members, "name"@, 1);
    }
}

} // verus!
