//! Communities: clusters of entities with a common summary.
use crate::errors::ChronicleError;
use crate::ids;
use crate::llm::{self, LlmRequest, ModelSize};
use crate::pipeline::uuid_map;
use crate::selection;
use crate::prompts::summarize_nodes::{
    self, summarize_pair, summary_description, SummarizePairContext, SummaryDescriptionContext,
};
use crate::text::{self, chars_of, is_white, owned, str_eq, string_of};
use crate::time::Timestamp;
use crate::types;
use crate::types::community::{CommunityEdge, CommunityEdgeView, CommunityNode, CommunityNodeView};
use crate::types::node::{EntityNode, EntityNodeView};
pub use crate::pipeline::label_propagation::{label_propagation, MAX_LABEL_PROPAGATION_ITERATIONS};
use vstd::prelude::*;

verus! {

/// How long a summary may be, in characters.
pub const MAX_SUMMARY_CHARS: usize = 1000;

/// How many communities may be built at once.
pub const MAX_COMMUNITY_BUILD_CONCURRENCY: usize = 10;

/// Holds where a sentence ends with the character at `i`: a full stop, exclamation or question
/// mark before white space or the end.
pub open spec fn ends_sentence(s: Seq<char>, i: int) -> bool {
    &&& s[i] == '.' || s[i] == '!' || s[i] == '?'
    &&& i + 1 == s.len() || text::is_white_space(s[i + 1])
}

/// The last of the first `n` characters with which a sentence ends.
pub open spec fn last_sentence_end(s: Seq<char>, n: int) -> Option<int>
    decreases n,
{
    if n <= 0 {
        None
    } else if ends_sentence(s, n - 1) {
        Some(n - 1)
    } else {
        last_sentence_end(s, n - 1)
    }
}

/// A text of at most `max` characters: itself where it is short enough, else as many of its
/// sentences as fit, and where no sentence ends in time, as many characters, without white space
/// at the end.
pub open spec fn shortened(s: Seq<char>, max: nat) -> Seq<char> {
    if s.len() <= max {
        s
    } else {
        let t = s.take(max as int);
        match last_sentence_end(t, max as int) {
            Some(i) => text::trim_end(t.take(i + 1)),
            None => text::trim_end(t),
        }
    }
}

/// The first `n` characters without white space at the end.
fn trim_end_at(chars: &Vec<char>, n: usize) -> (r: String)
    requires
        n <= chars@.len(),
    ensures
        r@ == text::trim_end(chars@.take(n as int)),
{
    let ghost s = chars@.take(n as int);
    let mut hi: usize = n;
    while hi > 0 && is_white(chars[hi - 1])
        invariant
            hi <= n <= chars@.len(),
            s == chars@.take(n as int),
            forall|j: int| hi <= j < n ==> text::is_white_space(#[trigger] s[j]),
        decreases hi,
    {
        assert(s[hi - 1] == chars@[hi - 1]);
        hi -= 1;
    }
    proof {
        if hi > 0 {
            assert(s[hi - 1] == chars@[hi - 1]);
        }
        text::lemma_trim_end_is_take(s, hi as int);
        assert(s.take(hi as int) =~= chars@.subrange(0, hi as int));
    }
    string_of(chars, 0, hi)
}

/// Shortens a text to at most `max_chars` characters, at the end of a sentence where it can.
pub fn truncate_at_sentence(text: &str, max_chars: usize) -> (r: String)
    ensures
        r@ == shortened(text@, max_chars as nat),
{
    let chars = chars_of(text);
    if chars.len() <= max_chars {
        return owned(text);
    }
    let ghost t = text@.take(max_chars as int);
    let mut n: usize = max_chars;
    while n > 0
        invariant
            n <= max_chars < chars@.len(),
            chars@ == text@,
            t == text@.take(max_chars as int),
            last_sentence_end(t, max_chars as int) == last_sentence_end(t, n as int),
            shortened(text@, max_chars as nat) == (match last_sentence_end(t, max_chars as int) {
                Some(i) => text::trim_end(t.take(i + 1)),
                None => text::trim_end(t),
            }),
        decreases n,
    {
        let c = chars[n - 1];
        assert(t[n - 1] == c);
        if c == '.' || c == '!' || c == '?' {
            let ends = if n == max_chars {
                true
            } else {
                assert(t[n as int] == chars@[n as int]);
                is_white(chars[n])
            };
            if ends {
                assert(t.take(n as int) =~= chars@.take(n as int));
                return trim_end_at(&chars, n);
            }
        }
        n -= 1;
    }
    trim_end_at(&chars, max_chars)
}

/// A shortened text is not too long and begins as the text does.
pub proof fn law_shortened_text_fits(s: Seq<char>, max: nat)
    ensures
        shortened(s, max).len() <= max,
        shortened(s, max).is_prefix_of(s),
{
    if s.len() > max {
        let t = s.take(max as int);
        lemma_last_sentence_end(t, max as int);
        let u = match last_sentence_end(t, max as int) {
            Some(i) => t.take(i + 1),
            None => t,
        };
        assert(u.is_prefix_of(s));
        lemma_trim_end_is_prefix(u);
        assert(text::trim_end(u).is_prefix_of(s)) by {
            assert forall|i: int| 0 <= i < text::trim_end(u).len() implies text::trim_end(u)[i] == s[i] by {
                assert(text::trim_end(u)[i] == u[i]);
            }
            assert(s.subrange(0, text::trim_end(u).len() as int) =~= text::trim_end(u));
        }
    }
}

proof fn lemma_trim_end_is_prefix(s: Seq<char>)
    ensures
        text::trim_end(s).len() <= s.len(),
        text::trim_end(s).is_prefix_of(s),
    decreases s.len(),
{
    if s.len() > 0 && text::is_white_space(s.last()) {
        lemma_trim_end_is_prefix(s.drop_last());
        let t = text::trim_end(s.drop_last());
        assert forall|i: int| 0 <= i < t.len() implies t[i] == s[i] by {
            assert(t[i] == s.drop_last()[i]);
        }
    }
}

proof fn lemma_last_sentence_end(s: Seq<char>, n: int)
    ensures
        match last_sentence_end(s, n) {
            Some(i) => 0 <= i < n && ends_sentence(s, i) && forall|j: int|
                i < j < n ==> !ends_sentence(s, j),
            None => forall|j: int| 0 <= j < n ==> !ends_sentence(s, j),
        },
    decreases n,
{
    if n > 0 && !ends_sentence(s, n - 1) {
        lemma_last_sentence_end(s, n - 1);
    }
}

/// Asks the model for one summary in the place of two.
pub fn summarize_pair_request(left: &str, right: &str) -> (r: LlmRequest)
    ensures
        llm::asks(
            r,
            summarize_nodes::pair_prompt(left@, right@),
            ModelSize::Medium,
            "summarize_nodes.summarize_pair"@,
        ),
{
    let ctx = SummarizePairContext { left_summary: left, right_summary: right };
    LlmRequest::new(summarize_pair(&ctx)).named("summarize_nodes.summarize_pair")
}

/// Asks the model for one sentence about a summary.
pub fn summary_description_request(summary: &str) -> (r: LlmRequest)
    ensures
        llm::asks(
            r,
            summarize_nodes::description_prompt(summary@),
            ModelSize::Medium,
            "summarize_nodes.summary_description"@,
        ),
{
    let ctx = SummaryDescriptionContext { summary };
    LlmRequest::new(summary_description(&ctx)).named("summarize_nodes.summary_description")
}

/// Holds where `edge` is the fresh membership of an entity in a community.
pub open spec fn is_membership(
    edge: CommunityEdgeView,
    community: CommunityNodeView,
    node: EntityNodeView,
    created_at: Timestamp,
) -> bool {
    &&& ids::is_random_uuid(edge.uuid)
    &&& edge == CommunityEdgeView {
        uuid: edge.uuid,
        source_node_uuid: community.uuid,
        target_node_uuid: node.uuid,
        group_id: community.group_id,
        created_at,
    }
}

/// A membership in a community for each of its entities, in order.
pub fn build_community_edges(
    entity_nodes: &[EntityNode],
    community_node: &CommunityNode,
    created_at: Timestamp,
) -> (r: Vec<CommunityEdge>)
    ensures
        r@.len() == entity_nodes@.len(),
        forall|i: int|
            0 <= i < entity_nodes@.len() ==> is_membership(
                (#[trigger] r@[i])@,
                community_node@,
                entity_nodes@[i]@,
                created_at,
            ),
{
    let mut out: Vec<CommunityEdge> = Vec::new();
    let mut i: usize = 0;
    while i < entity_nodes.len()
        invariant
            i <= entity_nodes@.len(),
            out@.len() == i,
            forall|j: int|
                0 <= j < i ==> is_membership(
                    (#[trigger] out@[j])@,
                    community_node@,
                    entity_nodes@[j]@,
                    created_at,
                ),
        decreases entity_nodes.len() - i,
    {
        out.push(
            CommunityEdge::new(
                community_node.uuid.clone(),
                entity_nodes[i].uuid.clone(),
                community_node.group_id.clone(),
                created_at,
            ),
        );
        i += 1;
    }
    out
}

/// The summaries of the entities that a community is built from. A community has at least one.
pub fn cluster_summaries(cluster: &[EntityNode]) -> (r: Result<Vec<String>, ChronicleError>)
    ensures
        match r {
            Ok(summaries) => cluster@.len() > 0 && text::views(summaries@) == types::node_views(
                cluster@,
            ).map_values(|n: EntityNodeView| n.summary),
            Err(e) => cluster@.len() == 0 && (e matches ChronicleError::InvalidInput(message)
                && message@ == "build_community requires a non-empty cluster"@),
        },
{
    if cluster.len() == 0 {
        return Err(
            ChronicleError::InvalidInput(owned("build_community requires a non-empty cluster")),
        );
    }
    let mut out: Vec<String> = Vec::new();
    let mut i: usize = 0;
    while i < cluster.len()
        invariant
            i <= cluster@.len(),
            out@.len() == i,
            forall|j: int| 0 <= j < i ==> (#[trigger] out@[j])@ == cluster@[j]@.summary,
        decreases cluster.len() - i,
    {
        out.push(cluster[i].summary.clone());
        i += 1;
    }
    assert(text::views(out@) =~= types::node_views(cluster@).map_values(|n: EntityNodeView| n.summary));
    Ok(out)
}

/// What is to be done with the summaries of a community.
#[derive(Debug)]
pub enum CommunityStep {
    /// Each pair is to become one summary; an odd one out is carried over.
    Merge { pairs: Vec<(String, String)>, carried: Option<String> },
    /// The summary is final, and is to be described in one sentence.
    Describe { summary: String },
}

/// [`CommunityStep`] as plain values.
pub enum CommunityStepView {
    Merge { pairs: Seq<(Seq<char>, Seq<char>)>, carried: Option<Seq<char>> },
    Describe { summary: Seq<char> },
}

impl View for CommunityStep {
    type V = CommunityStepView;

    open spec fn view(&self) -> CommunityStepView {
        match self {
            CommunityStep::Merge { pairs, carried } => CommunityStepView::Merge {
                pairs: uuid_map::aliases(pairs@),
                carried: text::opt_view(*carried),
            },
            CommunityStep::Describe { summary } => CommunityStepView::Describe {
                summary: summary@,
            },
        }
    }
}

/// What is to be done with summaries: those of the first half are paired with those of the
/// second half, the last one of an odd number is carried over, and a single one is final.
pub open spec fn community_step(summaries: Seq<Seq<char>>) -> CommunityStepView {
    if summaries.len() == 1 {
        CommunityStepView::Describe { summary: shortened(summaries[0], MAX_SUMMARY_CHARS as nat) }
    } else {
        let half = summaries.len() / 2;
        CommunityStepView::Merge {
            pairs: Seq::new(half, |i: int| (summaries[i], summaries[half + i])),
            carried: if summaries.len() % 2 == 1 {
                Some(summaries.last())
            } else {
                None
            },
        }
    }
}

/// Says what is to be done with the summaries of a community.
pub fn next_community_step(summaries: &Vec<String>) -> (r: CommunityStep)
    requires
        summaries@.len() > 0,
    ensures
        r@ == community_step(text::views(summaries@)),
{
    let ghost all = text::views(summaries@);
    assert(all.len() == summaries@.len());
    let n = summaries.len();
    if n == 1 {
        assert(all[0] == summaries@[0]@);
        return CommunityStep::Describe {
            summary: truncate_at_sentence(summaries[0].as_str(), MAX_SUMMARY_CHARS),
        };
    }
    let half: usize = n / 2;
    let mut pairs: Vec<(String, String)> = Vec::new();
    let mut i: usize = 0;
    while i < half
        invariant
            i <= half,
            half * 2 <= n,
            n == summaries@.len(),
            pairs@.len() == i,
            forall|j: int|
                0 <= j < i ==> (#[trigger] pairs@[j]).0@ == summaries@[j]@ && pairs@[j].1@
                    == summaries@[half + j]@,
        decreases half - i,
    {
        pairs.push((summaries[i].clone(), summaries[half + i].clone()));
        i += 1;
    }
    let carried = if n % 2 == 1 {
        Some(summaries[n - 1].clone())
    } else {
        None
    };
    proof {
        let goal = Seq::new(all.len() / 2, |i: int| (all[i], all[all.len() / 2 + i]));
        assert(uuid_map::aliases(pairs@) =~= goal);
    }
    CommunityStep::Merge { pairs, carried }
}

/// The summaries after a round: the answers, shortened, and the one that was carried over.
pub open spec fn merged_summaries(answers: Seq<Seq<char>>, carried: Option<Seq<char>>) -> Seq<
    Seq<char>,
> {
    let short = answers.map_values(|a: Seq<char>| shortened(a, MAX_SUMMARY_CHARS as nat));
    match carried {
        Some(s) => short.push(s),
        None => short,
    }
}

/// The summaries after a round.
pub fn take_merged(answers: &Vec<String>, carried: Option<String>) -> (r: Vec<String>)
    ensures
        text::views(r@) == merged_summaries(text::views(answers@), text::opt_view(carried)),
{
    let mut out: Vec<String> = Vec::new();
    let mut i: usize = 0;
    while i < answers.len()
        invariant
            i <= answers@.len(),
            out@.len() == i,
            forall|j: int|
                0 <= j < i ==> (#[trigger] out@[j])@ == shortened(
                    answers@[j]@,
                    MAX_SUMMARY_CHARS as nat,
                ),
        decreases answers.len() - i,
    {
        out.push(truncate_at_sentence(answers[i].as_str(), MAX_SUMMARY_CHARS));
        i += 1;
    }
    let ghost short = text::views(answers@).map_values(
        |a: Seq<char>| shortened(a, MAX_SUMMARY_CHARS as nat),
    );
    assert(text::views(out@) =~= short);
    match carried {
        Some(s) => {
            let ghost before = out@;
            let ghost last = s@;
            out.push(s);
            assert(text::views(out@) =~= text::views(before).push(last));
        },
        None => {},
    }
    out
}

/// Every round with an answer for each pair leaves fewer summaries and at least one, so the
/// building of a community ends.
pub proof fn law_merging_ends(summaries: Seq<Seq<char>>, answers: Seq<Seq<char>>)
    requires
        summaries.len() > 1,
        community_step(summaries) matches CommunityStepView::Merge { pairs, carried }
            && answers.len() == pairs.len(),
    ensures
        community_step(summaries) matches CommunityStepView::Merge { pairs, carried } && {
            &&& 1 <= merged_summaries(answers, carried).len() < summaries.len()
            &&& merged_summaries(answers, carried).len() == (summaries.len() + 1) / 2
        },
{
}

/// Every summary of a round takes part in it: it is in one of the pairs or is carried over.
pub proof fn law_merging_uses_every_summary(summaries: Seq<Seq<char>>, i: int)
    requires
        summaries.len() > 1,
        0 <= i < summaries.len(),
    ensures
        community_step(summaries) matches CommunityStepView::Merge { pairs, carried } && ({
            ||| exists|j: int|
                0 <= j < pairs.len() && ((#[trigger] pairs[j]).0 == summaries[i] || pairs[j].1
                    == summaries[i])
            ||| carried == Some(summaries[i])
        }),
{
    let half = summaries.len() / 2;
    let step = community_step(summaries);
    let pairs = step->pairs;
    if i < half {
        assert(pairs[i].0 == summaries[i]);
    } else if i < 2 * half {
        assert(pairs[i - half].1 == summaries[i]);
    }
}

/// Holds where `community` is the fresh community of a cluster.
pub open spec fn is_community_of(
    community: CommunityNodeView,
    group_id: Seq<char>,
    name: Seq<char>,
    summary: Seq<char>,
    now: Timestamp,
) -> bool {
    &&& ids::is_random_uuid(community.uuid)
    &&& community == CommunityNodeView {
        uuid: community.uuid,
        name,
        group_id,
        labels: seq!["Community"@],
        created_at: now,
        summary,
        name_embedding: None,
    }
}

/// The community of a cluster, once its summary is final and described, with a membership for
/// each of its entities.
pub fn make_community(cluster: &[EntityNode], summary: String, name: String, now: Timestamp) -> (r: (
    CommunityNode,
    Vec<CommunityEdge>,
))
    requires
        cluster@.len() > 0,
    ensures
        is_community_of(r.0@, cluster@[0]@.group_id, name@, summary@, now),
        r.1@.len() == cluster@.len(),
        forall|i: int|
            0 <= i < cluster@.len() ==> is_membership(
                (#[trigger] r.1@[i])@,
                r.0@,
                cluster@[i]@,
                now,
            ),
{
    let mut community = CommunityNode::new(name, cluster[0].group_id.clone(), now);
    community.summary = summary;
    let edges = build_community_edges(cluster, &community, now);
    (community, edges)
}

/// How often a community occurs among the first `n`.
pub open spec fn votes(communities: Seq<CommunityNodeView>, uuid: Seq<char>, n: int) -> nat
    decreases n,
{
    if n <= 0 {
        0
    } else {
        votes(communities, uuid, n - 1) + (if communities[n - 1].uuid == uuid {
            1nat
        } else {
            0nat
        })
    }
}

/// How often the community at `i` occurs.
pub open spec fn votes_for(communities: Seq<CommunityNodeView>, i: int) -> nat {
    votes(communities, communities[i].uuid, communities.len() as int)
}

/// Holds where the community at `i` is the first of those that occur most often.
pub open spec fn is_first_mode(communities: Seq<CommunityNodeView>, i: int) -> bool {
    &&& 0 <= i < communities.len()
    &&& forall|j: int|
        0 <= j < communities.len() ==> #[trigger] votes_for(communities, j) <= votes_for(
            communities,
            i,
        )
    &&& forall|j: int| 0 <= j < i ==> #[trigger] votes_for(communities, j) < votes_for(
        communities,
        i,
    )
}

fn count_votes(communities: &Vec<CommunityNode>, uuid: &str) -> (r: usize)
    ensures
        r == votes(types::community_views(communities@), uuid@, communities@.len() as int),
        r <= communities@.len(),
{
    let ghost all = types::community_views(communities@);
    let mut count: usize = 0;
    let mut i: usize = 0;
    while i < communities.len()
        invariant
            i <= communities@.len(),
            all == types::community_views(communities@),
            count == votes(all, uuid@, i as int),
            count <= i,
        decreases communities.len() - i,
    {
        assert(all[i as int] == communities@[i as int]@);
        if str_eq(communities[i].uuid.as_str(), uuid) {
            count += 1;
        }
        i += 1;
    }
    count
}

/// The community that an entity belongs to, and whether it joins it: the one it is a member of;
/// or else the one that most of its neighbours are members of, the first of several.
pub fn determine_entity_community(
    member_of: Option<CommunityNode>,
    neighbours: &Vec<CommunityNode>,
) -> (r: (Option<CommunityNode>, bool))
    ensures
        match member_of {
            Some(c) => r.0 matches Some(found) && found@ == c@ && !r.1,
            None => if neighbours@.len() == 0 {
                r.0 is None && !r.1
            } else {
                r.0 matches Some(found) && r.1 && exists|i: int|
                    #[trigger] is_first_mode(types::community_views(neighbours@), i) && found@
                        == neighbours@[i]@
            },
        },
{
    match member_of {
        Some(c) => {
            return (Some(c), false);
        },
        None => {},
    }
    if neighbours.len() == 0 {
        return (None, false);
    }
    let ghost all = types::community_views(neighbours@);
    let mut best: usize = 0;
    let mut most: usize = count_votes(neighbours, neighbours[0].uuid.as_str());
    assert(all[0] == neighbours@[0]@);
    let mut i: usize = 1;
    while i < neighbours.len()
        invariant
            1 <= i <= neighbours@.len(),
            best < i,
            all == types::community_views(neighbours@),
            most == votes_for(all, best as int),
            forall|j: int| 0 <= j < i ==> #[trigger] votes_for(all, j) <= most,
            forall|j: int| 0 <= j < best ==> #[trigger] votes_for(all, j) < most,
        decreases neighbours.len() - i,
    {
        assert(all[i as int] == neighbours@[i as int]@);
        let count = count_votes(neighbours, neighbours[i].uuid.as_str());
        if count > most {
            best = i;
            most = count;
        }
        i += 1;
    }
    assert(is_first_mode(all, best as int));
    (Some(neighbours[best].clone()), true)
}

/// There is one first community among those that occur most often.
pub proof fn law_first_mode_is_unique(communities: Seq<CommunityNodeView>, i: int, j: int)
    requires
        is_first_mode(communities, i),
        is_first_mode(communities, j),
    ensures
        i == j,
{
    assert(votes_for(communities, i) <= votes_for(communities, j));
    assert(votes_for(communities, j) <= votes_for(communities, i));
}

/// A community with a new summary and description, and the membership of the entity where it
/// joins.
pub fn apply_community_update(
    community: CommunityNode,
    entity: &EntityNode,
    summary: String,
    name: String,
    joins: bool,
    now: Timestamp,
) -> (r: (CommunityNode, Vec<CommunityEdge>))
    ensures
        r.0@ == (CommunityNodeView { summary: summary@, name: name@, ..community@ }),
        joins ==> r.1@.len() == 1 && is_membership(r.1@[0]@, r.0@, entity@, now),
        !joins ==> r.1@.len() == 0,
{
    let mut community = community;
    community.summary = summary;
    community.name = name;
    let mut members: Vec<EntityNode> = Vec::new();
    if joins {
        members.push(entity.clone());
    }
    let edges = build_community_edges(members.as_slice(), &community, now);
    (community, edges)
}

/// Holds where a full stop, exclamation or question mark at a position is followed by white space or
/// by nothing.
pub open spec fn stops_at(s: Seq<char>, i: int) -> bool {
    &&& 0 <= i < s.len()
    &&& s[i] == '.' || s[i] == '!' || s[i] == '?'
    &&& i + 1 < s.len() ==> text::is_white_space(s[i + 1])
}

/// A text that is short enough stays as it is. Of a longer one the first characters are left, up to
/// the last of them that ends a sentence among them; where none does, they are left without white
/// space at the end.
pub proof fn law_text_is_cut_at_a_sentence(s: Seq<char>, max: nat, i: int)
    ensures
        s.len() <= max ==> shortened(s, max) == s,
        s.len() > max && stops_at(s.take(max as int), i) && (forall|j: int|
            i < j < max ==> !#[trigger] stops_at(s.take(max as int), j)) ==> shortened(s, max)
            == s.take(i + 1),
        s.len() > max && (forall|j: int|
            0 <= j < max ==> !#[trigger] stops_at(s.take(max as int), j)) ==> {
            let out = shortened(s, max);
            &&& out.len() <= max
            &&& out == s.take(out.len() as int)
            &&& out.len() > 0 ==> !text::is_white_space(out.last())
            &&& forall|k: int| out.len() <= k < max ==> text::is_white_space(#[trigger] s[k])
        },
{
    if s.len() > max {
        let t = s.take(max as int);
        lemma_last_sentence_end(t, max as int);
        if stops_at(t, i) && forall|j: int| i < j < max ==> !#[trigger] stops_at(t, j) {
            assert(ends_sentence(t, i));
            match last_sentence_end(t, max as int) {
                Some(k) => {
                    assert(stops_at(t, k));
                    if k < i {
                        assert(!ends_sentence(t, i));
                    }
                    let u = t.take(i + 1);
                    assert(u.last() == t[i]);
                    assert(!text::is_white_space(u.last()));
                    assert(u =~= s.take(i + 1));
                },
                None => {},
            }
        }
        if forall|j: int| 0 <= j < max ==> !#[trigger] stops_at(t, j) {
            match last_sentence_end(t, max as int) {
                Some(k) => {
                    assert(stops_at(t, k));
                },
                None => {},
            }
            lemma_trim_end_is_longest(t);
            let out = text::trim_end(t);
            assert(out =~= s.take(out.len() as int));
            assert forall|k: int| out.len() <= k < max implies text::is_white_space(
                #[trigger] s[k],
            ) by {
                assert(t[k] == s[k]);
            }
        }
    }
}

proof fn lemma_trim_end_is_longest(t: Seq<char>)
    ensures
        text::trim_end(t).len() <= t.len(),
        text::trim_end(t) == t.take(text::trim_end(t).len() as int),
        text::trim_end(t).len() > 0 ==> !text::is_white_space(text::trim_end(t).last()),
        forall|k: int|
            text::trim_end(t).len() <= k < t.len() ==> text::is_white_space(#[trigger] t[k]),
    decreases t.len(),
{
    if t.len() > 0 && text::is_white_space(t.last()) {
        let init = t.drop_last();
        lemma_trim_end_is_longest(init);
        let out = text::trim_end(init);
        assert(init.take(out.len() as int) =~= t.take(out.len() as int));
        assert forall|k: int| out.len() <= k < t.len() implies text::is_white_space(
            #[trigger] t[k],
        ) by {
            if k < init.len() {
                assert(init[k] == t[k]);
            }
        }
    } else {
        assert(t.take(t.len() as int) =~= t);
    }
}

/// A round pairs the summary at a position with the one half as many further on, and carries the last
/// of an odd number over; a single summary is done.
pub proof fn law_summaries_are_paired(summaries: Seq<Seq<char>>)
    requires
        summaries.len() > 0,
    ensures
        summaries.len() == 1 ==> community_step(summaries) == (CommunityStepView::Describe {
            summary: shortened(summaries[0], 1000),
        }),
        summaries.len() > 1 ==> (community_step(summaries) matches CommunityStepView::Merge {
            pairs,
            carried,
        } && {
            &&& pairs.len() == summaries.len() / 2
            &&& forall|i: int|
                0 <= i < pairs.len() ==> (#[trigger] pairs[i]).0 == summaries[i] && pairs[i].1
                    == summaries[i + summaries.len() / 2]
            &&& summaries.len() % 2 == 0 ==> carried is None
            &&& summaries.len() % 2 == 1 ==> carried == Some(summaries[summaries.len() - 1])
        }),
{
}

/// A round leaves every answer, shortened and in order, and then the summary that was carried over,
/// as it is.
pub proof fn law_answers_become_summaries(answers: Seq<Seq<char>>, carried: Option<Seq<char>>)
    ensures
        ({
            let out = merged_summaries(answers, carried);
            &&& forall|i: int|
                0 <= i < answers.len() ==> #[trigger] out[i] == shortened(answers[i], 1000)
            &&& carried is None ==> out.len() == answers.len()
            &&& carried is Some ==> out.len() == answers.len() + 1 && out[answers.len() as int]
                == carried->0
        }),
{
}

/// A membership leads from the community to the entity, in the community's group.
pub proof fn law_membership_leads_to_the_member(
    edge: CommunityEdgeView,
    community: CommunityNodeView,
    node: EntityNodeView,
    created_at: Timestamp,
)
    requires
        is_membership(edge, community, node, created_at),
    ensures
        edge.source_node_uuid == community.uuid,
        edge.target_node_uuid == node.uuid,
        edge.group_id == community.group_id,
        edge.created_at == created_at,
{
}

/// A community has the name, the group, the summary and the time that it was made with.
pub proof fn law_community_has_its_summary(
    community: CommunityNodeView,
    group_id: Seq<char>,
    name: Seq<char>,
    summary: Seq<char>,
    now: Timestamp,
)
    requires
        is_community_of(community, group_id, name, summary, now),
    ensures
        community.name == name,
        community.group_id == group_id,
        community.summary == summary,
        community.created_at == now,
        community.name_embedding is None,
{
}

/// The votes for a community are the positions at which it stands, each counted once.
pub proof fn law_votes_count_positions(
    communities: Seq<CommunityNodeView>,
    uuid: Seq<char>,
    n: int,
) -> (at: Seq<int>)
    requires
        0 <= n <= communities.len(),
    ensures
        at.len() == votes(communities, uuid, n),
        selection::increasing(at),
        forall|k: int| 0 <= k < at.len() ==> 0 <= #[trigger] at[k] < n,
        forall|i: int|
            0 <= i < n ==> ((#[trigger] communities[i]).uuid == uuid <==> at.contains(i)),
    decreases n,
{
    if n == 0 {
        Seq::empty()
    } else {
        let before = law_votes_count_positions(communities, uuid, n - 1);
        if communities[n - 1].uuid == uuid {
            let at = before.push(n - 1);
            assert forall|i: int, j: int| 0 <= i < j < at.len() implies #[trigger] at[i]
                < #[trigger] at[j] by {
                assert(at[i] == before[i]);
                if j < before.len() {
                    assert(at[j] == before[j]);
                }
            }
            assert forall|i: int| 0 <= i < n implies ((#[trigger] communities[i]).uuid == uuid
                <==> at.contains(i)) by {
                if i == n - 1 {
                    assert(at[before.len() as int] == i);
                } else {
                    if before.contains(i) {
                        let k = choose|k: int| 0 <= k < before.len() && before[k] == i;
                        assert(at[k] == i);
                    }
                    if at.contains(i) {
                        let k = choose|k: int| 0 <= k < at.len() && at[k] == i;
                        assert(before[k] == i);
                    }
                }
            }
            at
        } else {
            assert forall|i: int| 0 <= i < n implies ((#[trigger] communities[i]).uuid == uuid
                <==> before.contains(i)) by {
                if before.contains(i) {
                    let k = choose|k: int| 0 <= k < before.len() && before[k] == i;
                    assert(before[k] < n - 1);
                }
            }
            before
        }
    }
}

/// The community that an entity joins has at least as many votes as any, and more than any that
/// stands before it.
pub proof fn law_joined_community_has_most_votes(
    communities: Seq<CommunityNodeView>,
    i: int,
    j: int,
)
    requires
        is_first_mode(communities, i),
        0 <= j < communities.len(),
    ensures
        0 <= i < communities.len(),
        votes(communities, communities[j].uuid, communities.len() as int) <= votes(
            communities,
            communities[i].uuid,
            communities.len() as int,
        ),
        j < i ==> votes(communities, communities[j].uuid, communities.len() as int) < votes(
            communities,
            communities[i].uuid,
            communities.len() as int,
        ),
{
    assert(votes_for(communities, j) <= votes_for(communities, i));
}

} // verus!
