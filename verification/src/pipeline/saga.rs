//! Sagas: threads of episodes with a running summary.
use crate::ids;
use crate::llm::{self, LlmRequest, ModelSize};
use crate::pipeline::community_ops::MAX_SUMMARY_CHARS;
use crate::prompts::summarize_sagas::{self, summarize_saga, SummarizeSagaContext};
use crate::sorting::{self, stable_order};
use crate::text::{self, chars_of, owned, string_of};
use crate::time::Timestamp;
use crate::types;
use crate::types::episode::{EpisodicNode, EpisodicNodeView};
use crate::types::saga::{
    HasEpisodeEdge, HasEpisodeEdgeView, NextEpisodeEdge, NextEpisodeEdgeView, SagaNode,
    SagaNodeView,
};
use vstd::prelude::*;

verus! {

/// How many episodes a summary takes up at once.
pub const MAX_EPISODES: usize = 200;

/// The edges that thread an episode into a saga.
#[derive(Debug)]
pub struct SagaLink {
    /// From the episode before it.
    pub next: Option<NextEpisodeEdge>,
    /// From the saga.
    pub has: HasEpisodeEdge,
}

/// Holds where the link threads an episode into a saga after a previous one.
pub open spec fn links(
    link: SagaLink,
    saga_uuid: Seq<char>,
    previous: Option<Seq<char>>,
    episode_uuid: Seq<char>,
    group_id: Seq<char>,
    now: Timestamp,
) -> bool {
    &&& ids::is_random_uuid(link.has@.uuid)
    &&& link.has@ == HasEpisodeEdgeView {
        uuid: link.has@.uuid,
        source_node_uuid: saga_uuid,
        target_node_uuid: episode_uuid,
        group_id,
        created_at: now,
    }
    &&& match previous {
        Some(before) => {
            &&& link.next is Some
            &&& ids::is_random_uuid(link.next->0@.uuid)
            &&& link.next->0@ == NextEpisodeEdgeView {
                uuid: link.next->0@.uuid,
                source_node_uuid: before,
                target_node_uuid: episode_uuid,
                group_id,
                created_at: now,
            }
        },
        None => link.next is None,
    }
}

/// The edges that thread an episode into a saga.
pub fn link_episode(
    saga_uuid: &str,
    previous: &Option<String>,
    episode_uuid: &str,
    group_id: &str,
    now: Timestamp,
) -> (r: SagaLink)
    ensures
        links(r, saga_uuid@, text::opt_view(*previous), episode_uuid@, group_id@, now),
{
    let next = match previous {
        Some(before) => Some(
            NextEpisodeEdge::new(before.clone(), owned(episode_uuid), owned(group_id), now),
        ),
        None => None,
    };
    let has = HasEpisodeEdge::new(owned(saga_uuid), owned(episode_uuid), owned(group_id), now);
    SagaLink { next, has }
}

/// Holds where `saga` is a fresh one without episodes or summary.
pub open spec fn is_fresh_saga(
    saga: SagaNodeView,
    name: Seq<char>,
    group_id: Seq<char>,
    created_at: Timestamp,
) -> bool {
    &&& ids::is_random_uuid(saga.uuid)
    &&& saga == SagaNodeView {
        uuid: saga.uuid,
        name,
        group_id,
        labels: seq!["Saga"@],
        created_at,
        summary: Seq::empty(),
        first_episode_uuid: None,
        last_episode_uuid: None,
        last_summarized_at: None,
        last_summarized_episode_valid_at: None,
    }
}

/// The saga of a name in a group: the stored one, or a fresh one where there is none. `found` is
/// what is stored under the name.
pub fn saga_or_fresh(
    found: Option<SagaNode>,
    name: &str,
    group_id: &str,
    created_at: Timestamp,
) -> (r: SagaNode)
    ensures
        match found {
            Some(s) => r == s,
            None => is_fresh_saga(r@, name@, group_id@, created_at),
        },
{
    match found {
        Some(saga) => saga,
        None => SagaNode::new(owned(name), owned(group_id), created_at),
    }
}

/// A saga that was extended by episodes from `first` to `last`: its first episode stays where it
/// has one.
pub open spec fn extended(saga: SagaNodeView, first: Seq<char>, last: Seq<char>) -> SagaNodeView {
    SagaNodeView {
        first_episode_uuid: match saga.first_episode_uuid {
            Some(f) => Some(f),
            None => Some(first),
        },
        last_episode_uuid: Some(last),
        ..saga
    }
}

/// Records in a saga the episodes that it was extended by.
pub fn extend_saga(saga: SagaNode, first: &str, last: &str) -> (r: SagaNode)
    ensures
        r@ == extended(saga@, first@, last@),
{
    let mut saga = saga;
    if saga.first_episode_uuid.is_none() {
        saga.first_episode_uuid = Some(owned(first));
    }
    saga.last_episode_uuid = Some(owned(last));
    saga
}

/// A number by which instants are ordered.
pub open spec fn time_key(t: Timestamp) -> int {
    t.seconds() * 2_000_000_000 + t.nanoseconds()
}

/// The times of episodes as numbers.
pub open spec fn time_keys(episodes: Seq<EpisodicNodeView>) -> Seq<int> {
    episodes.map_values(|e: EpisodicNodeView| time_key(e.valid_at))
}

/// The numbers order instants as they come.
pub proof fn law_time_keys_order_instants(a: Timestamp, b: Timestamp)
    requires
        a.nanoseconds() < 2_000_000_000,
        b.nanoseconds() < 2_000_000_000,
    ensures
        a.before(b) <==> time_key(a) < time_key(b),
{
}

/// Puts episodes in the order of their times; those of the same time keep their order.
pub fn sort_by_time(episodes: &Vec<EpisodicNode>) -> (r: Vec<EpisodicNode>)
    ensures
        types::episode_views(r@) == sorting::sorted_by(
            types::episode_views(episodes@),
            time_keys(types::episode_views(episodes@)),
        ),
{
    let ghost all = types::episode_views(episodes@);
    let mut keys: Vec<i128> = Vec::new();
    let mut i: usize = 0;
    while i < episodes.len()
        invariant
            i <= episodes@.len(),
            keys@.len() == i,
            forall|j: int| 0 <= j < i ==> (#[trigger] keys@[j]) == time_key(episodes@[j]@.valid_at),
        decreases episodes.len() - i,
    {
        let t = episodes[i].valid_at;
        keys.push(t.secs() as i128 * 2_000_000_000 + t.nanos() as i128);
        i += 1;
    }
    assert(sorting::key_values(keys@) =~= time_keys(all));
    let order = stable_order(&keys);
    let mut out: Vec<EpisodicNode> = Vec::new();
    let mut k: usize = 0;
    while k < order.len()
        invariant
            k <= order@.len(),
            order@.len() == episodes@.len(),
            forall|j: int| 0 <= j < order@.len() ==> (#[trigger] order@[j]) < episodes@.len(),
            out@.len() == k,
            forall|j: int| 0 <= j < k ==> (#[trigger] out@[j])@ == episodes@[order@[j] as int]@,
        decreases order.len() - k,
    {
        out.push(episodes[order[k]].clone());
        k += 1;
    }
    proof {
        let chosen = choose|o: Seq<usize>| sorting::is_stable_order(time_keys(all), o);
        sorting::lemma_stable_order_unique(time_keys(all), order@, chosen);
        assert(types::episode_views(out@) =~= sorting::sorted_by(all, time_keys(all)));
    }
    out
}

/// The episode before the one at `i` in a saga: the one before it in the list, and before the
/// first the one that the saga ended with.
pub open spec fn previous_at(
    episodes: Seq<EpisodicNodeView>,
    previous: Option<Seq<char>>,
    i: int,
) -> Option<Seq<char>> {
    if i == 0 {
        previous
    } else {
        Some(episodes[i - 1].uuid)
    }
}

/// Threads episodes into a saga, each after the one before it.
pub fn link_episodes(
    saga_uuid: &str,
    previous: Option<String>,
    episodes: &Vec<EpisodicNode>,
    group_id: &str,
    now: Timestamp,
) -> (r: Vec<SagaLink>)
    ensures
        r@.len() == episodes@.len(),
        forall|i: int|
            0 <= i < episodes@.len() ==> links(
                #[trigger] r@[i],
                saga_uuid@,
                previous_at(types::episode_views(episodes@), text::opt_view(previous), i),
                episodes@[i]@.uuid,
                group_id@,
                now,
            ),
{
    let ghost all = types::episode_views(episodes@);
    let ghost start = text::opt_view(previous);
    let mut before = previous;
    let mut out: Vec<SagaLink> = Vec::new();
    let mut i: usize = 0;
    while i < episodes.len()
        invariant
            i <= episodes@.len(),
            all == types::episode_views(episodes@),
            text::opt_view(before) == previous_at(all, start, i as int),
            out@.len() == i,
            forall|j: int|
                0 <= j < i ==> links(
                    #[trigger] out@[j],
                    saga_uuid@,
                    previous_at(all, start, j),
                    episodes@[j]@.uuid,
                    group_id@,
                    now,
                ),
        decreases episodes.len() - i,
    {
        out.push(link_episode(saga_uuid, &before, episodes[i].uuid.as_str(), group_id, now));
        before = Some(episodes[i].uuid.clone());
        assert(all[i as int] == episodes@[i as int]@);
        i += 1;
    }
    out
}

/// The earliest of the instants; none where there is none.
pub open spec fn earliest(episodes: Seq<EpisodicNodeView>) -> Option<Timestamp>
    decreases episodes.len(),
{
    if episodes.len() == 0 {
        None
    } else {
        match earliest(episodes.drop_last()) {
            Some(t) => if episodes.last().valid_at.before(t) {
                Some(episodes.last().valid_at)
            } else {
                Some(t)
            },
            None => Some(episodes.last().valid_at),
        }
    }
}

/// When a new saga of episodes began: at the time of the earliest, or now where there is none.
pub fn saga_start(episodes: &Vec<EpisodicNode>, now: Timestamp) -> (r: Timestamp)
    ensures
        r == (match earliest(types::episode_views(episodes@)) {
            Some(t) => t,
            None => now,
        }),
{
    let ghost all = types::episode_views(episodes@);
    let mut best: Option<Timestamp> = None;
    let mut i: usize = 0;
    while i < episodes.len()
        invariant
            i <= episodes@.len(),
            all == types::episode_views(episodes@),
            best == earliest(all.take(i as int)),
        decreases episodes.len() - i,
    {
        proof {
            assert(all.take(i as int + 1).drop_last() =~= all.take(i as int));
            assert(all.take(i as int + 1).last() == episodes@[i as int]@);
        }
        let t = episodes[i].valid_at;
        let better = match best {
            Some(b) => t.is_before(&b),
            None => true,
        };
        if better {
            best = Some(t);
        }
        i += 1;
    }
    assert(all.take(all.len() as int) =~= all);
    match best {
        Some(t) => t,
        None => now,
    }
}

/// An episode of a saga: its text and its time.
pub type SagaEpisode = (String, Timestamp);

/// The texts of episodes.
pub open spec fn contents(episodes: Seq<SagaEpisode>) -> Seq<Seq<char>> {
    episodes.map_values(|e: SagaEpisode| e.0@)
}

/// Asks the model for the summary of a saga from the episodes since the last one. Without
/// episodes nothing is asked.
pub fn saga_summary_request(saga: &SagaNode, episodes: &Vec<SagaEpisode>) -> (r: Option<LlmRequest>)
    ensures
        r is None <==> episodes@.len() == 0,
        r is Some ==> llm::asks(
            r->0,
            summarize_sagas::saga_prompt(saga@.name, saga@.summary, contents(episodes@)),
            ModelSize::Medium,
            "summarize_sagas.summarize_saga"@,
        ),
{
    if episodes.len() == 0 {
        return None;
    }
    let mut texts: Vec<String> = Vec::new();
    let mut i: usize = 0;
    while i < episodes.len()
        invariant
            i <= episodes@.len(),
            texts@.len() == i,
            forall|j: int| 0 <= j < i ==> (#[trigger] texts@[j])@ == episodes@[j].0@,
        decreases episodes.len() - i,
    {
        texts.push(episodes[i].0.clone());
        i += 1;
    }
    assert(text::views(texts@) =~= contents(episodes@));
    let ctx = SummarizeSagaContext {
        saga_name: saga.name.as_str(),
        existing_summary: saga.summary.as_str(),
        episodes: &texts,
    };
    Some(LlmRequest::new(summarize_saga(&ctx)).named("summarize_sagas.summarize_saga"))
}

/// The longest beginning of a text whose UTF-8 form has at most `limit` bytes.
pub open spec fn byte_prefix(s: Seq<char>, limit: nat) -> Seq<char>
    decreases s.len(),
{
    if s.len() == 0 || vstd::utf8::encode_utf8(s).len() <= limit {
        s
    } else {
        byte_prefix(s.drop_last(), limit)
    }
}

/// How many bytes the UTF-8 form of a character has.
fn char_width(c: char) -> (r: usize)
    ensures
        r == vstd::utf8::encode_scalar(c as u32).len(),
        1 <= r <= 4,
{
    let code: u32 = c as u32;
    if code <= 0x7f {
        1
    } else if code <= 0x7ff {
        2
    } else if code <= 0xffff {
        3
    } else {
        4
    }
}

/// One more character adds its own bytes.
proof fn lemma_encode_push(s: Seq<char>, c: char)
    ensures
        vstd::utf8::encode_utf8(s.push(c)).len() == vstd::utf8::encode_utf8(s).len()
            + vstd::utf8::encode_scalar(c as u32).len(),
    decreases s.len(),
{
    reveal_with_fuel(vstd::utf8::encode_utf8, 2);
    if s.len() == 0 {
        assert(s.push(c).drop_first() =~= Seq::<char>::empty());
        assert(s.push(c)[0] == c);
    } else {
        lemma_encode_push(s.drop_first(), c);
        assert(s.push(c).drop_first() =~= s.drop_first().push(c));
        assert(s.push(c)[0] == s[0]);
    }
}

/// A longer text does not have fewer bytes.
proof fn lemma_byte_prefix_is_take(s: Seq<char>, limit: nat, k: int)
    requires
        0 <= k <= s.len(),
        vstd::utf8::encode_utf8(s.take(k)).len() <= limit,
        k < s.len() ==> vstd::utf8::encode_utf8(s.take(k + 1)).len() > limit,
    ensures
        byte_prefix(s, limit) == s.take(k),
    decreases s.len(),
{
    if k == s.len() {
        assert(s.take(k) =~= s);
    } else {
        lemma_more_bytes(s, k + 1);
        let init = s.drop_last();
        assert(init.take(k) =~= s.take(k));
        if k < init.len() {
            assert(init.take(k + 1) =~= s.take(k + 1));
        }
        lemma_byte_prefix_is_take(init, limit, k);
    }
}

proof fn lemma_more_bytes(s: Seq<char>, k: int)
    requires
        0 <= k <= s.len(),
    ensures
        vstd::utf8::encode_utf8(s.take(k)).len() <= vstd::utf8::encode_utf8(s).len(),
    decreases s.len() - k,
{
    if k < s.len() {
        lemma_encode_push(s.take(k), s[k]);
        assert(s.take(k).push(s[k]) =~= s.take(k + 1));
        lemma_more_bytes(s, k + 1);
    } else {
        assert(s.take(k) =~= s);
    }
}

/// The longest beginning of a text whose UTF-8 form has at most `limit` bytes.
pub fn truncate_bytes(text: &str, limit: usize) -> (r: String)
    ensures
        r@ == byte_prefix(text@, limit as nat),
{
    let chars = chars_of(text);
    let ghost s = text@;
    let mut left: usize = limit;
    let mut k: usize = 0;
    proof {
        assert(s.take(0) =~= Seq::<char>::empty());
    }
    while k < chars.len()
        invariant
            k <= chars@.len(),
            chars@ == s,
            s == text@,
            left + vstd::utf8::encode_utf8(s.take(k as int)).len() == limit,
        decreases chars.len() - k,
    {
        let width = char_width(chars[k]);
        proof {
            lemma_encode_push(s.take(k as int), s[k as int]);
            assert(s.take(k as int).push(s[k as int]) =~= s.take(k as int + 1));
        }
        if width > left {
            proof {
                lemma_byte_prefix_is_take(s, limit as nat, k as int);
                assert(s.take(k as int) =~= s.subrange(0, k as int));
            }
            return string_of(&chars, 0, k);
        }
        left -= width;
        k += 1;
    }
    proof {
        lemma_byte_prefix_is_take(s, limit as nat, k as int);
        assert(s.take(k as int) =~= s);
    }
    owned(text)
}

/// The latest of the times of episodes.
pub open spec fn latest(episodes: Seq<SagaEpisode>) -> Option<Timestamp>
    decreases episodes.len(),
{
    if episodes.len() == 0 {
        None
    } else {
        match latest(episodes.drop_last()) {
            Some(t) => if t.before(episodes.last().1) {
                Some(episodes.last().1)
            } else {
                Some(t)
            },
            None => Some(episodes.last().1),
        }
    }
}

/// A saga with a new summary: shortened, written now, and covering the episodes up to the latest
/// time so far.
pub open spec fn summarized(
    saga: SagaNodeView,
    summary: Seq<char>,
    episodes: Seq<SagaEpisode>,
    now: Timestamp,
) -> SagaNodeView {
    SagaNodeView {
        summary: byte_prefix(summary, MAX_SUMMARY_CHARS as nat),
        last_summarized_at: Some(now),
        last_summarized_episode_valid_at: match latest(episodes) {
            Some(t) => match saga.last_summarized_episode_valid_at {
                Some(before) => if before.before(t) {
                    Some(t)
                } else {
                    Some(before)
                },
                None => Some(t),
            },
            None => saga.last_summarized_episode_valid_at,
        },
        ..saga
    }
}

/// Writes a new summary into a saga.
pub fn apply_saga_summary(
    saga: SagaNode,
    summary: &str,
    episodes: &Vec<SagaEpisode>,
    now: Timestamp,
) -> (r: SagaNode)
    ensures
        r@ == summarized(saga@, summary@, episodes@, now),
{
    let mut saga = saga;
    saga.summary = truncate_bytes(summary, MAX_SUMMARY_CHARS);
    saga.last_summarized_at = Some(now);
    let mut best: Option<Timestamp> = None;
    let mut i: usize = 0;
    while i < episodes.len()
        invariant
            i <= episodes@.len(),
            best == latest(episodes@.take(i as int)),
        decreases episodes.len() - i,
    {
        assert(episodes@.take(i as int + 1).drop_last() =~= episodes@.take(i as int));
        let t = episodes[i].1;
        let better = match best {
            Some(b) => b.is_before(&t),
            None => true,
        };
        if better {
            best = Some(t);
        }
        i += 1;
    }
    assert(episodes@.take(episodes@.len() as int) =~= episodes@);
    match best {
        Some(t) => {
            let forward = match saga.last_summarized_episode_valid_at {
                Some(before) => before.is_before(&t),
                None => true,
            };
            if forward {
                saga.last_summarized_episode_valid_at = Some(t);
            }
        },
        None => {},
    }
    saga
}

/// The time up to which a summary covers a saga never goes back, and a summary is never longer
/// than it may be. Nothing but the summary and its two times changes.
pub proof fn law_summary_watermark_goes_forward(
    saga: SagaNodeView,
    summary: Seq<char>,
    episodes: Seq<SagaEpisode>,
    now: Timestamp,
)
    ensures
        ({
            let after = summarized(saga, summary, episodes, now);
            &&& saga.last_summarized_episode_valid_at matches Some(before)
                ==> after.last_summarized_episode_valid_at matches Some(t) && before.at_or_before(t)
            &&& vstd::utf8::encode_utf8(after.summary).len() <= MAX_SUMMARY_CHARS
            &&& after.summary.is_prefix_of(summary)
            &&& after == SagaNodeView {
                summary: after.summary,
                last_summarized_at: Some(now),
                last_summarized_episode_valid_at: after.last_summarized_episode_valid_at,
                ..saga
            }
        }),
{
    lemma_byte_prefix_fits(summary, MAX_SUMMARY_CHARS as nat);
}

proof fn lemma_byte_prefix_fits(s: Seq<char>, limit: nat)
    ensures
        vstd::utf8::encode_utf8(byte_prefix(s, limit)).len() <= limit,
        byte_prefix(s, limit).is_prefix_of(s),
    decreases s.len(),
{
    if s.len() == 0 || vstd::utf8::encode_utf8(s).len() <= limit {
        assert(s.subrange(0, s.len() as int) =~= s);
    } else {
        lemma_byte_prefix_fits(s.drop_last(), limit);
        let p = byte_prefix(s.drop_last(), limit);
        assert forall|i: int| 0 <= i < p.len() implies p[i] == s[i] by {
            assert(p[i] == s.drop_last()[i]);
        }
        assert(s.subrange(0, p.len() as int) =~= p);
    }
}

/// Extending a saga keeps its first episode once it has one, and makes the newest its last.
pub proof fn law_saga_keeps_its_first_episode(
    saga: SagaNodeView,
    a: Seq<char>,
    b: Seq<char>,
    c: Seq<char>,
    d: Seq<char>,
)
    ensures
        ({
            let once = extended(saga, a, b);
            let twice = extended(once, c, d);
            &&& once.first_episode_uuid is Some
            &&& twice.first_episode_uuid == once.first_episode_uuid
            &&& twice.last_episode_uuid == Some(d)
            &&& saga.first_episode_uuid is Some ==> once.first_episode_uuid
                == saga.first_episode_uuid
        }),
{
}

/// The edges of an episode in a saga: one leads from the saga to the episode, and where there is an
/// episode before it, another leads from that one to it; both are of the group and made now.
pub proof fn law_links_lead_forward(
    link: SagaLink,
    saga_uuid: Seq<char>,
    previous: Option<Seq<char>>,
    episode_uuid: Seq<char>,
    group_id: Seq<char>,
    now: Timestamp,
)
    requires
        links(link, saga_uuid, previous, episode_uuid, group_id, now),
    ensures
        link.has@.source_node_uuid == saga_uuid,
        link.has@.target_node_uuid == episode_uuid,
        link.has@.group_id == group_id,
        link.has@.created_at == now,
        link.next is Some <==> previous is Some,
        previous is Some ==> {
            &&& link.next->0@.source_node_uuid == previous->0
            &&& link.next->0@.target_node_uuid == episode_uuid
            &&& link.next->0@.group_id == group_id
            &&& link.next->0@.created_at == now
        },
{
}

/// Episodes are threaded one after the other: the first follows what the saga ended with, and every
/// other the one right before it.
pub proof fn law_episodes_follow_each_other(
    episodes: Seq<EpisodicNodeView>,
    previous: Option<Seq<char>>,
    i: int,
)
    ensures
        previous_at(episodes, previous, 0) == previous,
        0 < i < episodes.len() ==> previous_at(episodes, previous, i) == Some(episodes[i - 1].uuid),
{
}

/// A saga without a first episode begins with the first of the new ones, and one that has a first
/// episode keeps it. It ends with the last of the new ones. Nothing else changes.
pub proof fn law_saga_is_extended(saga: SagaNodeView, first: Seq<char>, last: Seq<char>)
    ensures
        saga.first_episode_uuid is None ==> extended(saga, first, last) == (SagaNodeView {
            first_episode_uuid: Some(first),
            last_episode_uuid: Some(last),
            ..saga
        }),
        saga.first_episode_uuid is Some ==> extended(saga, first, last) == (SagaNodeView {
            last_episode_uuid: Some(last),
            ..saga
        }),
{
}

/// Episodes in the order of their times: every episode is there once, none comes before one of an
/// earlier time, and those of the same time stand in their order.
pub proof fn law_episodes_are_sorted_by_time(episodes: Seq<EpisodicNodeView>) -> (order: Seq<int>)
    requires
        episodes.len() <= usize::MAX,
        forall|i: int|
            0 <= i < episodes.len() ==> (#[trigger] episodes[i]).valid_at.nanoseconds()
                < 2_000_000_000,
    ensures
        ({
            let out = sorting::sorted_by(episodes, time_keys(episodes));
            &&& out.len() == episodes.len() == order.len()
            &&& forall|k: int| 0 <= k < episodes.len() ==> order.contains(k)
            &&& forall|i: int|
                #![trigger order[i]]
                #![trigger out[i]]
                0 <= i < out.len() ==> 0 <= order[i] < episodes.len() && out[i]
                    == episodes[order[i]]
            &&& forall|i: int, j: int|
                0 <= i < j < out.len() ==> {
                    let a = (#[trigger] out[i]).valid_at;
                    let b = (#[trigger] out[j]).valid_at;
                    ||| a.seconds() < b.seconds()
                    ||| a.seconds() == b.seconds() && a.nanoseconds() < b.nanoseconds()
                    ||| a == b && order[i] < order[j]
                }
        }),
{
    let keys = time_keys(episodes);
    let order = sorting::law_sorted_items_are_ordered(episodes, keys);
    let out = sorting::sorted_by(episodes, keys);
    assert forall|i: int, j: int| 0 <= i < j < out.len() implies {
        let a = (#[trigger] out[i]).valid_at;
        let b = (#[trigger] out[j]).valid_at;
        ||| a.seconds() < b.seconds()
        ||| a.seconds() == b.seconds() && a.nanoseconds() < b.nanoseconds()
        ||| a == b && order[i] < order[j]
    } by {
        let a = out[i].valid_at;
        let b = out[j].valid_at;
        assert(keys[order[i]] == time_key(a));
        assert(keys[order[j]] == time_key(b));
        assert(episodes[order[i]].valid_at.nanoseconds() < 2_000_000_000);
        assert(episodes[order[j]].valid_at.nanoseconds() < 2_000_000_000);
        crate::time::law_instants_follow_the_clock(a, b);
    }
    order
}

/// The earliest of the times of episodes is the time of one of them, and no episode is earlier.
/// There is none exactly where there are no episodes.
pub proof fn law_saga_begins_with_the_earliest(episodes: Seq<EpisodicNodeView>)
    ensures
        episodes.len() == 0 <==> earliest(episodes) is None,
        earliest(episodes) is Some ==> {
            &&& exists|i: int|
                0 <= i < episodes.len() && (#[trigger] episodes[i]).valid_at == earliest(episodes)->0
            &&& forall|i: int|
                0 <= i < episodes.len() ==> earliest(episodes)->0.at_or_before(
                    (#[trigger] episodes[i]).valid_at,
                )
        },
    decreases episodes.len(),
{
    if episodes.len() > 0 {
        let init = episodes.drop_last();
        let last = episodes.last();
        law_saga_begins_with_the_earliest(init);
        assert(episodes[episodes.len() - 1] == last);
        let t = earliest(episodes)->0;
        if init.len() > 0 {
            let before = earliest(init)->0;
            let k = choose|k: int| 0 <= k < init.len() && (#[trigger] init[k]).valid_at == before;
            assert(episodes[k] == init[k]);
        }
        assert forall|i: int| 0 <= i < episodes.len() implies t.at_or_before(
            (#[trigger] episodes[i]).valid_at,
        ) by {
            if i < init.len() {
                assert(init[i] == episodes[i]);
            }
        }
    }
}

proof fn lemma_latest(episodes: Seq<SagaEpisode>)
    ensures
        episodes.len() == 0 <==> latest(episodes) is None,
        latest(episodes) is Some ==> {
            &&& exists|i: int| 0 <= i < episodes.len() && (#[trigger] episodes[i]).1 == latest(
                episodes,
            )->0
            &&& forall|i: int|
                0 <= i < episodes.len() ==> (#[trigger] episodes[i]).1.at_or_before(
                    latest(episodes)->0,
                )
        },
    decreases episodes.len(),
{
    if episodes.len() > 0 {
        let init = episodes.drop_last();
        let last = episodes.last();
        lemma_latest(init);
        assert(episodes[episodes.len() - 1] == last);
        let t = latest(episodes)->0;
        if init.len() > 0 {
            let before = latest(init)->0;
            let k = choose|k: int| 0 <= k < init.len() && (#[trigger] init[k]).1 == before;
            assert(episodes[k] == init[k]);
        }
        assert forall|i: int| 0 <= i < episodes.len() implies (#[trigger] episodes[i]).1.at_or_before(
            t,
        ) by {
            if i < init.len() {
                assert(init[i] == episodes[i]);
            }
        }
    }
}

/// A summary covers the saga up to the latest of the times that it covered before and the times of
/// the episodes that it takes up: no such time is later, and it is one of these times. Without
/// episodes the time stays.
pub proof fn law_summary_covers_what_it_took_up(
    saga: SagaNodeView,
    summary: Seq<char>,
    episodes: Seq<SagaEpisode>,
    now: Timestamp,
)
    ensures
        ({
            let before = saga.last_summarized_episode_valid_at;
            let after = summarized(saga, summary, episodes, now).last_summarized_episode_valid_at;
            &&& episodes.len() == 0 ==> after == before
            &&& episodes.len() > 0 ==> {
                &&& after is Some
                &&& forall|i: int|
                    0 <= i < episodes.len() ==> (#[trigger] episodes[i]).1.at_or_before(after->0)
                &&& before is Some ==> before->0.at_or_before(after->0)
                &&& after == before || exists|i: int|
                    0 <= i < episodes.len() && (#[trigger] episodes[i]).1 == after->0
            }
        }),
{
    lemma_latest(episodes);
}

/// A summary is shortened no more than it has to be: with one more character its UTF-8 form would be
/// too long, and one that fits stays whole.
pub proof fn law_summary_is_cut_as_late_as_possible(s: Seq<char>, limit: nat)
    ensures
        vstd::utf8::encode_utf8(byte_prefix(s, limit)).len() <= limit,
        byte_prefix(s, limit) == s.take(byte_prefix(s, limit).len() as int),
        byte_prefix(s, limit).len() <= s.len(),
        byte_prefix(s, limit).len() < s.len() ==> vstd::utf8::encode_utf8(
            s.take(byte_prefix(s, limit).len() as int + 1),
        ).len() > limit,
        vstd::utf8::encode_utf8(s).len() <= limit ==> byte_prefix(s, limit) == s,
    decreases s.len(),
{
    lemma_byte_prefix_fits(s, limit);
    if s.len() == 0 || vstd::utf8::encode_utf8(s).len() <= limit {
        assert(s.take(s.len() as int) =~= s);
    } else {
        let init = s.drop_last();
        law_summary_is_cut_as_late_as_possible(init, limit);
        let p = byte_prefix(init, limit);
        assert(init.take(p.len() as int) =~= s.take(p.len() as int));
        if p.len() < init.len() {
            assert(init.take(p.len() as int + 1) =~= s.take(p.len() as int + 1));
        } else {
            assert(s.take(p.len() as int + 1) =~= s);
        }
    }
}

/// A fresh saga has its name, its group and its beginning, and neither episodes nor a summary.
pub proof fn law_fresh_saga_is_empty(
    saga: SagaNodeView,
    name: Seq<char>,
    group_id: Seq<char>,
    created_at: Timestamp,
)
    requires
        is_fresh_saga(saga, name, group_id, created_at),
    ensures
        saga.name == name,
        saga.group_id == group_id,
        saga.created_at == created_at,
        saga.summary.len() == 0,
        saga.first_episode_uuid is None,
        saga.last_episode_uuid is None,
        saga.last_summarized_at is None,
        saga.last_summarized_episode_valid_at is None,
{
}

} // verus!
