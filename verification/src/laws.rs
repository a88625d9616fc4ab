//! What holds of guidance as a whole.
use crate::artists::{artists_by_mbid, artists_by_track, artists_of, listed_by_mbid};
use crate::binary64::{
    in_unit, law_reciprocal_in_unit, law_unit_clamped, law_unit_factor_does_not_raise, nearest, units, Binary64,
    INFINITE,
};
use crate::evidence::{Channel, SemanticEdge};
use crate::names::{in_order, law_order_exists, lesser_at, precedes};
use crate::protocol::{
    Anchor, Candidate, GuidanceRequest, GuidanceResponse, GuidanceScope, ResponseView, ScoreContext, SignalView,
};
use crate::provider::{
    best, candidate_signals, channel_signals, consulted, failure_view, guidance, named_tracks, prepared_with,
    score_response, signal_of, signals_for, unprepared, Provider, ProviderView, PROVIDER_ID,
};
use crate::relations::{edge_key, lookup, relations, Relation, RelationKey};
use crate::service::{answered, follows, unsupported_version, Action, Edition};
use crate::text::{ascii_lowercase, normalized};
use vstd::arithmetic::power2::{lemma_pow2_pos, pow2};
use vstd::prelude::*;
use vstd::utf8::{encode_utf8, is_ascii_chars_encode_utf8};

verus! {

/// A relation whose numbers are numbers, none of them below zero, its confidence
/// at most one.
pub open spec fn sound_relation(relation: Relation) -> bool {
    &&& !relation.score.is_nan()
    &&& relation.score.place() >= 0
    &&& in_unit(relation.confidence)
    &&& !relation.weight().is_nan()
    &&& relation.weight().place() >= 0
}

/// All relations held are sound.
pub open spec fn sound(held: Map<RelationKey, Relation>) -> bool {
    forall|key: RelationKey| #[trigger] held.contains_key(key) ==> sound_relation(held[key])
}

/// Zero is no units.
proof fn lemma_units_zero()
    ensures
        units(0) == 0,
{
    assert(0 * pow2(0) == 0) by (nonlinear_arith);
}

/// A product above zero has factors above zero, where the first is not below it.
proof fn lemma_positive_product(a: Binary64, b: Binary64)
    requires
        a.place() >= 0,
        !a.product(b).is_nan(),
        a.product(b).place() > 0,
    ensures
        !a.is_nan(),
        !b.is_nan(),
        a.place() > 0,
        b.place() > 0,
{
    lemma_pow2_pos(1074);
    lemma_units_zero();
    let x: nat = a.magnitude();
    let y: nat = b.magnitude();
    assert(nearest(0, pow2(1074)) == 0);
    if x < INFINITE && y < INFINITE && (x == 0 || y == 0) {
        assert(units(x) * units(y) == 0) by (nonlinear_arith)
            requires
                units(x) == 0 || units(y) == 0,
        ;
    }
}

/// The strength of an edge is not below zero.
proof fn lemma_score_not_negative(edge: SemanticEdge)
    ensures
        !edge.spec_score().is_nan() ==> edge.spec_score().place() >= 0,
{
    if edge.raw_score is None && edge.raw_rank is Some {
        let rank: u32 = edge.raw_rank->0;
        if rank > 0 {
            law_reciprocal_in_unit(rank);
        }
    }
}

/// A relation that weighs nothing weighs zero.
pub proof fn lemma_weightless_weight(edge: SemanticEdge)
    ensures
        Relation::weightless(edge).weight() == Binary64::spec_zero(),
{
    lemma_pow2_pos(1074);
    lemma_units_zero();
    assert(units(0) * units(0) == 0) by (nonlinear_arith)
        requires
            units(0) == 0,
    ;
    assert(nearest(0, pow2(1074)) == 0);
}

/// A relation that weighs nothing is sound.
proof fn lemma_weightless_sound(edge: SemanticEdge)
    ensures
        sound_relation(Relation::weightless(edge)),
{
    lemma_weightless_weight(edge);
}

/// An edge that outweighs a sound relation states a sound relation.
proof fn lemma_stated_sound(current: Relation, edge: SemanticEdge)
    requires
        sound_relation(current),
        edge.offered().is_above(current.weight()),
    ensures
        sound_relation(Relation::stated(edge)),
{
    let score: Binary64 = edge.spec_score();
    let confidence: Binary64 = edge.identity_confidence.unit_clamped();
    assert(!score.is_nan() && !confidence.is_nan());
    lemma_score_not_negative(edge);
    lemma_positive_product(score, confidence);
    law_unit_clamped(edge.identity_confidence);
}

/// Whatever numbers the edges state, the relations held are sound: none of them
/// holds what is no number, none weighs less than nothing, and confidence is at
/// most one.
pub proof fn law_relations_sound(edges: Seq<SemanticEdge>)
    ensures
        sound(relations(edges)),
    decreases edges.len(),
{
    if edges.len() > 0 {
        let edge: SemanticEdge = edges.last();
        let held: Map<RelationKey, Relation> = relations(edges.drop_last());
        law_relations_sound(edges.drop_last());
        if let Some(key) = edge_key(edge) {
            lemma_weightless_sound(edge);
            let current: Relation = match lookup(held, key) {
                Some(relation) => relation,
                None => Relation::weightless(edge),
            };
            if edge.offered().is_above(current.weight()) {
                lemma_stated_sound(current, edge);
            }
        }
    }
}

/// The edges that are about one thing.
pub open spec fn about(edges: Seq<SemanticEdge>, key: RelationKey) -> Seq<SemanticEdge> {
    edges.filter(|edge: SemanticEdge| edge_key(edge) == Some(key))
}

/// What is held of one source, candidate and channel depends only on the edges
/// about these: channels, candidates and sources do not interfere.
pub proof fn law_relations_independent(edges: Seq<SemanticEdge>, key: RelationKey)
    ensures
        lookup(relations(edges), key) == lookup(relations(about(edges, key)), key),
    decreases edges.len(),
{
    let about_key = |edge: SemanticEdge| edge_key(edge) == Some(key);
    reveal(Seq::filter);
    if edges.len() > 0 {
        let rest: Seq<SemanticEdge> = edges.drop_last();
        let edge: SemanticEdge = edges.last();
        law_relations_independent(rest, key);
        if about_key(edge) {
            let kept: Seq<SemanticEdge> = rest.filter(about_key);
            assert(about(edges, key) == kept.push(edge));
            assert(kept.push(edge).drop_last() =~= kept);
        }
    }
}

/// Edges that are not resolved, and edges of other kinds, leave no trace in the
/// relations.
pub proof fn law_unresolved_ignored(edges: Seq<SemanticEdge>)
    ensures
        relations(edges) == relations(edges.filter(|edge: SemanticEdge| edge_key(edge) is Some)),
    decreases edges.len(),
{
    let resolved = |edge: SemanticEdge| edge_key(edge) is Some;
    reveal(Seq::filter);
    if edges.len() > 0 {
        let rest: Seq<SemanticEdge> = edges.drop_last();
        let edge: SemanticEdge = edges.last();
        law_unresolved_ignored(rest);
        if resolved(edge) {
            let kept: Seq<SemanticEdge> = rest.filter(resolved);
            assert(kept.push(edge).drop_last() =~= kept);
        }
    }
}

/// A relation is held exactly where some edge is about it.
pub proof fn law_relations_stated(edges: Seq<SemanticEdge>, key: RelationKey)
    ensures
        relations(edges).contains_key(key) <==> exists|i: int|
            0 <= i < edges.len() && edge_key(#[trigger] edges[i]) == Some(key),
    decreases edges.len(),
{
    if edges.len() > 0 {
        let rest: Seq<SemanticEdge> = edges.drop_last();
        law_relations_stated(rest, key);
        if relations(rest).contains_key(key) {
            let i: int = choose|i: int| 0 <= i < rest.len() && edge_key(#[trigger] rest[i]) == Some(key);
            assert(edges[i] == rest[i]);
        }
        if edge_key(edges.last()) == Some(key) {
            assert(edge_key(edges[edges.len() - 1]) == Some(key));
        }
        if exists|i: int| 0 <= i < edges.len() && edge_key(#[trigger] edges[i]) == Some(key) {
            let i: int = choose|i: int| 0 <= i < edges.len() && edge_key(#[trigger] edges[i]) == Some(key);
            if i < rest.len() {
                assert(edge_key(rest[i]) == Some(key));
            }
        }
    }
}

/// What is held is the strongest: no edge about a relation outweighs what is held
/// of it.
pub proof fn law_strongest_kept(edges: Seq<SemanticEdge>, key: RelationKey, i: int)
    requires
        0 <= i < edges.len(),
        edge_key(edges[i]) == Some(key),
    ensures
        relations(edges).contains_key(key),
        !edges[i].offered().is_above(relations(edges)[key].weight()),
    decreases edges.len(),
{
    let rest: Seq<SemanticEdge> = edges.drop_last();
    let edge: SemanticEdge = edges.last();
    assert(edge == edges[edges.len() - 1]);
    law_relations_sound(rest);
    law_relations_sound(edges);
    lemma_weightless_sound(edge);
    if edge_key(edge) == Some(key) {
        let current: Relation = match lookup(relations(rest), key) {
            Some(relation) => relation,
            None => Relation::weightless(edge),
        };
        if edge.offered().is_above(current.weight()) {
            lemma_stated_sound(current, edge);
        }
    }
    if i < rest.len() {
        assert(rest[i] == edges[i]);
        law_strongest_kept(rest, key, i);
    }
}

/// What is held of a relation comes from an edge about it.
proof fn lemma_held_origin(edges: Seq<SemanticEdge>, key: RelationKey) -> (i: int)
    requires
        relations(edges).contains_key(key),
    ensures
        0 <= i < edges.len(),
        edge_key(edges[i]) == Some(key),
        relations(edges)[key] == Relation::stated(edges[i]) || relations(edges)[key] == Relation::weightless(edges[i]),
    decreases edges.len(),
{
    let rest: Seq<SemanticEdge> = edges.drop_last();
    let edge: SemanticEdge = edges.last();
    let last: int = edges.len() - 1;
    let here: bool = edge_key(edge) == Some(key) && (!relations(rest).contains_key(key) || edge.offered().is_above(
        relations(rest)[key].weight(),
    ));
    if here {
        last
    } else {
        let i: int = lemma_held_origin(rest, key);
        assert(edges[i] == rest[i]);
        i
    }
}

/// The edge at place `i` weighs more than zero, no edge about the same weighs
/// more, and none before it weighs as much.
pub open spec fn leads(edges: Seq<SemanticEdge>, key: RelationKey, i: int) -> bool {
    &&& 0 <= i < edges.len()
    &&& edge_key(edges[i]) == Some(key)
    &&& edges[i].offered().is_above(Binary64::spec_zero())
    &&& forall|j: int|
        0 <= j < edges.len() && edge_key(#[trigger] edges[j]) == Some(key) ==> !edges[j].offered().is_above(
            edges[i].offered(),
        ) && (j < i ==> edges[j].offered().is_nan() || edges[i].offered().is_above(edges[j].offered()))
}

/// What is held is what the strongest edge states, the earliest of equals, where
/// it weighs more than zero.
pub proof fn law_earliest_strongest_held(edges: Seq<SemanticEdge>, key: RelationKey, i: int)
    requires
        leads(edges, key, i),
    ensures
        relations(edges).contains_key(key),
        relations(edges)[key] == Relation::stated(edges[i]),
    decreases edges.len(),
{
    let rest: Seq<SemanticEdge> = edges.drop_last();
    let edge: SemanticEdge = edges.last();
    let last: int = edges.len() - 1;
    assert(edge == edges[last]);
    if i == last {
        lemma_weightless_weight(edge);
        if relations(rest).contains_key(key) {
            let j: int = lemma_held_origin(rest, key);
            assert(edges[j] == rest[j]);
            lemma_weightless_weight(rest[j]);
            law_relations_sound(rest);
            assert(sound_relation(relations(rest)[key]));
        }
    } else {
        assert(edges[i] == rest[i]);
        assert(leads(rest, key, i)) by {
            assert forall|j: int| 0 <= j < rest.len() && edge_key(#[trigger] rest[j]) == Some(key) implies !rest[j].offered().is_above(
                rest[i].offered(),
            ) && (j < i ==> rest[j].offered().is_nan() || rest[i].offered().is_above(rest[j].offered())) by {
                assert(rest[j] == edges[j]);
            }
        }
        law_earliest_strongest_held(rest, key, i);
    }
}

/// Where an edge about a relation weighs more than zero, one of them is the
/// earliest of the strongest.
pub proof fn law_some_edge_leads(edges: Seq<SemanticEdge>, key: RelationKey, k: int)
    requires
        0 <= k < edges.len(),
        edge_key(edges[k]) == Some(key),
        edges[k].offered().is_above(Binary64::spec_zero()),
    ensures
        exists|i: int| leads(edges, key, i),
    decreases edges.len(),
{
    let rest: Seq<SemanticEdge> = edges.drop_last();
    let last: int = edges.len() - 1;
    assert(forall|j: int| 0 <= j < rest.len() ==> #[trigger] rest[j] == edges[j]);
    assert(forall|j: int| 0 <= j < rest.len() ==> #[trigger] edges[j] == rest[j]);
    if exists|j: int|
        0 <= j < rest.len() && edge_key(#[trigger] rest[j]) == Some(key) && rest[j].offered().is_above(
            Binary64::spec_zero(),
        ) {
        let j: int = choose|j: int|
            0 <= j < rest.len() && edge_key(#[trigger] rest[j]) == Some(key) && rest[j].offered().is_above(
                Binary64::spec_zero(),
            );
        law_some_edge_leads(rest, key, j);
        let i: int = choose|i: int| leads(rest, key, i);
        if edge_key(edges[last]) == Some(key) && edges[last].offered().is_above(edges[i].offered()) {
            assert(leads(edges, key, last));
        } else {
            assert(leads(edges, key, i));
        }
    } else {
        if k < last {
            assert(edge_key(rest[k]) == Some(key));
        }
        assert(k == last);
        assert(leads(edges, key, last));
    }
}

/// Where no edge about a relation weighs more than zero, what is held weighs
/// nothing, and has the provenance of the first of them.
pub proof fn law_weightless_held(edges: Seq<SemanticEdge>, key: RelationKey, i: int)
    requires
        0 <= i < edges.len(),
        edge_key(edges[i]) == Some(key),
        forall|j: int| 0 <= j < i ==> edge_key(#[trigger] edges[j]) != Some(key),
        forall|j: int|
            0 <= j < edges.len() && edge_key(#[trigger] edges[j]) == Some(key) ==> !edges[j].offered().is_above(
                Binary64::spec_zero(),
            ),
    ensures
        relations(edges).contains_key(key),
        relations(edges)[key] == Relation::weightless(edges[i]),
    decreases edges.len(),
{
    let rest: Seq<SemanticEdge> = edges.drop_last();
    let last: int = edges.len() - 1;
    lemma_weightless_weight(edges[i]);
    assert(edges.last() == edges[last]);
    assert(forall|j: int| 0 <= j < rest.len() ==> #[trigger] rest[j] == edges[j]);
    if i == last {
        law_relations_stated(rest, key);
    } else {
        law_weightless_held(rest, key, i);
    }
}

/// What the source at one place has to do with a candidate.
pub open spec fn relation_from(
    held: Map<RelationKey, Relation>,
    sources: Seq<Seq<char>>,
    i: int,
    candidate: Seq<char>,
    channel: Channel,
) -> Option<Relation> {
    lookup(held, RelationKey { source: sources[i], candidate, channel })
}

/// The relation at place `i` is outweighed by none, and outweighs all before it.
pub open spec fn wins(
    held: Map<RelationKey, Relation>,
    sources: Seq<Seq<char>>,
    candidate: Seq<char>,
    channel: Channel,
    winner: Relation,
    i: int,
) -> bool {
    &&& 0 <= i < sources.len()
    &&& relation_from(held, sources, i, candidate, channel) == Some(winner)
    &&& forall|j: int|
        0 <= j < sources.len() ==> (#[trigger] relation_from(held, sources, j, candidate, channel) matches Some(other)
            ==> !other.weight().is_above(winner.weight()) && (j < i ==> winner.weight().is_above(other.weight())))
}

/// The relation chosen for a candidate and a channel is the first of the
/// strongest; none is chosen only where there is none.
pub proof fn law_best_wins(
    held: Map<RelationKey, Relation>,
    sources: Seq<Seq<char>>,
    candidate: Seq<char>,
    channel: Channel,
)
    requires
        sound(held),
    ensures
        match best(held, sources, candidate, channel) {
            Some(winner) => exists|i: int| wins(held, sources, candidate, channel, winner, i),
            None => forall|i: int|
                0 <= i < sources.len() ==> #[trigger] relation_from(held, sources, i, candidate, channel) is None,
        },
    decreases sources.len(),
{
    if sources.len() > 0 {
        let rest: Seq<Seq<char>> = sources.drop_last();
        let last: int = sources.len() - 1;
        law_best_wins(held, rest, candidate, channel);
        assert forall|j: int| 0 <= j < rest.len() implies #[trigger] relation_from(held, sources, j, candidate, channel)
            == relation_from(held, rest, j, candidate, channel) by {}
        let next: Option<Relation> = relation_from(held, sources, last, candidate, channel);
        match best(held, rest, candidate, channel) {
            Some(first) => {
                let i: int = choose|i: int| wins(held, rest, candidate, channel, first, i);
                assert(relation_from(held, rest, i, candidate, channel) == Some(first));
                assert(sound_relation(first));
                if next is Some && next->0.weight().is_above(first.weight()) {
                    let winner: Relation = next->0;
                    assert forall|j: int|
                        0 <= j < sources.len() implies (#[trigger] relation_from(held, sources, j, candidate, channel)
                            matches Some(other) ==> !other.weight().is_above(winner.weight()) && (j < last
                        ==> winner.weight().is_above(other.weight()))) by {
                        if j < last {
                            assert(relation_from(held, sources, j, candidate, channel) == relation_from(
                                held,
                                rest,
                                j,
                                candidate,
                                channel,
                            ));
                        }
                    }
                    assert(wins(held, sources, candidate, channel, winner, last));
                } else {
                    assert(wins(held, sources, candidate, channel, first, i));
                }
            },
            None => {
                if next is Some {
                    assert(wins(held, sources, candidate, channel, next->0, last));
                }
            },
        }
    }
}

/// Each signal comes from the relation chosen for a candidate and a channel.
proof fn lemma_signal_origin(
    held: Map<RelationKey, Relation>,
    sources: Seq<Seq<char>>,
    candidates: Seq<Candidate>,
    scope: GuidanceScope,
    n: int,
) -> (origin: (int, Channel))
    requires
        0 <= n < signals_for(held, sources, candidates, scope).len(),
    ensures
        0 <= origin.0 < candidates.len(),
        ({
            let candidate: Seq<char> = candidates[origin.0].candidate_id@;
            best(held, sources, candidate, origin.1) matches Some(relation) && signals_for(
                held,
                sources,
                candidates,
                scope,
            )[n] == signal_of(candidate, origin.1, scope, relation)
        }),
    decreases candidates.len(),
{
    let rest: Seq<Candidate> = candidates.drop_last();
    let earlier: Seq<SignalView> = signals_for(held, sources, rest, scope);
    if n < earlier.len() {
        let origin: (int, Channel) = lemma_signal_origin(held, sources, rest, scope, n);
        assert(rest[origin.0] == candidates[origin.0]);
        origin
    } else {
        let last: int = candidates.len() - 1;
        let candidate: Seq<char> = candidates.last().candidate_id@;
        assert(candidates[last].candidate_id@ == candidate);
        if n == earlier.len() && best(held, sources, candidate, Channel::Artist) is Some {
            (last, Channel::Artist)
        } else {
            (last, Channel::Track)
        }
    }
}

/// Where a relation is chosen for a candidate, a signal says so.
proof fn lemma_signal_given(
    held: Map<RelationKey, Relation>,
    sources: Seq<Seq<char>>,
    candidates: Seq<Candidate>,
    scope: GuidanceScope,
    m: int,
    channel: Channel,
) -> (n: int)
    requires
        0 <= m < candidates.len(),
        best(held, sources, candidates[m].candidate_id@, channel) is Some,
    ensures
        0 <= n < signals_for(held, sources, candidates, scope).len(),
        signals_for(held, sources, candidates, scope)[n] == signal_of(
            candidates[m].candidate_id@,
            channel,
            scope,
            best(held, sources, candidates[m].candidate_id@, channel)->0,
        ),
    decreases candidates.len(),
{
    let rest: Seq<Candidate> = candidates.drop_last();
    let earlier: Seq<SignalView> = signals_for(held, sources, rest, scope);
    if m < rest.len() {
        assert(rest[m] == candidates[m]);
        lemma_signal_given(held, sources, rest, scope, m, channel)
    } else {
        let candidate: Seq<char> = candidates.last().candidate_id@;
        let artist: Seq<SignalView> = channel_signals(held, sources, candidate, Channel::Artist, scope);
        match channel {
            Channel::Artist => earlier.len() as int,
            Channel::Track => (earlier.len() + artist.len()) as int,
        }
    }
}

/// The sources that count in a context are finitely many.
pub proof fn lemma_consulted_finite(edges: Seq<SemanticEdge>, anchors: Seq<Anchor>, context: ScoreContext)
    ensures
        consulted(artists_by_track(edges, anchors), context).finite(),
{
    let ids: Seq<Seq<char>> = edges.map_values(|edge: SemanticEdge| edge.source.id@);
    let mut all: Set<Seq<char>> = ids.to_set().union(context.context_track_ids.deep_view().to_set());
    if let Some(id) = context.left_anchor_id {
        all = all.insert(id@);
    }
    if let Some(id) = context.right_anchor_id {
        all = all.insert(id@);
    }
    let artists: Map<Seq<char>, Set<Seq<char>>> = artists_by_track(edges, anchors);
    assert forall|id: Seq<char>| consulted(artists, context).contains(id) implies all.contains(id) by {
        if !named_tracks(context).contains(id) {
            let track: Seq<char> = choose|track: Seq<char>| #[trigger]
                named_tracks(context).contains(track) && artists.contains_key(track) && artists[track].contains(id);
            lemma_artists_listed(edges, anchors, track, id);
            let i: int = choose|i: int| 0 <= i < edges.len() && (#[trigger] edges[i]).source.id@ == id;
            assert(ids[i] == id);
        }
    }
    vstd::set_lib::lemma_len_subset(consulted(artists, context), all);
}

/// Artists behind a track are sources of edges.
proof fn lemma_artists_listed(edges: Seq<SemanticEdge>, anchors: Seq<Anchor>, track: Seq<char>, id: Seq<char>)
    requires
        artists_by_track(edges, anchors).contains_key(track),
        artists_by_track(edges, anchors)[track].contains(id),
    ensures
        exists|i: int| 0 <= i < edges.len() && (#[trigger] edges[i]).source.id@ == id,
    decreases anchors.len(),
{
    let anchor: Anchor = anchors.last();
    let artists: Set<Seq<char>> = artists_of(edges, anchor.track);
    if artists != Set::<Seq<char>>::empty() && anchor.anchor_id@ == track {
        if artists_by_mbid(edges, anchor.track) != Set::<Seq<char>>::empty() {
            let j: int = choose|j: int|
                0 <= j < anchor.track.artist_mbids@.len() && listed_by_mbid(
                    edges,
                    ascii_lowercase((#[trigger] anchor.track.artist_mbids@[j])@),
                ).contains(id);
            assert(listed_by_mbid(edges, ascii_lowercase(anchor.track.artist_mbids@[j]@)).contains(id));
        }
    } else {
        lemma_artists_listed(edges, anchors.drop_last(), track, id);
    }
}

/// Guidance is bounded: whatever numbers the evidence holds, each score and each
/// confidence is a number from zero to one.
pub proof fn law_guidance_bounded(
    digest: Seq<char>,
    edges: Seq<SemanticEdge>,
    anchors: Seq<Anchor>,
    context: ScoreContext,
    candidates: Seq<Candidate>,
    n: int,
)
    requires
        0 <= n < guidance(prepared_with(digest, edges, anchors), context, candidates).len(),
    ensures
        in_unit(guidance(prepared_with(digest, edges, anchors), context, candidates)[n].score),
        in_unit(guidance(prepared_with(digest, edges, anchors), context, candidates)[n].confidence),
{
    let held: Map<RelationKey, Relation> = relations(edges);
    let sources: Seq<Seq<char>> = in_order(consulted(artists_by_track(edges, anchors), context));
    law_relations_sound(edges);
    let origin: (int, Channel) = lemma_signal_origin(held, sources, candidates, context.scope, n);
    let candidate: Seq<char> = candidates[origin.0].candidate_id@;
    law_best_wins(held, sources, candidate, origin.1);
    let relation: Relation = best(held, sources, candidate, origin.1)->0;
    assert(sound_relation(relation));
    law_unit_clamped(relation.weight());
    law_unit_clamped(relation.confidence);
}

/// Each edge that goes by its rank has a rank above zero.
pub open spec fn ranks_from_one(edges: Seq<SemanticEdge>) -> bool {
    forall|i: int|
        0 <= i < edges.len() ==> (#[trigger] edges[i]).raw_score is Some || edges[i].raw_rank != Some(0u32)
}

/// Where ranks are above zero, no strength held is above one.
proof fn lemma_scores_in_unit(edges: Seq<SemanticEdge>, key: RelationKey)
    requires
        ranks_from_one(edges),
        relations(edges).contains_key(key),
    ensures
        in_unit(relations(edges)[key].score),
{
    law_relations_sound(edges);
    assert(sound_relation(relations(edges)[key]));
    let i: int = lemma_held_origin(edges, key);
    let edge: SemanticEdge = edges[i];
    match (edge.raw_score, edge.raw_rank) {
        (Some(score), _) => {
            if !score.is_nan() {
                law_unit_clamped(score);
            }
        },
        (None, Some(rank)) => {
            law_reciprocal_in_unit(rank);
        },
        (None, None) => {},
    }
}

/// No signal is stronger than the confidence in it, where ranks are above zero.
pub proof fn law_score_within_confidence(
    digest: Seq<char>,
    edges: Seq<SemanticEdge>,
    anchors: Seq<Anchor>,
    context: ScoreContext,
    candidates: Seq<Candidate>,
    n: int,
)
    requires
        ranks_from_one(edges),
        0 <= n < guidance(prepared_with(digest, edges, anchors), context, candidates).len(),
    ensures
        !guidance(prepared_with(digest, edges, anchors), context, candidates)[n].score.is_above(
            guidance(prepared_with(digest, edges, anchors), context, candidates)[n].confidence,
        ),
{
    let held: Map<RelationKey, Relation> = relations(edges);
    let sources: Seq<Seq<char>> = in_order(consulted(artists_by_track(edges, anchors), context));
    law_relations_sound(edges);
    let (m, channel): (int, Channel) = lemma_signal_origin(held, sources, candidates, context.scope, n);
    let candidate: Seq<char> = candidates[m].candidate_id@;
    law_best_wins(held, sources, candidate, channel);
    let relation: Relation = best(held, sources, candidate, channel)->0;
    let k: int = choose|k: int| wins(held, sources, candidate, channel, relation, k);
    let key: RelationKey = RelationKey { source: sources[k], candidate, channel };
    assert(sound_relation(held[key]));
    lemma_scores_in_unit(edges, key);
    law_unit_factor_does_not_raise(relation.score, relation.confidence);
}

/// Guidance is for local candidates only: each signal is for a candidate that was
/// asked about, and rests on an edge that is resolved to this candidate, starts
/// from a source that counts in the context, and feeds the signal's channel.
pub proof fn law_guidance_local(
    digest: Seq<char>,
    edges: Seq<SemanticEdge>,
    anchors: Seq<Anchor>,
    context: ScoreContext,
    candidates: Seq<Candidate>,
    n: int,
)
    requires
        0 <= n < guidance(prepared_with(digest, edges, anchors), context, candidates).len(),
    ensures
        ({
            let signal: SignalView = guidance(prepared_with(digest, edges, anchors), context, candidates)[n];
            &&& signal.scope == context.scope
            &&& exists|m: int|
                0 <= m < candidates.len() && (#[trigger] candidates[m]).candidate_id@ == signal.candidate_id
            &&& exists|i: int, channel: Channel|
                0 <= i < edges.len() && (#[trigger] edges[i]).resolved_candidate_id.deep_view() == Some(
                    signal.candidate_id,
                ) && Channel::spec_of(edges[i].source.kind@) == Some(channel) && #[trigger] channel.spec_name()
                    == signal.channel && consulted(artists_by_track(edges, anchors), context).contains(
                    edges[i].source.id@,
                )
        }),
{
    let held: Map<RelationKey, Relation> = relations(edges);
    let counted: Set<Seq<char>> = consulted(artists_by_track(edges, anchors), context);
    let sources: Seq<Seq<char>> = in_order(counted);
    law_relations_sound(edges);
    lemma_consulted_finite(edges, anchors, context);
    law_order_exists(counted);
    let (m, channel): (int, Channel) = lemma_signal_origin(held, sources, candidates, context.scope, n);
    let candidate: Seq<char> = candidates[m].candidate_id@;
    law_best_wins(held, sources, candidate, channel);
    let relation: Relation = best(held, sources, candidate, channel)->0;
    let k: int = choose|k: int| wins(held, sources, candidate, channel, relation, k);
    assert(sources.to_set().contains(sources[k]));
    let key: RelationKey = RelationKey { source: sources[k], candidate, channel };
    law_relations_stated(edges, key);
    let i: int = choose|i: int| 0 <= i < edges.len() && edge_key(#[trigger] edges[i]) == Some(key);
    assert(edges[i].resolved_candidate_id.deep_view() == Some(candidate));
    assert(channel.spec_name() == guidance(prepared_with(digest, edges, anchors), context, candidates)[n].channel);
}

/// Guidance is not withheld: an edge that is resolved to a candidate asked about,
/// and whose source counts in the context, gives a signal for this candidate
/// through the edge's channel.
pub proof fn law_guidance_given(
    digest: Seq<char>,
    edges: Seq<SemanticEdge>,
    anchors: Seq<Anchor>,
    context: ScoreContext,
    candidates: Seq<Candidate>,
    i: int,
    m: int,
    channel: Channel,
)
    requires
        0 <= i < edges.len(),
        0 <= m < candidates.len(),
        edges[i].resolved_candidate_id.deep_view() == Some(candidates[m].candidate_id@),
        Channel::spec_of(edges[i].source.kind@) == Some(channel),
        consulted(artists_by_track(edges, anchors), context).contains(edges[i].source.id@),
    ensures
        exists|n: int|
            0 <= n < guidance(prepared_with(digest, edges, anchors), context, candidates).len() && (
            #[trigger] guidance(prepared_with(digest, edges, anchors), context, candidates)[n]).candidate_id
                == candidates[m].candidate_id@ && guidance(
                prepared_with(digest, edges, anchors),
                context,
                candidates,
            )[n].channel == channel.spec_name(),
{
    let held: Map<RelationKey, Relation> = relations(edges);
    let counted: Set<Seq<char>> = consulted(artists_by_track(edges, anchors), context);
    let sources: Seq<Seq<char>> = in_order(counted);
    let candidate: Seq<char> = candidates[m].candidate_id@;
    law_relations_sound(edges);
    lemma_consulted_finite(edges, anchors, context);
    law_order_exists(counted);
    let key: RelationKey = RelationKey { source: edges[i].source.id@, candidate, channel };
    assert(edge_key(edges[i]) == Some(key));
    law_relations_stated(edges, key);
    assert(sources.to_set().contains(key.source));
    let k: int = sources.index_of(key.source);
    assert(relation_from(held, sources, k, candidate, channel) is Some);
    law_best_wins(held, sources, candidate, channel);
    let n: int = lemma_signal_given(held, sources, candidates, context.scope, m, channel);
    assert(guidance(prepared_with(digest, edges, anchors), context, candidates)[n].candidate_id == candidate);
}

/// Channels have different names.
pub proof fn lemma_channel_names_differ()
    ensures
        Channel::Artist.spec_name() != Channel::Track.spec_name(),
{
    reveal_strlit("lastfm_artist");
    reveal_strlit("lastfm_track");
    assert("lastfm_artist"@.len() == 13);
    assert("lastfm_track"@.len() == 12);
}

/// A signal is as strong as the strongest edge behind it: no edge from a source
/// that counts in the context outweighs the signal for its candidate and its
/// channel.
pub proof fn law_guidance_strongest(
    digest: Seq<char>,
    edges: Seq<SemanticEdge>,
    anchors: Seq<Anchor>,
    context: ScoreContext,
    candidates: Seq<Candidate>,
    n: int,
    i: int,
    channel: Channel,
)
    requires
        0 <= n < guidance(prepared_with(digest, edges, anchors), context, candidates).len(),
        0 <= i < edges.len(),
        edges[i].resolved_candidate_id.deep_view() == Some(
            guidance(prepared_with(digest, edges, anchors), context, candidates)[n].candidate_id,
        ),
        Channel::spec_of(edges[i].source.kind@) == Some(channel),
        channel.spec_name() == guidance(prepared_with(digest, edges, anchors), context, candidates)[n].channel,
        consulted(artists_by_track(edges, anchors), context).contains(edges[i].source.id@),
    ensures
        !edges[i].offered().unit_clamped().is_above(
            guidance(prepared_with(digest, edges, anchors), context, candidates)[n].score,
        ),
{
    let held: Map<RelationKey, Relation> = relations(edges);
    let counted: Set<Seq<char>> = consulted(artists_by_track(edges, anchors), context);
    let sources: Seq<Seq<char>> = in_order(counted);
    law_relations_sound(edges);
    lemma_consulted_finite(edges, anchors, context);
    law_order_exists(counted);
    lemma_channel_names_differ();
    let (m, own_channel): (int, Channel) = lemma_signal_origin(held, sources, candidates, context.scope, n);
    assert(own_channel == channel);
    let candidate: Seq<char> = candidates[m].candidate_id@;
    law_best_wins(held, sources, candidate, channel);
    let winner: Relation = best(held, sources, candidate, channel)->0;
    let k: int = choose|k: int| wins(held, sources, candidate, channel, winner, k);
    let key: RelationKey = RelationKey { source: edges[i].source.id@, candidate, channel };
    assert(edge_key(edges[i]) == Some(key));
    law_strongest_kept(edges, key, i);
    assert(sources.to_set().contains(key.source));
    let j: int = sources.index_of(key.source);
    assert(relation_from(held, sources, j, candidate, channel) == Some(held[key]));
    assert(sound_relation(winner));
    assert(sound_relation(held[key]));
}

/// The artists behind the last anchor of an ID are those that count for the ID.
proof fn lemma_last_anchor_counts(edges: Seq<SemanticEdge>, anchors: Seq<Anchor>, k: int)
    requires
        0 <= k < anchors.len(),
        artists_of(edges, anchors[k].track) != Set::<Seq<char>>::empty(),
        forall|later: int| k < later < anchors.len() ==> (#[trigger] anchors[later]).anchor_id@ != anchors[k].anchor_id@,
    ensures
        artists_by_track(edges, anchors).contains_key(anchors[k].anchor_id@),
        artists_by_track(edges, anchors)[anchors[k].anchor_id@] == artists_of(edges, anchors[k].track),
    decreases anchors.len(),
{
    let rest: Seq<Anchor> = anchors.drop_last();
    if k < rest.len() {
        assert(rest[k] == anchors[k]);
        assert forall|later: int| k < later < rest.len() implies (#[trigger] rest[later]).anchor_id@
            != rest[k].anchor_id@ by {
            assert(rest[later] == anchors[later]);
        }
        lemma_last_anchor_counts(edges, rest, k);
        assert(anchors[anchors.len() - 1].anchor_id@ != anchors[k].anchor_id@);
    }
}

/// The kind of artists feeds the artist channel.
proof fn lemma_artist_channel()
    ensures
        Channel::spec_of("artist"@) == Some(Channel::Artist),
{
    reveal_strlit("artist");
    reveal_strlit("recording");
    reveal_strlit("track");
    assert("artist"@.len() == 6);
    assert("recording"@.len() == 9);
    assert("track"@.len() == 5);
}

/// Naming a track asks its artists: where an edge of an artist is resolved to a
/// candidate, and the artist stands behind an anchor that the context names,
/// the candidate gets a signal through the artist channel.
pub proof fn law_track_reaches_artist(
    digest: Seq<char>,
    edges: Seq<SemanticEdge>,
    anchors: Seq<Anchor>,
    context: ScoreContext,
    candidates: Seq<Candidate>,
    i: int,
    k: int,
    m: int,
)
    requires
        0 <= i < edges.len(),
        0 <= k < anchors.len(),
        0 <= m < candidates.len(),
        edges[i].source.kind@ == "artist"@,
        edges[i].resolved_candidate_id.deep_view() == Some(candidates[m].candidate_id@),
        artists_of(edges, anchors[k].track).contains(edges[i].source.id@),
        forall|later: int| k < later < anchors.len() ==> (#[trigger] anchors[later]).anchor_id@ != anchors[k].anchor_id@,
        named_tracks(context).contains(anchors[k].anchor_id@),
    ensures
        exists|n: int|
            0 <= n < guidance(prepared_with(digest, edges, anchors), context, candidates).len() && (
            #[trigger] guidance(prepared_with(digest, edges, anchors), context, candidates)[n]).candidate_id
                == candidates[m].candidate_id@ && guidance(
                prepared_with(digest, edges, anchors),
                context,
                candidates,
            )[n].channel == "lastfm_artist"@,
{
    let artists: Map<Seq<char>, Set<Seq<char>>> = artists_by_track(edges, anchors);
    let track: Seq<char> = anchors[k].anchor_id@;
    lemma_last_anchor_counts(edges, anchors, k);
    assert(named_tracks(context).contains(track) && artists.contains_key(track) && artists[track].contains(
        edges[i].source.id@,
    ));
    lemma_artist_channel();
    law_guidance_given(digest, edges, anchors, context, candidates, i, m, Channel::Artist);
}

/// An artist stands behind a track where a MusicBrainz ID of the track is one
/// that evidence gives the artist, in whatever letter case.
pub proof fn law_mbid_joins(edges: Seq<SemanticEdge>, track: Candidate, i: int, j: int)
    requires
        0 <= i < edges.len(),
        0 <= j < track.artist_mbids@.len(),
        edges[i].source.kind@ == "artist"@,
        edges[i].source.mbid matches Some(mbid) && ascii_lowercase(mbid@) == ascii_lowercase(
            track.artist_mbids@[j]@,
        ),
    ensures
        artists_of(edges, track).contains(edges[i].source.id@),
{
    let key: Seq<char> = ascii_lowercase(track.artist_mbids@[j]@);
    assert(edges[i].lists_mbid(key));
    assert(listed_by_mbid(edges, key).contains(edges[i].source.id@));
    assert(artists_by_mbid(edges, track).contains(edges[i].source.id@));
}

/// An artist stands behind a track where their names agree and no MusicBrainz ID
/// of the track leads to any artist.
pub proof fn law_name_joins(edges: Seq<SemanticEdge>, track: Candidate, i: int)
    requires
        0 <= i < edges.len(),
        edges[i].source.kind@ == "artist"@,
        edges[i].source.name matches Some(name) && track.artist matches Some(artist) && normalized(name@)
            == normalized(artist@),
        artists_by_mbid(edges, track) == Set::<Seq<char>>::empty(),
    ensures
        artists_of(edges, track).contains(edges[i].source.id@),
{
    assert(edges[i].lists_name(normalized(track.artist->0@)));
}

/// MusicBrainz IDs are authoritative: where they lead to artists, the name of the
/// artist does not matter.
pub proof fn law_mbids_are_authoritative(edges: Seq<SemanticEdge>, a: Candidate, b: Candidate)
    requires
        a.artist_mbids.deep_view() == b.artist_mbids.deep_view(),
        artists_by_mbid(edges, a) != Set::<Seq<char>>::empty(),
    ensures
        artists_of(edges, a) == artists_of(edges, b),
{
    assert(a.artist_mbids@.len() == a.artist_mbids.deep_view().len());
    assert(b.artist_mbids@.len() == b.artist_mbids.deep_view().len());
    assert forall|j: int| 0 <= j < a.artist_mbids@.len() implies (#[trigger] a.artist_mbids@[j])@ == b.artist_mbids@[j]@ by {
        assert(a.artist_mbids.deep_view()[j] == a.artist_mbids@[j]@);
        assert(b.artist_mbids.deep_view()[j] == b.artist_mbids@[j]@);
    }
    assert forall|id: Seq<char>| artists_by_mbid(edges, a).contains(id) <==> artists_by_mbid(edges, b).contains(id) by {
        if artists_by_mbid(edges, a).contains(id) {
            let j: int = choose|j: int|
                0 <= j < a.artist_mbids@.len() && listed_by_mbid(
                    edges,
                    ascii_lowercase((#[trigger] a.artist_mbids@[j])@),
                ).contains(id);
            assert(listed_by_mbid(edges, ascii_lowercase(b.artist_mbids@[j]@)).contains(id));
        }
        if artists_by_mbid(edges, b).contains(id) {
            let j: int = choose|j: int|
                0 <= j < b.artist_mbids@.len() && listed_by_mbid(
                    edges,
                    ascii_lowercase((#[trigger] b.artist_mbids@[j])@),
                ).contains(id);
            assert(listed_by_mbid(edges, ascii_lowercase(a.artist_mbids@[j]@)).contains(id));
        }
    }
    assert(artists_by_mbid(edges, a) =~= artists_by_mbid(edges, b));
}

/// Guidance depends on which tracks a context names, not on where, in which order
/// or how often it names them.
pub proof fn law_context_is_a_set(
    provider: ProviderView,
    a: ScoreContext,
    b: ScoreContext,
    candidates: Seq<Candidate>,
)
    requires
        a.scope == b.scope,
        named_tracks(a) == named_tracks(b),
    ensures
        guidance(provider, a, candidates) == guidance(provider, b, candidates),
{
}

/// A context that names more tracks takes no guidance away: each signal in the
/// smaller context has its counterpart, for the same candidate and through the
/// same channel, in the larger one, and the counterpart is not weaker.
pub proof fn law_more_context_is_not_weaker(
    digest: Seq<char>,
    edges: Seq<SemanticEdge>,
    anchors: Seq<Anchor>,
    a: ScoreContext,
    b: ScoreContext,
    candidates: Seq<Candidate>,
    n: int,
)
    requires
        named_tracks(a).subset_of(named_tracks(b)),
        0 <= n < guidance(prepared_with(digest, edges, anchors), a, candidates).len(),
    ensures
        exists|k: int|
            0 <= k < guidance(prepared_with(digest, edges, anchors), b, candidates).len() && (
            #[trigger] guidance(prepared_with(digest, edges, anchors), b, candidates)[k]).candidate_id == guidance(
                prepared_with(digest, edges, anchors),
                a,
                candidates,
            )[n].candidate_id && guidance(prepared_with(digest, edges, anchors), b, candidates)[k].channel == guidance(
                prepared_with(digest, edges, anchors),
                a,
                candidates,
            )[n].channel && !guidance(prepared_with(digest, edges, anchors), a, candidates)[n].score.is_above(
                guidance(prepared_with(digest, edges, anchors), b, candidates)[k].score,
            ),
{
    let held: Map<RelationKey, Relation> = relations(edges);
    let artists: Map<Seq<char>, Set<Seq<char>>> = artists_by_track(edges, anchors);
    let fewer: Set<Seq<char>> = consulted(artists, a);
    let more: Set<Seq<char>> = consulted(artists, b);
    law_relations_sound(edges);
    lemma_consulted_finite(edges, anchors, a);
    lemma_consulted_finite(edges, anchors, b);
    law_order_exists(fewer);
    law_order_exists(more);
    let (m, channel): (int, Channel) = lemma_signal_origin(held, in_order(fewer), candidates, a.scope, n);
    let candidate: Seq<char> = candidates[m].candidate_id@;
    law_best_wins(held, in_order(fewer), candidate, channel);
    law_best_wins(held, in_order(more), candidate, channel);
    let first: Relation = best(held, in_order(fewer), candidate, channel)->0;
    let i: int = choose|i: int| wins(held, in_order(fewer), candidate, channel, first, i);
    let source: Seq<char> = in_order(fewer)[i];
    assert(in_order(fewer).to_set().contains(source));
    assert(more.contains(source)) by {
        if !named_tracks(a).contains(source) {
            let track: Seq<char> = choose|track: Seq<char>| #[trigger]
                named_tracks(a).contains(track) && artists.contains_key(track) && artists[track].contains(source);
            assert(named_tracks(b).contains(track));
        }
    }
    assert(in_order(more).to_set().contains(source));
    let j: int = in_order(more).index_of(source);
    assert(relation_from(held, in_order(more), j, candidate, channel) == Some(first));
    let second: Relation = best(held, in_order(more), candidate, channel)->0;
    assert(sound_relation(first));
    assert(sound_relation(second));
    let k: int = lemma_signal_given(held, in_order(more), candidates, b.scope, m, channel);
    assert(guidance(prepared_with(digest, edges, anchors), b, candidates)[k].candidate_id == candidate);
}

/// The anchors on both sides of an edge count alike.
pub proof fn law_anchors_are_symmetric(
    provider: ProviderView,
    a: ScoreContext,
    b: ScoreContext,
    candidates: Seq<Candidate>,
)
    requires
        a.scope == b.scope,
        a.context_track_ids.deep_view() == b.context_track_ids.deep_view(),
        a.left_anchor_id.deep_view() == b.right_anchor_id.deep_view(),
        a.right_anchor_id.deep_view() == b.left_anchor_id.deep_view(),
    ensures
        guidance(provider, a, candidates) == guidance(provider, b, candidates),
{
    assert(named_tracks(a) =~= named_tracks(b));
}

/// There are at most two signals for each candidate that is asked about.
pub proof fn law_signals_at_most_two_each(
    held: Map<RelationKey, Relation>,
    sources: Seq<Seq<char>>,
    candidates: Seq<Candidate>,
    scope: GuidanceScope,
)
    ensures
        signals_for(held, sources, candidates, scope).len() <= 2 * candidates.len(),
    decreases candidates.len(),
{
    if candidates.len() > 0 {
        law_signals_at_most_two_each(held, sources, candidates.drop_last(), scope);
        assert(candidate_signals(held, sources, candidates.last().candidate_id@, scope).len() <= 2);
    }
}

/// Guidance for a list of candidates is the guidance for its parts, one after the
/// other: candidates do not influence each other.
pub proof fn law_candidates_independent(
    provider: ProviderView,
    context: ScoreContext,
    first: Seq<Candidate>,
    second: Seq<Candidate>,
)
    ensures
        guidance(provider, context, first + second) == guidance(provider, context, first) + guidance(
            provider,
            context,
            second,
        ),
    decreases second.len(),
{
    if second.len() == 0 {
        assert(first + second =~= first);
        assert(guidance(provider, context, first) + guidance(provider, context, second) =~= guidance(
            provider,
            context,
            first,
        ));
    } else {
        assert((first + second).drop_last() =~= first + second.drop_last());
        assert((first + second).last() == second.last());
        law_candidates_independent(provider, context, first, second.drop_last());
        assert(guidance(provider, context, first + second) =~= guidance(provider, context, first) + guidance(
            provider,
            context,
            second,
        ));
    }
}

/// The artist channel comes before the track channel in the order of names, as it
/// does among the signals for a candidate.
pub proof fn law_channels_in_order()
    ensures
        precedes(Channel::Artist.spec_name(), Channel::Track.spec_name()),
{
    reveal_strlit("lastfm_artist");
    reveal_strlit("lastfm_track");
    let a: Seq<char> = "lastfm_artist"@;
    let b: Seq<char> = "lastfm_track"@;
    is_ascii_chars_encode_utf8(a);
    is_ascii_chars_encode_utf8(b);
    let x: Seq<u8> = encode_utf8(a);
    let y: Seq<u8> = encode_utf8(b);
    assert(x.take(7) =~= y.take(7));
    assert(lesser_at(x, y, 7));
}

/// A provider refuses to score before it has taken in evidence, and never after.
pub proof fn law_preparation_enables_scores(
    digest: Seq<char>,
    edges: Seq<SemanticEdge>,
    anchors: Seq<Anchor>,
    request_id: Seq<char>,
    context: ScoreContext,
    candidates: Seq<Candidate>,
)
    ensures
        score_response(unprepared(), request_id, context, candidates) == failure_view(
            "NOT_PREPARED"@,
            "provider must receive prepare before score"@,
            false,
        ),
        score_response(prepared_with(digest, edges, anchors), request_id, context, candidates) is Scores,
{
}

/// The version of the protocol in which a request is made, where it states one.
pub open spec fn version_of(request: GuidanceRequest) -> Option<u32> {
    match request {
        GuidanceRequest::Describe { spi_version } => Some(spi_version),
        GuidanceRequest::Prepare { spi_version, .. } => Some(spi_version),
        GuidanceRequest::Score { spi_version, .. } => Some(spi_version),
        GuidanceRequest::Close => None,
    }
}

/// Requests that are answered one after the other, from the start of the
/// service. `states[i]` is the provider before request `i`.
pub open spec fn session(
    edition: Edition,
    requests: Seq<GuidanceRequest>,
    responses: Seq<GuidanceResponse>,
    states: Seq<Provider>,
) -> bool {
    &&& responses.len() == requests.len()
    &&& states.len() == requests.len() + 1
    &&& states[0]@ == unprepared()
    &&& forall|i: int, next: int|
        0 <= i < requests.len() && next == i + 1 ==> answered(
            #[trigger] states[i],
            edition,
            requests[i],
            responses[i],
            #[trigger] states[next],
        )
}

/// A provider is prepared after an answer exactly where it was so before, or the
/// answer says so.
proof fn lemma_prepared_after(
    before: Provider,
    edition: Edition,
    request: GuidanceRequest,
    response: GuidanceResponse,
    after: Provider,
)
    requires
        answered(before, edition, request, response, after),
    ensures
        after@.prepared <==> before@.prepared || response@ is Prepared,
{
}

/// A provider is prepared exactly where some answer said so.
proof fn lemma_prepared_in_session(
    edition: Edition,
    requests: Seq<GuidanceRequest>,
    responses: Seq<GuidanceResponse>,
    states: Seq<Provider>,
    n: int,
)
    requires
        session(edition, requests, responses, states),
        0 <= n <= requests.len(),
    ensures
        states[n]@.prepared <==> exists|i: int| 0 <= i < n && (#[trigger] responses[i])@ is Prepared,
    decreases n,
{
    if n > 0 {
        let last: int = n - 1;
        lemma_prepared_in_session(edition, requests, responses, states, last);
        assert(answered(states[last], edition, requests[last], responses[last], states[n]));
        lemma_prepared_after(states[last], edition, requests[last], responses[last], states[n]);
        if responses[last]@ is Prepared {
            assert(0 <= last < n && responses[last]@ is Prepared);
        }
    }
}

/// Over the whole of a session, a request for scores in the supported version is
/// refused for want of a preparation exactly where no earlier answer was that of
/// a preparation.
pub proof fn law_scores_need_a_preparation(
    edition: Edition,
    requests: Seq<GuidanceRequest>,
    responses: Seq<GuidanceResponse>,
    states: Seq<Provider>,
    n: int,
)
    requires
        session(edition, requests, responses, states),
        0 <= n < requests.len(),
        requests[n] is Score,
        version_of(requests[n]) == Some(edition.spi_version),
    ensures
        responses[n]@ == failure_view("NOT_PREPARED"@, "provider must receive prepare before score"@, false)
            <==> forall|i: int| 0 <= i < n ==> !((#[trigger] responses[i])@ is Prepared),
{
    lemma_prepared_in_session(edition, requests, responses, states, n);
    let next: int = n + 1;
    assert(answered(states[n], edition, requests[n], responses[n], states[next]));
}

/// A request in another version of the protocol is refused: nothing is read, and
/// the answer says which version is supported.
pub proof fn law_other_versions_refused(provider: Provider, edition: Edition, request: GuidanceRequest, action: Action)
    requires
        follows(provider, edition, request, action),
        version_of(request) matches Some(version) && version != edition.spi_version,
    ensures
        action matches Action::Respond(response) && response@ == unsupported_version(edition),
{
}

/// A request to close is granted, whatever state the provider is in, and no other
/// request is answered that way.
pub proof fn law_only_close_closes(provider: Provider, edition: Edition, request: GuidanceRequest, action: Action)
    requires
        follows(provider, edition, request, action),
    ensures
        request is Close <==> (action matches Action::Respond(response) && response@ == (ResponseView::Closed {
            provider_id: PROVIDER_ID@,
        })),
{
}

} // verus!
