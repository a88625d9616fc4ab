//! What requests are answered, told from the evidence and the requests alone.
//!
//! The statements here look at the fields of edges, anchors and requests, and at
//! the answer; what the provider keeps in between does not appear in them.
use crate::artists::{artists_by_mbid, artists_by_name, artists_by_track, artists_of, listed_by_mbid, listed_by_name};
use crate::binary64::{distance, law_reciprocal_is_nearest, law_unit_clamped, Binary64, INFINITE};
use crate::evidence::{Channel, SemanticEdge};
use crate::laws::{
    law_best_wins, law_earliest_strongest_held, law_relations_sound, law_relations_stated, law_some_edge_leads,
    law_strongest_kept, law_weightless_held, leads, lemma_channel_names_differ, lemma_consulted_finite,
    lemma_weightless_weight, relation_from, sound_relation, wins,
};
use crate::names::{in_order, law_order_exists, precedes};
use crate::protocol::{
    Anchor, Candidate, Capability, DetailsView, DiagnosticsView, GuidanceScope, ManifestView, ResponseView,
    SchemaView, ScoreContext, SignalView,
};
use crate::provider::{
    best, channel_signals, consulted, failure_view, named_tracks, prepared_with, score_response, signal_of,
    signals_for,
};
use crate::relations::{edge_key, relations, Relation, RelationKey};
use crate::service::{manifest_view, Edition};
use crate::text::{alike, ascii_lowercase, law_small_letters_join, lowercase, trimmed};
use vstd::arithmetic::power2::pow2;
use vstd::prelude::*;

verus! {

/// Edges from a source of this kind give guidance through the channel of this name.
pub open spec fn feeds(kind: Seq<char>, channel: Seq<char>) -> bool {
    ||| channel == "lastfm_artist"@ && kind == "artist"@
    ||| channel == "lastfm_track"@ && (kind == "recording"@ || kind == "track"@)
}

/// The context names the ID: among its tracks, or as one of its two anchors.
pub open spec fn names(context: ScoreContext, id: Seq<char>) -> bool {
    ||| exists|i: int|
        0 <= i < context.context_track_ids@.len() && (#[trigger] context.context_track_ids@[i])@ == id
    ||| context.left_anchor_id matches Some(left) && left@ == id
    ||| context.right_anchor_id matches Some(right) && right@ == id
}

/// The edge is an artist's, and one of the track's MusicBrainz IDs is the artist's.
pub open spec fn shares_mbid(edge: SemanticEdge, track: Candidate) -> bool {
    &&& edge.source.kind@ == "artist"@
    &&& edge.source.mbid matches Some(mbid)
    &&& exists|j: int| 0 <= j < track.artist_mbids@.len() && alike(mbid@, (#[trigger] track.artist_mbids@[j])@)
}

/// The edge is an artist's, and the artist's name is that of the track's artist,
/// but for letter case and the white space around it.
pub open spec fn shares_name(edge: SemanticEdge, track: Candidate) -> bool {
    &&& edge.source.kind@ == "artist"@
    &&& edge.source.name matches Some(name)
    &&& track.artist matches Some(artist)
    &&& lowercase(trimmed(name@)) == lowercase(trimmed(artist@))
}

/// The ID is that of an artist behind the track: one with a MusicBrainz ID of the
/// track, or, where evidence has none of these IDs, one with the artist's name.
pub open spec fn behind(edges: Seq<SemanticEdge>, track: Candidate, id: Seq<char>) -> bool {
    exists|i: int|
        0 <= i < edges.len() && (#[trigger] edges[i]).source.id@ == id && (shares_mbid(edges[i], track) || (shares_name(
            edges[i],
            track,
        ) && forall|j: int| 0 <= j < edges.len() ==> !shares_mbid(#[trigger] edges[j], track)))
}

/// Evidence knows some artist behind the track.
pub open spec fn has_artist(edges: Seq<SemanticEdge>, track: Candidate) -> bool {
    exists|id: Seq<char>| behind(edges, track, id)
}

/// The anchor at place `k` is the last of its ID behind which evidence knows an
/// artist, and the artist of this ID is behind it.
pub open spec fn anchor_leads_to(edges: Seq<SemanticEdge>, anchors: Seq<Anchor>, k: int, id: Seq<char>) -> bool {
    &&& 0 <= k < anchors.len()
    &&& behind(edges, anchors[k].track, id)
    &&& forall|later: int|
        k < later < anchors.len() && (#[trigger] anchors[later]).anchor_id@ == anchors[k].anchor_id@ ==> !has_artist(
            edges,
            anchors[later].track,
        )
}

/// The source counts in the context: the context names it, or names an anchor that
/// leads to it.
pub open spec fn reached(
    edges: Seq<SemanticEdge>,
    anchors: Seq<Anchor>,
    context: ScoreContext,
    id: Seq<char>,
) -> bool {
    ||| names(context, id)
    ||| exists|k: int|
        names(context, anchors[k].anchor_id@) && #[trigger] anchor_leads_to(edges, anchors, k, id)
}

/// The number at the nearer end of the range from zero to one, or the number
/// itself within the range. What is no number stays so.
pub open spec fn bounded(x: Binary64) -> Binary64 {
    if x.is_nan() || 0 <= x.place() <= 0x3FF0_0000_0000_0000 {
        x
    } else if x.place() < 0 {
        Binary64 { bits: 0 }
    } else {
        Binary64 { bits: 0x3FF0_0000_0000_0000 }
    }
}

/// The strength that the edge states: its score, whatever its rank; where it has no
/// score, what its rank stands for.
pub open spec fn strength(edge: SemanticEdge) -> Binary64 {
    if let Some(score) = edge.raw_score {
        bounded(score)
    } else if let Some(rank) = edge.raw_rank {
        Binary64::spec_reciprocal(rank)
    } else {
        Binary64 { bits: 0 }
    }
}

/// What the edge weighs: its strength times the confidence in it.
pub open spec fn weight(edge: SemanticEdge) -> Binary64 {
    strength(edge).product(bounded(edge.identity_confidence))
}

/// The number is above zero.
pub open spec fn positive(x: Binary64) -> bool {
    !x.is_nan() && x.place() > 0
}

/// The edge at place `i` speaks for the candidate through the channel.
pub open spec fn relevant(
    edges: Seq<SemanticEdge>,
    anchors: Seq<Anchor>,
    context: ScoreContext,
    candidate: Seq<char>,
    channel: Seq<char>,
    i: int,
) -> bool {
    &&& 0 <= i < edges.len()
    &&& edges[i].resolved_candidate_id matches Some(resolved)
    &&& resolved@ == candidate
    &&& feeds(edges[i].source.kind@, channel)
    &&& reached(edges, anchors, context, edges[i].source.id@)
}

/// Of equals the edge at place `i` comes first: its source comes first in the order
/// of names, or it is the earlier edge of one source.
pub open spec fn comes_first(edges: Seq<SemanticEdge>, i: int, j: int) -> bool {
    ||| precedes(edges[i].source.id@, edges[j].source.id@)
    ||| edges[i].source.id@ == edges[j].source.id@ && i <= j
}

/// The edge at place `i` decides what is said of the candidate through the channel:
/// it is the first of the strongest, or the first of all where none weighs more
/// than zero.
pub open spec fn decides(
    edges: Seq<SemanticEdge>,
    anchors: Seq<Anchor>,
    context: ScoreContext,
    candidate: Seq<char>,
    channel: Seq<char>,
    i: int,
) -> bool {
    &&& relevant(edges, anchors, context, candidate, channel, i)
    &&& forall|j: int| #[trigger]
        relevant(edges, anchors, context, candidate, channel, j) ==> if positive(weight(edges[i])) {
            &&& !weight(edges[j]).is_above(weight(edges[i]))
            &&& weight(edges[j]).is_nan() || weight(edges[i]).is_above(weight(edges[j])) || comes_first(edges, i, j)
        } else {
            !positive(weight(edges[j])) && comes_first(edges, i, j)
        }
}

/// What the signal says is what the edge states; an edge that does not weigh more
/// than zero lends its provenance only.
pub open spec fn tells(signal: SignalView, edge: SemanticEdge) -> bool {
    &&& signal.rationale == Some("Last.fm similar "@ + edge.source.kind@)
    &&& match edge.observed_at {
        Some(time) => signal.observed_at == Some(time@),
        None => signal.observed_at is None,
    }
    &&& if positive(weight(edge)) {
        &&& signal.score == bounded(weight(edge))
        &&& signal.confidence == bounded(edge.identity_confidence)
    } else {
        &&& signal.score == Binary64 { bits: 0 }
        &&& signal.confidence == Binary64 { bits: 0 }
    }
}

/// The signal is the one for this candidate and channel.
pub open spec fn guides(
    edges: Seq<SemanticEdge>,
    anchors: Seq<Anchor>,
    context: ScoreContext,
    candidate: Seq<char>,
    channel: Seq<char>,
    signal: SignalView,
) -> bool {
    &&& signal.candidate_id == candidate
    &&& signal.channel == channel
    &&& signal.scope == context.scope
    &&& exists|i: int| #[trigger]
        decides(edges, anchors, context, candidate, channel, i) && tells(signal, edges[i])
}

/// `origins` says of each signal for which of the candidates and through which
/// channel it is. Signals come in the order of the candidates, for each candidate
/// the artist channel first; there is one for each candidate and channel for which
/// an edge speaks, and no other.
pub open spec fn explains(
    edges: Seq<SemanticEdge>,
    anchors: Seq<Anchor>,
    context: ScoreContext,
    candidates: Seq<Candidate>,
    signals: Seq<SignalView>,
    origins: Seq<(int, Seq<char>)>,
) -> bool {
    &&& origins.len() == signals.len()
    &&& forall|n: int|
        0 <= n < signals.len() ==> 0 <= (#[trigger] origins[n]).0 < candidates.len() && guides(
            edges,
            anchors,
            context,
            candidates[origins[n].0].candidate_id@,
            origins[n].1,
            signals[n],
        )
    &&& forall|a: int, b: int|
        0 <= a < b < origins.len() ==> (#[trigger] origins[a]).0 < (#[trigger] origins[b]).0 || (origins[a].0
            == origins[b].0 && origins[a].1 == "lastfm_artist"@ && origins[b].1 == "lastfm_track"@)
    &&& forall|m: int, channel: Seq<char>, i: int|
        0 <= m < candidates.len() && #[trigger] relevant(
            edges,
            anchors,
            context,
            candidates[m].candidate_id@,
            channel,
            i,
        ) ==> origins.contains((m, channel))
}

/// Each kind of source feeds the channel that goes with it.
pub proof fn lemma_feeds(kind: Seq<char>, channel: Channel)
    ensures
        feeds(kind, channel.spec_name()) <==> Channel::spec_of(kind) == Some(channel),
{
    lemma_channel_names_differ();
    reveal_strlit("artist");
    reveal_strlit("recording");
    reveal_strlit("track");
    assert("artist"@.len() == 6);
    assert("recording"@.len() == 9);
    assert("track"@.len() == 5);
}

/// A channel that anything feeds is one of the two.
proof fn lemma_fed_channel(kind: Seq<char>, channel: Seq<char>) -> (fed: Channel)
    requires
        feeds(kind, channel),
    ensures
        fed.spec_name() == channel,
{
    if channel == "lastfm_artist"@ {
        Channel::Artist
    } else {
        Channel::Track
    }
}

/// What the context names is what its fields name.
proof fn lemma_names(context: ScoreContext, id: Seq<char>)
    ensures
        names(context, id) <==> named_tracks(context).contains(id),
{
    let ids: Seq<Seq<char>> = context.context_track_ids.deep_view();
    assert(ids.len() == context.context_track_ids@.len());
    assert(forall|i: int| 0 <= i < ids.len() ==> ids[i] == (#[trigger] context.context_track_ids@[i])@);
    if exists|i: int| 0 <= i < context.context_track_ids@.len() && (#[trigger] context.context_track_ids@[i])@ == id {
        let i: int = choose|i: int|
            0 <= i < context.context_track_ids@.len() && (#[trigger] context.context_track_ids@[i])@ == id;
        assert(ids[i] == id);
    }
    if ids.contains(id) {
        let i: int = ids.index_of(id);
        assert(context.context_track_ids@[i]@ == id);
    }
}

/// An edge shares a MusicBrainz ID where an ID of the track leads to it.
proof fn lemma_shares_mbid(edge: SemanticEdge, track: Candidate)
    ensures
        shares_mbid(edge, track) <==> exists|j: int|
            0 <= j < track.artist_mbids@.len() && edge.lists_mbid(
                ascii_lowercase((#[trigger] track.artist_mbids@[j])@),
            ),
{
    if edge.source.kind@ == "artist"@ && edge.source.mbid is Some {
        let mbid: Seq<char> = edge.source.mbid->0@;
        assert forall|j: int| 0 <= j < track.artist_mbids@.len() implies (alike(
            mbid,
            (#[trigger] track.artist_mbids@[j])@,
        ) <==> edge.lists_mbid(ascii_lowercase(track.artist_mbids@[j]@))) by {
            law_small_letters_join(mbid, track.artist_mbids@[j]@);
        }
    }
}

/// The artists behind a track by MusicBrainz ID are those of edges that share one.
proof fn lemma_by_mbid(edges: Seq<SemanticEdge>, track: Candidate, id: Seq<char>)
    ensures
        artists_by_mbid(edges, track).contains(id) <==> exists|i: int|
            0 <= i < edges.len() && (#[trigger] edges[i]).source.id@ == id && shares_mbid(edges[i], track),
{
    if artists_by_mbid(edges, track).contains(id) {
        let j: int = choose|j: int|
            0 <= j < track.artist_mbids@.len() && listed_by_mbid(
                edges,
                ascii_lowercase((#[trigger] track.artist_mbids@[j])@),
            ).contains(id);
        let key: Seq<char> = ascii_lowercase(track.artist_mbids@[j]@);
        let i: int = choose|i: int|
            0 <= i < edges.len() && (#[trigger] edges[i]).lists_mbid(key) && edges[i].source.id@ == id;
        lemma_shares_mbid(edges[i], track);
        assert(edges[i].source.id@ == id && shares_mbid(edges[i], track));
    }
    if exists|i: int| 0 <= i < edges.len() && (#[trigger] edges[i]).source.id@ == id && shares_mbid(edges[i], track) {
        let i: int = choose|i: int|
            0 <= i < edges.len() && (#[trigger] edges[i]).source.id@ == id && shares_mbid(edges[i], track);
        lemma_shares_mbid(edges[i], track);
        let j: int = choose|j: int|
            0 <= j < track.artist_mbids@.len() && edges[i].lists_mbid(
                ascii_lowercase((#[trigger] track.artist_mbids@[j])@),
            );
        assert(listed_by_mbid(edges, ascii_lowercase(track.artist_mbids@[j]@)).contains(id));
    }
}

/// The artists behind a track by name are those of edges that share it.
proof fn lemma_by_name(edges: Seq<SemanticEdge>, track: Candidate, id: Seq<char>)
    ensures
        artists_by_name(edges, track).contains(id) <==> exists|i: int|
            0 <= i < edges.len() && (#[trigger] edges[i]).source.id@ == id && shares_name(edges[i], track),
{
    if let Some(artist) = track.artist {
        let key: Seq<char> = lowercase(trimmed(artist@));
        assert(forall|i: int|
            0 <= i < edges.len() ==> ((#[trigger] edges[i]).lists_name(key) <==> shares_name(edges[i], track)));
        assert(artists_by_name(edges, track) == listed_by_name(edges, key));
        if listed_by_name(edges, key).contains(id) {
            let i: int = choose|i: int|
                0 <= i < edges.len() && (#[trigger] edges[i]).lists_name(key) && edges[i].source.id@ == id;
            assert(shares_name(edges[i], track));
        }
    }
}

/// The artists behind a track are those that its fields lead to: names with one
/// lowercase equivalent join where no MusicBrainz ID does.
pub proof fn law_artists_behind_a_track(edges: Seq<SemanticEdge>, track: Candidate, id: Seq<char>)
    ensures
        behind(edges, track, id) <==> artists_of(edges, track).contains(id),
{
    lemma_by_mbid(edges, track, id);
    lemma_by_name(edges, track, id);
    let none: bool = forall|j: int| 0 <= j < edges.len() ==> !shares_mbid(#[trigger] edges[j], track);
    if none {
        assert forall|other: Seq<char>| !artists_by_mbid(edges, track).contains(other) by {
            lemma_by_mbid(edges, track, other);
        }
        assert(artists_by_mbid(edges, track) =~= Set::<Seq<char>>::empty());
    } else {
        let j: int = choose|j: int| 0 <= j < edges.len() && shares_mbid(#[trigger] edges[j], track);
        lemma_by_mbid(edges, track, edges[j].source.id@);
        assert(artists_by_mbid(edges, track).contains(edges[j].source.id@));
    }
}

/// Evidence knows an artist behind a track where artists are found.
pub proof fn lemma_has_artist(edges: Seq<SemanticEdge>, track: Candidate)
    ensures
        has_artist(edges, track) <==> artists_of(edges, track) != Set::<Seq<char>>::empty(),
{
    if has_artist(edges, track) {
        let id: Seq<char> = choose|id: Seq<char>| behind(edges, track, id);
        law_artists_behind_a_track(edges, track, id);
    } else {
        assert forall|id: Seq<char>| !(#[trigger] artists_of(edges, track).contains(id)) by {
            law_artists_behind_a_track(edges, track, id);
        }
        assert(artists_of(edges, track) =~= Set::<Seq<char>>::empty());
    }
}

/// The artists kept for a track are those to whom an anchor leads.
proof fn lemma_anchor_leads_to(edges: Seq<SemanticEdge>, anchors: Seq<Anchor>, track: Seq<char>, id: Seq<char>)
    ensures
        (artists_by_track(edges, anchors).contains_key(track) && artists_by_track(edges, anchors)[track].contains(id))
            <==> exists|k: int| #[trigger] anchor_leads_to(edges, anchors, k, id) && anchors[k].anchor_id@ == track,
    decreases anchors.len(),
{
    if anchors.len() > 0 {
        let rest: Seq<Anchor> = anchors.drop_last();
        let last: int = anchors.len() - 1;
        let anchor: Anchor = anchors.last();
        assert(anchors[last] == anchor);
        assert(forall|k: int| 0 <= k < rest.len() ==> #[trigger] rest[k] == anchors[k]);
        lemma_anchor_leads_to(edges, rest, track, id);
        lemma_has_artist(edges, anchor.track);
        law_artists_behind_a_track(edges, anchor.track, id);
        let replaced: bool = has_artist(edges, anchor.track) && anchor.anchor_id@ == track;
        if replaced {
            if behind(edges, anchor.track, id) {
                assert(anchor_leads_to(edges, anchors, last, id));
            }
            assert forall|k: int| #[trigger] anchor_leads_to(edges, anchors, k, id) && anchors[k].anchor_id@
                == track implies k == last by {
                if k < last {
                    assert(anchors[last].anchor_id@ == anchors[k].anchor_id@);
                }
            }
        } else {
            assert forall|k: int|
                (#[trigger] anchor_leads_to(edges, anchors, k, id) && anchors[k].anchor_id@ == track) implies (
            anchor_leads_to(edges, rest, k, id) && rest[k].anchor_id@ == track) by {
                if k == last {
                    assert(behind(edges, anchors[last].track, id));
                    assert(has_artist(edges, anchors[last].track));
                } else {
                    assert forall|later: int|
                        k < later < rest.len() && (#[trigger] rest[later]).anchor_id@
                            == rest[k].anchor_id@ implies !has_artist(edges, rest[later].track) by {
                        assert(anchors[later] == rest[later]);
                    }
                }
            }
            assert forall|k: int|
                (#[trigger] anchor_leads_to(edges, rest, k, id) && rest[k].anchor_id@ == track) implies (
            anchor_leads_to(edges, anchors, k, id) && anchors[k].anchor_id@ == track) by {
                assert(anchors[k] == rest[k]);
                assert forall|later: int|
                    k < later < anchors.len() && (#[trigger] anchors[later]).anchor_id@
                        == anchors[k].anchor_id@ implies !has_artist(edges, anchors[later].track) by {
                    if later < last {
                        assert(rest[later] == anchors[later]);
                    }
                }
            }
        }
    }
}

/// The sources that count in a context are those that its fields reach.
proof fn lemma_reached(edges: Seq<SemanticEdge>, anchors: Seq<Anchor>, context: ScoreContext, id: Seq<char>)
    ensures
        reached(edges, anchors, context, id) <==> consulted(artists_by_track(edges, anchors), context).contains(id),
{
    let artists: Map<Seq<char>, Set<Seq<char>>> = artists_by_track(edges, anchors);
    lemma_names(context, id);
    if exists|k: int| names(context, anchors[k].anchor_id@) && #[trigger] anchor_leads_to(edges, anchors, k, id) {
        let k: int = choose|k: int|
            names(context, anchors[k].anchor_id@) && #[trigger] anchor_leads_to(edges, anchors, k, id);
        let track: Seq<char> = anchors[k].anchor_id@;
        lemma_names(context, track);
        lemma_anchor_leads_to(edges, anchors, track, id);
        assert(named_tracks(context).contains(track) && artists.contains_key(track) && artists[track].contains(id));
    }
    if consulted(artists, context).contains(id) && !named_tracks(context).contains(id) {
        let track: Seq<char> = choose|track: Seq<char>| #[trigger]
            named_tracks(context).contains(track) && artists.contains_key(track) && artists[track].contains(id);
        lemma_names(context, track);
        lemma_anchor_leads_to(edges, anchors, track, id);
        let k: int = choose|k: int| #[trigger]
            anchor_leads_to(edges, anchors, k, id) && anchors[k].anchor_id@ == track;
        assert(names(context, anchors[k].anchor_id@) && anchor_leads_to(edges, anchors, k, id));
    }
}

/// What an edge weighs is what it is offered at.
proof fn lemma_weight(edge: SemanticEdge)
    ensures
        weight(edge) == edge.offered(),
        bounded(edge.identity_confidence) == edge.identity_confidence.unit_clamped(),
{
    lemma_bounded(edge.identity_confidence);
    if let Some(score) = edge.raw_score {
        lemma_bounded(score);
    }
}

/// A number is held to its bounds at the nearer end.
proof fn lemma_bounded(x: Binary64)
    ensures
        bounded(x) == x.unit_clamped(),
{
}

/// The edges that speak for a candidate are those that are about it.
proof fn lemma_relevant(
    edges: Seq<SemanticEdge>,
    anchors: Seq<Anchor>,
    context: ScoreContext,
    candidate: Seq<char>,
    channel: Channel,
    i: int,
)
    ensures
        relevant(edges, anchors, context, candidate, channel.spec_name(), i) <==> (0 <= i < edges.len() && edge_key(
            edges[i],
        ) == Some(RelationKey { source: edges[i].source.id@, candidate, channel }) && consulted(
            artists_by_track(edges, anchors),
            context,
        ).contains(edges[i].source.id@)),
{
    if 0 <= i < edges.len() {
        lemma_feeds(edges[i].source.kind@, channel);
        lemma_reached(edges, anchors, context, edges[i].source.id@);
    }
}

/// What is chosen for a candidate and a channel is what the deciding edge states,
/// and something is chosen exactly where an edge speaks for the candidate.
proof fn lemma_chosen(
    edges: Seq<SemanticEdge>,
    anchors: Seq<Anchor>,
    context: ScoreContext,
    candidate: Seq<char>,
    channel: Channel,
)
    ensures
        ({
            let sources: Seq<Seq<char>> = in_order(consulted(artists_by_track(edges, anchors), context));
            match best(relations(edges), sources, candidate, channel) {
                Some(relation) => guides(
                    edges,
                    anchors,
                    context,
                    candidate,
                    channel.spec_name(),
                    signal_of(candidate, channel, context.scope, relation),
                ),
                None => forall|i: int| !relevant(edges, anchors, context, candidate, channel.spec_name(), i),
            }
        }),
{
    let held: Map<RelationKey, Relation> = relations(edges);
    let counted: Set<Seq<char>> = consulted(artists_by_track(edges, anchors), context);
    let sources: Seq<Seq<char>> = in_order(counted);
    let name: Seq<char> = channel.spec_name();
    law_relations_sound(edges);
    lemma_consulted_finite(edges, anchors, context);
    law_order_exists(counted);
    law_best_wins(held, sources, candidate, channel);
    match best(held, sources, candidate, channel) {
        Some(winner) => {
            let k: int = choose|k: int| wins(held, sources, candidate, channel, winner, k);
            assert(relation_from(held, sources, k, candidate, channel) == Some(winner));
            let key: RelationKey = RelationKey { source: sources[k], candidate, channel };
            assert(held.contains_key(key) && held[key] == winner);
            assert(sound_relation(winner));
            let i: int = lemma_deciding_edge(edges, key);
            assert(sources.to_set().contains(sources[k]));
            assert(edges[i].source.id@ == sources[k]);
            lemma_relevant(edges, anchors, context, candidate, channel, i);
            lemma_weight(edges[i]);
            assert forall|j: int| #[trigger] relevant(edges, anchors, context, candidate, name, j) implies if positive(
                weight(edges[i]),
            ) {
                &&& !weight(edges[j]).is_above(weight(edges[i]))
                &&& weight(edges[j]).is_nan() || weight(edges[i]).is_above(weight(edges[j])) || comes_first(
                    edges,
                    i,
                    j,
                )
            } else {
                !positive(weight(edges[j])) && comes_first(edges, i, j)
            } by {
                lemma_relevant(edges, anchors, context, candidate, channel, j);
                lemma_weight(edges[j]);
                let other: RelationKey = RelationKey { source: edges[j].source.id@, candidate, channel };
                law_strongest_kept(edges, other, j);
                assert(sources.to_set().contains(other.source));
                let place: int = sources.index_of(other.source);
                assert(relation_from(held, sources, place, candidate, channel) == Some(held[other]));
                assert(sound_relation(held[other]));
                if place > k {
                    assert(precedes(sources[k], sources[place]));
                }
                if place == k {
                    assert(other == key);
                }
            }
            assert(decides(edges, anchors, context, candidate, name, i));
            let signal: SignalView = signal_of(candidate, channel, context.scope, winner);
            law_unit_clamped(winner.weight());
            law_unit_clamped(winner.confidence);
            lemma_bounded(winner.weight());
            assert(tells(signal, edges[i]));
        },
        None => {
            assert forall|i: int| !relevant(edges, anchors, context, candidate, name, i) by {
                if relevant(edges, anchors, context, candidate, name, i) {
                    lemma_relevant(edges, anchors, context, candidate, channel, i);
                    let key: RelationKey = RelationKey { source: edges[i].source.id@, candidate, channel };
                    law_relations_stated(edges, key);
                    assert(sources.to_set().contains(key.source));
                    let place: int = sources.index_of(key.source);
                    assert(relation_from(held, sources, place, candidate, channel) is Some);
                }
            }
        },
    }
}

/// What is held of a relation is decided by one of the edges about it.
proof fn lemma_deciding_edge(edges: Seq<SemanticEdge>, key: RelationKey) -> (i: int)
    requires
        relations(edges).contains_key(key),
    ensures
        0 <= i < edges.len(),
        edge_key(edges[i]) == Some(key),
        positive(edges[i].offered()) ==> leads(edges, key, i) && relations(edges)[key] == Relation::stated(edges[i]),
        !positive(edges[i].offered()) ==> {
            &&& relations(edges)[key] == Relation::weightless(edges[i])
            &&& relations(edges)[key].weight() == Binary64::spec_zero()
            &&& forall|j: int| 0 <= j < edges.len() && edge_key(#[trigger] edges[j]) == Some(key) ==> i <= j
        },
{
    if exists|k: int|
        0 <= k < edges.len() && edge_key(#[trigger] edges[k]) == Some(key) && edges[k].offered().is_above(
            Binary64::spec_zero(),
        ) {
        let k: int = choose|k: int|
            0 <= k < edges.len() && edge_key(#[trigger] edges[k]) == Some(key) && edges[k].offered().is_above(
                Binary64::spec_zero(),
            );
        law_some_edge_leads(edges, key, k);
        let i: int = choose|i: int| leads(edges, key, i);
        law_earliest_strongest_held(edges, key, i);
        i
    } else {
        law_relations_stated(edges, key);
        let some: int = choose|i: int| 0 <= i < edges.len() && edge_key(#[trigger] edges[i]) == Some(key);
        let i: int = lemma_first_about(edges, key, some);
        law_weightless_held(edges, key, i);
        lemma_weightless_weight(edges[i]);
        i
    }
}

/// One of the edges about a relation is the first.
proof fn lemma_first_about(edges: Seq<SemanticEdge>, key: RelationKey, some: int) -> (i: int)
    requires
        0 <= some < edges.len(),
        edge_key(edges[some]) == Some(key),
    ensures
        0 <= i < edges.len(),
        edge_key(edges[i]) == Some(key),
        forall|j: int| 0 <= j < i ==> edge_key(#[trigger] edges[j]) != Some(key),
    decreases some,
{
    if exists|j: int| 0 <= j < some && edge_key(#[trigger] edges[j]) == Some(key) {
        let j: int = choose|j: int| 0 <= j < some && edge_key(#[trigger] edges[j]) == Some(key);
        lemma_first_about(edges, key, j)
    } else {
        some
    }
}

/// Signals come from candidates and channels in order.
proof fn lemma_explained(
    edges: Seq<SemanticEdge>,
    anchors: Seq<Anchor>,
    context: ScoreContext,
    candidates: Seq<Candidate>,
) -> (origins: Seq<(int, Seq<char>)>)
    ensures
        explains(
            edges,
            anchors,
            context,
            candidates,
            signals_for(
                relations(edges),
                in_order(consulted(artists_by_track(edges, anchors), context)),
                candidates,
                context.scope,
            ),
            origins,
        ),
    decreases candidates.len(),
{
    let held: Map<RelationKey, Relation> = relations(edges);
    let sources: Seq<Seq<char>> = in_order(consulted(artists_by_track(edges, anchors), context));
    let signals: Seq<SignalView> = signals_for(held, sources, candidates, context.scope);
    if candidates.len() == 0 {
        Seq::empty()
    } else {
        let rest: Seq<Candidate> = candidates.drop_last();
        let last: int = candidates.len() - 1;
        let candidate: Seq<char> = candidates.last().candidate_id@;
        let earlier: Seq<SignalView> = signals_for(held, sources, rest, context.scope);
        let before: Seq<(int, Seq<char>)> = lemma_explained(edges, anchors, context, rest);
        assert(candidates[last].candidate_id@ == candidate);
        assert(forall|m: int| 0 <= m < rest.len() ==> #[trigger] rest[m] == candidates[m]);
        lemma_chosen(edges, anchors, context, candidate, Channel::Artist);
        lemma_chosen(edges, anchors, context, candidate, Channel::Track);
        let artist: Seq<(int, Seq<char>)> = if best(held, sources, candidate, Channel::Artist) is Some {
            seq![(last, "lastfm_artist"@)]
        } else {
            seq![]
        };
        let track: Seq<(int, Seq<char>)> = if best(held, sources, candidate, Channel::Track) is Some {
            seq![(last, "lastfm_track"@)]
        } else {
            seq![]
        };
        let origins: Seq<(int, Seq<char>)> = before + artist + track;
        assert(signals =~= earlier + channel_signals(held, sources, candidate, Channel::Artist, context.scope)
            + channel_signals(held, sources, candidate, Channel::Track, context.scope));
        assert forall|n: int| 0 <= n < signals.len() implies 0 <= (#[trigger] origins[n]).0 < candidates.len() && guides(
            edges,
            anchors,
            context,
            candidates[origins[n].0].candidate_id@,
            origins[n].1,
            signals[n],
        ) by {
            if n < before.len() {
                assert(origins[n] == before[n]);
                assert(signals[n] == earlier[n]);
            }
        }
        assert forall|a: int, b: int| 0 <= a < b < origins.len() implies (#[trigger] origins[a]).0 < (
        #[trigger] origins[b]).0 || (origins[a].0 == origins[b].0 && origins[a].1 == "lastfm_artist"@ && origins[b].1
            == "lastfm_track"@) by {
            if a < before.len() {
                assert(origins[a] == before[a]);
            }
            if b < before.len() {
                assert(origins[b] == before[b]);
            }
        }
        assert forall|m: int, channel: Seq<char>, i: int|
            0 <= m < candidates.len() && #[trigger] relevant(
                edges,
                anchors,
                context,
                candidates[m].candidate_id@,
                channel,
                i,
            ) implies origins.contains((m, channel)) by {
            if m < last {
                assert(relevant(edges, anchors, context, rest[m].candidate_id@, channel, i));
                assert(before.contains((m, channel)));
                let n: int = before.index_of((m, channel));
                assert(origins[n] == (m, channel));
            } else {
                let fed: Channel = lemma_fed_channel(edges[i].source.kind@, channel);
                match fed {
                    Channel::Artist => {
                        assert(origins[before.len() as int] == (m, channel));
                    },
                    Channel::Track => {
                        assert(origins[(before + artist).len() as int] == (m, channel));
                    },
                }
            }
        }
        origins
    }
}

/// The diagnostics of a request that went well.
pub open spec fn went_well(diagnostics: DiagnosticsView, details: DetailsView) -> bool {
    &&& diagnostics.state == Some("fresh"@)
    &&& diagnostics.request_count == 1
    &&& diagnostics.failure_count == 0
    &&& diagnostics.details == Some(details)
}

/// What a provider that has taken in edges and anchors answers to a request for
/// scores is told by the edges, the anchors and the request: for each candidate and
/// channel for which an edge speaks there is one signal, and it says what the
/// deciding edge states.
pub proof fn law_guidance_follows_evidence(
    digest: Seq<char>,
    edges: Seq<SemanticEdge>,
    anchors: Seq<Anchor>,
    request_id: Seq<char>,
    context: ScoreContext,
    candidates: Seq<Candidate>,
) -> (origins: Seq<(int, Seq<char>)>)
    ensures
        ({
            let response: ResponseView = score_response(
                prepared_with(digest, edges, anchors),
                request_id,
                context,
                candidates,
            );
            &&& response is Scores
            &&& response->Scores_provider_id == "lastfm-guidance"@
            &&& response->request_id == request_id
            &&& explains(edges, anchors, context, candidates, response->signals, origins)
            &&& went_well(
                response->Scores_diagnostics,
                DetailsView::Scored { matched_candidates: response->signals.len() },
            )
        }),
{
    lemma_explained(edges, anchors, context, candidates)
}

/// Whatever the scope, an edge gives a signal for its candidate through its channel
/// where its source is among the tracks of the context, or is its left or its right
/// anchor.
pub proof fn law_every_named_source_guides(
    digest: Seq<char>,
    edges: Seq<SemanticEdge>,
    anchors: Seq<Anchor>,
    request_id: Seq<char>,
    context: ScoreContext,
    candidates: Seq<Candidate>,
    i: int,
    m: int,
    channel: Seq<char>,
)
    requires
        0 <= i < edges.len(),
        0 <= m < candidates.len(),
        edges[i].resolved_candidate_id matches Some(resolved) && resolved@ == candidates[m].candidate_id@,
        feeds(edges[i].source.kind@, channel),
        ({
            ||| exists|t: int|
                0 <= t < context.context_track_ids@.len() && (#[trigger] context.context_track_ids@[t])@
                    == edges[i].source.id@
            ||| context.left_anchor_id matches Some(left) && left@ == edges[i].source.id@
            ||| context.right_anchor_id matches Some(right) && right@ == edges[i].source.id@
        }),
    ensures
        ({
            let response: ResponseView = score_response(
                prepared_with(digest, edges, anchors),
                request_id,
                context,
                candidates,
            );
            &&& response is Scores
            &&& exists|n: int|
                0 <= n < response->signals.len() && (#[trigger] response->signals[n]).candidate_id
                    == candidates[m].candidate_id@ && response->signals[n].channel == channel
        }),
{
    let origins: Seq<(int, Seq<char>)> = law_guidance_follows_evidence(
        digest,
        edges,
        anchors,
        request_id,
        context,
        candidates,
    );
    assert(relevant(edges, anchors, context, candidates[m].candidate_id@, channel, i));
    let n: int = origins.index_of((m, channel));
    let signals: Seq<SignalView> = score_response(
        prepared_with(digest, edges, anchors),
        request_id,
        context,
        candidates,
    )->signals;
    assert(origins[n] == (m, channel));
    assert(signals[n].candidate_id == candidates[m].candidate_id@);
}

/// The score and the confidence of a signal belong together: they are the weight and
/// the identity confidence, each held to its bounds, of one edge that is resolved to
/// the signal's candidate, feeds its channel and comes from a source that counts.
/// Both are zero where no such edge weighs more than zero.
pub proof fn law_signal_reports_one_edge(
    digest: Seq<char>,
    edges: Seq<SemanticEdge>,
    anchors: Seq<Anchor>,
    request_id: Seq<char>,
    context: ScoreContext,
    candidates: Seq<Candidate>,
    n: int,
) -> (i: int)
    requires
        0 <= n < score_response(
            prepared_with(digest, edges, anchors),
            request_id,
            context,
            candidates,
        )->signals.len(),
    ensures
        ({
            let signal: SignalView = score_response(
                prepared_with(digest, edges, anchors),
                request_id,
                context,
                candidates,
            )->signals[n];
            &&& 0 <= i < edges.len()
            &&& edges[i].resolved_candidate_id matches Some(resolved)
            &&& resolved@ == signal.candidate_id
            &&& feeds(edges[i].source.kind@, signal.channel)
            &&& reached(edges, anchors, context, edges[i].source.id@)
            &&& signal.rationale == Some("Last.fm similar "@ + edges[i].source.kind@)
            &&& if positive(weight(edges[i])) {
                &&& signal.score == bounded(weight(edges[i]))
                &&& signal.confidence == bounded(edges[i].identity_confidence)
            } else {
                &&& signal.score == Binary64 { bits: 0 }
                &&& signal.confidence == Binary64 { bits: 0 }
                &&& forall|j: int| #[trigger]
                    relevant(edges, anchors, context, signal.candidate_id, signal.channel, j) ==> !positive(
                        weight(edges[j]),
                    )
            }
        }),
{
    let origins: Seq<(int, Seq<char>)> = law_guidance_follows_evidence(
        digest,
        edges,
        anchors,
        request_id,
        context,
        candidates,
    );
    let signal: SignalView = score_response(
        prepared_with(digest, edges, anchors),
        request_id,
        context,
        candidates,
    )->signals[n];
    let origin: (int, Seq<char>) = origins[n];
    choose|i: int| #[trigger]
        decides(edges, anchors, context, candidates[origin.0].candidate_id@, origin.1, i) && tells(signal, edges[i])
}

/// A score is what counts, whatever the rank: edges with one score and one
/// confidence weigh the same.
pub proof fn law_score_overrules_rank(a: SemanticEdge, b: SemanticEdge)
    requires
        a.raw_score is Some,
        a.raw_score == b.raw_score,
        a.identity_confidence == b.identity_confidence,
    ensures
        a.spec_score() == bounded(a.raw_score->0),
        a.spec_score() == b.spec_score(),
        a.offered() == b.offered(),
{
    lemma_bounded(a.raw_score->0);
}

/// A rank stands in for a score that is missing; without both there is no strength.
pub proof fn law_rank_stands_in(edge: SemanticEdge, other: nat)
    requires
        edge.raw_score is None,
    ensures
        match edge.raw_rank {
            Some(rank) => if rank == 0 {
                edge.spec_score() == Binary64 { bits: INFINITE }
            } else {
                &&& !edge.spec_score().negative()
                &&& distance(edge.spec_score().magnitude(), pow2(1074), rank as nat) <= distance(
                    other,
                    pow2(1074),
                    rank as nat,
                )
            },
            None => edge.spec_score() == Binary64 { bits: 0 },
        },
{
    if edge.raw_rank is Some && edge.raw_rank->0 > 0 {
        law_reciprocal_is_nearest(edge.raw_rank->0, other);
    }
}

/// What is held does not depend on the ranks of edges that have a score.
pub proof fn law_ranks_of_scored_edges_do_not_matter(a: Seq<SemanticEdge>, b: Seq<SemanticEdge>)
    requires
        a.len() == b.len(),
        forall|i: int|
            0 <= i < a.len() ==> (#[trigger] a[i]) == (SemanticEdge { raw_rank: a[i].raw_rank, ..b[i] }) && (
            a[i].raw_score is Some || a[i].raw_rank == b[i].raw_rank),
    ensures
        relations(a) == relations(b),
    decreases a.len(),
{
    if a.len() > 0 {
        let last: int = a.len() - 1;
        let x: Seq<SemanticEdge> = a.drop_last();
        let y: Seq<SemanticEdge> = b.drop_last();
        assert(a[last] == a.last() && b[last] == b.last());
        assert forall|i: int| 0 <= i < x.len() implies (#[trigger] x[i]) == (SemanticEdge {
            raw_rank: x[i].raw_rank,
            ..y[i]
        }) && (x[i].raw_score is Some || x[i].raw_rank == y[i].raw_rank) by {
            assert(x[i] == a[i] && y[i] == b[i]);
        }
        law_ranks_of_scored_edges_do_not_matter(x, y);
        if a.last().raw_score is Some {
            law_score_overrules_rank(a.last(), b.last());
        }
    }
}

/// An answer of the provider that something failed.
pub open spec fn refusal(code: Seq<char>, message: Seq<char>, retryable: bool) -> ResponseView {
    ResponseView::Error { provider_id: Some("lastfm-guidance"@), code, message, retryable }
}

/// Failures are reported in the provider's name, as they are.
pub proof fn law_failures_are_reported(code: Seq<char>, message: Seq<char>, retryable: bool)
    ensures
        failure_view(code, message, retryable) == refusal(code, message, retryable),
{
}

/// The manifest lists the channel with the scope.
pub open spec fn offers(manifest: ManifestView, channel: Channel, scope: GuidanceScope) -> bool {
    exists|d: int|
        0 <= d < manifest.channels.len() && (#[trigger] manifest.channels[d]).channel == channel.spec_name()
            && manifest.channels[d].scopes.contains(scope)
}

/// The manifest says what the provider does: which build it is, that it guides both
/// edges and whole routes, and through which channels and in which scopes.
pub open spec fn describes(manifest: ManifestView, edition: Edition) -> bool {
    &&& manifest.spi_version == edition.spi_version
    &&& manifest.provider_id == "lastfm-guidance"@
    &&& manifest.provider_version == edition.provider_version@
    &&& manifest.protocol == edition.protocol@
    &&& manifest.capabilities.len() == 2
    &&& manifest.capabilities[0] == Capability::GlobalCandidateGuidance
    &&& forall|capability: Capability| manifest.capabilities.contains(capability)
    &&& manifest.channels.len() == 2
    &&& manifest.channels[0].channel == "lastfm_track"@
    &&& forall|channel: Channel, scope: GuidanceScope| offers(manifest, channel, scope)
    &&& forall|d: int|
        0 <= d < manifest.channels.len() ==> (#[trigger] manifest.channels[d]).scopes.len() == 2
            && manifest.channels[d].scopes[0] == GuidanceScope::Edge
    &&& manifest.required_context == seq!["candidate_identity"@, "route_context"@]
    &&& manifest.configuration_schema == Some(SchemaView { value_type: "object"@, additional_properties: false })
}

/// Every channel through which guidance is given is listed with every scope in which
/// it can be asked for.
pub proof fn law_manifest_lists_every_channel(edition: Edition, channel: Channel, scope: GuidanceScope)
    ensures
        offers(manifest_view(edition), channel, scope),
{
    let place: int = match channel {
        Channel::Track => 0,
        Channel::Artist => 1,
    };
    let scopes: Seq<GuidanceScope> = manifest_view(edition).channels[place].scopes;
    assert(manifest_view(edition).channels[place].channel == channel.spec_name());
    match scope {
        GuidanceScope::Edge => {
            assert(scopes[0] == scope);
        },
        GuidanceScope::Global => {
            assert(scopes[1] == scope);
        },
    }
}

/// The manifest describes the provider.
pub proof fn law_manifest_describes(edition: Edition)
    ensures
        describes(manifest_view(edition), edition),
{
    let manifest: ManifestView = manifest_view(edition);
    assert forall|capability: Capability| manifest.capabilities.contains(capability) by {
        match capability {
            Capability::GlobalCandidateGuidance => {
                assert(manifest.capabilities[0] == capability);
            },
            Capability::EdgeCandidateGuidance => {
                assert(manifest.capabilities[1] == capability);
            },
        }
    }
    assert forall|channel: Channel, scope: GuidanceScope| offers(manifest, channel, scope) by {
        law_manifest_lists_every_channel(edition, channel, scope);
    }
}

} // verus!
