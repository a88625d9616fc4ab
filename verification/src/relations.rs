//! The strongest known relation of each source to each candidate.
use crate::binary64::Binary64;
use crate::evidence::{Channel, SemanticEdge};
use crate::names::NameMap;
use vstd::prelude::*;

verus! {

/// What a relation is about.
pub struct RelationKey {
    pub source: Seq<char>,
    pub candidate: Seq<char>,
    pub channel: Channel,
}

/// A relation, in terms of text.
#[verifier::ext_equal]
pub struct Relation {
    pub score: Binary64,
    pub confidence: Binary64,
    pub kind: Seq<char>,
    pub observed_at: Option<Seq<char>>,
}

impl Relation {
    /// What the relation weighs where it is held.
    pub open spec fn weight(self) -> Binary64 {
        self.score.product(self.confidence)
    }

    /// A relation that weighs nothing, with the provenance of an edge.
    pub open spec fn weightless(edge: SemanticEdge) -> Relation {
        Relation {
            score: Binary64::spec_zero(),
            confidence: Binary64::spec_zero(),
            kind: edge.source.kind@,
            observed_at: edge.observed_at.deep_view(),
        }
    }

    /// The relation that an edge states.
    pub open spec fn stated(edge: SemanticEdge) -> Relation {
        Relation {
            score: edge.spec_score(),
            confidence: edge.identity_confidence.unit_clamped(),
            kind: edge.source.kind@,
            observed_at: edge.observed_at.deep_view(),
        }
    }

    /// What is held after an edge: the edge's relation where the edge outweighs
    /// what was held, else what was held.
    pub open spec fn strengthened(held: Option<Relation>, edge: SemanticEdge) -> Relation {
        let current: Relation = match held {
            Some(relation) => relation,
            None => Relation::weightless(edge),
        };
        if edge.offered().is_above(current.weight()) {
            Relation::stated(edge)
        } else {
            current
        }
    }
}

/// What an edge is about. An edge of another kind, or one that is not resolved,
/// is about nothing.
pub open spec fn edge_key(edge: SemanticEdge) -> Option<RelationKey> {
    match (Channel::spec_of(edge.source.kind@), edge.resolved_candidate_id) {
        (Some(channel), Some(candidate)) => Some(
            RelationKey { source: edge.source.id@, candidate: candidate@, channel },
        ),
        _ => None,
    }
}

/// The value that a map holds for a key, where it holds one.
pub open spec fn lookup<K, V>(map: Map<K, V>, key: K) -> Option<V> {
    if map.contains_key(key) {
        Some(map[key])
    } else {
        None
    }
}

/// The relations after one more edge.
pub open spec fn with_edge(held: Map<RelationKey, Relation>, edge: SemanticEdge) -> Map<RelationKey, Relation> {
    match edge_key(edge) {
        Some(key) => held.insert(key, Relation::strengthened(lookup(held, key), edge)),
        None => held,
    }
}

/// The relations that edges leave, taken in their order.
pub open spec fn relations(edges: Seq<SemanticEdge>) -> Map<RelationKey, Relation>
    decreases edges.len(),
{
    if edges.len() == 0 {
        Map::empty()
    } else {
        with_edge(relations(edges.drop_last()), edges.last())
    }
}

/// The sources that have a relation.
pub open spec fn related_sources(held: Map<RelationKey, Relation>) -> Set<Seq<char>> {
    held.dom().map(|key: RelationKey| key.source)
}

/// The strongest relation of one source to one candidate through one channel.
pub struct EdgeScore {
    pub score: Binary64,
    pub confidence: Binary64,
    pub kind: String,
    pub observed_at: Option<String>,
}

impl View for EdgeScore {
    type V = Relation;

    open spec fn view(&self) -> Relation {
        Relation {
            score: self.score,
            confidence: self.confidence,
            kind: self.kind@,
            observed_at: self.observed_at.deep_view(),
        }
    }
}

/// The relations of one source to one candidate, one for each channel.
pub struct ChannelScores {
    pub artist: Option<EdgeScore>,
    pub track: Option<EdgeScore>,
}

/// A copy of a text that may be missing.
pub fn copy_text(text: &Option<String>) -> (copy: Option<String>)
    ensures
        copy.deep_view() == text.deep_view(),
{
    match text {
        Some(text) => Some(text.clone()),
        None => None,
    }
}

impl ChannelScores {
    pub open spec fn spec_get(self, channel: Channel) -> Option<Relation> {
        match channel {
            Channel::Artist => match self.artist {
                Some(score) => Some(score@),
                None => None,
            },
            Channel::Track => match self.track {
                Some(score) => Some(score@),
                None => None,
            },
        }
    }

    /// The relation through one channel.
    pub fn get(&self, channel: Channel) -> (score: Option<&EdgeScore>)
        ensures
            score matches Some(score) ==> self.spec_get(channel) == Some(score@),
            score is None ==> self.spec_get(channel) is None,
    {
        match channel {
            Channel::Artist => self.artist.as_ref(),
            Channel::Track => self.track.as_ref(),
        }
    }

    /// Takes an edge into account.
    fn record(&mut self, channel: Channel, edge: &SemanticEdge) -> (fresh: bool)
        ensures
            fresh == (old(self).spec_get(channel) is None),
            final(self).spec_get(channel) == Some(
                Relation::strengthened(old(self).spec_get(channel), *edge),
            ),
            forall|other: Channel| other != channel ==> final(self).spec_get(other) == old(self).spec_get(other),
    {
        let slot: &mut Option<EdgeScore> = match channel {
            Channel::Artist => &mut self.artist,
            Channel::Track => &mut self.track,
        };
        strengthen(slot, edge)
    }
}

/// Takes an edge into account; says whether nothing was held before.
fn strengthen(slot: &mut Option<EdgeScore>, edge: &SemanticEdge) -> (fresh: bool)
    ensures
        fresh == (*old(slot) is None),
        *final(slot) matches Some(score) && score@ == Relation::strengthened(
            match *old(slot) {
                Some(held) => Some(held@),
                None => None,
            },
            *edge,
        ),
{
    let score: Binary64 = edge.score();
    let confidence: Binary64 = edge.identity_confidence.clamp_to_unit();
    let offered: Binary64 = score.times(confidence);
    let (fresh, weight): (bool, Binary64) = match slot.as_ref() {
        Some(held) => (false, held.score.times(held.confidence)),
        None => (true, Binary64::zero().times(Binary64::zero())),
    };
    if offered.exceeds(weight) {
        *slot = Some(
            EdgeScore {
                score,
                confidence,
                kind: edge.source.kind.clone(),
                observed_at: copy_text(&edge.observed_at),
            },
        );
    } else if fresh {
        *slot = Some(
            EdgeScore {
                score: Binary64::zero(),
                confidence: Binary64::zero(),
                kind: edge.source.kind.clone(),
                observed_at: copy_text(&edge.observed_at),
            },
        );
    }
    fresh
}

/// The strongest relation for each source, candidate and channel.
pub struct RelationTable {
    sources: NameMap<NameMap<ChannelScores>>,
    count: usize,
}

impl View for RelationTable {
    type V = Map<RelationKey, Relation>;

    closed spec fn view(&self) -> Map<RelationKey, Relation> {
        Map::new(
            |key: RelationKey| self.held(key.source, key.candidate, key.channel) is Some,
            |key: RelationKey| self.held(key.source, key.candidate, key.channel)->0,
        )
    }
}

impl RelationTable {
    spec fn held(self, source: Seq<char>, candidate: Seq<char>, channel: Channel) -> Option<Relation> {
        if self.sources@.contains_key(source) && self.sources@[source]@.contains_key(candidate) {
            self.sources@[source]@[candidate].spec_get(channel)
        } else {
            None
        }
    }

    /// The names are in order, and the counts are those of the relations held.
    pub closed spec fn wf(self) -> bool {
        &&& self.sources.wf()
        &&& forall|source: Seq<char>| #[trigger]
            self.sources@.contains_key(source) ==> self.sources@[source].wf()
        &&& self.sources@.dom() == related_sources(self@)
        &&& self@.dom().finite()
        &&& self.count == self@.dom().len()
    }

    /// A table without relations.
    pub fn new() -> (table: RelationTable)
        ensures
            table.wf(),
            table@ == Map::<RelationKey, Relation>::empty(),
    {
        let table: RelationTable = RelationTable { sources: NameMap::new(), count: 0 };
        assert(table@ =~= Map::<RelationKey, Relation>::empty());
        assert(table.sources@.dom() =~= related_sources(table@));
        table
    }

    /// How many relations are held.
    pub fn len(&self) -> (len: usize)
        requires
            self.wf(),
        ensures
            len == self@.dom().len(),
    {
        self.count
    }

    /// How many sources have a relation.
    pub fn source_count(&self) -> (count: usize)
        requires
            self.wf(),
        ensures
            count == related_sources(self@).len(),
    {
        self.sources.len()
    }

    /// The relation of a source to a candidate through one channel.
    pub fn get(&self, source: &str, candidate: &str, channel: Channel) -> (score: Option<&EdgeScore>)
        requires
            self.wf(),
        ensures
            score matches Some(score) ==> lookup(
                self@,
                RelationKey { source: source@, candidate: candidate@, channel },
            ) == Some(score@),
            score is None ==> !self@.contains_key(
                RelationKey { source: source@, candidate: candidate@, channel },
            ),
    {
        match self.sources.get(source) {
            Some(candidates) => match candidates.get(candidate) {
                Some(scores) => scores.get(channel),
                None => None,
            },
            None => None,
        }
    }

    /// Takes an edge into account.
    pub fn record(&mut self, edge: &SemanticEdge)
        requires
            old(self).wf(),
            old(self)@.dom().len() < usize::MAX,
        ensures
            final(self).wf(),
            final(self)@ == with_edge(old(self)@, *edge),
    {
        let channel: Channel = match Channel::of_kind(edge.source.kind.as_str()) {
            Some(channel) => channel,
            None => {
                return;
            },
        };
        let candidate: &String = match &edge.resolved_candidate_id {
            Some(candidate) => candidate,
            None => {
                return;
            },
        };
        let ghost before: RelationTable = *self;
        let candidates: &mut NameMap<ChannelScores> = self.sources.slot(edge.source.id.as_str(), NameMap::new());
        let scores: &mut ChannelScores = candidates.slot(
            candidate.as_str(),
            ChannelScores { artist: None, track: None },
        );
        let fresh: bool = scores.record(channel, edge);
        if fresh {
            self.count = self.count + 1;
        }
        proof {
            let key: RelationKey = RelationKey { source: edge.source.id@, candidate: candidate@, channel };
            let expected: Map<RelationKey, Relation> = with_edge(before@, *edge);
            assert forall|other: RelationKey|
                self.held(other.source, other.candidate, other.channel) == lookup(expected, other) by {
                assert(before.held(other.source, other.candidate, other.channel) == lookup(before@, other));
            }
            assert(self@ =~= expected);
            assert(self.sources@.dom() =~= related_sources(self@)) by {
                assert forall|source: Seq<char>| related_sources(self@).contains(source) <==> self.sources@.dom().contains(
                    source,
                ) by {
                    let pick = |k: RelationKey| k.source;
                    if related_sources(self@).contains(source) {
                        let other: RelationKey = choose|other: RelationKey| #[trigger]
                            self@.dom().contains(other) && pick(other) == source;
                        assert(other == key || before@.contains_key(other));
                        if other != key {
                            assert(related_sources(before@).contains(source));
                        }
                    }
                    if self.sources@.dom().contains(source) {
                        if source == key.source {
                            assert(self@.dom().contains(key));
                        } else {
                            assert(related_sources(before@).contains(source));
                            let other: RelationKey = choose|other: RelationKey| #[trigger]
                                before@.dom().contains(other) && pick(other) == source;
                            assert(self@.dom().contains(other));
                        }
                    }
                }
            }
        }
    }
}

} // verus!
