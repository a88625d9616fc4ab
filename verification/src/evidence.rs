//! Semantic evidence: what an artifact says of similar recordings and artists.
use crate::binary64::Binary64;
use crate::names::same_name;
use crate::text::{ascii_lowercase, normalized};
use vstd::prelude::*;

verus! {

/// The contents of a `resolved-lastfm-evidence-v1` artifact.
#[derive(Debug)]
pub struct SemanticArtifact {
    pub schema_version: u8,
    pub edges: Vec<SemanticEdge>,
}

/// What an edge starts from: a recording, a track or an artist.
#[derive(Debug)]
pub struct SemanticEntity {
    pub kind: String,
    pub id: String,
    pub mbid: Option<String>,
    pub name: Option<String>,
}

/// One observation that a source is similar to something else.
///
/// An edge is resolved where the other side is a candidate of the local library.
#[derive(Debug)]
pub struct SemanticEdge {
    pub source: SemanticEntity,
    pub resolved_candidate_id: Option<String>,
    pub raw_rank: Option<u32>,
    pub raw_score: Option<Binary64>,
    pub identity_confidence: Binary64,
    pub observed_at: Option<String>,
}

/// The confidence in an edge that states none.
pub fn default_confidence() -> (confidence: Binary64)
    ensures
        confidence == Binary64::spec_one(),
{
    Binary64::one()
}

/// The guidance channel that an edge feeds.
#[derive(Clone, Copy, Debug, PartialEq, Eq, Structural)]
pub enum Channel {
    Artist,
    Track,
}

impl Channel {
    /// The name under which the optimizer knows the channel.
    pub open spec fn spec_name(self) -> Seq<char> {
        match self {
            Channel::Artist => "lastfm_artist"@,
            Channel::Track => "lastfm_track"@,
        }
    }

    /// The channel that a kind of source feeds, where it feeds one.
    ///
    /// Recordings and tracks are the same thing under two names; the second one
    /// is found in older artifacts.
    pub open spec fn spec_of(kind: Seq<char>) -> Option<Channel> {
        if kind == "recording"@ || kind == "track"@ {
            Some(Channel::Track)
        } else if kind == "artist"@ {
            Some(Channel::Artist)
        } else {
            None
        }
    }

    pub fn name(self) -> (name: &'static str)
        ensures
            name@ == self.spec_name(),
    {
        match self {
            Channel::Artist => "lastfm_artist",
            Channel::Track => "lastfm_track",
        }
    }

    pub fn of_kind(kind: &str) -> (channel: Option<Channel>)
        ensures
            channel == Channel::spec_of(kind@),
    {
        if same_name(kind, "recording") || same_name(kind, "track") {
            Some(Channel::Track)
        } else if same_name(kind, "artist") {
            Some(Channel::Artist)
        } else {
            None
        }
    }
}

impl SemanticEdge {
    /// The strength of an edge: its score, held to the unit interval, else the
    /// reciprocal of its rank, else zero.
    pub open spec fn spec_score(self) -> Binary64 {
        match (self.raw_score, self.raw_rank) {
            (Some(score), _) => score.unit_clamped(),
            (None, Some(rank)) => Binary64::spec_reciprocal(rank),
            (None, None) => Binary64::spec_zero(),
        }
    }

    /// What the edge weighs: its strength times its confidence, both held to
    /// their bounds.
    pub open spec fn offered(self) -> Binary64 {
        self.spec_score().product(self.identity_confidence.unit_clamped())
    }

    /// The edge is an artist's, with this MusicBrainz ID in small letters.
    pub open spec fn lists_mbid(self, key: Seq<char>) -> bool {
        &&& self.source.kind@ == "artist"@
        &&& self.source.mbid matches Some(mbid)
        &&& ascii_lowercase(mbid@) == key
    }

    /// The edge is an artist's, with this name in normal form.
    pub open spec fn lists_name(self, key: Seq<char>) -> bool {
        &&& self.source.kind@ == "artist"@
        &&& self.source.name matches Some(name)
        &&& normalized(name@) == key
    }

    /// Computes the strength of an edge.
    pub fn score(&self) -> (score: Binary64)
        ensures
            score == self.spec_score(),
    {
        match self.raw_score {
            Some(score) => score.clamp_to_unit(),
            None => match self.raw_rank {
                Some(rank) => Binary64::reciprocal(rank),
                None => Binary64::zero(),
            },
        }
    }
}

} // verus!
