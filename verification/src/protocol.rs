//! What the optimizer and a guidance provider say to each other.
//!
//! These types hold of each message what guidance depends on. Each message of
//! the provider has a view in terms of text and whole numbers.
use crate::binary64::Binary64;
use vstd::prelude::*;

verus! {

/// Whether guidance is asked for one route edge or for the whole route.
#[derive(Clone, Copy, Debug, PartialEq, Eq, Structural)]
pub enum GuidanceScope {
    Edge,
    Global,
}

/// What a provider offers.
#[derive(Clone, Copy, Debug, PartialEq, Eq, Structural)]
pub enum Capability {
    GlobalCandidateGuidance,
    EdgeCandidateGuidance,
}

/// A file that the host has prepared for the provider.
#[derive(Debug)]
pub struct ArtifactDescriptor {
    pub kind: String,
    pub path: String,
    pub sha256: String,
}

/// A track of the local library.
#[derive(Debug)]
pub struct Candidate {
    pub candidate_id: String,
    pub artist: Option<String>,
    pub artist_mbids: Vec<String>,
}

/// A track that the route passes through.
#[derive(Debug)]
pub struct Anchor {
    pub anchor_id: String,
    pub track: Candidate,
}

/// Where on the route guidance is asked for.
#[derive(Debug)]
pub struct ScoreContext {
    pub scope: GuidanceScope,
    pub left_anchor_id: Option<String>,
    pub right_anchor_id: Option<String>,
    pub context_track_ids: Vec<String>,
}

/// A request of the optimizer.
#[derive(Debug)]
pub enum GuidanceRequest {
    Describe { spi_version: u32 },
    Prepare {
        spi_version: u32,
        artifacts: Vec<ArtifactDescriptor>,
        anchors: Vec<Anchor>,
        artifact_path: Option<String>,
    },
    Score { spi_version: u32, request_id: String, context: ScoreContext, candidates: Vec<Candidate> },
    Close,
}

/// A channel and the scopes in which it gives guidance.
#[derive(Debug, PartialEq, Eq)]
pub struct ChannelDescriptor {
    pub channel: String,
    pub scopes: Vec<GuidanceScope>,
}

/// The options that a provider takes, as a JSON schema of this form.
#[derive(Debug, PartialEq, Eq)]
pub struct ConfigurationSchema {
    pub value_type: String,
    pub additional_properties: bool,
}

/// What a provider says of itself.
#[derive(Debug, PartialEq, Eq)]
pub struct Manifest {
    pub spi_version: u32,
    pub provider_id: String,
    pub provider_version: String,
    pub protocol: String,
    pub capabilities: Vec<Capability>,
    pub channels: Vec<ChannelDescriptor>,
    pub required_context: Vec<String>,
    pub configuration_schema: Option<ConfigurationSchema>,
}

/// Counts that accompany a response.
#[derive(Clone, Copy, Debug, PartialEq, Eq, Structural)]
pub enum Details {
    Prepared { source_entities: usize, track_artist_mappings: usize, resolved_candidate_edges: usize },
    Scored { matched_candidates: usize },
}

/// How a request went.
#[derive(Debug, PartialEq, Eq)]
pub struct Diagnostics {
    pub state: Option<String>,
    pub request_count: u32,
    pub failure_count: u32,
    pub details: Option<Details>,
}

/// Guidance for one candidate through one channel.
#[derive(Debug, PartialEq, Eq)]
pub struct GuidanceSignal {
    pub candidate_id: String,
    pub channel: String,
    pub scope: GuidanceScope,
    pub score: Binary64,
    pub confidence: Binary64,
    pub rationale: Option<String>,
    pub observed_at: Option<String>,
}

/// A response of the provider.
#[allow(inconsistent_fields)]
#[derive(Debug, PartialEq, Eq)]
pub enum GuidanceResponse {
    Manifest(Manifest),
    Prepared { provider_id: String, snapshot_id: Option<String>, diagnostics: Diagnostics },
    Scores { provider_id: String, request_id: String, signals: Vec<GuidanceSignal>, diagnostics: Diagnostics },
    Error { provider_id: Option<String>, code: String, message: String, retryable: bool },
    Closed { provider_id: String },
}

#[verifier::ext_equal]
pub struct ChannelView {
    pub channel: Seq<char>,
    pub scopes: Seq<GuidanceScope>,
}

impl View for ChannelDescriptor {
    type V = ChannelView;

    open spec fn view(&self) -> ChannelView {
        ChannelView { channel: self.channel@, scopes: self.scopes@ }
    }
}

#[verifier::ext_equal]
pub struct SchemaView {
    pub value_type: Seq<char>,
    pub additional_properties: bool,
}

impl View for ConfigurationSchema {
    type V = SchemaView;

    open spec fn view(&self) -> SchemaView {
        SchemaView { value_type: self.value_type@, additional_properties: self.additional_properties }
    }
}

#[verifier::ext_equal]
pub struct ManifestView {
    pub spi_version: u32,
    pub provider_id: Seq<char>,
    pub provider_version: Seq<char>,
    pub protocol: Seq<char>,
    pub capabilities: Seq<Capability>,
    pub channels: Seq<ChannelView>,
    pub required_context: Seq<Seq<char>>,
    pub configuration_schema: Option<SchemaView>,
}

impl View for Manifest {
    type V = ManifestView;

    open spec fn view(&self) -> ManifestView {
        ManifestView {
            spi_version: self.spi_version,
            provider_id: self.provider_id@,
            provider_version: self.provider_version@,
            protocol: self.protocol@,
            capabilities: self.capabilities@,
            channels: self.channels@.map_values(|channel: ChannelDescriptor| channel@),
            required_context: self.required_context.deep_view(),
            configuration_schema: match self.configuration_schema {
                Some(schema) => Some(schema@),
                None => None,
            },
        }
    }
}

/// Counts, without the limits of the machine.
pub enum DetailsView {
    Prepared { source_entities: nat, track_artist_mappings: nat, resolved_candidate_edges: nat },
    Scored { matched_candidates: nat },
}

impl View for Details {
    type V = DetailsView;

    open spec fn view(&self) -> DetailsView {
        match *self {
            Details::Prepared { source_entities, track_artist_mappings, resolved_candidate_edges } => {
                DetailsView::Prepared {
                    source_entities: source_entities as nat,
                    track_artist_mappings: track_artist_mappings as nat,
                    resolved_candidate_edges: resolved_candidate_edges as nat,
                }
            },
            Details::Scored { matched_candidates } => DetailsView::Scored {
                matched_candidates: matched_candidates as nat,
            },
        }
    }
}

#[verifier::ext_equal]
pub struct DiagnosticsView {
    pub state: Option<Seq<char>>,
    pub request_count: nat,
    pub failure_count: nat,
    pub details: Option<DetailsView>,
}

impl View for Diagnostics {
    type V = DiagnosticsView;

    open spec fn view(&self) -> DiagnosticsView {
        DiagnosticsView {
            state: self.state.deep_view(),
            request_count: self.request_count as nat,
            failure_count: self.failure_count as nat,
            details: match self.details {
                Some(details) => Some(details@),
                None => None,
            },
        }
    }
}

#[verifier::ext_equal]
pub struct SignalView {
    pub candidate_id: Seq<char>,
    pub channel: Seq<char>,
    pub scope: GuidanceScope,
    pub score: Binary64,
    pub confidence: Binary64,
    pub rationale: Option<Seq<char>>,
    pub observed_at: Option<Seq<char>>,
}

impl View for GuidanceSignal {
    type V = SignalView;

    open spec fn view(&self) -> SignalView {
        SignalView {
            candidate_id: self.candidate_id@,
            channel: self.channel@,
            scope: self.scope,
            score: self.score,
            confidence: self.confidence,
            rationale: self.rationale.deep_view(),
            observed_at: self.observed_at.deep_view(),
        }
    }
}

#[allow(inconsistent_fields)]
#[verifier::ext_equal]
pub enum ResponseView {
    Manifest(ManifestView),
    Prepared { provider_id: Seq<char>, snapshot_id: Option<Seq<char>>, diagnostics: DiagnosticsView },
    Scores {
        provider_id: Seq<char>,
        request_id: Seq<char>,
        signals: Seq<SignalView>,
        diagnostics: DiagnosticsView,
    },
    Error { provider_id: Option<Seq<char>>, code: Seq<char>, message: Seq<char>, retryable: bool },
    Closed { provider_id: Seq<char> },
}

/// The views of a list of signals.
pub open spec fn signal_views(signals: Seq<GuidanceSignal>) -> Seq<SignalView> {
    signals.map_values(|signal: GuidanceSignal| signal@)
}

impl View for GuidanceResponse {
    type V = ResponseView;

    open spec fn view(&self) -> ResponseView {
        match *self {
            GuidanceResponse::Manifest(manifest) => ResponseView::Manifest(manifest@),
            GuidanceResponse::Prepared { provider_id, snapshot_id, diagnostics } => ResponseView::Prepared {
                provider_id: provider_id@,
                snapshot_id: snapshot_id.deep_view(),
                diagnostics: diagnostics@,
            },
            GuidanceResponse::Scores { provider_id, request_id, signals, diagnostics } => ResponseView::Scores {
                provider_id: provider_id@,
                request_id: request_id@,
                signals: signal_views(signals@),
                diagnostics: diagnostics@,
            },
            GuidanceResponse::Error { provider_id, code, message, retryable } => ResponseView::Error {
                provider_id: provider_id.deep_view(),
                code: code@,
                message: message@,
                retryable,
            },
            GuidanceResponse::Closed { provider_id } => ResponseView::Closed { provider_id: provider_id@ },
        }
    }
}

} // verus!
