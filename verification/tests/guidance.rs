use bliss_guidance_lastfm::binary64::Binary64;
use bliss_guidance_lastfm::digest::sha256_hex;
use bliss_guidance_lastfm::evidence::{default_confidence, SemanticArtifact, SemanticEdge, SemanticEntity};
use bliss_guidance_lastfm::protocol::{
    Anchor, ArtifactDescriptor, Candidate, Capability, Details, Diagnostics, GuidanceRequest, GuidanceResponse,
    GuidanceScope, GuidanceSignal, ScoreContext,
};
use bliss_guidance_lastfm::provider::{check_digest, select_artifact, verify_artifact, EvidenceSource, Provider};
use bliss_guidance_lastfm::service::{
    ends_service, handle, holds_request, input_failed, invalid_request, parse_command, usage, version_line,
    version_metadata_json, Action, Command, Edition, PendingPrepare,
};
use serde_json::Value;
use sha2::{Digest, Sha256};

fn edition() -> Edition {
    Edition {
        provider_version: "0.1.0".to_owned(),
        spi_version: 3,
        protocol: "guidance-protocol".to_owned(),
    }
}

fn number(bits: Binary64) -> f64 {
    f64::from_bits(bits.bits)
}

fn binary(value: f64) -> Binary64 {
    Binary64 { bits: value.to_bits() }
}

fn text(value: &Value, field: &str) -> Option<String> {
    value.get(field).and_then(|found| found.as_str()).map(|found| found.to_owned())
}

fn decode(bytes: &[u8]) -> Result<SemanticArtifact, String> {
    let value: Value = serde_json::from_slice(bytes).map_err(|error| error.to_string())?;
    let schema_version = value.get("schema_version").and_then(|found| found.as_u64()).ok_or("schema_version")?;
    let schema_version = u8::try_from(schema_version).map_err(|error| error.to_string())?;
    let mut edges = Vec::new();
    for edge in value.get("edges").and_then(|found| found.as_array()).ok_or("edges")? {
        let source = edge.get("source").ok_or("source")?;
        edges.push(SemanticEdge {
            source: SemanticEntity {
                kind: text(source, "kind").ok_or("kind")?,
                id: text(source, "id").ok_or("id")?,
                mbid: text(source, "mbid"),
                name: text(source, "name"),
            },
            resolved_candidate_id: text(edge, "resolved_candidate_id"),
            raw_rank: edge.get("raw_rank").and_then(|found| found.as_u64()).map(|rank| rank as u32),
            raw_score: edge.get("raw_score").and_then(|found| found.as_f64()).map(binary),
            identity_confidence: edge
                .get("identity_confidence")
                .and_then(|found| found.as_f64())
                .map(binary)
                .unwrap_or(default_confidence()),
            observed_at: text(edge, "observed_at"),
        });
    }
    Ok(SemanticArtifact { schema_version, edges })
}

fn artifact_descriptor(bytes: &[u8]) -> ArtifactDescriptor {
    ArtifactDescriptor {
        kind: "resolved-lastfm-evidence-v1".to_owned(),
        path: "evidence.json".to_owned(),
        sha256: format!("{:x}", Sha256::digest(bytes)),
    }
}

fn prepare(
    provider: &mut Provider,
    mut artifacts: Vec<ArtifactDescriptor>,
    bytes: &[u8],
    anchors: Vec<Anchor>,
) -> Result<(Option<String>, Diagnostics), String> {
    let selected = select_artifact(&artifacts)?;
    let source = EvidenceSource::Artifact(artifacts.swap_remove(selected));
    let evidence = verify_artifact(&source, Ok(bytes.to_vec()))?;
    let decoded = decode(evidence.bytes());
    provider.prepare_with_anchors(&evidence, decoded, &anchors)
}

fn prepared(json: &str, anchors: Vec<Anchor>) -> Provider {
    let mut provider = Provider::default();
    prepare(&mut provider, vec![artifact_descriptor(json.as_bytes())], json.as_bytes(), anchors).unwrap();
    provider
}

fn candidate(id: &str) -> Candidate {
    Candidate { candidate_id: id.to_owned(), artist: None, artist_mbids: vec![] }
}

fn anchor(id: &str, artist: Option<&str>, mbids: &[&str]) -> Anchor {
    Anchor {
        anchor_id: id.to_owned(),
        track: Candidate {
            candidate_id: id.to_owned(),
            artist: artist.map(|name| name.to_owned()),
            artist_mbids: mbids.iter().map(|mbid| (*mbid).to_owned()).collect(),
        },
    }
}

fn global(ids: &[&str]) -> ScoreContext {
    ScoreContext {
        scope: GuidanceScope::Global,
        left_anchor_id: None,
        right_anchor_id: None,
        context_track_ids: ids.iter().map(|id| (*id).to_owned()).collect(),
    }
}

fn edge(left: Option<&str>, right: Option<&str>) -> ScoreContext {
    ScoreContext {
        scope: GuidanceScope::Edge,
        left_anchor_id: left.map(|id| id.to_owned()),
        right_anchor_id: right.map(|id| id.to_owned()),
        context_track_ids: vec![],
    }
}

fn signals_of(response: GuidanceResponse) -> Vec<GuidanceSignal> {
    match response {
        GuidanceResponse::Scores { signals, .. } => signals,
        other => panic!("expected scores response, got {other:?}"),
    }
}

fn error_of(response: GuidanceResponse) -> (String, String, bool) {
    match response {
        GuidanceResponse::Error { provider_id, code, message, retryable } => {
            assert_eq!(provider_id.as_deref(), Some("lastfm-guidance"));
            (code, message, retryable)
        }
        other => panic!("expected error response, got {other:?}"),
    }
}

fn response_of(action: Action) -> GuidanceResponse {
    match action {
        Action::Respond(response) => response,
        Action::Read(_) => panic!("expected a response"),
    }
}

fn pending_of(action: Action) -> PendingPrepare {
    match action {
        Action::Read(pending) => pending,
        Action::Respond(response) => panic!("expected a file to read, got {response:?}"),
    }
}

#[test]
fn version_metadata_identifies_lastfm_provider_and_spi() {
    let metadata = version_metadata_json(&edition());
    assert!(metadata.contains("\"program\":\"bliss-guidance-lastfm\""));
    assert!(metadata.contains("\"provider_id\":\"lastfm-guidance\""));
    assert!(metadata.contains("\"spi_version\":"));
}

#[test]
fn manifest_identifies_guidance_provider() {
    let manifest = Provider::manifest(&edition());
    assert_eq!(manifest.provider_id, "lastfm-guidance");
    assert_eq!(manifest.protocol, edition().protocol);
    assert_eq!(
        manifest.capabilities,
        vec![Capability::GlobalCandidateGuidance, Capability::EdgeCandidateGuidance]
    );
    assert_eq!(
        manifest.channels.iter().map(|channel| channel.channel.as_str()).collect::<Vec<_>>(),
        vec!["lastfm_track", "lastfm_artist"]
    );
}

#[test]
fn score_uses_either_available_anchor_and_ignores_unresolved_edges() {
    let provider = prepared(
        r#"{
            "schema_version": 1,
            "edges": [
                {
                    "source": {"kind": "track", "id": "source-a"},
                    "resolved_candidate_id": "candidate-1",
                    "raw_score": 0.9,
                    "identity_confidence": 0.8,
                    "observed_at": "2026-09-17T00:00:00Z"
                },
                {
                    "source": {"kind": "track", "id": "source-a"},
                    "raw_score": 1.0
                }
            ]
        }"#,
        vec![],
    );
    let context = edge(Some("missing-source"), Some("source-a"));
    let response = provider.score("request-1", &context, &vec![candidate("candidate-1")]);
    match response {
        GuidanceResponse::Scores { signals, .. } => {
            assert_eq!(signals.len(), 1);
            assert!((number(signals[0].score) - 0.72).abs() < f64::EPSILON);
            assert!((number(signals[0].confidence) - 0.8).abs() < f64::EPSILON);
        }
        other => panic!("expected scores response, got {other:?}"),
    }
}

#[test]
fn score_uses_resolved_recording_edges_written_by_better_call_bliss() {
    let provider = prepared(
        r#"{
            "schema_version": 1,
            "edges": [{
                "source": {"kind": "recording", "id": "lms-track-42"},
                "resolved_candidate_id": "bliss-row-7",
                "raw_score": 0.9,
                "identity_confidence": 1.0
            }]
        }"#,
        vec![],
    );
    let signals = signals_of(provider.score(
        "recording-edge",
        &global(&["lms-track-42"]),
        &vec![candidate("bliss-row-7")],
    ));
    assert_eq!(signals.len(), 1);
    assert_eq!(signals[0].candidate_id, "bliss-row-7");
    assert_eq!(signals[0].channel, "lastfm_track");
}

#[test]
fn score_uses_global_context_track_ids_when_no_edge_anchor_is_set() {
    let provider = prepared(
        r#"{
            "schema_version": 1,
            "edges": [{
                "source": {"kind": "artist", "id": "source-b"},
                "resolved_candidate_id": "candidate-1",
                "raw_score": 0.8,
                "identity_confidence": 1.0
            }]
        }"#,
        vec![],
    );
    let signals = signals_of(provider.score(
        "request-global",
        &global(&["source-a", "source-b"]),
        &vec![candidate("candidate-1")],
    ));
    assert_eq!(signals.len(), 1);
    assert_eq!(signals[0].channel, "lastfm_artist");
    assert_eq!(signals[0].scope, GuidanceScope::Global);
}

#[test]
fn score_expands_a_track_context_to_its_anchor_artist_mbid() {
    let provider = prepared(
        r#"{
            "schema_version": 1,
            "edges": [{
                "source": {
                    "kind": "artist",
                    "id": "artist:layla-zoe",
                    "mbid": "artist-mbid-1",
                    "name": "Layla Zoe"
                },
                "resolved_candidate_id": "bliss-row-51431",
                "raw_score": 0.8,
                "identity_confidence": 1.0
            }]
        }"#,
        vec![anchor("lms-track-2623395", Some("Layla Zoe"), &["artist-mbid-1"])],
    );
    let signals = signals_of(provider.score(
        "artist-via-track-context",
        &global(&["lms-track-2623395"]),
        &vec![candidate("bliss-row-51431")],
    ));
    assert_eq!(signals.len(), 1);
    assert_eq!(signals[0].channel, "lastfm_artist");
    assert_eq!(signals[0].candidate_id, "bliss-row-51431");
}

#[test]
fn score_expands_an_edge_anchor_to_its_artist_relation() {
    let provider = prepared(
        r#"{
            "schema_version": 1,
            "edges": [{
                "source": {
                    "kind": "artist",
                    "id": "artist:layla-zoe",
                    "mbid": "artist-mbid-1"
                },
                "resolved_candidate_id": "bliss-row-51431",
                "raw_score": 0.8
            }]
        }"#,
        vec![anchor("lms-track-2623395", Some("Layla Zoe"), &["artist-mbid-1"])],
    );
    let signals = signals_of(provider.score(
        "artist-via-edge-anchor",
        &edge(Some("lms-track-2623395"), None),
        &vec![candidate("bliss-row-51431")],
    ));
    assert_eq!(signals.len(), 1);
    assert_eq!(signals[0].channel, "lastfm_artist");
}

#[test]
fn prepare_rejects_a_lastfm_artifact_with_an_invalid_hash() {
    let bytes = br#"{"schema_version":1,"edges":[]}"#;
    let mut descriptor = artifact_descriptor(bytes);
    descriptor.sha256 = "0".repeat(64);

    let mut provider = Provider::default();
    let error = prepare(&mut provider, vec![descriptor], bytes, vec![]).unwrap_err();

    assert!(error.contains("sha256"));
}

#[test]
fn score_preserves_independent_track_and_artist_channels() {
    let provider = prepared(
        r#"{
            "schema_version": 1,
            "edges": [
                {
                    "source": {"kind": "track", "id": "source-a"},
                    "resolved_candidate_id": "candidate-1",
                    "raw_score": 0.9,
                    "identity_confidence": 0.8
                },
                {
                    "source": {"kind": "artist", "id": "source-a"},
                    "resolved_candidate_id": "candidate-1",
                    "raw_score": 0.7,
                    "identity_confidence": 0.9
                }
            ]
        }"#,
        vec![],
    );
    let signals = signals_of(provider.score(
        "request-1",
        &edge(Some("source-a"), None),
        &vec![candidate("candidate-1")],
    ));
    assert_eq!(signals.len(), 2);
    assert_eq!(signals[0].channel, "lastfm_artist");
    assert_eq!(signals[1].channel, "lastfm_track");
    assert_eq!(number(signals[0].score), 0.7 * 0.9);
    assert_eq!(number(signals[1].score), 0.9 * 0.8);
}

const TWO_SOURCES: &str = r#"{
    "schema_version": 1,
    "edges": [
        {
            "source": {"kind": "track", "id": "b"},
            "resolved_candidate_id": "c1",
            "raw_score": 0.5,
            "observed_at": "from-b"
        },
        {
            "source": {"kind": "recording", "id": "a"},
            "resolved_candidate_id": "c1",
            "raw_score": 0.5,
            "observed_at": "from-a"
        },
        {
            "source": {"kind": "recording", "id": "z"},
            "resolved_candidate_id": "c2",
            "raw_rank": 4
        },
        {
            "source": {"kind": "album", "id": "a"},
            "resolved_candidate_id": "c2",
            "raw_score": 1.0
        }
    ]
}"#;

#[test]
fn ties_go_to_the_first_source_in_order() {
    let provider = prepared(TWO_SOURCES, vec![]);
    let signals = signals_of(provider.score("r", &global(&["b", "a", "b"]), &vec![candidate("c1")]));
    assert_eq!(signals.len(), 1);
    assert_eq!(signals[0].observed_at.as_deref(), Some("from-a"));
    assert_eq!(signals[0].rationale.as_deref(), Some("Last.fm similar recording"));
    let only = signals_of(provider.score("r", &global(&["b"]), &vec![candidate("c1")]));
    assert_eq!(only[0].observed_at.as_deref(), Some("from-b"));
    assert_eq!(only[0].rationale.as_deref(), Some("Last.fm similar track"));
}

#[test]
fn context_order_repetition_and_side_do_not_matter() {
    let provider = prepared(TWO_SOURCES, vec![]);
    let candidates = vec![candidate("c1"), candidate("c2")];
    let one = signals_of(provider.score("r", &global(&["a", "b", "z"]), &candidates));
    let other = signals_of(provider.score("r", &global(&["z", "b", "a", "b"]), &candidates));
    assert_eq!(one, other);
    let left = signals_of(provider.score("r", &edge(Some("a"), Some("z")), &candidates));
    let right = signals_of(provider.score("r", &edge(Some("z"), Some("a")), &candidates));
    assert_eq!(left, right);
    assert_eq!(left.len(), 2);
}

#[test]
fn ranks_stand_in_for_missing_scores() {
    let provider = prepared(TWO_SOURCES, vec![]);
    let signals = signals_of(provider.score("r", &global(&["z", "a"]), &vec![candidate("c2")]));
    assert_eq!(signals.len(), 1);
    assert_eq!(number(signals[0].score), 0.25);
    assert_eq!(number(signals[0].confidence), 1.0);
}

#[test]
fn candidates_keep_their_order_and_do_not_interfere() {
    let provider = prepared(TWO_SOURCES, vec![]);
    let context = global(&["a", "b", "z"]);
    let both = signals_of(provider.score("r", &context, &vec![candidate("c2"), candidate("c1"), candidate("c9")]));
    let ids: Vec<&str> = both.iter().map(|signal| signal.candidate_id.as_str()).collect();
    assert_eq!(ids, vec!["c2", "c1"]);
    let first = signals_of(provider.score("r", &context, &vec![candidate("c2")]));
    assert_eq!(both[0], first[0]);
}

#[test]
fn preparation_reports_what_it_took_in() {
    let mut provider = Provider::default();
    let bytes = TWO_SOURCES.as_bytes();
    let descriptor = artifact_descriptor(bytes);
    let digest = descriptor.sha256.clone();
    let (snapshot_id, diagnostics) = prepare(&mut provider, vec![descriptor], bytes, vec![]).unwrap();
    assert_eq!(snapshot_id, Some(format!("{digest}:sources:3")));
    assert_eq!(
        diagnostics,
        Diagnostics {
            state: Some("fresh".to_owned()),
            request_count: 1,
            failure_count: 0,
            details: Some(Details::Prepared {
                source_entities: 3,
                track_artist_mappings: 0,
                resolved_candidate_edges: 3,
            }),
        }
    );
}

#[test]
fn the_strongest_edge_of_a_relation_is_kept() {
    let provider = prepared(
        r#"{
            "schema_version": 1,
            "edges": [
                {"source": {"kind": "track", "id": "s"}, "resolved_candidate_id": "c",
                 "raw_score": 0.25, "observed_at": "weak"},
                {"source": {"kind": "recording", "id": "s"}, "resolved_candidate_id": "c",
                 "raw_score": 0.75, "observed_at": "strong"},
                {"source": {"kind": "track", "id": "s"}, "resolved_candidate_id": "c",
                 "raw_score": 0.5, "observed_at": "late"}
            ]
        }"#,
        vec![],
    );
    let signals = signals_of(provider.score("r", &global(&["s"]), &vec![candidate("c")]));
    assert_eq!(number(signals[0].score), 0.75);
    assert_eq!(signals[0].observed_at.as_deref(), Some("strong"));
}

#[test]
fn guidance_is_bounded_whatever_the_evidence_states() {
    let provider = prepared(
        r#"{
            "schema_version": 1,
            "edges": [
                {"source": {"kind": "track", "id": "s"}, "resolved_candidate_id": "rank-zero", "raw_rank": 0},
                {"source": {"kind": "track", "id": "s"}, "resolved_candidate_id": "no-confidence", "raw_rank": 0,
                 "identity_confidence": 0.0},
                {"source": {"kind": "track", "id": "s"}, "resolved_candidate_id": "high", "raw_score": 7.5,
                 "identity_confidence": 3.0},
                {"source": {"kind": "track", "id": "s"}, "resolved_candidate_id": "negative", "raw_score": -2.0,
                 "identity_confidence": -1.0},
                {"source": {"kind": "track", "id": "s"}, "resolved_candidate_id": "plain"}
            ]
        }"#,
        vec![],
    );
    let ids = ["rank-zero", "no-confidence", "high", "negative", "plain"];
    let candidates: Vec<Candidate> = ids.iter().map(|id| candidate(id)).collect();
    let signals = signals_of(provider.score("r", &global(&["s"]), &candidates));
    let scores: Vec<(f64, f64)> =
        signals.iter().map(|signal| (number(signal.score), number(signal.confidence))).collect();
    assert_eq!(scores, vec![(1.0, 1.0), (0.0, 0.0), (1.0, 1.0), (0.0, 0.0), (0.0, 0.0)]);
}

/// What is held of two edges about one relation, given by strength and confidence.
fn held_of(edges: [(&str, f64, f64); 2]) -> (f64, f64, Option<String>) {
    let written: Vec<String> = edges
        .iter()
        .map(|(observed_at, score, confidence)| {
            format!(
                "{{\"source\": {{\"kind\": \"track\", \"id\": \"s\"}}, \"resolved_candidate_id\": \"c\", \
                 \"raw_score\": {score:?}, \"identity_confidence\": {confidence:?}, \
                 \"observed_at\": \"{observed_at}\"}}"
            )
        })
        .collect();
    let json = format!("{{\"schema_version\": 1, \"edges\": [{}]}}", written.join(","));
    let provider = prepared(&json, vec![]);
    let mut signals = signals_of(provider.score("r", &global(&["s"]), &vec![candidate("c")]));
    assert_eq!(signals.len(), 1);
    let signal = signals.remove(0);
    (number(signal.score), number(signal.confidence), signal.observed_at)
}

#[test]
fn a_confidence_above_one_counts_as_one() {
    let strong = ("strong", 0.9, 1.0);
    let inflated = ("inflated", 0.5, 2.0);
    assert_eq!(held_of([strong, inflated]), (0.9, 1.0, Some("strong".to_owned())));
    assert_eq!(held_of([inflated, strong]), (0.9, 1.0, Some("strong".to_owned())));

    let first = ("first", 0.5, 2.0);
    let second = ("second", 0.75, 1.0);
    assert_eq!(held_of([first, second]), (0.75, 1.0, Some("second".to_owned())));
    assert_eq!(held_of([second, first]), (0.75, 1.0, Some("second".to_owned())));
}

#[test]
fn the_earliest_of_the_strongest_edges_is_held() {
    let early = ("early", 0.5, 0.5);
    let late = ("late", 0.25, 1.0);
    assert_eq!(held_of([early, late]), (0.25, 0.5, Some("early".to_owned())));
    assert_eq!(held_of([late, early]), (0.25, 1.0, Some("late".to_owned())));

    let none = ("none", 0.0, 1.0);
    let unsure = ("unsure", 1.0, 0.0);
    assert_eq!(held_of([none, unsure]), (0.0, 0.0, Some("none".to_owned())));
    assert_eq!(held_of([unsure, none]), (0.0, 0.0, Some("unsure".to_owned())));
    assert_eq!(held_of([none, early]), (0.25, 0.5, Some("early".to_owned())));
}

#[test]
fn a_score_is_within_its_confidence_where_ranks_are_above_zero() {
    let provider = prepared(
        r#"{
            "schema_version": 1,
            "edges": [
                {"source": {"kind": "track", "id": "s"}, "resolved_candidate_id": "first", "raw_rank": 1,
                 "identity_confidence": 0.3},
                {"source": {"kind": "track", "id": "s"}, "resolved_candidate_id": "scored", "raw_score": 5.0,
                 "raw_rank": 0, "identity_confidence": 0.7},
                {"source": {"kind": "track", "id": "s"}, "resolved_candidate_id": "third", "raw_rank": 3,
                 "identity_confidence": 0.9},
                {"source": {"kind": "track", "id": "s"}, "resolved_candidate_id": "zeroth", "raw_rank": 0,
                 "identity_confidence": 0.5}
            ]
        }"#,
        vec![],
    );
    let candidates = vec![candidate("first"), candidate("scored"), candidate("third"), candidate("zeroth")];
    let signals = signals_of(provider.score("r", &global(&["s"]), &candidates));
    let scores: Vec<(f64, f64)> =
        signals.iter().map(|signal| (number(signal.score), number(signal.confidence))).collect();
    assert_eq!(scores, vec![(0.3, 0.3), (0.7, 0.7), ((1.0 / 3.0) * 0.9, 0.9), (1.0, 0.5)]);
}

#[test]
fn a_larger_context_is_not_weaker() {
    let provider = prepared(TWO_SOURCES, vec![]);
    let candidates = vec![candidate("c1"), candidate("c2")];
    let names = ["a", "b", "z"];
    for fewer in 0..8usize {
        for more in 0..8usize {
            if fewer & more != fewer {
                continue;
            }
            let pick = |mask: usize| -> Vec<&str> {
                names.iter().enumerate().filter(|(i, _)| mask & (1 << i) != 0).map(|(_, name)| *name).collect()
            };
            let smaller = signals_of(provider.score("r", &global(&pick(fewer)), &candidates));
            let larger = signals_of(provider.score("r", &global(&pick(more)), &candidates));
            for signal in &smaller {
                assert!(larger.iter().any(|other| other.candidate_id == signal.candidate_id
                    && other.channel == signal.channel
                    && number(other.score) >= number(signal.score)));
            }
        }
    }
}

#[test]
fn scores_are_refused_until_a_preparation_is_answered() {
    let edition = edition();
    let mut provider = Provider::default();
    let score = |spi_version: u32| GuidanceRequest::Score {
        spi_version,
        request_id: "r".to_owned(),
        context: global(&["a"]),
        candidates: vec![candidate("c1")],
    };
    let by_path = || GuidanceRequest::Prepare {
        spi_version: 3,
        artifacts: vec![],
        anchors: vec![],
        artifact_path: Some("evidence.json".to_owned()),
    };
    let code = |response: GuidanceResponse| error_of(response).0;

    assert_eq!(code(response_of(handle(&provider, &edition, score(3)))), "NOT_PREPARED");
    response_of(handle(&provider, &edition, GuidanceRequest::Describe { spi_version: 3 }));
    let pending = pending_of(handle(&provider, &edition, by_path()));
    assert_eq!(code(pending.check(Err("gone".to_owned())).err().unwrap()), "PREPARE_FAILED");
    assert_eq!(code(response_of(handle(&provider, &edition, score(3)))), "NOT_PREPARED");

    let newer = SemanticArtifact { schema_version: 2, edges: vec![] };
    let checked = pending_of(handle(&provider, &edition, by_path())).check(Ok(vec![])).ok().unwrap();
    assert_eq!(code(checked.finish(&mut provider, Ok(newer))), "PREPARE_FAILED");
    assert_eq!(code(response_of(handle(&provider, &edition, score(3)))), "NOT_PREPARED");

    let checked = pending_of(handle(&provider, &edition, by_path())).check(Ok(vec![])).ok().unwrap();
    let response = checked.finish(&mut provider, decode(TWO_SOURCES.as_bytes()));
    assert!(matches!(response, GuidanceResponse::Prepared { .. }));
    assert_eq!(signals_of(response_of(handle(&provider, &edition, score(3)))).len(), 1);
    assert_eq!(code(response_of(handle(&provider, &edition, score(4)))), "UNSUPPORTED_SPI_VERSION");

    let checked = pending_of(handle(&provider, &edition, by_path())).check(Ok(vec![])).ok().unwrap();
    assert_eq!(code(checked.finish(&mut provider, Err("bad".to_owned()))), "PREPARE_FAILED");
    assert_eq!(signals_of(response_of(handle(&provider, &edition, score(3)))).len(), 1);
}

const ARTISTS: &str = r#"{
    "schema_version": 1,
    "edges": [
        {"source": {"kind": "artist", "id": "by-mbid", "mbid": "ABC-1", "name": "Same Name"},
         "resolved_candidate_id": "c1", "raw_score": 0.5},
        {"source": {"kind": "artist", "id": "by-name", "name": "  Other NAME\t"},
         "resolved_candidate_id": "c2", "raw_score": 0.5},
        {"source": {"kind": "artist", "id": "namesake", "name": "same name"},
         "resolved_candidate_id": "c3", "raw_score": 0.5}
    ]
}"#;

fn candidates_reached(provider: &Provider, track: &str) -> Vec<String> {
    signals_of(provider.score(
        "r",
        &global(&[track]),
        &vec![candidate("c1"), candidate("c2"), candidate("c3")],
    ))
    .into_iter()
    .map(|signal| signal.candidate_id)
    .collect()
}

#[test]
fn artist_ids_are_matched_without_letter_case_and_before_names() {
    let provider = prepared(ARTISTS, vec![anchor("t", Some("Same Name"), &["nothing", "aBc-1"])]);
    assert_eq!(candidates_reached(&provider, "t"), vec!["c1"]);
}

#[test]
fn artist_names_are_matched_in_normal_form_where_no_id_is_known() {
    let provider = prepared(
        ARTISTS,
        vec![
            anchor("t", Some(" other name"), &["nothing"]),
            anchor("u", Some("SAME NAME "), &[]),
            anchor("v", Some("Nobody"), &[]),
            anchor("w", None, &[]),
        ],
    );
    assert_eq!(candidates_reached(&provider, "t"), vec!["c2"]);
    assert_eq!(candidates_reached(&provider, "u"), vec!["c1", "c3"]);
    assert!(candidates_reached(&provider, "v").is_empty());
    assert!(candidates_reached(&provider, "w").is_empty());
}

#[test]
fn the_last_anchor_of_an_id_that_has_artists_counts() {
    let provider = prepared(
        ARTISTS,
        vec![
            anchor("t", Some("Other Name"), &[]),
            anchor("t", None, &["abc-1"]),
            anchor("t", Some("Nobody"), &[]),
        ],
    );
    assert_eq!(candidates_reached(&provider, "t"), vec!["c1"]);
}

#[test]
fn mapped_tracks_are_counted() {
    let mut provider = Provider::default();
    let bytes = ARTISTS.as_bytes();
    let anchors = vec![
        anchor("t", Some("Other Name"), &[]),
        anchor("u", None, &["abc-1"]),
        anchor("v", Some("Nobody"), &[]),
    ];
    let (_, diagnostics) = prepare(&mut provider, vec![artifact_descriptor(bytes)], bytes, anchors).unwrap();
    assert_eq!(
        diagnostics.details,
        Some(Details::Prepared { source_entities: 3, track_artist_mappings: 2, resolved_candidate_edges: 3 })
    );
}

#[test]
fn digests_are_compared_without_letter_case() {
    let bytes = br#"{"schema_version":1,"edges":[]}"#;
    let mut descriptor = artifact_descriptor(bytes);
    descriptor.sha256 = descriptor.sha256.to_uppercase();
    let mut provider = Provider::default();
    let (snapshot_id, _) = prepare(&mut provider, vec![descriptor], bytes, vec![]).unwrap();
    assert_eq!(snapshot_id, Some(format!("{:x}:sources:0", Sha256::digest(bytes))));
}

#[test]
fn the_digest_is_sha256_in_small_hexadecimal() {
    assert_eq!(sha256_hex(b"abc"), "ba7816bf8f01cfea414140de5dae2223b00361a396177a9cb410ff61f20015ad");
    assert_eq!(sha256_hex(b""), "e3b0c44298fc1c149afbf4c8996fb92427ae41e4649b934ca495991b7852b855");
}

#[test]
fn failed_preparations_say_why_and_change_nothing() {
    let bytes = TWO_SOURCES.as_bytes();
    let mut provider = prepared(TWO_SOURCES, vec![]);
    let before = signals_of(provider.score("r", &global(&["a"]), &vec![candidate("c1")]));

    let mut other_kind = artifact_descriptor(bytes);
    other_kind.kind = "something-else".to_owned();
    assert_eq!(
        prepare(&mut provider, vec![other_kind], bytes, vec![]).unwrap_err(),
        "resolved-lastfm-evidence-v1 artifact is required"
    );

    let source = EvidenceSource::Artifact(artifact_descriptor(bytes));
    let unread = verify_artifact(&source, Err("no such file".to_owned()));
    assert_eq!(unread.err().unwrap(), "cannot read semantic artifact: no such file");

    let garbage = b"not json";
    let error = prepare(&mut provider, vec![artifact_descriptor(garbage)], garbage, vec![]).unwrap_err();
    assert!(error.starts_with("cannot decode semantic artifact: "));

    let newer = br#"{"schema_version":2,"edges":[]}"#;
    assert_eq!(
        prepare(&mut provider, vec![artifact_descriptor(newer)], newer, vec![]).unwrap_err(),
        "unsupported semantic artifact schema"
    );

    let after = signals_of(provider.score("r", &global(&["a"]), &vec![candidate("c1")]));
    assert_eq!(before, after);
}

#[test]
fn a_new_preparation_replaces_the_old_one() {
    let mut provider = prepared(TWO_SOURCES, vec![anchor("t", Some("Other Name"), &[])]);
    let bytes = ARTISTS.as_bytes();
    prepare(&mut provider, vec![artifact_descriptor(bytes)], bytes, vec![]).unwrap();
    assert!(signals_of(provider.score("r", &global(&["a", "b", "z"]), &vec![candidate("c1")])).is_empty());
    assert!(candidates_reached(&provider, "t").is_empty());
    assert_eq!(candidates_reached(&provider, "by-mbid"), vec!["c1"]);
}

#[test]
fn the_first_matching_artifact_is_selected() {
    let mut other = artifact_descriptor(b"x");
    other.kind = "other".to_owned();
    let artifacts = vec![other, artifact_descriptor(b"first"), artifact_descriptor(b"second")];
    assert_eq!(select_artifact(&artifacts), Ok(1));
}

#[test]
fn scores_are_refused_before_preparation() {
    let provider = Provider::default();
    let response = provider.score("r", &global(&["a"]), &vec![candidate("c1")]);
    assert_eq!(
        error_of(response),
        ("NOT_PREPARED".to_owned(), "provider must receive prepare before score".to_owned(), false)
    );
}

#[test]
fn scores_repeat_the_request_and_count_signals() {
    let provider = prepared(TWO_SOURCES, vec![]);
    match provider.score("request-7", &global(&["a", "z"]), &vec![candidate("c1"), candidate("c2")]) {
        GuidanceResponse::Scores { provider_id, request_id, signals, diagnostics } => {
            assert_eq!(provider_id, "lastfm-guidance");
            assert_eq!(request_id, "request-7");
            assert_eq!(signals.len(), 2);
            assert_eq!(diagnostics.details, Some(Details::Scored { matched_candidates: 2 }));
        }
        other => panic!("expected scores response, got {other:?}"),
    }
}

#[test]
fn requests_run_from_description_to_close() {
    let edition = edition();
    let mut provider = Provider::default();

    match response_of(handle(&provider, &edition, GuidanceRequest::Describe { spi_version: 3 })) {
        GuidanceResponse::Manifest(manifest) => {
            assert_eq!(manifest, Provider::manifest(&edition));
            assert_eq!(manifest.provider_version, "0.1.0");
            assert_eq!(manifest.spi_version, 3);
            assert_eq!(manifest.required_context, vec!["candidate_identity", "route_context"]);
            let schema = manifest.configuration_schema.unwrap();
            assert_eq!(schema.value_type, "object");
            assert!(!schema.additional_properties);
            assert_eq!(manifest.channels[0].scopes, vec![GuidanceScope::Edge, GuidanceScope::Global]);
        }
        other => panic!("expected manifest, got {other:?}"),
    }

    let bytes = TWO_SOURCES.as_bytes();
    let request = GuidanceRequest::Prepare {
        spi_version: 3,
        artifacts: vec![artifact_descriptor(bytes)],
        anchors: vec![],
        artifact_path: Some("ignored.json".to_owned()),
    };
    let pending = pending_of(handle(&provider, &edition, request));
    assert_eq!(pending.source.path(), "evidence.json");
    let checked = match pending.check(Ok(bytes.to_vec())) {
        Ok(checked) => checked,
        Err(response) => panic!("unexpected {response:?}"),
    };
    let decoded = decode(checked.bytes());
    let response = checked.finish(&mut provider, decoded);
    assert!(matches!(response, GuidanceResponse::Prepared { .. }));
    assert!(!ends_service(&response));

    let request = GuidanceRequest::Score {
        spi_version: 3,
        request_id: "r".to_owned(),
        context: global(&["a"]),
        candidates: vec![candidate("c1")],
    };
    assert_eq!(signals_of(response_of(handle(&provider, &edition, request))).len(), 1);

    let response = response_of(handle(&provider, &edition, GuidanceRequest::Close));
    assert_eq!(response, GuidanceResponse::Closed { provider_id: "lastfm-guidance".to_owned() });
    assert!(ends_service(&response));
}

#[test]
fn other_versions_are_refused() {
    let edition = edition();
    let provider = prepared(TWO_SOURCES, vec![]);
    let requests = vec![
        GuidanceRequest::Describe { spi_version: 2 },
        GuidanceRequest::Prepare {
            spi_version: 4,
            artifacts: vec![artifact_descriptor(b"x")],
            anchors: vec![],
            artifact_path: Some("evidence.json".to_owned()),
        },
        GuidanceRequest::Score {
            spi_version: 0,
            request_id: "r".to_owned(),
            context: global(&["a"]),
            candidates: vec![candidate("c1")],
        },
    ];
    for request in requests {
        assert_eq!(
            error_of(response_of(handle(&provider, &edition, request))),
            ("UNSUPPORTED_SPI_VERSION".to_owned(), "provider supports SPI version 3".to_owned(), false)
        );
    }
}

#[test]
fn failed_preparations_can_be_retried() {
    let edition = edition();
    let mut provider = Provider::default();
    let request =
        GuidanceRequest::Prepare { spi_version: 3, artifacts: vec![], anchors: vec![], artifact_path: None };
    let (code, message, retryable) = error_of(response_of(handle(&provider, &edition, request)));
    assert_eq!(code, "PREPARE_FAILED");
    assert_eq!(message, "resolved-lastfm-evidence-v1 artifact is required");
    assert!(retryable);

    let pending = || PendingPrepare {
        source: EvidenceSource::Artifact(artifact_descriptor(b"right")),
        anchors: vec![],
    };
    let (code, message, retryable) = error_of(pending().check(Ok(b"wrong".to_vec())).err().unwrap());
    assert_eq!((code.as_str(), message.as_str()), ("PREPARE_FAILED", "semantic artifact sha256 mismatch"));
    assert!(retryable);

    let (_, message, _) = error_of(pending().check(Err("gone".to_owned())).err().unwrap());
    assert_eq!(message, "cannot read semantic artifact: gone");

    let checked = pending().check(Ok(b"right".to_vec())).ok().unwrap();
    let (_, message, retryable) = error_of(checked.finish(&mut provider, Err("bad".to_owned())));
    assert_eq!(message, "cannot decode semantic artifact: bad");
    assert!(retryable);
}

#[test]
fn evidence_can_be_named_by_its_path() {
    let edition = edition();
    let mut provider = Provider::default();
    let mut other_kind = artifact_descriptor(b"x");
    other_kind.kind = "something-else".to_owned();
    let request = |artifacts: Vec<ArtifactDescriptor>| GuidanceRequest::Prepare {
        spi_version: 3,
        artifacts,
        anchors: vec![anchor("track", Some("other name"), &[])],
        artifact_path: Some("/path/to/semantic-evidence.json".to_owned()),
    };

    let pending = pending_of(handle(&provider, &edition, request(vec![other_kind])));
    assert_eq!(pending.source.path(), "/path/to/semantic-evidence.json");
    let (_, message, _) = error_of(pending.check(Err("gone".to_owned())).err().unwrap());
    assert_eq!(message, "cannot read semantic artifact: gone");

    let pending = pending_of(handle(&provider, &edition, request(vec![])));
    let checked = match pending.check(Ok(ARTISTS.as_bytes().to_vec())) {
        Ok(checked) => checked,
        Err(response) => panic!("unexpected {response:?}"),
    };
    assert_eq!(checked.bytes(), ARTISTS.as_bytes());
    let decoded = decode(checked.bytes());
    match checked.finish(&mut provider, decoded) {
        GuidanceResponse::Prepared { snapshot_id, .. } => {
            assert_eq!(snapshot_id, Some(format!("{:x}:sources:3", Sha256::digest(ARTISTS.as_bytes()))));
        }
        other => panic!("expected prepared response, got {other:?}"),
    }
    assert_eq!(candidates_reached(&provider, "track"), vec!["c2"]);
}

#[test]
fn bad_input_is_answered() {
    assert_eq!(
        error_of(invalid_request("expected value".to_owned())),
        ("INVALID_REQUEST".to_owned(), "expected value".to_owned(), false)
    );
    assert_eq!(
        error_of(input_failed("broken pipe".to_owned())),
        ("INPUT_FAILED".to_owned(), "broken pipe".to_owned(), false)
    );
    assert!(!holds_request(""));
    assert!(!holds_request(" \t\r\n\u{3000}"));
    assert!(holds_request(" {} "));
}

#[test]
fn the_command_line_is_read() {
    let parse = |args: &[&str]| parse_command(&args.iter().map(|arg| (*arg).to_owned()).collect());
    assert_eq!(parse(&[]), Command::Serve);
    assert_eq!(parse(&["version"]), Command::Version);
    assert_eq!(parse(&["version", "--json"]), Command::VersionJson);
    assert_eq!(parse(&["version", "--xml"]), Command::Usage);
    assert_eq!(parse(&["--json"]), Command::Usage);
    assert_eq!(parse(&["version", "--json", "more"]), Command::Usage);
    assert_eq!(
        usage(),
        "Usage:\n  bliss-guidance-lastfm version [--json]\n  bliss-guidance-lastfm"
    );
}

#[test]
fn versions_are_written() {
    assert_eq!(version_line(&edition()), "bliss-guidance-lastfm 0.1.0");
    let json = version_metadata_json(&edition());
    assert_eq!(
        json,
        "{\"schema_version\":1,\"program\":\"bliss-guidance-lastfm\",\"version\":\"0.1.0\",\"provider_id\":\"lastfm-guidance\",\"spi_version\":3}"
    );
    let value: Value = serde_json::from_str(&json).unwrap();
    assert_eq!(value.get("spi_version").and_then(|found| found.as_u64()), Some(3));
}

#[test]
fn a_digest_is_checked_against_the_descriptor() {
    let descriptor = ArtifactDescriptor {
        kind: "resolved-lastfm-evidence-v1".to_owned(),
        path: "evidence.json".to_owned(),
        sha256: "00FFab".to_owned(),
    };
    assert_eq!(check_digest(&descriptor, "00ffAB"), Ok(()));
    assert_eq!(check_digest(&descriptor, "00ffac"), Err("semantic artifact sha256 mismatch".to_owned()));
    assert_eq!(check_digest(&descriptor, ""), Err("semantic artifact sha256 mismatch".to_owned()));
}

#[test]
fn the_snapshot_is_named_after_the_digest_and_the_sources() {
    let mut provider = Provider::default();
    let edges = decode(TWO_SOURCES.as_bytes()).unwrap().edges;
    let (snapshot_id, _) = provider.install("digest", &edges, &vec![]);
    assert_eq!(snapshot_id, "digest:sources:3");
    let (snapshot_id, _) = provider.install("digest", &vec![], &vec![]);
    assert_eq!(snapshot_id, "digest:sources:0");
}
