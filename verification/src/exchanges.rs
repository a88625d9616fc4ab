//! What passes between the optimizer and the provider, request by request.
use crate::artists::artists_by_track;
use crate::digest::sha256;
use crate::evidence::{SemanticArtifact, SemanticEdge};
use crate::laws::{law_relations_stated, version_of};
use crate::outcomes::{
    describes, explains, feeds, has_artist, law_guidance_follows_evidence, law_manifest_describes, lemma_feeds,
    lemma_has_artist, refusal, went_well,
};
use crate::protocol::{
    Anchor, ArtifactDescriptor, Candidate, DetailsView, GuidanceRequest, GuidanceResponse, ResponseView, ScoreContext,
};
use crate::provider::{
    first_evidence, gives_digest, preparation_report, score_response, snapshot_name, EvidenceSource, Provider,
    ProviderView,
};
use crate::relations::{edge_key, related_sources, relations, RelationKey};
use crate::service::{
    answered, checked_as, command_of, finished_as, follows, version_json, Action, CheckedPrepare, Command,
    Edition, PendingPrepare,
};
use crate::text::{alike, decimal, hex, law_small_letters_join};
use vstd::prelude::*;

verus! {

/// The kind of an artifact with evidence.
pub open spec fn holds_evidence(artifact: ArtifactDescriptor) -> bool {
    artifact.kind@ == "resolved-lastfm-evidence-v1"@
}

/// A request in another version is answered with the version that is supported,
/// whatever it asks; a request to close states no version.
pub proof fn law_version_is_told(provider: Provider, edition: Edition, request: GuidanceRequest, action: Action)
    requires
        follows(provider, edition, request, action),
        match request {
            GuidanceRequest::Describe { spi_version } => spi_version != edition.spi_version,
            GuidanceRequest::Prepare { spi_version, .. } => spi_version != edition.spi_version,
            GuidanceRequest::Score { spi_version, .. } => spi_version != edition.spi_version,
            GuidanceRequest::Close => false,
        },
    ensures
        action matches Action::Respond(response) && response@ == refusal(
            "UNSUPPORTED_SPI_VERSION"@,
            "provider supports SPI version "@ + decimal(edition.spi_version as nat),
            false,
        ),
{
}

/// A request for a description is answered with one.
pub proof fn law_description_is_given(provider: Provider, edition: Edition, request: GuidanceRequest, action: Action)
    requires
        follows(provider, edition, request, action),
        request == (GuidanceRequest::Describe { spi_version: edition.spi_version }),
    ensures
        action matches Action::Respond(response) && response@ matches ResponseView::Manifest(manifest) && describes(
            manifest,
            edition,
        ),
{
    law_manifest_describes(edition);
}

/// A request to close is granted in the provider's name.
pub proof fn law_closing_is_granted(provider: Provider, edition: Edition, action: Action)
    requires
        follows(provider, edition, GuidanceRequest::Close, action),
    ensures
        action matches Action::Respond(response) && response@ == (ResponseView::Closed {
            provider_id: "lastfm-guidance"@,
        }),
{
}

/// The first artifact with evidence is the first of its kind.
proof fn lemma_first_evidence(artifacts: Seq<ArtifactDescriptor>, i: int)
    requires
        0 <= i < artifacts.len(),
        holds_evidence(artifacts[i]),
        forall|j: int| 0 <= j < i ==> !holds_evidence(#[trigger] artifacts[j]),
    ensures
        first_evidence(artifacts, i),
{
    assert forall|j: int| 0 <= j < i implies (#[trigger] artifacts[j]).kind@ != "resolved-lastfm-evidence-v1"@ by {
        assert(!holds_evidence(artifacts[j]));
    }
}

/// A preparation takes the first artifact with evidence that the request lists, or
/// else the path that it gives, and all its anchors. It is refused where the request
/// names no evidence in either way.
pub proof fn law_preparation_takes_the_first_evidence(
    provider: Provider,
    edition: Edition,
    artifacts: Vec<ArtifactDescriptor>,
    anchors: Vec<Anchor>,
    artifact_path: Option<String>,
    action: Action,
)
    requires
        follows(
            provider,
            edition,
            GuidanceRequest::Prepare { spi_version: edition.spi_version, artifacts, anchors, artifact_path },
            action,
        ),
    ensures
        forall|i: int|
            0 <= i < artifacts@.len() && holds_evidence(#[trigger] artifacts@[i]) && (forall|j: int|
                0 <= j < i ==> !holds_evidence(#[trigger] artifacts@[j])) ==> (action matches Action::Read(pending)
                && pending.source == EvidenceSource::Artifact(artifacts@[i]) && pending.anchors == anchors),
        (forall|i: int| 0 <= i < artifacts@.len() ==> !holds_evidence(#[trigger] artifacts@[i])) ==> match artifact_path {
            Some(path) => {
                &&& action matches Action::Read(pending)
                &&& pending.source == EvidenceSource::Path(path)
                &&& pending.anchors == anchors
            },
            None => action matches Action::Respond(response) && response@ == refusal(
                "PREPARE_FAILED"@,
                "resolved-lastfm-evidence-v1 artifact is required"@,
                true,
            ),
        },
{
    assert forall|i: int|
        0 <= i < artifacts@.len() && holds_evidence(#[trigger] artifacts@[i]) && (forall|j: int|
            0 <= j < i ==> !holds_evidence(#[trigger] artifacts@[j])) implies (action matches Action::Read(pending)
            && pending.source == EvidenceSource::Artifact(artifacts@[i]) && pending.anchors == anchors) by {
        lemma_first_evidence(artifacts@, i);
        let request: GuidanceRequest = GuidanceRequest::Prepare {
            spi_version: edition.spi_version,
            artifacts,
            anchors,
            artifact_path,
        };
        assert(follows(provider, edition, request, action));
        assert(first_evidence(request->artifacts@, i));
        assert(action is Read);
        let pending: PendingPrepare = action->Read_0;
        let k: int = choose|k: int| #[trigger]
            first_evidence(artifacts@, k) && pending.source == EvidenceSource::Artifact(artifacts@[k]);
        assert(first_evidence(artifacts@, k));
        assert(holds_evidence(artifacts@[k]));
        assert(k == i);
    }
    if forall|i: int| 0 <= i < artifacts@.len() ==> !holds_evidence(#[trigger] artifacts@[i]) {
        assert forall|i: int| !first_evidence(artifacts@, i) by {
            if first_evidence(artifacts@, i) {
                assert(!holds_evidence(artifacts@[i]));
            }
        }
    }
}

/// What is read is what the source names.
pub proof fn law_source_names_its_path(descriptor: ArtifactDescriptor, path: String)
    ensures
        EvidenceSource::Artifact(descriptor).spec_path() == descriptor.path@,
        EvidenceSource::Path(path).spec_path() == path@,
{
}

/// An artifact is taken where its SHA-256 digest in hexadecimal is the one that its
/// descriptor gives, in whatever letter case; bytes from a path are taken as they
/// are. A file that cannot be read, and an artifact with another digest, fail the
/// preparation.
pub proof fn law_artifact_is_checked(
    pending: PendingPrepare,
    read: Result<Vec<u8>, String>,
    checked: Result<CheckedPrepare, GuidanceResponse>,
)
    requires
        checked_as(pending, read, checked),
    ensures
        match read {
            Ok(bytes) => {
                let taken: bool = match pending.source {
                    EvidenceSource::Artifact(descriptor) => alike(hex(sha256(bytes@)), descriptor.sha256@),
                    EvidenceSource::Path(_) => true,
                };
                if taken {
                    &&& checked matches Ok(prepare)
                    &&& prepare.spec_bytes() == bytes@
                    &&& prepare.spec_anchors() == pending.anchors@
                } else {
                    checked matches Err(response) && response@ == refusal(
                        "PREPARE_FAILED"@,
                        "semantic artifact sha256 mismatch"@,
                        true,
                    )
                }
            },
            Err(error) => checked matches Err(response) && response@ == refusal(
                "PREPARE_FAILED"@,
                "cannot read semantic artifact: "@ + error@,
                true,
            ),
        },
{
    if read is Ok && pending.source is Artifact {
        law_small_letters_join(hex(sha256(read->Ok_0@)), pending.source->Artifact_0.sha256@);
    }
}

/// Any digest is the one that a descriptor gives exactly where the two are the same
/// but for letter case.
pub proof fn law_digest_is_given(descriptor: ArtifactDescriptor, digest: Seq<char>)
    ensures
        gives_digest(descriptor, digest) <==> alike(digest, descriptor.sha256@),
{
    law_small_letters_join(digest, descriptor.sha256@);
}

/// A relation that some edge states: of this source to this candidate, through this
/// channel.
pub open spec fn stated(edges: Seq<SemanticEdge>, key: RelationKey) -> bool {
    exists|i: int|
        0 <= i < edges.len() && (#[trigger] edges[i]).source.id@ == key.source && (
        edges[i].resolved_candidate_id matches Some(resolved) && resolved@ == key.candidate) && feeds(
            edges[i].source.kind@,
            key.channel.spec_name(),
        )
}

/// The edge is resolved to a candidate, and gives guidance through some channel.
pub open spec fn resolved(edge: SemanticEdge) -> bool {
    &&& edge.resolved_candidate_id is Some
    &&& edge.source.kind@ == "recording"@ || edge.source.kind@ == "track"@ || edge.source.kind@ == "artist"@
}

/// The relations that edges state.
pub open spec fn all_stated(edges: Seq<SemanticEdge>) -> Set<RelationKey> {
    Set::new(|key: RelationKey| stated(edges, key))
}

/// The sources of resolved edges.
pub open spec fn all_sources(edges: Seq<SemanticEdge>) -> Set<Seq<char>> {
    Set::new(
        |id: Seq<char>| exists|i: int| 0 <= i < edges.len() && resolved(#[trigger] edges[i]) && edges[i].source.id@ == id,
    )
}

/// The anchors behind which evidence knows an artist.
pub open spec fn all_mapped(edges: Seq<SemanticEdge>, anchors: Seq<Anchor>) -> Set<Seq<char>> {
    Set::new(
        |id: Seq<char>|
            exists|k: int|
                0 <= k < anchors.len() && (#[trigger] anchors[k]).anchor_id@ == id && has_artist(
                    edges,
                    anchors[k].track,
                ),
    )
}

/// An edge is about a relation where it states it.
proof fn lemma_stated(edge: SemanticEdge, key: RelationKey)
    ensures
        edge_key(edge) == Some(key) <==> (edge.source.id@ == key.source && (
        edge.resolved_candidate_id matches Some(resolved) && resolved@ == key.candidate) && feeds(
            edge.source.kind@,
            key.channel.spec_name(),
        )),
{
    lemma_feeds(edge.source.kind@, key.channel);
}

/// Relations are held where edges state them.
proof fn lemma_all_stated(edges: Seq<SemanticEdge>)
    ensures
        relations(edges).dom() == all_stated(edges),
{
    assert forall|key: RelationKey| relations(edges).dom().contains(key) <==> all_stated(edges).contains(key) by {
        law_relations_stated(edges, key);
        if relations(edges).contains_key(key) {
            let i: int = choose|i: int| 0 <= i < edges.len() && edge_key(#[trigger] edges[i]) == Some(key);
            lemma_stated(edges[i], key);
        }
        if stated(edges, key) {
            let i: int = choose|i: int|
                0 <= i < edges.len() && (#[trigger] edges[i]).source.id@ == key.source && (
                edges[i].resolved_candidate_id matches Some(resolved) && resolved@ == key.candidate) && feeds(
                    edges[i].source.kind@,
                    key.channel.spec_name(),
                );
            lemma_stated(edges[i], key);
        }
    }
    assert(relations(edges).dom() =~= all_stated(edges));
}

/// The sources with a relation are those of resolved edges.
proof fn lemma_all_sources(edges: Seq<SemanticEdge>)
    ensures
        related_sources(relations(edges)) == all_sources(edges),
{
    let held: Set<RelationKey> = relations(edges).dom();
    let pick = |key: RelationKey| key.source;
    assert forall|id: Seq<char>| related_sources(relations(edges)).contains(id) <==> all_sources(edges).contains(id) by {
        if related_sources(relations(edges)).contains(id) {
            let key: RelationKey = choose|key: RelationKey| #[trigger] held.contains(key) && pick(key) == id;
            law_relations_stated(edges, key);
            let i: int = choose|i: int| 0 <= i < edges.len() && edge_key(#[trigger] edges[i]) == Some(key);
            assert(resolved(edges[i]) && edges[i].source.id@ == id);
        }
        if all_sources(edges).contains(id) {
            let i: int = choose|i: int|
                0 <= i < edges.len() && resolved(#[trigger] edges[i]) && edges[i].source.id@ == id;
            let key: RelationKey = edge_key(edges[i])->0;
            law_relations_stated(edges, key);
            assert(held.contains(key) && pick(key) == id);
        }
    }
    assert(related_sources(relations(edges)) =~= all_sources(edges));
}

/// Tracks are mapped where an anchor has artists.
proof fn lemma_all_mapped(edges: Seq<SemanticEdge>, anchors: Seq<Anchor>)
    ensures
        artists_by_track(edges, anchors).dom() == all_mapped(edges, anchors),
    decreases anchors.len(),
{
    if anchors.len() == 0 {
        assert(artists_by_track(edges, anchors).dom() =~= all_mapped(edges, anchors));
    } else {
        let rest: Seq<Anchor> = anchors.drop_last();
        let last: int = anchors.len() - 1;
        assert(anchors[last] == anchors.last());
        assert(forall|k: int| 0 <= k < rest.len() ==> #[trigger] rest[k] == anchors[k]);
        lemma_all_mapped(edges, rest);
        lemma_has_artist(edges, anchors.last().track);
        assert forall|id: Seq<char>|
            artists_by_track(edges, anchors).dom().contains(id) <==> all_mapped(edges, anchors).contains(id) by {
            if all_mapped(edges, rest).contains(id) {
                let k: int = choose|k: int|
                    0 <= k < rest.len() && (#[trigger] rest[k]).anchor_id@ == id && has_artist(edges, rest[k].track);
                assert(anchors[k].anchor_id@ == id && has_artist(edges, anchors[k].track));
            }
            if all_mapped(edges, anchors).contains(id) {
                let k: int = choose|k: int|
                    0 <= k < anchors.len() && (#[trigger] anchors[k]).anchor_id@ == id && has_artist(
                        edges,
                        anchors[k].track,
                    );
                if k < last {
                    assert(rest[k].anchor_id@ == id && has_artist(edges, rest[k].track));
                }
            }
        }
        assert(artists_by_track(edges, anchors).dom() =~= all_mapped(edges, anchors));
    }
}

/// What evidence leaves is named after its digest and the number of its sources, and
/// is counted: sources, mapped tracks and relations, each once.
pub proof fn law_evidence_is_counted(digest: Seq<char>, edges: Seq<SemanticEdge>, anchors: Seq<Anchor>)
    ensures
        snapshot_name(digest, edges) == digest + ":sources:"@ + decimal(all_sources(edges).len()),
        went_well(
            preparation_report(edges, anchors),
            DetailsView::Prepared {
                source_entities: all_sources(edges).len(),
                track_artist_mappings: all_mapped(edges, anchors).len(),
                resolved_candidate_edges: all_stated(edges).len(),
            },
        ),
{
    lemma_all_stated(edges);
    lemma_all_sources(edges);
    lemma_all_mapped(edges, anchors);
}

/// A provider without evidence refuses every request for scores.
pub proof fn law_no_scores_without_evidence(
    provider: ProviderView,
    request_id: Seq<char>,
    context: ScoreContext,
    candidates: Seq<Candidate>,
)
    requires
        !provider.prepared,
    ensures
        score_response(provider, request_id, context, candidates) == refusal(
            "NOT_PREPARED"@,
            "provider must receive prepare before score"@,
            false,
        ),
{
}

/// A preparation reports what it took in: the state is named after the digest of the
/// artifact and the number of its sources, and sources, mapped tracks and relations
/// are counted, each once. An artifact that cannot be decoded, or has another schema
/// than the first, fails the preparation and leaves the provider as it was.
pub proof fn law_preparation_reports(
    prepare: CheckedPrepare,
    decoded: Result<SemanticArtifact, String>,
    before: Provider,
    response: GuidanceResponse,
    after: Provider,
)
    requires
        finished_as(prepare, decoded, before, response, after),
    ensures
        match decoded {
            Ok(artifact) => if artifact.schema_version == 1 {
                &&& response@ is Prepared
                &&& response@->Prepared_provider_id == "lastfm-guidance"@
                &&& response@->snapshot_id == Some(
                    hex(sha256(prepare.spec_bytes())) + ":sources:"@ + decimal(all_sources(artifact.edges@).len()),
                )
                &&& went_well(
                    response@->Prepared_diagnostics,
                    DetailsView::Prepared {
                        source_entities: all_sources(artifact.edges@).len(),
                        track_artist_mappings: all_mapped(artifact.edges@, prepare.spec_anchors()).len(),
                        resolved_candidate_edges: all_stated(artifact.edges@).len(),
                    },
                )
            } else {
                &&& after == before
                &&& response@ == refusal("PREPARE_FAILED"@, "unsupported semantic artifact schema"@, true)
            },
            Err(error) => {
                &&& after == before
                &&& response@ == refusal("PREPARE_FAILED"@, "cannot decode semantic artifact: "@ + error@, true)
            },
        },
{
    if decoded is Ok {
        law_evidence_is_counted(
            hex(sha256(prepare.spec_bytes())),
            decoded->Ok_0.edges@,
            prepare.spec_anchors(),
        );
    }
}

/// From a request to prepare to a request for scores: once the artifact that the
/// preparation waits for has been read, checked and decoded, a request for scores is
/// answered from the edges of the artifact, the anchors of the first request, and the
/// context and the candidates of the second.
pub proof fn law_scores_answer_the_preparation(
    edition: Edition,
    start: Provider,
    preparation: GuidanceRequest,
    pending: PendingPrepare,
    read: Result<Vec<u8>, String>,
    prepare: CheckedPrepare,
    artifact: SemanticArtifact,
    report: GuidanceResponse,
    provider: Provider,
    request_id: String,
    context: ScoreContext,
    candidates: Vec<Candidate>,
    action: Action,
) -> (origins: Seq<(int, Seq<char>)>)
    requires
        preparation is Prepare,
        preparation->Prepare_spi_version == edition.spi_version,
        follows(start, edition, preparation, Action::Read(pending)),
        checked_as(pending, read, Ok(prepare)),
        artifact.schema_version == 1,
        finished_as(prepare, Ok(artifact), start, report, provider),
        follows(
            provider,
            edition,
            GuidanceRequest::Score { spi_version: edition.spi_version, request_id, context, candidates },
            action,
        ),
    ensures
        action is Respond,
        ({
            let response: ResponseView = action->Respond_0@;
            &&& response is Scores
            &&& response->Scores_provider_id == "lastfm-guidance"@
            &&& response->request_id == request_id@
            &&& explains(
                artifact.edges@,
                preparation->anchors@,
                context,
                candidates@,
                response->signals,
                origins,
            )
            &&& went_well(
                response->Scores_diagnostics,
                DetailsView::Scored { matched_candidates: response->signals.len() },
            )
        }),
{
    law_guidance_follows_evidence(
        hex(sha256(prepare.spec_bytes())),
        artifact.edges@,
        preparation->anchors@,
        request_id@,
        context,
        candidates@,
    )
}

/// Only an answered preparation changes the provider.
pub proof fn law_other_answers_change_nothing(
    before: Provider,
    edition: Edition,
    request: GuidanceRequest,
    response: GuidanceResponse,
    after: Provider,
)
    requires
        answered(before, edition, request, response, after),
        !(response@ is Prepared),
    ensures
        after == before,
{
}

/// A preparation is an answer to a request to prepare in the supported version, and
/// scores are an answer to a request for scores in it.
pub proof fn law_answers_fit_requests(
    before: Provider,
    edition: Edition,
    request: GuidanceRequest,
    response: GuidanceResponse,
    after: Provider,
)
    requires
        answered(before, edition, request, response, after),
    ensures
        response@ is Prepared ==> request is Prepare && version_of(request) == Some(edition.spi_version),
        response@ is Scores ==> request is Score && version_of(request) == Some(edition.spi_version),
        response@ is Manifest ==> request is Describe && version_of(request) == Some(edition.spi_version),
        response@ is Closed ==> request is Close,
{
}

/// The program serves without arguments, tells its version on `version`, writes it as
/// JSON where `--json` follows, and tells how it is called on anything else.
pub proof fn law_arguments_select_the_command(args: Seq<Seq<char>>)
    ensures
        command_of(args) == Command::Serve <==> args.len() == 0,
        command_of(args) == Command::Version <==> args.len() == 1 && args[0] == "version"@,
        command_of(args) == Command::VersionJson <==> args.len() == 2 && args[0] == "version"@ && args[1]
            == "--json"@,
{
    if args.len() == 0 {
        assert(args =~= Seq::<Seq<char>>::empty());
    }
    if args.len() == 1 && args[0] == "version"@ {
        assert(args =~= seq!["version"@]);
    }
    if args.len() == 2 && args[0] == "version"@ && args[1] == "--json"@ {
        assert(args =~= seq!["version"@, "--json"@]);
    }
    assert(seq!["version"@].len() == 1);
    assert(seq!["version"@, "--json"@].len() == 2);
}

/// The version as JSON is an object with the program, its version, the provider and
/// the version of the protocol, in this order.
pub proof fn law_version_is_written_out(edition: Edition)
    ensures
        version_json(edition) == "{\"schema_version\":1,\"program\":\"bliss-guidance-lastfm\",\"version\":\""@
            + edition.provider_version@ + "\",\"provider_id\":\"lastfm-guidance\",\"spi_version\":"@ + decimal(
            edition.spi_version as nat,
        ) + "}"@,
{
    reveal_strlit("{\"schema_version\":1,\"program\":\"");
    reveal_strlit("bliss-guidance-lastfm");
    reveal_strlit("\",\"version\":\"");
    reveal_strlit("{\"schema_version\":1,\"program\":\"bliss-guidance-lastfm\",\"version\":\"");
    reveal_strlit("\",\"provider_id\":\"");
    reveal_strlit("lastfm-guidance");
    reveal_strlit("\",\"spi_version\":");
    reveal_strlit("\",\"provider_id\":\"lastfm-guidance\",\"spi_version\":");
    let version: Seq<char> = edition.provider_version@;
    let start: Seq<char> = "{\"schema_version\":1,\"program\":\""@ + "bliss-guidance-lastfm"@ + "\",\"version\":\""@;
    let middle: Seq<char> = "\",\"provider_id\":\""@ + "lastfm-guidance"@ + "\",\"spi_version\":"@;
    assert(start =~= "{\"schema_version\":1,\"program\":\"bliss-guidance-lastfm\",\"version\":\""@);
    assert(middle =~= "\",\"provider_id\":\"lastfm-guidance\",\"spi_version\":"@);
    assert(version_json(edition) =~= start + version + middle + decimal(edition.spi_version as nat) + "}"@);
}

} // verus!
