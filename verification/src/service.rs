//! The service around the provider: requests, responses and the command line.
//!
//! A request is answered at once, or it needs the evidence artifact first. In
//! the second case the caller reads the file, has it checked against the digest
//! where one is given, decodes it, and hands the outcome of each step back.
use crate::digest::fingerprint;
use crate::evidence::{Channel, SemanticArtifact};
use crate::names::same_name;
use crate::protocol::{
    Anchor, ArtifactDescriptor, Capability, ChannelDescriptor, ChannelView, ConfigurationSchema, GuidanceRequest,
    GuidanceResponse, GuidanceScope, Manifest, ManifestView, ResponseView, SchemaView,
};
use crate::provider::{
    failure, failure_view, first_evidence, prepared_with, preparation_report, score_response, select_artifact,
    snapshot_name, verify_artifact, Evidence, EvidenceSource, Provider, NO_EVIDENCE, PROVIDER_ID,
};
use crate::text::{decimal, decimal_text, trim, trimmed};
use vstd::prelude::*;
use vstd::string::StringExecFns;

verus! {

/// The name of the program.
pub const PROGRAM: &'static str = "bliss-guidance-lastfm";

/// What a build of the provider is: its version, and the version and the name of
/// the protocol that it speaks.
pub struct Edition {
    pub provider_version: String,
    pub spi_version: u32,
    pub protocol: String,
}

/// The version of the program as JSON.
pub open spec fn version_json(edition: Edition) -> Seq<char> {
    "{\"schema_version\":1,\"program\":\""@ + PROGRAM@ + "\",\"version\":\""@ + edition.provider_version@
        + "\",\"provider_id\":\""@ + PROVIDER_ID@ + "\",\"spi_version\":"@ + decimal(edition.spi_version as nat) + "}"@
}

/// Writes the version of the program as JSON.
pub fn version_metadata_json(edition: &Edition) -> (json: String)
    ensures
        json@ == version_json(*edition),
{
    let mut json: String = "{\"schema_version\":1,\"program\":\"".to_owned();
    json.append(PROGRAM);
    json.append("\",\"version\":\"");
    json.append(edition.provider_version.as_str());
    json.append("\",\"provider_id\":\"");
    json.append(PROVIDER_ID);
    json.append("\",\"spi_version\":");
    json.append(decimal_text(edition.spi_version as u64).as_str());
    json.append("}");
    json
}

/// Writes the version of the program for people.
pub fn version_line(edition: &Edition) -> (line: String)
    ensures
        line@ == PROGRAM@ + " "@ + edition.provider_version@,
{
    let mut line: String = PROGRAM.to_owned();
    line.append(" ");
    line.append(edition.provider_version.as_str());
    line
}

/// How the program is called.
pub fn usage() -> (text: &'static str)
    ensures
        text@ == "Usage:\n  bliss-guidance-lastfm version [--json]\n  bliss-guidance-lastfm"@,
{
    "Usage:\n  bliss-guidance-lastfm version [--json]\n  bliss-guidance-lastfm"
}

/// What the program is asked to do.
#[derive(Clone, Copy, Debug, PartialEq, Eq, Structural)]
pub enum Command {
    Serve,
    Version,
    VersionJson,
    Usage,
}

/// What the arguments of the program ask for.
pub open spec fn command_of(args: Seq<Seq<char>>) -> Command {
    if args == Seq::<Seq<char>>::empty() {
        Command::Serve
    } else if args == seq!["version"@] {
        Command::Version
    } else if args == seq!["version"@, "--json"@] {
        Command::VersionJson
    } else {
        Command::Usage
    }
}

/// Reads the arguments of the program.
pub fn parse_command(args: &Vec<String>) -> (command: Command)
    ensures
        command == command_of(args.deep_view()),
{
    let ghost texts: Seq<Seq<char>> = args.deep_view();
    assert(texts.len() == args@.len());
    assert(forall|i: int| 0 <= i < args@.len() ==> texts[i] == (#[trigger] args@[i])@);
    if args.len() == 0 {
        assert(texts =~= Seq::<Seq<char>>::empty());
        return Command::Serve;
    }
    if args.len() == 1 && same_name(args[0].as_str(), "version") {
        assert(texts =~= seq!["version"@]);
        return Command::Version;
    }
    if args.len() == 2 && same_name(args[0].as_str(), "version") && same_name(args[1].as_str(), "--json") {
        assert(texts =~= seq!["version"@, "--json"@]);
        assert(texts != seq!["version"@]) by {
            assert(seq!["version"@].len() == 1);
        }
        return Command::VersionJson;
    }
    proof {
        if texts == seq!["version"@] {
            assert(texts[0] == args@[0]@);
            assert(false);
        }
        if texts == seq!["version"@, "--json"@] {
            assert(texts[0] == args@[0]@);
            assert(texts[1] == args@[1]@);
            assert(false);
        }
    }
    Command::Usage
}

/// What the provider says of itself.
pub open spec fn manifest_view(edition: Edition) -> ManifestView {
    let scopes: Seq<GuidanceScope> = seq![GuidanceScope::Edge, GuidanceScope::Global];
    ManifestView {
        spi_version: edition.spi_version,
        provider_id: PROVIDER_ID@,
        provider_version: edition.provider_version@,
        protocol: edition.protocol@,
        capabilities: seq![Capability::GlobalCandidateGuidance, Capability::EdgeCandidateGuidance],
        channels: seq![
            ChannelView { channel: "lastfm_track"@, scopes },
            ChannelView { channel: "lastfm_artist"@, scopes },
        ],
        required_context: seq!["candidate_identity"@, "route_context"@],
        configuration_schema: Some(SchemaView { value_type: "object"@, additional_properties: false }),
    }
}

/// A channel that gives guidance in both scopes.
fn describe_channel(channel: Channel) -> (descriptor: ChannelDescriptor)
    ensures
        descriptor@ == (ChannelView {
            channel: channel.spec_name(),
            scopes: seq![GuidanceScope::Edge, GuidanceScope::Global],
        }),
{
    let scopes: Vec<GuidanceScope> = vec![GuidanceScope::Edge, GuidanceScope::Global];
    assert(scopes@ =~= seq![GuidanceScope::Edge, GuidanceScope::Global]);
    ChannelDescriptor { channel: channel.name().to_owned(), scopes }
}

impl Provider {
    /// What the provider says of itself.
    pub fn manifest(edition: &Edition) -> (manifest: Manifest)
        ensures
            manifest@ == manifest_view(*edition),
    {
        let manifest: Manifest = Manifest {
            spi_version: edition.spi_version,
            provider_id: PROVIDER_ID.to_owned(),
            provider_version: edition.provider_version.clone(),
            protocol: edition.protocol.clone(),
            capabilities: vec![Capability::GlobalCandidateGuidance, Capability::EdgeCandidateGuidance],
            channels: vec![describe_channel(Channel::Track), describe_channel(Channel::Artist)],
            required_context: vec!["candidate_identity".to_owned(), "route_context".to_owned()],
            configuration_schema: Some(
                ConfigurationSchema { value_type: "object".to_owned(), additional_properties: false },
            ),
        };
        assert(manifest@.capabilities =~= manifest_view(*edition).capabilities);
        assert(manifest@.channels =~= manifest_view(*edition).channels);
        assert(manifest@.required_context =~= manifest_view(*edition).required_context);
        manifest
    }
}

/// A preparation that waits for the contents of an artifact.
pub struct PendingPrepare {
    pub source: EvidenceSource,
    pub anchors: Vec<Anchor>,
}

/// A preparation whose artifact has been read, and is the one that its source
/// describes.
pub struct CheckedPrepare {
    source: EvidenceSource,
    anchors: Vec<Anchor>,
    evidence: Evidence,
}

/// What follows from a request: an answer, or the artifact to read first.
pub enum Action {
    Respond(GuidanceResponse),
    Read(PendingPrepare),
}

/// The answer to a request in another version of the protocol.
pub open spec fn unsupported_version(edition: Edition) -> ResponseView {
    failure_view(
        "UNSUPPORTED_SPI_VERSION"@,
        "provider supports SPI version "@ + decimal(edition.spi_version as nat),
        false,
    )
}

/// The answer to a preparation that failed.
pub open spec fn prepare_failed(message: Seq<char>) -> ResponseView {
    failure_view("PREPARE_FAILED"@, message, true)
}

fn refuse_version(edition: &Edition) -> (action: Action)
    ensures
        action matches Action::Respond(response) && response@ == unsupported_version(*edition),
{
    let mut message: String = "provider supports SPI version ".to_owned();
    message.append(decimal_text(edition.spi_version as u64).as_str());
    Action::Respond(failure("UNSUPPORTED_SPI_VERSION", message, false))
}

/// What follows from a request.
pub open spec fn follows(provider: Provider, edition: Edition, request: GuidanceRequest, action: Action) -> bool {
    match request {
        GuidanceRequest::Describe { spi_version } => {
            &&& action matches Action::Respond(response)
            &&& response@ == (if spi_version == edition.spi_version {
                ResponseView::Manifest(manifest_view(edition))
            } else {
                unsupported_version(edition)
            })
        },
        GuidanceRequest::Prepare { spi_version, artifacts, anchors, artifact_path } => {
            if spi_version != edition.spi_version {
                action matches Action::Respond(response) && response@ == unsupported_version(edition)
            } else if exists|i: int| first_evidence(artifacts@, i) {
                &&& action matches Action::Read(pending)
                &&& exists|i: int| #[trigger]
                    first_evidence(artifacts@, i) && pending.source == EvidenceSource::Artifact(artifacts@[i])
                &&& pending.anchors == anchors
            } else {
                match artifact_path {
                    Some(path) => {
                        &&& action matches Action::Read(pending)
                        &&& pending.source == EvidenceSource::Path(path)
                        &&& pending.anchors == anchors
                    },
                    None => action matches Action::Respond(response) && response@ == prepare_failed(NO_EVIDENCE@),
                }
            }
        },
        GuidanceRequest::Score { spi_version, request_id, context, candidates } => {
            &&& action matches Action::Respond(response)
            &&& response@ == (if spi_version == edition.spi_version {
                score_response(provider@, request_id@, context, candidates@)
            } else {
                unsupported_version(edition)
            })
        },
        GuidanceRequest::Close => {
            &&& action matches Action::Respond(response)
            &&& response@ == (ResponseView::Closed { provider_id: PROVIDER_ID@ })
        },
    }
}

/// Answers a request, or says which artifact to read first.
pub fn handle(provider: &Provider, edition: &Edition, request: GuidanceRequest) -> (action: Action)
    requires
        provider.wf(),
    ensures
        follows(*provider, *edition, request, action),
{
    match request {
        GuidanceRequest::Describe { spi_version } => {
            if spi_version != edition.spi_version {
                return refuse_version(edition);
            }
            Action::Respond(GuidanceResponse::Manifest(Provider::manifest(edition)))
        },
        GuidanceRequest::Prepare { spi_version, artifacts, anchors, artifact_path } => {
            if spi_version != edition.spi_version {
                return refuse_version(edition);
            }
            let mut artifacts: Vec<ArtifactDescriptor> = artifacts;
            match (select_artifact(&artifacts), artifact_path) {
                (Ok(i), _) => Action::Read(
                    PendingPrepare { source: EvidenceSource::Artifact(artifacts.swap_remove(i)), anchors },
                ),
                (Err(_), Some(path)) => Action::Read(PendingPrepare { source: EvidenceSource::Path(path), anchors }),
                (Err(message), None) => Action::Respond(failure("PREPARE_FAILED", message, true)),
            }
        },
        GuidanceRequest::Score { spi_version, request_id, context, candidates } => {
            if spi_version != edition.spi_version {
                return refuse_version(edition);
            }
            Action::Respond(provider.score(request_id.as_str(), &context, &candidates))
        },
        GuidanceRequest::Close => Action::Respond(
            GuidanceResponse::Closed { provider_id: PROVIDER_ID.to_owned() },
        ),
    }
}

/// What follows from reading the artifact of a preparation.
pub open spec fn checked_as(
    pending: PendingPrepare,
    read: Result<Vec<u8>, String>,
    checked: Result<CheckedPrepare, GuidanceResponse>,
) -> bool {
    match read {
        Ok(bytes) => if pending.source.accepts(bytes@) {
            &&& checked matches Ok(prepare)
            &&& prepare.spec_source() == pending.source
            &&& prepare.spec_anchors() == pending.anchors@
            &&& prepare.spec_bytes() == bytes@
        } else {
            checked matches Err(response) && response@ == prepare_failed("semantic artifact sha256 mismatch"@)
        },
        Err(error) => checked matches Err(response) && response@ == prepare_failed(
            "cannot read semantic artifact: "@ + error@,
        ),
    }
}

/// What follows from decoding the artifact of a preparation: the answer, and the
/// provider after it.
pub open spec fn finished_as(
    prepare: CheckedPrepare,
    decoded: Result<SemanticArtifact, String>,
    before: Provider,
    response: GuidanceResponse,
    after: Provider,
) -> bool {
    match decoded {
        Ok(artifact) => if artifact.schema_version == 1 {
            let digest: Seq<char> = fingerprint(prepare.spec_bytes());
            &&& after@ == prepared_with(digest, artifact.edges@, prepare.spec_anchors())
            &&& response@ == (ResponseView::Prepared {
                provider_id: PROVIDER_ID@,
                snapshot_id: Some(snapshot_name(digest, artifact.edges@)),
                diagnostics: preparation_report(artifact.edges@, prepare.spec_anchors()),
            })
        } else {
            &&& after == before
            &&& response@ == prepare_failed("unsupported semantic artifact schema"@)
        },
        Err(error) => {
            &&& after == before
            &&& response@ == prepare_failed("cannot decode semantic artifact: "@ + error@)
        },
    }
}

/// What a preparation is answered, whatever reading and decoding its artifact
/// give, and the provider after the answer.
pub open spec fn prepared_as(
    before: Provider,
    pending: PendingPrepare,
    response: GuidanceResponse,
    after: Provider,
) -> bool {
    exists|read: Result<Vec<u8>, String>, checked: Result<CheckedPrepare, GuidanceResponse>| #[trigger]
        checked_as(pending, read, checked) && match checked {
            Ok(prepare) => exists|decoded: Result<SemanticArtifact, String>| #[trigger]
                finished_as(prepare, decoded, before, response, after),
            Err(refusal) => response == refusal && after == before,
        }
}

/// What a request is answered, whatever reading and decoding an artifact give,
/// and the provider after the answer.
pub open spec fn answered(
    before: Provider,
    edition: Edition,
    request: GuidanceRequest,
    response: GuidanceResponse,
    after: Provider,
) -> bool {
    exists|action: Action| #[trigger]
        follows(before, edition, request, action) && match action {
            Action::Respond(answer) => response == answer && after == before,
            Action::Read(pending) => prepared_as(before, pending, response, after),
        }
}

impl PendingPrepare {
    /// Checks what reading the artifact gave.
    pub fn check(self, read: Result<Vec<u8>, String>) -> (checked: Result<CheckedPrepare, GuidanceResponse>)
        ensures
            checked_as(self, read, checked),
    {
        match verify_artifact(&self.source, read) {
            Ok(evidence) => Ok(CheckedPrepare { source: self.source, anchors: self.anchors, evidence }),
            Err(message) => Err(failure("PREPARE_FAILED", message, true)),
        }
    }
}

impl CheckedPrepare {
    #[verifier::type_invariant]
    spec fn evidence_is_accepted(self) -> bool {
        self.source.accepts(self.evidence.spec_bytes())
    }

    /// Where the evidence was read.
    pub closed spec fn spec_source(self) -> EvidenceSource {
        self.source
    }

    /// The anchors of the preparation.
    pub closed spec fn spec_anchors(self) -> Seq<Anchor> {
        self.anchors@
    }

    /// The bytes that were read.
    pub closed spec fn spec_bytes(self) -> Seq<u8> {
        self.evidence.spec_bytes()
    }

    /// The bytes that were read, for decoding. They are those that the source
    /// describes.
    pub fn bytes(&self) -> (bytes: &Vec<u8>)
        ensures
            bytes@ == self.spec_bytes(),
            self.spec_source().accepts(bytes@),
    {
        proof {
            use_type_invariant(self);
        }
        self.evidence.bytes()
    }

    /// Takes in the evidence, given what decoding it gave, and answers.
    pub fn finish(
        &self,
        provider: &mut Provider,
        decoded: Result<SemanticArtifact, String>,
    ) -> (response: GuidanceResponse)
        requires
            old(provider).wf(),
        ensures
            final(provider).wf(),
            finished_as(*self, decoded, *old(provider), response, *final(provider)),
    {
        match provider.prepare_with_anchors(&self.evidence, decoded, &self.anchors) {
            Ok((snapshot_id, diagnostics)) => GuidanceResponse::Prepared {
                provider_id: PROVIDER_ID.to_owned(),
                snapshot_id,
                diagnostics,
            },
            Err(message) => failure("PREPARE_FAILED", message, true),
        }
    }
}

/// Whether a line of input holds a request; a blank line holds none.
pub fn holds_request(line: &str) -> (holds: bool)
    ensures
        holds == (trimmed(line@).len() > 0),
{
    !trim(line).is_empty()
}

/// The answer to a line that is no request.
pub fn invalid_request(error: String) -> (response: GuidanceResponse)
    ensures
        response@ == failure_view("INVALID_REQUEST"@, error@, false),
{
    failure("INVALID_REQUEST", error, false)
}

/// The last word where the input cannot be read.
pub fn input_failed(error: String) -> (response: GuidanceResponse)
    ensures
        response@ == failure_view("INPUT_FAILED"@, error@, false),
{
    failure("INPUT_FAILED", error, false)
}

/// Whether the service stops after a response.
pub fn ends_service(response: &GuidanceResponse) -> (ends: bool)
    ensures
        ends == (response@ is Closed),
{
    match response {
        GuidanceResponse::Closed { .. } => true,
        _ => false,
    }
}

} // verus!
