//! The provider: what it keeps of the evidence, and the guidance it gives.
use crate::artists::{artists_by_track, grouped, groups_wf, map_artists};
use crate::digest::{fingerprint, sha256_hex};
use crate::evidence::{Channel, SemanticArtifact, SemanticEdge};
use crate::names::{in_order, same_name, NameMap, NameSet};
use crate::protocol::{
    signal_views, Anchor, ArtifactDescriptor, Candidate, Details, DetailsView, Diagnostics, DiagnosticsView,
    GuidanceResponse, GuidanceScope, GuidanceSignal, ResponseView, ScoreContext, SignalView,
};
use crate::relations::{
    copy_text, lookup, related_sources, relations, EdgeScore, Relation, RelationKey, RelationTable,
};
use crate::text::{ascii_lowercase, decimal, decimal_text};
use vstd::prelude::*;
use vstd::string::StringExecFns;

verus! {

/// The ID under which the optimizer knows the provider.
pub const PROVIDER_ID: &'static str = "lastfm-guidance";

/// The kind of the artifact that holds the evidence.
pub const EVIDENCE_KIND: &'static str = "resolved-lastfm-evidence-v1";

/// What is said of a preparation that names no evidence.
pub const NO_EVIDENCE: &'static str = "resolved-lastfm-evidence-v1 artifact is required";

/// What a provider keeps, in terms of text, sets and maps.
#[verifier::ext_equal]
pub struct ProviderView {
    pub relations: Map<RelationKey, Relation>,
    pub artists: Map<Seq<char>, Set<Seq<char>>>,
    pub snapshot_id: Option<Seq<char>>,
    pub prepared: bool,
}

/// A provider of Last.fm guidance.
pub struct Provider {
    relations: RelationTable,
    artists: NameMap<NameSet>,
    snapshot_id: Option<String>,
    prepared: bool,
}

impl View for Provider {
    type V = ProviderView;

    closed spec fn view(&self) -> ProviderView {
        ProviderView {
            relations: self.relations@,
            artists: grouped(self.artists),
            snapshot_id: self.snapshot_id.deep_view(),
            prepared: self.prepared,
        }
    }
}

/// A provider that has seen no evidence.
pub open spec fn unprepared() -> ProviderView {
    ProviderView {
        relations: Map::empty(),
        artists: Map::empty(),
        snapshot_id: None,
        prepared: false,
    }
}

/// The name of the state that evidence leaves.
pub open spec fn snapshot_name(digest: Seq<char>, edges: Seq<SemanticEdge>) -> Seq<char> {
    digest + ":sources:"@ + decimal(related_sources(relations(edges)).len())
}

/// A provider that has taken in evidence. Nothing of an earlier state is left.
pub open spec fn prepared_with(digest: Seq<char>, edges: Seq<SemanticEdge>, anchors: Seq<Anchor>) -> ProviderView {
    ProviderView {
        relations: relations(edges),
        artists: artists_by_track(edges, anchors),
        snapshot_id: Some(snapshot_name(digest, edges)),
        prepared: true,
    }
}

/// Diagnostics of a request that went well.
pub open spec fn fresh_diagnostics(details: DetailsView) -> DiagnosticsView {
    DiagnosticsView { state: Some("fresh"@), request_count: 1, failure_count: 0, details: Some(details) }
}

/// What a preparation reports.
pub open spec fn preparation_report(edges: Seq<SemanticEdge>, anchors: Seq<Anchor>) -> DiagnosticsView {
    fresh_diagnostics(
        DetailsView::Prepared {
            source_entities: related_sources(relations(edges)).len(),
            track_artist_mappings: artists_by_track(edges, anchors).dom().len(),
            resolved_candidate_edges: relations(edges).dom().len(),
        },
    )
}

fn report(details: Details) -> (diagnostics: Diagnostics)
    ensures
        diagnostics@ == fresh_diagnostics(details@),
{
    Diagnostics { state: Some("fresh".to_owned()), request_count: 1, failure_count: 0, details: Some(details) }
}

/// `i` is the place of the first artifact that holds evidence.
pub open spec fn first_evidence(artifacts: Seq<ArtifactDescriptor>, i: int) -> bool {
    &&& 0 <= i < artifacts.len()
    &&& artifacts[i].kind@ == EVIDENCE_KIND@
    &&& forall|j: int| 0 <= j < i ==> (#[trigger] artifacts[j]).kind@ != EVIDENCE_KIND@
}

/// Finds the artifact that holds the evidence.
pub fn select_artifact(artifacts: &Vec<ArtifactDescriptor>) -> (selected: Result<usize, String>)
    ensures
        selected matches Ok(i) ==> first_evidence(artifacts@, i as int),
        selected is Err <==> forall|i: int| 0 <= i < artifacts@.len() ==> (#[trigger] artifacts@[i]).kind@ != EVIDENCE_KIND@,
        selected matches Err(message) ==> message@ == NO_EVIDENCE@,
{
    let mut i: usize = 0;
    while i < artifacts.len()
        invariant
            i <= artifacts@.len(),
            forall|j: int| 0 <= j < i ==> (#[trigger] artifacts@[j]).kind@ != EVIDENCE_KIND@,
        decreases artifacts@.len() - i,
    {
        if same_name(artifacts[i].kind.as_str(), EVIDENCE_KIND) {
            assert(first_evidence(artifacts@, i as int));
            return Ok(i);
        }
        i = i + 1;
    }
    Err(NO_EVIDENCE.to_owned())
}

/// The bytes of an artifact, together with their digest.
pub struct Evidence {
    bytes: Vec<u8>,
    sha256: String,
}

impl Evidence {
    #[verifier::type_invariant]
    spec fn digest_is_known(self) -> bool {
        self.sha256@ == fingerprint(self.bytes@)
    }

    /// The bytes of the artifact.
    pub closed spec fn spec_bytes(self) -> Seq<u8> {
        self.bytes@
    }

    /// The bytes of the artifact.
    pub fn bytes(&self) -> (bytes: &Vec<u8>)
        ensures
            bytes@ == self.spec_bytes(),
    {
        &self.bytes
    }
}

/// A descriptor gives this digest; letter case does not count.
pub open spec fn gives_digest(descriptor: ArtifactDescriptor, digest: Seq<char>) -> bool {
    ascii_lowercase(digest) == ascii_lowercase(descriptor.sha256@)
}

/// The digest that a descriptor gives is that of the bytes.
pub open spec fn digest_matches(descriptor: ArtifactDescriptor, bytes: Seq<u8>) -> bool {
    gives_digest(descriptor, fingerprint(bytes))
}

/// Checks a digest against the one that a descriptor gives.
pub fn check_digest(descriptor: &ArtifactDescriptor, actual: &str) -> (checked: Result<(), String>)
    ensures
        checked is Ok <==> gives_digest(*descriptor, actual@),
        checked matches Err(message) ==> message@ == "semantic artifact sha256 mismatch"@,
{
    if actual.eq_ignore_ascii_case(descriptor.sha256.as_str()) {
        Ok(())
    } else {
        Err("semantic artifact sha256 mismatch".to_owned())
    }
}

/// Where the evidence of a preparation is: in an artifact that is described
/// together with its digest, or under a path that is given without one.
#[derive(Debug)]
pub enum EvidenceSource {
    Artifact(ArtifactDescriptor),
    Path(String),
}

impl EvidenceSource {
    /// The path to read.
    pub open spec fn spec_path(self) -> Seq<char> {
        match self {
            EvidenceSource::Artifact(descriptor) => descriptor.path@,
            EvidenceSource::Path(path) => path@,
        }
    }

    /// The bytes are those that the source describes: any bytes where it gives no
    /// digest.
    pub open spec fn accepts(self, bytes: Seq<u8>) -> bool {
        match self {
            EvidenceSource::Artifact(descriptor) => digest_matches(descriptor, bytes),
            EvidenceSource::Path(_) => true,
        }
    }

    /// The path to read.
    pub fn path(&self) -> (path: &str)
        ensures
            path@ == self.spec_path(),
    {
        match self {
            EvidenceSource::Artifact(descriptor) => descriptor.path.as_str(),
            EvidenceSource::Path(path) => path.as_str(),
        }
    }
}

/// Checks what reading an artifact gave against its source.
pub fn verify_artifact(source: &EvidenceSource, read: Result<Vec<u8>, String>) -> (verified: Result<Evidence, String>)
    ensures
        match read {
            Ok(bytes) => if source.accepts(bytes@) {
                verified matches Ok(evidence) && evidence.spec_bytes() == bytes@
            } else {
                verified matches Err(message) && message@ == "semantic artifact sha256 mismatch"@
            },
            Err(error) => verified matches Err(message) && message@ == "cannot read semantic artifact: "@ + error@,
        },
{
    match read {
        Ok(bytes) => {
            let sha256: String = sha256_hex(bytes.as_slice());
            if let EvidenceSource::Artifact(descriptor) = source {
                if let Err(message) = check_digest(descriptor, sha256.as_str()) {
                    return Err(message);
                }
            }
            Ok(Evidence { bytes, sha256 })
        },
        Err(error) => {
            let mut message: String = "cannot read semantic artifact: ".to_owned();
            message.append(error.as_str());
            Err(message)
        },
    }
}

impl Default for Provider {
    fn default() -> (provider: Provider)
        ensures
            provider.wf(),
            provider@ == unprepared(),
    {
        let provider: Provider = Provider {
            relations: RelationTable::new(),
            artists: NameMap::new(),
            snapshot_id: None,
            prepared: false,
        };
        assert(provider@.artists =~= Map::<Seq<char>, Set<Seq<char>>>::empty());
        provider
    }
}

/// Takes edges into account, one after the other.
fn collect_relations(edges: &Vec<SemanticEdge>) -> (table: RelationTable)
    ensures
        table.wf(),
        table@ == relations(edges@),
{
    let mut table: RelationTable = RelationTable::new();
    let mut i: usize = 0;
    while i < edges.len()
        invariant
            i <= edges@.len(),
            table.wf(),
            table@ == relations(edges@.take(i as int)),
            table@.dom().len() <= i,
            table@.dom().finite(),
        decreases edges@.len() - i,
    {
        table.record(&edges[i]);
        assert(edges@.take(i + 1).drop_last() =~= edges@.take(i as int));
        i = i + 1;
    }
    assert(edges@.take(i as int) =~= edges@);
    table
}

impl Provider {
    /// What the provider keeps is in order.
    pub closed spec fn wf(self) -> bool {
        self.relations.wf() && groups_wf(self.artists)
    }

    /// Takes in edges and anchors under a digest. Nothing of an earlier state is left.
    pub fn install(&mut self, digest: &str, edges: &Vec<SemanticEdge>, anchors: &Vec<Anchor>) -> (installed: (
        String,
        Diagnostics,
    ))
        requires
            old(self).wf(),
        ensures
            final(self).wf(),
            final(self)@ == prepared_with(digest@, edges@, anchors@),
            installed.0@ == snapshot_name(digest@, edges@),
            installed.1@ == preparation_report(edges@, anchors@),
    {
        self.artists = map_artists(edges, anchors);
        self.relations = collect_relations(edges);
        let source_entities: usize = self.relations.source_count();
        let mut snapshot_id: String = digest.to_owned();
        snapshot_id.append(":sources:");
        snapshot_id.append(decimal_text(source_entities as u64).as_str());
        self.snapshot_id = Some(snapshot_id.clone());
        self.prepared = true;
        let details: Details = Details::Prepared {
            source_entities,
            track_artist_mappings: self.artists.len(),
            resolved_candidate_edges: self.relations.len(),
        };
        assert(self.artists@.dom() =~= self@.artists.dom());
        (snapshot_id, report(details))
    }

    /// Takes in evidence, given what decoding the artifact gave.
    pub fn prepare_with_anchors(
        &mut self,
        evidence: &Evidence,
        decoded: Result<SemanticArtifact, String>,
        anchors: &Vec<Anchor>,
    ) -> (outcome: Result<(Option<String>, Diagnostics), String>)
        requires
            old(self).wf(),
        ensures
            final(self).wf(),
            match decoded {
                Ok(artifact) => if artifact.schema_version == 1 {
                    let digest: Seq<char> = fingerprint(evidence.spec_bytes());
                    &&& final(self)@ == prepared_with(digest, artifact.edges@, anchors@)
                    &&& outcome matches Ok((snapshot_id, diagnostics))
                    &&& snapshot_id.deep_view() == Some(snapshot_name(digest, artifact.edges@))
                    &&& diagnostics@ == preparation_report(artifact.edges@, anchors@)
                } else {
                    &&& *final(self) == *old(self)
                    &&& outcome matches Err(message)
                    &&& message@ == "unsupported semantic artifact schema"@
                },
                Err(error) => {
                    &&& *final(self) == *old(self)
                    &&& outcome matches Err(message)
                    &&& message@ == "cannot decode semantic artifact: "@ + error@
                },
            },
    {
        let artifact: SemanticArtifact = match decoded {
            Ok(artifact) => artifact,
            Err(error) => {
                let mut message: String = "cannot decode semantic artifact: ".to_owned();
                message.append(error.as_str());
                return Err(message);
            },
        };
        if artifact.schema_version != 1 {
            return Err("unsupported semantic artifact schema".to_owned());
        }
        proof {
            use_type_invariant(evidence);
        }
        let (snapshot_id, diagnostics): (String, Diagnostics) = self.install(
            evidence.sha256.as_str(),
            &artifact.edges,
            anchors,
        );
        Ok((Some(snapshot_id), diagnostics))
    }
}

/// The tracks that a context names.
pub open spec fn named_tracks(context: ScoreContext) -> Set<Seq<char>> {
    Set::new(
        |id: Seq<char>|
            {
                ||| context.context_track_ids.deep_view().contains(id)
                ||| context.left_anchor_id.deep_view() == Some(id)
                ||| context.right_anchor_id.deep_view() == Some(id)
            },
    )
}

/// Tracks, and the artists behind them.
pub open spec fn with_artists(artists: Map<Seq<char>, Set<Seq<char>>>, tracks: Set<Seq<char>>) -> Set<Seq<char>> {
    Set::new(
        |id: Seq<char>|
            {
                ||| tracks.contains(id)
                ||| exists|track: Seq<char>| #[trigger]
                    tracks.contains(track) && artists.contains_key(track) && artists[track].contains(id)
            },
    )
}

/// The sources whose relations count in a context.
pub open spec fn consulted(artists: Map<Seq<char>, Set<Seq<char>>>, context: ScoreContext) -> Set<Seq<char>> {
    with_artists(artists, named_tracks(context))
}

/// The weightiest relation that sources have to a candidate through a channel,
/// the first of equals.
pub open spec fn best(
    held: Map<RelationKey, Relation>,
    sources: Seq<Seq<char>>,
    candidate: Seq<char>,
    channel: Channel,
) -> Option<Relation>
    decreases sources.len(),
{
    if sources.len() == 0 {
        None
    } else {
        let earlier: Option<Relation> = best(held, sources.drop_last(), candidate, channel);
        let key: RelationKey = RelationKey { source: sources.last(), candidate, channel };
        match (earlier, lookup(held, key)) {
            (Some(first), Some(next)) => if next.weight().is_above(first.weight()) {
                Some(next)
            } else {
                Some(first)
            },
            (None, next) => next,
            (first, None) => first,
        }
    }
}

/// The guidance that a relation gives.
pub open spec fn signal_of(
    candidate: Seq<char>,
    channel: Channel,
    scope: GuidanceScope,
    relation: Relation,
) -> SignalView {
    SignalView {
        candidate_id: candidate,
        channel: channel.spec_name(),
        scope,
        score: relation.weight().unit_clamped(),
        confidence: relation.confidence.unit_clamped(),
        rationale: Some("Last.fm similar "@ + relation.kind),
        observed_at: relation.observed_at,
    }
}

/// The guidance for one candidate through one channel, where there is any.
pub open spec fn channel_signals(
    held: Map<RelationKey, Relation>,
    sources: Seq<Seq<char>>,
    candidate: Seq<char>,
    channel: Channel,
    scope: GuidanceScope,
) -> Seq<SignalView> {
    match best(held, sources, candidate, channel) {
        Some(relation) => seq![signal_of(candidate, channel, scope, relation)],
        None => seq![],
    }
}

/// The guidance for one candidate, the artist channel first.
pub open spec fn candidate_signals(
    held: Map<RelationKey, Relation>,
    sources: Seq<Seq<char>>,
    candidate: Seq<char>,
    scope: GuidanceScope,
) -> Seq<SignalView> {
    channel_signals(held, sources, candidate, Channel::Artist, scope) + channel_signals(
        held,
        sources,
        candidate,
        Channel::Track,
        scope,
    )
}

/// The guidance for candidates, in their order.
pub open spec fn signals_for(
    held: Map<RelationKey, Relation>,
    sources: Seq<Seq<char>>,
    candidates: Seq<Candidate>,
    scope: GuidanceScope,
) -> Seq<SignalView>
    decreases candidates.len(),
{
    if candidates.len() == 0 {
        seq![]
    } else {
        signals_for(held, sources, candidates.drop_last(), scope) + candidate_signals(
            held,
            sources,
            candidates.last().candidate_id@,
            scope,
        )
    }
}

/// The guidance that a provider gives in a context.
pub open spec fn guidance(provider: ProviderView, context: ScoreContext, candidates: Seq<Candidate>) -> Seq<SignalView> {
    signals_for(provider.relations, in_order(consulted(provider.artists, context)), candidates, context.scope)
}

/// A failure that is the provider's answer.
pub open spec fn failure_view(code: Seq<char>, message: Seq<char>, retryable: bool) -> ResponseView {
    ResponseView::Error { provider_id: Some(PROVIDER_ID@), code, message, retryable }
}

/// What a provider answers to a request for scores.
pub open spec fn score_response(
    provider: ProviderView,
    request_id: Seq<char>,
    context: ScoreContext,
    candidates: Seq<Candidate>,
) -> ResponseView {
    if provider.prepared {
        let signals: Seq<SignalView> = guidance(provider, context, candidates);
        ResponseView::Scores {
            provider_id: PROVIDER_ID@,
            request_id,
            signals,
            diagnostics: fresh_diagnostics(DetailsView::Scored { matched_candidates: signals.len() }),
        }
    } else {
        failure_view("NOT_PREPARED"@, "provider must receive prepare before score"@, false)
    }
}

/// A failure that is the provider's answer.
pub fn failure(code: &str, message: String, retryable: bool) -> (response: GuidanceResponse)
    ensures
        response@ == failure_view(code@, message@, retryable),
{
    GuidanceResponse::Error {
        provider_id: Some(PROVIDER_ID.to_owned()),
        code: code.to_owned(),
        message,
        retryable,
    }
}

/// Collects the tracks that a context names.
fn name_tracks(context: &ScoreContext) -> (tracks: NameSet)
    ensures
        tracks.wf(),
        tracks@ == named_tracks(*context),
{
    let mut tracks: NameSet = NameSet::new();
    let ghost ids: Seq<Seq<char>> = context.context_track_ids.deep_view();
    let mut i: usize = 0;
    assert(tracks@ =~= ids.take(0).to_set());
    while i < context.context_track_ids.len()
        invariant
            ids == context.context_track_ids.deep_view(),
            i <= ids.len(),
            tracks.wf(),
            tracks@ == ids.take(i as int).to_set(),
        decreases ids.len() - i,
    {
        tracks.insert(context.context_track_ids[i].as_str());
        proof {
            assert(ids.take(i + 1) =~= ids.take(i as int).push(ids[i as int]));
            ids.take(i as int).lemma_push_to_set_commute(ids[i as int]);
        }
        i = i + 1;
    }
    assert(ids.take(i as int) =~= ids);
    if let Some(id) = &context.left_anchor_id {
        tracks.insert(id.as_str());
    }
    if let Some(id) = &context.right_anchor_id {
        tracks.insert(id.as_str());
    }
    assert(tracks@ =~= named_tracks(*context));
    tracks
}

impl Provider {
    /// Collects the sources whose relations count in a context.
    fn consult(&self, context: &ScoreContext) -> (sources: NameSet)
        requires
            self.wf(),
        ensures
            sources.wf(),
            sources@ == consulted(self@.artists, *context),
    {
        let tracks: NameSet = name_tracks(context);
        proof {
            tracks.lemma_names();
        }
        let ghost names: Seq<Seq<char>> = tracks.names();
        let ghost artists: Map<Seq<char>, Set<Seq<char>>> = self@.artists;
        let mut sources: NameSet = NameSet::new();
        assert(sources@ =~= with_artists(artists, names.take(0).to_set()));
        let mut i: usize = 0;
        while i < tracks.len()
            invariant
                self.wf(),
                artists == self@.artists,
                tracks.wf(),
                names == tracks.names(),
                i <= names.len(),
                sources.wf(),
                sources@ == with_artists(artists, names.take(i as int).to_set()),
            decreases names.len() - i,
        {
            let ghost before: Set<Seq<char>> = sources@;
            let track: &str = tracks.name_at(i);
            sources.insert(track);
            if let Some(group) = self.artists.get(track) {
                sources.absorb(group);
            }
            proof {
                let some: Set<Seq<char>> = names.take(i as int).to_set();
                let more: Set<Seq<char>> = names.take(i + 1).to_set();
                assert(names.take(i + 1) =~= names.take(i as int).push(track@));
                names.take(i as int).lemma_push_to_set_commute(track@);
                assert(more =~= some.insert(track@));
                assert forall|id: Seq<char>| sources@.contains(id) <==> with_artists(artists, more).contains(id) by {
                    if before.contains(id) && !some.contains(id) {
                        let other: Seq<char> = choose|other: Seq<char>| #[trigger]
                            some.contains(other) && artists.contains_key(other) && artists[other].contains(id);
                        assert(more.contains(other));
                    }
                    if with_artists(artists, more).contains(id) && !more.contains(id) {
                        let other: Seq<char> = choose|other: Seq<char>| #[trigger]
                            more.contains(other) && artists.contains_key(other) && artists[other].contains(id);
                        if other != track@ {
                            assert(some.contains(other));
                        }
                    }
                    if artists.contains_key(track@) && artists[track@].contains(id) {
                        assert(more.contains(track@));
                    }
                }
                assert(sources@ =~= with_artists(artists, more));
            }
            i = i + 1;
        }
        assert(names.take(i as int) =~= names);
        sources
    }

    /// Finds the weightiest relation that sources have to a candidate.
    fn find_best(&self, sources: &NameSet, candidate: &str, channel: Channel) -> (found: Option<&EdgeScore>)
        requires
            self.wf(),
            sources.wf(),
        ensures
            found matches Some(score) ==> best(self@.relations, sources.names(), candidate@, channel) == Some(score@),
            found is None ==> best(self@.relations, sources.names(), candidate@, channel) is None,
    {
        let mut found: Option<&EdgeScore> = None;
        let ghost names: Seq<Seq<char>> = sources.names();
        let mut i: usize = 0;
        while i < sources.len()
            invariant
                self.wf(),
                sources.wf(),
                names == sources.names(),
                i <= names.len(),
                found matches Some(score) ==> best(self@.relations, names.take(i as int), candidate@, channel)
                    == Some(score@),
                found is None ==> best(self@.relations, names.take(i as int), candidate@, channel) is None,
            decreases names.len() - i,
        {
            assert(names.take(i + 1).drop_last() =~= names.take(i as int));
            if let Some(next) = self.relations.get(sources.name_at(i), candidate, channel) {
                let replace: bool = match found {
                    Some(first) => next.score.times(next.confidence).exceeds(first.score.times(first.confidence)),
                    None => true,
                };
                if replace {
                    found = Some(next);
                }
            }
            i = i + 1;
        }
        assert(names.take(i as int) =~= names);
        found
    }

    /// Adds the guidance for one candidate through one channel, where there is any.
    fn push_signal(
        &self,
        signals: &mut Vec<GuidanceSignal>,
        sources: &NameSet,
        candidate: &str,
        channel: Channel,
        scope: GuidanceScope,
    )
        requires
            self.wf(),
            sources.wf(),
        ensures
            signal_views(final(signals)@) == signal_views(old(signals)@) + channel_signals(
                self@.relations,
                sources.names(),
                candidate@,
                channel,
                scope,
            ),
    {
        if let Some(score) = self.find_best(sources, candidate, channel) {
            let mut rationale: String = "Last.fm similar ".to_owned();
            rationale.append(score.kind.as_str());
            let signal: GuidanceSignal = GuidanceSignal {
                candidate_id: candidate.to_owned(),
                channel: channel.name().to_owned(),
                scope,
                score: score.score.times(score.confidence).clamp_to_unit(),
                confidence: score.confidence.clamp_to_unit(),
                rationale: Some(rationale),
                observed_at: copy_text(&score.observed_at),
            };
            signals.push(signal);
        }
        assert(signal_views(signals@) =~= signal_views(old(signals)@) + channel_signals(
            self@.relations,
            sources.names(),
            candidate@,
            channel,
            scope,
        ));
    }

    /// Gives guidance for candidates.
    pub fn score(&self, request_id: &str, context: &ScoreContext, candidates: &Vec<Candidate>) -> (response:
        GuidanceResponse)
        requires
            self.wf(),
        ensures
            response@ == score_response(self@, request_id@, *context, candidates@),
    {
        if !self.prepared {
            return failure("NOT_PREPARED", "provider must receive prepare before score".to_owned(), false);
        }
        let sources: NameSet = self.consult(context);
        let mut signals: Vec<GuidanceSignal> = Vec::new();
        assert(signal_views(signals@) =~= seq![]);
        let mut i: usize = 0;
        while i < candidates.len()
            invariant
                self.wf(),
                sources.wf(),
                i <= candidates@.len(),
                signal_views(signals@) == signals_for(
                    self@.relations,
                    sources.names(),
                    candidates@.take(i as int),
                    context.scope,
                ),
            decreases candidates@.len() - i,
        {
            let candidate: &str = candidates[i].candidate_id.as_str();
            let ghost before: Seq<SignalView> = signal_views(signals@);
            self.push_signal(&mut signals, &sources, candidate, Channel::Artist, context.scope);
            self.push_signal(&mut signals, &sources, candidate, Channel::Track, context.scope);
            assert(candidates@.take(i + 1).drop_last() =~= candidates@.take(i as int));
            assert(signal_views(signals@) =~= before + candidate_signals(
                self@.relations,
                sources.names(),
                candidate@,
                context.scope,
            ));
            i = i + 1;
        }
        assert(candidates@.take(i as int) =~= candidates@);
        proof {
            sources.lemma_names();
        }
        let matched_candidates: usize = signals.len();
        GuidanceResponse::Scores {
            provider_id: PROVIDER_ID.to_owned(),
            request_id: request_id.to_owned(),
            signals,
            diagnostics: report(Details::Scored { matched_candidates }),
        }
    }
}

} // verus!
