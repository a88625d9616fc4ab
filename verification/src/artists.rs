//! The bridge from tracks to the artists that evidence knows.
//!
//! Routes name tracks; evidence on artists names artists. Which artists stand
//! behind a track is found by MusicBrainz ID, and by name only where no ID
//! leads anywhere.
use crate::evidence::SemanticEdge;
use crate::names::{same_name, NameMap, NameSet};
use crate::protocol::{Anchor, Candidate};
use crate::text::{ascii_lowercase, normalize_artist_name, normalized};
use vstd::prelude::*;

verus! {

/// The artists that evidence lists under a MusicBrainz ID in small letters.
pub open spec fn listed_by_mbid(edges: Seq<SemanticEdge>, key: Seq<char>) -> Set<Seq<char>> {
    Set::new(
        |id: Seq<char>|
            exists|i: int| 0 <= i < edges.len() && (#[trigger] edges[i]).lists_mbid(key) && edges[i].source.id@ == id,
    )
}

/// The artists that evidence lists under a name in normal form.
pub open spec fn listed_by_name(edges: Seq<SemanticEdge>, key: Seq<char>) -> Set<Seq<char>> {
    Set::new(
        |id: Seq<char>|
            exists|i: int| 0 <= i < edges.len() && (#[trigger] edges[i]).lists_name(key) && edges[i].source.id@ == id,
    )
}

/// The artists to whom the MusicBrainz IDs of a track lead.
pub open spec fn artists_by_mbid(edges: Seq<SemanticEdge>, track: Candidate) -> Set<Seq<char>> {
    Set::new(
        |id: Seq<char>|
            exists|j: int|
                0 <= j < track.artist_mbids@.len() && listed_by_mbid(
                    edges,
                    ascii_lowercase((#[trigger] track.artist_mbids@[j])@),
                ).contains(id),
    )
}

/// The artists to whom the artist name of a track leads.
pub open spec fn artists_by_name(edges: Seq<SemanticEdge>, track: Candidate) -> Set<Seq<char>> {
    match track.artist {
        Some(name) => listed_by_name(edges, normalized(name@)),
        None => Set::empty(),
    }
}

/// The artists behind a track: by MusicBrainz ID where that finds any, else by name.
pub open spec fn artists_of(edges: Seq<SemanticEdge>, track: Candidate) -> Set<Seq<char>> {
    if artists_by_mbid(edges, track) != Set::<Seq<char>>::empty() {
        artists_by_mbid(edges, track)
    } else {
        artists_by_name(edges, track)
    }
}

/// The artists behind each anchor that has any; of anchors with one ID the last
/// that has any counts.
pub open spec fn artists_by_track(edges: Seq<SemanticEdge>, anchors: Seq<Anchor>) -> Map<Seq<char>, Set<Seq<char>>>
    decreases anchors.len(),
{
    if anchors.len() == 0 {
        Map::empty()
    } else {
        let earlier: Map<Seq<char>, Set<Seq<char>>> = artists_by_track(edges, anchors.drop_last());
        let artists: Set<Seq<char>> = artists_of(edges, anchors.last().track);
        if artists != Set::<Seq<char>>::empty() {
            earlier.insert(anchors.last().anchor_id@, artists)
        } else {
            earlier
        }
    }
}

/// Sets of names, each under a name of its own.
pub open spec fn grouped(groups: NameMap<NameSet>) -> Map<Seq<char>, Set<Seq<char>>> {
    groups@.map_values(|group: NameSet| group@)
}

/// All names are in order.
pub open spec fn groups_wf(groups: NameMap<NameSet>) -> bool {
    groups.wf() && forall|key: Seq<char>| #[trigger] groups@.contains_key(key) ==> groups@[key].wf()
}

/// What a group holds; a group that is not there holds nothing.
pub open spec fn group(groups: Map<Seq<char>, Set<Seq<char>>>, key: Seq<char>) -> Set<Seq<char>> {
    if groups.contains_key(key) {
        groups[key]
    } else {
        Set::empty()
    }
}

/// The groups after a name is added to one of them.
pub open spec fn with_member(
    groups: Map<Seq<char>, Set<Seq<char>>>,
    key: Option<Seq<char>>,
    name: Seq<char>,
) -> Map<Seq<char>, Set<Seq<char>>> {
    match key {
        Some(key) => groups.insert(key, group(groups, key).insert(name)),
        None => groups,
    }
}

/// The artists to whom keys lead: those under any of the MusicBrainz IDs, else
/// those under the name.
pub open spec fn found(
    by_mbid: Map<Seq<char>, Set<Seq<char>>>,
    by_name: Map<Seq<char>, Set<Seq<char>>>,
    mbids: Seq<Seq<char>>,
    name: Option<Seq<char>>,
) -> Set<Seq<char>> {
    let artists: Set<Seq<char>> = under_any(by_mbid, mbids);
    if artists != Set::<Seq<char>>::empty() {
        artists
    } else {
        match name {
            Some(name) => group(by_name, name),
            None => Set::empty(),
        }
    }
}

/// The members of the groups under any of some keys.
pub open spec fn under_any(groups: Map<Seq<char>, Set<Seq<char>>>, keys: Seq<Seq<char>>) -> Set<Seq<char>> {
    Set::new(
        |id: Seq<char>| exists|j: int| 0 <= j < keys.len() && group(groups, #[trigger] keys[j]).contains(id),
    )
}

/// Adds a name to a group, where there is a key for one.
fn add_member(groups: &mut NameMap<NameSet>, key: &Option<String>, name: &str)
    requires
        groups_wf(*old(groups)),
    ensures
        groups_wf(*final(groups)),
        grouped(*final(groups)) == with_member(grouped(*old(groups)), key.deep_view(), name@),
{
    if let Some(key) = key {
        let set: &mut NameSet = groups.slot(key.as_str(), NameSet::new());
        set.insert(name);
        assert(grouped(*groups) =~= with_member(grouped(*old(groups)), Some(key@), name@));
    }
}

/// Artists, by MusicBrainz ID and by name.
pub struct ArtistIndex {
    by_mbid: NameMap<NameSet>,
    by_name: NameMap<NameSet>,
}

impl ArtistIndex {
    pub closed spec fn wf(self) -> bool {
        groups_wf(self.by_mbid) && groups_wf(self.by_name)
    }

    /// The artists under each MusicBrainz ID in small letters.
    pub closed spec fn spec_by_mbid(self) -> Map<Seq<char>, Set<Seq<char>>> {
        grouped(self.by_mbid)
    }

    /// The artists under each name in normal form.
    pub closed spec fn spec_by_name(self) -> Map<Seq<char>, Set<Seq<char>>> {
        grouped(self.by_name)
    }

    /// The index lists what the edges list.
    pub open spec fn lists(self, edges: Seq<SemanticEdge>) -> bool {
        &&& forall|key: Seq<char>| #[trigger] group(self.spec_by_mbid(), key) == listed_by_mbid(edges, key)
        &&& forall|key: Seq<char>| #[trigger] group(self.spec_by_name(), key) == listed_by_name(edges, key)
    }

    /// An empty index.
    pub fn new() -> (index: ArtistIndex)
        ensures
            index.wf(),
            index.spec_by_mbid() == Map::<Seq<char>, Set<Seq<char>>>::empty(),
            index.spec_by_name() == Map::<Seq<char>, Set<Seq<char>>>::empty(),
    {
        let index: ArtistIndex = ArtistIndex { by_mbid: NameMap::new(), by_name: NameMap::new() };
        assert(index.spec_by_mbid() =~= Map::<Seq<char>, Set<Seq<char>>>::empty());
        assert(index.spec_by_name() =~= Map::<Seq<char>, Set<Seq<char>>>::empty());
        index
    }

    /// Lists an artist under the keys that are known of it.
    pub fn list(&mut self, id: &str, mbid: &Option<String>, name: &Option<String>)
        requires
            old(self).wf(),
        ensures
            final(self).wf(),
            final(self).spec_by_mbid() == with_member(old(self).spec_by_mbid(), mbid.deep_view(), id@),
            final(self).spec_by_name() == with_member(old(self).spec_by_name(), name.deep_view(), id@),
    {
        add_member(&mut self.by_mbid, mbid, id);
        add_member(&mut self.by_name, name, id);
    }

    /// Finds the artists to whom keys lead.
    pub fn find(&self, mbids: &Vec<String>, name: &Option<String>) -> (artists: NameSet)
        requires
            self.wf(),
        ensures
            artists.wf(),
            artists@ == found(self.spec_by_mbid(), self.spec_by_name(), mbids.deep_view(), name.deep_view()),
    {
        let mut artists: NameSet = NameSet::new();
        let ghost keys: Seq<Seq<char>> = mbids.deep_view();
        let ghost groups: Map<Seq<char>, Set<Seq<char>>> = self.spec_by_mbid();
        assert(artists@ =~= under_any(groups, keys.take(0)));
        let mut j: usize = 0;
        while j < mbids.len()
            invariant
                self.wf(),
                artists.wf(),
                keys == mbids.deep_view(),
                groups == self.spec_by_mbid(),
                j <= keys.len(),
                artists@ == under_any(groups, keys.take(j as int)),
            decreases keys.len() - j,
        {
            let ghost before: Set<Seq<char>> = artists@;
            if let Some(listed) = self.by_mbid.get(mbids[j].as_str()) {
                artists.absorb(listed);
            }
            proof {
                let key: Seq<char> = keys[j as int];
                let some: Seq<Seq<char>> = keys.take(j as int);
                let more: Seq<Seq<char>> = keys.take(j + 1);
                assert(artists@ =~= before.union(group(groups, key)));
                assert(more[j as int] == key);
                assert forall|id: Seq<char>| artists@.contains(id) <==> under_any(groups, more).contains(id) by {
                    if before.contains(id) {
                        let k: int = choose|k: int|
                            0 <= k < some.len() && group(groups, #[trigger] some[k]).contains(id);
                        assert(more[k] == some[k]);
                    }
                    if under_any(groups, more).contains(id) && !group(groups, key).contains(id) {
                        let k: int = choose|k: int|
                            0 <= k < more.len() && group(groups, #[trigger] more[k]).contains(id);
                        assert(some[k] == more[k]);
                    }
                }
                assert(artists@ =~= under_any(groups, more));
            }
            j = j + 1;
        }
        assert(keys.take(j as int) =~= keys);
        proof {
            artists.lemma_names();
        }
        if artists.len() == 0 {
            assert(artists@ =~= Set::<Seq<char>>::empty());
            if let Some(name) = name {
                if let Some(listed) = self.by_name.get(name.as_str()) {
                    artists.absorb(listed);
                }
                assert(artists@ =~= group(self.spec_by_name(), name@));
            }
        }
        artists
    }

    /// Takes an edge into account.
    fn add(&mut self, edge: &SemanticEdge)
        requires
            old(self).wf(),
        ensures
            final(self).wf(),
            forall|edges: Seq<SemanticEdge>| old(self).lists(edges) ==> #[trigger] final(self).lists(edges.push(*edge)),
    {
        let ghost before: ArtistIndex = *self;
        if same_name(edge.source.kind.as_str(), "artist") {
            let mbid: Option<String> = match &edge.source.mbid {
                Some(mbid) => Some(mbid.as_str().to_ascii_lowercase()),
                None => None,
            };
            let name: Option<String> = match &edge.source.name {
                Some(name) => Some(normalize_artist_name(name.as_str())),
                None => None,
            };
            self.list(edge.source.id.as_str(), &mbid, &name);
        }
        proof {
            assert forall|edges: Seq<SemanticEdge>| before.lists(edges) implies #[trigger] self.lists(
                edges.push(*edge),
            ) by {
                assert forall|key: Seq<char>| #[trigger] group(self.spec_by_mbid(), key) == listed_by_mbid(
                    edges.push(*edge),
                    key,
                ) by {
                    lemma_listed_push(edges, *edge, key);
                    assert(group(before.spec_by_mbid(), key) == listed_by_mbid(edges, key));
                }
                assert forall|key: Seq<char>| #[trigger] group(self.spec_by_name(), key) == listed_by_name(
                    edges.push(*edge),
                    key,
                ) by {
                    lemma_listed_push(edges, *edge, key);
                    assert(group(before.spec_by_name(), key) == listed_by_name(edges, key));
                }
            }
        }
    }

    /// Lists the artists of some edges.
    pub fn build(edges: &Vec<SemanticEdge>) -> (index: ArtistIndex)
        ensures
            index.wf(),
            index.lists(edges@),
    {
        let mut index: ArtistIndex = ArtistIndex::new();
        proof {
            assert forall|key: Seq<char>| #[trigger] group(index.spec_by_mbid(), key) == listed_by_mbid(
                edges@.take(0),
                key,
            ) by {
                assert(listed_by_mbid(edges@.take(0), key) =~= Set::<Seq<char>>::empty());
            }
            assert forall|key: Seq<char>| #[trigger] group(index.spec_by_name(), key) == listed_by_name(
                edges@.take(0),
                key,
            ) by {
                assert(listed_by_name(edges@.take(0), key) =~= Set::<Seq<char>>::empty());
            }
        }
        let mut i: usize = 0;
        while i < edges.len()
            invariant
                i <= edges@.len(),
                index.wf(),
                index.lists(edges@.take(i as int)),
            decreases edges@.len() - i,
        {
            index.add(&edges[i]);
            assert(edges@.take(i + 1) =~= edges@.take(i as int).push(edges@[i as int]));
            i = i + 1;
        }
        assert(edges@.take(i as int) =~= edges@);
        index
    }

    /// Finds the artists behind a track.
    pub fn artists(&self, track: &Candidate) -> (artists: NameSet)
        requires
            self.wf(),
        ensures
            artists.wf(),
            artists@ == found(
                self.spec_by_mbid(),
                self.spec_by_name(),
                mbid_keys(*track),
                name_key(*track),
            ),
    {
        let mut mbids: Vec<String> = Vec::new();
        let mut j: usize = 0;
        while j < track.artist_mbids.len()
            invariant
                j <= track.artist_mbids@.len(),
                mbids.deep_view() == mbid_keys(*track).take(j as int),
            decreases track.artist_mbids@.len() - j,
        {
            let ghost before: Seq<Seq<char>> = mbids.deep_view();
            let mbid: String = track.artist_mbids[j].as_str().to_ascii_lowercase();
            mbids.push(mbid);
            assert(mbids.deep_view() =~= before.push(mbid@));
            assert(mbid_keys(*track).take(j + 1) =~= before.push(mbid_keys(*track)[j as int]));
            j = j + 1;
        }
        assert(mbid_keys(*track).take(j as int) =~= mbid_keys(*track));
        let name: Option<String> = match &track.artist {
            Some(name) => Some(normalize_artist_name(name.as_str())),
            None => None,
        };
        self.find(&mbids, &name)
    }
}

/// The MusicBrainz IDs of a track in small letters.
pub open spec fn mbid_keys(track: Candidate) -> Seq<Seq<char>> {
    track.artist_mbids@.map_values(|mbid: String| ascii_lowercase(mbid@))
}

/// The artist name of a track in normal form.
pub open spec fn name_key(track: Candidate) -> Option<Seq<char>> {
    match track.artist {
        Some(name) => Some(normalized(name@)),
        None => None,
    }
}

/// An index of edges finds the artists that the edges list.
proof fn lemma_found(index: ArtistIndex, edges: Seq<SemanticEdge>, track: Candidate)
    requires
        index.lists(edges),
    ensures
        found(index.spec_by_mbid(), index.spec_by_name(), mbid_keys(track), name_key(track)) == artists_of(edges, track),
{
    let keys: Seq<Seq<char>> = mbid_keys(track);
    let groups: Map<Seq<char>, Set<Seq<char>>> = index.spec_by_mbid();
    assert forall|id: Seq<char>| under_any(groups, keys).contains(id) <==> artists_by_mbid(edges, track).contains(id) by {
        if under_any(groups, keys).contains(id) {
            let j: int = choose|j: int| 0 <= j < keys.len() && group(groups, #[trigger] keys[j]).contains(id);
            assert(keys[j] == ascii_lowercase(track.artist_mbids@[j]@));
        }
        if artists_by_mbid(edges, track).contains(id) {
            let j: int = choose|j: int|
                0 <= j < track.artist_mbids@.len() && listed_by_mbid(
                    edges,
                    ascii_lowercase((#[trigger] track.artist_mbids@[j])@),
                ).contains(id);
            assert(group(groups, keys[j]).contains(id));
        }
    }
    assert(under_any(groups, keys) =~= artists_by_mbid(edges, track));
    if let Some(name) = track.artist {
        assert(group(index.spec_by_name(), normalized(name@)) == listed_by_name(edges, normalized(name@)));
    }
}

/// One more edge lists one more artist at most.
proof fn lemma_listed_push(edges: Seq<SemanticEdge>, edge: SemanticEdge, key: Seq<char>)
    ensures
        listed_by_mbid(edges.push(edge), key) == (if edge.lists_mbid(key) {
            listed_by_mbid(edges, key).insert(edge.source.id@)
        } else {
            listed_by_mbid(edges, key)
        }),
        listed_by_name(edges.push(edge), key) == (if edge.lists_name(key) {
            listed_by_name(edges, key).insert(edge.source.id@)
        } else {
            listed_by_name(edges, key)
        }),
{
    let more: Seq<SemanticEdge> = edges.push(edge);
    assert(more[edges.len() as int] == edge);
    assert forall|id: Seq<char>| listed_by_mbid(edges, key).contains(id) implies listed_by_mbid(more, key).contains(id) by {
        let i: int = choose|i: int|
            0 <= i < edges.len() && (#[trigger] edges[i]).lists_mbid(key) && edges[i].source.id@ == id;
        assert(more[i] == edges[i]);
    }
    assert forall|id: Seq<char>| listed_by_name(edges, key).contains(id) implies listed_by_name(more, key).contains(id) by {
        let i: int = choose|i: int|
            0 <= i < edges.len() && (#[trigger] edges[i]).lists_name(key) && edges[i].source.id@ == id;
        assert(more[i] == edges[i]);
    }
    assert(listed_by_mbid(more, key) =~= (if edge.lists_mbid(key) {
        listed_by_mbid(edges, key).insert(edge.source.id@)
    } else {
        listed_by_mbid(edges, key)
    }));
    assert(listed_by_name(more, key) =~= (if edge.lists_name(key) {
        listed_by_name(edges, key).insert(edge.source.id@)
    } else {
        listed_by_name(edges, key)
    }));
}

/// Finds the artists behind each anchor.
pub fn map_artists(edges: &Vec<SemanticEdge>, anchors: &Vec<Anchor>) -> (groups: NameMap<NameSet>)
    ensures
        groups_wf(groups),
        grouped(groups) == artists_by_track(edges@, anchors@),
{
    let index: ArtistIndex = ArtistIndex::build(edges);
    let mut groups: NameMap<NameSet> = NameMap::new();
    assert(grouped(groups) =~= Map::<Seq<char>, Set<Seq<char>>>::empty());
    let mut i: usize = 0;
    while i < anchors.len()
        invariant
            index.wf(),
            index.lists(edges@),
            i <= anchors@.len(),
            groups_wf(groups),
            grouped(groups) == artists_by_track(edges@, anchors@.take(i as int)),
        decreases anchors@.len() - i,
    {
        let ghost before: NameMap<NameSet> = groups;
        let anchor: &Anchor = &anchors[i];
        let artists: NameSet = index.artists(&anchor.track);
        assert(anchors@.take(i + 1).drop_last() =~= anchors@.take(i as int));
        proof {
            artists.lemma_names();
            lemma_found(index, edges@, anchor.track);
        }
        if artists.len() > 0 {
            let ghost found: Set<Seq<char>> = artists@;
            let slot: &mut NameSet = groups.slot(anchor.anchor_id.as_str(), NameSet::new());
            *slot = artists;
            assert(grouped(groups) =~= grouped(before).insert(anchor.anchor_id@, found));
            assert(found != Set::<Seq<char>>::empty());
        } else {
            assert(artists@ =~= Set::<Seq<char>>::empty());
        }
        i = i + 1;
    }
    assert(anchors@.take(i as int) =~= anchors@);
    groups
}

} // verus!
