//! The catalog data model: raw directory entries grouped by song, and the
//! aggregation of each group into a display-level song.

use vstd::prelude::*;
use vstd::string::StrSliceExecFns;

verus! {

/// One physical recording: a single version of a song.
pub struct DirectoryEntry {
    pub id: String,
    pub cdn_id: String,
    pub file: String,
    pub edition: Vec<String>,
    pub year: u32,
    pub artist: String,
    pub track: String,
    pub original: bool,
    pub ai: bool,
}

/// Mathematical image of a directory entry.
#[verifier::ext_equal]
pub ghost struct EntryView {
    pub id: Seq<char>,
    pub cdn_id: Seq<char>,
    pub file: Seq<char>,
    pub edition: Seq<Seq<char>>,
    pub year: u32,
    pub artist: Seq<char>,
    pub track: Seq<char>,
    pub original: bool,
    pub ai: bool,
}

impl View for DirectoryEntry {
    type V = EntryView;

    open spec fn view(&self) -> EntryView {
        EntryView {
            id: self.id@,
            cdn_id: self.cdn_id@,
            file: self.file@,
            edition: self.edition.deep_view(),
            year: self.year,
            artist: self.artist@,
            track: self.track@,
            original: self.original,
            ai: self.ai,
        }
    }
}

impl DeepView for DirectoryEntry {
    type V = EntryView;

    open spec fn deep_view(&self) -> EntryView {
        self.view()
    }
}

/// One group of the fetched directory: its key and a non-empty run of
/// entries, all recordings of the same logical song, in source order.
pub struct DirectoryGroup {
    pub key: String,
    pub entries: Vec<DirectoryEntry>,
}

/// Mathematical image of a directory group.
#[verifier::ext_equal]
pub ghost struct GroupView {
    pub key: Seq<char>,
    pub entries: Seq<EntryView>,
}

impl View for DirectoryGroup {
    type V = GroupView;

    open spec fn view(&self) -> GroupView {
        GroupView { key: self.key@, entries: self.entries.deep_view() }
    }
}

impl DeepView for DirectoryGroup {
    type V = GroupView;

    open spec fn deep_view(&self) -> GroupView {
        self.view()
    }
}

/// The fetched catalog: groups in the order the source delivered them.
pub struct Directory {
    pub groups: Vec<DirectoryGroup>,
}

impl View for Directory {
    type V = Seq<GroupView>;

    open spec fn view(&self) -> Seq<GroupView> {
        self.groups.deep_view()
    }
}

impl Directory {
    /// The shape the upstream directory format guarantees: every group holds
    /// at least one entry, and no two groups share a key.
    pub open spec fn wf(&self) -> bool {
        &&& forall|i: int| 0 <= i < self@.len() ==> #[trigger] self@[i].entries.len() > 0
        &&& forall|i: int, j: int|
            0 <= i < j < self@.len() ==> (#[trigger] self@[i].key) != (#[trigger] self@[j].key)
    }
}

/// A display-level song: one directory group aggregated. `versions` keeps the
/// group's entries in source order; their positional index is the stable
/// per-song version index used in navigation links.
pub struct Song {
    pub versions: Vec<DirectoryEntry>,
    pub year: u32,
    pub edition: Vec<String>,
    pub artist: String,
    pub track: String,
    pub original: bool,
    pub ai: bool,
}

/// Mathematical image of a song.
#[verifier::ext_equal]
pub ghost struct SongView {
    pub versions: Seq<EntryView>,
    pub year: u32,
    pub edition: Seq<Seq<char>>,
    pub artist: Seq<char>,
    pub track: Seq<char>,
    pub original: bool,
    pub ai: bool,
}

impl View for Song {
    type V = SongView;

    open spec fn view(&self) -> SongView {
        SongView {
            versions: self.versions.deep_view(),
            year: self.year,
            edition: self.edition.deep_view(),
            artist: self.artist@,
            track: self.track@,
            original: self.original,
            ai: self.ai,
        }
    }
}

impl DeepView for Song {
    type V = SongView;

    open spec fn deep_view(&self) -> SongView {
        self.view()
    }
}

/// Whether an edition tag is an internal version-number tag: it starts with
/// the letter `v` and is hidden from display.
pub open spec fn is_version_tag(t: Seq<char>) -> bool {
    t.len() > 0 && t[0] == 'v'
}

/// The edition tags that are shown: the given list with version-number tags
/// removed, surviving tags in their original order.
pub open spec fn visible_editions(eds: Seq<Seq<char>>) -> Seq<Seq<char>> {
    eds.filter(|t: Seq<char>| !is_version_tag(t))
}

/// The positions of the tags that survive filtering, in increasing order.
pub open spec fn kept_indices(eds: Seq<Seq<char>>) -> Seq<int>
    decreases eds.len(),
{
    if eds.len() == 0 {
        Seq::empty()
    } else {
        let prefix = kept_indices(eds.drop_last());
        if !is_version_tag(eds.last()) {
            prefix.push(eds.len() - 1)
        } else {
            prefix
        }
    }
}

/// Filtering hides exactly the version tags and keeps the rest in their
/// order: the visible editions are the tags at the strictly increasing
/// positions of `kept_indices`, none of them a version tag, and every tag
/// that is not a version tag keeps a position there.
pub proof fn lemma_visible_editions_order(eds: Seq<Seq<char>>)
    ensures
        visible_editions(eds).len() == kept_indices(eds).len(),
        forall|p: int, q: int|
            0 <= p < q < kept_indices(eds).len() ==> #[trigger] kept_indices(eds)[p]
                < #[trigger] kept_indices(eds)[q],
        forall|p: int|
            0 <= p < kept_indices(eds).len() ==> 0 <= #[trigger] kept_indices(eds)[p] < eds.len()
                && !is_version_tag(eds[kept_indices(eds)[p]]) && visible_editions(eds)[p]
                == eds[kept_indices(eds)[p]],
        forall|l: int|
            0 <= l < eds.len() && !is_version_tag(#[trigger] eds[l]) ==> kept_indices(eds).contains(
                l,
            ),
    decreases eds.len(),
{
    reveal(Seq::filter);
    if eds.len() > 0 {
        let prefix = eds.drop_last();
        lemma_visible_editions_order(prefix);
        let kp = kept_indices(prefix);
        let ke = kept_indices(eds);
        let vp = visible_editions(prefix);
        let ve = visible_editions(eds);
        assert(eds.drop_last() == prefix);
        assert forall|p: int| 0 <= p < kp.len() implies prefix[kp[p]] == eds[kp[p]] by {
            assert(prefix[kp[p]] == eds[kp[p]]);
        }
        if !is_version_tag(eds.last()) {
            assert(ve == vp.push(eds.last()));
            assert(ke == kp.push(eds.len() - 1));
            assert forall|p: int|
                0 <= p < ke.len() implies 0 <= #[trigger] ke[p] < eds.len() && !is_version_tag(
                eds[ke[p]],
            ) && ve[p] == eds[ke[p]] by {
                if p < kp.len() {
                    assert(ke[p] == kp[p]);
                    assert(ve[p] == vp[p]);
                } else {
                    assert(ke[p] == eds.len() - 1);
                    assert(ve[p] == eds.last());
                }
            }
        } else {
            assert(ve == vp);
            assert(ke == kp);
        }
        assert forall|l: int|
            0 <= l < eds.len() && !is_version_tag(#[trigger] eds[l]) implies ke.contains(l) by {
            if l < eds.len() - 1 {
                assert(prefix[l] == eds[l]);
                assert(kp.contains(l));
                let p = choose|p: int| 0 <= p < kp.len() && kp[p] == l;
                assert(ke[p] == l);
            } else {
                assert(ke[ke.len() - 1] == l);
            }
        }
    }
}

/// The greatest year among a group's entries (zero for an empty group).
pub open spec fn max_year(entries: Seq<EntryView>) -> u32
    decreases entries.len(),
{
    if entries.len() == 0 {
        0
    } else {
        let rest = max_year(entries.drop_last());
        if entries.last().year > rest {
            entries.last().year
        } else {
            rest
        }
    }
}

/// The greatest year is attained by some entry and bounds them all.
pub proof fn lemma_max_year_is_max(entries: Seq<EntryView>)
    requires
        entries.len() > 0,
    ensures
        exists|i: int| 0 <= i < entries.len() && #[trigger] entries[i].year == max_year(entries),
        forall|i: int| 0 <= i < entries.len() ==> (#[trigger] entries[i].year) <= max_year(entries),
    decreases entries.len(),
{
    if entries.len() == 1 {
        assert(entries.drop_last() =~= Seq::<EntryView>::empty());
        assert(max_year(Seq::<EntryView>::empty()) == 0);
        assert(entries[0].year == max_year(entries));
    } else {
        let prefix = entries.drop_last();
        lemma_max_year_is_max(prefix);
        if entries.last().year > max_year(prefix) {
            assert(entries[entries.len() - 1].year == max_year(entries));
        } else {
            let i = choose|i: int| 0 <= i < prefix.len() && #[trigger] prefix[i].year == max_year(prefix);
            assert(entries[i].year == max_year(entries));
        }
        assert forall|i: int| 0 <= i < entries.len() implies (#[trigger] entries[i].year)
            <= max_year(entries) by {
            if i < prefix.len() {
                assert(entries[i] == prefix[i]);
            }
        }
    }
}

/// The song a non-empty group aggregates to: all versions in source order,
/// the greatest year, the first entry's visible editions, and the first
/// entry's artist, track and flags.
pub open spec fn spec_song_of(entries: Seq<EntryView>) -> SongView {
    SongView {
        versions: entries,
        year: max_year(entries),
        edition: visible_editions(entries[0].edition),
        artist: entries[0].artist,
        track: entries[0].track,
        original: entries[0].original,
        ai: entries[0].ai,
    }
}

/// A field-by-field copy of an entry.
pub fn clone_entry(e: &DirectoryEntry) -> (r: DirectoryEntry)
    ensures
        r@ == e@,
{
    let edition = e.edition.clone();
    proof {
        assert(edition.deep_view() =~= e.edition.deep_view());
    }
    DirectoryEntry {
        id: e.id.clone(),
        cdn_id: e.cdn_id.clone(),
        file: e.file.clone(),
        edition,
        year: e.year,
        artist: e.artist.clone(),
        track: e.track.clone(),
        original: e.original,
        ai: e.ai,
    }
}

/// Whether the string starts with the letter `v`.
fn starts_with_v(s: &str) -> (r: bool)
    ensures
        r == is_version_tag(s@),
{
    if s.unicode_len() == 0 {
        false
    } else {
        let c = s.get_char(0);
        c as u32 == 118
    }
}

/// Aggregates one non-empty group of entries into its song.
pub fn song_of_group(entries: &Vec<DirectoryEntry>) -> (r: Song)
    requires
        entries@.len() > 0,
    ensures
        r@ == spec_song_of(entries.deep_view()),
{
    let ghost dv = entries.deep_view();
    let n = entries.len();

    let mut versions: Vec<DirectoryEntry> = Vec::new();
    let mut i: usize = 0;
    while i < n
        invariant
            i <= n,
            n == entries@.len(),
            dv == entries.deep_view(),
            versions@.len() == i,
            forall|l: int| 0 <= l < i ==> (#[trigger] versions@[l])@ == dv[l],
        decreases n - i,
    {
        versions.push(clone_entry(&entries[i]));
        proof {
            assert(versions@[i as int]@ == entries@[i as int]@);
            assert(dv[i as int] == entries@[i as int]@);
        }
        i = i + 1;
    }
    proof {
        assert forall|l: int| 0 <= l < n implies versions.deep_view()[l] == dv[l] by {
            assert(versions@[l]@ == dv[l]);
        }
        assert(versions.deep_view() =~= dv);
    }

    let mut year: u32 = entries[0].year;
    proof {
        assert(dv.take(1).drop_last() =~= Seq::<EntryView>::empty());
        assert(max_year(Seq::<EntryView>::empty()) == 0);
        assert(dv.take(1).last() == dv[0]);
        assert(dv[0] == entries@[0]@);
        assert(max_year(dv.take(1)) == entries[0].year);
    }
    let mut j: usize = 1;
    while j < n
        invariant
            1 <= j <= n,
            n == entries@.len(),
            dv == entries.deep_view(),
            year == max_year(dv.take(j as int)),
        decreases n - j,
    {
        let y = entries[j].year;
        proof {
            assert(dv.take(j + 1).drop_last() =~= dv.take(j as int));
            assert(dv.take(j + 1).last() == dv[j as int]);
        }
        if y > year {
            year = y;
        }
        j = j + 1;
    }
    proof {
        assert(dv.take(n as int) =~= dv);
    }

    let first = &entries[0];
    let ghost eds = first.edition.deep_view();
    let m = first.edition.len();
    let mut edition: Vec<String> = Vec::new();
    let mut k: usize = 0;
    while k < m
        invariant
            k <= m,
            m == first.edition@.len(),
            eds == first.edition.deep_view(),
            edition.deep_view() == visible_editions(eds.take(k as int)),
        decreases m - k,
    {
        let tag = &first.edition[k];
        let keep = !starts_with_v(tag.as_str());
        proof {
            reveal(Seq::filter);
            assert(eds.take(k + 1).drop_last() =~= eds.take(k as int));
            assert(eds.take(k + 1).last() == eds[k as int]);
            assert(eds[k as int] == tag@);
        }
        if keep {
            let ghost before = edition.deep_view();
            edition.push(tag.clone());
            proof {
                assert forall|l: int| 0 <= l < edition@.len() implies edition.deep_view()[l]
                    == before.push(tag@)[l] by {
                    assert(edition.deep_view()[l] == edition@[l]@);
                    if l < edition@.len() - 1 {
                        assert(before[l] == edition@[l]@);
                    } else {
                        assert(edition@[l]@ == tag@);
                    }
                }
                assert(edition.deep_view() =~= before.push(tag@));
                assert(visible_editions(eds.take(k + 1)) == visible_editions(eds.take(k as int)).push(
                    tag@,
                ));
            }
        } else {
            proof {
                assert(visible_editions(eds.take(k + 1)) == visible_editions(eds.take(k as int)));
            }
        }
        k = k + 1;
    }
    proof {
        assert(eds.take(m as int) =~= eds);
        assert(dv[0] == entries@[0]@);
    }

    Song {
        versions,
        year,
        edition,
        artist: first.artist.clone(),
        track: first.track.clone(),
        original: first.original,
        ai: first.ai,
    }
}

/// Aggregates the whole directory: exactly one song per group, in directory
/// order.
pub fn songs_of(directory: &Directory) -> (r: Vec<Song>)
    requires
        directory.wf(),
    ensures
        r@.len() == directory@.len(),
        forall|i: int|
            0 <= i < directory@.len() ==> (#[trigger] r@[i]@) == spec_song_of(
                directory@[i].entries,
            ),
{
    let n = directory.groups.len();
    let mut r: Vec<Song> = Vec::new();
    let mut i: usize = 0;
    while i < n
        invariant
            i <= n,
            n == directory@.len(),
            directory.wf(),
            r@.len() == i,
            forall|g: int|
                0 <= g < i ==> (#[trigger] r@[g]@) == spec_song_of(directory@[g].entries),
        decreases n - i,
    {
        let group = &directory.groups[i];
        proof {
            assert(directory@[i as int].entries.len() > 0);
            assert(group.entries.deep_view() == directory@[i as int].entries);
        }
        let song = song_of_group(&group.entries);
        r.push(song);
        i = i + 1;
    }
    r
}

} // verus!
