//! The display ordering of songs: non-AI entries first, then newest year,
//! then artist and track case-insensitively, and source position as the final
//! tie-break — so the ordering is stable.

use vstd::prelude::*;
use crate::model::Song;
use crate::model::SongView;
use crate::text::lex_lt;
use crate::text::lemma_lex_transitive;
use crate::text::lemma_lex_trichotomy;
use crate::text::lower_of;
use crate::text::lowercase;
use crate::text::str_cmp;

verus! {

/// The strict display order on songs, tagged with their source positions
/// `ia` and `ib`: the AI flag decides first (non-AI before AI), then the
/// year descending, then the case-folded artist, then the case-folded track,
/// and finally the source position, ascending.
pub open spec fn display_precedes(a: SongView, ia: int, b: SongView, ib: int) -> bool {
    if a.ai != b.ai {
        !a.ai
    } else if a.year != b.year {
        a.year > b.year
    } else if lower_of(a.artist) != lower_of(b.artist) {
        lex_lt(lower_of(a.artist), lower_of(b.artist))
    } else if lower_of(a.track) != lower_of(b.track) {
        lex_lt(lower_of(a.track), lower_of(b.track))
    } else {
        ia < ib
    }
}

/// Whether some position of `r` holds the value `v`.
pub open spec fn occurs(r: Seq<usize>, v: int) -> bool {
    exists|l: int| 0 <= l < r.len() && r[l] == v
}

/// Whether some entry of `arr` carries the source position `v`.
spec fn idx_occurs(arr: Seq<SortEntry>, v: int) -> bool {
    exists|l: int| 0 <= l < arr.len() && arr[l].idx == v
}

/// One song's sort keys: its flags and its case-folded artist and track,
/// with the song's source position.
struct SortEntry {
    ai: bool,
    year: u32,
    artist_key: String,
    track_key: String,
    idx: usize,
}

/// The strict order on sort keys, mirroring `display_precedes`.
spec fn entry_precedes(a: SortEntry, b: SortEntry) -> bool {
    if a.ai != b.ai {
        !a.ai
    } else if a.year != b.year {
        a.year > b.year
    } else if a.artist_key@ != b.artist_key@ {
        lex_lt(a.artist_key@, b.artist_key@)
    } else if a.track_key@ != b.track_key@ {
        lex_lt(a.track_key@, b.track_key@)
    } else {
        a.idx < b.idx
    }
}

/// An entry carries the keys of the song at its source position.
spec fn entry_wf(e: SortEntry, songs: Seq<Song>) -> bool {
    &&& e.idx < songs.len()
    &&& e.ai == songs[e.idx as int]@.ai
    &&& e.year == songs[e.idx as int]@.year
    &&& e.artist_key@ == lower_of(songs[e.idx as int]@.artist)
    &&& e.track_key@ == lower_of(songs[e.idx as int]@.track)
}

/// Keys with distinct positions are strictly comparable, one way only.
proof fn lemma_entry_total(a: SortEntry, b: SortEntry)
    requires
        a.idx != b.idx,
    ensures
        entry_precedes(a, b) <==> !entry_precedes(b, a),
{
    lemma_lex_trichotomy(a.artist_key@, b.artist_key@);
    lemma_lex_trichotomy(a.track_key@, b.track_key@);
}

/// The order on keys is transitive.
proof fn lemma_entry_trans(a: SortEntry, b: SortEntry, c: SortEntry)
    requires
        entry_precedes(a, b),
        entry_precedes(b, c),
    ensures
        entry_precedes(a, c),
{
    lemma_lex_trichotomy(a.artist_key@, b.artist_key@);
    lemma_lex_trichotomy(b.artist_key@, c.artist_key@);
    lemma_lex_trichotomy(a.artist_key@, c.artist_key@);
    lemma_lex_trichotomy(a.track_key@, b.track_key@);
    lemma_lex_trichotomy(b.track_key@, c.track_key@);
    lemma_lex_trichotomy(a.track_key@, c.track_key@);
    if lex_lt(a.artist_key@, b.artist_key@) && lex_lt(b.artist_key@, c.artist_key@) {
        lemma_lex_transitive(a.artist_key@, b.artist_key@, c.artist_key@);
    }
    if lex_lt(a.track_key@, b.track_key@) && lex_lt(b.track_key@, c.track_key@) {
        lemma_lex_transitive(a.track_key@, b.track_key@, c.track_key@);
    }
}

/// Whether `a` sorts strictly before `b`.
fn entry_before(a: &SortEntry, b: &SortEntry) -> (r: bool)
    ensures
        r == entry_precedes(*a, *b),
{
    if a.ai != b.ai {
        return !a.ai;
    }
    if a.year != b.year {
        return a.year > b.year;
    }
    let artist = str_cmp(a.artist_key.as_str(), b.artist_key.as_str());
    if artist != 0 {
        return artist < 0;
    }
    let track = str_cmp(a.track_key.as_str(), b.track_key.as_str());
    if track != 0 {
        return track < 0;
    }
    a.idx < b.idx
}

/// Computes the display order: the source indices of all songs, arranged by
/// `display_precedes`. The result visits every song exactly once, and two
/// songs with equal keys keep their source order (the ordering is stable).
pub fn display_order(songs: &Vec<Song>) -> (r: Vec<usize>)
    ensures
        r@.len() == songs@.len(),
        forall|i: int| 0 <= i < r@.len() ==> (#[trigger] r@[i]) < songs@.len(),
        forall|v: int| 0 <= v < songs@.len() ==> #[trigger] occurs(r@, v),
        forall|i: int, j: int|
            0 <= i < j < r@.len() ==> display_precedes(
                songs@[r@[i] as int]@,
                r@[i] as int,
                songs@[r@[j] as int]@,
                r@[j] as int,
            ),
{
    let n = songs.len();
    let mut arr: Vec<SortEntry> = Vec::new();
    let mut i: usize = 0;
    while i < n
        invariant
            i <= n,
            n == songs@.len(),
            arr@.len() == i,
            forall|l: int| 0 <= l < i ==> entry_wf(#[trigger] arr@[l], songs@),
            forall|l: int| 0 <= l < i ==> (#[trigger] arr@[l]).idx < i,
            forall|v: int| 0 <= v < i ==> #[trigger] idx_occurs(arr@, v),
            forall|l1: int, l2: int|
                0 <= l1 < l2 < i ==> entry_precedes(#[trigger] arr@[l1], #[trigger] arr@[l2]),
        decreases n - i,
    {
        let song = &songs[i];
        let e = SortEntry {
            ai: song.ai,
            year: song.year,
            artist_key: lowercase(song.artist.as_str()),
            track_key: lowercase(song.track.as_str()),
            idx: i,
        };
        let ghost ev = e;
        let mut p: usize = 0;
        while p < arr.len() && entry_before(&arr[p], &e)
            invariant
                p <= arr@.len(),
                e == ev,
                forall|l: int| 0 <= l < p ==> entry_precedes(#[trigger] arr@[l], ev),
            decreases arr@.len() - p,
        {
            p = p + 1;
        }
        proof {
            if p < arr@.len() {
                assert(!entry_precedes(arr@[p as int], ev));
                assert(arr@[p as int].idx < i && ev.idx == i);
                lemma_entry_total(arr@[p as int], ev);
                assert(entry_precedes(ev, arr@[p as int]));
            }
            assert forall|l: int| p <= l < arr@.len() implies entry_precedes(
                ev,
                #[trigger] arr@[l],
            ) by {
                if l > p {
                    lemma_entry_trans(ev, arr@[p as int], arr@[l]);
                }
            }
        }
        let ghost before = arr@;
        arr.insert(p, e);
        proof {
            assert(arr@ == before.insert(p as int, ev));
            assert forall|l: int| 0 <= l < arr@.len() implies (if l < p {
                arr@[l] == before[l]
            } else if l == p {
                arr@[l] == ev
            } else {
                arr@[l] == before[l - 1]
            }) by {
                assert(before.insert(p as int, ev) =~= before.take(p as int) + seq![ev]
                    + before.skip(p as int));
            }
            assert forall|v: int| 0 <= v < i + 1 implies #[trigger] idx_occurs(arr@, v) by {
                if v == i {
                    assert(arr@[p as int].idx == v);
                } else {
                    assert(idx_occurs(before, v));
                    let l0 = choose|l0: int| 0 <= l0 < before.len() && (#[trigger] before[l0].idx)
                        == v;
                    if l0 < p {
                        assert(arr@[l0].idx == v);
                    } else {
                        assert(arr@[l0 + 1].idx == v);
                    }
                }
            }
        }
        i = i + 1;
    }

    let mut r: Vec<usize> = Vec::new();
    let mut j: usize = 0;
    while j < n
        invariant
            j <= n,
            n == songs@.len(),
            arr@.len() == n,
            forall|l: int| 0 <= l < n ==> entry_wf(#[trigger] arr@[l], songs@),
            forall|v: int| 0 <= v < n ==> #[trigger] idx_occurs(arr@, v),
            forall|l1: int, l2: int|
                0 <= l1 < l2 < n ==> entry_precedes(#[trigger] arr@[l1], #[trigger] arr@[l2]),
            r@.len() == j,
            forall|l: int| 0 <= l < j ==> (#[trigger] r@[l]) == arr@[l].idx,
        decreases n - j,
    {
        let idx = arr[j].idx;
        r.push(idx);
        j = j + 1;
    }
    proof {
        assert forall|v: int| 0 <= v < songs@.len() implies #[trigger] occurs(r@, v) by {
            assert(idx_occurs(arr@, v));
            let l0 = choose|l0: int| 0 <= l0 < arr@.len() && (#[trigger] arr@[l0].idx) == v;
            assert(r@[l0] == v);
        }
    }
    r
}

/// The ordering is stable: among songs whose AI flag, year, case-folded
/// artist and case-folded track all agree, the display order keeps the
/// source order.
pub proof fn lemma_display_order_stable(songs: Seq<Song>, r: Seq<usize>, i: int, j: int)
    requires
        0 <= i < j < r.len(),
        r[i] < songs.len(),
        r[j] < songs.len(),
        display_precedes(songs[r[i] as int]@, r[i] as int, songs[r[j] as int]@, r[j] as int),
        songs[r[i] as int]@.ai == songs[r[j] as int]@.ai,
        songs[r[i] as int]@.year == songs[r[j] as int]@.year,
        lower_of(songs[r[i] as int]@.artist) == lower_of(songs[r[j] as int]@.artist),
        lower_of(songs[r[i] as int]@.track) == lower_of(songs[r[j] as int]@.track),
    ensures
        r[i] < r[j],
{
}

} // verus!
