//! The hash router: parsing the URL fragment `#/<versionId>/<versionIndex>`,
//! resolving it against the songs, and the title and streaming URL of the
//! selected version. The fragment is the only persisted selection state; a
//! fragment that resolves opens the player, one that does not is cleared.

use vstd::prelude::*;
use vstd::string::StrSliceExecFns;
use vstd::string::StringExecFns;
use crate::model::DirectoryEntry;
use crate::model::EntryView;
use crate::model::Song;
use crate::numeral::dec_of;
use crate::numeral::is_digit;
use crate::numeral::all_digits;
use crate::numeral::lemma_dec_of_canonical;
use crate::numeral::parse_index;
use crate::numeral::u32_to_string;
use crate::text::str_eq;

verus! {

/// The two-character fragment delimiter `#/` stands at position `i` of `h`.
pub open spec fn has_fragment_at(h: Seq<char>, i: int) -> bool {
    0 <= i && i + 2 <= h.len() && h[i] == '#' && h[i + 1] == '/'
}

/// Some fragment delimiter occurs in `h`.
pub open spec fn has_fragment(h: Seq<char>) -> bool {
    exists|i: int| has_fragment_at(h, i)
}

/// `i` is the first fragment delimiter of `h`.
pub open spec fn is_first_fragment(h: Seq<char>, i: int) -> bool {
    has_fragment_at(h, i) && forall|j: int| 0 <= j < i ==> !has_fragment_at(h, j)
}

/// The fragment's segment, begun at `from`, ends at `e`: the next fragment
/// delimiter, or the end of `h` when none follows.
pub open spec fn is_segment_end(h: Seq<char>, from: int, e: int) -> bool {
    &&& from <= e <= h.len()
    &&& forall|j: int| from <= j < e ==> !has_fragment_at(h, j)
    &&& e < h.len() ==> has_fragment_at(h, e)
}

/// `a` is the first slash at or after `from` and before `to`.
pub open spec fn is_first_slash_in(h: Seq<char>, from: int, to: int, a: int) -> bool {
    &&& from <= a < to <= h.len()
    &&& h[a] == '/'
    &&& forall|j: int| from <= j < a ==> h[j] != '/'
}

/// No slash occurs at or after `from` and before `to`.
pub open spec fn no_slash_in(h: Seq<char>, from: int, to: int) -> bool {
    forall|j: int| from <= j < to ==> h[j] != '/'
}

/// The positions that parse the fragment of `h`: the first delimiter at `i`,
/// the segment running to `e`, the id ending at the segment's first slash
/// `a`, and the index part ending at `b` — the following slash, or the
/// segment end when no slash follows.
pub open spec fn fragment_parses_at(h: Seq<char>, i: int, e: int, a: int, b: int) -> bool {
    &&& is_first_fragment(h, i)
    &&& is_segment_end(h, i + 2, e)
    &&& is_first_slash_in(h, i + 2, e, a)
    &&& (is_first_slash_in(h, a + 1, e, b) || (b == e && no_slash_in(h, a + 1, e)))
}

/// `h` holds a fragment whose id part is `id` and whose index part is `idxs`.
pub open spec fn fragment_parses(h: Seq<char>, id: Seq<char>, idxs: Seq<char>) -> bool {
    exists|i: int, e: int, a: int, b: int|
        #[trigger] fragment_parses_at(h, i, e, a, b) && id == h.subrange(i + 2, a) && idxs
            == h.subrange(a + 1, b)
}

/// The version at index `k` of song `s` carries the id `id`.
pub open spec fn song_matches(s: crate::model::SongView, id: Seq<char>, k: int) -> bool {
    0 <= k < s.versions.len() && s.versions[k].id == id
}

/// Song `i` is the first, in aggregation order, whose version `k` carries
/// `id`.
pub open spec fn is_first_match(songs: Seq<Song>, id: Seq<char>, k: int, i: int) -> bool {
    &&& 0 <= i < songs.len()
    &&& song_matches(songs[i]@, id, k)
    &&& forall|j: int| 0 <= j < i ==> !song_matches(#[trigger] songs[j]@, id, k)
}

/// The fragment of `h` selects some version of some song: it parses, its
/// index part is the canonical numeral of an index, and a song carries the
/// id at that index.
pub open spec fn resolves(songs: Seq<Song>, h: Seq<char>) -> bool {
    exists|id: Seq<char>, k: usize, i: int|
        fragment_parses(h, id, dec_of(k as nat)) && #[trigger] is_first_match(
            songs,
            id,
            k as int,
            i,
        )
}

proof fn lemma_first_fragment_unique(h: Seq<char>, i1: int, i2: int)
    requires
        is_first_fragment(h, i1),
        is_first_fragment(h, i2),
    ensures
        i1 == i2,
{
}

proof fn lemma_segment_end_unique(h: Seq<char>, from: int, e1: int, e2: int)
    requires
        is_segment_end(h, from, e1),
        is_segment_end(h, from, e2),
    ensures
        e1 == e2,
{
}

proof fn lemma_first_slash_unique(h: Seq<char>, from: int, to: int, a1: int, a2: int)
    requires
        is_first_slash_in(h, from, to, a1),
        is_first_slash_in(h, from, to, a2),
    ensures
        a1 == a2,
{
}

/// Two parses of the same hash agree on every position.
proof fn lemma_parse_at_unique(
    h: Seq<char>,
    i1: int,
    e1: int,
    a1: int,
    b1: int,
    i2: int,
    e2: int,
    a2: int,
    b2: int,
)
    requires
        fragment_parses_at(h, i1, e1, a1, b1),
        fragment_parses_at(h, i2, e2, a2, b2),
    ensures
        i1 == i2,
        e1 == e2,
        a1 == a2,
        b1 == b2,
{
    lemma_first_fragment_unique(h, i1, i2);
    lemma_segment_end_unique(h, i1 + 2, e1, e2);
    lemma_first_slash_unique(h, i1 + 2, e1, a1, a2);
    if is_first_slash_in(h, a1 + 1, e1, b1) && is_first_slash_in(h, a1 + 1, e1, b2) {
        lemma_first_slash_unique(h, a1 + 1, e1, b1, b2);
    }
}

/// Finds the first fragment delimiter of the hash.
fn find_fragment(h: &str) -> (r: Option<usize>)
    ensures
        match r {
            Option::Some(i) => is_first_fragment(h@, i as int),
            Option::None => !has_fragment(h@),
        },
{
    let n = h.unicode_len();
    let mut i: usize = 0;
    while i < n && i + 1 < n
        invariant
            i <= n,
            n == h@.len(),
            forall|j: int| 0 <= j < i ==> !has_fragment_at(h@, j),
        decreases n - i,
    {
        let c0 = h.get_char(i);
        let c1 = h.get_char(i + 1);
        if c0 as u32 == 35 && c1 as u32 == 47 {
            proof {
                assert(h@[i as int] == '#');
                assert(h@[i + 1] == '/');
            }
            return Option::Some(i);
        }
        proof {
            assert(!has_fragment_at(h@, i as int));
        }
        i = i + 1;
    }
    proof {
        assert forall|j: int| !has_fragment_at(h@, j) by {
            if j >= i {
                assert(j + 2 > n);
            }
        }
    }
    Option::None
}

/// Finds the end of the segment begun at `from`: the next fragment delimiter
/// or the end of the hash.
fn find_segment_end(h: &str, from: usize) -> (r: usize)
    requires
        from <= h@.len(),
    ensures
        is_segment_end(h@, from as int, r as int),
        from <= r <= h@.len(),
{
    let n = h.unicode_len();
    let mut i: usize = from;
    while i < n && i + 1 < n
        invariant
            from <= i <= n,
            n == h@.len(),
            forall|j: int| from <= j < i ==> !has_fragment_at(h@, j),
        decreases n - i,
    {
        let c0 = h.get_char(i);
        let c1 = h.get_char(i + 1);
        if c0 as u32 == 35 && c1 as u32 == 47 {
            proof {
                assert(h@[i as int] == '#');
                assert(h@[i + 1] == '/');
            }
            return i;
        }
        proof {
            assert(!has_fragment_at(h@, i as int));
        }
        i = i + 1;
    }
    proof {
        assert forall|j: int| from <= j < n implies !has_fragment_at(h@, j) by {
            if j >= i {
                assert(j + 2 > n);
            }
        }
    }
    n
}

/// Finds the first slash at or after `from` and before `to`.
fn find_slash(h: &str, from: usize, to: usize) -> (r: Option<usize>)
    requires
        from <= to <= h@.len(),
    ensures
        match r {
            Option::Some(a) => is_first_slash_in(h@, from as int, to as int, a as int),
            Option::None => no_slash_in(h@, from as int, to as int),
        },
{
    let mut i: usize = from;
    while i < to
        invariant
            from <= i <= to,
            to <= h@.len(),
            forall|j: int| from <= j < i ==> h@[j] != '/',
        decreases to - i,
    {
        let c = h.get_char(i);
        if c as u32 == 47 {
            proof {
                assert(h@[i as int] == '/');
            }
            return Option::Some(i);
        }
        proof {
            assert(h@[i as int] != '/');
        }
        i = i + 1;
    }
    Option::None
}

/// The comma-separated join of edition labels.
pub open spec fn comma_join(parts: Seq<Seq<char>>) -> Seq<char>
    decreases parts.len(),
{
    if parts.len() == 0 {
        Seq::empty()
    } else if parts.len() == 1 {
        parts[0]
    } else {
        comma_join(parts.drop_last()) + ", "@ + parts.last()
    }
}

/// The display title of a version: artist and track, the version's own
/// edition list in parentheses when non-empty, and the year in brackets.
pub open spec fn title_of(e: EntryView) -> Seq<char> {
    e.artist + " - "@ + e.track + (if e.edition.len() == 0 {
        Seq::<char>::empty()
    } else {
        " ("@ + comma_join(e.edition) + ")"@
    }) + " ["@ + dec_of(e.year as nat) + "]"@
}

/// The manifest URL the player streams a version from.
pub open spec fn stream_url_of(e: EntryView) -> Seq<char> {
    "https://cdn.floo.fi/watercolor/records/"@ + e.cdn_id + "/stream_dash.mpd"@
}

/// Builds the display title of a version.
pub fn version_title(e: &DirectoryEntry) -> (r: String)
    ensures
        r@ == title_of(e@),
{
    let ghost eds = e.edition.deep_view();
    let mut t = e.artist.clone();
    t.append(" - ");
    t.append(e.track.as_str());
    let m = e.edition.len();
    if m > 0 {
        t.append(" (");
        let ghost base = t@;
        t.append(e.edition[0].as_str());
        proof {
            assert(eds[0] == e.edition@[0]@);
            assert(eds.take(1).len() == 1);
            assert(eds.take(1)[0] == eds[0]);
            assert(comma_join(eds.take(1)) == eds[0]);
        }
        let mut j: usize = 1;
        while j < m
            invariant
                1 <= j <= m,
                m == e.edition@.len(),
                eds == e.edition.deep_view(),
                t@ == base + comma_join(eds.take(j as int)),
            decreases m - j,
        {
            t.append(", ");
            t.append(e.edition[j].as_str());
            proof {
                assert(eds[j as int] == e.edition@[j as int]@);
                assert(eds.take(j + 1).drop_last() =~= eds.take(j as int));
                assert(eds.take(j + 1).last() == eds[j as int]);
                assert(comma_join(eds.take(j + 1)) == comma_join(eds.take(j as int)) + ", "@
                    + eds[j as int]);
                assert(t@ =~= base + comma_join(eds.take(j + 1)));
            }
            j = j + 1;
        }
        proof {
            assert(eds.take(m as int) =~= eds);
        }
        t.append(")");
    }
    t.append(" [");
    let y = u32_to_string(e.year);
    t.append(y.as_str());
    t.append("]");
    proof {
        assert(t@ =~= title_of(e@));
    }
    t
}

/// Builds the streaming manifest URL of a version.
pub fn stream_url(e: &DirectoryEntry) -> (r: String)
    ensures
        r@ == stream_url_of(e@),
{
    let mut u = String::from_str("https://cdn.floo.fi/watercolor/records/");
    u.append(e.cdn_id.as_str());
    u.append("/stream_dash.mpd");
    proof {
        assert(u@ =~= stream_url_of(e@));
    }
    u
}

/// The navigation fragment that selects the version with the given id at the
/// given index within its song.
pub open spec fn fragment_text(id: Seq<char>, index: nat) -> Seq<char> {
    "#/"@ + id + "/"@ + dec_of(index)
}

/// Builds the navigation fragment for a version.
pub fn version_fragment(id: &str, index: usize) -> (r: String)
    ensures
        r@ == fragment_text(id@, index as nat),
{
    let mut f = String::from_str("#/");
    f.append(id);
    f.append("/");
    f.append(crate::numeral::usize_to_string(index).as_str());
    proof {
        assert(f@ =~= fragment_text(id@, index as nat));
    }
    f
}

/// What one pass of the router decides from the current hash: stay closed,
/// clear a fragment that selects nothing, or open the player on a version.
pub enum HashOutcome {
    /// The hash holds no fragment delimiter: no selection, nothing to undo.
    Closed,
    /// The hash holds a fragment, but it selects no version: the fragment is
    /// to be cleared so the page does not point at a dead link.
    ClearFragment,
    /// The fragment selects a version: the player opens with this title and
    /// streams from this URL, and the document title becomes the same text.
    Open { song: usize, version: usize, title: String, stream_url: String },
}

/// The router's contract: which outcome the hash and the songs demand.
pub open spec fn outcome_matches(songs: Seq<Song>, h: Seq<char>, r: HashOutcome) -> bool {
    match r {
        HashOutcome::Closed => !has_fragment(h),
        HashOutcome::ClearFragment => has_fragment(h) && !resolves(songs, h),
        HashOutcome::Open { song, version, title, stream_url } => {
            &&& exists|id: Seq<char>|
                #[trigger] fragment_parses(h, id, dec_of(version as nat)) && is_first_match(
                    songs,
                    id,
                    version as int,
                    song as int,
                )
            &&& song < songs.len()
            &&& version < songs[song as int]@.versions.len()
            &&& title@ == title_of(songs[song as int]@.versions[version as int])
            &&& stream_url@ == stream_url_of(songs[song as int]@.versions[version as int])
        },
    }
}

/// Resolves the current hash against the songs, in aggregation order: the
/// first song with a version whose id and positional index both match the
/// fragment wins.
pub fn process_hash(songs: &Vec<Song>, hash: &str) -> (r: HashOutcome)
    ensures
        outcome_matches(songs@, hash@, r),
{
    let i = match find_fragment(hash) {
        Option::None => {
            return HashOutcome::Closed;
        },
        Option::Some(i) => i,
    };
    let hlen = hash.unicode_len();
    proof {
        assert(i + 2 <= hlen);
    }
    let e = find_segment_end(hash, i + 2);
    let a = match find_slash(hash, i + 2, e) {
        Option::None => {
            proof {
                assert(has_fragment_at(hash@, i as int));
                assert(!resolves(songs@, hash@)) by {
                    if resolves(songs@, hash@) {
                        let (id, k, si) = choose|id: Seq<char>, k: usize, si: int|
                            fragment_parses(hash@, id, dec_of(k as nat)) && #[trigger] is_first_match(
                                songs@,
                                id,
                                k as int,
                                si,
                            );
                        let (i2, e2, a2, b2) = choose|i2: int, e2: int, a2: int, b2: int|
                            #[trigger] fragment_parses_at(hash@, i2, e2, a2, b2) && id
                                == hash@.subrange(i2 + 2, a2) && dec_of(k as nat) == hash@.subrange(
                                a2 + 1,
                                b2,
                            );
                        lemma_first_fragment_unique(hash@, i as int, i2);
                        lemma_segment_end_unique(hash@, i as int + 2, e as int, e2);
                        assert(hash@[a2] == '/');
                        assert(false);
                    }
                }
            }
            return HashOutcome::ClearFragment;
        },
        Option::Some(a) => a,
    };
    let b = match find_slash(hash, a + 1, e) {
        Option::None => e,
        Option::Some(b) => b,
    };
    let id_str = hash.substring_char(i + 2, a);
    let idx_str = hash.substring_char(a + 1, b);
    proof {
        assert(fragment_parses_at(hash@, i as int, e as int, a as int, b as int));
    }
    let k = match parse_index(idx_str) {
        Option::None => {
            proof {
                assert(has_fragment_at(hash@, i as int));
                assert(!resolves(songs@, hash@)) by {
                    if resolves(songs@, hash@) {
                        let (id, k2, si) = choose|id: Seq<char>, k2: usize, si: int|
                            fragment_parses(hash@, id, dec_of(k2 as nat)) && #[trigger] is_first_match(
                                songs@,
                                id,
                                k2 as int,
                                si,
                            );
                        let (i2, e2, a2, b2) = choose|i2: int, e2: int, a2: int, b2: int|
                            #[trigger] fragment_parses_at(hash@, i2, e2, a2, b2) && id
                                == hash@.subrange(i2 + 2, a2) && dec_of(k2 as nat) == hash@.subrange(
                                a2 + 1,
                                b2,
                            );
                        lemma_parse_at_unique(
                            hash@,
                            i as int,
                            e as int,
                            a as int,
                            b as int,
                            i2,
                            e2,
                            a2,
                            b2,
                        );
                        assert(idx_str@ == dec_of(k2 as nat));
                        assert(false);
                    }
                }
            }
            return HashOutcome::ClearFragment;
        },
        Option::Some(k) => k,
    };
    let n_songs = songs.len();
    let mut si: usize = 0;
    while si < n_songs
        invariant
            si <= n_songs,
            n_songs == songs@.len(),
            fragment_parses_at(hash@, i as int, e as int, a as int, b as int),
            id_str@ == hash@.subrange(i + 2, a as int),
            idx_str@ == hash@.subrange(a + 1, b as int),
            idx_str@ == dec_of(k as nat),
            forall|j: int| 0 <= j < si ==> !song_matches((#[trigger] songs@[j])@, id_str@, k as int),
        decreases n_songs - si,
    {
        let song = &songs[si];
        if k < song.versions.len() {
            let v = &song.versions[k];
            proof {
                assert(song@.versions[k as int] == song.versions@[k as int]@);
            }
            if str_eq(v.id.as_str(), id_str) {
                let title = version_title(v);
                let url = stream_url(v);
                proof {
                    assert(song_matches(songs@[si as int]@, id_str@, k as int));
                    assert(is_first_match(songs@, id_str@, k as int, si as int));
                    assert(fragment_parses(hash@, id_str@, idx_str@));
                }
                return HashOutcome::Open { song: si, version: k, title, stream_url: url };
            }
            proof {
                assert(!song_matches(songs@[si as int]@, id_str@, k as int));
            }
        } else {
            proof {
                assert(!song_matches(songs@[si as int]@, id_str@, k as int));
            }
        }
        si = si + 1;
    }
    proof {
        assert(has_fragment_at(hash@, i as int));
        assert(!resolves(songs@, hash@)) by {
            if resolves(songs@, hash@) {
                let (id, k2, si2) = choose|id: Seq<char>, k2: usize, si2: int|
                    fragment_parses(hash@, id, dec_of(k2 as nat)) && #[trigger] is_first_match(
                        songs@,
                        id,
                        k2 as int,
                        si2,
                    );
                let (i2, e2, a2, b2) = choose|i2: int, e2: int, a2: int, b2: int|
                    #[trigger] fragment_parses_at(hash@, i2, e2, a2, b2) && id == hash@.subrange(
                        i2 + 2,
                        a2,
                    ) && dec_of(k2 as nat) == hash@.subrange(a2 + 1, b2);
                lemma_parse_at_unique(
                    hash@,
                    i as int,
                    e as int,
                    a as int,
                    b as int,
                    i2,
                    e2,
                    a2,
                    b2,
                );
                assert(id == id_str@);
                assert(dec_of(k2 as nat) == dec_of(k as nat));
                lemma_dec_of_canonical(k as nat);
                lemma_dec_of_canonical(k2 as nat);
                assert(k2 == k);
                assert(song_matches(songs@[si2]@, id_str@, k as int));
                assert(false);
            }
        }
    }
    HashOutcome::ClearFragment
}

/// Round trip: the fragment built for a version resolves back to that very
/// version, provided the id holds no slash, does not end in a hash mark, and
/// no earlier song shadows the pair of id and index.
pub proof fn lemma_fragment_round_trip(songs: Seq<Song>, i: int, k: usize, h: Seq<char>)
    requires
        0 <= i < songs.len(),
        (k as int) < songs[i]@.versions.len(),
        h == fragment_text(songs[i]@.versions[k as int].id, k as nat),
        forall|l: int|
            0 <= l < songs[i]@.versions[k as int].id.len() ==> (#[trigger] songs[i]@.versions[k as int].id[l])
                != '/',
        songs[i]@.versions[k as int].id.len() > 0 ==> songs[i]@.versions[k as int].id[songs[i]@.versions[k as int].id.len()
            - 1] != '#',
        forall|j: int| 0 <= j < i ==> !song_matches(#[trigger] songs[j]@, songs[i]@.versions[k as int].id, k as int),
    ensures
        fragment_parses(h, songs[i]@.versions[k as int].id, dec_of(k as nat)),
        is_first_match(songs, songs[i]@.versions[k as int].id, k as int, i),
        resolves(songs, h),
{
    let id = songs[i]@.versions[k as int].id;
    let digits = dec_of(k as nat);
    reveal_strlit("#/");
    reveal_strlit("/");
    lemma_dec_of_canonical(k as nat);
    assert("#/"@.len() == 2);
    assert("/"@.len() == 1);
    assert("#/"@[0] == '#');
    assert("#/"@[1] == '/');
    assert("/"@[0] == '/');
    let s = 2 + id.len() as int;
    assert(h.len() == s + 1 + digits.len());
    assert(h[0] == '#');
    assert(h[1] == '/');
    assert forall|l: int| 0 <= l < id.len() implies h[2 + l] == id[l] by {}
    assert(h[s] == '/');
    assert forall|l: int| 0 <= l < digits.len() implies h[s + 1 + l] == digits[l] by {}
    assert forall|l: int| 0 <= l < digits.len() implies is_digit(digits[l]) by {
        assert(all_digits(digits));
    }
    assert(has_fragment_at(h, 0));
    assert(is_first_fragment(h, 0));
    assert forall|j: int| 2 <= j < h.len() implies !has_fragment_at(h, j) by {
        if j + 2 <= h.len() && h[j + 1] == '/' {
            // the only slashes after the delimiter are the separator at `s`
            // and none inside the digits
            assert(j + 1 == s);
            if id.len() > 0 {
                assert(h[j] == id[id.len() - 1]);
            } else {
                assert(h[j] == '/');
            }
            assert(h[j] != '#');
        }
    }
    assert(is_segment_end(h, 2, h.len() as int));
    assert forall|j: int| 2 <= j < s implies h[j] != '/' by {
        assert(h[j] == id[j - 2]);
    }
    assert(is_first_slash_in(h, 2, h.len() as int, s));
    assert forall|j: int| s + 1 <= j < h.len() implies h[j] != '/' by {
        assert(h[j] == digits[j - (s + 1)]);
        assert(is_digit(digits[j - (s + 1)]));
    }
    assert(no_slash_in(h, s + 1, h.len() as int));
    assert(fragment_parses_at(h, 0, h.len() as int, s, h.len() as int));
    assert(id =~= h.subrange(2, s));
    assert(digits =~= h.subrange(s + 1, h.len() as int));
    assert(fragment_parses(h, id, digits));
    assert(song_matches(songs[i]@, id, k as int));
    assert(is_first_match(songs, id, k as int, i));
}

} // verus!
