use watercolor::model::Directory;
use watercolor::model::DirectoryEntry;
use watercolor::model::DirectoryGroup;
use watercolor::model::Song;
use watercolor::model::songs_of;
use watercolor::numeral::parse_index;
use watercolor::numeral::u32_to_string;
use watercolor::numeral::usize_to_string;
use watercolor::router::process_hash;
use watercolor::router::version_fragment;
use watercolor::router::version_title;
use watercolor::router::HashOutcome;

fn entry(
    id: &str,
    cdn_id: &str,
    edition: Vec<String>,
    year: u32,
    artist: &str,
    track: &str,
) -> DirectoryEntry {
    DirectoryEntry {
        id: id.to_string(),
        cdn_id: cdn_id.to_string(),
        file: format!("{}.flac", id),
        edition,
        year,
        artist: artist.to_string(),
        track: track.to_string(),
        original: false,
        ai: false,
    }
}

fn scenario_songs() -> Vec<Song> {
    let directory = Directory {
        groups: vec![DirectoryGroup {
            key: "g1".to_string(),
            entries: vec![entry("a", "x", vec![], 2020, "Bob", "Song A")],
        }],
    };
    songs_of(&directory)
}

#[test]
fn matching_fragment_opens_the_player() {
    let songs = scenario_songs();
    match process_hash(&songs, "#/a/0") {
        HashOutcome::Open { song, version, title, stream_url } => {
            assert_eq!(song, 0);
            assert_eq!(version, 0);
            assert_eq!(title, "Bob - Song A [2020]");
            assert_eq!(
                stream_url,
                "https://cdn.floo.fi/watercolor/records/x/stream_dash.mpd"
            );
        },
        _ => panic!("the fragment selects the only version"),
    }
}

#[test]
fn index_mismatch_clears_the_fragment() {
    let songs = scenario_songs();
    assert!(matches!(process_hash(&songs, "#/a/1"), HashOutcome::ClearFragment));
}

#[test]
fn unknown_id_clears_the_fragment() {
    let songs = scenario_songs();
    assert!(matches!(process_hash(&songs, "#/zz/0"), HashOutcome::ClearFragment));
}

#[test]
fn hash_without_delimiter_stays_closed() {
    let songs = scenario_songs();
    assert!(matches!(process_hash(&songs, ""), HashOutcome::Closed));
    assert!(matches!(process_hash(&songs, "#about"), HashOutcome::Closed));
}

#[test]
fn fragment_without_index_part_clears() {
    let songs = scenario_songs();
    assert!(matches!(process_hash(&songs, "#/a"), HashOutcome::ClearFragment));
}

#[test]
fn padded_index_does_not_match() {
    let songs = scenario_songs();
    assert!(matches!(process_hash(&songs, "#/a/00"), HashOutcome::ClearFragment));
    assert!(matches!(process_hash(&songs, "#/a/+0"), HashOutcome::ClearFragment));
}

#[test]
fn segment_stops_at_the_next_delimiter() {
    let songs = scenario_songs();
    match process_hash(&songs, "#/a/0#/zz/9") {
        HashOutcome::Open { song, version, .. } => {
            assert_eq!(song, 0);
            assert_eq!(version, 0);
        },
        _ => panic!("the first segment selects the version"),
    }
}

#[test]
fn built_fragment_round_trips() {
    let directory = Directory {
        groups: vec![
            DirectoryGroup {
                key: "g1".to_string(),
                entries: vec![entry("a", "x", vec![], 2020, "Bob", "Song A")],
            },
            DirectoryGroup {
                key: "g2".to_string(),
                entries: vec![
                    entry("b", "y", vec![], 2018, "Eve", "Song B"),
                    entry("c", "z", vec![], 2021, "Eve", "Song B"),
                ],
            },
        ],
    };
    let songs = songs_of(&directory);
    let fragment = version_fragment(&songs[1].versions[1].id, 1);
    assert_eq!(fragment, "#/c/1");
    match process_hash(&songs, &fragment) {
        HashOutcome::Open { song, version, .. } => {
            assert_eq!(song, 1);
            assert_eq!(version, 1);
        },
        _ => panic!("the built fragment resolves to its version"),
    }
}

#[test]
fn title_lists_the_version_editions() {
    let e = entry(
        "a",
        "x",
        vec!["v2".to_string(), "Deluxe".to_string()],
        2021,
        "Ann",
        "Tune",
    );
    assert_eq!(version_title(&e), "Ann - Tune (v2, Deluxe) [2021]");
}

#[test]
fn numerals_render_canonically() {
    assert_eq!(u32_to_string(0), "0");
    assert_eq!(u32_to_string(2020), "2020");
    assert_eq!(usize_to_string(105), "105");
}

#[test]
fn parse_index_accepts_only_canonical_numerals() {
    assert_eq!(parse_index("0"), Some(0));
    assert_eq!(parse_index("17"), Some(17));
    assert_eq!(parse_index(""), None);
    assert_eq!(parse_index("01"), None);
    assert_eq!(parse_index("1x"), None);
    assert_eq!(parse_index("99999999999999999999999999"), None);
}
