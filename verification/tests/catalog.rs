use watercolor::model::Directory;
use watercolor::model::DirectoryEntry;
use watercolor::model::DirectoryGroup;
use watercolor::model::songs_of;

fn entry(
    id: &str,
    cdn_id: &str,
    edition: Vec<String>,
    year: u32,
    artist: &str,
    track: &str,
    original: bool,
    ai: bool,
) -> DirectoryEntry {
    DirectoryEntry {
        id: id.to_string(),
        cdn_id: cdn_id.to_string(),
        file: format!("{}.flac", id),
        edition,
        year,
        artist: artist.to_string(),
        track: track.to_string(),
        original,
        ai,
    }
}

#[test]
fn one_song_per_group() {
    let directory = Directory {
        groups: vec![
            DirectoryGroup {
                key: "g1".to_string(),
                entries: vec![entry("a", "x", vec![], 2019, "Bob", "Song A", false, false)],
            },
            DirectoryGroup {
                key: "g2".to_string(),
                entries: vec![
                    entry("b", "y", vec![], 2018, "Eve", "Song B", false, false),
                    entry("c", "z", vec![], 2021, "Eve", "Song B", false, false),
                ],
            },
        ],
    };
    let songs = songs_of(&directory);
    assert_eq!(songs.len(), 2);
    assert_eq!(songs[0].versions.len(), 1);
    assert_eq!(songs[1].versions.len(), 2);
}

#[test]
fn year_is_maximum_over_group() {
    let directory = Directory {
        groups: vec![DirectoryGroup {
            key: "g".to_string(),
            entries: vec![
                entry("a", "x", vec![], 2015, "Bob", "T", false, false),
                entry("b", "y", vec![], 2022, "Bob", "T", false, false),
                entry("c", "z", vec![], 2001, "Bob", "T", false, false),
            ],
        }],
    };
    let songs = songs_of(&directory);
    assert_eq!(songs[0].year, 2022);
}

#[test]
fn edition_drops_version_tags() {
    let directory = Directory {
        groups: vec![DirectoryGroup {
            key: "g".to_string(),
            entries: vec![entry(
                "a",
                "x",
                vec!["v2".to_string(), "Deluxe".to_string()],
                2020,
                "Bob",
                "T",
                false,
                false,
            )],
        }],
    };
    let songs = songs_of(&directory);
    assert_eq!(songs[0].edition, vec!["Deluxe".to_string()]);
}

#[test]
fn edition_keeps_order_of_surviving_tags() {
    let directory = Directory {
        groups: vec![DirectoryGroup {
            key: "g".to_string(),
            entries: vec![entry(
                "a",
                "x",
                vec![
                    "Live".to_string(),
                    "v3".to_string(),
                    "Remaster".to_string(),
                    "vip mix".to_string(),
                ],
                2020,
                "Bob",
                "T",
                false,
                false,
            )],
        }],
    };
    let songs = songs_of(&directory);
    assert_eq!(
        songs[0].edition,
        vec!["Live".to_string(), "Remaster".to_string()]
    );
}

#[test]
fn first_entry_supplies_display_fields() {
    let directory = Directory {
        groups: vec![DirectoryGroup {
            key: "g".to_string(),
            entries: vec![
                entry(
                    "a",
                    "x",
                    vec!["Original Mix".to_string()],
                    2019,
                    "Alice",
                    "First",
                    true,
                    false,
                ),
                entry("b", "y", vec!["v9".to_string()], 2020, "Zoe", "Second", false, true),
            ],
        }],
    };
    let songs = songs_of(&directory);
    assert_eq!(songs[0].artist, "Alice");
    assert_eq!(songs[0].track, "First");
    assert!(songs[0].original);
    assert!(!songs[0].ai);
    assert_eq!(songs[0].edition, vec!["Original Mix".to_string()]);
    assert_eq!(songs[0].year, 2020);
    assert_eq!(songs[0].versions[1].id, "b");
}
