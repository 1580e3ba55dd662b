use watercolor::model::Song;
use watercolor::order::display_order;

fn song(artist: &str, track: &str, year: u32, original: bool, ai: bool) -> Song {
    Song {
        versions: vec![],
        year,
        edition: vec![],
        artist: artist.to_string(),
        track: track.to_string(),
        original,
        ai,
    }
}

#[test]
fn non_ai_songs_come_first() {
    let songs = vec![
        song("Ann", "A", 2024, false, true),
        song("Zed", "Z", 2001, false, false),
    ];
    assert_eq!(display_order(&songs), vec![1, 0]);
}

#[test]
fn newer_years_come_first() {
    let songs = vec![
        song("Ann", "A", 2019, false, false),
        song("Ann", "B", 2022, false, false),
        song("Ann", "C", 2020, false, false),
    ];
    assert_eq!(display_order(&songs), vec![1, 2, 0]);
}

#[test]
fn artists_sort_case_insensitively() {
    let songs = vec![
        song("bob", "T", 2020, false, false),
        song("Alice", "T", 2020, false, false),
    ];
    assert_eq!(display_order(&songs), vec![1, 0]);
}

#[test]
fn case_folding_decides_the_order() {
    // byte-wise, "Zed" sorts before "apple"; case-folded it comes after
    let songs = vec![
        song("Zed", "T", 2020, false, false),
        song("apple", "T", 2020, false, false),
    ];
    assert_eq!(display_order(&songs), vec![1, 0]);
}

#[test]
fn tracks_break_artist_ties() {
    let songs = vec![
        song("Ann", "beta", 2020, false, false),
        song("Ann", "Alpha", 2020, false, false),
    ];
    assert_eq!(display_order(&songs), vec![1, 0]);
}

#[test]
fn equal_keys_keep_source_order() {
    let songs = vec![
        song("Ann", "Same", 2020, false, false),
        song("ann", "same", 2020, true, false),
        song("ANN", "SAME", 2020, false, false),
    ];
    assert_eq!(display_order(&songs), vec![0, 1, 2]);
}

#[test]
fn flags_dominate_years_and_names() {
    let songs = vec![
        song("Aaa", "Aaa", 2030, false, true),
        song("Zzz", "Zzz", 1990, false, false),
        song("Mmm", "Mmm", 2030, false, false),
    ];
    assert_eq!(display_order(&songs), vec![2, 1, 0]);
}
