use watercolor::badge::artist_prefix;
use watercolor::badge::badge_style;
use watercolor::badge::badges_of;
use watercolor::badge::hash_text_color;
use watercolor::model::DirectoryEntry;
use watercolor::model::Song;

fn version(id: &str) -> DirectoryEntry {
    DirectoryEntry {
        id: id.to_string(),
        cdn_id: id.to_string(),
        file: format!("{}.flac", id),
        edition: vec![],
        year: 2020,
        artist: "A".to_string(),
        track: "T".to_string(),
        original: false,
        ai: false,
    }
}

fn song(versions: usize, edition: Vec<String>, original: bool, ai: bool) -> Song {
    Song {
        versions: (0..versions).map(|i| version(&format!("v{}", i))).collect(),
        year: 2020,
        edition,
        artist: "Artist".to_string(),
        track: "Track".to_string(),
        original,
        ai,
    }
}

#[test]
fn color_is_deterministic_and_in_range() {
    let first = hash_text_color("Deluxe");
    let second = hash_text_color("Deluxe");
    assert_eq!(first, second);
    for channel in [first.0, first.1, first.2] {
        assert!((64..=319).contains(&channel));
    }
}

#[test]
fn color_follows_the_checksum() {
    let sum = crc::Crc::<u32>::new(&crc::CRC_32_BZIP2).checksum("Deluxe".as_bytes());
    let bytes = sum.to_le_bytes();
    let expected = (
        u16::from(bytes[0]) + 64,
        u16::from(bytes[1]) + 64,
        u16::from(bytes[2]) + 64,
    );
    assert_eq!(hash_text_color("Deluxe"), expected);
}

#[test]
fn different_labels_get_their_own_checksums() {
    let sum_live = crc::Crc::<u32>::new(&crc::CRC_32_BZIP2).checksum("Live".as_bytes());
    let sum_two = crc::Crc::<u32>::new(&crc::CRC_32_BZIP2).checksum("2".as_bytes());
    let live = hash_text_color("Live");
    let two = hash_text_color("2");
    assert_eq!(u32::from(live.0 - 64), sum_live & 0xff);
    assert_eq!(u32::from(two.0 - 64), sum_two & 0xff);
}

#[test]
fn edition_badges_use_the_label_color() {
    let s = song(1, vec!["Deluxe".to_string()], false, false);
    let badges = badges_of(&s);
    assert_eq!(badges.len(), 1);
    assert_eq!(badges[0].text, "Deluxe");
    assert_eq!(badges[0].color, hash_text_color("Deluxe"));
}

#[test]
fn ai_badge_has_fixed_color_and_wins_over_original() {
    let s = song(1, vec![], true, true);
    let badges = badges_of(&s);
    assert_eq!(badges.len(), 1);
    assert_eq!(badges[0].text, "AI generated");
    assert_eq!(badges[0].color, (255, 161, 212));
}

#[test]
fn original_badge_shows_without_ai() {
    let s = song(1, vec![], true, false);
    let badges = badges_of(&s);
    assert_eq!(badges.len(), 1);
    assert_eq!(badges[0].text, "Original");
    assert_eq!(badges[0].color, (255, 132, 146));
}

#[test]
fn version_count_badge_appears_beyond_one_version() {
    let single = song(1, vec![], false, false);
    assert!(badges_of(&single).is_empty());
    let triple = song(3, vec![], false, false);
    let badges = badges_of(&triple);
    assert_eq!(badges.len(), 1);
    assert_eq!(badges[0].text, "3 versions");
    assert_eq!(badges[0].color, hash_text_color("3"));
}

#[test]
fn artist_prefix_only_for_plain_songs() {
    let plain = song(1, vec![], false, false);
    assert_eq!(artist_prefix(&plain), Some("Artist - ".to_string()));
    let original = song(1, vec![], true, false);
    assert_eq!(artist_prefix(&original), None);
    let ai = song(1, vec![], false, true);
    assert_eq!(artist_prefix(&ai), None);
}

#[test]
fn style_attribute_splices_the_channels() {
    let color = hash_text_color("Deluxe");
    let style = badge_style(color);
    assert_eq!(
        style,
        format!(
            "--fella-badge-notice-rgb: {},{},{} !important;",
            color.0, color.1, color.2
        )
    );
}
