//! Badge styling: the deterministic text-to-color mapping used for edition
//! and version-count badges, and the badge list a song renders with.

use vstd::prelude::*;
use vstd::string::StringExecFns;
use crate::model::Song;
use crate::model::SongView;
use crate::numeral::dec_of;
use crate::numeral::usize_to_string;

verus! {

/// The CRC-32/BZIP2 checksum of the UTF-8 bytes of a text; a fixed function
/// of the characters alone, identical across runs and machines.
pub uninterp spec fn checksum_of(text: Seq<char>) -> u32;

/// Relies on crc::Crc::<u32>::new with the crc::CRC_32_BZIP2 algorithm and
/// its checksum method: the checksum is computed from the bytes of the text
/// alone.
#[verifier::external_body]
fn crc32_bzip2(text: &str) -> (r: u32)
    ensures
        r == checksum_of(text@),
{
    crc::Crc::<u32>::new(&crc::CRC_32_BZIP2).checksum(text.as_bytes())
}

/// The three color channels derived from a checksum: its three low-order
/// bytes in little-endian order, each raised by 64. A channel can reach 319,
/// beyond the conventional byte range; the styling relies on this exact
/// formula.
pub open spec fn badge_channels(sum: u32) -> (u16, u16, u16) {
    (
        ((sum & 0xff) + 64) as u16,
        (((sum >> 8) & 0xff) + 64) as u16,
        (((sum >> 16) & 0xff) + 64) as u16,
    )
}

/// The badge color of a label: channels of the label's checksum.
pub open spec fn label_color(text: Seq<char>) -> (u16, u16, u16) {
    badge_channels(checksum_of(text))
}

/// Maps a badge label to its stable color triple. Deterministic: the result
/// is a function of the text alone, and every channel lies in [64, 319].
pub fn hash_text_color(text: &str) -> (r: (u16, u16, u16))
    ensures
        r == label_color(text@),
        64 <= r.0 <= 319,
        64 <= r.1 <= 319,
        64 <= r.2 <= 319,
{
    let sum = crc32_bzip2(text);
    proof {
        assert(sum & 0xff < 256) by (bit_vector);
        assert((sum >> 8) & 0xff < 256) by (bit_vector);
        assert((sum >> 16) & 0xff < 256) by (bit_vector);
    }
    let b0 = (sum & 0xff) as u16;
    let b1 = ((sum >> 8) & 0xff) as u16;
    let b2 = ((sum >> 16) & 0xff) as u16;
    (b0 + 64, b1 + 64, b2 + 64)
}

/// One badge of a song's list item: its label and its color.
pub struct Badge {
    pub text: String,
    pub color: (u16, u16, u16),
}

/// Mathematical image of a badge.
#[verifier::ext_equal]
pub ghost struct BadgeView {
    pub text: Seq<char>,
    pub color: (u16, u16, u16),
}

impl View for Badge {
    type V = BadgeView;

    open spec fn view(&self) -> BadgeView {
        BadgeView { text: self.text@, color: self.color }
    }
}

impl DeepView for Badge {
    type V = BadgeView;

    open spec fn deep_view(&self) -> BadgeView {
        self.view()
    }
}

/// The badges a song renders with: one per visible edition tag, colored from
/// the tag; then an AI badge, or an Original badge when the song is original
/// and not AI, in fixed colors; then, for a song with several versions, a
/// count badge colored from the count's numeral.
pub open spec fn spec_badges(s: SongView) -> Seq<BadgeView> {
    let edition = s.edition.map_values(|t: Seq<char>| BadgeView { text: t, color: label_color(t) });
    let flagged = if s.ai {
        edition.push(BadgeView { text: "AI generated"@, color: (255u16, 161u16, 212u16) })
    } else if s.original {
        edition.push(BadgeView { text: "Original"@, color: (255u16, 132u16, 146u16) })
    } else {
        edition
    };
    if s.versions.len() > 1 {
        flagged.push(
            BadgeView {
                text: dec_of(s.versions.len() as nat) + " versions"@,
                color: label_color(dec_of(s.versions.len() as nat)),
            },
        )
    } else {
        flagged
    }
}

/// Builds the badge list of a song.
pub fn badges_of(song: &Song) -> (r: Vec<Badge>)
    ensures
        r.deep_view() == spec_badges(song@),
{
    let ghost target = spec_badges(song@);
    let mut r: Vec<Badge> = Vec::new();
    let ghost eds = song.edition.deep_view();
    let ghost mapped = eds.map_values(
        |t: Seq<char>| BadgeView { text: t, color: label_color(t) },
    );
    let m = song.edition.len();
    let mut k: usize = 0;
    while k < m
        invariant
            k <= m,
            m == song.edition@.len(),
            eds == song.edition.deep_view(),
            mapped == eds.map_values(|t: Seq<char>| BadgeView { text: t, color: label_color(t) }),
            r@.len() == k,
            forall|l: int| 0 <= l < k ==> (#[trigger] r@[l])@ == mapped[l],
        decreases m - k,
    {
        let tag = &song.edition[k];
        let color = hash_text_color(tag.as_str());
        r.push(Badge { text: tag.clone(), color });
        proof {
            assert(eds[k as int] == song.edition@[k as int]@);
            assert(r@[k as int]@ == mapped[k as int]);
        }
        k = k + 1;
    }
    if song.ai {
        let text = String::from_str("AI generated");
        r.push(Badge { text, color: (255, 161, 212) });
    } else if song.original {
        let text = String::from_str("Original");
        r.push(Badge { text, color: (255, 132, 146) });
    }
    if song.versions.len() > 1 {
        let numeral = usize_to_string(song.versions.len());
        let color = hash_text_color(numeral.as_str());
        let text = numeral.concat(" versions");
        r.push(Badge { text, color });
    }
    proof {
        assert(song.versions.deep_view().len() == song.versions@.len());
        assert forall|l: int| 0 <= l < r@.len() implies r.deep_view()[l] == target[l] by {
            assert(r.deep_view()[l] == r@[l]@);
        }
        assert(r.deep_view() =~= target);
    }
    r
}

/// Whether the list item shows an artist prefix: only for a song that is
/// neither AI-generated nor an original.
pub open spec fn spec_artist_prefix(s: SongView) -> Option<Seq<char>> {
    if !s.ai && !s.original {
        Option::Some(s.artist + " - "@)
    } else {
        Option::None
    }
}

/// The artist prefix of a song's list item, when one is shown.
pub fn artist_prefix(song: &Song) -> (r: Option<String>)
    ensures
        match r {
            Option::Some(p) => spec_artist_prefix(song@) == Option::Some(p@),
            Option::None => spec_artist_prefix(song@) is None,
        },
{
    if !song.ai && !song.original {
        let p = song.artist.clone().concat(" - ");
        Option::Some(p)
    } else {
        Option::None
    }
}

/// The inline style that paints a badge: the color triple spliced into the
/// badge's CSS custom property.
pub open spec fn spec_badge_style(color: (u16, u16, u16)) -> Seq<char> {
    "--fella-badge-notice-rgb: "@ + dec_of(color.0 as nat) + ","@ + dec_of(color.1 as nat) + ","@
        + dec_of(color.2 as nat) + " !important;"@
}

/// Renders the style attribute value for a badge color.
pub fn badge_style(color: (u16, u16, u16)) -> (r: String)
    ensures
        r@ == spec_badge_style(color),
{
    let mut s = String::from_str("--fella-badge-notice-rgb: ");
    s.append(crate::numeral::u64_to_string(color.0 as u64).as_str());
    s.append(",");
    s.append(crate::numeral::u64_to_string(color.1 as u64).as_str());
    s.append(",");
    s.append(crate::numeral::u64_to_string(color.2 as u64).as_str());
    s.append(" !important;");
    proof {
        assert(s@ =~= spec_badge_style(color));
    }
    s
}

} // verus!
