//! One playable audio file with its display metadata: how a track is
//! built from tag-reader output, and how a file name is parsed when the
//! tags cannot be read.

use vstd::prelude::*;
use vstd::string::StrSliceExecFns;
use vstd::string::StringExecFns;
use crate::text::scan_to;
use crate::text::lemma_scan_to_found;
use crate::text::normalized_artist;

verus! {

/// One track of the library: display metadata, the file it came from,
/// its decoded duration, and its optional intra-album ordinal.
pub struct Track {
    pub artist: String,
    pub title: String,
    pub album: String,
    pub path: String,
    pub duration_ms: u64,
    pub track_number: Option<usize>,
}

/// The mathematical value of a track: its strings as character sequences.
pub struct TrackView {
    pub artist: Seq<char>,
    pub title: Seq<char>,
    pub album: Seq<char>,
    pub path: Seq<char>,
    pub duration_ms: u64,
    pub track_number: Option<usize>,
}

impl View for Track {
    type V = TrackView;

    open spec fn view(&self) -> TrackView {
        TrackView {
            artist: self.artist@,
            title: self.title@,
            album: self.album@,
            path: self.path@,
            duration_ms: self.duration_ms,
            track_number: self.track_number,
        }
    }
}

/// Rank used to order tracks inside an album: the track number when
/// present; a missing number sorts after every present one.
pub open spec fn num_rank(n: Option<usize>) -> int {
    match n {
        Some(v) => v as int,
        None => usize::MAX as int + 1,
    }
}

/// The album key a track groups under: its album title and its
/// normalized primary artist.
pub open spec fn track_key(t: TrackView) -> (Seq<char>, Seq<char>) {
    (t.album, normalized_artist(t.artist))
}

/// Builds a track from what the tag reader returned, substituting the
/// sentinel strings for any field it could not supply.
pub fn track_from_tags(
    artist: Option<String>,
    title: Option<String>,
    album: Option<String>,
    track_number: Option<usize>,
    path: String,
    duration_ms: u64,
) -> (t: Track)
    ensures
        t@.artist == match artist {
            Some(a) => a@,
            None => "Unknown Artist"@,
        },
        t@.title == match title {
            Some(x) => x@,
            None => "Unknown Title"@,
        },
        t@.album == match album {
            Some(x) => x@,
            None => "Unknown Album"@,
        },
        t@.track_number == track_number,
        t@.path == path@,
        t@.duration_ms == duration_ms,
{
    let artist = match artist {
        Some(a) => a,
        None => String::from_str("Unknown Artist"),
    };
    let title = match title {
        Some(x) => x,
        None => String::from_str("Unknown Title"),
    };
    let album = match album {
        Some(x) => x,
        None => String::from_str("Unknown Album"),
    };
    Track { artist, title, album, path, duration_ms, track_number }
}

/// Position of the first '-' in `s`, or its length if there is none.
pub open spec fn dash_pos(s: Seq<char>) -> int {
    scan_to(s, |c: char| c == '-', 0)
}

/// Builds a track from a file name when the tags are unreadable: the
/// name is read as "Artist - Title", split at the first '-' (which stays
/// on the title side); with no '-' the whole name becomes the title and
/// the artist is left empty. The album is empty either way.
pub fn track_from_filename(stem: &str, path: String, duration_ms: u64) -> (t: Track)
    ensures
        t@.album.len() == 0,
        t@.track_number is None,
        t@.path == path@,
        t@.duration_ms == duration_ms,
        dash_pos(stem@) < stem@.len() ==> {
            &&& t@.artist == stem@.subrange(0, dash_pos(stem@))
            &&& t@.title == stem@.subrange(dash_pos(stem@), stem@.len() as int)
        },
        dash_pos(stem@) == stem@.len() ==> {
            &&& t@.artist.len() == 0
            &&& t@.title == stem@
        },
{
    let n = stem.unicode_len();
    let mut d: usize = 0;
    while d < n
        invariant
            d <= n,
            n == stem@.len(),
            forall|j: int| 0 <= j < d ==> stem@[j] != '-',
        ensures
            d <= n,
            forall|j: int| 0 <= j < d ==> stem@[j] != '-',
            d == n || stem@[d as int] == '-',
        decreases n - d,
    {
        if stem.get_char(d) == '-' {
            break;
        }
        d = d + 1;
    }
    proof {
        lemma_scan_to_found(stem@, |c: char| c == '-', 0, d as int);
    }
    if d < n {
        Track {
            artist: String::from_str(stem.substring_char(0, d)),
            title: String::from_str(stem.substring_char(d, n)),
            album: String::new(),
            path,
            duration_ms,
            track_number: None,
        }
    } else {
        Track {
            artist: String::new(),
            title: String::from_str(stem),
            album: String::new(),
            path,
            duration_ms,
            track_number: None,
        }
    }
}

} // verus!
