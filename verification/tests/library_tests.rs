use coral::library::LibraryIndex;
use coral::text::contains_str;
use coral::text::contains_string;
use coral::text::ellipsize;
use coral::text::join_dirs;
use coral::text::normalize_artist;
use coral::text::split_dirs;
use coral::text::str_eq;
use coral::track::Track;
use coral::track::track_from_filename;
use coral::track::track_from_tags;

fn track(artist: &str, title: &str, album: &str, number: Option<usize>) -> Track {
    Track {
        artist: artist.to_string(),
        title: title.to_string(),
        album: album.to_string(),
        path: format!("/music/{}.flac", title),
        duration_ms: 200_000,
        track_number: number,
    }
}

#[test]
fn scan_groups_one_album_sorted_by_number() {
    // Scenario: T1 has no number, T2 is number 2, T3 is number 1; the
    // single group "X"/"A" orders them [T3, T2, T1].
    let mut lib = LibraryIndex::new();
    lib.add_track(track("A", "T1", "X", None));
    lib.add_track(track("A", "T2", "X", Some(2)));
    lib.add_track(track("A", "T3", "X", Some(1)));
    assert_eq!(lib.groups.len(), 1);
    assert_eq!(lib.groups[0].album, "X");
    assert_eq!(lib.groups[0].artist, "A");
    assert_eq!(lib.groups[0].track_ids, vec![2, 1, 0]);
}

#[test]
fn tracks_of_different_albums_get_different_groups() {
    let mut lib = LibraryIndex::new();
    lib.add_track(track("A", "T1", "X", Some(1)));
    lib.add_track(track("A", "T2", "Y", Some(1)));
    lib.add_track(track("B", "T3", "X", Some(1)));
    assert_eq!(lib.groups.len(), 3);
    let mut seen = 0;
    for g in &lib.groups {
        assert_eq!(g.track_ids.len(), 1);
        seen += g.track_ids.len();
    }
    assert_eq!(seen, lib.tracks.len());
}

#[test]
fn grouping_uses_normalized_primary_artist() {
    // "A, B" and "A & C" share the primary artist "A", so one group.
    let mut lib = LibraryIndex::new();
    lib.add_track(track("A, B", "T1", "X", Some(1)));
    lib.add_track(track("A & C", "T2", "X", Some(2)));
    lib.add_track(track("A/D", "T3", "X", Some(3)));
    assert_eq!(lib.groups.len(), 1);
    assert_eq!(lib.groups[0].artist, "A");
    assert_eq!(lib.groups[0].track_ids, vec![0, 1, 2]);
}

#[test]
fn ties_on_track_number_keep_scan_order() {
    let mut lib = LibraryIndex::new();
    lib.add_track(track("A", "first", "X", Some(1)));
    lib.add_track(track("A", "second", "X", Some(1)));
    lib.add_track(track("A", "untitled1", "X", None));
    lib.add_track(track("A", "untitled2", "X", None));
    assert_eq!(lib.groups[0].track_ids, vec![0, 1, 2, 3]);
}

#[test]
fn filter_is_case_insensitive_across_fields() {
    let mut lib = LibraryIndex::new();
    lib.add_track(track("ABBA", "Waterloo", "Gold", Some(1)));
    lib.add_track(track("Orbital", "Halcyon", "Brown Album", Some(2)));
    lib.add_track(track("Brian Eno", "An Ending", "Apollo", Some(3)));
    assert_eq!(lib.filter("abba"), vec![0]);
    assert_eq!(lib.filter("HALCYON"), vec![1]);
    assert_eq!(lib.filter("apollo"), vec![2]);
    assert_eq!(lib.filter("lo"), vec![0, 2]);
    assert_eq!(lib.filter("nothing here"), Vec::<usize>::new());
}

#[test]
fn empty_filter_returns_all_in_scan_order() {
    let mut lib = LibraryIndex::new();
    lib.add_track(track("A", "T1", "X", None));
    lib.add_track(track("B", "T2", "Y", None));
    lib.add_track(track("C", "T3", "Z", None));
    assert_eq!(lib.filter(""), vec![0, 1, 2]);
}

#[test]
fn group_of_track_finds_the_owning_group() {
    let mut lib = LibraryIndex::new();
    lib.add_track(track("A", "T1", "X", Some(1)));
    lib.add_track(track("B", "T2", "Y", Some(1)));
    let g = lib.group_of_track(1);
    assert_eq!(lib.groups[g].album, "Y");
    assert!(lib.groups[g].track_ids.contains(&1));
}

#[test]
fn normalization_takes_first_non_blank_trimmed_segment() {
    assert_eq!(normalize_artist("A, B"), "A");
    assert_eq!(normalize_artist("AC/DC"), "AC");
    assert_eq!(normalize_artist("  Feist  & Ben Gibbard"), "Feist");
    assert_eq!(normalize_artist(" , Second"), "Second");
    assert_eq!(normalize_artist("Plain Name"), "Plain Name");
}

#[test]
fn normalization_falls_back_to_whole_string_when_all_blank() {
    assert_eq!(normalize_artist("   "), "   ");
    assert_eq!(normalize_artist(" , , "), " , , ");
    assert_eq!(normalize_artist(""), "");
}

#[test]
fn tag_constructor_substitutes_sentinels() {
    let t = track_from_tags(None, None, None, None, "/p.mp3".to_string(), 1000);
    assert_eq!(t.artist, "Unknown Artist");
    assert_eq!(t.title, "Unknown Title");
    assert_eq!(t.album, "Unknown Album");
    assert_eq!(t.track_number, None);
    assert_eq!(t.path, "/p.mp3");
    assert_eq!(t.duration_ms, 1000);
    let t = track_from_tags(
        Some("X".to_string()),
        Some("Y".to_string()),
        Some("Z".to_string()),
        Some(7),
        "/q.mp3".to_string(),
        5,
    );
    assert_eq!(t.artist, "X");
    assert_eq!(t.title, "Y");
    assert_eq!(t.album, "Z");
    assert_eq!(t.track_number, Some(7));
}

#[test]
fn filename_fallback_splits_at_first_dash() {
    let t = track_from_filename("Artist - Title", "/a.mp3".to_string(), 0);
    assert_eq!(t.artist, "Artist ");
    assert_eq!(t.title, "- Title");
    assert_eq!(t.album, "");
    assert_eq!(t.track_number, None);
    let t = track_from_filename("a-b-c", "/b.mp3".to_string(), 0);
    assert_eq!(t.artist, "a");
    assert_eq!(t.title, "-b-c");
}

#[test]
fn filename_fallback_without_dash_keeps_whole_name_as_title() {
    let t = track_from_filename("NoSeparatorHere", "/c.mp3".to_string(), 0);
    assert_eq!(t.artist, "");
    assert_eq!(t.title, "NoSeparatorHere");
    assert_eq!(t.album, "");
}

#[test]
fn substring_search_matches_anywhere() {
    assert!(contains_str("Hello World", "lo Wo"));
    assert!(contains_str("abc", ""));
    assert!(contains_str("", ""));
    assert!(!contains_str("ab", "abc"));
    assert!(!contains_str("Hello", "hello"));
    assert!(contains_str("aaab", "aab"));
}

#[test]
fn string_equality_is_by_characters() {
    assert!(str_eq("abc", "abc"));
    assert!(!str_eq("abc", "abd"));
    assert!(!str_eq("abc", "ab"));
    assert!(str_eq("", ""));
    let dirs = vec!["/a".to_string(), "/b".to_string()];
    assert!(contains_string(&dirs, "/b"));
    assert!(!contains_string(&dirs, "/c"));
}

#[test]
fn ellipsize_cuts_to_budget_with_marker() {
    assert_eq!(ellipsize("hello", 10), "hello");
    assert_eq!(ellipsize("hello", 5), "hello");
    assert_eq!(ellipsize("hello world", 5), "hell…");
    assert_eq!(ellipsize("ab", 1), "…");
    assert_eq!(ellipsize("ab", 0), "…");
    assert_eq!(ellipsize("", 0), "");
}

#[test]
fn dirs_round_trip_through_semicolon_list() {
    let dirs = vec!["/music".to_string(), "/more music".to_string()];
    let joined = join_dirs(&dirs);
    assert_eq!(joined, "/music;/more music");
    let back = split_dirs(&joined);
    assert_eq!(back, dirs);
    assert_eq!(split_dirs(""), vec!["".to_string()]);
    assert_eq!(split_dirs("a;;b"), vec!["a".to_string(), "".to_string(), "b".to_string()]);
    assert_eq!(split_dirs("a;"), vec!["a".to_string(), "".to_string()]);
    assert_eq!(join_dirs(&Vec::new()), "");
}
