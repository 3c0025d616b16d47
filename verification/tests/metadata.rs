use std::path::Path;

use clonehero_maker::metadata::{extract, non_empty, parse_u32, parse_year, TagFields};

#[test]
fn falls_back_to_filename_stem_when_unreadable() {
    // No file exists at this path, so there is no tag and we fall back to the
    // filename stem with everything else empty.
    let path = Path::new("/nonexistent/Metallica - One.mp3");
    let meta = extract(path.file_stem().and_then(|s| s.to_str()), None);
    assert_eq!(meta.display_name, "Metallica - One");
    assert!(meta.artist.is_none());
    assert!(meta.cover.is_none());
    assert!(meta.year.is_none());
}

#[test]
fn no_stem_gives_unknown_song() {
    assert_eq!(extract(None, None).display_name, "Unknown Song");
}

#[test]
fn tag_fields_are_trimmed_and_blanks_dropped() {
    let tag = TagFields {
        title: Some("  Title  ".into()),
        artist: Some("   ".into()),
        album: Some("Album".into()),
        genre: None,
        year: None,
        recording_date: Some("2003-08-12".into()),
        cover: Some(vec![1, 2, 3]),
    };
    let meta = extract(Some("stem"), Some(tag));
    assert_eq!(meta.display_name, "Title");
    assert_eq!(meta.artist, None);
    assert_eq!(meta.album.as_deref(), Some("Album"));
    assert_eq!(meta.genre, None);
    assert_eq!(meta.year, Some(2003));
    assert_eq!(meta.cover, Some(vec![1, 2, 3]));
}

#[test]
fn blank_title_keeps_the_stem_and_tag_year_wins() {
    let tag = TagFields {
        title: Some(" \t ".into()),
        year: Some(1984),
        recording_date: Some("2003".into()),
        ..Default::default()
    };
    let meta = extract(Some("stem"), Some(tag));
    assert_eq!(meta.display_name, "stem");
    assert_eq!(meta.year, Some(1984));
}

#[test]
fn years_come_from_the_first_four_bytes() {
    assert_eq!(parse_year("2003-08-12"), Some(2003));
    assert_eq!(parse_year("1999"), Some(1999));
    assert_eq!(parse_year("0042xyz"), Some(42));
    assert_eq!(parse_year("+123"), Some(123));
    assert_eq!(parse_year("199"), None);
    assert_eq!(parse_year("19é9"), None);
    assert_eq!(parse_year("abcd"), None);
    assert_eq!(parse_year("-123"), None);
    assert_eq!(parse_year(""), None);
}

#[test]
fn numbers_parse_as_std_does() {
    for s in ["0", "+7", "4294967295", "4294967296", "", "+", "12a", "007", "99999999999"] {
        let cs: Vec<char> = s.chars().collect();
        assert_eq!(parse_u32(&cs), s.parse::<u32>().ok(), "{s:?}");
    }
}

#[test]
fn non_empty_trims() {
    assert_eq!(non_empty(Some("  a b  ")), Some("a b".to_string()));
    assert_eq!(non_empty(Some("   ")), None);
    assert_eq!(non_empty(None), None);
}
