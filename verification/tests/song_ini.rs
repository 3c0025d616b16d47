use clonehero_maker::cli::Difficulty;
use clonehero_maker::metadata::SongMetadata;
use clonehero_maker::song_ini::render;

#[test]
fn renders_all_fields() {
    let meta = SongMetadata {
        display_name: "One".into(),
        artist: Some("Metallica".into()),
        album: Some("Reload".into()),
        genre: Some("Metal".into()),
        year: Some(1997),
        cover: None,
    };
    // A 10.0 s song is 10000 ms long.
    let ini = render(&meta, "One", 10000, Difficulty::Hard);

    assert!(ini.starts_with("[song]\n"));
    assert!(ini.contains("name = One\n"));
    assert!(ini.contains("artist = Metallica\n"));
    assert!(ini.contains("charter = clonehero-maker\n"));
    assert!(ini.contains("album = Reload\n"));
    assert!(ini.contains("genre = Metal\n"));
    assert!(ini.contains("year = 1997\n"));
    assert!(ini.contains("diff_guitar = 4\n")); // Hard rating
    assert!(ini.contains("preview_start_time = 0\n"));
    assert!(ini.contains("song_length = 10000\n"));
}

#[test]
fn missing_optionals_render_empty() {
    let meta = SongMetadata {
        display_name: "x".into(),
        ..Default::default()
    };
    let ini = render(&meta, "x", 0, Difficulty::Expert);

    assert!(ini.lines().any(|l| l == "artist = "));
    assert!(ini.lines().any(|l| l == "album = "));
    assert!(ini.lines().any(|l| l == "year = "));
    assert!(ini.contains("diff_guitar = 5\n")); // Expert rating
    assert!(ini.contains("song_length = 0\n"));
}

#[test]
fn renders_the_exact_file() {
    let meta = SongMetadata {
        display_name: "ignored".into(),
        artist: Some("A".into()),
        album: None,
        genre: Some("G".into()),
        year: Some(7),
        cover: None,
    };
    let ini = render(&meta, "Name", 18_446_744_073_709_551_615, Difficulty::Easy);
    assert_eq!(
        ini,
        "[song]\nname = Name\nartist = A\ncharter = clonehero-maker\nalbum = \ngenre = G\nyear = 7\n\
         diff_guitar = 2\npreview_start_time = 0\nsong_length = 18446744073709551615\n"
    );
}
