//! The `song.ini` file that Clone Hero reads a song's details from.

use vstd::prelude::*;
use crate::cli::Difficulty;
use crate::metadata::{MetadataView, SongMetadata};
use crate::text::{decimal, push_decimal};

verus! {

/// The text of an optional field: empty when absent.
pub open spec fn opt_text(o: Option<Seq<char>>) -> Seq<char> {
    match o {
        Some(s) => s,
        None => Seq::empty(),
    }
}

/// The lines of `song.ini`, each ending in a newline.
pub open spec fn spec_render(meta: MetadataView, name: Seq<char>, song_length_ms: u64, difficulty: Difficulty) -> Seq<char> {
    "[song]\n"@
        + ("name = "@ + name + "\n"@)
        + ("artist = "@ + opt_text(meta.artist) + "\n"@)
        + "charter = clonehero-maker\n"@
        + ("album = "@ + opt_text(meta.album) + "\n"@)
        + ("genre = "@ + opt_text(meta.genre) + "\n"@)
        + ("year = "@ + (match meta.year {
        Some(y) => decimal(y as nat),
        None => Seq::empty(),
    }) + "\n"@)
        + ("diff_guitar = "@ + decimal(difficulty.spec_rating() as nat) + "\n"@)
        + "preview_start_time = 0\n"@
        + ("song_length = "@ + decimal(song_length_ms as nat) + "\n"@)
}

fn append_line(ini: &mut String, key: &str, value: Option<&String>)
    ensures
        final(ini)@ == old(ini)@ + (key@ + match value {
            Some(v) => v@,
            None => Seq::empty(),
        } + "\n"@),
{
    ini.append(key);
    match value {
        Some(v) => ini.append(v.as_str()),
        None => {},
    }
    ini.append("\n");
    assert(ini@ =~= old(ini)@ + (key@ + match value {
        Some(v) => v@,
        None => Seq::<char>::empty(),
    } + "\n"@));
}

fn append_number_line(ini: &mut String, key: &str, value: Option<u64>)
    ensures
        final(ini)@ == old(ini)@ + (key@ + match value {
            Some(v) => decimal(v as nat),
            None => Seq::empty(),
        } + "\n"@),
{
    ini.append(key);
    match value {
        Some(v) => push_decimal(ini, v),
        None => {},
    }
    ini.append("\n");
    assert(ini@ =~= old(ini)@ + (key@ + match value {
        Some(v) => decimal(v as nat),
        None => Seq::<char>::empty(),
    } + "\n"@));
}

/// Render the `song.ini` contents.
///
/// `song_length` (milliseconds) is added on top of the requested fields
/// because Clone Hero uses it for the song-browser timer and end-of-song
/// handling.
#[verifier::rlimit(40)]
pub fn render(meta: &SongMetadata, name: &str, song_length_ms: u64, difficulty: Difficulty) -> (ini: String)
    ensures
        ini@ == spec_render(meta@, name@, song_length_ms, difficulty),
{
    let year: Option<u64> = match meta.year {
        Some(y) => Some(y as u64),
        None => None,
    };
    let mut ini = String::new();
    ini.append("[song]\n");
    ini.append("name = ");
    ini.append(name);
    ini.append("\n");
    append_line(&mut ini, "artist = ", meta.artist.as_ref());
    ini.append("charter = clonehero-maker\n");
    append_line(&mut ini, "album = ", meta.album.as_ref());
    append_line(&mut ini, "genre = ", meta.genre.as_ref());
    append_number_line(&mut ini, "year = ", year);
    append_number_line(&mut ini, "diff_guitar = ", Some(difficulty.rating() as u64));
    ini.append("preview_start_time = 0\n");
    append_number_line(&mut ini, "song_length = ", Some(song_length_ms));
    assert(ini@ =~= spec_render(meta@, name@, song_length_ms, difficulty));
    ini
}


/// The year as written: its decimal digits, or nothing.
pub open spec fn year_text(year: Option<u32>) -> Seq<char> {
    match year {
        Some(y) => decimal(y as nat),
        None => Seq::empty(),
    }
}

/// `r1` and `r2` are the same text around one line `key` + value + newline,
/// which starts a line and holds `v1` in `r1` and `v2` in `r2`.
pub open spec fn splits_at_line(r1: Seq<char>, r2: Seq<char>, key: Seq<char>, v1: Seq<char>, v2: Seq<char>) -> bool {
    exists|p: Seq<char>, q: Seq<char>|
        p.len() > 0 && p.last() == '\n' && r1 == p + key + v1 + "\n"@ + q && r2 == p + key + v2 + "\n"@ + q
}

/// The `name` line holds the song name and nothing else depends on it: two renderings that differ only in the name differ only in that line.
pub proof fn lemma_name_line(m1: MetadataView, m2: MetadataView, n1: Seq<char>, n2: Seq<char>, ms1: u64, ms2: u64, d1: Difficulty, d2: Difficulty)
    requires
        m1.artist == m2.artist,
        m1.album == m2.album,
        m1.genre == m2.genre,
        m1.year == m2.year,
        ms1 == ms2,
        d1 == d2,
    ensures
        splits_at_line(
            spec_render(m1, n1, ms1, d1),
            spec_render(m2, n2, ms2, d2),
            "name = "@,
            n1,
            n2,
        ),
{
    reveal_strlit("\n");
    reveal_strlit("[song]\n");
    reveal_strlit("charter = clonehero-maker\n");
    reveal_strlit("preview_start_time = 0\n");
    let r1 = spec_render(m1, n1, ms1, d1);
    let r2 = spec_render(m2, n2, ms2, d2);
    let p0 = "[song]\n"@;
    let q0 = ("artist = "@ + opt_text(m1.artist) + "\n"@) + "charter = clonehero-maker\n"@ + ("album = "@ + opt_text(m1.album) + "\n"@) + ("genre = "@ + opt_text(m1.genre) + "\n"@) + ("year = "@ + year_text(m1.year) + "\n"@) + ("diff_guitar = "@ + decimal(d1.spec_rating() as nat) + "\n"@) + "preview_start_time = 0\n"@ + ("song_length = "@ + decimal(ms1 as nat) + "\n"@);
    assert(r1 =~= p0 + "name = "@ + n1 + "\n"@ + q0);
    assert(r2 =~= p0 + "name = "@ + n2 + "\n"@ + q0);
    assert(p0.last() == '\n');
}

/// The `artist` line holds the artist (nothing when absent) and nothing else depends on it.
pub proof fn lemma_artist_line(m1: MetadataView, m2: MetadataView, n1: Seq<char>, n2: Seq<char>, ms1: u64, ms2: u64, d1: Difficulty, d2: Difficulty)
    requires
        n1 == n2,
        m1.album == m2.album,
        m1.genre == m2.genre,
        m1.year == m2.year,
        ms1 == ms2,
        d1 == d2,
    ensures
        splits_at_line(
            spec_render(m1, n1, ms1, d1),
            spec_render(m2, n2, ms2, d2),
            "artist = "@,
            opt_text(m1.artist),
            opt_text(m2.artist),
        ),
{
    reveal_strlit("\n");
    reveal_strlit("[song]\n");
    reveal_strlit("charter = clonehero-maker\n");
    reveal_strlit("preview_start_time = 0\n");
    let r1 = spec_render(m1, n1, ms1, d1);
    let r2 = spec_render(m2, n2, ms2, d2);
    let p0 = "[song]\n"@ + ("name = "@ + n1 + "\n"@);
    let q0 = "charter = clonehero-maker\n"@ + ("album = "@ + opt_text(m1.album) + "\n"@) + ("genre = "@ + opt_text(m1.genre) + "\n"@) + ("year = "@ + year_text(m1.year) + "\n"@) + ("diff_guitar = "@ + decimal(d1.spec_rating() as nat) + "\n"@) + "preview_start_time = 0\n"@ + ("song_length = "@ + decimal(ms1 as nat) + "\n"@);
    assert(r1 =~= p0 + "artist = "@ + opt_text(m1.artist) + "\n"@ + q0);
    assert(r2 =~= p0 + "artist = "@ + opt_text(m2.artist) + "\n"@ + q0);
    assert(p0.last() == '\n');
}

/// The `album` line holds the album (nothing when absent) and nothing else depends on it.
pub proof fn lemma_album_line(m1: MetadataView, m2: MetadataView, n1: Seq<char>, n2: Seq<char>, ms1: u64, ms2: u64, d1: Difficulty, d2: Difficulty)
    requires
        n1 == n2,
        m1.artist == m2.artist,
        m1.genre == m2.genre,
        m1.year == m2.year,
        ms1 == ms2,
        d1 == d2,
    ensures
        splits_at_line(
            spec_render(m1, n1, ms1, d1),
            spec_render(m2, n2, ms2, d2),
            "album = "@,
            opt_text(m1.album),
            opt_text(m2.album),
        ),
{
    reveal_strlit("\n");
    reveal_strlit("[song]\n");
    reveal_strlit("charter = clonehero-maker\n");
    reveal_strlit("preview_start_time = 0\n");
    let r1 = spec_render(m1, n1, ms1, d1);
    let r2 = spec_render(m2, n2, ms2, d2);
    let p0 = "[song]\n"@ + ("name = "@ + n1 + "\n"@) + ("artist = "@ + opt_text(m1.artist) + "\n"@) + "charter = clonehero-maker\n"@;
    let q0 = ("genre = "@ + opt_text(m1.genre) + "\n"@) + ("year = "@ + year_text(m1.year) + "\n"@) + ("diff_guitar = "@ + decimal(d1.spec_rating() as nat) + "\n"@) + "preview_start_time = 0\n"@ + ("song_length = "@ + decimal(ms1 as nat) + "\n"@);
    assert(r1 =~= p0 + "album = "@ + opt_text(m1.album) + "\n"@ + q0);
    assert(r2 =~= p0 + "album = "@ + opt_text(m2.album) + "\n"@ + q0);
    assert(p0.last() == '\n');
}

/// The `genre` line holds the genre (nothing when absent, whatever the other fields hold) and nothing else depends on it.
pub proof fn lemma_genre_line(m1: MetadataView, m2: MetadataView, n1: Seq<char>, n2: Seq<char>, ms1: u64, ms2: u64, d1: Difficulty, d2: Difficulty)
    requires
        n1 == n2,
        m1.artist == m2.artist,
        m1.album == m2.album,
        m1.year == m2.year,
        ms1 == ms2,
        d1 == d2,
    ensures
        splits_at_line(
            spec_render(m1, n1, ms1, d1),
            spec_render(m2, n2, ms2, d2),
            "genre = "@,
            opt_text(m1.genre),
            opt_text(m2.genre),
        ),
{
    reveal_strlit("\n");
    reveal_strlit("[song]\n");
    reveal_strlit("charter = clonehero-maker\n");
    reveal_strlit("preview_start_time = 0\n");
    let r1 = spec_render(m1, n1, ms1, d1);
    let r2 = spec_render(m2, n2, ms2, d2);
    let p0 = "[song]\n"@ + ("name = "@ + n1 + "\n"@) + ("artist = "@ + opt_text(m1.artist) + "\n"@) + "charter = clonehero-maker\n"@ + ("album = "@ + opt_text(m1.album) + "\n"@);
    let q0 = ("year = "@ + year_text(m1.year) + "\n"@) + ("diff_guitar = "@ + decimal(d1.spec_rating() as nat) + "\n"@) + "preview_start_time = 0\n"@ + ("song_length = "@ + decimal(ms1 as nat) + "\n"@);
    assert(r1 =~= p0 + "genre = "@ + opt_text(m1.genre) + "\n"@ + q0);
    assert(r2 =~= p0 + "genre = "@ + opt_text(m2.genre) + "\n"@ + q0);
    assert(p0.last() == '\n');
}

/// The `year` line holds the year in decimal (nothing when absent) and nothing else depends on it.
pub proof fn lemma_year_line(m1: MetadataView, m2: MetadataView, n1: Seq<char>, n2: Seq<char>, ms1: u64, ms2: u64, d1: Difficulty, d2: Difficulty)
    requires
        n1 == n2,
        m1.artist == m2.artist,
        m1.album == m2.album,
        m1.genre == m2.genre,
        ms1 == ms2,
        d1 == d2,
    ensures
        splits_at_line(
            spec_render(m1, n1, ms1, d1),
            spec_render(m2, n2, ms2, d2),
            "year = "@,
            year_text(m1.year),
            year_text(m2.year),
        ),
{
    reveal_strlit("\n");
    reveal_strlit("[song]\n");
    reveal_strlit("charter = clonehero-maker\n");
    reveal_strlit("preview_start_time = 0\n");
    let r1 = spec_render(m1, n1, ms1, d1);
    let r2 = spec_render(m2, n2, ms2, d2);
    let p0 = "[song]\n"@ + ("name = "@ + n1 + "\n"@) + ("artist = "@ + opt_text(m1.artist) + "\n"@) + "charter = clonehero-maker\n"@ + ("album = "@ + opt_text(m1.album) + "\n"@) + ("genre = "@ + opt_text(m1.genre) + "\n"@);
    let q0 = ("diff_guitar = "@ + decimal(d1.spec_rating() as nat) + "\n"@) + "preview_start_time = 0\n"@ + ("song_length = "@ + decimal(ms1 as nat) + "\n"@);
    assert(r1 =~= p0 + "year = "@ + year_text(m1.year) + "\n"@ + q0);
    assert(r2 =~= p0 + "year = "@ + year_text(m2.year) + "\n"@ + q0);
    assert(p0.last() == '\n');
}

/// The `diff_guitar` line holds the rating of the difficulty in decimal and
/// nothing else depends on it.
pub proof fn lemma_diff_guitar_line(m1: MetadataView, m2: MetadataView, n1: Seq<char>, n2: Seq<char>, ms1: u64, ms2: u64, d1: Difficulty, d2: Difficulty)
    requires
        n1 == n2,
        m1.artist == m2.artist,
        m1.album == m2.album,
        m1.genre == m2.genre,
        m1.year == m2.year,
        ms1 == ms2,
    ensures
        splits_at_line(
            spec_render(m1, n1, ms1, d1),
            spec_render(m2, n2, ms2, d2),
            "diff_guitar = "@,
            decimal(d1.spec_rating() as nat),
            decimal(d2.spec_rating() as nat),
        ),
{
    reveal_strlit("\n");
    reveal_strlit("[song]\n");
    reveal_strlit("charter = clonehero-maker\n");
    reveal_strlit("preview_start_time = 0\n");
    let r1 = spec_render(m1, n1, ms1, d1);
    let r2 = spec_render(m2, n2, ms2, d2);
    let p0 = "[song]\n"@ + ("name = "@ + n1 + "\n"@) + ("artist = "@ + opt_text(m1.artist) + "\n"@) + "charter = clonehero-maker\n"@ + ("album = "@ + opt_text(m1.album) + "\n"@) + ("genre = "@ + opt_text(m1.genre) + "\n"@) + ("year = "@ + year_text(m1.year) + "\n"@);
    let q0 = "preview_start_time = 0\n"@ + ("song_length = "@ + decimal(ms1 as nat) + "\n"@);
    assert(r1 =~= p0 + "diff_guitar = "@ + decimal(d1.spec_rating() as nat) + "\n"@ + q0);
    assert(r2 =~= p0 + "diff_guitar = "@ + decimal(d2.spec_rating() as nat) + "\n"@ + q0);
    assert(p0.last() == '\n');
}

/// The last line, `song_length`, holds the length in milliseconds in decimal and nothing else depends on it.
pub proof fn lemma_song_length_line(m1: MetadataView, m2: MetadataView, n1: Seq<char>, n2: Seq<char>, ms1: u64, ms2: u64, d1: Difficulty, d2: Difficulty)
    requires
        n1 == n2,
        m1.artist == m2.artist,
        m1.album == m2.album,
        m1.genre == m2.genre,
        m1.year == m2.year,
        d1 == d2,
    ensures
        splits_at_line(
            spec_render(m1, n1, ms1, d1),
            spec_render(m2, n2, ms2, d2),
            "song_length = "@,
            decimal(ms1 as nat),
            decimal(ms2 as nat),
        ),
{
    reveal_strlit("\n");
    reveal_strlit("[song]\n");
    reveal_strlit("charter = clonehero-maker\n");
    reveal_strlit("preview_start_time = 0\n");
    let r1 = spec_render(m1, n1, ms1, d1);
    let r2 = spec_render(m2, n2, ms2, d2);
    let p0 = "[song]\n"@ + ("name = "@ + n1 + "\n"@) + ("artist = "@ + opt_text(m1.artist) + "\n"@) + "charter = clonehero-maker\n"@ + ("album = "@ + opt_text(m1.album) + "\n"@) + ("genre = "@ + opt_text(m1.genre) + "\n"@) + ("year = "@ + year_text(m1.year) + "\n"@) + ("diff_guitar = "@ + decimal(d1.spec_rating() as nat) + "\n"@) + "preview_start_time = 0\n"@;
    let q0 = Seq::<char>::empty();
    assert(r1 =~= p0 + "song_length = "@ + decimal(ms1 as nat) + "\n"@ + q0);
    assert(r2 =~= p0 + "song_length = "@ + decimal(ms2 as nat) + "\n"@ + q0);
    assert(p0.last() == '\n');
}

} // verus!
