//! Song metadata from the tags of the input file, with fallbacks when the
//! file has no usable tags.

use vstd::prelude::*;
use crate::text::{decimal, chars_of, is_trim_of, is_white_space, lemma_trim_where_is_trim, trim, trim_spaces};

verus! {

/// Tag metadata + embedded cover extracted from an input audio file.
///
/// Everything is best-effort: a file with no tags still yields a usable
/// `display_name` derived from the filename.
#[derive(Debug, Default)]
pub struct SongMetadata {
    /// Name used for the folder and the `song.ini` `name` field.
    /// Tag title if present, otherwise the file stem.
    pub display_name: String,
    pub artist: Option<String>,
    pub album: Option<String>,
    pub genre: Option<String>,
    pub year: Option<u32>,
    /// Raw bytes of the first embedded cover picture, if any.
    pub cover: Option<Vec<u8>>,
}

/// What the primary tag of a file (else its first tag) holds, as read.
#[derive(Debug, Default)]
pub struct TagFields {
    pub title: Option<String>,
    pub artist: Option<String>,
    pub album: Option<String>,
    pub genre: Option<String>,
    /// The year the tag reports itself.
    pub year: Option<u32>,
    /// The full recording date (e.g. `2003-08-12`), for formats that keep the
    /// year only there.
    pub recording_date: Option<String>,
    /// Data of the first embedded picture.
    pub cover: Option<Vec<u8>>,
}

pub open spec fn opt_chars(o: Option<String>) -> Option<Seq<char>> {
    match o {
        Some(s) => Some(s@),
        None => None,
    }
}

pub open spec fn opt_bytes(o: Option<Vec<u8>>) -> Option<Seq<u8>> {
    match o {
        Some(v) => Some(v@),
        None => None,
    }
}

/// Song metadata as mathematical values.
pub struct MetadataView {
    pub display_name: Seq<char>,
    pub artist: Option<Seq<char>>,
    pub album: Option<Seq<char>>,
    pub genre: Option<Seq<char>>,
    pub year: Option<u32>,
    pub cover: Option<Seq<u8>>,
}

impl View for SongMetadata {
    type V = MetadataView;

    open spec fn view(&self) -> MetadataView {
        MetadataView {
            display_name: self.display_name@,
            artist: opt_chars(self.artist),
            album: opt_chars(self.album),
            genre: opt_chars(self.genre),
            year: self.year,
            cover: opt_bytes(self.cover),
        }
    }
}

/// The trimmed text, or nothing when it is blank.
pub open spec fn spec_non_empty(value: Option<Seq<char>>) -> Option<Seq<char>> {
    match value {
        Some(s) => if trim_spaces(s).len() > 0 {
            Some(trim_spaces(s))
        } else {
            None
        },
        None => None,
    }
}

pub open spec fn is_digit(c: char) -> bool {
    '0' <= c <= '9'
}

/// The value of a string of decimal digits.
pub open spec fn digits_value(s: Seq<char>) -> int
    decreases s.len(),
{
    if s.len() == 0 {
        0
    } else {
        digits_value(s.drop_last()) * 10 + (s.last() as int - 48)
    }
}

/// `s` without a leading `+`.
pub open spec fn after_sign(s: Seq<char>) -> Seq<char> {
    if s.len() > 0 && s[0] == '+' {
        s.drop_first()
    } else {
        s
    }
}

pub open spec fn all_digits(d: Seq<char>) -> bool {
    forall|i: int| 0 <= i < d.len() ==> #[trigger] is_digit(d[i])
}

/// What `str::parse::<u32>` gives: an optional `+`, then at least one
/// decimal digit, with a value that fits in `u32`.
pub open spec fn spec_parse_u32(s: Seq<char>) -> Option<u32> {
    let d = after_sign(s);
    if d.len() > 0 && all_digits(d) && digits_value(d) <= u32::MAX {
        Some(digits_value(d) as u32)
    } else {
        None
    }
}

/// The year at the front of a recording date: the first four bytes of the
/// text, read as a number. Those bytes are four characters exactly when the
/// first four characters are ASCII; otherwise they hold a non-digit or cut a
/// character apart, and there is no year.
pub open spec fn spec_parse_year(date: Seq<char>) -> Option<u32> {
    if date.len() >= 4 && (forall|i: int| 0 <= i < 4 ==> (#[trigger] date[i] as u32) < 128) {
        spec_parse_u32(date.take(4))
    } else {
        None
    }
}

/// The metadata of a file with stem `stem` and tag `tag`.
pub open spec fn spec_extract(stem: Option<Seq<char>>, tag: Option<TagFields>) -> MetadataView {
    let name = match stem {
        Some(s) => s,
        None => "Unknown Song"@,
    };
    match tag {
        None => MetadataView {
            display_name: name,
            artist: None,
            album: None,
            genre: None,
            year: None,
            cover: None,
        },
        Some(t) => MetadataView {
            display_name: match spec_non_empty(opt_chars(t.title)) {
                Some(title) => title,
                None => name,
            },
            artist: spec_non_empty(opt_chars(t.artist)),
            album: spec_non_empty(opt_chars(t.album)),
            genre: spec_non_empty(opt_chars(t.genre)),
            year: match t.year {
                Some(y) => Some(y),
                None => match t.recording_date {
                    Some(d) => spec_parse_year(d@),
                    None => None,
                },
            },
            cover: opt_bytes(t.cover),
        },
    }
}

/// Trim a text and drop it when nothing is left.
pub fn non_empty(value: Option<&str>) -> (r: Option<String>)
    ensures
        opt_chars(r) == spec_non_empty(
            match value {
                Some(s) => Some(s@),
                None => None,
            },
        ),
{
    match value {
        Some(s) => {
            let t = trim(s);
            if t.unicode_len() == 0 {
                None
            } else {
                Some(t)
            }
        },
        None => None,
    }
}

proof fn lemma_digits_value_grows(d: Seq<char>, k: int)
    requires
        0 <= k <= d.len(),
        forall|i: int| 0 <= i < d.len() ==> #[trigger] is_digit(d[i]),
    ensures
        digits_value(d.take(k)) <= digits_value(d),
        digits_value(d) >= 0,
    decreases d.len(),
{
    if d.len() > 0 {
        assert forall|i: int| 0 <= i < d.drop_last().len() implies #[trigger] is_digit(d.drop_last()[i]) by {
            assert(d.drop_last()[i] == d[i]);
        }
        assert(is_digit(d[d.len() - 1]));
        if k < d.len() {
            lemma_digits_value_grows(d.drop_last(), k);
            assert(d.drop_last().take(k) =~= d.take(k));
        } else {
            lemma_digits_value_grows(d.drop_last(), 0);
            assert(d.take(k) =~= d);
        }
    } else {
        assert(d.take(k) =~= d);
    }
}

/// `str::parse::<u32>` over the characters `cs`.
pub fn parse_u32(cs: &Vec<char>) -> (r: Option<u32>)
    ensures
        r == spec_parse_u32(cs@),
{
    let n = cs.len();
    let start: usize = if n > 0 && cs[0] == '+' { 1 } else { 0 };
    let ghost d = after_sign(cs@);
    if start == n {
        return None;
    }
    assert(d =~= cs@.subrange(start as int, n as int));
    let mut v: u64 = 0;
    for i in start..n
        invariant
            n == cs@.len(),
            start < n,
            d == after_sign(cs@),
            d == cs@.subrange(start as int, n as int),
            v == digits_value(d.take(i - start)),
            v <= u32::MAX,
            forall|k: int| 0 <= k < i - start ==> #[trigger] is_digit(d[k]),
    {
        let c = cs[i];
        if !('0' <= c && c <= '9') {
            assert(!is_digit(d[i - start]));
            assert(!all_digits(d));
            assert(spec_parse_u32(cs@) is None);
            return None;
        }
        assert(d.take(i - start + 1).drop_last() =~= d.take(i - start));
        v = v * 10 + (c as u64 - 48);
        if v > u32::MAX as u64 {
            proof {
                assert forall|k: int| 0 <= k < i - start + 1 implies #[trigger] is_digit(d.take(i - start + 1)[k]) by {
                    assert(d.take(i - start + 1)[k] == d[k]);
                }
                if all_digits(d) {
                    lemma_digits_value_grows(d, i - start + 1);
                    assert(digits_value(d) > u32::MAX);
                }
                assert(spec_parse_u32(cs@) is None);
            }
            return None;
        }
    }
    assert(d.take(n - start) =~= d);
    Some(v as u32)
}

/// The year at the front of a recording date such as `2003-08-12`.
pub fn parse_year(recording_date: &str) -> (r: Option<u32>)
    ensures
        r == spec_parse_year(recording_date@),
{
    let cs = chars_of(recording_date);
    if cs.len() < 4 {
        return None;
    }
    let mut head: Vec<char> = Vec::new();
    for i in 0..4
        invariant
            cs@ == recording_date@,
            cs@.len() >= 4,
            head@ == cs@.take(i as int),
            forall|k: int| 0 <= k < i ==> (#[trigger] cs@[k] as u32) < 128,
    {
        let c = cs[i];
        if (c as u32) >= 128 {
            return None;
        }
        head.push(c);
        assert(head@ =~= cs@.take(i + 1));
    }
    parse_u32(&head)
}

/// Metadata from the file stem and the file's tag; the stem stands in for a
/// missing title, "Unknown Song" for a missing stem.
pub fn extract(stem: Option<&str>, tag: Option<TagFields>) -> (meta: SongMetadata)
    ensures
        meta@ == spec_extract(
            match stem {
                Some(s) => Some(s@),
                None => None,
            },
            tag,
        ),
{
    let name = match stem {
        Some(s) => String::from_str(s),
        None => String::from_str("Unknown Song"),
    };
    match tag {
        None => SongMetadata {
            display_name: name,
            artist: None,
            album: None,
            genre: None,
            year: None,
            cover: None,
        },
        Some(t) => {
            let title = non_empty(opt_str(&t.title));
            let display_name = match title {
                Some(title) => title,
                None => name,
            };
            let artist = non_empty(opt_str(&t.artist));
            let album = non_empty(opt_str(&t.album));
            let genre = non_empty(opt_str(&t.genre));
            let year = match t.year {
                Some(y) => Some(y),
                None => match &t.recording_date {
                    Some(d) => parse_year(d.as_str()),
                    None => None,
                },
            };
            SongMetadata { display_name, artist, album, genre, year, cover: t.cover }
        },
    }
}

fn opt_str(o: &Option<String>) -> (r: Option<&str>)
    ensures
        match r {
            Some(s) => opt_chars(*o) == Some(s@),
            None => o is None,
        },
{
    match o {
        Some(s) => Some(s.as_str()),
        None => None,
    }
}

/// `out` is what a text field `src` becomes: nothing when there is no text
/// or it is all white space, else the text without its surrounding white
/// space, never empty.
pub open spec fn field_from(out: Option<Seq<char>>, src: Option<Seq<char>>) -> bool {
    match src {
        None => out is None,
        Some(a) => match out {
            None => forall|k: int| 0 <= k < a.len() ==> is_white_space(#[trigger] a[k]),
            Some(x) => x.len() > 0 && is_trim_of(x, a, |c: char| is_white_space(c)),
        },
    }
}

proof fn lemma_non_empty_is_field(src: Option<Seq<char>>)
    ensures
        field_from(spec_non_empty(src), src),
{
    if let Some(a) = src {
        lemma_trim_where_is_trim(a, |c: char| is_white_space(c));
    }
}

/// Each field of the metadata comes from its own tag field: artist, album
/// and genre are the tag's artist, album and genre without surrounding white
/// space (absent when missing or blank); the title, so cleaned, names the
/// song, else the file stem does, else "Unknown Song"; a year in the tag is
/// kept; the cover is the tag's picture data. Without a tag only the name is
/// set.
pub proof fn lemma_extract_fields_come_from_their_tag_fields(stem: Option<Seq<char>>, tag: Option<TagFields>)
    ensures
        ({
            let m = spec_extract(stem, tag);
            let fallback = match stem {
                Some(s) => s,
                None => "Unknown Song"@,
            };
            match tag {
                None => m.display_name == fallback && m.artist is None && m.album is None && m.genre is None
                    && m.year is None && m.cover is None,
                Some(t) => {
                    &&& field_from(m.artist, opt_chars(t.artist))
                    &&& field_from(m.album, opt_chars(t.album))
                    &&& field_from(m.genre, opt_chars(t.genre))
                    &&& match opt_chars(t.title) {
                        Some(a) => if forall|k: int| 0 <= k < a.len() ==> is_white_space(#[trigger] a[k]) {
                            m.display_name == fallback
                        } else {
                            m.display_name.len() > 0 && is_trim_of(m.display_name, a, |c: char| is_white_space(c))
                        },
                        None => m.display_name == fallback,
                    }
                    &&& (t.year is Some ==> m.year == t.year)
                    &&& m.cover == opt_bytes(t.cover)
                },
            }
        }),
{
    if let Some(t) = tag {
        lemma_non_empty_is_field(opt_chars(t.artist));
        lemma_non_empty_is_field(opt_chars(t.album));
        lemma_non_empty_is_field(opt_chars(t.genre));
        lemma_non_empty_is_field(opt_chars(t.title));
    }
}

/// A number written in decimal reads back as itself: the text is a
/// non-empty run of digits, without a leading zero unless it is `0`, whose
/// value is the number, so parsing it gives the number back.
pub proof fn lemma_decimal_reads_back(n: nat)
    ensures
        decimal(n).len() > 0,
        all_digits(decimal(n)),
        digits_value(decimal(n)) == n,
        decimal(n).len() > 1 ==> decimal(n)[0] != '0',
        n <= u32::MAX ==> spec_parse_u32(decimal(n)) == Some(n as u32),
    decreases n,
{
    let d = decimal(n);
    if n >= 10 {
        lemma_decimal_reads_back(n / 10);
        let pre = decimal(n / 10);
        assert(d.drop_last() =~= pre);
        assert(d.last() == (48 + n % 10) as char);
        assert((d.last() as int) - 48 == n % 10);
        assert(n == (n / 10) * 10 + n % 10);
        assert(digits_value(d) == digits_value(pre) * 10 + ((d.last() as int) - 48));
        assert forall|i: int| 0 <= i < d.len() implies #[trigger] is_digit(d[i]) by {
            if i < pre.len() {
                assert(d[i] == pre[i]);
            }
        }
        assert(d[0] == pre[0]);
        if n / 10 < 10 {
            assert(pre[0] == (48 + n / 10) as char);
            assert((pre[0] as int) == 48 + n / 10);
            assert(pre[0] != '0');
        } else {
            lemma_decimal_reads_back(n / 10 / 10);
            assert(pre.len() > 1);
        }
    } else {
        assert(d.drop_last() =~= Seq::<char>::empty());
        assert((d.last() as int) == 48 + n);
        assert(digits_value(d) == digits_value(d.drop_last()) * 10 + ((d.last() as int) - 48));
        assert(digits_value(Seq::<char>::empty()) == 0);
        assert(is_digit(d[0]));
    }
    if n <= u32::MAX {
        assert(is_digit(d[0]));
        assert(after_sign(d) == d);
    }
}

} // verus!
