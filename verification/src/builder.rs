//! Decisions of the song-folder pipeline: which inputs are accepted, whether
//! an existing folder may be overwritten, and what the folder is called.

use vstd::prelude::*;
use std::path::PathBuf;
use crate::error::ChtmError;
use crate::text::{
    char_is_control, chars_of, is_control_char, is_white_space, lowercase, str_to_lowercase,
    string_from_chars, trim_chars, trim_dots, trim_spaces, trim_where, trimmed_char,
    lemma_trim_ends, is_trim_of, lemma_trim_where_is_trim,
};

verus! {

/// Input extensions we accept (lowercased).
pub const SUPPORTED: [&'static str; 4] = ["mp3", "wav", "flac", "ogg"];

/// `ext` is one of the supported extensions.
pub open spec fn is_supported(ext: Seq<char>) -> bool {
    exists|i: int| 0 <= i < 4 && #[trigger] SUPPORTED@[i]@ == ext
}

/// Accept the input file if it exists and its extension, lowercased, names a
/// supported format; the lowercased extension is the format.
pub fn check_input(input: PathBuf, exists: bool, extension: Option<&str>) -> (r: Result<String, ChtmError>)
    ensures
        !exists ==> r == Err::<String, ChtmError>(ChtmError::InputNotFound(input)),
        exists && extension is None ==> r == Err::<String, ChtmError>(ChtmError::NoExtension(input)),
        exists && extension is Some ==> match r {
            Ok(format) => is_supported(lowercase(extension.unwrap()@)) && format@ == lowercase(
                extension.unwrap()@,
            ),
            Err(ChtmError::UnsupportedFormat(format)) => !is_supported(lowercase(extension.unwrap()@))
                && format@ == lowercase(extension.unwrap()@),
            Err(_) => false,
        },
{
    if !exists {
        return Err(ChtmError::InputNotFound(input));
    }
    let ext = match extension {
        Some(e) => str_to_lowercase(e),
        None => {
            return Err(ChtmError::NoExtension(input));
        },
    };
    let mut i: usize = 0;
    while i < 4
        invariant
            i <= 4,
            exists,
            extension is Some,
            ext@ == lowercase(extension.unwrap()@),
            forall|k: int| 0 <= k < i ==> SUPPORTED@[k]@ != ext@,
        decreases 4 - i,
    {
        let candidate = String::from_str(SUPPORTED[i]);
        if candidate == ext {
            assert(SUPPORTED@[i as int]@ == ext@);
            return Ok(ext);
        }
        i = i + 1;
    }
    Err(ChtmError::UnsupportedFormat(ext))
}

/// The song folder may be written unless it exists and `force` is off.
pub fn check_output(song_dir: PathBuf, exists: bool, force: bool) -> (r: Result<PathBuf, ChtmError>)
    ensures
        exists && !force ==> r == Err::<PathBuf, ChtmError>(ChtmError::OutputExists(song_dir)),
        !(exists && !force) ==> r == Ok::<PathBuf, ChtmError>(song_dir),
{
    if exists && !force {
        Err(ChtmError::OutputExists(song_dir))
    } else {
        Ok(song_dir)
    }
}

/// Characters that some file systems refuse in a name.
pub open spec fn is_illegal(c: char) -> bool {
    c == '/' || c == '\\' || c == ':' || c == '*' || c == '?' || c == '"' || c == '<' || c == '>'
        || c == '|'
}

/// Illegal and control characters become `_`; the rest stay.
pub open spec fn clean_char(c: char) -> char {
    if is_illegal(c) || is_control_char(c) {
        '_'
    } else {
        c
    }
}

/// The cleaned name without surrounding white space and dots, or
/// "Untitled Song" when nothing is left.
pub open spec fn spec_sanitize(name: Seq<char>) -> Seq<char> {
    let t = trim_spaces(trim_dots(trim_spaces(name.map_values(|c: char| clean_char(c)))));
    if t.len() == 0 {
        "Untitled Song"@
    } else {
        t
    }
}

/// Make a string safe to use as a folder name across platforms.
pub fn sanitize_folder_name(name: &str) -> (folder: String)
    ensures
        folder@ == spec_sanitize(name@),
{
    let cs = chars_of(name);
    let mut cleaned: Vec<char> = Vec::new();
    let n = cs.len();
    for i in 0..n
        invariant
            n == cs@.len(),
            cleaned@ == cs@.take(i as int).map_values(|c: char| clean_char(c)),
    {
        let c = cs[i];
        let out = if c == '/' || c == '\\' || c == ':' || c == '*' || c == '?' || c == '"' || c == '<'
            || c == '>' || c == '|' {
            '_'
        } else if char_is_control(c) {
            // Control characters would break some filesystems/UIs.
            '_'
        } else {
            c
        };
        cleaned.push(out);
        assert(cleaned@ =~= cs@.take(i + 1).map_values(|c: char| clean_char(c)));
    }
    assert(cs@.take(n as int) =~= cs@);
    let t1 = trim_chars(&cleaned, false);
    let t2 = trim_chars(&t1, true);
    let t3 = trim_chars(&t2, false);
    proof {
        assert((|c: char| trimmed_char(c, false)) =~= (|c: char| is_white_space(c)));
        assert((|c: char| trimmed_char(c, true)) =~= (|c: char| c == '.'));
    }
    if t3.len() == 0 {
        String::from_str("Untitled Song")
    } else {
        string_from_chars(&t3, 0, t3.len())
    }
}

proof fn lemma_trim_keeps(s: Seq<char>, p: spec_fn(char) -> bool, good: spec_fn(char) -> bool)
    requires
        forall|k: int| 0 <= k < s.len() ==> good(#[trigger] s[k]),
    ensures
        forall|i: int| 0 <= i < trim_where(s, p).len() ==> good(#[trigger] trim_where(s, p)[i]),
{
    lemma_trim_ends(s, p);
    assert forall|i: int| 0 <= i < trim_where(s, p).len() implies good(#[trigger] trim_where(s, p)[i]) by {
        let k = choose|k: int| 0 <= k < s.len() && #[trigger] trim_where(s, p)[i] == s[k];
    }
}

/// A folder name is never empty, neither starts nor ends with white space,
/// and holds no character that file systems refuse and no control code.
pub proof fn lemma_folder_name_is_safe(name: Seq<char>)
    ensures
        ({
            let r = spec_sanitize(name);
            &&& r.len() > 0
            &&& !is_white_space(r[0])
            &&& !is_white_space(r.last())
            &&& forall|i: int| 0 <= i < r.len() ==> !is_illegal(#[trigger] r[i]) && !is_control_char(r[i])
        }),
{
    reveal_strlit("Untitled Song");
    let ws = |c: char| is_white_space(c);
    let dot = |c: char| c == '.';
    let good = |c: char| !is_illegal(c) && !is_control_char(c);
    let cleaned = name.map_values(|c: char| clean_char(c));
    assert forall|k: int| 0 <= k < cleaned.len() implies good(#[trigger] cleaned[k]) by {
    }
    let t1 = trim_where(cleaned, ws);
    lemma_trim_keeps(cleaned, ws, good);
    let t2 = trim_where(t1, dot);
    lemma_trim_keeps(t1, dot, good);
    let t3 = trim_where(t2, ws);
    lemma_trim_keeps(t2, ws, good);
    lemma_trim_ends(t2, ws);
    assert(t3 == trim_spaces(trim_dots(trim_spaces(cleaned))));
    if t3.len() > 0 {
        assert forall|i: int| 0 <= i < t3.len() implies !is_illegal(#[trigger] t3[i]) && !is_control_char(t3[i]) by {
            assert(good(t3[i]));
        }
    } else {
        let r = "Untitled Song"@;
        assert forall|i: int| 0 <= i < r.len() implies !is_illegal(#[trigger] r[i]) && !is_control_char(r[i]) by {
        }
    }
}

/// `c` is one of / \ : * ? " < > | or a control code (U+0000 to U+001F,
/// U+007F to U+009F): the characters a folder name cannot hold.
pub open spec fn refused_in_names(c: char) -> bool {
    let u = c as u32;
    c == '/' || c == '\\' || c == ':' || c == '*' || c == '?' || c == '"' || c == '<' || c == '>'
        || c == '|' || u <= 0x1F || (0x7F <= u <= 0x9F)
}

/// `c` is a dot or white space (tab to carriage return, space, U+0085,
/// U+00A0, U+1680, U+2000 to U+200A, U+2028, U+2029, U+202F, U+205F,
/// U+3000): what is cut from the ends of a folder name.
pub open spec fn cut_at_ends(c: char) -> bool {
    let u = c as u32;
    c == '.' || (0x09 <= u <= 0x0D) || u == 0x20 || u == 0x85 || u == 0xA0 || u == 0x1680 || (0x2000
        <= u <= 0x200A) || u == 0x2028 || u == 0x2029 || u == 0x202F || u == 0x205F || u == 0x3000
}

/// Sanitizing changes nothing but refused characters: unless it falls back
/// to "Untitled Song", the folder name is a contiguous stretch of the name in
/// which every refused character has become `_` and every other character is
/// kept as it was.
pub proof fn lemma_folder_name_keeps_other_characters(name: Seq<char>)
    ensures
        spec_sanitize(name) == "Untitled Song"@ || exists|i: int|
            #![trigger name.subrange(i, i + spec_sanitize(name).len())]
            0 <= i && i + spec_sanitize(name).len() <= name.len() && forall|k: int|
                0 <= k < spec_sanitize(name).len() ==> #[trigger] spec_sanitize(name)[k] == if refused_in_names(
                    name[i + k],
                ) {
                    '_'
                } else {
                    name[i + k]
                },
{
    let ws = |c: char| is_white_space(c);
    let dot = |c: char| c == '.';
    let cleaned = name.map_values(|c: char| clean_char(c));
    let t1 = trim_where(cleaned, ws);
    let t2 = trim_where(t1, dot);
    let t3 = trim_where(t2, ws);
    lemma_trim_where_is_trim(cleaned, ws);
    lemma_trim_where_is_trim(t1, dot);
    lemma_trim_where_is_trim(t2, ws);
    let (a1, b1) = choose|i: int, j: int| 0 <= i <= j <= cleaned.len() && t1 == cleaned.subrange(i, j)
        && (forall|k: int| 0 <= k < i ==> ws(#[trigger] cleaned[k])) && (forall|k: int| j <= k < cleaned.len()
        ==> ws(#[trigger] cleaned[k])) && (i < j ==> !ws(cleaned[i]) && !ws(cleaned[j - 1]));
    let (a2, b2) = choose|i: int, j: int| 0 <= i <= j <= t1.len() && t2 == t1.subrange(i, j)
        && (forall|k: int| 0 <= k < i ==> dot(#[trigger] t1[k])) && (forall|k: int| j <= k < t1.len()
        ==> dot(#[trigger] t1[k])) && (i < j ==> !dot(t1[i]) && !dot(t1[j - 1]));
    let (a3, b3) = choose|i: int, j: int| 0 <= i <= j <= t2.len() && t3 == t2.subrange(i, j)
        && (forall|k: int| 0 <= k < i ==> ws(#[trigger] t2[k])) && (forall|k: int| j <= k < t2.len()
        ==> ws(#[trigger] t2[k])) && (i < j ==> !ws(t2[i]) && !ws(t2[j - 1]));
    let r = spec_sanitize(name);
    if t3.len() > 0 {
        let i = a1 + a2 + a3;
        assert(r == t3);
        assert forall|k: int| 0 <= k < r.len() implies #[trigger] r[k] == if refused_in_names(name[i + k]) {
            '_'
        } else {
            name[i + k]
        } by {
            assert(t3[k] == t2[a3 + k]);
            assert(t2[a3 + k] == t1[a2 + a3 + k]);
            assert(t1[a2 + a3 + k] == cleaned[i + k]);
        }
        assert(name.subrange(i, i + r.len()) == name.subrange(i, i + r.len()));
    }
}

/// A name with no refused character and no dot or white space at either end
/// is its own folder name.
pub proof fn lemma_clean_names_are_kept(name: Seq<char>)
    requires
        name.len() > 0,
        forall|k: int| 0 <= k < name.len() ==> !refused_in_names(#[trigger] name[k]),
        !cut_at_ends(name[0]),
        !cut_at_ends(name.last()),
    ensures
        spec_sanitize(name) == name,
{
    let ws = |c: char| is_white_space(c);
    let dot = |c: char| c == '.';
    let cleaned = name.map_values(|c: char| clean_char(c));
    assert(cleaned =~= name);
    lemma_trim_start_end_untouched(name, ws);
    lemma_trim_start_end_untouched(name, dot);
}

proof fn lemma_trim_start_end_untouched(s: Seq<char>, p: spec_fn(char) -> bool)
    requires
        s.len() > 0,
        !p(s[0]),
        !p(s.last()),
    ensures
        trim_where(s, p) == s,
{
    assert(crate::text::trim_start_where(s, p) == s);
    assert(crate::text::trim_end_where(s, p) == s);
}

} // verus!
