use std::path::PathBuf;

use clonehero_maker::builder::{check_input, check_output, sanitize_folder_name, SUPPORTED};
use clonehero_maker::error::ChtmError;

#[test]
fn replaces_illegal_characters() {
    assert_eq!(sanitize_folder_name("AC/DC: Back?"), "AC_DC_ Back_");
    assert_eq!(sanitize_folder_name(r#"a<b>c|d"e"#), "a_b_c_d_e");
}

#[test]
fn keeps_normal_names() {
    assert_eq!(sanitize_folder_name("Metallica - One"), "Metallica - One");
}

#[test]
fn blank_or_dot_only_names_get_a_default() {
    assert_eq!(sanitize_folder_name("   ...   "), "Untitled Song");
    assert_eq!(sanitize_folder_name(""), "Untitled Song");
}

#[test]
fn supported_extensions_are_lowercase() {
    // Guards against accidentally adding an uppercase entry that the
    // lowercased comparison would never match.
    assert!(SUPPORTED.iter().all(|e| e == &e.to_lowercase()));
}

#[test]
fn control_characters_and_surrounding_space_and_dots_go() {
    assert_eq!(sanitize_folder_name("a\u{7}b\tc"), "a_b_c");
    assert_eq!(sanitize_folder_name("  .. Song ..  "), "Song");
    assert_eq!(sanitize_folder_name(". .a"), ".a");
    assert_eq!(sanitize_folder_name("\u{3000}Tokyo\u{3000}"), "Tokyo");
    assert_eq!(sanitize_folder_name("***"), "___");
    assert_eq!(sanitize_folder_name("\\"), "_");
}

#[test]
fn accepted_inputs_give_their_lowercased_format() {
    let input = PathBuf::from("song.MP3");
    match check_input(input.clone(), true, Some("MP3")) {
        Ok(format) => assert_eq!(format, "mp3"),
        Err(e) => panic!("unexpected {e:?}"),
    }
    for ext in ["wav", "FLAC", "Ogg"] {
        assert_eq!(check_input(input.clone(), true, Some(ext)).unwrap(), ext.to_lowercase());
    }
}

#[test]
fn each_input_error_has_its_input() {
    let input = PathBuf::from("missing.mp3");
    assert!(matches!(check_input(input.clone(), false, Some("mp3")), Err(ChtmError::InputNotFound(p)) if p == input));
    let bare = PathBuf::from("noext");
    assert!(matches!(check_input(bare.clone(), true, None), Err(ChtmError::NoExtension(p)) if p == bare));
    assert!(matches!(check_input(PathBuf::from("a.TXT"), true, Some("TXT")), Err(ChtmError::UnsupportedFormat(f)) if f == "txt"));
    assert!(matches!(check_input(PathBuf::from("a.mp4"), true, Some("mp4")), Err(ChtmError::UnsupportedFormat(f)) if f == "mp4"));
}

#[test]
fn existing_output_needs_force() {
    let dir = PathBuf::from("Output/Song");
    assert!(matches!(check_output(dir.clone(), true, false), Err(ChtmError::OutputExists(p)) if p == dir));
    assert_eq!(check_output(dir.clone(), true, true).unwrap(), dir);
    assert_eq!(check_output(dir.clone(), false, false).unwrap(), dir);
    assert_eq!(check_output(dir.clone(), false, true).unwrap(), dir);
}
