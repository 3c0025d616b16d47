use clonehero_maker::album_art::{album_art, choose_album_art, color_from, fnv1a, placeholder, AlbumArt, SIZE};

#[test]
fn placeholder_is_512_square_and_deterministic() {
    let a = placeholder("Some Song");
    let b = placeholder("Some Song");
    assert_eq!(a.dimensions(), (SIZE, SIZE));
    assert_eq!(a.into_raw(), b.into_raw(), "same title -> identical image");
}

#[test]
fn different_titles_produce_different_placeholders() {
    assert_ne!(placeholder("Alpha").into_raw(), placeholder("Beta").into_raw());
}

#[test]
fn invalid_cover_bytes_fall_back_to_placeholder() {
    // Not a decodable image -> the placeholder is used.
    match album_art(Some(b"not an image"), "Title") {
        AlbumArt::Placeholder(p) => {
            assert_eq!(p.dimensions(), (SIZE, SIZE));
            assert_eq!(p.into_raw(), placeholder("Title").into_raw());
        }
        AlbumArt::Cover(_) => panic!("garbage decoded as an image"),
    }
    assert!(matches!(album_art(None, "Title"), AlbumArt::Placeholder(_)));
}

#[test]
fn decodable_cover_is_used() {
    let img = image::RgbImage::from_raw(2, 1, vec![1, 2, 3, 4, 5, 6]).unwrap();
    let mut png = Vec::new();
    img.write_to(&mut std::io::Cursor::new(&mut png), image::ImageFormat::Png).unwrap();
    match album_art(Some(&png), "Title") {
        AlbumArt::Cover(decoded) => assert_eq!(decoded.to_rgb8().into_raw(), vec![1, 2, 3, 4, 5, 6]),
        AlbumArt::Placeholder(_) => panic!("valid PNG not decoded"),
    }
}

#[test]
fn fnv1a_matches_reference_values() {
    assert_eq!(fnv1a(b""), 0xcbf2_9ce4_8422_2325);
    assert_eq!(fnv1a(b"a"), 0xaf63_dc4c_8601_ec8c);
    assert_eq!(fnv1a(b"Some Song"), 0x75b9_6cde_308d_dcfa);
}

#[test]
fn colors_follow_the_hue_wheel() {
    assert_eq!(color_from(0), [191, 86, 86]);
    assert_eq!(color_from(1), [191, 88, 86]);
    assert_eq!(color_from(60), [191, 191, 86]);
    assert_eq!(color_from(120), [86, 191, 86]);
    assert_eq!(color_from(180), [86, 191, 191]);
    assert_eq!(color_from(240), [86, 86, 191]);
    assert_eq!(color_from(300), [191, 86, 191]);
    assert_eq!(color_from(359), [191, 86, 88]);
    assert_eq!(color_from(360 + 120), [86, 191, 86]);
    for h in 0..360 {
        let c = color_from(h);
        assert_eq!(*c.iter().max().unwrap(), 191);
        assert_eq!(*c.iter().min().unwrap(), 86);
    }
}

#[test]
fn placeholder_pixels_match_the_drawing() {
    let raw = placeholder("Some Song").into_raw();
    let px = |x: usize, y: usize| [raw[(y * 512 + x) * 3], raw[(y * 512 + x) * 3 + 1], raw[(y * 512 + x) * 3 + 2]];
    assert_eq!(raw.len(), 512 * 512 * 3);
    assert_eq!(px(0, 0), [111, 191, 86]);
    assert_eq!(px(511, 511), [186, 191, 86]);
    assert_eq!(px(10, 300), [155, 191, 86]);
    assert_eq!(px(256, 256), [149, 191, 86]);
    assert_eq!(px(100, 256), [149, 191, 86]);
}

#[test]
fn decode_outcome_picks_the_art() {
    let img = image::DynamicImage::ImageRgb8(image::RgbImage::from_raw(1, 1, vec![9, 8, 7]).unwrap());
    assert!(matches!(choose_album_art(Some(Ok(img.clone())), "T"), AlbumArt::Cover(c) if c == img));
    let err = image::load_from_memory(b"junk").unwrap_err();
    match choose_album_art(Some(Err(err)), "T") {
        AlbumArt::Placeholder(p) => assert_eq!(p.into_raw(), placeholder("T").into_raw()),
        AlbumArt::Cover(_) => panic!("error outcome gave a cover"),
    }
    match choose_album_art(None, "T") {
        AlbumArt::Placeholder(p) => assert_eq!(p.dimensions(), (SIZE, SIZE)),
        AlbumArt::Cover(_) => panic!("no outcome gave a cover"),
    }
}
