//! `album.png`: the cover embedded in the audio file when it decodes, else a
//! placeholder drawn from the title.

use vstd::prelude::*;
use image::{DynamicImage, ImageError};
use vstd::arithmetic::div_mod::lemma_fundamental_div_mod_converse;
use vstd::string::StringSliceAdditionalSpecFns;
use vstd::wrapping::u64_specs;

verus! {

/// A decoded image, carried through to be written out.
#[verifier::external_type_specification]
#[verifier::external_body]
pub struct ExDynamicImage(DynamicImage);

/// `image::load_from_memory`: guesses the format of `bytes` and decodes
/// them. Nothing is stated of the result: besides the bytes it depends on
/// the format-detection and decoding hooks registered in the process.
#[verifier::external_body]
fn load_from_memory(bytes: &[u8]) -> (r: Result<DynamicImage, ImageError>) {
    image::load_from_memory(bytes)
}

/// Side of the square album art, in pixels.
pub const SIZE: u32 = 512;

// ---------------------------------------------------------------------------
// Hashing and colors

pub const FNV_OFFSET: u64 = 0xcbf2_9ce4_8422_2325;
pub const FNV_PRIME: u64 = 0x0000_0100_0000_01B3;

/// 64-bit FNV-1a of `bytes`.
pub open spec fn spec_fnv1a(bytes: Seq<u8>) -> u64
    decreases bytes.len(),
{
    if bytes.len() == 0 {
        FNV_OFFSET
    } else {
        u64_specs::wrapping_mul(spec_fnv1a(bytes.drop_last()) ^ (bytes.last() as u64), FNV_PRIME)
    }
}

/// 64-bit FNV-1a hash — small, deterministic, no dependencies.
pub fn fnv1a(bytes: &[u8]) -> (hash: u64)
    ensures
        hash == spec_fnv1a(bytes@),
{
    let mut hash: u64 = FNV_OFFSET;
    let n = bytes.len();
    for i in 0..n
        invariant
            n == bytes@.len(),
            hash == spec_fnv1a(bytes@.take(i as int)),
    {
        assert(bytes@.take(i + 1).drop_last() =~= bytes@.take(i as int));
        hash ^= bytes[i] as u64;
        hash = hash.wrapping_mul(FNV_PRIME);
    }
    assert(bytes@.take(n as int) =~= bytes@);
    hash
}

/// `num / den` rounded to the nearest integer, halves up.
pub open spec fn round_ratio(num: int, den: int) -> int {
    (2 * num + den) / (2 * den)
}

/// A color channel at value 0.75 and saturation 0.55 (so chroma
/// `c = 33/80` and offset `m = 27/80`), a fraction `f / 60` of the chroma
/// above the offset: `round(255 * (m + c * f / 60))`.
pub open spec fn spec_level(f: int) -> u8 {
    round_ratio(255 * (27 * 60 + 33 * f), 4800int) as u8
}

/// The color of hue `h` (degrees) at saturation 0.55 and value 0.75.
pub open spec fn spec_hue_rgb(h: int) -> Seq<u8> {
    let q = h % 120;
    let mid = spec_level(if q <= 60 { q } else { 120 - q });
    let high = spec_level(60);
    let low = spec_level(0);
    let sector = h / 60;
    if sector == 0 {
        seq![high, mid, low]
    } else if sector == 1 {
        seq![mid, high, low]
    } else if sector == 2 {
        seq![low, high, mid]
    } else if sector == 3 {
        seq![low, mid, high]
    } else if sector == 4 {
        seq![mid, low, high]
    } else {
        seq![high, low, mid]
    }
}

/// The color that `seed` picks: its remainder by 360 as the hue.
pub open spec fn spec_color(seed: u64) -> Seq<u8> {
    spec_hue_rgb((seed % 360) as int)
}

fn level(f: u32) -> (l: u8)
    requires
        f <= 60,
    ensures
        l == spec_level(f as int),
{
    ((2 * 255 * (27 * 60 + 33 * f) + 80 * 60) / (2 * 80 * 60)) as u8
}

/// HSV to RGB for hue `hue` at saturation 0.55 and value 0.75.
fn hue_to_rgb(hue: u32) -> (rgb: [u8; 3])
    requires
        hue < 360,
    ensures
        rgb@ == spec_hue_rgb(hue as int),
{
    let q = hue % 120;
    let mid = level(if q <= 60 { q } else { 120 - q });
    let high = level(60);
    let low = level(0);
    let rgb = match hue / 60 {
        0 => [high, mid, low],
        1 => [mid, high, low],
        2 => [low, high, mid],
        3 => [low, mid, high],
        4 => [mid, low, high],
        _ => [high, low, mid],
    };
    assert(rgb@ =~= spec_hue_rgb(hue as int));
    rgb
}

/// Map a 64-bit value to a pleasant, reasonably saturated RGB color.
pub fn color_from(seed: u64) -> (rgb: [u8; 3])
    ensures
        rgb@ == spec_color(seed),
{
    hue_to_rgb((seed % 360) as u32)
}

/// Every color has its strongest channel at 191 and its weakest at 86.
pub proof fn lemma_color_range(seed: u64)
    ensures
        spec_color(seed).len() == 3,
        forall|i: int| 0 <= i < 3 ==> 86 <= #[trigger] spec_color(seed)[i] <= 191,
        exists|i: int| 0 <= i < 3 && #[trigger] spec_color(seed)[i] == 191,
        exists|i: int| 0 <= i < 3 && #[trigger] spec_color(seed)[i] == 86,
{
    let h = (seed % 360) as int;
    let q = h % 120;
    let f = if q <= 60 { q } else { 120 - q };
    assert(spec_level(60) == 191);
    assert(spec_level(0) == 86);
    assert(86 <= spec_level(f) <= 191) by (nonlinear_arith)
        requires
            0 <= f <= 60,
            spec_level(f) == round_ratio(255 * (27 * 60 + 33 * f), 4800int) as u8,
    {
        assert((2 * (255 * (27 * 60 + 33 * f)) + 80 * 60) / 9600int >= 86);
        assert((2 * (255 * (27 * 60 + 33 * f)) + 80 * 60) / 9600int <= 191);
    }
    let c = spec_color(seed);
    if h / 60 == 0 {
        assert(c[0] == 191 && c[2] == 86);
    } else if h / 60 == 1 {
        assert(c[1] == 191 && c[2] == 86);
    } else if h / 60 == 2 {
        assert(c[1] == 191 && c[0] == 86);
    } else if h / 60 == 3 {
        assert(c[2] == 191 && c[0] == 86);
    } else if h / 60 == 4 {
        assert(c[2] == 191 && c[1] == 86);
    } else {
        assert(c[0] == 191 && c[1] == 86);
    }
}

// ---------------------------------------------------------------------------
// The placeholder

/// Linear interpolation of a channel from `a` (top row) to `b` (bottom row)
/// at row `y`, rounded: `round(a + (b - a) * y / 511)`.
pub open spec fn spec_lerp(a: u8, b: u8, y: int) -> u8 {
    round_ratio(a * (511 - y) + b * y, 511int) as u8
}

/// `x` rotated left by `n` bits.
pub open spec fn rotl(x: u64, n: u64) -> u64 {
    ((x << n) | (x >> (64 - n) as u64)) as u64
}

pub const BOTTOM_MIX: u64 = 0x9E37_79B9_7F4A_7C15;
pub const DISC_MUL: u64 = 0x100_0000_01B3;

/// The top, bottom and disc colors of the placeholder of a title hashing to
/// `seed`.
pub open spec fn top_color(seed: u64) -> Seq<u8> {
    spec_color(seed)
}

pub open spec fn bottom_color(seed: u64) -> Seq<u8> {
    spec_color(rotl(seed, 17) ^ BOTTOM_MIX)
}

pub open spec fn disc_color(seed: u64) -> Seq<u8> {
    spec_color(u64_specs::wrapping_mul(rotl(seed, 33), DISC_MUL))
}

/// Pixel `(x, y)` lies on the centered disc of radius 153.6 (`512 * 0.3`).
pub open spec fn in_disc(x: int, y: int) -> bool {
    (x - 256) * (x - 256) + (y - 256) * (y - 256) <= 23592
}

/// Channel `c` of pixel `(x, y)`: the disc color on the disc, else the
/// vertical gradient from the top color to the bottom color.
pub open spec fn placeholder_channel(seed: u64, x: int, y: int, c: int) -> u8 {
    if in_disc(x, y) {
        disc_color(seed)[c]
    } else {
        spec_lerp(top_color(seed)[c], bottom_color(seed)[c], y)
    }
}

/// Row-major RGB bytes of the placeholder for a title hashing to `seed`.
pub open spec fn placeholder_bytes(seed: u64) -> Seq<u8> {
    Seq::new(
        (SIZE * SIZE * 3) as nat,
        |i: int| placeholder_channel(seed, (i / 3) % 512, (i / 3) / 512, i % 3),
    )
}

/// An RGB image: `width * height` pixels, row by row, three bytes each.
#[derive(Debug, PartialEq, Eq)]
pub struct RgbPixels {
    width: u32,
    height: u32,
    data: Vec<u8>,
}

/// An RGB image as mathematical values.
pub struct RgbView {
    pub width: u32,
    pub height: u32,
    pub data: Seq<u8>,
}

impl View for RgbPixels {
    type V = RgbView;

    closed spec fn view(&self) -> RgbView {
        RgbView { width: self.width, height: self.height, data: self.data@ }
    }
}

impl RgbPixels {
    /// Width and height in pixels.
    pub fn dimensions(&self) -> (d: (u32, u32))
        ensures
            d == (self@.width, self@.height),
    {
        (self.width, self.height)
    }

    /// The pixel bytes, row by row.
    pub fn into_raw(self) -> (data: Vec<u8>)
        ensures
            data@ == self@.data,
    {
        self.data
    }
}

proof fn lemma_pixel_index(x: int, y: int, c: int)
    requires
        0 <= x < 512,
        0 <= y < 512,
        0 <= c < 3,
    ensures
        ((y * 512 + x) * 3 + c) / 3 == y * 512 + x,
        ((y * 512 + x) * 3 + c) % 3 == c,
        (y * 512 + x) % 512 == x,
        (y * 512 + x) / 512 == y,
{
    lemma_fundamental_div_mod_converse((y * 512 + x) * 3 + c, 3, y * 512 + x, c);
    lemma_fundamental_div_mod_converse(y * 512 + x, 512, y, x);
}

fn lerp(a: u8, b: u8, y: u32) -> (v: u8)
    requires
        y <= 511,
    ensures
        v == spec_lerp(a, b, y as int),
{
    assert((a as u32) * (511 - y) <= 130305) by (nonlinear_arith)
        requires
            a <= 255,
            y <= 511,
    ;
    assert((b as u32) * y <= 130305) by (nonlinear_arith)
        requires
            b <= 255,
            y <= 511,
    ;
    let n: u32 = a as u32 * (511 - y) + b as u32 * y;
    assert(n <= 255 * 511) by (nonlinear_arith)
        requires
            n == a * (511 - y) + b * y,
            a <= 255,
            b <= 255,
            y <= 511,
    ;
    assert((2 * n + 511) / 1022 <= 255);
    ((2 * n + 511) / (2 * 511)) as u8
}

fn rotate_left(x: u64, n: u64) -> (r: u64)
    requires
        0 < n < 64,
    ensures
        r == rotl(x, n),
{
    (x << n) | (x >> (64 - n))
}

/// The three channels of pixel `(x, y)`.
pub open spec fn placeholder_pixel(seed: u64, x: int, y: int) -> Seq<u8> {
    seq![
        placeholder_channel(seed, x, y, 0),
        placeholder_channel(seed, x, y, 1),
        placeholder_channel(seed, x, y, 2),
    ]
}

fn pixel_at(x: u32, y: u32, disc: [u8; 3], bg: [u8; 3], Ghost(seed): Ghost<u64>) -> (p: [u8; 3])
    requires
        x < 512,
        y < 512,
        disc@ == disc_color(seed),
        bg@ == seq![
            spec_lerp(top_color(seed)[0], bottom_color(seed)[0], y as int),
            spec_lerp(top_color(seed)[1], bottom_color(seed)[1], y as int),
            spec_lerp(top_color(seed)[2], bottom_color(seed)[2], y as int),
        ],
    ensures
        p@ == placeholder_pixel(seed, x as int, y as int),
{
    let dx = x as i64 - 256;
    let dy = y as i64 - 256;
    assert(0 <= dx * dx <= 65536 && 0 <= dy * dy <= 65536) by (nonlinear_arith)
        requires
            -256 <= dx <= 256,
            -256 <= dy <= 256,
    ;
    let p = if dx * dx + dy * dy <= 23592 {
        disc
    } else {
        bg
    };
    assert(in_disc(x as int, y as int) == (dx * dx + dy * dy <= 23592));
    assert(p@ =~= placeholder_pixel(seed, x as int, y as int));
    p
}

proof fn lemma_placeholder_step(seed: u64, x: int, y: int, data: Seq<u8>, p: Seq<u8>)
    requires
        0 <= x < 512,
        0 <= y < 512,
        data == placeholder_bytes(seed).take((y * 512 + x) * 3),
        p == placeholder_pixel(seed, x, y),
    ensures
        data + p == placeholder_bytes(seed).take((y * 512 + x) * 3 + 3),
{
    let all = placeholder_bytes(seed);
    let k = (y * 512 + x) * 3;
    lemma_pixel_index(x, y, 0);
    lemma_pixel_index(x, y, 1);
    lemma_pixel_index(x, y, 2);
    assert(k + 3 <= 786432) by (nonlinear_arith)
        requires
            0 <= x < 512,
            0 <= y < 512,
            k == (y * 512 + x) * 3,
    ;
    assert(all[k] == p[0]);
    assert(all[k + 1] == p[1]);
    assert(all[k + 2] == p[2]);
    assert(data + p =~= all.take(k + 3));
}

/// Build a 512×512 placeholder: a vertical gradient between two
/// title-derived colors with a centered disc.
pub fn placeholder(title: &str) -> (img: RgbPixels)
    ensures
        img@.width == SIZE,
        img@.height == SIZE,
        img@.data == placeholder_bytes(spec_fnv1a(title.spec_bytes())),
{
    let seed = fnv1a(title.as_bytes());
    let top = color_from(seed);
    let bottom = color_from(rotate_left(seed, 17) ^ BOTTOM_MIX);
    let disc = color_from(rotate_left(seed, 33).wrapping_mul(DISC_MUL));
    let mut data: Vec<u8> = Vec::new();
    for y in 0..SIZE
        invariant
            top@ == top_color(seed),
            bottom@ == bottom_color(seed),
            disc@ == disc_color(seed),
            data@ == placeholder_bytes(seed).take(y * 512 * 3),
    {
        let bg = [lerp(top[0], bottom[0], y), lerp(top[1], bottom[1], y), lerp(top[2], bottom[2], y)];
        for x in 0..SIZE
            invariant
                y < 512,
                disc@ == disc_color(seed),
                bg@ == seq![
                    spec_lerp(top_color(seed)[0], bottom_color(seed)[0], y as int),
                    spec_lerp(top_color(seed)[1], bottom_color(seed)[1], y as int),
                    spec_lerp(top_color(seed)[2], bottom_color(seed)[2], y as int),
                ],
                data@ == placeholder_bytes(seed).take((y * 512 + x) * 3),
        {
            let pixel = pixel_at(x, y, disc, bg, Ghost(seed));
            let ghost before = data@;
            data.push(pixel[0]);
            data.push(pixel[1]);
            data.push(pixel[2]);
            proof {
                lemma_placeholder_step(seed, x as int, y as int, before, pixel@);
                assert(data@ =~= before + pixel@);
            }
        }
    }
    assert(placeholder_bytes(seed).take(786432int) =~= placeholder_bytes(seed));
    RgbPixels { width: SIZE, height: SIZE, data }
}

/// Two placeholders for the same title are the same image.
pub proof fn lemma_placeholder_is_deterministic(t1: &str, t2: &str)
    requires
        t1@ == t2@,
    ensures
        placeholder_bytes(spec_fnv1a(t1.spec_bytes())) == placeholder_bytes(spec_fnv1a(t2.spec_bytes())),
{
}

// ---------------------------------------------------------------------------
// Choosing the album art

/// The image written as `album.png`.
pub enum AlbumArt {
    /// The embedded cover, decoded; it is re-encoded as PNG.
    Cover(DynamicImage),
    /// The title-derived placeholder.
    Placeholder(RgbPixels),
}

/// `art` is the placeholder of a title with UTF-8 bytes `title`.
pub open spec fn is_placeholder_for(art: AlbumArt, title: Seq<u8>) -> bool {
    art matches AlbumArt::Placeholder(p) && p@.width == SIZE && p@.height == SIZE && p@.data
        == placeholder_bytes(spec_fnv1a(title))
}

/// The album art for a decode outcome: the decoded cover when there is one,
/// else the placeholder drawn from `title`.
pub fn choose_album_art(decoded: Option<Result<DynamicImage, ImageError>>, title: &str) -> (art: AlbumArt)
    ensures
        match decoded {
            Some(Ok(img)) => art == AlbumArt::Cover(img),
            _ => is_placeholder_for(art, title.spec_bytes()),
        },
{
    match decoded {
        Some(Ok(img)) => AlbumArt::Cover(img),
        _ => AlbumArt::Placeholder(placeholder(title)),
    }
}

/// If `cover` holds decodable image bytes (an embedded cover extracted from
/// the audio file) that image is used. Otherwise a deterministic placeholder
/// derived from the title is drawn, so there is always an album image.
pub fn album_art(cover: Option<&[u8]>, title: &str) -> (art: AlbumArt)
    ensures
        cover is None ==> is_placeholder_for(art, title.spec_bytes()),
        cover is Some ==> art is Cover || is_placeholder_for(art, title.spec_bytes()),
{
    let decoded = match cover {
        Some(bytes) => Some(load_from_memory(bytes)),
        None => None,
    };
    choose_album_art(decoded, title)
}

} // verus!
