//! The tool's typed errors, and the outside types that they carry.

use vstd::prelude::*;
use std::path::PathBuf;

verus! {

/// A file system path, carried through unchanged.
#[verifier::external_type_specification]
#[verifier::external_body]
pub struct ExPathBuf(PathBuf);

/// An I/O failure reported by the standard library.
#[verifier::external_type_specification]
#[verifier::external_body]
pub struct ExIoError(std::io::Error);

/// A failure reported by the `image` crate.
#[verifier::external_type_specification]
#[verifier::external_body]
pub struct ExImageError(image::ImageError);

/// Domain errors produced by the library parts of the tool.
#[derive(Debug)]
pub enum ChtmError {
    /// The input file does not exist.
    InputNotFound(PathBuf),
    /// The input file has no extension, so its format is unknown.
    NoExtension(PathBuf),
    /// The extension (lowercased) is not one of the supported formats.
    UnsupportedFormat(String),
    /// `ffmpeg` is not on the PATH.
    FfmpegNotFound,
    /// `ffmpeg` ran and failed.
    FfmpegFailed { status: String, stderr: String },
    /// The input holds no decodable audio track.
    NoAudioTrack(PathBuf),
    /// The song folder exists and overwriting was not asked for.
    OutputExists(PathBuf),
    /// Audio analysis failed.
    Analyze(String),
    /// An image could not be encoded or written.
    Image(image::ImageError),
    /// Any other I/O failure.
    Io(std::io::Error),
}

} // verus!
