//! The errors of the audio-clip and lookup services.

use vstd::prelude::*;

verus! {

/// Why a clip could not be built or a lookup could not run.
#[derive(Clone, Copy, Debug, PartialEq, Eq, Structural)]
pub enum ServiceError {
    /// Malformed ids, non-finite times or an empty window.
    InvalidInput,
    /// No media playlist could be extracted.
    PlaylistUnresolvable,
    /// A URL could not be resolved against its base.
    InvalidUrl,
    /// The window lies outside the playlist.
    SegmentSelectionEmpty,
    /// A selected segment is encrypted.
    Encrypted,
    /// An HTTP request failed.
    FetchFailed,
    /// A byte range whose end is not past its start.
    InvalidRange,
    /// The probe rejected the container.
    UnsupportedContainer,
    /// The decoder rejected the codec or its format.
    UnsupportedCodec,
    /// The rate or channel count changed within a segment.
    FormatChanged,
    /// The rate or channel count differs between segments.
    FormatMismatch,
    /// Decoding produced no samples.
    NoAudioDecoded,
    /// The PCM data does not fit a WAV file.
    ClipTooLarge,
    /// The decode worker failed.
    DecodeTaskFailed,
    /// Dictionaries are being imported.
    ServiceLoading,
}

impl ServiceError {
    /// A short description of the error.
    pub fn message(&self) -> (r: &'static str) {
        match self {
            ServiceError::InvalidInput => "Invalid input",
            ServiceError::PlaylistUnresolvable => "No media playlists found in master playlist",
            ServiceError::InvalidUrl => "Invalid URL",
            ServiceError::SegmentSelectionEmpty => "No matching segments found",
            ServiceError::Encrypted => "Encrypted HLS segments are not supported",
            ServiceError::FetchFailed => "Request failed",
            ServiceError::InvalidRange => "Invalid byte range",
            ServiceError::UnsupportedContainer => "Unsupported segment format",
            ServiceError::UnsupportedCodec => "Unsupported audio codec",
            ServiceError::FormatChanged => "Audio format changed within segment",
            ServiceError::FormatMismatch => "Mismatched audio formats across segments",
            ServiceError::NoAudioDecoded => "No audio decoded",
            ServiceError::ClipTooLarge => "Audio clip is too large",
            ServiceError::DecodeTaskFailed => "Audio decode task failed",
            ServiceError::ServiceLoading => "Dictionaries are importing",
        }
    }
}

} // verus!
