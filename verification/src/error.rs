use vstd::prelude::*;

verus! {

/// The ways a waveform request can fail outright. A failure of any of
/// these kinds makes the whole call yield an empty transport string;
/// a packet that fails to decode is not an error of the call and is
/// merely skipped by the caller of the reducer.
#[derive(Clone, Copy, Debug, PartialEq, Eq, Structural)]
pub enum WaveformError {
    /// The requested point count was zero, which leaves the bucket
    /// size undefined.
    InvalidPointCount,
    /// The container format of the input bytes could not be identified.
    Unprobeable,
    /// The container held no track recognized as the primary audio track.
    NoDefaultTrack,
    /// No available decoder supports the track's codec parameters.
    DecoderUnsupported,
}

impl WaveformError {
    /// A short diagnostic line for the side-channel log.
    pub fn describe(&self) -> (r: String)
        ensures
            r@ == match *self {
                WaveformError::InvalidPointCount => "requested point count is zero"@,
                WaveformError::Unprobeable => "container format could not be identified"@,
                WaveformError::NoDefaultTrack => "no default audio track found"@,
                WaveformError::DecoderUnsupported => "no decoder supports the track"@,
            },
    {
        match *self {
            WaveformError::InvalidPointCount => String::from_str("requested point count is zero"),
            WaveformError::Unprobeable => String::from_str("container format could not be identified"),
            WaveformError::NoDefaultTrack => String::from_str("no default audio track found"),
            WaveformError::DecoderUnsupported => String::from_str("no decoder supports the track"),
        }
    }
}

} // verus!
