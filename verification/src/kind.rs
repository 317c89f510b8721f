//! The enumerated kind of an asset, decoded from the store's raw integer code.

use vstd::prelude::*;

verus! {

/// The kind of an asset. Codes other than the two known ones are kept as
/// `Unknown` with the raw code, so unseen kinds survive a round trip.
#[derive(Debug, Clone, Copy, PartialEq, Eq, Structural)]
pub enum PhotoKind {
    Photo,
    Video,
    Unknown(i32),
}

impl PhotoKind {
    /// Decodes the store's raw kind code: 0 is a photo, 1 is a video, and
    /// every other code is kept verbatim as `Unknown`.
    pub fn from_i32(value: i32) -> (r: Self)
        ensures
            r == PhotoKind::spec_from_i32(value),
    {
        match value {
            0 => Self::Photo,
            1 => Self::Video,
            _ => Self::Unknown(value),
        }
    }

    /// What `from_i32` returns for each raw code.
    pub open spec fn spec_from_i32(value: i32) -> PhotoKind {
        if value == 0 {
            PhotoKind::Photo
        } else if value == 1 {
            PhotoKind::Video
        } else {
            PhotoKind::Unknown(value)
        }
    }
}

} // verus!
