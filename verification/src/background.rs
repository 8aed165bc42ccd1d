//! The session's background image: taken from the cached artifact where
//! there is one, else computed from sample frames.

use vstd::prelude::*;
use crate::img::{bgr_to_rgb, channels_swapped, column_of, mode, mode_of};

verus! {

/// What was read for the background: the cached image, or, where there is
/// none, the sample frames that were found. Both hold their pixels with
/// the blue channel first.
pub enum BackgroundSource {
    Cached(Vec<u8>),
    Samples(Vec<Vec<u8>>),
}

/// A background image with the red channel first. `fresh` says that it was
/// computed from samples and is to be stored as the cached image.
pub struct Background {
    pub image: Vec<u8>,
    pub fresh: bool,
}

/// The image that has at each position the mode of what the samples hold
/// there.
pub open spec fn mode_image(samples: Seq<Vec<u8>>) -> Seq<u8> {
    Seq::new(samples[0]@.len(), |p: int| mode_of(column_of(samples, p)))
}

/// The samples are images of one size.
pub open spec fn same_size(samples: Seq<Vec<u8>>) -> bool {
    forall|i: int| 0 <= i < samples.len() ==> (#[trigger] samples[i])@.len() == samples[0]@.len()
}

/// Makes the background of what was read. A cached image is used as it
/// is; samples yield their mode, which is to be cached. Either way the
/// channels are put in the order red, green, blue. Without a cached image
/// and without samples there is no background.
pub fn fetch_background(source: BackgroundSource) -> (r: Option<Background>)
    requires
        source matches BackgroundSource::Samples(samples) ==> same_size(samples@),
    ensures
        match source {
            BackgroundSource::Cached(cached) => r matches Some(b) && b.image@ == channels_swapped(
                cached@,
            ) && !b.fresh,
            BackgroundSource::Samples(samples) => if samples@.len() == 0 {
                r is None
            } else {
                r matches Some(b) && b.image@ == channels_swapped(mode_image(samples@)) && b.fresh
            },
        },
{
    match source {
        BackgroundSource::Cached(cached) => {
            let mut image = cached;
            bgr_to_rgb(image.as_mut_slice());
            Some(Background { image, fresh: false })
        },
        BackgroundSource::Samples(samples) => {
            match mode(samples.as_slice()) {
                Some(mut image) => {
                    bgr_to_rgb(image.as_mut_slice());
                    Some(Background { image, fresh: true })
                },
                None => None,
            }
        },
    }
}

} // verus!
