//! From a decoded image to the colour samples that clustering works on.

use vstd::prelude::*;
use crate::error::AnalysisError;

verus! {

/// The colour of the `i`-th pixel of a buffer that holds three bytes for each
/// pixel: red, green, blue.
pub open spec fn sample_at(data: Seq<u8>, i: int) -> [u8; 3] {
    [data[3 * i], data[3 * i + 1], data[3 * i + 2]]
}

/// The colour of the pixel in column `x` of row `y`, the rows lying one after
/// the other in the buffer.
pub open spec fn pixel_at(data: Seq<u8>, width: int, x: int, y: int) -> [u8; 3] {
    sample_at(data, y * width + x)
}

/// One sample for each pixel, in the order of the buffer.
pub open spec fn samples_of(data: Seq<u8>) -> Seq<[u8; 3]> {
    Seq::new((data.len() / 3) as nat, |i: int| sample_at(data, i))
}

/// Turns the pixels of an image into samples: one for each pixel, row after
/// row, none left out and none merged.
///
/// Fails with `InputError` where the image has no pixel, or the buffer does
/// not hold three bytes for each of its `width * height` pixels.
pub fn sample_pixels(width: u32, height: u32, data: &Vec<u8>) -> (r: Result<
    Vec<[u8; 3]>,
    AnalysisError,
>)
    ensures
        r is Ok <==> width * height > 0 && data.len() == 3 * (width * height),
        r matches Err(e) ==> e == AnalysisError::InputError,
        r matches Ok(samples) ==> {
            &&& samples@ == samples_of(data@)
            &&& samples.len() == width * height
            &&& forall|x: int, y: int|
                0 <= x < width && 0 <= y < height ==> samples@[y * width + x] == #[trigger] pixel_at(
                    data@,
                    width as int,
                    x,
                    y,
                )
        },
{
    proof {
        assert(width * height <= 0xffff_ffff * 0xffff_ffff) by (nonlinear_arith)
            requires
                0 <= width <= 0xffff_ffff,
                0 <= height <= 0xffff_ffff,
        ;
    }
    let pixels: u64 = (width as u64) * (height as u64);
    if pixels == 0 || (data.len() as u128) != 3 * (pixels as u128) {
        return Err(AnalysisError::InputError);
    }
    let n: usize = data.len() / 3;
    let mut samples: Vec<[u8; 3]> = Vec::new();
    let mut i: usize = 0;
    while i < n
        invariant
            i <= n,
            data.len() == 3 * n,
            samples.len() == i,
            forall|j: int| 0 <= j < i ==> #[trigger] samples@[j] == sample_at(data@, j),
        decreases n - i,
    {
        samples.push([data[3 * i], data[3 * i + 1], data[3 * i + 2]]);
        i += 1;
    }
    proof {
        assert(samples@ =~= samples_of(data@));
        assert forall|x: int, y: int| 0 <= x < width && 0 <= y < height implies samples@[y * width
            + x] == #[trigger] pixel_at(data@, width as int, x, y) by {
            assert(0 <= y * width + x < width * height) by (nonlinear_arith)
                requires
                    0 <= x < width,
                    0 <= y < height,
            ;
        }
    }
    Ok(samples)
}

} // verus!
