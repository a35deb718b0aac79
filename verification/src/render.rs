//! The sampler: many colour samples for each pixel, averaged and
//! gamma-corrected into the image.

use vstd::prelude::*;
use crate::color::{
    lemma_mean_of_repeated,
    lemma_tally_of,
    Color,
    ColorAverager,
    Tally,
    MAX_SAMPLES,
};
use crate::image::{lemma_index_in_range, Grid};
use crate::ray_image::RayImage;

verus! {

/// `samples` are what the pixel function answered for the pixel at column
/// `x`, row `y`, one for each sample number below `rays`.
pub open spec fn sampled<F: Fn(usize, usize, usize) -> Color>(
    pixel_func: &F,
    x: usize,
    y: usize,
    rays: usize,
    samples: Seq<Color>,
) -> bool {
    &&& samples.len() == rays
    &&& forall|n: int|
        0 <= n < rays ==> pixel_func.ensures((x, y, n as usize), #[trigger] samples[n])
}

/// What becomes of the samples of one pixel: their channel-wise mean,
/// rounded down, gamma-corrected.
pub open spec fn developed(samples: Seq<Color>) -> Color {
    Tally::of(samples).mean().gamma()
}

/// Samples that are all one colour develop into that colour,
/// gamma-corrected: averaging repeats of a sample changes nothing.
pub proof fn lemma_identical_samples(samples: Seq<Color>, color: Color)
    requires
        samples.len() > 0,
        forall|n: int| 0 <= n < samples.len() ==> samples[n] == color,
    ensures
        Tally::of(samples).mean() == color,
        developed(samples) == color.gamma(),
{
    assert(samples =~= Seq::new(samples.len(), |i: int| color));
    lemma_mean_of_repeated(color, samples.len());
}

/// The colour of one pixel: `rays` samples from the pixel function,
/// averaged and gamma-corrected.
pub fn render_pixel<F: Fn(usize, usize, usize) -> Color>(
    x: usize,
    y: usize,
    rays: usize,
    pixel_func: &F,
) -> (color: Color)
    requires
        0 < rays <= MAX_SAMPLES,
        forall|n: usize| n < rays ==> pixel_func.requires((x, y, n)),
    ensures
        exists|samples: Seq<Color>| #[trigger]
            sampled(pixel_func, x, y, rays, samples) && color == developed(samples),
{
    let mut avger = ColorAverager::new();
    let ghost mut samples: Seq<Color> = Seq::empty();
    let mut n: usize = 0;
    while n < rays
        invariant
            n <= rays <= MAX_SAMPLES,
            forall|k: usize| k < rays ==> pixel_func.requires((x, y, k)),
            sampled(pixel_func, x, y, n, samples),
            avger@ == Tally::of(samples),
        decreases rays - n,
    {
        let color = pixel_func(x, y, n);
        proof {
            lemma_tally_of(samples);
        }
        avger.add(color);
        proof {
            let longer = samples.push(color);
            assert(longer.drop_last() =~= samples);
            samples = longer;
        }
        n += 1;
    }
    proof {
        lemma_tally_of(samples);
    }
    let mean = avger.average();
    let color = mean.gamma_corrected();
    assert(sampled(pixel_func, x, y, rays, samples) && color == developed(samples));
    color
}

/// Every place of the image up to `done` places, row after row, holds the
/// developed samples of its pixel.
pub open spec fn rendered_up_to<F: Fn(usize, usize, usize) -> Color>(
    grid: Grid,
    done: int,
    rays: usize,
    pixel_func: &F,
) -> bool {
    forall|x: usize, y: usize|
        x < grid.width && y < grid.height && grid.index(x as int, y as int) < done ==> exists|
            samples: Seq<Color>,
        | #[trigger]
            sampled(pixel_func, x, y, rays, samples) && grid.at(x as int, y as int) == developed(
                samples,
            )
}

/// Renders an image: every pixel holds the developed samples that the
/// pixel function gave for its place.
pub fn build<F: Fn(usize, usize, usize) -> Color>(
    width: usize,
    height: usize,
    rays: usize,
    pixel_func: &F,
) -> (image: RayImage)
    requires
        width * height <= usize::MAX,
        0 < rays <= MAX_SAMPLES,
        forall|x: usize, y: usize, n: usize|
            x < width && y < height && n < rays ==> pixel_func.requires((x, y, n)),
    ensures
        image@.wf(),
        image@.width == width,
        image@.height == height,
        rendered_up_to(image@, width * height, rays, pixel_func),
{
    let mut image = RayImage::new(width, height);
    let mut cursor = image.pixel_mut_iter();
    loop
        invariant
            image@.wf(),
            image@.width == width,
            image@.height == height,
            cursor.width() == width,
            cursor.height() == height,
            cursor.position() <= width * height,
            0 < rays <= MAX_SAMPLES,
            forall|x: usize, y: usize, n: usize|
                x < width && y < height && n < rays ==> pixel_func.requires((x, y, n)),
            rendered_up_to(image@, cursor.position() as int, rays, pixel_func),
        ensures
            cursor.position() >= width * height,
            image@.wf(),
            image@.width == width,
            image@.height == height,
            rendered_up_to(image@, cursor.position() as int, rays, pixel_func),
        decreases width * height - cursor.position(),
    {
        let ghost position = cursor.position() as int;
        let ghost before = image@;
        match cursor.next() {
            None => {
                break ;
            },
            Some((x, y)) => {
                let color = render_pixel(x, y, rays, pixel_func);
                image.set_pixel(x, y, color);
                proof {
                    let after = image@;
                    lemma_index_in_range(before, x as int, y as int);
                    assert forall|px: usize, py: usize|
                        px < after.width && py < after.height && after.index(px as int, py as int)
                            < position + 1 implies exists|samples: Seq<Color>| #[trigger]
                        sampled(pixel_func, px, py, rays, samples) && after.at(
                            px as int,
                            py as int,
                        ) == developed(samples) by {
                        lemma_index_in_range(before, px as int, py as int);
                        if after.index(px as int, py as int) == position {
                            assert(px == x && py == y);
                        } else {
                            assert(after.at(px as int, py as int) == before.at(
                                px as int,
                                py as int,
                            ));
                        }
                    }
                }
            },
        }
    }
    image
}

} // verus!
