//! Capping the resolution of decoded images.
use image::DynamicImage;
use vstd::prelude::*;

verus! {

#[verifier::external_type_specification]
#[verifier::external_body]
pub struct ExDynamicImage(image::DynamicImage);

/// The width in pixels of a decoded image.
pub uninterp spec fn pixel_width(img: DynamicImage) -> u32;

/// The height in pixels of a decoded image.
pub uninterp spec fn pixel_height(img: DynamicImage) -> u32;

/// Relies on `DynamicImage::width`: the width of the underlying buffer.
pub assume_specification[ DynamicImage::width ](img: &DynamicImage) -> (r: u32)
    ensures
        r == pixel_width(*img),
;

/// Relies on `DynamicImage::height`: the height of the underlying buffer.
pub assume_specification[ DynamicImage::height ](img: &DynamicImage) -> (r: u32)
    ensures
        r == pixel_height(*img),
;

/// Relies on `DynamicImage`'s `Clone`: the same variant around a copy of
/// the buffer, with its width, height, colour space and pixel data.
pub assume_specification[ <DynamicImage as Clone>::clone ](img: &DynamicImage) -> (r:
    DynamicImage)
    ensures
        r == *img,
;

/// Relies on `DynamicImage::resize_exact` with the triangle filter: the new
/// image has exactly the dimensions asked for. Only ever asked to shrink.
#[verifier::external_body]
fn resample(img: &DynamicImage, nwidth: u32, nheight: u32) -> (r: DynamicImage)
    requires
        nwidth <= pixel_width(*img),
        nheight <= pixel_height(*img),
    ensures
        pixel_width(r) == nwidth,
        pixel_height(r) == nheight,
{
    img.resize_exact(nwidth, nheight, image::imageops::FilterType::Triangle)
}

/// Scaling by the width's ratio `cw / w` is the smaller (or only finite)
/// of the two ratios.
pub open spec fn scale_by_width(w: int, h: int, cw: int, ch: int) -> bool {
    w > 0 && (h == 0 || cw * h <= ch * w)
}

/// The size an image of `w` by `h` is stored at under a cap of `cw` by
/// `ch`: unchanged when it fits, else both sides scaled by
/// `min(cw / w, ch / h)` and truncated.
pub open spec fn fitted_size(w: u32, h: u32, cw: u32, ch: u32) -> (u32, u32) {
    if w <= cw && h <= ch {
        (w, h)
    } else if scale_by_width(w as int, h as int, cw as int, ch as int) {
        (cw, ((h as int * cw as int) / w as int) as u32)
    } else {
        (((w as int * ch as int) / h as int) as u32, ch)
    }
}

/// The size to store an image of `w` by `h` at under a cap of `cw` by `ch`.
pub fn fit_within(w: u32, h: u32, cw: u32, ch: u32) -> (r: (u32, u32))
    ensures
        r == fitted_size(w, h, cw, ch),
        r.0 <= w,
        r.1 <= h,
        r.0 <= cw || r.0 == w,
        r.1 <= ch || r.1 == h,
        !(w <= cw && h <= ch) ==> r.0 <= cw && r.1 <= ch,
{
    if w <= cw && h <= ch {
        return (w, h);
    }
    let w64 = w as u64;
    let h64 = h as u64;
    let cw64 = cw as u64;
    let ch64 = ch as u64;
    assert(cw64 * h64 <= u32::MAX * u32::MAX) by (nonlinear_arith)
        requires
            cw64 <= u32::MAX,
            h64 <= u32::MAX,
    ;
    assert(ch64 * w64 <= u32::MAX * u32::MAX) by (nonlinear_arith)
        requires
            ch64 <= u32::MAX,
            w64 <= u32::MAX,
    ;
    if w > 0 && (h == 0 || cw64 * h64 <= ch64 * w64) {
        // then cw < w, and the height shrinks no more than the width
        assert(cw64 < w64) by (nonlinear_arith)
            requires
                w64 > 0,
                h64 == 0 || cw64 * h64 <= ch64 * w64,
                w64 > cw64 || h64 > ch64,
        ;
        let nh = (h64 * cw64) / w64;
        assert(nh <= h64 && nh <= ch64) by (nonlinear_arith)
            requires
                nh as int == (h64 as int * cw64 as int) / (w64 as int),
                w64 > 0,
                cw64 < w64,
                h64 == 0 || cw64 * h64 <= ch64 * w64,
        ;
        (cw, nh as u32)
    } else {
        assert(h64 > ch64) by (nonlinear_arith)
            requires
                !(w64 > 0 && (h64 == 0 || cw64 * h64 <= ch64 * w64)),
                w64 > cw64 || h64 > ch64,
        ;
        let nw = (w64 * ch64) / h64;
        assert(nw <= w64 && nw <= cw64) by (nonlinear_arith)
            requires
                nw as int == (w64 as int * ch64 as int) / (h64 as int),
                h64 > ch64,
                w64 == 0 || cw64 * h64 > ch64 * w64,
        ;
        (nw as u32, ch)
    }
}

/// Caps an image at `max_width` by `max_height`, keeping its aspect ratio:
/// an image that fits is returned as it is, a larger one is scaled down by
/// the smaller of the two ratios with a triangle filter.
pub fn resize_to_limit(img: &DynamicImage, max_width: u32, max_height: u32) -> (r: DynamicImage)
    ensures
        pixel_width(*img) <= max_width && pixel_height(*img) <= max_height ==> r == *img,
        (pixel_width(r), pixel_height(r)) == fitted_size(
            pixel_width(*img),
            pixel_height(*img),
            max_width,
            max_height,
        ),
{
    let width = img.width();
    let height = img.height();
    if width <= max_width && height <= max_height {
        return img.clone();
    }
    let (nw, nh) = fit_within(width, height, max_width, max_height);
    resample(img, nw, nh)
}

} // verus!
