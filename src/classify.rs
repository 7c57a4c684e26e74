use vstd::prelude::*;

verus! {

/// The pixels of a frame: `width * height` pixels, row by row, four bytes
/// each (red, green, blue, alpha).
pub struct PixelBuffer {
    pub width: u32,
    pub height: u32,
    pub rgba: Vec<u8>,
}

impl PixelBuffer {
    pub open spec fn pixel_count(&self) -> int {
        self.width * self.height
    }

    pub open spec fn wf(&self) -> bool {
        self.rgba@.len() == 4 * self.pixel_count()
    }
}

/// Channel values below this are dark.
pub const BLACK_BELOW: u8 = 20;

/// Channel values above this are bright.
pub const WHITE_ABOVE: u8 = 220;

pub open spec fn is_black(s: Seq<u8>, i: int) -> bool {
    s[4 * i] < BLACK_BELOW && s[4 * i + 1] < BLACK_BELOW && s[4 * i + 2] < BLACK_BELOW
}

pub open spec fn is_white(s: Seq<u8>, i: int) -> bool {
    s[4 * i] > WHITE_ABOVE && s[4 * i + 1] > WHITE_ABOVE && s[4 * i + 2] > WHITE_ABOVE
}

pub open spec fn is_grey(s: Seq<u8>, i: int) -> bool {
    s[4 * i] == s[4 * i + 1] && s[4 * i + 1] == s[4 * i + 2]
}

/// A pixel that is neither black, white nor grey.
pub open spec fn is_noisy(s: Seq<u8>, i: int) -> bool {
    !is_black(s, i) && !is_white(s, i) && !is_grey(s, i)
}

/// Number of noisy pixels among the first `n`.
pub open spec fn noisy_count(s: Seq<u8>, n: int) -> nat
    decreases n,
{
    if n <= 0 {
        0
    } else {
        noisy_count(s, n - 1) + if is_noisy(s, n - 1) {
            1nat
        } else {
            0nat
        }
    }
}

/// A frame of `n` pixels shows the marker: at most one pixel in a hundred is
/// noisy, and at least one pixel is not black.
pub open spec fn is_marker(s: Seq<u8>, n: int) -> bool {
    &&& noisy_count(s, n) * 100 <= n
    &&& exists|i: int| 0 <= i < n && !is_black(s, i)
}

proof fn lemma_noisy_count_monotone(s: Seq<u8>, k: int, m: int)
    requires
        0 <= k <= m,
    ensures
        noisy_count(s, k) <= noisy_count(s, m),
    decreases m - k,
{
    if k < m {
        lemma_noisy_count_monotone(s, k, m - 1);
    }
}

/// Whether the frame shows the marker. Stops at the first noisy pixel over
/// the bound of one in a hundred.
pub fn frame_is_marker(img: &PixelBuffer) -> (r: bool)
    requires
        img.wf(),
    ensures
        r == is_marker(img.rgba@, img.pixel_count()),
{
    let ghost s = img.rgba@;
    let total: usize = img.rgba.len() / 4;
    let limit: usize = total / 100;
    assert(s.len() == 4 * total);
    let mut noisy: usize = 0;
    let mut i: usize = 0;
    while i < total
        invariant
            s == img.rgba@,
            s.len() == 4 * total,
            s.len() <= usize::MAX,
            total == img.pixel_count(),
            limit == total / 100,
            i <= total,
            noisy == noisy_count(s, i as int),
            noisy <= limit,
        decreases total - i,
    {
        let p = 4 * i;
        let r = img.rgba[p];
        let g = img.rgba[p + 1];
        let b = img.rgba[p + 2];
        let black = r < BLACK_BELOW && g < BLACK_BELOW && b < BLACK_BELOW;
        let white = r > WHITE_ABOVE && g > WHITE_ABOVE && b > WHITE_ABOVE;
        let grey = r == g && g == b;
        assert(black == is_black(s, i as int));
        assert(white == is_white(s, i as int));
        assert(grey == is_grey(s, i as int));
        if !black && !white && !grey {
            noisy = noisy + 1;
            if noisy > limit {
                proof {
                    lemma_noisy_count_monotone(s, i + 1, total as int);
                    assert(noisy * 100 > total) by (nonlinear_arith)
                        requires
                            noisy > limit,
                            limit == total / 100,
                    ;
                }
                return false;
            }
        }
        i = i + 1;
    }
    assert(noisy * 100 <= total) by (nonlinear_arith)
        requires
            noisy <= limit,
            limit == total / 100,
    ;
    let mut j: usize = 0;
    while j < total
        invariant
            s == img.rgba@,
            s.len() == 4 * total,
            s.len() <= usize::MAX,
            total == img.pixel_count(),
            j <= total,
            noisy_count(s, total as int) * 100 <= total,
            forall|k: int| 0 <= k < j ==> #[trigger] is_black(s, k),
        decreases total - j,
    {
        let p = 4 * j;
        let black = img.rgba[p] < BLACK_BELOW && img.rgba[p + 1] < BLACK_BELOW && img.rgba[p + 2]
            < BLACK_BELOW;
        if !black {
            assert(!is_black(s, j as int));
            return true;
        }
        j = j + 1;
    }
    false
}

#[verifier::external_type_specification]
#[verifier::external_body]
pub struct ExDynamicImage(image::DynamicImage);

/// The bytes of an image converted to 8-bit RGBA, four per pixel, row by row.
pub uninterp spec fn rgba_of(img: image::DynamicImage) -> Seq<u8>;

/// Relies on image's `DynamicImage::to_rgba8`, which converts each pixel to
/// 8-bit RGBA into an `ImageBuffer` of the image's size (the conversion
/// depends on the image alone), and on that buffer's `dimensions` and
/// `into_raw`: the raw data holds four bytes per pixel.
#[verifier::external_body]
fn rgba_pixels(img: &image::DynamicImage) -> (r: PixelBuffer)
    ensures
        r.wf(),
        r.rgba@ == rgba_of(*img),
{
    let buf = img.to_rgba8();
    let (width, height) = buf.dimensions();
    PixelBuffer { width, height, rgba: buf.into_raw() }
}

/// Whether a decoded image shows the marker, judged on its pixels in 8-bit
/// RGBA as `frame_is_marker` does.
pub fn image_is_mictest(img: image::DynamicImage) -> (r: bool)
    ensures
        r == is_marker(rgba_of(img), (rgba_of(img).len() / 4) as int),
{
    let pixels = rgba_pixels(&img);
    assert(pixels.pixel_count() == rgba_of(img).len() / 4);
    frame_is_marker(&pixels)
}

} // verus!
