//! Display thumbnails: decoding, fitting into a bounding square without
//! ever enlarging, and conversion to premultiplied 8-bit RGBA.
use vstd::arithmetic::div_mod::{lemma_fundamental_div_mod, lemma_mod_bound};
use vstd::prelude::*;

verus! {

/// The side of the square that every thumbnail fits in.
pub const THUMBNAIL_MAX: u32 = 80;

/// The most pixels a decoded image can have: the decoder refuses any
/// image whose buffer would take more than 512 MiB, at least one byte a
/// pixel.
pub const MAX_DECODED_PIXELS: u64 = 512 * 1024 * 1024;

/// An 8-bit RGBA image, rows top to bottom, four bytes per pixel.
pub struct Bitmap {
    pub width: u32,
    pub height: u32,
    pub rgba: Vec<u8>,
}

impl Bitmap {
    /// The buffer holds exactly four bytes for each pixel.
    pub open spec fn wf(&self) -> bool {
        self.rgba@.len() == 4 * self.width * self.height
    }
}

impl View for Bitmap {
    type V = (u32, u32, Seq<u8>);

    /// Width, height and pixel bytes.
    open spec fn view(&self) -> (u32, u32, Seq<u8>) {
        (self.width, self.height, self.rgba@)
    }
}

/// What the image decoder makes of `bytes`: width, height and straight
/// (not premultiplied) RGBA pixels, or `None` where the bytes are not an
/// image it can read.
pub uninterp spec fn decoded_rgba(bytes: Seq<u8>) -> Option<(u32, u32, Seq<u8>)>;

/// The pixels of the RGBA image `rgba` (of `width` by `height`) resampled
/// to `new_width` by `new_height`.
pub uninterp spec fn thumbnail_pixels(
    rgba: Seq<u8>,
    width: u32,
    height: u32,
    new_width: u32,
    new_height: u32,
) -> Seq<u8>;

/// `x / d` rounded to the nearest integer, halves upward.
pub open spec fn div_round(x: nat, d: nat) -> nat
    recommends
        d > 0,
{
    (2 * x + d) / (2 * d)
}

/// The size that a `width` by `height` image is shown at: unchanged when it
/// already fits in a `bound` square; otherwise the longer side becomes
/// `bound` and the shorter one is scaled in proportion, rounded, and at
/// least one pixel.
pub open spec fn fit_dims(width: u32, height: u32, bound: u32) -> (u32, u32) {
    if width <= bound && height <= bound {
        (width, height)
    } else if width >= height {
        let s = div_round(height as nat * bound as nat, width as nat);
        (bound, if s == 0 { 1u32 } else { s as u32 })
    } else {
        let s = div_round(width as nat * bound as nat, height as nat);
        (if s == 0 { 1u32 } else { s as u32 }, bound)
    }
}

/// One colour channel `c` scaled by alpha `a`, rounded to nearest.
pub open spec fn premul_channel(c: u8, a: u8) -> u8 {
    ((c as nat * a as nat + 127) / 255) as u8
}

/// `px` with each pixel's colour channels multiplied by its alpha; alpha
/// bytes, and the bytes of an incomplete trailing pixel, are kept.
pub open spec fn premultiplied(px: Seq<u8>) -> Seq<u8> {
    Seq::new(
        px.len(),
        |i: int|
            if i % 4 == 3 || i - i % 4 + 3 >= px.len() {
                px[i]
            } else {
                premul_channel(px[i], px[i - i % 4 + 3])
            },
    )
}

proof fn lemma_scaled_side(long: nat, short: nat, bound: nat)
    requires
        short <= long,
        bound < long,
    ensures
        div_round(short * bound, long) <= bound,
        div_round(short * bound, long) <= short,
        2 * long * div_round(short * bound, long) <= 2 * short * bound + long,
        2 * short * bound < 2 * long * div_round(short * bound, long) + long,
{
    let x = 2 * (short * bound) + long;
    let d = 2 * long;
    let q = x / d;
    lemma_fundamental_div_mod(x as int, d as int);
    lemma_mod_bound(x as int, d as int);
    assert(d * q == 2 * long * q) by (nonlinear_arith)
        requires
            d == 2 * long,
    ;
    assert(short * bound <= long * bound) by (nonlinear_arith)
        requires
            short <= long,
    ;
    assert(short * bound <= short * long) by (nonlinear_arith)
        requires
            bound <= long,
    ;
    assert(2 * short * bound == 2 * (short * bound)) by (nonlinear_arith);
    if q > bound {
        assert(d * q >= d * (bound + 1)) by (nonlinear_arith)
            requires
                q >= bound + 1,
        ;
        assert(d * (bound + 1) == 2 * (long * bound) + 2 * long) by (nonlinear_arith)
            requires
                d == 2 * long,
        ;
    }
    if q > short {
        assert(d * q >= d * (short + 1)) by (nonlinear_arith)
            requires
                q >= short + 1,
        ;
        assert(d * (short + 1) == 2 * (short * long) + 2 * long) by (nonlinear_arith)
            requires
                d == 2 * long,
        ;
    }
}

/// Both sides of a fitted size lie within the bound.
proof fn lemma_fit_within(w: u32, h: u32, b: u32)
    requires
        b >= 1,
    ensures
        fit_dims(w, h, b).0 <= b,
        fit_dims(w, h, b).1 <= b,
{
    if w <= b && h <= b {
    } else if w >= h {
        lemma_scaled_side(w as nat, h as nat, b as nat);
    } else {
        lemma_scaled_side(h as nat, w as nat, b as nat);
    }
}

/// `short * bound / long`, rounded, computed without overflow.
fn scaled_side(long: u32, short: u32, bound: u32) -> (r: u32)
    requires
        short <= long,
        bound < long,
    ensures
        r == div_round(short as nat * bound as nat, long as nat),
{
    proof {
        lemma_scaled_side(long as nat, short as nat, bound as nat);
    }
    assert(short as int * bound as int <= 0xffff_ffff * 0xffff_ffff) by (nonlinear_arith)
        requires
            short <= 0xffff_ffff,
            bound <= 0xffff_ffff,
    ;
    let p: u128 = (short as u128) * (bound as u128);
    let q: u128 = (2 * p + long as u128) / (2 * long as u128);
    q as u32
}

/// The size a `width` by `height` image is shown at within a `bound`
/// square.
pub fn thumbnail_size(width: u32, height: u32, bound: u32) -> (r: (u32, u32))
    ensures
        r == fit_dims(width, height, bound),
{
    if width <= bound && height <= bound {
        (width, height)
    } else if width >= height {
        let s = scaled_side(width, height, bound);
        (bound, if s == 0 { 1 } else { s })
    } else {
        let s = scaled_side(height, width, bound);
        (if s == 0 { 1 } else { s }, bound)
    }
}

/// A thumbnail never exceeds the bounding square, is never larger than the
/// image, has no empty side, and keeps the image's proportions to within
/// one pixel: `width * h` and `height * w` differ by at most the longer
/// original side.
pub proof fn lemma_thumbnail_bound(w: u32, h: u32)
    requires
        w >= 1,
        h >= 1,
    ensures
        ({
            let (tw, th) = fit_dims(w, h, THUMBNAIL_MAX);
            &&& 1 <= tw <= THUMBNAIL_MAX
            &&& 1 <= th <= THUMBNAIL_MAX
            &&& tw <= w
            &&& th <= h
            &&& -(if w >= h { w as int } else { h as int }) <= tw as int * h as int - th as int
                * w as int <= (if w >= h { w as int } else { h as int })
        }),
{
    let b = THUMBNAIL_MAX;
    let (tw, th) = fit_dims(w, h, b);
    if w <= b && h <= b {
        assert(w as int * h as int == h as int * w as int) by (nonlinear_arith);
    } else if w >= h {
        lemma_scaled_side(w as nat, h as nat, b as nat);
        let s = div_round(h as nat * b as nat, w as nat);
        assert(2 * w * s == 2 * (s as int * w as int)) by (nonlinear_arith);
        assert(2 * h * b == 2 * (b as int * h as int)) by (nonlinear_arith);
        assert(b as int * h as int >= 0) by (nonlinear_arith);
        assert(tw == b);
        assert(th as int == if s == 0 { 1 } else { s as int });
    } else {
        lemma_scaled_side(h as nat, w as nat, b as nat);
        let s = div_round(w as nat * b as nat, h as nat);
        assert(2 * h * s == 2 * (s as int * h as int)) by (nonlinear_arith);
        assert(2 * w * b == 2 * (b as int * w as int)) by (nonlinear_arith);
        assert(b as int * w as int >= 0) by (nonlinear_arith);
        assert(th == b);
        assert(tw as int == if s == 0 { 1 } else { s as int });
    }
}

/// `px` with the colour channels of each pixel multiplied by its alpha.
pub fn premultiply(px: &Vec<u8>) -> (r: Vec<u8>)
    ensures
        r@ == premultiplied(px@),
{
    let n = px.len();
    let mut out: Vec<u8> = Vec::with_capacity(n);
    let mut i: usize = 0;
    while i < n
        invariant
            n == px@.len(),
            i <= n,
            out@ == premultiplied(px@).subrange(0, i as int),
        decreases n - i,
    {
        let alpha_at = i - i % 4 + 3;
        let v: u8 = if i % 4 == 3 || alpha_at >= n {
            px[i]
        } else {
            let c = px[i] as u32;
            let a = px[alpha_at] as u32;
            assert(c * a <= 255 * 255) by (nonlinear_arith)
                requires
                    c <= 255,
                    a <= 255,
            ;
            ((c * a + 127) / 255) as u8
        };
        out.push(v);
        assert(out@ =~= premultiplied(px@).subrange(0, i + 1));
        i = i + 1;
    }
    assert(out@ =~= premultiplied(px@));
    out
}

/// Relies on `image::load_from_memory`, which guesses the format from the
/// bytes themselves and decodes them under the reader's default limits (at
/// most 512 MiB for the decoded buffer), and on `DynamicImage::to_rgba8`, whose
/// buffer holds four bytes per pixel.
#[verifier::external_body]
fn decode_rgba(bytes: &[u8]) -> (r: Option<Bitmap>)
    ensures
        r is Some <==> decoded_rgba(bytes@) is Some,
        r matches Some(b) ==> decoded_rgba(bytes@) == Some((b.width, b.height, b.rgba@)) && b.wf()
            && b.width * b.height <= MAX_DECODED_PIXELS,
{
    match image::load_from_memory(bytes) {
        Ok(img) => {
            let rgba = img.to_rgba8();
            Some(Bitmap { width: rgba.width(), height: rgba.height(), rgba: rgba.into_raw() })
        },
        Err(_) => None,
    }
}

/// Relies on `image::imageops::thumbnail`, whose output is exactly
/// `new_width` by `new_height` pixels, and on `ImageBuffer::from_raw`, which
/// accepts a buffer of four bytes per pixel as it is. The resampler adds up
/// each output pixel's source block in `u32` sums: the bound on the source
/// size together with a fitted output size keeps every block far below the
/// size at which those sums would overflow.
#[verifier::external_body]
fn resample(src: &Bitmap, new_width: u32, new_height: u32) -> (r: Bitmap)
    requires
        src.wf(),
        src.width * src.height <= MAX_DECODED_PIXELS,
        (new_width, new_height) == fit_dims(src.width, src.height, THUMBNAIL_MAX),
        4 * new_width * new_height <= usize::MAX,
    ensures
        r.width == new_width,
        r.height == new_height,
        r.wf(),
        r.rgba@ == thumbnail_pixels(src.rgba@, src.width, src.height, new_width, new_height),
{
    let img = image::RgbaImage::from_raw(src.width, src.height, src.rgba.clone()).unwrap();
    let out = image::imageops::thumbnail(&img, new_width, new_height);
    Bitmap { width: out.width(), height: out.height(), rgba: out.into_raw() }
}

/// The display thumbnail of a decoded image: fitted into the thumbnail
/// square (resampled only where it does not fit already) and premultiplied.
pub fn shrink_to_thumbnail(src: Bitmap) -> (r: Bitmap)
    requires
        src.wf(),
        src.width * src.height <= MAX_DECODED_PIXELS,
    ensures
        r.wf(),
        (r.width, r.height) == fit_dims(src.width, src.height, THUMBNAIL_MAX),
        r.rgba@ == premultiplied(
            if (r.width, r.height) == (src.width, src.height) {
                src.rgba@
            } else {
                thumbnail_pixels(src.rgba@, src.width, src.height, r.width, r.height)
            },
        ),
{
    let (w, h) = thumbnail_size(src.width, src.height, THUMBNAIL_MAX);
    if w == src.width && h == src.height {
        let rgba = premultiply(&src.rgba);
        Bitmap { width: w, height: h, rgba }
    } else {
        proof {
            lemma_fit_within(src.width, src.height, THUMBNAIL_MAX);
            assert(4 * w * h <= 4 * 80 * 80) by (nonlinear_arith)
                requires
                    w <= 80,
                    h <= 80,
            ;
        }
        let small = resample(&src, w, h);
        let rgba = premultiply(&small.rgba);
        Bitmap { width: w, height: h, rgba }
    }
}

/// Decodes `bytes` and makes its display thumbnail; `None` where the bytes
/// are not a readable image.
pub fn generate_thumbnail(bytes: &[u8]) -> (r: Option<Bitmap>)
    ensures
        r is Some <==> decoded_rgba(bytes@) is Some,
        r matches Some(t) ==> {
            let (w, h, px) = decoded_rgba(bytes@)->0;
            &&& t.wf()
            &&& (t.width, t.height) == fit_dims(w, h, THUMBNAIL_MAX)
            &&& t.rgba@ == premultiplied(
                if (t.width, t.height) == (w, h) {
                    px
                } else {
                    thumbnail_pixels(px, w, h, t.width, t.height)
                },
            )
        },
{
    match decode_rgba(bytes) {
        Some(decoded) => Some(shrink_to_thumbnail(decoded)),
        None => None,
    }
}

} // verus!
