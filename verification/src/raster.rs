//! Raster images. `C` is the type of a pixel: [`Rgba8`] as decoded, or whatever
//! a caller works in.

use crate::color::Rgba8;
use crate::pure::{call1, call2, pure1, pure2, value1, value2};
use crate::text::{decimal, lowercase, push_natural, push_text};
use vstd::prelude::*;

verus! {

/// A row-major grid of pixels.
#[derive(Clone, Debug)]
pub struct Raster<C> {
    pub width: u32,
    pub height: u32,
    /// `width * height` entries.
    pub data: Vec<C>,
}

/// Why pixels could not be had.
#[derive(Clone, Copy, Debug, PartialEq, Eq, Structural)]
pub enum RasterError {
    /// The bytes are no image that can be decoded.
    Undecodable,
    /// A buffer of `len` bytes is too small for `width` by `height` pixels.
    TooSmall { len: usize, width: u32, height: u32 },
    /// The SVG source does not parse.
    BadSvg,
    /// No canvas of this size can be had.
    NoCanvas { width: u32, height: u32 },
}

/// The bytes that `width` by `height` pixels take.
pub open spec fn bytes_needed(width: u32, height: u32) -> nat {
    (width * height * 4) as nat
}

pub open spec fn error_text(e: RasterError) -> Seq<char> {
    match e {
        RasterError::Undecodable => "decoding image from memory"@,
        RasterError::TooSmall { len, width, height } => "buffer too small: "@ + decimal(len as nat)
            + " bytes for "@ + decimal(width as nat) + "x"@ + decimal(height as nat)
            + " image (need "@ + decimal(bytes_needed(width, height)) + ")"@,
        RasterError::BadSvg => "parsing generated SVG"@,
        RasterError::NoCanvas { width, height } => "cannot allocate a "@ + decimal(width as nat)
            + "x"@ + decimal(height as nat) + " pixmap"@,
    }
}

impl RasterError {
    /// The error as a sentence.
    pub fn message(&self) -> (s: String)
        ensures
            s@ == error_text(*self),
    {
        let mut s: String = String::new();
        match *self {
            RasterError::Undecodable => {
                push_text(&mut s, "decoding image from memory");
            },
            RasterError::TooSmall { len, width, height } => {
                push_text(&mut s, "buffer too small: ");
                push_natural(&mut s, len as u128);
                push_text(&mut s, " bytes for ");
                push_natural(&mut s, width as u128);
                push_text(&mut s, "x");
                push_natural(&mut s, height as u128);
                push_text(&mut s, " image (need ");
                push_natural(&mut s, needed(width, height));
                push_text(&mut s, ")");
            },
            RasterError::BadSvg => {
                push_text(&mut s, "parsing generated SVG");
            },
            RasterError::NoCanvas { width, height } => {
                push_text(&mut s, "cannot allocate a ");
                push_natural(&mut s, width as u128);
                push_text(&mut s, "x");
                push_natural(&mut s, height as u128);
                push_text(&mut s, " pixmap");
            },
        }
        assert(s@ =~= error_text(*self));
        s
    }
}

fn needed(width: u32, height: u32) -> (n: u128)
    ensures
        n == bytes_needed(width, height),
{
    assert(0 <= width * height <= 0xffff_ffff * 0xffff_ffff) by (nonlinear_arith)
        requires
            0 <= width <= 0xffff_ffff,
            0 <= height <= 0xffff_ffff,
    ;
    width as u128 * height as u128 * 4
}

// ---- Pixel access -------------------------------------------------------

impl<C> Raster<C> {
    pub open spec fn wf(&self) -> bool {
        self.data@.len() == self.width * self.height
    }

    pub open spec fn index(&self, x: int, y: int) -> int {
        y * self.width + x
    }

    /// The pixel that index arithmetic gives for column `x` of row `y`.
    pub open spec fn pixel(&self, x: int, y: int) -> C {
        self.data@[self.index(x, y)]
    }
}

/// `v` moved into `0..=hi`.
pub open spec fn clamped(v: int, hi: int) -> int {
    if v < 0 {
        0
    } else if v > hi {
        hi
    } else {
        v
    }
}

/// Cells of a grid have distinct indices below its size.
pub proof fn lemma_cell(x: int, y: int, w: int, h: int)
    requires
        0 <= x < w,
        0 <= y < h,
    ensures
        0 <= y * w + x < w * h,
{
    assert(0 <= y * w + x < w * h) by (nonlinear_arith)
        requires
            0 <= x < w,
            0 <= y < h,
    ;
}

impl<C: Copy> Raster<C> {
    /// An image with every pixel set to `fill`.
    pub fn new(width: u32, height: u32, fill: C) -> (r: Raster<C>)
        requires
            width * height <= usize::MAX,
        ensures
            r.wf(),
            r.width == width,
            r.height == height,
            forall|i: int| 0 <= i < r.data@.len() ==> #[trigger] r.data@[i] == fill,
    {
        assert(0 <= width * height) by (nonlinear_arith)
            requires
                0 <= width,
                0 <= height,
        ;
        assert(width * height <= 0xffff_ffff * 0xffff_ffff) by (nonlinear_arith)
            requires
                0 <= width <= 0xffff_ffff,
                0 <= height <= 0xffff_ffff,
        ;
        let n: usize = (width as u64 * height as u64) as usize;
        let mut data: Vec<C> = Vec::new();
        while data.len() < n
            invariant
                data@.len() <= n,
                forall|i: int| 0 <= i < data@.len() ==> #[trigger] data@[i] == fill,
            decreases n - data@.len(),
        {
            data.push(fill);
        }
        Raster { width, height, data }
    }

    pub fn idx(&self, x: u32, y: u32) -> (i: usize)
        requires
            self.index(x as int, y as int) <= usize::MAX,
        ensures
            i == self.index(x as int, y as int),
    {
        assert(0 <= y * self.width <= 0xffff_ffff * 0xffff_ffff) by (nonlinear_arith)
            requires
                0 <= y <= 0xffff_ffff,
                0 <= self.width <= 0xffff_ffff,
        ;
        (y as u64 * self.width as u64 + x as u64) as usize
    }

    pub fn get(&self, x: u32, y: u32) -> (c: C)
        requires
            self.index(x as int, y as int) < self.data@.len(),
        ensures
            c == self.pixel(x as int, y as int),
    {
        proof {
            assert(0 <= y * self.width) by (nonlinear_arith)
                requires
                    0 <= y,
                    0 <= self.width,
            ;
        }
        let n: usize = self.data.len();
        let i: usize = self.idx(x, y);
        assert(i < n);
        self.data[i]
    }

    pub fn set(&mut self, x: u32, y: u32, c: C)
        requires
            old(self).index(x as int, y as int) < old(self).data@.len(),
        ensures
            final(self).width == old(self).width,
            final(self).height == old(self).height,
            final(self).data@ == old(self).data@.update(old(self).index(x as int, y as int), c),
            old(self).wf() ==> final(self).wf(),
    {
        proof {
            assert(0 <= y * self.width) by (nonlinear_arith)
                requires
                    0 <= y,
                    0 <= self.width,
            ;
        }
        let n: usize = self.data.len();
        let i: usize = self.idx(x, y);
        assert(i < n);
        self.data.set(i, c);
    }

    /// Fetch with edge clamping, taking signed coordinates.
    pub fn get_clamped(&self, x: i64, y: i64) -> (c: C)
        requires
            self.wf(),
            self.width > 0,
            self.height > 0,
        ensures
            c == self.pixel(clamped(x as int, self.width - 1), clamped(y as int, self.height - 1)),
    {
        let wide: i64 = self.width as i64 - 1;
        let high: i64 = self.height as i64 - 1;
        let cx: i64 = if x < 0 {
            0
        } else if x > wide {
            wide
        } else {
            x
        };
        let cy: i64 = if y < 0 {
            0
        } else if y > high {
            high
        } else {
            y
        };
        proof {
            lemma_cell(cx as int, cy as int, self.width as int, self.height as int);
        }
        self.get(cx as u32, cy as u32)
    }

    /// Whether any pixel is one that `clear` calls not opaque.
    pub fn has_alpha<F: Fn(C) -> bool>(&self, clear: &F) -> (b: bool)
        requires
            pure1(*clear),
        ensures
            b == exists|k: int| 0 <= k < self.data@.len() && value1(*clear, #[trigger] self.data@[k]),
    {
        let mut i: usize = 0;
        while i < self.data.len()
            invariant
                pure1(*clear),
                i <= self.data@.len(),
                forall|k: int| 0 <= k < i ==> !value1(*clear, #[trigger] self.data@[k]),
            decreases self.data@.len() - i,
        {
            if call1(clear, self.data[i]) {
                assert(value1(*clear, self.data@[i as int]));
                return true;
            }
            i = i + 1;
        }
        false
    }

    pub fn pixel_count(&self) -> (n: usize)
        ensures
            n == self.data@.len(),
    {
        self.data.len()
    }
}

// ---- Bytes --------------------------------------------------------------

/// Pixel `i` of straight-alpha RGBA bytes.
pub open spec fn rgba_at(bytes: Seq<u8>, i: int) -> Rgba8 {
    Rgba8 {
        r: bytes[4 * i],
        g: bytes[4 * i + 1],
        b: bytes[4 * i + 2],
        a: bytes[4 * i + 3],
    }
}

/// The first `n` pixels of straight-alpha RGBA bytes.
pub open spec fn rgba_pixels(bytes: Seq<u8>, n: nat) -> Seq<Rgba8> {
    Seq::new(n, |i: int| rgba_at(bytes, i))
}

/// The channels of pixels as bytes.
pub open spec fn rgba_bytes(pixels: Seq<Rgba8>) -> Seq<u8> {
    Seq::new(
        4 * pixels.len(),
        |k: int|
            if k % 4 == 0 {
                pixels[k / 4].r
            } else if k % 4 == 1 {
                pixels[k / 4].g
            } else if k % 4 == 2 {
                pixels[k / 4].b
            } else {
                pixels[k / 4].a
            },
    )
}

impl Raster<Rgba8> {
    /// The image in `bytes`, row by row. Bytes past the last pixel are ignored;
    /// too few are an error.
    pub fn from_rgba8(width: u32, height: u32, bytes: &[u8]) -> (r: Result<
        Raster<Rgba8>,
        RasterError,
    >)
        ensures
            r is Ok <==> bytes@.len() >= bytes_needed(width, height),
            r is Err ==> r->Err_0 == (RasterError::TooSmall {
                len: bytes@.len() as usize,
                width,
                height,
            }),
            r matches Ok(img) ==> {
                &&& img.wf()
                &&& img.width == width
                &&& img.height == height
                &&& img.data@ == rgba_pixels(bytes@, (width * height) as nat)
            },
    {
        let len: usize = bytes.len();
        if (len as u128) < needed(width, height) {
            return Err(RasterError::TooSmall { len, width, height });
        }
        assert(0 <= width * height) by (nonlinear_arith)
            requires
                0 <= width,
                0 <= height,
        ;
        let n: usize = (width as u128 * height as u128) as usize;
        let mut data: Vec<Rgba8> = Vec::new();
        let mut i: usize = 0;
        while i < n
            invariant
                i <= n,
                4 * n <= len,
                len == bytes@.len(),
                data@.len() == i,
                forall|k: int| 0 <= k < i ==> #[trigger] data@[k] == rgba_at(bytes@, k),
            decreases n - i,
        {
            data.push(
                Rgba8 {
                    r: bytes[4 * i],
                    g: bytes[4 * i + 1],
                    b: bytes[4 * i + 2],
                    a: bytes[4 * i + 3],
                },
            );
            i = i + 1;
        }
        assert(data@ =~= rgba_pixels(bytes@, (width * height) as nat));
        Ok(Raster { width, height, data })
    }

    /// The pixels as straight-alpha RGBA bytes, row by row.
    pub fn to_rgba8_bytes(&self) -> (out: Vec<u8>)
        ensures
            out@ == rgba_bytes(self.data@),
    {
        let mut out: Vec<u8> = Vec::new();
        let mut i: usize = 0;
        while i < self.data.len()
            invariant
                i <= self.data@.len(),
                out@.len() == 4 * i,
                forall|k: int| 0 <= k < 4 * i ==> #[trigger] out@[k] == rgba_bytes(self.data@)[k],
            decreases self.data@.len() - i,
        {
            let c: Rgba8 = self.data[i];
            out.push(c.r);
            out.push(c.g);
            out.push(c.b);
            out.push(c.a);
            i = i + 1;
        }
        assert(out@ =~= rgba_bytes(self.data@));
        out
    }

    /// The colour of one pixel.
    pub fn pixel_rgba8(&self, x: u32, y: u32) -> (c: Rgba8)
        requires
            self.index(x as int, y as int) < self.data@.len(),
        ensures
            c == self.pixel(x as int, y as int),
    {
        self.get(x, y)
    }

    /// Decode any raster format the `image` crate supports. Format is detected
    /// from content.
    pub fn from_bytes(bytes: &[u8]) -> (r: Result<Raster<Rgba8>, RasterError>)
        ensures
            exists|outcome: Option<(u32, u32, Seq<u8>)>|
                #[trigger] may_decode(bytes@, outcome) && is_raster_of(outcome, r),
    {
        match decode(bytes) {
            Err(_) => {
                let r = Err(RasterError::Undecodable);
                assert(may_decode(bytes@, None) && is_raster_of(None, r));
                r
            },
            Ok((width, height, px)) => {
                let r = Raster::from_rgba8(width, height, px.as_slice());
                assert(may_decode(bytes@, Some((width, height, px@))));
                assert(is_raster_of(Some((width, height, px@)), r));
                r
            },
        }
    }

    /// Decode an image file with the given extension. Format is detected from
    /// content rather than extension, so a mislabelled file still loads; the
    /// extension decides where the content carries no signature.
    pub fn from_file_bytes(bytes: &[u8], extension: &str) -> (r: Result<
        Raster<Rgba8>,
        RasterError,
    >)
        ensures
            signed(bytes@) ==> exists|outcome: Option<(u32, u32, Seq<u8>)>|
                #[trigger] may_decode(bytes@, outcome) && is_raster_of(outcome, r),
            !signed(bytes@) && is_image_extension(extension@) ==> exists|
                outcome: Option<(u32, u32, Seq<u8>)>,
            |
                #[trigger] may_decode_as(bytes@, extension@, outcome) && is_raster_of(outcome, r),
            !signed(bytes@) && !is_image_extension(extension@) ==> is_raster_of(None, r),
    {
        if is_signed(bytes) {
            return Raster::from_bytes(bytes);
        }
        match decode_as(bytes, extension) {
            None => Err(RasterError::Undecodable),
            Some(Err(_)) => {
                let r = Err(RasterError::Undecodable);
                assert(may_decode_as(bytes@, extension@, None) && is_raster_of(None, r));
                r
            },
            Some(Ok((width, height, px))) => {
                let r = Raster::from_rgba8(width, height, px.as_slice());
                assert(may_decode_as(bytes@, extension@, Some((width, height, px@))));
                assert(is_raster_of(Some((width, height, px@)), r));
                r
            },
        }
    }
}

/// `r` is the image of what was decoded: its width, height and straight-alpha
/// RGBA bytes. There is no image where nothing was decoded.
pub open spec fn is_raster_of(
    outcome: Option<(u32, u32, Seq<u8>)>,
    r: Result<Raster<Rgba8>, RasterError>,
) -> bool {
    match outcome {
        None => r == Err::<Raster<Rgba8>, RasterError>(RasterError::Undecodable),
        Some((width, height, px)) => r matches Ok(img) && {
            &&& px.len() >= bytes_needed(width, height)
            &&& img.wf()
            &&& img.width == width
            &&& img.height == height
            &&& img.data@ == rgba_pixels(px, (width * height) as nat)
        },
    }
}

/// The error type of the `image` crate.
#[verifier::external_type_specification]
#[verifier::external_body]
pub struct ExImageError(image::ImageError);

/// Whether `image::load_from_memory` may read `outcome` out of an encoded image:
/// a width, a height and straight-alpha RGBA bytes, or nothing.
pub uninterp spec fn may_decode(bytes: Seq<u8>, outcome: Option<(u32, u32, Seq<u8>)>) -> bool;

/// `image::load_from_memory`, and the decoded image's width, height and bytes
/// as `DynamicImage::to_rgba8` and `ImageBuffer::into_raw` give them. An image
/// buffer is never smaller than its pixels need. Which pixels come out, and
/// whether any do, also rests on the decoders that a process has registered and
/// on the instructions of the machine, so an outcome is only one that may come
/// of the bytes.
#[verifier::external_body]
fn decode(bytes: &[u8]) -> (r: Result<(u32, u32, Vec<u8>), image::ImageError>)
    ensures
        match r {
            Ok((width, height, px)) => may_decode(bytes@, Some((width, height, px@))) && px@.len()
                >= bytes_needed(width, height),
            Err(_) => may_decode(bytes@, None),
        },
{
    let rgba = image::load_from_memory(bytes)?.to_rgba8();
    Ok((rgba.width(), rgba.height(), rgba.into_raw()))
}

/// Whether `image::guess_format` knows the signature at the start of an encoded
/// image.
pub uninterp spec fn signed(bytes: Seq<u8>) -> bool;

/// `image::guess_format`: whether it finds a format, which it looks up by the
/// bytes alone in a table of signatures.
#[verifier::external_body]
fn is_signed(bytes: &[u8]) -> (b: bool)
    ensures
        b == signed(bytes@),
{
    image::guess_format(bytes).is_ok()
}

/// The file extensions, in any case, that `image::ImageFormat::from_extension`
/// gives a format.
pub open spec fn is_image_extension(extension: Seq<char>) -> bool {
    let e = lowercase(extension);
    ||| e == "avif"@
    ||| e == "jpg"@ || e == "jpeg"@ || e == "jfif"@
    ||| e == "png"@ || e == "apng"@
    ||| e == "gif"@
    ||| e == "webp"@
    ||| e == "tif"@ || e == "tiff"@
    ||| e == "tga"@
    ||| e == "dds"@
    ||| e == "bmp"@
    ||| e == "ico"@
    ||| e == "hdr"@
    ||| e == "exr"@
    ||| e == "pbm"@ || e == "pam"@ || e == "ppm"@ || e == "pgm"@ || e == "pnm"@
    ||| e == "ff"@
    ||| e == "qoi"@
}

/// Whether `image::load_from_memory_with_format`, with the format of a file
/// extension, may read `outcome` out of an encoded image.
pub uninterp spec fn may_decode_as(
    bytes: Seq<u8>,
    extension: Seq<char>,
    outcome: Option<(u32, u32, Seq<u8>)>,
) -> bool;

/// `image::load_from_memory_with_format`, with the format that
/// `image::ImageFormat::from_extension` gives the extension; `None` where it
/// gives none. The decoded image comes back as from [`decode`], and what comes
/// out rests on the machine as it does there.
#[verifier::external_body]
fn decode_as(bytes: &[u8], extension: &str) -> (r: Option<
    Result<(u32, u32, Vec<u8>), image::ImageError>,
>)
    ensures
        r is None <==> !is_image_extension(extension@),
        r matches Some(Ok(read)) ==> may_decode_as(
            bytes@,
            extension@,
            Some((read.0, read.1, read.2@)),
        ) && read.2@.len() >= bytes_needed(read.0, read.1),
        r matches Some(Err(_)) ==> may_decode_as(bytes@, extension@, None),
{
    let format = image::ImageFormat::from_extension(extension)?;
    let read = image::load_from_memory_with_format(bytes, format).map(|img| img.to_rgba8());
    Some(read.map(|rgba| (rgba.width(), rgba.height(), rgba.into_raw())))
}

/// Bytes survive the round trip through an image.
pub proof fn law_bytes_round_trip(bytes: Seq<u8>, width: u32, height: u32)
    requires
        bytes.len() == bytes_needed(width, height),
    ensures
        rgba_bytes(rgba_pixels(bytes, (width * height) as nat)) == bytes,
{
    let n = (width * height) as nat;
    assert(0 <= width * height) by (nonlinear_arith)
        requires
            0 <= width,
            0 <= height,
    ;
    let px = rgba_pixels(bytes, n);
    assert forall|k: int| 0 <= k < bytes.len() implies #[trigger] rgba_bytes(px)[k]
        == bytes[k] by {
        let i = k / 4;
        assert(px[i] == rgba_at(bytes, i));
    }
    assert(rgba_bytes(px) =~= bytes);
}

/// Pixels survive the round trip through bytes.
pub proof fn law_pixels_round_trip(pixels: Seq<Rgba8>)
    ensures
        rgba_pixels(rgba_bytes(pixels), pixels.len()) == pixels,
{
    let bytes = rgba_bytes(pixels);
    assert forall|i: int| 0 <= i < pixels.len() implies #[trigger] rgba_pixels(
        bytes,
        pixels.len(),
    )[i] == pixels[i] by {
        assert(bytes[4 * i] == pixels[i].r);
        assert(bytes[4 * i + 1] == pixels[i].g);
        assert(bytes[4 * i + 2] == pixels[i].b);
        assert(bytes[4 * i + 3] == pixels[i].a);
    }
    assert(rgba_pixels(bytes, pixels.len()) =~= pixels);
}

// ---- Rendering ----------------------------------------------------------

/// The error type of the `usvg` crate.
#[verifier::external_type_specification]
#[verifier::external_body]
pub struct ExSvgError(usvg::Error);

/// Whether the `usvg` crate makes a tree of SVG source, with its default options.
pub uninterp spec fn readable_svg(svg: Seq<char>) -> bool;

/// Whether `resvg::render` may paint `px`, as straight-alpha RGBA bytes, of SVG
/// source at `scale` times its declared size onto a canvas of `width` by
/// `height`.
pub uninterp spec fn may_paint(
    svg: Seq<char>,
    scale: u32,
    width: u32,
    height: u32,
    px: Seq<u8>,
) -> bool;

/// `tiny_skia::Pixmap` can be this large: its sides are not zero, and a row of
/// four bytes per pixel is at most `i32::MAX` bytes long.
pub open spec fn is_canvas_size(width: u32, height: u32) -> bool {
    width > 0 && height > 0 && 4 * width <= i32::MAX
}

/// `usvg::Tree::from_data` on the source, then `resvg::render` at `scale` times
/// its declared size onto a new `Pixmap` of `width` by `height`, whose pixels
/// come back as straight-alpha RGBA bytes, as `Pixmap::take_demultiplied` gives
/// them. It is an error where the source makes no tree, which depends on the
/// source alone, and `Ok(None)` where `Pixmap::new` gives no canvas. A canvas
/// holds four bytes per pixel. What is painted on it also rests on files that
/// the source may refer to and on the vector instructions of the machine, so the
/// pixels are only ones that may come of the source, scale and size.
#[verifier::external_body]
fn paint_svg(svg: &str, scale: u32, width: u32, height: u32) -> (r: Result<
    Option<Vec<u8>>,
    usvg::Error,
>)
    requires
        bytes_needed(width, height) <= isize::MAX,
    ensures
        r is Err <==> !readable_svg(svg@),
        r matches Ok(canvas) ==> (canvas is Some <==> is_canvas_size(width, height)),
        r matches Ok(Some(px)) ==> px@.len() == bytes_needed(width, height) && may_paint(
            svg@,
            scale,
            width,
            height,
            px@,
        ),
{
    let tree = usvg::Tree::from_data(svg.as_bytes(), &usvg::Options::default())?;
    let canvas = resvg::tiny_skia::Pixmap::new(width, height);
    Ok(
        canvas.map(
            |mut canvas| {
                let scaled = resvg::tiny_skia::Transform::from_scale(scale as _, scale as _);
                resvg::render(&tree, scaled, &mut canvas.as_mut());
                canvas.take_demultiplied()
            },
        ),
    )
}

/// Rasterise SVG source at `supersample` times its declared size. `width` and
/// `height` are that size in whole pixels; the caller reduces the result where
/// it was supersampled.
pub fn rasterize_svg(svg: &str, supersample: u32, width: u32, height: u32) -> (r: Result<
    Raster<Rgba8>,
    RasterError,
>)
    ensures
        r is Ok <==> readable_svg(svg@) && can_paint(at_least_one(width), at_least_one(height)),
        r matches Ok(img) ==> {
            &&& img.wf()
            &&& img.width == at_least_one(width)
            &&& img.height == at_least_one(height)
            &&& exists|px: Seq<u8>|
                #[trigger] may_paint(
                    svg@,
                    at_least_one(supersample),
                    img.width,
                    img.height,
                    px,
                ) && img.data@ == rgba_pixels(px, (img.width * img.height) as nat)
        },
        r matches Err(e) ==> e == if readable_svg(svg@) {
            RasterError::NoCanvas { width: at_least_one(width), height: at_least_one(height) }
        } else {
            RasterError::BadSvg
        },
{
    let ss: u32 = one_or_more(supersample);
    let w: u32 = one_or_more(width);
    let h: u32 = one_or_more(height);
    if needed(w, h) > isize::MAX as u128 {
        // No such canvas can be had, but the source may be at fault all the same.
        return match paint_svg(svg, ss, 0, 0) {
            Err(_) => Err(RasterError::BadSvg),
            Ok(_) => Err(RasterError::NoCanvas { width: w, height: h }),
        };
    }
    match paint_svg(svg, ss, w, h) {
        Err(_) => Err(RasterError::BadSvg),
        Ok(painted) => canvas_raster(w, h, painted),
    }
}

/// A canvas of this size can be had, and addressed.
pub open spec fn can_paint(width: u32, height: u32) -> bool {
    is_canvas_size(width, height) && bytes_needed(width, height) <= isize::MAX
}

/// The image on a canvas of `width` by `height`, where there was one.
pub fn canvas_raster(width: u32, height: u32, painted: Option<Vec<u8>>) -> (r: Result<
    Raster<Rgba8>,
    RasterError,
>)
    requires
        painted matches Some(px) ==> px@.len() == bytes_needed(width, height),
    ensures
        r is Ok <==> painted is Some,
        r matches Ok(img) ==> {
            &&& img.wf()
            &&& img.width == width
            &&& img.height == height
            &&& img.data@ == rgba_pixels(painted->Some_0@, (width * height) as nat)
        },
        r matches Err(e) ==> e == (RasterError::NoCanvas { width, height }),
{
    match painted {
        None => Err(RasterError::NoCanvas { width, height }),
        Some(px) => Raster::from_rgba8(width, height, px.as_slice()),
    }
}

pub open spec fn at_least_one(n: u32) -> u32 {
    if n == 0 {
        1
    } else {
        n
    }
}

fn one_or_more(n: u32) -> (m: u32)
    ensures
        m == at_least_one(n),
{
    if n == 0 {
        1
    } else {
        n
    }
}

// ---- Reduction ----------------------------------------------------------

/// The accumulation of the first `n` pixels of a window `cols` wide whose
/// top-left pixel is `(x0, y0)`, row by row.
pub open spec fn gathered<C, A: Fn(C, C) -> C>(
    src: Raster<C>,
    zero: C,
    plus: A,
    x0: int,
    y0: int,
    cols: int,
    n: int,
) -> C
    decreases n,
{
    if n <= 0 {
        zero
    } else {
        let k = n - 1;
        value2(
            plus,
            gathered(src, zero, plus, x0, y0, cols, k),
            src.pixel(x0 + k % cols, y0 + k / cols),
        )
    }
}

/// Whether index arithmetic stays inside `src` for every pixel of the window.
pub open spec fn window_inside<C>(src: Raster<C>, x0: int, y0: int, x1: int, y1: int) -> bool {
    &&& 0 <= x0 < x1 <= u32::MAX
    &&& 0 <= y0 < y1 <= u32::MAX
    &&& src.index(x1 - 1, y1 - 1) < src.data@.len()
}

fn gather<C: Copy, A: Fn(C, C) -> C>(
    src: &Raster<C>,
    zero: C,
    plus: &A,
    x0: u32,
    y0: u32,
    x1: u32,
    y1: u32,
) -> (sum: C)
    requires
        window_inside(*src, x0 as int, y0 as int, x1 as int, y1 as int),
        pure2(*plus),
    ensures
        sum == gathered(
            *src,
            zero,
            *plus,
            x0 as int,
            y0 as int,
            x1 - x0,
            (x1 - x0) * (y1 - y0),
        ),
{
    let cols: u64 = (x1 - x0) as u64;
    let rows: u64 = (y1 - y0) as u64;
    assert(0 <= cols * rows <= 0xffff_ffff * 0xffff_ffff) by (nonlinear_arith)
        requires
            0 <= cols <= 0xffff_ffff,
            0 <= rows <= 0xffff_ffff,
    ;
    let n: u64 = cols * rows;
    let mut sum: C = zero;
    let mut k: u64 = 0;
    while k < n
        invariant
            k <= n,
            n == cols * rows,
            cols == x1 - x0,
            rows == y1 - y0,
            window_inside(*src, x0 as int, y0 as int, x1 as int, y1 as int),
            pure2(*plus),
            sum == gathered(*src, zero, *plus, x0 as int, y0 as int, cols as int, k as int),
        decreases n - k,
    {
        let dy: u64 = k / cols;
        let dx: u64 = k % cols;
        assert(dy < rows) by (nonlinear_arith)
            requires
                k < cols * rows,
                dy == k / cols,
                cols > 0,
        ;
        let x: u32 = x0 + dx as u32;
        let y: u32 = y0 + dy as u32;
        assert(src.index(x as int, y as int) <= src.index(x1 - 1, y1 - 1)) by {
            assert(y * src.width <= (y1 - 1) * src.width) by (nonlinear_arith)
                requires
                    y <= y1 - 1,
                    0 <= src.width,
            ;
        }
        sum = call2(plus, sum, src.get(x, y));
        k = k + 1;
    }
    sum
}

/// A pixel of a reduced image: the accumulated window, finished by its size.
pub open spec fn reduced<C, A: Fn(C, C) -> C, M: Fn(C, u64) -> C>(
    src: Raster<C>,
    zero: C,
    plus: A,
    mean: M,
    x0: int,
    y0: int,
    x1: int,
    y1: int,
) -> C {
    value2(
        mean,
        gathered(src, zero, plus, x0, y0, x1 - x0, (x1 - x0) * (y1 - y0)),
        ((x1 - x0) * (y1 - y0)) as u64,
    )
}

fn reduce<C: Copy, A: Fn(C, C) -> C, M: Fn(C, u64) -> C>(
    src: &Raster<C>,
    zero: C,
    plus: &A,
    mean: &M,
    x0: u32,
    y0: u32,
    x1: u32,
    y1: u32,
) -> (c: C)
    requires
        window_inside(*src, x0 as int, y0 as int, x1 as int, y1 as int),
        pure2(*plus),
        pure2(*mean),
    ensures
        c == reduced(
            *src,
            zero,
            *plus,
            *mean,
            x0 as int,
            y0 as int,
            x1 as int,
            y1 as int,
        ),
{
    assert(0 <= (x1 - x0) * (y1 - y0) <= 0xffff_ffff * 0xffff_ffff) by (nonlinear_arith)
        requires
            0 <= x1 - x0 <= 0xffff_ffff,
            0 <= y1 - y0 <= 0xffff_ffff,
    ;
    let n: u64 = (x1 - x0) as u64 * (y1 - y0) as u64;
    let sum: C = gather(src, zero, plus, x0, y0, x1, y1);
    call2(mean, sum, n)
}

/// The side of a box-downsampled image.
pub open spec fn reduced_side(side: int, factor: int) -> int {
    if side / factor < 1 {
        1
    } else {
        side / factor
    }
}

/// A half-open range of columns or rows.
#[derive(Clone, Copy, Debug, PartialEq, Eq, Structural)]
pub struct Span {
    pub lo: u32,
    pub hi: u32,
}

/// The range with its end inside `size`, and at least one entry long.
pub open spec fn span_end(s: Span, size: u32) -> int {
    let inner = if s.hi < size {
        s.hi as int
    } else {
        size as int
    };
    if inner < s.lo + 1 {
        s.lo + 1
    } else {
        inner
    }
}

fn end_of(s: Span, size: u32) -> (e: u32)
    requires
        s.lo < size,
    ensures
        e == span_end(s, size),
        s.lo < e <= size,
{
    let inner: u32 = if s.hi < size {
        s.hi
    } else {
        size
    };
    if inner < s.lo + 1 {
        s.lo + 1
    } else {
        inner
    }
}

impl<C: Copy> Raster<C> {
    /// Box-downsample by an integer factor, or `None` where the factor leaves
    /// the image as it is. `plus` accumulates the pixels of a box and `mean`
    /// divides the sum by their number. Used to turn a supersampled render into
    /// a comparison image without introducing resampling artefacts of its own.
    pub fn downsample<A: Fn(C, C) -> C, M: Fn(C, u64) -> C>(
        &self,
        factor: u32,
        zero: C,
        plus: &A,
        mean: &M,
    ) -> (r: Option<Raster<C>>)
        requires
            self.wf(),
            pure2(*plus),
            pure2(*mean),
            factor > 1 ==> self.index(
                reduced_side(self.width as int, factor as int) * factor - 1,
                reduced_side(self.height as int, factor as int) * factor - 1,
            ) < self.data@.len(),
        ensures
            r is None <==> factor <= 1,
            r matches Some(out) ==> {
                &&& out.wf()
                &&& out.width == reduced_side(self.width as int, factor as int)
                &&& out.height == reduced_side(self.height as int, factor as int)
                &&& forall|x: int, y: int|
                    0 <= x < out.width && 0 <= y < out.height ==> #[trigger] out.pixel(x, y)
                        == reduced(
                        *self,
                        zero,
                        *plus,
                        *mean,
                        x * factor,
                        y * factor,
                        x * factor + factor,
                        y * factor + factor,
                    )
            },
    {
        if factor <= 1 {
            return None;
        }
        let wide: u32 = self.width / factor;
        let high: u32 = self.height / factor;
        let w: u32 = one_or_more(wide);
        let h: u32 = one_or_more(high);
        let ghost f = factor as int;
        let ghost corner = self.index(w * f - 1, h * f - 1);
        assert(w as int == reduced_side(self.width as int, f));
        assert(h as int == reduced_side(self.height as int, f));
        let mut data: Vec<C> = Vec::new();
        proof {
            assert(w * f - 1 >= 0) by (nonlinear_arith)
                requires
                    w >= 1,
                    f >= 1,
            ;
            assert(h * f - 1 >= 0) by (nonlinear_arith)
                requires
                    h >= 1,
                    f >= 1,
            ;
            assert(w * f <= self.width || w == 1) by (nonlinear_arith)
                requires
                    w == self.width / factor || w == 1,
                    f == factor,
                    f >= 1,
            ;
            assert(h * f <= self.height || h == 1) by (nonlinear_arith)
                requires
                    h == self.height / factor || h == 1,
                    f == factor,
                    f >= 1,
            ;
        }
        let mut y: u32 = 0;
        while y < h
            invariant
                y <= h,
                1 <= w,
                1 <= h,
                f == factor,
                f >= 2,
                pure2(*plus),
                pure2(*mean),
                w * f <= self.width || w == 1,
                h * f <= self.height || h == 1,
                self.index(w * f - 1, h * f - 1) < self.data@.len(),
                data@.len() == y * w,
                forall|k: int|
                    0 <= k < data@.len() ==> #[trigger] data@[k] == reduced(
                        *self,
                        zero,
                        *plus,
                        *mean,
                        (k % (w as int)) * f,
                        (k / (w as int)) * f,
                        (k % (w as int)) * f + f,
                        (k / (w as int)) * f + f,
                    ),
            decreases h - y,
        {
            let mut x: u32 = 0;
            while x < w
                invariant
                    x <= w,
                    y < h,
                    1 <= w,
                    f == factor,
                    f >= 2,
                    pure2(*plus),
                    pure2(*mean),
                    w * f <= self.width || w == 1,
                    h * f <= self.height || h == 1,
                    self.index(w * f - 1, h * f - 1) < self.data@.len(),
                    data@.len() == y * w + x,
                    forall|k: int|
                        0 <= k < data@.len() ==> #[trigger] data@[k] == reduced(
                            *self,
                            zero,
                            *plus,
                            *mean,
                            (k % (w as int)) * f,
                            (k / (w as int)) * f,
                            (k % (w as int)) * f + f,
                            (k / (w as int)) * f + f,
                        ),
                decreases w - x,
            {
                proof {
                    let last = y * w + x;
                    assert(last % (w as int) == x && last / (w as int) == y) by (nonlinear_arith)
                        requires
                            last == y * w + x,
                            0 <= x < w,
                            0 <= y,
                    ;
                    assert(0 <= x * f && x * f + f <= w * f) by (nonlinear_arith)
                        requires
                            0 <= x < w,
                            f >= 2,
                    ;
                    assert(0 <= y * f && y * f + f <= h * f) by (nonlinear_arith)
                        requires
                            0 <= y < h,
                            f >= 2,
                    ;
                    assert(self.index(x * f + f - 1, y * f + f - 1) <= self.index(
                        w * f - 1,
                        h * f - 1,
                    )) by {
                        assert((y * f + f - 1) * self.width <= (h * f - 1) * self.width)
                            by (nonlinear_arith)
                            requires
                                y * f + f <= h * f,
                                0 <= self.width,
                        ;
                    }
                }
                let x0: u32 = x * factor;
                let y0: u32 = y * factor;
                let c: C = reduce(self, zero, plus, mean, x0, y0, x0 + factor, y0 + factor);
                data.push(c);
                x = x + 1;
            }
            assert(y * w + w == (y + 1) * w) by (nonlinear_arith);
            y = y + 1;
        }
        assert(h * w == w * h) by (nonlinear_arith);
        let out: Raster<C> = Raster { width: w, height: h, data };
        assert forall|x: int, y: int| 0 <= x < out.width && 0 <= y < out.height implies
            #[trigger] out.pixel(x, y) == reduced(
            *self,
            zero,
            *plus,
            *mean,
            x * factor,
            y * factor,
            x * factor + factor,
            y * factor + factor,
        ) by {
            lemma_cell(x, y, out.width as int, out.height as int);
            let k = y * w + x;
            assert(k % (w as int) == x && k / (w as int) == y) by (nonlinear_arith)
                requires
                    k == y * w + x,
                    0 <= x < w,
                    0 <= y,
            ;
        }
        Some(out)
    }

    /// Area-average resample: one output column per entry of `cols`, one row per
    /// entry of `rows`, each the range of source columns or rows it covers.
    ///
    /// Box filtering rather than bilinear: when shrinking, bilinear samples only
    /// four source pixels no matter how far it is shrinking, which aliases badly
    /// and would misrepresent fine detail to the search.
    pub fn resized<A: Fn(C, C) -> C, M: Fn(C, u64) -> C>(
        &self,
        cols: &Vec<Span>,
        rows: &Vec<Span>,
        zero: C,
        plus: &A,
        mean: &M,
    ) -> (out: Raster<C>)
        requires
            self.wf(),
            pure2(*plus),
            pure2(*mean),
            cols@.len() <= u32::MAX,
            rows@.len() <= u32::MAX,
            forall|i: int| 0 <= i < cols@.len() ==> (#[trigger] cols@[i]).lo < self.width,
            forall|i: int| 0 <= i < rows@.len() ==> (#[trigger] rows@[i]).lo < self.height,
        ensures
            out.wf(),
            out.width == cols@.len(),
            out.height == rows@.len(),
            forall|x: int, y: int|
                0 <= x < out.width && 0 <= y < out.height ==> #[trigger] out.pixel(x, y) == reduced(
                    *self,
                    zero,
                    *plus,
                    *mean,
                    cols@[x].lo as int,
                    rows@[y].lo as int,
                    span_end(cols@[x], self.width),
                    span_end(rows@[y], self.height),
                ),
    {
        let w: usize = cols.len();
        let h: usize = rows.len();
        let mut data: Vec<C> = Vec::new();
        let mut y: usize = 0;
        while y < h
            invariant
                y <= h,
                w == cols@.len(),
                h == rows@.len(),
                self.wf(),
                pure2(*plus),
                pure2(*mean),
                forall|i: int| 0 <= i < cols@.len() ==> (#[trigger] cols@[i]).lo < self.width,
                forall|i: int| 0 <= i < rows@.len() ==> (#[trigger] rows@[i]).lo < self.height,
                data@.len() == y * w,
                forall|a: int, b: int|
                    #![trigger data@[b * w + a]]
                    0 <= a < w && 0 <= b < y ==> data@[b * w + a] == reduced(
                        *self,
                        zero,
                        *plus,
                        *mean,
                        cols@[a].lo as int,
                        rows@[b].lo as int,
                        span_end(cols@[a], self.width),
                        span_end(rows@[b], self.height),
                    ),
            decreases h - y,
        {
            let ghost before = data@;
            let row: Span = rows[y];
            let y1: u32 = end_of(row, self.height);
            let mut x: usize = 0;
            while x < w
                invariant
                    x <= w,
                    w == cols@.len(),
                    y < rows@.len(),
                    row == rows@[y as int],
                    row.lo < y1 <= self.height,
                    y1 == span_end(row, self.height),
                    self.wf(),
                    pure2(*plus),
                    pure2(*mean),
                    forall|i: int| 0 <= i < cols@.len() ==> (#[trigger] cols@[i]).lo < self.width,
                    before.len() == y * w,
                    data@.len() == before.len() + x,
                    forall|k: int| 0 <= k < before.len() ==> #[trigger] data@[k] == before[k],
                    forall|a: int|
                        #![trigger data@[before.len() + a]]
                        0 <= a < x ==> data@[before.len() + a] == reduced(
                            *self,
                            zero,
                            *plus,
                            *mean,
                            cols@[a].lo as int,
                            row.lo as int,
                            span_end(cols@[a], self.width),
                            y1 as int,
                        ),
                decreases w - x,
            {
                let col: Span = cols[x];
                let x1: u32 = end_of(col, self.width);
                proof {
                    lemma_cell(x1 - 1, y1 - 1, self.width as int, self.height as int);
                }
                let c: C = reduce(self, zero, plus, mean, col.lo, row.lo, x1, y1);
                data.push(c);
                x = x + 1;
            }
            proof {
                assert(y * w + w == (y + 1) * w) by (nonlinear_arith);
                assert forall|a: int, b: int|
                    #![trigger data@[b * w + a]]
                    0 <= a < w && 0 <= b < y + 1 implies data@[b * w + a] == reduced(
                    *self,
                    zero,
                    *plus,
                    *mean,
                    cols@[a].lo as int,
                    rows@[b].lo as int,
                    span_end(cols@[a], self.width),
                    span_end(rows@[b], self.height),
                ) by {
                    if b < y {
                        lemma_cell(a, b, w as int, y as int);
                        assert(w * y == y * w) by (nonlinear_arith);
                        assert(data@[b * w + a] == before[b * w + a]);
                    } else {
                        assert(data@[before.len() + a] == data@[b * w + a]);
                    }
                }
            }
            y = y + 1;
        }
        assert(h * w == w * h) by (nonlinear_arith);
        let out: Raster<C> = Raster { width: w as u32, height: h as u32, data };
        assert forall|x: int, y: int| 0 <= x < out.width && 0 <= y < out.height implies
            #[trigger] out.pixel(x, y) == reduced(
            *self,
            zero,
            *plus,
            *mean,
            cols@[x].lo as int,
            rows@[y].lo as int,
            span_end(cols@[x], self.width),
            span_end(rows@[y], self.height),
        ) by {
            assert(out.pixel(x, y) == data@[y * w + x]);
        }
        out
    }

    /// The size of the image shrunk so that neither side exceeds `max_dim`, or
    /// `None` where it already fits. `scaled` is the size that keeps the aspect
    /// ratio, in whole pixels.
    pub fn fit_within(&self, max_dim: u32, scaled: (u32, u32)) -> (r: Option<(u32, u32)>)
        ensures
            r is None <==> max_dim == 0 || (self.width <= max_dim && self.height <= max_dim),
            r matches Some(size) ==> size == (at_least_one(scaled.0), at_least_one(scaled.1)),
    {
        if max_dim == 0 || (self.width <= max_dim && self.height <= max_dim) {
            None
        } else {
            Some((one_or_more(scaled.0), one_or_more(scaled.1)))
        }
    }
}

// ---- What is averaged ---------------------------------------------------

/// A window is gone through row by row: after its first rows and the first `dx` pixels of
/// the next, the pixel at that place is added.
pub proof fn law_windows_gather_their_pixels<C, A: Fn(C, C) -> C>(
    src: Raster<C>,
    zero: C,
    plus: A,
    x0: int,
    y0: int,
    cols: int,
    dx: int,
    dy: int,
)
    requires
        0 <= dx < cols,
        0 <= dy,
    ensures
        gathered(src, zero, plus, x0, y0, cols, 0) == zero,
        gathered(src, zero, plus, x0, y0, cols, dy * cols + dx + 1) == value2(
            plus,
            gathered(src, zero, plus, x0, y0, cols, dy * cols + dx),
            src.data@[(y0 + dy) * src.width + (x0 + dx)],
        ),
{
    let k = dy * cols + dx;
    assert(k >= 0) by (nonlinear_arith)
        requires
            k == dy * cols + dx,
            dy >= 0,
            cols >= 0,
            dx >= 0,
    ;
    vstd::arithmetic::div_mod::lemma_fundamental_div_mod_converse(k, cols, dy, dx);
}

/// A pixel of a reduced image is the mean of every pixel of its window: as many are added
/// as the sum is divided by.
pub proof fn law_reduced_pixels_are_means<C, A: Fn(C, C) -> C, M: Fn(C, u64) -> C>(
    src: Raster<C>,
    zero: C,
    plus: A,
    mean: M,
    x0: int,
    y0: int,
    cols: int,
    rows: int,
)
    ensures
        reduced(src, zero, plus, mean, x0, y0, x0 + cols, y0 + rows) == value2(
            mean,
            gathered(src, zero, plus, x0, y0, cols, rows * cols),
            (rows * cols) as u64,
        ),
{
    assert(cols * rows == rows * cols) by (nonlinear_arith);
}

/// A reduced side is as long as the factor goes into it, but never nothing, and a range is
/// cut at the edge of the image but never to nothing.
pub proof fn law_reduced_sides_fit(side: int, factor: int, s: Span, size: u32)
    requires
        side >= 0,
        factor >= 1,
        s.lo < size,
    ensures
        reduced_side(side, factor) >= 1,
        side >= factor ==> reduced_side(side, factor) * factor <= side < (reduced_side(side, factor)
            + 1) * factor,
        side < factor ==> reduced_side(side, factor) == 1,
        s.lo < span_end(s, size) <= size,
        s.lo < s.hi <= size ==> span_end(s, size) == s.hi,
        s.hi > size ==> span_end(s, size) == size,
{
    vstd::arithmetic::div_mod::lemma_fundamental_div_mod(side, factor);
    vstd::arithmetic::div_mod::lemma_mod_bound(side, factor);
    let q = side / factor;
    let r = side % factor;
    if side >= factor {
        assert(q >= 1) by (nonlinear_arith)
            requires
                side == factor * q + r,
                r < factor,
                side >= factor,
                factor >= 1,
        ;
        assert(q * factor <= side < (q + 1) * factor) by (nonlinear_arith)
            requires
                side == factor * q + r,
                0 <= r < factor,
        ;
    } else {
        assert(q < 1) by (nonlinear_arith)
            requires
                side == factor * q + r,
                r >= 0,
                side < factor,
                factor >= 1,
        ;
    }
}

} // verus!
