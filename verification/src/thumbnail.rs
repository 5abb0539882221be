//! Thumbnails: small pictures, encoded as JPEG and written as data URLs.

use base64::Engine;
use vstd::prelude::*;

use crate::record::{images, ImageRecord, ImageText};
use crate::text::{chars_of, matches_at, occurs_at, optional_text, part_of, string_of};

verus! {

/// The longest edge of a thumbnail.
pub const THUMBNAIL_BOUND: u32 = 480;

/// The longest edge of the thumbnail of a face.
pub const FACE_THUMBNAIL_BOUND: u32 = 180;

/// The JPEG quality of a thumbnail.
pub const THUMBNAIL_QUALITY: u8 = 78;

/// The JPEG quality of the thumbnail of a face.
pub const FACE_THUMBNAIL_QUALITY: u8 = 82;

// ---------------------------------------------------------------------------
// Dimensions
// ---------------------------------------------------------------------------

/// The shorter edge of a thumbnail whose longer edge is scaled from `long` to the bound:
/// rounded to the nearest whole number, and at least 1.
pub open spec fn scaled_edge(short: int, long: int) -> int {
    let edge = (short * THUMBNAIL_BOUND + long / 2) / long;
    if edge < 1 {
        1
    } else {
        edge
    }
}

/// The dimensions of a thumbnail.
pub open spec fn thumbnail_size(width: int, height: int) -> (int, int) {
    if width >= height {
        (THUMBNAIL_BOUND as int, scaled_edge(height, width))
    } else {
        (scaled_edge(width, height), THUMBNAIL_BOUND as int)
    }
}

/// The shorter edge of a thumbnail is no longer than the longer one, and off its exact
/// length by no more than a half, unless that is under a half itself.
proof fn lemma_scaled_edge(short: int, long: int)
    requires
        0 <= short <= long,
        0 < long,
    ensures
        1 <= scaled_edge(short, long) <= THUMBNAIL_BOUND,
        scaled_edge(short, long) > 1 ==> ({
            &&& 2 * scaled_edge(short, long) * long <= 2 * short * THUMBNAIL_BOUND + long
            &&& 2 * short * THUMBNAIL_BOUND < 2 * scaled_edge(short, long) * long + long + 1
        }),
        scaled_edge(short, long) == 1 ==> 2 * short * THUMBNAIL_BOUND < 3 * long,
{
    let total = short * THUMBNAIL_BOUND + long / 2;
    let edge = total / long;
    assert(short * THUMBNAIL_BOUND <= long * THUMBNAIL_BOUND) by (nonlinear_arith)
        requires
            0 <= short <= long,
    ;
    assert(total < (THUMBNAIL_BOUND + 1) * long) by (nonlinear_arith)
        requires
            total == short * THUMBNAIL_BOUND + long / 2,
            short * THUMBNAIL_BOUND <= long * THUMBNAIL_BOUND,
            0 < long,
    ;
    assert(0 <= edge <= THUMBNAIL_BOUND) by (nonlinear_arith)
        requires
            edge == total / long,
            0 <= total < (THUMBNAIL_BOUND + 1) * long,
            0 < long,
    ;
    assert(edge * long <= total < edge * long + long) by (nonlinear_arith)
        requires
            edge == total / long,
            0 <= total,
            0 < long,
    ;
    assert(2 * edge * long == 2 * (edge * long)) by (nonlinear_arith);
    if edge <= 1 {
        assert(edge * long <= long) by (nonlinear_arith)
            requires
                edge <= 1,
                0 < long,
        ;
    }
}

/// The longer edge of a thumbnail has the length of the bound, the shorter one no more,
/// and neither vanishes. A picture that is turned by a right angle has a thumbnail that
/// is so too, unless it is a square.
pub proof fn law_thumbnail_fits_the_longest_edge(width: int, height: int)
    requires
        0 <= width,
        0 <= height,
        0 < width || 0 < height,
    ensures
        1 <= thumbnail_size(width, height).0 <= THUMBNAIL_BOUND,
        1 <= thumbnail_size(width, height).1 <= THUMBNAIL_BOUND,
        width >= height ==> thumbnail_size(width, height).0 == THUMBNAIL_BOUND,
        height >= width ==> thumbnail_size(width, height).1 == THUMBNAIL_BOUND,
        thumbnail_size(height, width) == (thumbnail_size(width, height).1, thumbnail_size(width, height).0),
{
    if width >= height {
        lemma_scaled_edge(height, width);
    }
    if height >= width {
        lemma_scaled_edge(width, height);
    }
    if width == height {
        assert((width * THUMBNAIL_BOUND + width / 2) / width == THUMBNAIL_BOUND) by (nonlinear_arith)
            requires
                0 < width,
                THUMBNAIL_BOUND == 480,
        ;
    }
}

/// Halves round up alike, whatever the scale.
proof fn lemma_rounded(number: int, by: int, times: int)
    requires
        0 <= number,
        0 < by,
        0 < times,
    ensures
        (times * number + (times * by) / 2) / (times * by) == (number + by / 2) / by,
{
    let edge = (number + by / 2) / by;
    let whole = times * by;
    let total = times * number + whole / 2;
    assert(edge * by <= number + by / 2 < edge * by + by) by (nonlinear_arith)
        requires
            edge == (number + by / 2) / by,
            0 < by,
    ;
    assert(2 * (edge * by) - by <= 2 * number);
    assert(2 * number + 1 <= 2 * (edge * by) + by);
    assert(0 < whole) by (nonlinear_arith)
        requires
            whole == times * by,
            0 < times,
            0 < by,
    ;
    assert(2 * (edge * whole) - whole <= 2 * (times * number)) by (nonlinear_arith)
        requires
            2 * (edge * by) - by <= 2 * number,
            whole == times * by,
            0 < times,
    ;
    assert(2 * (times * number) + 1 <= 2 * (edge * whole) + whole) by (nonlinear_arith)
        requires
            2 * number + 1 <= 2 * (edge * by) + by,
            whole == times * by,
            0 < times,
    ;
    assert(edge * whole <= total < edge * whole + whole);
    assert(total / whole == edge) by (nonlinear_arith)
        requires
            edge * whole <= total < edge * whole + whole,
            0 < whole,
    ;
}

/// A picture that is larger by a whole number in both directions has a thumbnail of the same
/// size.
pub proof fn law_thumbnail_keeps_its_size(width: int, height: int, times: int)
    requires
        0 <= width,
        0 <= height,
        0 < width || 0 < height,
        0 < times,
    ensures
        thumbnail_size(times * width, times * height) == thumbnail_size(width, height),
{
    let (short, long) = if width >= height {
        (height, width)
    } else {
        (width, height)
    };
    assert(times * short <= times * long) by (nonlinear_arith)
        requires
            short <= long,
            0 < times,
    ;
    assert(short < long ==> times * short < times * long) by (nonlinear_arith)
        requires
            0 < times,
    ;
    lemma_rounded(short * THUMBNAIL_BOUND, long, times);
    assert(times * (short * THUMBNAIL_BOUND) == times * short * THUMBNAIL_BOUND) by (nonlinear_arith);
    assert(scaled_edge(times * short, times * long) == scaled_edge(short, long));
}

fn scale_edge(short: u32, long: u32) -> (edge: u32)
    requires
        short <= long,
        0 < long,
    ensures
        edge == scaled_edge(short as int, long as int),
{
    proof {
        lemma_scaled_edge(short as int, long as int);
        assert(short * THUMBNAIL_BOUND <= u32::MAX * THUMBNAIL_BOUND) by (nonlinear_arith)
            requires
                short <= u32::MAX,
        ;
    }
    let edge: u64 = (short as u64 * THUMBNAIL_BOUND as u64 + long as u64 / 2) / long as u64;
    if edge < 1 {
        1
    } else {
        edge as u32
    }
}

/// The dimensions of the thumbnail of a picture with the given dimensions.
pub fn thumbnail_dimensions(width: u32, height: u32) -> (size: (u32, u32))
    requires
        0 < width || 0 < height,
    ensures
        (size.0 as int, size.1 as int) == thumbnail_size(width as int, height as int),
{
    if width >= height {
        (THUMBNAIL_BOUND, scale_edge(height, width))
    } else {
        (scale_edge(width, height), THUMBNAIL_BOUND)
    }
}

// ---------------------------------------------------------------------------
// Data URLs
// ---------------------------------------------------------------------------

/// The character of six bits in the standard Base64 alphabet.
pub open spec fn base64_char(value: int) -> char {
    if value < 26 {
        (value + 'A' as int) as char
    } else if value < 52 {
        (value - 26 + 'a' as int) as char
    } else if value < 62 {
        (value - 52 + '0' as int) as char
    } else if value == 62 {
        '+'
    } else {
        '/'
    }
}

/// The four characters of three bytes.
pub open spec fn base64_group(first: int, second: int, third: int) -> Seq<char> {
    seq![
        base64_char(first / 4),
        base64_char(first % 4 * 16 + second / 16),
        base64_char(second % 16 * 4 + third / 64),
        base64_char(third % 64),
    ]
}

/// Bytes written in Base64: four characters for every three bytes; what is missing at the
/// end counts as zeros, and its characters are `=`.
pub open spec fn base64_text(bytes: Seq<u8>) -> Seq<char>
    decreases bytes.len(),
{
    if bytes.len() == 0 {
        Seq::empty()
    } else if bytes.len() == 1 {
        base64_group(bytes[0] as int, 0, 0).take(2) + seq!['=', '=']
    } else if bytes.len() == 2 {
        base64_group(bytes[0] as int, bytes[1] as int, 0).take(3) + seq!['=']
    } else {
        base64_group(bytes[0] as int, bytes[1] as int, bytes[2] as int) + base64_text(bytes.skip(3))
    }
}

/// How many characters a number of bytes takes in Base64.
pub open spec fn base64_length(count: int) -> int {
    (count + 2) / 3 * 4
}

/// Different values have different characters, and none has the character `=`.
proof fn lemma_base64_char(left: int, right: int)
    requires
        0 <= left < 64,
        0 <= right < 64,
    ensures
        base64_char(left) == base64_char(right) ==> left == right,
        base64_char(left) != '=',
{
}

/// Groups of different bytes differ.
proof fn lemma_base64_group(a: (int, int, int), b: (int, int, int))
    requires
        0 <= a.0 < 256,
        0 <= a.1 < 256,
        0 <= a.2 < 256,
        0 <= b.0 < 256,
        0 <= b.1 < 256,
        0 <= b.2 < 256,
    ensures
        base64_group(a.0, a.1, a.2) == base64_group(b.0, b.1, b.2) ==> a == b,
        base64_group(a.0, a.1, a.2)[2] != '=',
        base64_group(a.0, a.1, a.2)[3] != '=',
        base64_group(a.0, a.1, 0).take(3) == base64_group(b.0, b.1, 0).take(3) ==> a.0 == b.0 && a.1 == b.1,
        base64_group(a.0, 0, 0).take(2) == base64_group(b.0, 0, 0).take(2) ==> a.0 == b.0,
{
    lemma_base64_char(a.0 / 4, b.0 / 4);
    lemma_base64_char(a.0 % 4 * 16 + a.1 / 16, b.0 % 4 * 16 + b.1 / 16);
    lemma_base64_char(a.1 % 16 * 4 + a.2 / 64, b.1 % 16 * 4 + b.2 / 64);
    lemma_base64_char(a.2 % 64, b.2 % 64);
    lemma_base64_char(a.0 % 4 * 16, b.0 % 4 * 16);
    lemma_base64_char(a.1 % 16 * 4, b.1 % 16 * 4);
    let full_a = base64_group(a.0, a.1, a.2);
    let full_b = base64_group(b.0, b.1, b.2);
    if full_a == full_b {
        assert(full_a[0] == full_b[0]);
        assert(full_a[1] == full_b[1]);
        assert(full_a[2] == full_b[2]);
        assert(full_a[3] == full_b[3]);
    }
    let two_a = base64_group(a.0, a.1, 0).take(3);
    let two_b = base64_group(b.0, b.1, 0).take(3);
    if two_a == two_b {
        assert(two_a[0] == two_b[0]);
        assert(two_a[1] == two_b[1]);
        assert(two_a[2] == two_b[2]);
    }
    let one_a = base64_group(a.0, 0, 0).take(2);
    let one_b = base64_group(b.0, 0, 0).take(2);
    if one_a == one_b {
        assert(one_a[0] == one_b[0]);
        assert(one_a[1] == one_b[1]);
    }
}

/// How long a text in Base64 is.
proof fn lemma_base64_length(bytes: Seq<u8>)
    ensures
        base64_text(bytes).len() == base64_length(bytes.len() as int),
    decreases bytes.len(),
{
    if bytes.len() > 2 {
        lemma_base64_length(bytes.skip(3));
    }
}

/// Different bytes have different texts in Base64.
pub proof fn law_base64_tells_bytes_apart(left: Seq<u8>, right: Seq<u8>)
    requires
        base64_text(left) == base64_text(right),
    ensures
        left == right,
    decreases left.len(),
{
    lemma_base64_length(left);
    lemma_base64_length(right);
    let text = base64_text(left);
    if left.len() == 0 || right.len() == 0 {
        assert(left =~= right);
    } else {
        let a = (
            left[0] as int,
            if left.len() > 1 { left[1] as int } else { 0 },
            if left.len() > 2 { left[2] as int } else { 0 },
        );
        let b = (
            right[0] as int,
            if right.len() > 1 { right[1] as int } else { 0 },
            if right.len() > 2 { right[2] as int } else { 0 },
        );
        lemma_base64_group(a, b);
        lemma_base64_group(b, a);
        let group_a = base64_group(a.0, a.1, a.2);
        let group_b = base64_group(b.0, b.1, b.2);
        assert(text[2] == (if left.len() > 1 { group_a[2] } else { '=' }));
        assert(text[3] == (if left.len() > 2 { group_a[3] } else { '=' }));
        assert(base64_text(right)[2] == (if right.len() > 1 { group_b[2] } else { '=' }));
        assert(base64_text(right)[3] == (if right.len() > 2 { group_b[3] } else { '=' }));
        if left.len() > 2 {
            assert(right.len() > 2);
            assert(text.take(4) =~= group_a);
            assert(base64_text(right).take(4) =~= group_b);
            assert(text.skip(4) =~= base64_text(left.skip(3)));
            assert(base64_text(right).skip(4) =~= base64_text(right.skip(3)));
            law_base64_tells_bytes_apart(left.skip(3), right.skip(3));
            assert(left =~= seq![left[0], left[1], left[2]] + left.skip(3));
            assert(right =~= seq![right[0], right[1], right[2]] + right.skip(3));
        } else if left.len() == 2 {
            assert(right.len() == 2);
            assert(text.take(3) =~= base64_group(a.0, a.1, 0).take(3));
            assert(base64_text(right).take(3) =~= base64_group(b.0, b.1, 0).take(3));
            assert(left =~= right);
        } else {
            assert(right.len() == 1);
            assert(text.take(2) =~= base64_group(a.0, 0, 0).take(2));
            assert(base64_text(right).take(2) =~= base64_group(b.0, 0, 0).take(2));
            assert(left =~= right);
        }
    }
}

/// What the data URL of a JPEG picture starts with.
pub open spec fn url_prefix() -> Seq<char> {
    "data:image/jpeg;base64,"@
}

/// The data URL of a JPEG picture.
pub open spec fn data_url(bytes: Seq<u8>) -> Seq<char> {
    url_prefix() + base64_text(bytes)
}

/// A number of bytes is small enough for a data URL of them to be held.
pub open spec fn encodable(count: int) -> bool {
    base64_length(count) <= isize::MAX
}

/// `base64`'s standard engine encodes bytes by the standard alphabet, with padding. It
/// panics where the text would be longer than a string can be.
#[verifier::external_body]
fn encode_base64(bytes: &Vec<u8>) -> (text: String)
    requires
        encodable(bytes@.len() as int),
    ensures
        text@ == base64_text(bytes@),
{
    base64::engine::general_purpose::STANDARD.encode(bytes)
}

/// `base64`'s standard engine decodes exactly the texts that it encodes bytes as: it
/// demands the padding and refuses bits that stand for nothing.
#[verifier::external_body]
fn decode_base64(text: &str) -> (decoded: Option<Vec<u8>>)
    ensures
        decoded is Some ==> base64_text(decoded->0@) == text@,
        decoded is None ==> forall|bytes: Seq<u8>| #[trigger] base64_text(bytes) != text@,
{
    base64::engine::general_purpose::STANDARD.decode(text).ok()
}

/// Whether a number of bytes is small enough for a data URL of them to be held.
pub fn is_encodable(count: usize) -> (fits: bool)
    ensures
        fits == encodable(count as int),
{
    let groups: usize = count / 3 + if count % 3 > 0 {
        1usize
    } else {
        0usize
    };
    assert(groups == (count + 2) / 3);
    groups <= isize::MAX as usize / 4
}

/// The data URL of a JPEG picture.
pub fn thumbnail_data_url(bytes: &Vec<u8>) -> (url: String)
    requires
        encodable(bytes@.len() as int),
    ensures
        url@ == data_url(bytes@),
{
    let mut url: String = "data:image/jpeg;base64,".to_owned();
    url.append(encode_base64(bytes).as_str());
    url
}

/// The bytes of a JPEG picture in a data URL, if the text is one.
pub open spec fn url_bytes(text: Seq<char>) -> Option<Seq<u8>> {
    if exists|bytes: Seq<u8>| text == #[trigger] data_url(bytes) {
        Some(choose|bytes: Seq<u8>| text == #[trigger] data_url(bytes))
    } else {
        None
    }
}

/// What a data URL holds is what it was made of.
pub proof fn law_data_url_gives_bytes_back(bytes: Seq<u8>)
    ensures
        url_bytes(data_url(bytes)) == Some(bytes),
{
    let text = data_url(bytes);
    let chosen = choose|other: Seq<u8>| text == #[trigger] data_url(other);
    assert(text == data_url(chosen));
    assert(text.skip(url_prefix().len() as int) =~= base64_text(bytes));
    assert(text.skip(url_prefix().len() as int) =~= base64_text(chosen));
    law_base64_tells_bytes_apart(bytes, chosen);
}

/// The bytes of a JPEG picture in a data URL, if the text is one.
pub fn decode_thumbnail_data_url(value: &str) -> (bytes: Option<Vec<u8>>)
    ensures
        match bytes {
            Some(bytes) => url_bytes(value@) == Some(bytes@),
            None => url_bytes(value@) is None,
        },
{
    let text: Vec<char> = chars_of(value);
    let prefix: Vec<char> = chars_of("data:image/jpeg;base64,");
    if !matches_at(&text, &prefix, 0) {
        proof {
            assert forall|bytes: Seq<u8>| value@ != #[trigger] data_url(bytes) by {
                if value@ == data_url(bytes) {
                    assert(value@.subrange(0, url_prefix().len() as int) =~= url_prefix());
                    assert(occurs_at(value@, url_prefix(), 0));
                }
            }
        }
        return None;
    }
    let rest: String = string_of(&part_of(&text, prefix.len(), text.len()));
    assert(rest@ =~= value@.skip(url_prefix().len() as int));
    match decode_base64(rest.as_str()) {
        Some(bytes) => {
            proof {
                assert(value@ =~= data_url(bytes@));
                law_data_url_gives_bytes_back(bytes@);
            }
            Some(bytes)
        },
        None => {
            proof {
                assert forall|bytes: Seq<u8>| value@ != #[trigger] data_url(bytes) by {
                    if value@ == data_url(bytes) {
                        assert(value@.skip(url_prefix().len() as int) =~= base64_text(bytes));
                    }
                }
            }
            None
        },
    }
}

// ---------------------------------------------------------------------------
// Making thumbnails
// ---------------------------------------------------------------------------

/// A picture as rows of pixels of three bytes each: red, green and blue.
pub struct RgbPixels {
    pub width: u32,
    pub height: u32,
    pub pixels: Vec<u8>,
}

impl RgbPixels {
    /// There are as many pixels as the dimensions tell.
    pub open spec fn well_formed(&self) -> bool {
        self.pixels@.len() == pixel_bytes(self.width as int, self.height as int)
    }
}

/// How many bytes the pixels of a picture take.
pub open spec fn pixel_bytes(width: int, height: int) -> int {
    width * height * 3
}

/// Why a picture could not be resized.
pub enum ResizeFailure {
    Pixels(String),
    Resize(String),
}

/// The pixels of a picture brought to the given dimensions by bilinear convolution.
pub uninterp spec fn resized(pixels: Seq<u8>, width: u32, height: u32, new_width: u32, new_height: u32) -> Seq<u8>;

/// `fast_image_resize` takes the pixels in with `Image::from_vec_u8`, which fails only
/// where there are too few of them, and fills a new image with `Resizer::resize`, which
/// does not fail for two images of the same kind of pixels. Its convolution of bytes is
/// done in whole numbers, the same on every processor.
#[verifier::external_body]
fn resize_pixels(pixels: Vec<u8>, width: u32, height: u32, new_width: u32, new_height: u32) -> (result: Result<
    Vec<u8>,
    ResizeFailure,
>)
    requires
        pixel_bytes(width as int, height as int) <= usize::MAX,
        new_width <= THUMBNAIL_BOUND,
        new_height <= THUMBNAIL_BOUND,
    ensures
        match result {
            Ok(new_pixels) => pixels@.len() >= pixel_bytes(width as int, height as int) && new_pixels@ == resized(
                pixels@,
                width,
                height,
                new_width,
                new_height,
            ) && new_pixels@.len() == pixel_bytes(new_width as int, new_height as int),
            Err(ResizeFailure::Pixels(reason)) => pixels@.len() < pixel_bytes(width as int, height as int) && reason@
                == "Size of buffer is smaller than required"@,
            Err(ResizeFailure::Resize(_)) => false,
        },
{
    let kind = fast_image_resize::PixelType::U8x3;
    let source = fast_image_resize::images::Image::from_vec_u8(width, height, pixels, kind)
        .map_err(|error| ResizeFailure::Pixels(error.to_string()))?;
    let mut target = fast_image_resize::images::Image::new(new_width, new_height, kind);
    let filter = fast_image_resize::FilterType::Bilinear;
    let options = fast_image_resize::ResizeOptions::new()
        .resize_alg(fast_image_resize::ResizeAlg::Convolution(filter));
    fast_image_resize::Resizer::new()
        .resize(&source, &mut target, &options)
        .map_err(|error| ResizeFailure::Resize(error.to_string()))?;
    Ok(target.into_vec())
}

/// A picture of pixels of three bytes encoded as JPEG in the given quality.
pub uninterp spec fn jpeg(pixels: Seq<u8>, width: u32, height: u32, quality: u8) -> Seq<u8>;

/// `image::codecs::jpeg::JpegEncoder::encode` writes a picture as JPEG. It refuses
/// dimensions of 0 and above 65535, and panics where the number of bytes is not that of
/// the dimensions.
#[verifier::external_body]
fn encode_jpeg(pixels: &Vec<u8>, width: u32, height: u32, quality: u8) -> (encoded: Result<Vec<u8>, String>)
    requires
        pixels@.len() == pixel_bytes(width as int, height as int),
    ensures
        match encoded {
            Ok(bytes) => 1 <= width <= 65535 && 1 <= height <= 65535 && bytes@ == jpeg(
                pixels@,
                width,
                height,
                quality,
            ),
            Err(_) => !(1 <= width <= 65535 && 1 <= height <= 65535),
        },
{
    let mut bytes = Vec::new();
    image::codecs::jpeg::JpegEncoder::new_with_quality(&mut bytes, quality)
        .encode(pixels, width, height, image::ExtendedColorType::Rgb8)
        .map_err(|error| error.to_string())?;
    Ok(bytes)
}

/// The JPEG bytes of the thumbnail of a picture.
pub open spec fn thumbnail_jpeg(pixels: Seq<u8>, width: u32, height: u32) -> Seq<u8> {
    let size = thumbnail_size(width as int, height as int);
    let small = resized(pixels, width, height, size.0 as u32, size.1 as u32);
    jpeg(small, size.0 as u32, size.1 as u32, THUMBNAIL_QUALITY)
}

/// Makes the JPEG bytes of the thumbnail of a picture. It is an error if there are too
/// few pixels.
pub fn encode_thumbnail(pixels: Vec<u8>, width: u32, height: u32) -> (result: Result<Vec<u8>, String>)
    requires
        0 < width || 0 < height,
        pixel_bytes(width as int, height as int) <= usize::MAX,
    ensures
        match result {
            Ok(bytes) => pixels@.len() >= pixel_bytes(width as int, height as int) && bytes@ == thumbnail_jpeg(
                pixels@,
                width,
                height,
            ),
            Err(message) => pixels@.len() < pixel_bytes(width as int, height as int) && message@
                == "無法準備縮圖像素："@ + "Size of buffer is smaller than required"@,
        },
{
    let (new_width, new_height): (u32, u32) = thumbnail_dimensions(width, height);
    proof {
        law_thumbnail_fits_the_longest_edge(width as int, height as int);
        assert(pixel_bytes(new_width as int, new_height as int) <= 480 * 480 * 3) by (nonlinear_arith)
            requires
                1 <= new_width <= 480,
                1 <= new_height <= 480,
                pixel_bytes(new_width as int, new_height as int) == new_width * new_height * 3,
        ;
    }
    match resize_pixels(pixels, width, height, new_width, new_height) {
        Ok(small) => encode_jpeg(&small, new_width, new_height, THUMBNAIL_QUALITY),
        Err(ResizeFailure::Pixels(reason)) => {
            let mut message: String = "無法準備縮圖像素：".to_owned();
            message.append(reason.as_str());
            Err(message)
        },
        Err(ResizeFailure::Resize(reason)) => {
            let mut message: String = "縮放縮圖失敗：".to_owned();
            message.append(reason.as_str());
            Err(message)
        },
    }
}

// ---------------------------------------------------------------------------
// Decoded pictures
// ---------------------------------------------------------------------------

/// The decoded picture of `image`, whose pixels may be of any of its kinds.
#[verifier::external_type_specification]
#[verifier::external_body]
pub struct ExDynamicImage(image::DynamicImage);

/// The width and the height of a decoded picture.
pub uninterp spec fn picture_size(image: image::DynamicImage) -> (u32, u32);

/// The pixels of a decoded picture, row by row, three bytes each: red, green and blue. More
/// bytes may follow them.
pub uninterp spec fn rgb_pixels(image: image::DynamicImage) -> Seq<u8>;

/// Whether scaling a decoded picture into a square of a side may give another one.
pub uninterp spec fn may_scale_to(image: image::DynamicImage, side: u32, scaled: image::DynamicImage) -> bool;

/// `image::GenericImageView::dimensions` gives the width and the height of a picture.
#[verifier::external_body]
pub(crate) fn dimensions_of(image: &image::DynamicImage) -> (size: (u32, u32))
    ensures
        size == picture_size(*image),
{
    image::GenericImageView::dimensions(image)
}

/// `image::DynamicImage::to_rgb8` turns the pixels of a picture into three bytes each, and
/// `into_raw` hands the bytes over. It works pixel by pixel, so that the size stays the same;
/// a picture that is already of this kind may have been given more bytes than it has pixels
/// for, and is copied with them.
#[verifier::external_body]
fn to_rgb(image: &image::DynamicImage) -> (rgb: RgbPixels)
    ensures
        rgb.pixels@.len() >= pixel_bytes(rgb.width as int, rgb.height as int),
        (rgb.width, rgb.height) == picture_size(*image),
        rgb.pixels@ == rgb_pixels(*image),
{
    let rgb = image.to_rgb8();
    RgbPixels { width: rgb.width(), height: rgb.height(), pixels: rgb.into_raw() }
}

/// The bytes of the pixels of a decoded picture, without any behind the last pixel.
pub open spec fn exact_pixels(image: image::DynamicImage) -> Seq<u8> {
    let size = picture_size(image);
    rgb_pixels(image).take(pixel_bytes(size.0 as int, size.1 as int))
}

/// Turns the pixels of a picture into three bytes each.
pub fn rgb_of(image: &image::DynamicImage) -> (rgb: RgbPixels)
    ensures
        rgb.well_formed(),
        (rgb.width, rgb.height) == picture_size(*image),
        rgb.pixels@ == exact_pixels(*image),
{
    let mut rgb: RgbPixels = to_rgb(image);
    let ghost all = rgb.pixels@;
    let available: usize = rgb.pixels.len();
    let width: usize = rgb.width as usize;
    let height: usize = rgb.height as usize;
    proof {
        assert(0 <= width * height <= width * height * 3) by (nonlinear_arith)
            requires
                0 <= width,
                0 <= height,
        ;
        assert(width * height * 3 <= available);
    }
    let count: usize = width * height * 3;
    rgb.pixels.truncate(count);
    assert(rgb.pixels@ =~= all.take(count as int));
    rgb
}

/// Makes the thumbnail of a decoded picture, as a data URL. There is no URL if it would be
/// longer than a text can be.
pub fn make_thumbnail(image: &image::DynamicImage) -> (result: Result<Option<String>, String>)
    requires
        0 < picture_size(*image).0 || 0 < picture_size(*image).1,
    ensures
        ({
            let size = picture_size(*image);
            let bytes = thumbnail_jpeg(rgb_pixels(*image), size.0, size.1);
            &&& result matches Ok(url)
            &&& url is Some <==> encodable(bytes.len() as int)
            &&& url matches Some(url) ==> url@ == data_url(bytes)
        }),
{
    let rgb: RgbPixels = to_rgb(image);
    let available: usize = rgb.pixels.len();
    assert(pixel_bytes(rgb.width as int, rgb.height as int) <= available);
    match encode_thumbnail(rgb.pixels, rgb.width, rgb.height) {
        Ok(bytes) => {
            if is_encodable(bytes.len()) {
                Ok(Some(thumbnail_data_url(&bytes)))
            } else {
                Ok(None)
            }
        },
        Err(message) => Err(message),
    }
}

/// How much of a stretch of `length` from `start` lies within the first `end` places.
pub open spec fn within(start: int, length: int, end: int) -> int {
    if start >= end {
        0
    } else if length <= end - start {
        length
    } else {
        end - start
    }
}

/// The pixels of a rectangle of a picture whose rows are `stride` pixels long.
pub open spec fn rectangle(pixels: Seq<u8>, stride: int, x: int, y: int, width: int, height: int) -> Seq<u8> {
    Seq::new(
        pixel_bytes(width, height) as nat,
        |k: int| pixels[3 * ((y + k / (3 * width)) * stride + x) + k % (3 * width)],
    )
}

/// A picture is the part of another one that lies in a rectangle, as far as it reaches.
pub open spec fn is_part(
    image: image::DynamicImage,
    x: u32,
    y: u32,
    width: u32,
    height: u32,
    part: image::DynamicImage,
) -> bool {
    let size = picture_size(image);
    let part_width = within(x as int, width as int, size.0 as int);
    let part_height = within(y as int, height as int, size.1 as int);
    &&& picture_size(part).0 == part_width
    &&& picture_size(part).1 == part_height
    &&& rgb_pixels(part) == rectangle(
        rgb_pixels(image),
        size.0 as int,
        x as int,
        y as int,
        part_width,
        part_height,
    )
}

/// `image::DynamicImage::crop_imm` copies the pixels of a rectangle that lie on the picture.
#[verifier::external_body]
fn crop(image: &image::DynamicImage, x: u32, y: u32, width: u32, height: u32) -> (part: image::DynamicImage)
    ensures
        is_part(*image, x, y, width, height, part),
{
    image.crop_imm(x, y, width, height)
}

/// A size is that of a picture scaled to be as large as a square allows: the longer edge
/// is that of the square, and the other one is in proportion, give or take one pixel, and
/// no less than one.
pub open spec fn fits_square(size: (u32, u32), side: u32, scaled: (u32, u32)) -> bool {
    &&& 1 <= scaled.0 <= side
    &&& 1 <= scaled.1 <= side
    &&& 1 <= size.1 <= size.0 ==> scaled.0 == side && -size.0 <= scaled.1 * size.0 - size.1 * side <= size.0
    &&& 1 <= size.0 <= size.1 ==> scaled.1 == side && -size.1 <= scaled.0 * size.1 - size.0 * side <= size.1
}

/// `image::DynamicImage::resize` with `Lanczos3` scales a picture to the largest size that
/// fits in a square, keeping its proportions. Which values the pixels get is left unsaid:
/// they rest on the sine function of the machine, so that only what the call may give is
/// named. It panics where the rows that it scales first cannot be held.
#[verifier::external_body]
pub(crate) fn scale_into(image: &image::DynamicImage, side: u32) -> (scaled: image::DynamicImage)
    requires
        1 <= side <= 65535,
        picture_size(*image).0 * side * 16 <= isize::MAX,
    ensures
        may_scale_to(*image, side, scaled),
        fits_square(picture_size(*image), side, picture_size(scaled)),
{
    image.resize(side, side, image::imageops::FilterType::Lanczos3)
}

/// The rectangle of a face on a picture, from its first to behind its last column and row.
#[derive(Debug, Clone, Copy)]
pub struct FaceArea {
    pub x1: u32,
    pub y1: u32,
    pub x2: u32,
    pub y2: u32,
}

/// The length of a stretch from its first place to behind its last one.
pub open spec fn length_between(start: u32, end: u32) -> u32 {
    if end > start {
        (end - start) as u32
    } else {
        0
    }
}

/// Encodes the pixels cut out for a face as a data URL: there is none for a picture
/// without pixels or with an edge of more than 65535, nor for one that would be longer
/// than a text can be.
pub fn encode_face(cut: &RgbPixels) -> (url: Option<String>)
    requires
        cut.well_formed(),
    ensures
        ({
            let bytes = jpeg(cut.pixels@, cut.width, cut.height, FACE_THUMBNAIL_QUALITY);
            &&& url is Some <==> 1 <= cut.width <= 65535 && 1 <= cut.height <= 65535 && encodable(
                bytes.len() as int,
            )
            &&& url matches Some(url) ==> url@ == data_url(bytes)
        }),
{
    match encode_jpeg(&cut.pixels, cut.width, cut.height, FACE_THUMBNAIL_QUALITY) {
        Ok(bytes) => {
            if is_encodable(bytes.len()) {
                Some(thumbnail_data_url(&bytes))
            } else {
                None
            }
        },
        Err(_) => None,
    }
}

/// A data URL is that of the thumbnail made of a part of a picture.
pub open spec fn is_face_thumbnail(part: image::DynamicImage, small: image::DynamicImage, url: Option<Seq<char>>) -> bool {
    let size = picture_size(small);
    let bytes = jpeg(exact_pixels(small), size.0, size.1, FACE_THUMBNAIL_QUALITY);
    &&& may_scale_to(part, FACE_THUMBNAIL_BOUND, small)
    &&& fits_square(picture_size(part), FACE_THUMBNAIL_BOUND, size)
    &&& url == if encodable(bytes.len() as int) {
        Some(data_url(bytes))
    } else {
        None
    }
}

/// Makes the thumbnail of a face, as a data URL: of the part of the picture that the face
/// takes, scaled into a square. There is none where it would be longer than a text can be.
pub fn make_face_thumbnail(image: &image::DynamicImage, area: FaceArea) -> (url: Option<String>)
    requires
        (area.x2 - area.x1) * FACE_THUMBNAIL_BOUND * 16 <= isize::MAX,
    ensures
        exists|part: image::DynamicImage, small: image::DynamicImage| #[trigger]
            is_face_thumbnail(part, small, optional_text(url)) && is_part(
                *image,
                area.x1,
                area.y1,
                length_between(area.x1, area.x2),
                length_between(area.y1, area.y2),
                part,
            ),
{
    let width: u32 = if area.x2 > area.x1 {
        area.x2 - area.x1
    } else {
        0
    };
    let height: u32 = if area.y2 > area.y1 {
        area.y2 - area.y1
    } else {
        0
    };
    let part: image::DynamicImage = crop(image, area.x1, area.y1, width, height);
    let small: image::DynamicImage = scale_into(&part, FACE_THUMBNAIL_BOUND);
    let url: Option<String> = encode_face(&rgb_of(&small));
    assert(is_face_thumbnail(part, small, optional_text(url)));
    url
}

// ---------------------------------------------------------------------------
// Fetching thumbnails
// ---------------------------------------------------------------------------

/// A record of which a thumbnail has been fetched, where it had none and there is one.
pub open spec fn with_thumbnail(record: ImageText, jpeg: Option<Seq<u8>>) -> ImageText {
    match jpeg {
        Some(bytes) if record.thumbnail.len() == 0 => ImageText { thumbnail: data_url(bytes), ..record },
        _ => record,
    }
}

/// What is held of fetched bytes.
pub open spec fn optional_bytes(bytes: Option<Vec<u8>>) -> Option<Seq<u8>> {
    match bytes {
        Some(bytes) => Some(bytes@),
        None => None,
    }
}

/// Whether a thumbnail is missing on one of the records.
pub fn misses_thumbnails(records: &Vec<ImageRecord>) -> (missing: bool)
    ensures
        missing == exists|k: int|
            0 <= k < images(records@).len() && (#[trigger] images(records@)[k]).thumbnail.len() == 0,
{
    for i in 0..records.len()
        invariant
            forall|k: int| 0 <= k < i ==> (#[trigger] images(records@)[k]).thumbnail.len() > 0,
    {
        assert(images(records@)[i as int] == records@[i as int]@);
        if chars_of(records[i].thumbnail.as_str()).len() == 0 {
            return true;
        }
    }
    false
}

/// Puts fetched thumbnails on the records that have none; `jpegs` holds for each record
/// the bytes that were fetched for its path.
pub fn hydrate_thumbnails(records: &mut Vec<ImageRecord>, jpegs: &Vec<Option<Vec<u8>>>)
    requires
        jpegs@.len() == old(records)@.len(),
        forall|k: int| 0 <= k < jpegs@.len() ==> ((#[trigger] jpegs@[k]) matches Some(bytes) ==> encodable(
            bytes@.len() as int,
        )),
    ensures
        images(final(records)@) == Seq::new(
            old(records)@.len(),
            |k: int| with_thumbnail(old(records)@[k]@, optional_bytes(jpegs@[k])),
        ),
{
    let ghost start = records@;
    let count: usize = records.len();
    for i in 0..count
        invariant
            count == records@.len(),
            count == start.len(),
            jpegs@.len() == count,
            forall|k: int| 0 <= k < jpegs@.len() ==> ((#[trigger] jpegs@[k]) matches Some(bytes) ==> encodable(
                bytes@.len() as int,
            )),
            forall|k: int| i <= k < count ==> records@[k] == start[k],
            forall|k: int|
                0 <= k < i ==> (#[trigger] records@[k])@ == with_thumbnail(start[k]@, optional_bytes(jpegs@[k])),
    {
        assert(records@[i as int] == start[i as int]);
        match &jpegs[i] {
            Some(bytes) => {
                if chars_of(records[i].thumbnail.as_str()).len() == 0 {
                    records[i].thumbnail = thumbnail_data_url(bytes);
                }
            },
            None => {},
        }
    }
    assert(images(records@) =~= Seq::new(
        start.len(),
        |k: int| with_thumbnail(start[k]@, optional_bytes(jpegs@[k])),
    ));
}

// ---------------------------------------------------------------------------
// What thumbnails are like
// ---------------------------------------------------------------------------

/// The longer edge of a thumbnail is 480, and its shorter one is in proportion, off by no more than
/// half a pixel, and at least one pixel.
pub proof fn law_thumbnails_keep_their_proportions(width: u32, height: u32, size: (u32, u32))
    requires
        0 < width || 0 < height,
        call_ensures(thumbnail_dimensions, (width, height), size),
    ensures
        width >= height ==> size.0 == 480 && 1 <= size.1 <= 480,
        height >= width ==> size.1 == 480 && 1 <= size.0 <= 480,
        width >= height && size.1 > 1 ==> -(width as int) - 1 < 2 * size.1 * width - 2 * height * 480 <= width,
        width >= height && size.1 == 1 ==> 2 * height * 480 < 3 * width,
        height >= width && size.0 == 1 ==> 2 * width * 480 < 3 * height,
        height >= width && size.0 > 1 ==> -(height as int) - 1 < 2 * size.0 * height - 2 * width * 480 <= height,
{
    law_thumbnail_fits_the_longest_edge(width as int, height as int);
    if width >= height {
        lemma_scaled_edge(height as int, width as int);
    }
    if height >= width {
        lemma_scaled_edge(width as int, height as int);
    }
}

/// A thumbnail, as a data URL, holds the JPEG picture made of all pixels of the picture, brought
/// to the dimensions of thumbnails, in a quality of 78.
pub proof fn law_a_thumbnail_shows_the_whole_picture(
    image: &image::DynamicImage,
    result: Result<Option<String>, String>,
    size: (u32, u32),
)
    requires
        0 < picture_size(*image).0 || 0 < picture_size(*image).1,
        call_ensures(make_thumbnail, (image,), result),
        call_ensures(thumbnail_dimensions, (picture_size(*image).0, picture_size(*image).1), size),
    ensures
        result is Ok,
        ({
            let whole = picture_size(*image);
            let small = resized(rgb_pixels(*image), whole.0, whole.1, size.0, size.1);
            let bytes = jpeg(small, size.0, size.1, 78);
            &&& result->Ok_0 is Some ==> url_bytes(result->Ok_0->0@) == Some(bytes)
            &&& result->Ok_0 is Some <==> encodable(bytes.len() as int)
        }),
{
    let whole = picture_size(*image);
    let bytes = thumbnail_jpeg(rgb_pixels(*image), whole.0, whole.1);
    law_thumbnail_fits_the_longest_edge(whole.0 as int, whole.1 as int);
    law_data_url_gives_bytes_back(bytes);
}

/// What is written as a data URL is read back from it, and a text is read as one only where it is.
pub proof fn law_data_urls_are_read_back(
    bytes: &Vec<u8>,
    url: String,
    value: &str,
    read: Option<Vec<u8>>,
)
    requires
        encodable(bytes@.len() as int),
        call_ensures(thumbnail_data_url, (bytes,), url),
        call_ensures(decode_thumbnail_data_url, (value,), read),
    ensures
        value@ == url@ ==> read is Some && read->0@ == bytes@,
        value@.len() < 23 ==> read is None,
        read is Some ==> value@.take(23) == "data:image/jpeg;base64,"@,
        url@.take(23) == "data:image/jpeg;base64,"@,
{
    reveal_strlit("data:image/jpeg;base64,");
    law_data_url_gives_bytes_back(bytes@);
    assert(url@.take(23) =~= "data:image/jpeg;base64,"@);
    if read is Some {
        let held = choose|held: Seq<u8>| value@ == #[trigger] data_url(held);
        assert(value@ == data_url(held));
        assert(value@.take(23) =~= "data:image/jpeg;base64,"@);
    }
}

/// A fetched thumbnail is put on exactly the records that have none, as a data URL of the bytes
/// that were fetched; all else of the records stays.
pub proof fn law_missing_thumbnails_are_filled_in(
    records: &mut Vec<ImageRecord>,
    jpegs: &Vec<Option<Vec<u8>>>,
    at: int,
)
    requires
        jpegs@.len() == old(records)@.len(),
        call_ensures(hydrate_thumbnails, (records, jpegs), ()),
        0 <= at < jpegs@.len(),
    ensures
        final(records)@.len() == old(records)@.len(),
        ({
            let before = old(records)@[at]@;
            let after = final(records)@[at]@;
            &&& after.id == before.id
            &&& after.path == before.path
            &&& after.filename == before.filename
            &&& after.modified_at == before.modified_at
            &&& after.captured_at == before.captured_at
            &&& after.width == before.width
            &&& after.height == before.height
            &&& after.ocr_text == before.ocr_text
            &&& after.people == before.people
            &&& after.score == before.score
            &&& after.face_group_ids == before.face_group_ids
            &&& before.thumbnail.len() > 0 || jpegs@[at] is None ==> after.thumbnail == before.thumbnail
            &&& before.thumbnail.len() == 0 && jpegs@[at] is Some ==> url_bytes(after.thumbnail) == Some(
                jpegs@[at]->0@,
            )
        }),
{
    let after = images(final(records)@);
    assert(after.len() == old(records)@.len());
    assert(after[at] == final(records)@[at]@);
    assert(after[at] == with_thumbnail(old(records)@[at]@, optional_bytes(jpegs@[at])));
    if jpegs@[at] is Some {
        law_data_url_gives_bytes_back(jpegs@[at]->0@);
    }
}

/// The thumbnail of a face is made of the part of the picture that the face takes, brought into a
/// square of 180, in a quality of 82.
pub proof fn law_a_face_thumbnail_shows_the_face(
    image: &image::DynamicImage,
    area: FaceArea,
    url: Option<String>,
) -> (made: (image::DynamicImage, image::DynamicImage))
    requires
        (area.x2 - area.x1) * 180 * 16 <= isize::MAX,
        area.x1 < area.x2,
        area.y1 < area.y2,
        call_ensures(make_face_thumbnail, (image, area), url),
    ensures
        is_part(*image, area.x1, area.y1, (area.x2 - area.x1) as u32, (area.y2 - area.y1) as u32, made.0),
        may_scale_to(made.0, 180, made.1),
        fits_square(picture_size(made.0), 180, picture_size(made.1)),
        url is Some ==> url_bytes(url->0@) == Some(
            jpeg(exact_pixels(made.1), picture_size(made.1).0, picture_size(made.1).1, 82),
        ),
        url is Some <==> encodable(
            jpeg(exact_pixels(made.1), picture_size(made.1).0, picture_size(made.1).1, 82).len() as int,
        ),
{
    let (part, small) = choose|part: image::DynamicImage, small: image::DynamicImage| #[trigger]
        is_face_thumbnail(part, small, optional_text(url)) && is_part(
            *image,
            area.x1,
            area.y1,
            length_between(area.x1, area.x2),
            length_between(area.y1, area.y2),
            part,
        );
    let size = picture_size(small);
    law_data_url_gives_bytes_back(jpeg(exact_pixels(small), size.0, size.1, FACE_THUMBNAIL_QUALITY));
    (part, small)
}

/// A thumbnail is missed exactly where a record has none.
pub proof fn law_thumbnails_are_missed_where_there_is_none(records: &Vec<ImageRecord>, missing: bool, at: int)
    requires
        call_ensures(misses_thumbnails, (records,), missing),
        0 <= at < records@.len(),
    ensures
        records@[at].thumbnail@.len() == 0 ==> missing,
        missing ==> exists|k: int| 0 <= k < records@.len() && (#[trigger] records@[k]).thumbnail@.len() == 0,
{
    let all = images(records@);
    assert(all[at].thumbnail == records@[at].thumbnail@);
    if missing {
        let k = choose|k: int| 0 <= k < all.len() && (#[trigger] all[k]).thumbnail.len() == 0;
        assert(records@[k].thumbnail@.len() == 0);
    }
}

} // verus!
