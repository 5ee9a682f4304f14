//! The three image stages that the workers run: decode a chunk, encode a
//! tile's parts, and build a parent from its children.

use vstd::prelude::*;

use crate::error::EngineError;
use crate::image::{blit, blitted, crop, cropped, flatten_transparency, flattened, new_transparent, RgbaImage};
use crate::parts::{get_tile_parts, part_path, part_positions, parts_representable};
use crate::tile::{Tile, TileView};
use crate::{JPEG_QUALITY, NUM_PARTS, PART_SIZE, TILE_SIZE};

verus! {

#[verifier::external_type_specification]
#[verifier::external_body]
pub struct ExImageError(image::ImageError);

#[verifier::external_type_specification]
#[verifier::external_body]
pub struct ExEncodingError(jpeg_encoder::EncodingError);

/// Width, height and RGBA pixels of the image that `bytes` encode; none where
/// they encode no image that can be decoded.
pub uninterp spec fn decoded_rgba8(bytes: Seq<u8>) -> Option<(u32, u32, Seq<u8>)>;

/// The JPEG file of RGBA pixels of the given size at the given quality.
pub uninterp spec fn jpeg_encoded(pixels: Seq<u8>, width: u16, height: u16, quality: u8) -> Seq<u8>;

/// RGBA pixels of one size down-sampled to another by Lanczos-3 convolution.
pub uninterp spec fn lanczos3_resized(
    pixels: Seq<u8>,
    width: u32,
    height: u32,
    dst_width: u32,
    dst_height: u32,
) -> Seq<u8>;

/// Relies on `image::load_from_memory`, which tells the format from the bytes'
/// content, and on `DynamicImage::into_rgba8`: whether decoding succeeds and
/// the decoded image depend on the bytes alone, and the pixel buffer holds
/// exactly four bytes per pixel (decoders fill a buffer of the image's size).
#[verifier::external_body]
fn load_rgba8(bytes: &Vec<u8>) -> (r: Result<RgbaImage, image::ImageError>)
    ensures
        r is Ok <==> decoded_rgba8(bytes@) is Some,
        r matches Ok(img) ==> decoded_rgba8(bytes@) == Some((img.width, img.height, img.data@))
            && img.data@.len() == 4 * img.width * img.height,
{
    match image::load_from_memory(bytes) {
        Ok(img) => {
            let img = img.into_rgba8();
            Ok(RgbaImage { width: img.width(), height: img.height(), data: img.into_raw() })
        },
        Err(e) => Err(e),
    }
}

/// Relies on `jpeg_encoder::Encoder::encode` with RGBA input, writing into
/// memory: the file depends on the pixels, the size and the quality alone; it
/// refuses too little pixel data and a zero width or height, and nothing else,
/// since writing into a `Vec` cannot fail.
#[verifier::external_body]
fn encode_jpeg(pixels: &Vec<u8>, width: u16, height: u16, quality: u8) -> (r: Result<
    Vec<u8>,
    jpeg_encoder::EncodingError,
>)
    ensures
        r matches Ok(bytes) ==> bytes@ == jpeg_encoded(pixels@, width, height, quality),
        (width == 0 || height == 0 || pixels@.len() < 4 * width * height) ==> r is Err,
        (width > 0 && height > 0 && pixels@.len() >= 4 * width * height) ==> r is Ok,
{
    let mut out: Vec<u8> = Vec::new();
    let encoder = jpeg_encoder::Encoder::new(&mut out, quality);
    match encoder.encode(pixels, width, height, jpeg_encoder::ColorType::Rgba) {
        Ok(()) => Ok(out),
        Err(e) => Err(e),
    }
}

/// Relies on fast_image_resize's `Resizer` with Lanczos-3 convolution on
/// four-byte pixels, alpha not premultiplied: the result depends on the pixels
/// and both sizes alone, and `Image::new` sizes it to the destination. None
/// where `Image::from_vec_u8` refuses the buffer (too short, or not aligned for
/// four-byte pixels).
#[verifier::external_body]
fn resize_lanczos3(pixels: Vec<u8>, width: u32, height: u32, dst_width: u32, dst_height: u32) -> (r:
    Option<Vec<u8>>)
    requires
        width > 0,
        height > 0,
        dst_width > 0,
        dst_height > 0,
        width * height <= u32::MAX,
        dst_width * dst_height <= u32::MAX,
    ensures
        r matches Some(d) ==> d@ == lanczos3_resized(pixels@, width, height, dst_width, dst_height)
            && d@.len() == 4 * dst_width * dst_height,
{
    let w = std::num::NonZeroU32::new(width)?;
    let h = std::num::NonZeroU32::new(height)?;
    let dw = std::num::NonZeroU32::new(dst_width)?;
    let dh = std::num::NonZeroU32::new(dst_height)?;
    let src = fast_image_resize::Image::from_vec_u8(w, h, pixels, fast_image_resize::PixelType::U8x4).ok()?;
    let mut dst = fast_image_resize::Image::new(dw, dh, fast_image_resize::PixelType::U8x4);
    let alg = fast_image_resize::ResizeAlg::Convolution(fast_image_resize::FilterType::Lanczos3);
    fast_image_resize::Resizer::new(alg).resize(&src.view(), &mut dst.view_mut()).ok()?;
    Some(dst.into_vec())
}

/// Decodes a chunk image into RGBA pixels.
pub fn decode_chunk(bytes: &Vec<u8>) -> (r: Result<RgbaImage, EngineError>)
    ensures
        r is Ok <==> decoded_rgba8(bytes@) is Some,
        r matches Ok(img) ==> img.wf() && decoded_rgba8(bytes@) == Some(
            (img.width, img.height, img.data@),
        ),
        r matches Err(e) ==> e == EngineError::DecodeFailure,
{
    match load_rgba8(bytes) {
        Ok(img) => Ok(img),
        Err(_) => Err(EngineError::DecodeFailure),
    }
}

/// A stored part of a tile: its path below the output's tile directory, and
/// its encoded bytes.
#[derive(Debug)]
pub struct EncodedPart {
    pub path: String,
    pub bytes: Vec<u8>,
}

/// Whether an image is a whole tile.
pub open spec fn is_tile_image(img: RgbaImage) -> bool {
    img.wf() && img.width == TILE_SIZE && img.height == TILE_SIZE
}

/// The pixels stored for part `(px, py)` of a tile: cut out, with transparency flattened.
pub open spec fn part_pixels_spec(tile_pixels: Seq<u8>, px: int, py: int) -> Seq<u8> {
    flattened(
        cropped(
            tile_pixels,
            TILE_SIZE as int,
            px * PART_SIZE,
            py * PART_SIZE,
            PART_SIZE as int,
            PART_SIZE as int,
        ),
    )
}

/// The pixels stored for part `(px, py)` of a tile image.
pub fn part_pixels(image: &RgbaImage, px: u32, py: u32) -> (r: Vec<u8>)
    requires
        is_tile_image(*image),
        px < NUM_PARTS,
        py < NUM_PARTS,
    ensures
        r@ == part_pixels_spec(image.data@, px as int, py as int),
        r@.len() == 4 * PART_SIZE * PART_SIZE,
{
    let sub = crop(image, px * PART_SIZE, py * PART_SIZE, PART_SIZE, PART_SIZE);
    flatten_transparency(&sub.data)
}

/// Whether `img` is a tile-sized image of the correct size, checked on the machine.
fn check_tile_image(img: &RgbaImage) -> (r: bool)
    ensures
        r == is_tile_image(*img),
{
    img.width == TILE_SIZE && img.height == TILE_SIZE && img.data.len() == 4 * 1024 * 1024
}

/// Cuts a finished tile into its parts, flattens their transparency and
/// encodes each as JPEG, in storage order, each with its relative path.
pub fn tile_encode_parts(tile: &Tile, image: &RgbaImage) -> (r: Result<Vec<EncodedPart>, EngineError>)
    requires
        parts_representable(tile@),
    ensures
        r is Ok <==> is_tile_image(*image),
        r matches Err(e) ==> e == EngineError::BadDimensions,
        r matches Ok(parts) ==> {
            &&& parts@.len() == part_positions().len()
            &&& forall|i: int|
                0 <= i < parts@.len() ==> {
                    let (px, py) = part_positions()[i];
                    &&& (#[trigger] parts@[i]).path@ == part_path(px, py, tile@)
                    &&& parts@[i].bytes@ == jpeg_encoded(
                        part_pixels_spec(image.data@, px, py),
                        PART_SIZE as u16,
                        PART_SIZE as u16,
                        JPEG_QUALITY,
                    )
                }
        },
{
    if !check_tile_image(image) {
        return Err(EngineError::BadDimensions);
    }
    let parts = get_tile_parts();
    let mut out: Vec<EncodedPart> = Vec::new();
    let mut i: usize = 0;
    while i < parts.len()
        invariant
            is_tile_image(*image),
            parts_representable(tile@),
            parts@.len() == part_positions().len(),
            forall|j: int|
                0 <= j < parts@.len() ==> (#[trigger] parts@[j].x as int, parts@[j].y as int)
                    == part_positions()[j],
            i <= parts@.len(),
            out@.len() == i,
            forall|j: int|
                0 <= j < i ==> {
                    let (px, py) = part_positions()[j];
                    &&& (#[trigger] out@[j]).path@ == part_path(px, py, tile@)
                    &&& out@[j].bytes@ == jpeg_encoded(
                        part_pixels_spec(image.data@, px, py),
                        PART_SIZE as u16,
                        PART_SIZE as u16,
                        JPEG_QUALITY,
                    )
                },
        decreases parts@.len() - i,
    {
        let part = parts[i];
        assert((part.x as int, part.y as int) == part_positions()[i as int]);
        let pixels = part_pixels(image, part.x, part.y);
        let bytes = match encode_jpeg(&pixels, PART_SIZE as u16, PART_SIZE as u16, JPEG_QUALITY) {
            Ok(b) => b,
            Err(_) => {
                return Err(EngineError::EncodeFailure);
            },
        };
        let path = part.get_path(tile);
        out.push(EncodedPart { path, bytes });
        i += 1;
    }
    Ok(out)
}

/// Whether `child` is a child of `parent`.
pub open spec fn is_child_of(parent: TileView, child: TileView) -> bool {
    &&& child.zoom == parent.zoom + 1
    &&& 0 <= child.x - 2 * parent.x <= 1
    &&& 0 <= child.y - 2 * parent.y <= 1
}

/// The canvas twice a tile's size, transparent black, with each child's image
/// copied into its quadrant, later children over earlier ones.
pub open spec fn canvas_of(parent: TileView, children: Seq<(Tile, RgbaImage)>) -> Seq<u8>
    decreases children.len(),
{
    if children.len() == 0 {
        Seq::new((4 * (2 * TILE_SIZE) * (2 * TILE_SIZE)) as nat, |i: int| 0u8)
    } else {
        let c = children.last();
        blitted(
            canvas_of(parent, children.drop_last()),
            2 * TILE_SIZE,
            c.1.data@,
            TILE_SIZE as int,
            TILE_SIZE as int,
            (c.0@.x - 2 * parent.x) * TILE_SIZE,
            (c.0@.y - 2 * parent.y) * TILE_SIZE,
        )
    }
}

/// Builds a parent tile: copies each child into its quadrant of a transparent
/// canvas twice a tile's size, then down-samples the canvas to a tile.
pub fn build_parent(parent: &Tile, children: &Vec<(Tile, RgbaImage)>) -> (r: Result<RgbaImage, EngineError>)
    ensures
        r matches Err(EngineError::NotAChild) <==> exists|i: int|
            0 <= i < children@.len() && !is_child_of(parent@, #[trigger] children@[i].0@),
        (forall|i: int| 0 <= i < children@.len() ==> is_child_of(parent@, #[trigger] children@[i].0@))
            ==> (r matches Err(EngineError::BadDimensions) <==> exists|i: int|
            0 <= i < children@.len() && !is_tile_image(#[trigger] children@[i].1)),
        r matches Err(e) ==> e == EngineError::NotAChild || e == EngineError::BadDimensions || e
            == EngineError::ResizeFailure,
        r matches Ok(img) ==> {
            &&& img.wf()
            &&& img.width == TILE_SIZE
            &&& img.height == TILE_SIZE
            &&& img.data@ == lanczos3_resized(
                canvas_of(parent@, children@),
                (2 * TILE_SIZE) as u32,
                (2 * TILE_SIZE) as u32,
                TILE_SIZE,
                TILE_SIZE,
            )
        },
{
    let mut i: usize = 0;
    while i < children.len()
        invariant
            i <= children@.len(),
            forall|j: int| 0 <= j < i ==> is_child_of(parent@, #[trigger] children@[j].0@),
        decreases children@.len() - i,
    {
        let dx = children[i].0.x as i64 - 2 * (parent.x as i64);
        let dy = children[i].0.y as i64 - 2 * (parent.y as i64);
        if children[i].0.zoom as i64 != parent.zoom as i64 + 1 || dx < 0 || dx > 1 || dy < 0 || dy > 1 {
            assert(!is_child_of(parent@, children@[i as int].0@));
            return Err(EngineError::NotAChild);
        }
        i += 1;
    }
    let mut i: usize = 0;
    while i < children.len()
        invariant
            i <= children@.len(),
            forall|j: int| 0 <= j < i ==> is_tile_image(#[trigger] children@[j].1),
            forall|j: int| 0 <= j < children@.len() ==> is_child_of(parent@, #[trigger] children@[j].0@),
        decreases children@.len() - i,
    {
        if !check_tile_image(&children[i].1) {
            assert(!is_tile_image(children@[i as int].1));
            return Err(EngineError::BadDimensions);
        }
        i += 1;
    }
    let mut canvas = new_transparent(2 * TILE_SIZE, 2 * TILE_SIZE);
    assert(canvas.data@ =~= canvas_of(parent@, children@.take(0)));
    let mut i: usize = 0;
    while i < children.len()
        invariant
            i <= children@.len(),
            forall|j: int| 0 <= j < children@.len() ==> is_child_of(parent@, #[trigger] children@[j].0@),
            forall|j: int| 0 <= j < children@.len() ==> is_tile_image(#[trigger] children@[j].1),
            canvas.wf(),
            canvas.width == 2 * TILE_SIZE,
            canvas.height == 2 * TILE_SIZE,
            canvas.data@ == canvas_of(parent@, children@.take(i as int)),
        decreases children@.len() - i,
    {
        let child = &children[i];
        assert(is_child_of(parent@, children@[i as int].0@));
        let dx = (child.0.x as i64 - 2 * (parent.x as i64)) as u32;
        let dy = (child.0.y as i64 - 2 * (parent.y as i64)) as u32;
        canvas = blit(&canvas, &child.1, dx * TILE_SIZE, dy * TILE_SIZE);
        assert(children@.take(i + 1).drop_last() =~= children@.take(i as int));
        assert(children@.take(i + 1).last() == children@[i as int]);
        i += 1;
    }
    assert(children@.take(i as int) =~= children@);
    match resize_lanczos3(canvas.data, 2 * TILE_SIZE, 2 * TILE_SIZE, TILE_SIZE, TILE_SIZE) {
        Some(data) => Ok(RgbaImage { width: TILE_SIZE, height: TILE_SIZE, data }),
        None => Err(EngineError::ResizeFailure),
    }
}

} // verus!
