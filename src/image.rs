//! In-memory RGBA images and the pixel operations of the pipeline.

use vstd::prelude::*;

verus! {

/// An RGBA image, eight bits per channel, rows stored top to bottom.
#[derive(Debug, Clone)]
pub struct RgbaImage {
    pub width: u32,
    pub height: u32,
    pub data: Vec<u8>,
}

impl RgbaImage {
    /// Whether the pixel buffer holds exactly four bytes per pixel.
    pub open spec fn wf(&self) -> bool {
        self.data@.len() == 4 * self.width * self.height
    }
}

/// Offset of channel `c` of pixel `(x, y)` in an image `w` pixels wide.
pub open spec fn byte_at(w: int, x: int, y: int, c: int) -> int {
    4 * (y * w + x) + c
}

/// The `w` by `h` region at `(x0, y0)` of an image `sw` pixels wide.
pub open spec fn cropped(src: Seq<u8>, sw: int, x0: int, y0: int, w: int, h: int) -> Seq<u8> {
    Seq::new(
        (4 * w * h) as nat,
        |i: int| src[byte_at(sw, x0 + (i / 4) % w, y0 + (i / 4) / w, i % 4)],
    )
}

/// An image `dw` pixels wide with the `sw` by `sh` image `src` copied in at `(x0, y0)`.
pub open spec fn blitted(dst: Seq<u8>, dw: int, src: Seq<u8>, sw: int, sh: int, x0: int, y0: int) -> Seq<u8> {
    Seq::new(
        dst.len(),
        |i: int| {
            let x = (i / 4) % dw;
            let y = (i / 4) / dw;
            if x0 <= x < x0 + sw && y0 <= y < y0 + sh {
                src[byte_at(sw, x - x0, y - y0, i % 4)]
            } else {
                dst[i]
            }
        },
    )
}

/// The colour that stands in for transparency where the output has no alpha.
pub open spec fn backdrop(c: int) -> u8 {
    if c == 0 { 27 } else if c == 1 { 45 } else if c == 2 { 51 } else { 0xff }
}

/// Pixels whose alpha is at most 127 become the opaque backdrop colour
/// `(27, 45, 51)`; the others are kept.
pub open spec fn flattened(p: Seq<u8>) -> Seq<u8> {
    Seq::new(
        p.len(),
        |i: int| if p[i - i % 4 + 3] <= 0x7f { backdrop(i % 4) } else { p[i] },
    )
}

/// A fully transparent black image.
pub fn new_transparent(width: u32, height: u32) -> (r: RgbaImage)
    requires
        4 * width * height <= usize::MAX,
    ensures
        r.wf(),
        r.width == width,
        r.height == height,
        forall|i: int| 0 <= i < r.data@.len() ==> r.data@[i] == 0,
{
    proof {
        assert(4 * width <= 4 * width * height || height == 0) by (nonlinear_arith);
    }
    let n: usize = if height == 0 { 0 } else { 4 * (width as usize) * (height as usize) };
    let mut data: Vec<u8> = Vec::new();
    let mut i: usize = 0;
    while i < n
        invariant
            i <= n,
            data@.len() == i,
            forall|j: int| 0 <= j < i ==> data@[j] == 0,
        decreases n - i,
    {
        data.push(0);
        i += 1;
    }
    RgbaImage { width, height, data }
}

proof fn lemma_pixel_index(w: int, h: int, x: int, y: int, c: int)
    requires
        0 <= x < w,
        0 <= y < h,
        0 <= c < 4,
    ensures
        0 <= byte_at(w, x, y, c) < 4 * w * h,
        byte_at(w, x, y, c) / 4 == y * w + x,
        byte_at(w, x, y, c) % 4 == c,
        (byte_at(w, x, y, c) / 4) % w == x,
        (byte_at(w, x, y, c) / 4) / w == y,
{
    assert(0 <= y * w + x < w * h && 0 <= 4 * (y * w + x) + c < 4 * w * h) by (nonlinear_arith)
        requires
            0 <= x < w,
            0 <= y < h,
            0 <= c < 4,
    ;
    vstd::arithmetic::div_mod::lemma_fundamental_div_mod_converse(byte_at(w, x, y, c), 4, y * w + x, c);
    vstd::arithmetic::div_mod::lemma_fundamental_div_mod_converse(y * w + x, w, y, x);
}

/// The `w` by `h` region of `src` at `(x0, y0)`.
pub fn crop(src: &RgbaImage, x0: u32, y0: u32, w: u32, h: u32) -> (r: RgbaImage)
    requires
        src.wf(),
        x0 + w <= src.width,
        y0 + h <= src.height,
        4 * src.width * src.height <= usize::MAX,
    ensures
        r.wf(),
        r.width == w,
        r.height == h,
        r.data@ == cropped(src.data@, src.width as int, x0 as int, y0 as int, w as int, h as int),
{
    let ghost sw = src.width as int;
    let mut data: Vec<u8> = Vec::new();
    let mut y: u32 = 0;
    while y < h
        invariant
            src.wf(),
            x0 + w <= src.width,
            y0 + h <= src.height,
            4 * src.width * src.height <= usize::MAX,
            sw == src.width,
            y <= h,
            data@.len() == 4 * w * y,
            forall|i: int|
                0 <= i < data@.len() ==> data@[i] == src.data@[byte_at(
                    sw,
                    x0 + (i / 4) % (w as int),
                    y0 + (i / 4) / (w as int),
                    i % 4,
                )],
        decreases h - y,
    {
        let mut x: u32 = 0;
        assert(4 * (w * y + 0) == 4 * w * y) by (nonlinear_arith);
        while x < w
            invariant
                src.wf(),
                x0 + w <= src.width,
                y0 + h <= src.height,
                4 * src.width * src.height <= usize::MAX,
                sw == src.width,
                y < h,
                x <= w,
                data@.len() == 4 * (w * y + x),
                forall|i: int|
                    0 <= i < data@.len() ==> data@[i] == src.data@[byte_at(
                        sw,
                        x0 + (i / 4) % (w as int),
                        y0 + (i / 4) / (w as int),
                        i % 4,
                    )],
            decreases w - x,
        {
            let mut c: usize = 0;
            while c < 4
                invariant
                    src.wf(),
                    x0 + w <= src.width,
                    y0 + h <= src.height,
                    4 * src.width * src.height <= usize::MAX,
                    sw == src.width,
                    y < h,
                    x < w,
                    c <= 4,
                    data@.len() == 4 * (w * y + x) + c,
                    forall|i: int|
                        0 <= i < data@.len() ==> data@[i] == src.data@[byte_at(
                            sw,
                            x0 + (i / 4) % (w as int),
                            y0 + (i / 4) / (w as int),
                            i % 4,
                        )],
                decreases 4 - c,
            {
                proof {
                    lemma_pixel_index(sw, src.height as int, (x0 + x) as int, (y0 + y) as int, c as int);
                    lemma_pixel_index(w as int, h as int, x as int, y as int, c as int);
                    assert(4 * ((y0 + y) * sw + (x0 + x)) + c < 4 * sw * src.height);
                }
                let idx: usize = 4 * (((y0 + y) as usize) * (src.width as usize) + ((x0 + x) as usize)) + c;
                let ghost before = data@;
                data.push(src.data[idx]);
                proof {
                    let i0 = before.len() as int;
                    assert((w as int) * (y as int) == (y as int) * (w as int)) by (nonlinear_arith);
                    assert(i0 == byte_at(w as int, x as int, y as int, c as int));
                    assert(idx == byte_at(sw, x0 + x, y0 + y, c as int));
                    assert forall|i: int|
                        0 <= i < data@.len() implies data@[i] == src.data@[byte_at(
                            sw,
                            x0 + (i / 4) % (w as int),
                            y0 + (i / 4) / (w as int),
                            i % 4,
                        )] by {
                        if i < i0 {
                            assert(data@[i] == before[i]);
                        }
                    }
                }
                c += 1;
            }
            assert(4 * (w * y + x) + 4 == 4 * (w * y + (x + 1))) by (nonlinear_arith);
            x += 1;
        }
        assert(4 * (w * y + w) == 4 * w * (y + 1)) by (nonlinear_arith);
        y += 1;
    }
    proof {
        assert(data@ =~= cropped(src.data@, sw, x0 as int, y0 as int, w as int, h as int));
    }
    RgbaImage { width: w, height: h, data }
}

/// `dst` with `src` copied in at `(x0, y0)`.
pub fn blit(dst: &RgbaImage, src: &RgbaImage, x0: u32, y0: u32) -> (r: RgbaImage)
    requires
        dst.wf(),
        src.wf(),
        x0 + src.width <= dst.width,
        y0 + src.height <= dst.height,
    ensures
        r.wf(),
        r.width == dst.width,
        r.height == dst.height,
        r.data@ == blitted(
            dst.data@,
            dst.width as int,
            src.data@,
            src.width as int,
            src.height as int,
            x0 as int,
            y0 as int,
        ),
{
    let ghost spec_out = blitted(
        dst.data@,
        dst.width as int,
        src.data@,
        src.width as int,
        src.height as int,
        x0 as int,
        y0 as int,
    );
    let n = dst.data.len();
    let dw = dst.width as usize;
    let mut out: Vec<u8> = Vec::new();
    let mut i: usize = 0;
    while i < n
        invariant
            dst.wf(),
            src.wf(),
            x0 + src.width <= dst.width,
            y0 + src.height <= dst.height,
            n == dst.data@.len(),
            dw == dst.width,
            spec_out.len() == n,
            spec_out == blitted(
                dst.data@,
                dst.width as int,
                src.data@,
                src.width as int,
                src.height as int,
                x0 as int,
                y0 as int,
            ),
            i <= n,
            out@.len() == i,
            forall|j: int| 0 <= j < i ==> out@[j] == spec_out[j],
        decreases n - i,
    {
        proof {
            if dw == 0 {
                assert(4 * dst.width * dst.height == 0) by (nonlinear_arith)
                    requires
                        dst.width == 0,
                ;
            }
        }
        let p = i / 4;
        let px = p % dw;
        let py = p / dw;
        let c = i % 4;
        let v = if x0 as usize <= px && px < (x0 + src.width) as usize && y0 as usize <= py && py < (y0
            + src.height) as usize {
            proof {
                lemma_pixel_index(
                    src.width as int,
                    src.height as int,
                    px - x0,
                    py - y0,
                    c as int,
                );
            }
            let src_len = src.data.len();
            let ry = py - y0 as usize;
            let rx = px - x0 as usize;
            assert(4 * (ry * src.width + rx) + c < src_len);
            assert(ry * src.width <= ry * src.width + rx);
            let row = ry * (src.width as usize);
            let k = 4 * (row + rx) + c;
            src.data[k]
        } else {
            dst.data[i]
        };
        out.push(v);
        i += 1;
    }
    assert(out@ =~= spec_out);
    RgbaImage { width: dst.width, height: dst.height, data: out }
}

/// The pixels with the transparent ones turned into the opaque backdrop colour.
pub fn flatten_transparency(pixels: &Vec<u8>) -> (r: Vec<u8>)
    requires
        pixels@.len() % 4 == 0,
    ensures
        r@ == flattened(pixels@),
{
    let n = pixels.len();
    let mut out: Vec<u8> = Vec::new();
    let mut i: usize = 0;
    while i < n
        invariant
            n == pixels@.len(),
            n % 4 == 0,
            i <= n,
            out@.len() == i,
            forall|j: int| 0 <= j < i ==> out@[j] == flattened(pixels@)[j],
        decreases n - i,
    {
        let c = i % 4;
        let a = pixels[i - c + 3];
        let v = if a <= 0x7f {
            if c == 0 { 27 } else if c == 1 { 45 } else if c == 2 { 51 } else { 0xff }
        } else {
            pixels[i]
        };
        out.push(v);
        i += 1;
    }
    assert(out@ =~= flattened(pixels@));
    out
}

/// The flattening rule, pixel by pixel: a pixel whose alpha is at most 127
/// becomes the opaque `(27, 45, 51)`; any other pixel is kept. So no output
/// pixel is more than half transparent.
pub proof fn lemma_flattening_rule(p: Seq<u8>, k: int)
    requires
        p.len() % 4 == 0,
        0 <= k,
        4 * k + 4 <= p.len(),
    ensures
        flattened(p).len() == p.len(),
        p[4 * k + 3] <= 0x7f ==> {
            &&& flattened(p)[4 * k] == 27
            &&& flattened(p)[4 * k + 1] == 45
            &&& flattened(p)[4 * k + 2] == 51
            &&& flattened(p)[4 * k + 3] == 0xff
        },
        p[4 * k + 3] > 0x7f ==> forall|c: int|
            0 <= c < 4 ==> #[trigger] flattened(p)[4 * k + c] == p[4 * k + c],
        flattened(p)[4 * k + 3] >= 0x80,
{
    vstd::arithmetic::div_mod::lemma_fundamental_div_mod_converse(4 * k, 4, k, 0);
    vstd::arithmetic::div_mod::lemma_fundamental_div_mod_converse(4 * k + 1, 4, k, 1);
    vstd::arithmetic::div_mod::lemma_fundamental_div_mod_converse(4 * k + 2, 4, k, 2);
    vstd::arithmetic::div_mod::lemma_fundamental_div_mod_converse(4 * k + 3, 4, k, 3);
    assert(flattened(p)[4 * k + 3] == (if p[4 * k + 3] <= 0x7f { backdrop(3) } else { p[4 * k + 3] }));
}

} // verus!
