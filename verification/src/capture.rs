//! Pixel-format conversions for captured frames, and probes for the
//! platform capture backends.
//!
//! Capture backends themselves are outside collaborators that hand the
//! pipeline raw pixel buffers; only the arithmetic on those buffers lives
//! here.

use vstd::prelude::*;

verus! {

/// The packed `Rgb8` bytes obtained from a packed `Rgba8` buffer by
/// dropping every fourth (alpha) byte.  Incomplete trailing groups are
/// dropped.
pub open spec fn rgb_of(rgba: Seq<u8>) -> Seq<u8> {
    Seq::new((3 * (rgba.len() / 4)) as nat, |i: int| rgba[4 * (i / 3) + i % 3])
}

/// Drops the alpha channel from a packed `Rgba8` buffer.
pub fn rgba_to_rgb(rgba: &[u8]) -> (rgb: Vec<u8>)
    ensures
        rgb@ == rgb_of(rgba@),
{
    let n = rgba.len();
    let groups = n / 4;
    let mut rgb: Vec<u8> = Vec::new();
    let mut g: usize = 0;
    while g < groups
        invariant
            n == rgba@.len(),
            groups == n / 4,
            0 <= g <= groups,
            rgb@.len() == 3 * g,
            forall|j: int| 0 <= j < 3 * g ==> rgb@[j] == rgba@[4 * (j / 3) + j % 3],
        decreases groups - g,
    {
        proof {
            assert(4 * (g as int) + 3 < n && 3 * (g as int) + 3 <= 3 * (groups as int))
                by (nonlinear_arith)
                requires
                    0 <= g < groups && groups == n / 4,
            ;
        }
        let base = 4 * g;
        rgb.push(*vstd::slice::slice_index_get(rgba, base));
        rgb.push(*vstd::slice::slice_index_get(rgba, base + 1));
        rgb.push(*vstd::slice::slice_index_get(rgba, base + 2));
        proof {
            let gi = g as int;
            assert((3 * gi + 0) / 3 == gi && (3 * gi + 0) % 3 == 0 && (3 * gi + 1) / 3 == gi && (3
                * gi + 1) % 3 == 1 && (3 * gi + 2) / 3 == gi && (3 * gi + 2) % 3 == 2)
                by (nonlinear_arith)
                requires
                    gi >= 0,
            ;
        }
        g = g + 1;
    }
    proof {
        assert(rgb@ =~= rgb_of(rgba@));
    }
    rgb
}

/// The `Rgba8` bytes obtained from a row-padded `Bgra8` capture buffer by
/// swapping the blue and red channels and dropping the row padding.
pub open spec fn rgba_of_bgra(buffer: Seq<u8>, width: int, height: int, stride: int) -> Seq<u8> {
    Seq::new(
        (4 * width * height) as nat,
        |i: int|
            {
                let pixel = i / 4;
                let channel = i % 4;
                let src = (pixel / width) * stride + (pixel % width) * 4;
                if channel == 0 {
                    buffer[src + 2]
                } else if channel == 1 {
                    buffer[src + 1]
                } else if channel == 2 {
                    buffer[src]
                } else {
                    buffer[src + 3]
                }
            },
    )
}

/// Converts a row-padded `Bgra8` capture buffer to packed `Rgba8`,
/// inferring the row stride from the buffer length as `len / height`.
/// Fails exactly when a dimension is zero or the inferred stride cannot
/// hold a full row of `width` four-byte pixels.
pub fn bgra_to_rgba(buffer: &[u8], width: usize, height: usize) -> (r: Result<Vec<u8>, String>)
    ensures
        (r is Ok) == (width >= 1 && height >= 1 && buffer@.len() as int / height as int >= 4
            * width),
        r matches Ok(v) ==> v@ == rgba_of_bgra(
            buffer@,
            width as int,
            height as int,
            buffer@.len() as int / height as int,
        ),
{
    let n = buffer.len();
    if width == 0 || height == 0 {
        return Err("invalid dimensions".to_string());
    }
    let stride = n / height;
    if stride / 4 < width {
        proof {
            assert(stride / 4 < width ==> stride < 4 * width) by (nonlinear_arith);
        }
        return Err("buffer too small for the reported dimensions".to_string());
    }
    proof {
        assert(stride >= 4 * width) by (nonlinear_arith)
            requires
                stride / 4 >= width && width >= 1,
        ;
        assert((height as int) * (stride as int) <= n) by (nonlinear_arith)
            requires
                height >= 1 && stride == n as int / height as int,
        ;
    }
    let ghost spec_out = rgba_of_bgra(buffer@, width as int, height as int, stride as int);
    let mut out: Vec<u8> = Vec::new();
    let mut y: usize = 0;
    while y < height
        invariant
            n == buffer@.len(),
            width >= 1,
            height >= 1,
            stride == n as int / height as int,
            stride >= 4 * width,
            (height as int) * (stride as int) <= n,
            spec_out == rgba_of_bgra(buffer@, width as int, height as int, stride as int),
            0 <= y <= height,
            out@.len() == 4 * width * y,
            forall|j: int| 0 <= j < out@.len() ==> out@[j] == spec_out[j],
        decreases height - y,
    {
        proof {
            assert((y as int) * (stride as int) + (stride as int) <= (height as int) * (
            stride as int)) by (nonlinear_arith)
                requires
                    0 <= y < height && stride >= 0,
            ;
        }
        let row_start = y * stride;
        let mut x: usize = 0;
        while x < width
            invariant
                n == buffer@.len(),
                width >= 1,
                height >= 1,
                stride >= 4 * width,
                spec_out == rgba_of_bgra(buffer@, width as int, height as int, stride as int),
                0 <= y < height,
                row_start == y * stride,
                row_start + stride <= n,
                0 <= x <= width,
                out@.len() == 4 * width * y + 4 * x,
                forall|j: int| 0 <= j < out@.len() ==> out@[j] == spec_out[j],
            decreases width - x,
        {
            let src = row_start + x * 4;
            proof {
                let wi = width as int;
                let yi = y as int;
                let xi = x as int;
                let si = stride as int;
                assert(src + 3 < n);
                assert(4 * wi * yi + 4 * xi + 4 <= 4 * wi * (yi + 1)) by (nonlinear_arith)
                    requires
                        0 <= xi < wi,
                ;
                assert(4 * wi * (yi + 1) <= 4 * wi * (height as int)) by (nonlinear_arith)
                    requires
                        yi + 1 <= height && wi >= 0,
                ;
                assert(4 * wi * (height as int) <= si * (height as int)) by (nonlinear_arith)
                    requires
                        4 * wi <= si && height >= 0,
                ;
                assert(si * (height as int) == (height as int) * si) by (nonlinear_arith);
            }
            out.push(*vstd::slice::slice_index_get(buffer, src + 2));
            out.push(*vstd::slice::slice_index_get(buffer, src + 1));
            out.push(*vstd::slice::slice_index_get(buffer, src));
            out.push(*vstd::slice::slice_index_get(buffer, src + 3));
            proof {
                let wi = width as int;
                let yi = y as int;
                let xi = x as int;
                let si = stride as int;
                let base = 4 * wi * yi + 4 * xi;
                let pixel = wi * yi + xi;
                assert(base == 4 * pixel) by (nonlinear_arith)
                    requires
                        base == 4 * wi * yi + 4 * xi && pixel == wi * yi + xi,
                ;
                assert((base + 0) / 4 == pixel && (base + 0) % 4 == 0 && (base + 1) / 4 == pixel
                    && (base + 1) % 4 == 1 && (base + 2) / 4 == pixel && (base + 2) % 4 == 2 && (
                base + 3) / 4 == pixel && (base + 3) % 4 == 3) by (nonlinear_arith)
                    requires
                        base == 4 * pixel && pixel >= 0,
                ;
                assert(pixel / wi == yi && pixel % wi == xi) by (nonlinear_arith)
                    requires
                        wi >= 1 && 0 <= xi < wi && 0 <= yi && pixel == wi * yi + xi,
                ;
                assert(yi * si + xi * 4 == src);
                assert(base + 4 <= spec_out.len()) by (nonlinear_arith)
                    requires
                        base == 4 * (wi * yi + xi) && 0 <= xi < wi && 0 <= yi < height
                            && spec_out.len() == 4 * wi * (height as int),
                ;
            }
            x = x + 1;
        }
        proof {
            assert(4 * (width as int) * (y as int) + 4 * (width as int) == 4 * (width as int) * ((
            y as int) + 1)) by (nonlinear_arith);
        }
        y = y + 1;
    }
    proof {
        assert(4 * (width as int) * (height as int) == out@.len());
        assert(out@ =~= spec_out);
    }
    Ok(out)
}

/// Whether the native Windows graphics-capture backend can be used; this
/// build never provides it, so capture always falls back to the generic
/// backend.
pub fn is_windows_graphics_capture_available() -> (r: bool)
    ensures
        !r,
{
    false
}

/// A human-readable name for the capture method in use.
pub fn get_capture_method_name() -> (r: &'static str)
    ensures
        r@ == "scrap (fallback)"@,
{
    if is_windows_graphics_capture_available() {
        "Windows.Graphics.Capture (Windows 10+)"
    } else {
        "scrap (fallback)"
    }
}

} // verus!
