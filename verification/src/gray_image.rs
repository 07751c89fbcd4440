//! The intensity image handed to the recognizer: one byte per pixel, rows
//! back to back, taken from a captured frame, and the check that a bitmap
//! plane the system hands back can hold it.
use vstd::prelude::*;

verus! {

/// How a captured frame stores a pixel.
#[derive(Clone, Copy, Debug, PartialEq, Eq, Structural)]
pub enum PixelFormat {
    /// One intensity byte.
    Gray8,
    /// Blue, green, red and alpha bytes.
    Bgra8,
}

pub open spec fn pixel_bytes(f: PixelFormat) -> int {
    match f {
        PixelFormat::Gray8 => 1,
        PixelFormat::Bgra8 => 4,
    }
}

/// Every row of the frame lies inside its pixel buffer: a row's pixels fit
/// within the stride, and the last row ends inside the buffer.
pub open spec fn rows_fit(len: int, width: int, height: int, stride: int, f: PixelFormat) -> bool {
    &&& width * pixel_bytes(f) <= stride
    &&& (height == 0 || (height - 1) * stride + width * pixel_bytes(f) <= len)
}

/// Where pixel `(row, col)` starts in the frame's buffer.
pub open spec fn source_index(stride: int, f: PixelFormat, row: int, col: int) -> int {
    row * stride + col * pixel_bytes(f)
}

proof fn lemma_source_in_bounds(len: int, width: int, height: int, stride: int, f: PixelFormat, row: int, col: int)
    requires
        rows_fit(len, width, height, stride, f),
        0 <= row < height,
        0 <= col < width,
    ensures
        0 <= source_index(stride, f, row, col),
        source_index(stride, f, row, col) + pixel_bytes(f) <= len,
{
    let b = pixel_bytes(f);
    assert(0 <= row * stride) by (nonlinear_arith)
        requires
            0 <= row,
            0 <= width * b <= stride,
            0 <= width,
            1 <= b,
    ;
    assert(0 <= col * b) by (nonlinear_arith)
        requires
            0 <= col,
            1 <= b,
    ;
    assert(row * stride <= (height - 1) * stride) by (nonlinear_arith)
        requires
            0 <= row <= height - 1,
            0 <= stride,
    ;
    assert(col * b + b <= width * b) by (nonlinear_arith)
        requires
            0 <= col < width,
            1 <= b,
    ;
    assert(0 <= width * b) by (nonlinear_arith)
        requires
            0 <= width,
            1 <= b,
    ;
}

/// Packs the frame into one intensity byte per pixel, rows back to back: a
/// gray frame's bytes as they are, a BGRA frame's blue channel.
pub fn pack_gray(pixels: &[u8], width: usize, height: usize, stride: usize, format: PixelFormat) -> (out: Vec<u8>)
    requires
        rows_fit(pixels@.len() as int, width as int, height as int, stride as int, format),
        width * height <= usize::MAX,
    ensures
        out@.len() == width * height,
        forall|r: int, c: int|
            0 <= r < height && 0 <= c < width ==> out@[r * width + c] == pixels@[source_index(
                stride as int,
                format,
                r,
                c,
            )],
{
    let step: usize = match format {
        PixelFormat::Gray8 => 1,
        PixelFormat::Bgra8 => 4,
    };
    let n = pixels.len();
    let mut out: Vec<u8> = Vec::new();
    let mut r: usize = 0;
    let mut row_start: usize = 0;
    while r < height
        invariant
            step as int == pixel_bytes(format),
            rows_fit(pixels@.len() as int, width as int, height as int, stride as int, format),
            width * height <= usize::MAX,
            r <= height,
            n == pixels@.len(),
            r < height ==> row_start == r * stride,
            out@.len() == r * width,
            forall|rr: int, cc: int|
                0 <= rr < r && 0 <= cc < width ==> out@[rr * width + cc] == pixels@[source_index(
                    stride as int,
                    format,
                    rr,
                    cc,
                )],
        decreases height - r,
    {
        let mut c: usize = 0;
        let mut at: usize = row_start;
        while c < width
            invariant
                step as int == pixel_bytes(format),
                rows_fit(pixels@.len() as int, width as int, height as int, stride as int, format),
                r < height,
                c <= width,
                n == pixels@.len(),
                row_start == r * stride,
                c < width ==> at == row_start + c * step,
                out@.len() == r * width + c,
                forall|rr: int, cc: int|
                    (0 <= rr < r && 0 <= cc < width) || (rr == r && 0 <= cc < c) ==> out@[rr * width + cc]
                        == pixels@[source_index(stride as int, format, rr, cc)],
            decreases width - c,
        {
            proof {
                lemma_source_in_bounds(
                    pixels@.len() as int,
                    width as int,
                    height as int,
                    stride as int,
                    format,
                    r as int,
                    c as int,
                );
                assert(at == source_index(stride as int, format, r as int, c as int));
            }
            let ghost before = out@;
            let v = pixels[at];
            out.push(v);
            proof {
                assert(out@ == before.push(v));
                assert forall|rr: int, cc: int|
                    (0 <= rr < r && 0 <= cc < width) || (rr == r && 0 <= cc < c + 1) implies out@[rr * width + cc]
                        == pixels@[source_index(stride as int, format, rr, cc)] by {
                    if rr < r {
                        assert(rr * width + cc < r * width) by (nonlinear_arith)
                            requires
                                0 <= rr < r,
                                0 <= cc < width,
                        ;
                        assert(out@[rr * width + cc] == before[rr * width + cc]);
                    } else if cc < c {
                        assert(out@[rr * width + cc] == before[rr * width + cc]);
                    } else {
                        assert(rr * width + cc == before.len());
                    }
                }
            }
            c = c + 1;
            if c < width {
                proof {
                    lemma_source_in_bounds(
                        pixels@.len() as int,
                        width as int,
                        height as int,
                        stride as int,
                        format,
                        r as int,
                        c as int,
                    );
                    assert(at + step == row_start + c * step) by (nonlinear_arith)
                        requires
                            at == row_start + (c - 1) * step,
                    ;
                }
                at = at + step;
            }
            proof {
                if c < width {
                    assert(row_start + (c - 1) * step + step == row_start + c * step) by (nonlinear_arith);
                }
            }
        }
        proof {
            assert(out@.len() == (r + 1) * width) by (nonlinear_arith)
                requires
                    out@.len() == r * width + width,
            ;
            assert((r + 1) * width <= height * width) by (nonlinear_arith)
                requires
                    r + 1 <= height,
                    0 <= width,
            ;
            assert forall|rr: int, cc: int|
                0 <= rr < r + 1 && 0 <= cc < width implies out@[rr * width + cc] == pixels@[source_index(
                    stride as int,
                    format,
                    rr,
                    cc,
                )] by {
                if rr < r {
                    assert((0 <= rr < r && 0 <= cc < width));
                } else {
                    assert(rr == r && 0 <= cc < c);
                }
            }
        }
        r = r + 1;
        if r < height {
            proof {
                assert(row_start + stride == r * stride) by (nonlinear_arith)
                    requires
                        row_start == (r - 1) * stride,
                ;
                assert(r * stride <= (height - 1) * stride) by (nonlinear_arith)
                    requires
                        r <= height - 1,
                        0 <= stride,
                ;
                assert(0 <= width * pixel_bytes(format)) by (nonlinear_arith)
                    requires
                        0 <= width,
                        1 <= pixel_bytes(format),
                ;
                assert((height - 1) * stride <= pixels@.len());
            }
            row_start = row_start + stride;
        }

    }
    assert(out@.len() == width * height) by (nonlinear_arith)
        requires
            out@.len() == r * width,
            r == height,
    ;
    out
}

/// What the plane the system reports for the bitmap allows.
#[derive(Clone, Copy, Debug, PartialEq, Eq, Structural)]
pub enum PlaneCheck {
    /// A negative start, or a stride or height short of the image.
    Invalid,
    /// The last byte the image needs lies past what `usize` can count.
    TooLarge,
    /// The plane holds fewer bytes than the image needs.
    TooSmall { required: usize },
    /// The image fits: rows start at `start`, `stride` bytes apart.
    Fits { start: usize, stride: usize },
}

/// One past the last byte an image needs in a plane: the start, the stride
/// for each row but the last, and the last row; `None` past `usize::MAX`.
pub open spec fn plane_end(start: int, stride: int, width: int, height: int) -> Option<int> {
    let rows = if height > 0 {
        height - 1
    } else {
        0
    };
    let skip = if stride * rows > usize::MAX {
        usize::MAX as int
    } else {
        stride * rows
    };
    if start + skip > usize::MAX || start + skip + width > usize::MAX {
        None
    } else {
        Some(start + skip + width)
    }
}

/// Checks a reported bitmap plane against a `width` by `height` image.
pub fn check_plane(start_index: i32, plane_stride: i32, plane_height: i32, capacity: u32, width: usize, height: usize) -> (r:
    PlaneCheck)
    ensures
        r == (if start_index < 0 || plane_stride < (width as i32) || plane_height < (height as i32) {
            PlaneCheck::Invalid
        } else {
            match plane_end(start_index as int, (plane_stride as usize) as int, width as int, height as int) {
                None => PlaneCheck::TooLarge,
                Some(end) => if end > capacity {
                    PlaneCheck::TooSmall { required: end as usize }
                } else {
                    PlaneCheck::Fits { start: start_index as usize, stride: plane_stride as usize }
                },
            }
        }),
{
    #[verifier::truncate]
    let w = width as i32;
    #[verifier::truncate]
    let h = height as i32;
    if start_index < 0 || plane_stride < w || plane_height < h {
        return PlaneCheck::Invalid;
    }
    let start = start_index as usize;
    let stride = plane_stride as usize;
    let rows = height.saturating_sub(1);
    let skip = match stride.checked_mul(rows) {
        Some(v) => v,
        None => usize::MAX,
    };
    let end = match start.checked_add(skip) {
        Some(o) => o.checked_add(width),
        None => None,
    };
    match end {
        None => PlaneCheck::TooLarge,
        Some(e) => if e > capacity as usize {
            PlaneCheck::TooSmall { required: e }
        } else {
            PlaneCheck::Fits { start, stride }
        },
    }
}

/// Where pixel `(r, c)` goes in a plane: rows from `start`, `stride` bytes
/// apart.
pub open spec fn plane_index(start: int, stride: int, r: int, c: int) -> int {
    start + r * stride + c
}

/// Where pixel `(r, c)` sits in the packed image.
pub open spec fn packed_index(width: int, r: int, c: int) -> int {
    r * width + c
}

/// Byte `i` of a plane lies in one of the image's rows, placed from
/// `start`, `stride` bytes apart.
pub open spec fn in_rows(i: int, start: int, stride: int, width: int, height: int) -> bool {
    exists|r: int, c: int| 0 <= r < height && 0 <= c < width && i == #[trigger] plane_index(start, stride, r, c)
}

/// The bytes written so far: whole rows before `r`, and row `r` up to `c`.
spec fn written(i: int, start: int, stride: int, width: int, r: int, c: int) -> bool {
    exists|rr: int, cc: int|
        ((0 <= rr < r && 0 <= cc < width) || (rr == r && 0 <= cc < c)) && i == #[trigger] plane_index(start, stride, rr, cc)
}

/// Distinct pixels of rows no wider than the stride land on distinct bytes.
proof fn lemma_distinct_bytes(stride: int, width: int, r1: int, c1: int, r2: int, c2: int)
    requires
        0 <= width <= stride,
        0 <= c1 < width,
        0 <= c2 < width,
        0 <= r1,
        0 <= r2,
        r1 < r2 || (r1 == r2 && c1 < c2),
    ensures
        r1 * stride + c1 < r2 * stride + c2,
{
    if r1 < r2 {
        assert(r1 * stride + stride <= r2 * stride) by (nonlinear_arith)
            requires
                r1 < r2,
                0 <= stride,
        ;
    }
}

/// Writes the packed image's rows into a plane buffer, row `r` from
/// `start + r * stride`; every other byte stays as it was.
pub fn place_rows(dest: &mut Vec<u8>, gray: &[u8], width: usize, height: usize, start: usize, stride: usize)
    requires
        gray@.len() == width * height,
        width <= stride,
        height == 0 || start + (height - 1) * stride + width <= old(dest)@.len(),
    ensures
        final(dest)@.len() == old(dest)@.len(),
        forall|r: int, c: int|
            0 <= r < height && 0 <= c < width ==> final(dest)@[plane_index(start as int, stride as int, r, c)] == gray@[packed_index(width as int, r, c)],
        forall|i: int|
            0 <= i < old(dest)@.len() && !in_rows(i, start as int, stride as int, width as int, height as int)
                ==> final(dest)@[i] == old(dest)@[i],
{
    let ghost original = dest@;
    let len = dest.len();
    let glen = gray.len();
    let mut r: usize = 0;
    while r < height
        invariant
            len == original.len(),
            glen == gray@.len(),
            gray@.len() == width * height,
            width <= stride,
            height == 0 || start + (height - 1) * stride + width <= original.len(),
            r <= height,
            dest@.len() == original.len(),
            forall|rr: int, cc: int|
                0 <= rr < r && 0 <= cc < width ==> dest@[plane_index(start as int, stride as int, rr, cc)] == gray@[packed_index(width as int, rr, cc)],
            forall|i: int|
                0 <= i < original.len() && dest@[i] != original[i] ==> written(
                    i,
                    start as int,
                    stride as int,
                    width as int,
                    r as int,
                    0,
                ),
        decreases height - r,
    {
        proof {
            assert(r * stride <= (height - 1) * stride) by (nonlinear_arith)
                requires
                    r <= height - 1,
                    0 <= stride,
            ;
            assert(r * width + width <= width * height) by (nonlinear_arith)
                requires
                    r + 1 <= height,
                    0 <= width,
            ;
        }
        let row_at = start + r * stride;
        let from = r * width;
        let mut c: usize = 0;
        while c < width
            invariant
                len == original.len(),
                glen == gray@.len(),
                gray@.len() == width * height,
                width <= stride,
                start + (height - 1) * stride + width <= original.len(),
                r < height,
                r * stride <= (height - 1) * stride,
                r * width + width <= width * height,
                row_at == start + r * stride,
                from == r * width,
                c <= width,
                dest@.len() == original.len(),
                forall|rr: int, cc: int|
                    ((0 <= rr < r && 0 <= cc < width) || (rr == r && 0 <= cc < c)) ==> dest@[plane_index(start as int, stride as int, rr, cc)] == gray@[packed_index(width as int, rr, cc)],
                forall|i: int|
                    0 <= i < original.len() && dest@[i] != original[i] ==> written(
                        i,
                        start as int,
                        stride as int,
                        width as int,
                        r as int,
                        c as int,
                    ),
            decreases width - c,
        {
            let ghost before = dest@;
            let ghost idx = start + r * stride + c;
            dest.set(row_at + c, gray[from + c]);
            proof {
                assert forall|rr: int, cc: int|
                    ((0 <= rr < r && 0 <= cc < width) || (rr == r && 0 <= cc < c + 1)) implies dest@[plane_index(start as int, stride as int, rr, cc)] == gray@[packed_index(width as int, rr, cc)] by {
                    if !(rr == r && cc == c) {
                        lemma_distinct_bytes(stride as int, width as int, rr, cc, r as int, c as int);
                        assert(plane_index(start as int, stride as int, rr, cc) < idx);
                        assert(dest@[plane_index(start as int, stride as int, rr, cc)] == before[plane_index(
                            start as int,
                            stride as int,
                            rr,
                            cc,
                        )]);
                    }
                }
                assert forall|i: int| 0 <= i < original.len() && dest@[i] != original[i] implies written(
                    i,
                    start as int,
                    stride as int,
                    width as int,
                    r as int,
                    c + 1,
                ) by {
                    if i == idx {
                        assert(i == plane_index(start as int, stride as int, r as int, c as int));
                    } else {
                        assert(dest@[i] == before[i]);
                        let (rr, cc) = choose|rr: int, cc: int|
                            ((0 <= rr < r && 0 <= cc < width) || (rr == r && 0 <= cc < c)) && i == #[trigger] plane_index(start as int, stride as int, rr, cc);
                        assert(i == plane_index(start as int, stride as int, rr, cc));
                    }
                }
            }
            c = c + 1;
        }
        proof {
            assert forall|i: int| 0 <= i < original.len() && dest@[i] != original[i] implies written(
                i,
                start as int,
                stride as int,
                width as int,
                r + 1,
                0,
            ) by {
                let (rr, cc) = choose|rr: int, cc: int|
                    ((0 <= rr < r && 0 <= cc < width) || (rr == r && 0 <= cc < width)) && i == #[trigger] plane_index(start as int, stride as int, rr, cc);
                assert(i == plane_index(start as int, stride as int, rr, cc));
            }
        }
        r = r + 1;
    }
    proof {
        assert forall|i: int|
            0 <= i < original.len() && !in_rows(i, start as int, stride as int, width as int, height as int) implies dest@[i]
                == original[i] by {
            if dest@[i] != original[i] {
                let (rr, cc) = choose|rr: int, cc: int|
                    ((0 <= rr < height && 0 <= cc < width) || (rr == height && 0 <= cc < 0)) && i == #[trigger] plane_index(start as int, stride as int, rr, cc);
                assert(i == plane_index(start as int, stride as int, rr, cc));
            }
        }
    }
}

} // verus!
