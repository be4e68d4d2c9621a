//! Turning pixels upright.
//!
//! Cameras store pixels as the sensor saw them and note how the camera was held, as a number from
//! 1 to 8.

use vstd::prelude::*;

use crate::geometry::Dimensions;
use crate::types::{self, PixelFormat};

verus! {

/// Whether an orientation swaps width and height.
pub open spec fn is_quarter_turn(orientation: u8) -> bool {
    5 <= orientation <= 8
}

/// The dimensions after turning upright.
pub open spec fn turned_dimensions(d: Dimensions, orientation: u8) -> Dimensions {
    if is_quarter_turn(orientation) {
        Dimensions { width: d.height, height: d.width }
    } else {
        d
    }
}

/// Where the pixel that is at a place after turning was before, as column and row. What is no
/// orientation turns nothing.
pub open spec fn stored_at(d: Dimensions, orientation: u8, x: int, y: int) -> (int, int) {
    let (right, bottom) = (d.width - 1, d.height - 1);
    if orientation == 2 {
        (right - x, y)
    } else if orientation == 3 {
        (right - x, bottom - y)
    } else if orientation == 4 {
        (x, bottom - y)
    } else if orientation == 5 {
        (y, x)
    } else if orientation == 6 {
        (y, bottom - x)
    } else if orientation == 7 {
        (right - y, bottom - x)
    } else if orientation == 8 {
        (right - y, x)
    } else {
        (x, y)
    }
}

/// Where a sample of a pixel is among the samples of an image of some width.
pub open spec fn sample_index(width: u32, channels: nat, x: int, y: int, c: int) -> int {
    (y * width + x) * channels + c
}

/// The samples after turning upright.
pub open spec fn turned(data: Seq<u8>, d: Dimensions, channels: nat, orientation: u8) -> Seq<u8> {
    let t = turned_dimensions(d, orientation);
    Seq::new(
        t.area() * channels,
        |i: int|
            {
                let pixel = i / channels as int;
                let (x, y) = stored_at(
                    d,
                    orientation,
                    pixel % t.width as int,
                    pixel / t.width as int,
                );
                data[sample_index(d.width, channels, x, y, i % channels as int)]
            },
    )
}

proof fn lemma_split(q: int, r: int, d: int)
    requires
        0 <= q,
        0 <= r < d,
    ensures
        (q * d + r) / d == q,
        (q * d + r) % d == r,
{
    vstd::arithmetic::div_mod::lemma_fundamental_div_mod_converse(q * d + r, d, q, r);
}

/// Every sample is within the image.
proof fn lemma_sample_index(d: Dimensions, channels: nat, x: int, y: int, c: int)
    requires
        0 <= x < d.width,
        0 <= y < d.height,
        0 <= c < channels,
    ensures
        0 <= y * d.width + x < d.area(),
        0 <= (y * d.width + x) * channels,
        0 <= sample_index(d.width, channels, x, y, c) < d.area() * channels,
        sample_index(d.width, channels, x, y, c) / channels as int == y * d.width + x,
        sample_index(d.width, channels, x, y, c) % channels as int == c,
        (y * d.width + x) / d.width as int == y,
        (y * d.width + x) % d.width as int == x,
{
    let w = d.width as int;
    let p = y * w + x;
    assert(0 <= p < d.width * d.height) by (nonlinear_arith)
        requires
            p == y * w + x,
            w == d.width,
            0 <= x < w,
            0 <= y < d.height,
    ;
    assert(0 <= p * channels && p * channels + c < d.area() * channels) by (nonlinear_arith)
        requires
            0 <= p < d.area(),
            0 <= c < channels,
    ;
    lemma_split(p, c, channels as int);
    lemma_split(y, x, w);
}

/// Every sample belongs to a pixel.
proof fn lemma_index_parts(d: Dimensions, channels: nat, i: int) -> (r: (int, int, int))
    requires
        channels > 0,
        0 <= i < d.area() * channels,
    ensures
        0 <= r.0 < d.width,
        0 <= r.1 < d.height,
        0 <= r.2 < channels,
        sample_index(d.width, channels, r.0, r.1, r.2) == i,
{
    let ch = channels as int;
    let w = d.width as int;
    let p = i / ch;
    let c = i % ch;
    vstd::arithmetic::div_mod::lemma_fundamental_div_mod(i, ch);
    assert(0 <= p < d.area()) by (nonlinear_arith)
        requires
            i == ch * p + c,
            0 <= c < ch,
            0 <= i < d.area() * ch,
    ;
    assert(w > 0) by (nonlinear_arith)
        requires
            0 <= p < d.width * d.height,
            w == d.width,
    ;
    let y = p / w;
    let x = p % w;
    vstd::arithmetic::div_mod::lemma_fundamental_div_mod(p, w);
    assert(0 <= y < d.height) by (nonlinear_arith)
        requires
            p == w * y + x,
            0 <= x < w,
            0 <= p < w * d.height,
    ;
    assert(sample_index(d.width, channels, x, y, c) == i) by (nonlinear_arith)
        requires
            sample_index(d.width, channels, x, y, c) == (y * w + x) * ch + c,
            i == ch * p + c,
            p == w * y + x,
    ;
    (x, y, c)
}

/// A sample of the pixel at a place is that of the pixel stored where the orientation says.
pub proof fn lemma_turned_pixel(
    data: Seq<u8>,
    d: Dimensions,
    channels: nat,
    orientation: u8,
    x: int,
    y: int,
    c: int,
)
    requires
        0 <= x < turned_dimensions(d, orientation).width,
        0 <= y < turned_dimensions(d, orientation).height,
        0 <= c < channels,
    ensures
        turned(data, d, channels, orientation)[sample_index(
            turned_dimensions(d, orientation).width,
            channels,
            x,
            y,
            c,
        )] == data[sample_index(
            d.width,
            channels,
            stored_at(d, orientation, x, y).0,
            stored_at(d, orientation, x, y).1,
            c,
        )],
{
    lemma_sample_index(turned_dimensions(d, orientation), channels, x, y, c);
}

/// What is upright already stays as it is.
proof fn lemma_upright_stays(data: Seq<u8>, d: Dimensions, channels: nat, orientation: u8)
    requires
        channels > 0,
        data.len() == d.area() * channels,
        orientation < 2 || orientation > 8,
    ensures
        turned(data, d, channels, orientation) == data,
{
    let r = turned(data, d, channels, orientation);
    assert forall|i: int| 0 <= i < data.len() implies r[i] == data[i] by {
        let (x, y, c) = lemma_index_parts(d, channels, i);
        lemma_turned_pixel(data, d, channels, orientation, x, y, c);
    }
    assert(r =~= data);
}

/// The orientation that undoes another: the quarter turns undo each other, the others themselves.
pub open spec fn undone_by(orientation: u8) -> u8 {
    if orientation == 6 {
        8
    } else if orientation == 8 {
        6
    } else {
        orientation
    }
}

/// Turning loses nothing: the opposite turn gives the pixels back.
pub proof fn lemma_turning_is_undone(
    data: Seq<u8>,
    d: Dimensions,
    channels: nat,
    orientation: u8,
)
    requires
        channels > 0,
        data.len() == d.area() * channels,
    ensures
        turned_dimensions(turned_dimensions(d, orientation), undone_by(orientation)) == d,
        turned(
            turned(data, d, channels, orientation),
            turned_dimensions(d, orientation),
            channels,
            undone_by(orientation),
        ) == data,
{
    let t = turned_dimensions(d, orientation);
    let there = turned(data, d, channels, orientation);
    let back = turned(there, t, channels, undone_by(orientation));
    assert forall|i: int| 0 <= i < data.len() implies back[i] == data[i] by {
        let (x, y, c) = lemma_index_parts(d, channels, i);
        lemma_turned_pixel(there, t, channels, undone_by(orientation), x, y, c);
        let (a, b) = stored_at(t, undone_by(orientation), x, y);
        lemma_turned_pixel(data, d, channels, orientation, a, b, c);
    }
    assert(back =~= data);
}

/// The dimensions and the samples after turning upright.
pub fn turn(data: Vec<u8>, d: Dimensions, format: PixelFormat, orientation: u8) -> (r: (
    Dimensions,
    Vec<u8>,
))
    requires
        data@.len() == types::buffer_len(d, format),
    ensures
        r.0 == turned_dimensions(d, orientation),
        r.1@ == turned(data@, d, format.channel_count(), orientation),
        r.1@.len() == types::buffer_len(r.0, format),
{
    if orientation < 2 || orientation > 8 {
        proof {
            lemma_upright_stays(data@, d, format.channel_count(), orientation);
        }
        return (d, data);
    }
    let t: Dimensions = if orientation >= 5 {
        Dimensions { width: d.height, height: d.width }
    } else {
        d
    };
    let channels: usize = format.channels();
    let len: usize = data.len();
    let ghost all = turned(data@, d, format.channel_count(), orientation);
    proof {
        assert(d.width * d.height == d.height * d.width) by (nonlinear_arith);
    }
    let mut out: Vec<u8> = Vec::new();
    let mut y: u32 = 0;
    while y < t.height
        invariant
            t == turned_dimensions(d, orientation),
            len == data@.len() == d.area() * channels,
            channels == format.channel_count(),
            channels > 0,
            all == turned(data@, d, channels as nat, orientation),
            t.area() == d.area(),
            y <= t.height,
            out@.len() == (y * t.width) * channels,
            out@ == all.take(out@.len() as int),
        decreases t.height - y,
    {
        let mut x: u32 = 0;
        assert(y * t.width + 0 == y * t.width);
        while x < t.width
            invariant
                t == turned_dimensions(d, orientation),
                len == data@.len() == d.area() * channels,
                channels == format.channel_count(),
                channels > 0,
                all == turned(data@, d, channels as nat, orientation),
                t.area() == d.area(),
                y < t.height,
                x <= t.width,
                out@.len() == (y * t.width + x) * channels,
                out@ == all.take(out@.len() as int),
            decreases t.width - x,
        {
            let (column, row): (u32, u32) = match orientation {
                2 => (d.width - 1 - x, y),
                3 => (d.width - 1 - x, d.height - 1 - y),
                4 => (x, d.height - 1 - y),
                5 => (y, x),
                6 => (y, d.height - 1 - x),
                7 => (d.width - 1 - y, d.height - 1 - x),
                8 => (d.width - 1 - y, x),
                _ => (x, y),
            };
            proof {
                lemma_sample_index(d, channels as nat, column as int, row as int, 0);
                assert(0 <= row * d.width && row * d.width + column <= (row * d.width + column)
                    * channels) by (nonlinear_arith)
                    requires
                        channels >= 1,
                ;
            }
            let from: usize = (row as usize * d.width as usize + column as usize) * channels;
            let mut c: usize = 0;
            while c < channels
                invariant
                    t == turned_dimensions(d, orientation),
                    len == data@.len() == d.area() * channels,
                    channels == format.channel_count(),
                    channels > 0,
                    all == turned(data@, d, channels as nat, orientation),
                    y < t.height,
                    x < t.width,
                    column < d.width,
                    row < d.height,
                    (column as int, row as int) == stored_at(d, orientation, x as int, y as int),
                    from == (row * d.width + column) * channels,
                    t.area() == d.area(),
                    c <= channels,
                    out@.len() == (y * t.width + x) * channels + c,
                    out@ == all.take(out@.len() as int),
                decreases channels - c,
            {
                proof {
                    lemma_sample_index(d, channels as nat, column as int, row as int, c as int);
                    lemma_sample_index(t, channels as nat, x as int, y as int, c as int);
                    lemma_turned_pixel(
                        data@,
                        d,
                        channels as nat,
                        orientation,
                        x as int,
                        y as int,
                        c as int,
                    );
                    let n = out@.len() as int;
                    assert(all.take(n + 1) =~= all.take(n).push(all[n]));
                }
                out.push(data[from + c]);
                c = c + 1;
            }
            proof {
                assert((y * t.width + x) * channels + channels == (y * t.width + (x + 1))
                    * channels) by (nonlinear_arith);
            }
            x = x + 1;
        }
        proof {
            assert(y * t.width + t.width == (y + 1) * t.width) by (nonlinear_arith);
        }
        y = y + 1;
    }
    proof {
        assert(t.height * t.width == t.width * t.height) by (nonlinear_arith);
        assert(all.take(all.len() as int) =~= all);
    }
    (t, out)
}

/// Where the stored pixels go: numbers 2 to 4 mirror or turn them upside down, 5 and 7 mirror them
/// at a diagonal, with 6 the first stored row becomes the last column, and with 8 the first stored
/// column becomes the last row.
pub proof fn lemma_where_stored_pixels_go(
    data: Seq<u8>,
    d: Dimensions,
    channels: nat,
    orientation: u8,
    x: int,
    y: int,
    c: int,
)
    requires
        0 <= x < d.width,
        0 <= y < d.height,
        0 <= c < channels,
        1 <= orientation <= 8,
    ensures
        ({
            let (w, h) = (d.width as int, d.height as int);
            let r = turned(data, d, channels, orientation);
            let sample = data[(y * w + x) * channels + c];
            &&& orientation == 1 ==> r[(y * w + x) * channels + c] == sample
            &&& orientation == 2 ==> r[(y * w + (w - 1 - x)) * channels + c] == sample
            &&& orientation == 3 ==> r[((h - 1 - y) * w + (w - 1 - x)) * channels + c] == sample
            &&& orientation == 4 ==> r[((h - 1 - y) * w + x) * channels + c] == sample
            &&& orientation == 5 ==> r[(x * h + y) * channels + c] == sample
            &&& orientation == 6 ==> r[(x * h + (h - 1 - y)) * channels + c] == sample
            &&& orientation == 7 ==> r[((w - 1 - x) * h + (h - 1 - y)) * channels + c] == sample
            &&& orientation == 8 ==> r[((w - 1 - x) * h + y) * channels + c] == sample
        }),
        orientation <= 4 ==> turned_dimensions(d, orientation) == d,
        orientation >= 5 ==> turned_dimensions(d, orientation).width == d.height
            && turned_dimensions(d, orientation).height == d.width,
{
    let (w, h) = (d.width as int, d.height as int);
    let to = if orientation == 1 {
        (x, y)
    } else if orientation == 2 {
        (w - 1 - x, y)
    } else if orientation == 3 {
        (w - 1 - x, h - 1 - y)
    } else if orientation == 4 {
        (x, h - 1 - y)
    } else if orientation == 5 {
        (y, x)
    } else if orientation == 6 {
        (h - 1 - y, x)
    } else if orientation == 7 {
        (h - 1 - y, w - 1 - x)
    } else {
        (y, w - 1 - x)
    };
    lemma_turned_pixel(data, d, channels, orientation, to.0, to.1, c);
    assert(stored_at(d, orientation, to.0, to.1) == (x, y));
}

} // verus!
