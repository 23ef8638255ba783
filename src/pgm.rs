use crate::distance_field::DistanceField;
use crate::obstacles::Obstacles;
use vstd::prelude::*;

verus! {

/// Largest value of a pixel.
pub const PGM_MAX_VALUE: u8 = 255;

/// ASCII decimal digits of `n`, most significant first.
pub open spec fn decimal(n: nat) -> Seq<u8>
    decreases n,
{
    if n < 10 {
        seq![(48 + n) as u8]
    } else {
        decimal(n / 10).push((48 + n % 10) as u8)
    }
}

/// Header of a binary PGM image: the magic number, the width and height in
/// decimal, and the largest pixel value, each ended by a newline or a space.
pub open spec fn pgm_header(width: nat, height: nat) -> Seq<u8> {
    seq![80u8, 53u8, 10u8] + decimal(width) + seq![32u8] + decimal(height) + seq![10u8, 50u8, 53u8, 53u8, 10u8]
}

/// A whole binary PGM image: header, then one byte per pixel in row-major order.
pub open spec fn pgm_image(width: nat, height: nat, pixels: Seq<u8>) -> Seq<u8> {
    pgm_header(width, height) + pixels
}

/// Pixel of an obstacle cell: black where blocked, white where clear.
pub open spec fn obstacle_pixel(is_obstacle: bool) -> u8 {
    if is_obstacle {
        0
    } else {
        PGM_MAX_VALUE
    }
}

/// Largest distance in `d` other than the sentinel; zero if there is none.
pub open spec fn max_finite(d: Seq<u64>) -> u64
    decreases d.len(),
{
    if d.len() == 0 {
        0
    } else {
        let m = max_finite(d.drop_last());
        let v = d.last();
        if v != DistanceField::MAX_DISTANCE && v > m {
            v
        } else {
            m
        }
    }
}

/// Pixel of a distance, scaled so that `max` maps to 255; an unreached cell is
/// white, and a field whose largest finite distance is zero is black.
pub open spec fn distance_pixel(d: u64, max: u64) -> u8 {
    if d == DistanceField::MAX_DISTANCE {
        PGM_MAX_VALUE
    } else if max == 0 || d > max {
        0
    } else {
        (d as int * 255 / max as int) as u8
    }
}

/// Appends the decimal digits of `n`.
fn push_decimal(out: &mut Vec<u8>, n: usize)
    ensures
        final(out)@ == old(out)@ + decimal(n as nat),
    decreases n,
{
    if n < 10 {
        out.push((48 + n) as u8);
    } else {
        push_decimal(out, n / 10);
        out.push((48 + n % 10) as u8);
    }
}

/// The header bytes for a `width` by `height` image.
fn header(width: usize, height: usize) -> (r: Vec<u8>)
    ensures
        r@ == pgm_header(width as nat, height as nat),
{
    let mut out: Vec<u8> = Vec::new();
    out.push(80);
    out.push(53);
    out.push(10);
    push_decimal(&mut out, width);
    out.push(32);
    push_decimal(&mut out, height);
    out.push(10);
    out.push(50);
    out.push(53);
    out.push(53);
    out.push(10);
    assert(out@ =~= pgm_header(width as nat, height as nat));
    out
}

/// Scales one distance to a pixel.
fn scale_distance(d: u64, max: u64) -> (r: u8)
    ensures
        r == distance_pixel(d, max),
{
    if d == DistanceField::MAX_DISTANCE {
        PGM_MAX_VALUE
    } else if max == 0 || d > max {
        0
    } else {
        let scaled: u128 = (d as u128) * 255 / (max as u128);
        assert((d as int) * 255 / (max as int) <= 255) by (nonlinear_arith)
            requires
                d <= max,
                max > 0,
        ;
        scaled as u8
    }
}

/// A grid that can be written as a binary PGM image.
pub trait SavePgm {
    /// The image bytes.
    spec fn pgm(&self) -> Seq<u8>;

    /// Encodes the grid as a binary PGM image.
    fn to_pgm(&self) -> (r: Vec<u8>)
        ensures
            r@ == self.pgm(),
    ;
}

impl SavePgm for Obstacles {
    open spec fn pgm(&self) -> Seq<u8> {
        pgm_image(
            self.spec_width(),
            self.spec_height(),
            Seq::new(self@.len(), |i: int| obstacle_pixel(self@[i])),
        )
    }

    fn to_pgm(&self) -> (r: Vec<u8>) {
        let cells = self.as_slice();
        let mut out = header(self.width(), self.height());
        let ghost head = out@;
        let mut i: usize = 0;
        while i < cells.len()
            invariant
                cells@ == self@,
                i <= cells@.len(),
                out@ == head + Seq::new(i as nat, |k: int| obstacle_pixel(cells@[k])),
            decreases cells.len() - i,
        {
            let value: u8 = if cells[i] {
                0
            } else {
                PGM_MAX_VALUE
            };
            out.push(value);
            i += 1;
            assert(out@ =~= head + Seq::new(i as nat, |k: int| obstacle_pixel(cells@[k])));
        }
        assert(out@ =~= self.pgm());
        out
    }
}

/// The largest distance in `d` other than the sentinel.
fn largest_finite(d: &[u64]) -> (r: u64)
    ensures
        r == max_finite(d@),
{
    let mut m: u64 = 0;
    let mut i: usize = 0;
    while i < d.len()
        invariant
            i <= d@.len(),
            m == max_finite(d@.subrange(0, i as int)),
        decreases d.len() - i,
    {
        assert(d@.subrange(0, i + 1).drop_last() =~= d@.subrange(0, i as int));
        let v = d[i];
        if v != DistanceField::MAX_DISTANCE && v > m {
            m = v;
        }
        i += 1;
    }
    assert(d@.subrange(0, d@.len() as int) =~= d@);
    m
}

impl SavePgm for DistanceField {
    open spec fn pgm(&self) -> Seq<u8> {
        pgm_image(
            self.spec_width(),
            self.spec_height(),
            Seq::new(self@.len(), |i: int| distance_pixel(self@[i], max_finite(self@))),
        )
    }

    fn to_pgm(&self) -> (r: Vec<u8>) {
        let cells = self.as_slice();
        let max = largest_finite(cells);
        let mut out = header(self.width(), self.height());
        let ghost head = out@;
        let mut i: usize = 0;
        while i < cells.len()
            invariant
                cells@ == self@,
                max == max_finite(self@),
                i <= cells@.len(),
                out@ == head + Seq::new(i as nat, |k: int| distance_pixel(cells@[k], max)),
            decreases cells.len() - i,
        {
            out.push(scale_distance(cells[i], max));
            i += 1;
            assert(out@ =~= head + Seq::new(i as nat, |k: int| distance_pixel(cells@[k], max)));
        }
        assert(out@ =~= self.pgm());
        out
    }
}

} // verus!
