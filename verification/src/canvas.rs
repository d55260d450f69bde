//! A rectangular grid of pixels.

use vstd::prelude::*;

use crate::ppm::{ppm_spec, ppm_text};

verus! {

/// A `width` by `height` grid of pixels, stored row by row.
pub struct Canvas<C> {
    width: usize,
    height: usize,
    data: Vec<C>,
}

impl<C: Copy> Canvas<C> {
    pub closed spec fn spec_width(&self) -> nat {
        self.width as nat
    }

    pub closed spec fn spec_height(&self) -> nat {
        self.height as nat
    }

    /// The pixels, row by row.
    pub closed spec fn pixels(&self) -> Seq<C> {
        self.data@
    }

    /// The canvas holds exactly one pixel per coordinate.
    pub closed spec fn wf(&self) -> bool {
        &&& self.data@.len() == self.width * self.height
        &&& self.width * self.height <= usize::MAX
    }

    /// The index into the pixels of the pixel at column `x`, row `y`.
    pub open spec fn index_of(&self, x: int, y: int) -> int {
        self.spec_width() * y + x
    }

    /// Whether `(x, y)` lies on the canvas.
    pub open spec fn contains(&self, x: int, y: int) -> bool {
        0 <= x < self.spec_width() && 0 <= y < self.spec_height()
    }

    /// The pixel at column `x`, row `y`.
    pub open spec fn pixel(&self, x: int, y: int) -> C {
        self.pixels()[self.index_of(x, y)]
    }

    /// A canvas with every pixel set to `color`.
    pub fn new_with_color(width: usize, height: usize, color: &C) -> (c: Self)
        requires
            width * height <= usize::MAX,
        ensures
            c.wf(),
            c.spec_width() == width,
            c.spec_height() == height,
            c.pixels() == Seq::new((width * height) as nat, |i: int| *color),
    {
        let n = width * height;
        let mut data: Vec<C> = Vec::new();
        for i in 0..n
            invariant
                data@ == Seq::new(i as nat, |j: int| *color),
        {
            data.push(*color);
            assert(data@ =~= Seq::new((i + 1) as nat, |j: int| *color));
        }
        Canvas { width, height, data }
    }

    pub fn width(&self) -> (w: usize)
        ensures
            w == self.spec_width(),
    {
        self.width
    }

    pub fn height(&self) -> (h: usize)
        ensures
            h == self.spec_height(),
    {
        self.height
    }

    /// The pixels, row by row.
    pub fn data(&self) -> (d: &Vec<C>)
        ensures
            d@ == self.pixels(),
    {
        &self.data
    }

    fn to_idx(&self, coords: (usize, usize)) -> (r: Option<usize>)
        requires
            self.wf(),
        ensures
            r is Some <==> self.contains(coords.0 as int, coords.1 as int),
            r matches Some(i) ==> i == self.index_of(coords.0 as int, coords.1 as int) && i
                < self.pixels().len(),
    {
        let (x, y) = coords;
        if x >= self.width || y >= self.height {
            None
        } else {
            proof {
                lemma_index_in_grid(x as int, y as int, self.width as int, self.height as int);
            }
            Some(self.width * y + x)
        }
    }

    /// Sets the pixel at `coords` (column, row) to `color`; `None` when the
    /// coordinates lie outside the canvas, which is then left unchanged.
    pub fn write(&mut self, coords: (usize, usize), color: C) -> (r: Option<()>)
        requires
            old(self).wf(),
        ensures
            final(self).wf(),
            final(self).spec_width() == old(self).spec_width(),
            final(self).spec_height() == old(self).spec_height(),
            r is Some <==> old(self).contains(coords.0 as int, coords.1 as int),
            final(self).pixels() == (if old(self).contains(coords.0 as int, coords.1 as int) {
                old(self).pixels().update(
                    old(self).index_of(coords.0 as int, coords.1 as int),
                    color,
                )
            } else {
                old(self).pixels()
            }),
    {
        match self.to_idx(coords) {
            Some(i) => {
                self.data.set(i, color);
                Some(())
            },
            None => None,
        }
    }

    /// The pixel at `coords` (column, row); `None` outside the canvas.
    pub fn at(&self, coords: (usize, usize)) -> (r: Option<&C>)
        requires
            self.wf(),
        ensures
            r == (if self.contains(coords.0 as int, coords.1 as int) {
                Some(&self.pixel(coords.0 as int, coords.1 as int))
            } else {
                None
            }),
    {
        match self.to_idx(coords) {
            Some(i) => Some(&self.data[i]),
            None => None,
        }
    }
}

impl Canvas<(u8, u8, u8)> {
    /// The image as a plain-text PPM file, for a canvas whose pixels hold
    /// channel values between 0 and 255.
    pub fn ppm(&self) -> (s: String)
        requires
            self.wf(),
            self.spec_width() > 0,
        ensures
            s@ == ppm_spec(self.pixels(), self.spec_width(), self.spec_height()),
    {
        ppm_text(self.width, self.height, &self.data)
    }
}

/// Reading a pixel after writing one: the written pixel holds the new color
/// and every other pixel keeps its color.
pub proof fn lemma_read_after_write<C: Copy>(
    c: Canvas<C>,
    x: int,
    y: int,
    color: C,
    x2: int,
    y2: int,
)
    requires
        c.wf(),
        c.contains(x, y),
        c.contains(x2, y2),
    ensures
        ({
            let after = c.pixels().update(c.index_of(x, y), color);
            after[c.index_of(x2, y2)] == if x2 == x && y2 == y {
                color
            } else {
                c.pixel(x2, y2)
            }
        }),
{
    let w = c.spec_width() as int;
    let h = c.spec_height() as int;
    lemma_index_in_grid(x, y, w, h);
    lemma_index_in_grid(x2, y2, w, h);
    if !(x2 == x && y2 == y) {
        assert(w * y + x != w * y2 + x2) by (nonlinear_arith)
            requires
                0 <= x < w,
                0 <= x2 < w,
                0 <= y,
                0 <= y2,
                !(x2 == x && y2 == y),
        {
            if y == y2 {
            } else if y < y2 {
                assert(w * y2 >= w * (y + 1));
            } else {
                assert(w * y >= w * (y2 + 1));
            }
        }
    }
}

proof fn lemma_index_in_grid(x: int, y: int, w: int, h: int)
    requires
        0 <= x < w,
        0 <= y < h,
    ensures
        0 <= w * y + x < w * h,
{
    assert(w * y + x < w * h) by (nonlinear_arith)
        requires
            0 <= x < w,
            0 <= y < h,
    ;
    assert(0 <= w * y) by (nonlinear_arith)
        requires
            0 <= x < w,
            0 <= y,
    ;
}

} // verus!
