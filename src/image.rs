//! A rectangular grid of pixels stored row by row.
use vstd::prelude::*;
use crate::error::FormatError;
use crate::pixel::{greyed, inverted, Pixel};

verus! {

/// An image of `height` rows and `width` columns. The pixel at row `i`,
/// column `j` is `pixels[width * i + j]`. A loaded image holds exactly
/// `height * width` pixels; one made by `new` starts with none.
pub struct Image {
    pub height: usize,
    pub width: usize,
    pub pixels: Vec<Pixel>,
}

impl View for Image {
    type V = (usize, usize, Seq<Pixel>);

    open spec fn view(&self) -> (usize, usize, Seq<Pixel>) {
        (self.height, self.width, self.pixels@)
    }
}

impl Image {
    /// Holds exactly one pixel for each row and column.
    pub open spec fn is_complete(&self) -> bool {
        self.pixels@.len() == self.height * self.width
    }

    /// An image with the given dimensions and no pixels yet.
    pub fn new(h: &usize, w: &usize) -> (img: Image)
        ensures
            img.height == *h,
            img.width == *w,
            img.pixels@ == Seq::<Pixel>::empty(),
    {
        Image { height: *h, width: *w, pixels: Vec::new() }
    }

    /// The pixel at row `x`, column `y`, that is at index `width * x + y`.
    #[allow(non_snake_case)]
    pub fn getPixel(&self, x: usize, y: usize) -> (r: Result<Pixel, FormatError>)
        ensures
            self.width * x + y < self.pixels@.len() ==> r == Ok::<Pixel, FormatError>(
                self.pixels@[self.width * x + y],
            ),
            self.width * x + y >= self.pixels@.len() ==> r == Err::<Pixel, FormatError>(
                FormatError::IndexOutOfBounds,
            ),
    {
        let len = self.pixels.len();
        match self.width.checked_mul(x) {
            Some(row_start) => match row_start.checked_add(y) {
                Some(index) => {
                    if index < len {
                        Ok(self.pixels[index])
                    } else {
                        Err(FormatError::IndexOutOfBounds)
                    }
                },
                None => Err(FormatError::IndexOutOfBounds),
            },
            None => {
                assert(self.width * x + y >= len) by (nonlinear_arith)
                    requires
                        self.width * x > usize::MAX,
                        y >= 0,
                        len <= usize::MAX,
                ;
                Err(FormatError::IndexOutOfBounds)
            },
        }
    }

    /// Converts every pixel to grey, in index order.
    #[allow(non_snake_case)]
    pub fn greyScale(&mut self)
        ensures
            final(self).height == old(self).height,
            final(self).width == old(self).width,
            final(self).pixels@ == old(self).pixels@.map_values(|p: Pixel| greyed(p)),
    {
        let n = self.pixels.len();
        let mut x: usize = 0;
        while x < n
            invariant
                0 <= x <= n,
                n == old(self).pixels@.len(),
                self.height == old(self).height,
                self.width == old(self).width,
                self.pixels@.len() == n,
                forall|i: int| 0 <= i < x ==> self.pixels@[i] == greyed(old(self).pixels@[i]),
                forall|i: int| x <= i < n ==> self.pixels@[i] == old(self).pixels@[i],
            decreases n - x,
        {
            let mut p = self.pixels[x];
            p.greyScale();
            self.pixels.set(x, p);
            x += 1;
        }
        assert(self.pixels@ =~= old(self).pixels@.map_values(|p: Pixel| greyed(p)));
    }

    /// Inverts every pixel, in index order.
    pub fn invert(&mut self)
        ensures
            final(self).height == old(self).height,
            final(self).width == old(self).width,
            final(self).pixels@ == old(self).pixels@.map_values(|p: Pixel| inverted(p)),
    {
        let n = self.pixels.len();
        let mut x: usize = 0;
        while x < n
            invariant
                0 <= x <= n,
                n == old(self).pixels@.len(),
                self.height == old(self).height,
                self.width == old(self).width,
                self.pixels@.len() == n,
                forall|i: int| 0 <= i < x ==> self.pixels@[i] == inverted(old(self).pixels@[i]),
                forall|i: int| x <= i < n ==> self.pixels@[i] == old(self).pixels@[i],
            decreases n - x,
        {
            let mut p = self.pixels[x];
            p.invert();
            self.pixels.set(x, p);
            x += 1;
        }
        assert(self.pixels@ =~= old(self).pixels@.map_values(|p: Pixel| inverted(p)));
    }
}

} // verus!
