//! Writing an image as plain-text PPM.
use vstd::prelude::*;
use crate::error::FormatError;
use crate::image::Image;
use crate::pixel::{pixel_text, Pixel};
use crate::text::{ascii_text, decimal, lemma_ascii_text_concat, push_decimal, push_space, NEWLINE, SPACE};

verus! {

/// The display texts of the pixels, one after another.
pub open spec fn row_text(ps: Seq<Pixel>) -> Seq<u8>
    decreases ps.len(),
{
    if ps.len() == 0 {
        seq![]
    } else {
        row_text(ps.drop_last()) + pixel_text(ps.last())
    }
}

/// Row `i` of an image of the given width.
pub open spec fn row_of(ps: Seq<Pixel>, width: nat, i: nat) -> Seq<Pixel> {
    ps.subrange((i * width) as int, (i * width + width) as int)
}

/// The first `rows` rows, each as a line of pixel texts.
pub open spec fn body_text(ps: Seq<Pixel>, width: nat, rows: nat) -> Seq<u8>
    decreases rows,
{
    if rows == 0 {
        seq![]
    } else {
        body_text(ps, width, (rows - 1) as nat) + row_text(row_of(ps, width, (rows - 1) as nat))
            + seq![NEWLINE]
    }
}

/// The header lines: the format marker, `width height`, and the maximum
/// channel value 255.
pub open spec fn header_text(height: usize, width: usize) -> Seq<u8> {
    seq![80u8, 51u8, NEWLINE] + decimal(width as nat) + seq![SPACE] + decimal(height as nat) + seq![
        NEWLINE,
    ] + decimal(255) + seq![NEWLINE]
}

/// The PPM text of an image.
pub open spec fn ppm_text(height: usize, width: usize, ps: Seq<Pixel>) -> Seq<u8> {
    header_text(height, width) + body_text(ps, width as nat, height as nat)
}

fn push_newline(s: &mut String)
    ensures
        final(s)@ == old(s)@ + ascii_text(seq![NEWLINE]),
{
    proof {
        reveal_strlit("\n");
    }
    s.append("\n");
    assert(ascii_text(seq![NEWLINE]) =~= "\n"@);
}

impl Image {
    /// Appends the rows, each a line of pixel display texts.
    fn push_rows(&self, s: &mut String)
        requires
            self.height * self.width <= self.pixels@.len(),
        ensures
            final(s)@ == old(s)@ + ascii_text(
                body_text(self.pixels@, self.width as nat, self.height as nat),
            ),
    {
        let ghost ps = self.pixels@;
        let ghost w = self.width as nat;
        let ghost start = s@;
        let len = self.pixels.len();
        let mut i: usize = 0;
        let mut idx: usize = 0;
        while i < self.height
            invariant
                i <= self.height,
                self.height * self.width <= ps.len(),
                ps.len() == len,
                ps == self.pixels@,
                w == self.width,
                idx == i * self.width,
                s@ == start + ascii_text(body_text(ps, w, i as nat)),
            decreases self.height - i,
        {
            assert((i + 1) * w <= self.height * w) by (nonlinear_arith)
                requires
                    i + 1 <= self.height,
            ;
            assert((i + 1) * w == i * w + w) by (nonlinear_arith);
            let mut j: usize = 0;
            while j < self.width
                invariant
                    i < self.height,
                    j <= self.width,
                    (i + 1) * w <= ps.len(),
                    ps.len() == len,
                    (i + 1) * w == i * w + w,
                    ps == self.pixels@,
                    w == self.width,
                    idx == i * self.width + j,
                    s@ == start + ascii_text(
                        body_text(ps, w, i as nat) + row_text(row_of(ps, w, i as nat).take(j as int)),
                    ),
                decreases self.width - j,
            {
                let text = self.pixels[idx].display();
                proof {
                    let r = row_of(ps, w, i as nat);
                    assert(r.take(j + 1).drop_last() =~= r.take(j as int));
                    assert(r.take(j + 1).last() == ps[idx as int]);
                    lemma_ascii_text_concat(
                        body_text(ps, w, i as nat) + row_text(r.take(j as int)),
                        pixel_text(ps[idx as int]),
                    );
                    assert(body_text(ps, w, i as nat) + row_text(r.take(j + 1)) =~= body_text(
                        ps,
                        w,
                        i as nat,
                    ) + row_text(r.take(j as int)) + pixel_text(ps[idx as int]));
                }
                s.append(text.as_str());
                idx += 1;
                j += 1;
            }
            push_newline(s);
            proof {
                let r = row_of(ps, w, i as nat);
                assert(r.take(w as int) =~= r);
                lemma_ascii_text_concat(body_text(ps, w, i as nat) + row_text(r), seq![NEWLINE]);
                assert(body_text(ps, w, (i + 1) as nat) == body_text(ps, w, i as nat) + row_text(r)
                    + seq![NEWLINE]);
            }
            i += 1;
        }
    }

    /// The image as PPM text, or `IndexOutOfBounds` when it holds fewer than
    /// `height * width` pixels.
    pub fn to_ppm(&self) -> (r: Result<String, FormatError>)
        ensures
            r is Ok <==> self.height * self.width <= self.pixels@.len(),
            r matches Ok(s) ==> s@ == ascii_text(ppm_text(self.height, self.width, self.pixels@)),
            r matches Err(e) ==> e == FormatError::IndexOutOfBounds,
    {
        let len = self.pixels.len();
        match self.height.checked_mul(self.width) {
            Some(size) => {
                if size > len {
                    return Err(FormatError::IndexOutOfBounds);
                }
            },
            None => {
                return Err(FormatError::IndexOutOfBounds);
            },
        }
        let mut s = String::new();
        proof {
            reveal_strlit("P3\n");
        }
        s.append("P3\n");
        assert(s@ =~= ascii_text(seq![80u8, 51u8, NEWLINE]));
        push_decimal(&mut s, self.width);
        push_space(&mut s);
        push_decimal(&mut s, self.height);
        push_newline(&mut s);
        push_decimal(&mut s, 255);
        push_newline(&mut s);
        proof {
            let w = decimal(self.width as nat);
            let h = decimal(self.height as nat);
            let m = decimal(255);
            let p3 = seq![80u8, 51u8, NEWLINE];
            lemma_ascii_text_concat(p3, w);
            lemma_ascii_text_concat(p3 + w, seq![SPACE]);
            lemma_ascii_text_concat(p3 + w + seq![SPACE], h);
            lemma_ascii_text_concat(p3 + w + seq![SPACE] + h, seq![NEWLINE]);
            lemma_ascii_text_concat(p3 + w + seq![SPACE] + h + seq![NEWLINE], m);
            lemma_ascii_text_concat(p3 + w + seq![SPACE] + h + seq![NEWLINE] + m, seq![NEWLINE]);
            assert(s@ =~= ascii_text(header_text(self.height, self.width)));
        }
        self.push_rows(&mut s);
        proof {
            lemma_ascii_text_concat(
                header_text(self.height, self.width),
                body_text(self.pixels@, self.width as nat, self.height as nat),
            );
        }
        Ok(s)
    }

    /// The pixels as text, row by row: each pixel's display text, and a line
    /// break after each row. `IndexOutOfBounds` when the image holds fewer
    /// than `height * width` pixels.
    #[allow(non_snake_case)]
    pub fn toString(&self) -> (r: Result<String, FormatError>)
        ensures
            r is Ok <==> self.height * self.width <= self.pixels@.len(),
            r matches Ok(s) ==> s@ == ascii_text(
                body_text(self.pixels@, self.width as nat, self.height as nat),
            ),
            r matches Err(e) ==> e == FormatError::IndexOutOfBounds,
    {
        let len = self.pixels.len();
        match self.height.checked_mul(self.width) {
            Some(size) => {
                if size > len {
                    return Err(FormatError::IndexOutOfBounds);
                }
            },
            None => {
                return Err(FormatError::IndexOutOfBounds);
            },
        }
        let mut s = String::new();
        self.push_rows(&mut s);
        assert(s@ =~= ascii_text(body_text(self.pixels@, self.width as nat, self.height as nat)));
        Ok(s)
    }
}

} // verus!
