//! Reading the plain-text PPM format.
//!
//! A text is read line by line. A line whose first byte is `#` is a comment.
//! Any other line is split into tokens at white space and classified by its
//! token count:
//! - one token: a format marker when it starts with `P`, otherwise the
//!   maximum channel value, which must be a number no greater than 255;
//! - two tokens: `width height`, which (re)starts the image with no pixels;
//! - any other count: pixel data, whole triples of channel values from 0 to
//!   255, which may only come after a dimension line.
//! At the end the number of pixels must be `width * height`. A text without a
//! dimension line gives the empty 0 by 0 image.
use vstd::prelude::*;
use crate::error::FormatError;
use crate::image::Image;
use crate::lines::{lemma_line_len, split_lines, strip_cr, token_spans, tokenize, tokens};
use crate::pixel::Pixel;
use crate::text::{is_digit, is_numeral, lemma_numeral_prefix, numeral_value};
use vstd::string::{StrSliceExecFns, StringSliceAdditionalSpecFns};

verus! {

pub const HASH: u8 = 35;

pub const LETTER_P: u8 = 80;

/// A token that reads as a channel value.
pub open spec fn is_channel(t: Seq<u8>) -> bool {
    is_numeral(t) && numeral_value(t) <= 255
}

/// The pixels spelled by consecutive triples of channel tokens.
pub open spec fn pixels_of(ts: Seq<Seq<u8>>) -> Seq<Pixel>
    decreases ts.len(),
{
    if ts.len() < 3 {
        seq![]
    } else {
        let n = ts.len() as int;
        pixels_of(ts.take(n - 3)).push(
            Pixel {
                r: numeral_value(ts[n - 3]) as u8,
                g: numeral_value(ts[n - 2]) as u8,
                b: numeral_value(ts[n - 1]) as u8,
            },
        )
    }
}

/// What a reader holds between lines: `None` before the dimension line,
/// afterwards the height, the width and the pixels read so far.
pub open spec fn step(st: Option<(usize, usize, Seq<Pixel>)>, line: Seq<u8>) -> Result<
    Option<(usize, usize, Seq<Pixel>)>,
    FormatError,
> {
    let ts = tokens(line);
    if line.len() > 0 && line[0] == HASH {
        Ok(st)
    } else if ts.len() == 1 {
        if ts[0][0] == LETTER_P {
            Ok(st)
        } else if !is_numeral(ts[0]) {
            Err(FormatError::InvalidInput)
        } else if numeral_value(ts[0]) > 255 {
            Err(FormatError::OutOfRange)
        } else {
            Ok(st)
        }
    } else if ts.len() == 2 {
        if is_numeral(ts[0]) && numeral_value(ts[0]) <= usize::MAX && is_numeral(ts[1])
            && numeral_value(ts[1]) <= usize::MAX {
            Ok(Some((numeral_value(ts[1]) as usize, numeral_value(ts[0]) as usize, seq![])))
        } else {
            Err(FormatError::InvalidInput)
        }
    } else {
        match st {
            None => Err(FormatError::UninitializedImage),
            Some((h, w, ps)) => {
                if ts.len() % 3 == 0 && forall|i: int| 0 <= i < ts.len() ==> is_channel(#[trigger] ts[i]) {
                    Ok(Some((h, w, ps + pixels_of(ts))))
                } else {
                    Err(FormatError::InvalidPixelValue)
                }
            },
        }
    }
}

/// Reads the lines in order from state `st`, stopping at the first error.
pub open spec fn run(st: Option<(usize, usize, Seq<Pixel>)>, ls: Seq<Seq<u8>>) -> Result<
    Option<(usize, usize, Seq<Pixel>)>,
    FormatError,
>
    decreases ls.len(),
{
    if ls.len() == 0 {
        Ok(st)
    } else {
        match step(st, ls[0]) {
            Ok(next) => run(next, ls.drop_first()),
            Err(e) => Err(e),
        }
    }
}

/// The image (height, width, pixels) that a PPM text describes, or why it
/// describes none.
pub open spec fn parse_ppm(b: Seq<u8>) -> Result<(usize, usize, Seq<Pixel>), FormatError> {
    match run(None, split_lines(b)) {
        Err(e) => Err(e),
        Ok(None) => Ok((0, 0, seq![])),
        Ok(Some((h, w, ps))) => {
            if ps.len() == h * w {
                Ok((h, w, ps))
            } else {
                Err(FormatError::SizeMismatch)
            }
        },
    }
}

/// The reader's state: before the dimension line, or filling an image.
pub enum LoadState {
    AwaitingHeader,
    ReadingPixels(Image),
}

impl View for LoadState {
    type V = Option<(usize, usize, Seq<Pixel>)>;

    open spec fn view(&self) -> Option<(usize, usize, Seq<Pixel>)> {
        match self {
            LoadState::AwaitingHeader => None,
            LoadState::ReadingPixels(img) => Some(img@),
        }
    }
}

/// The view of a reader's move.
pub open spec fn state_result(r: Result<LoadState, FormatError>) -> Result<
    Option<(usize, usize, Seq<Pixel>)>,
    FormatError,
> {
    match r {
        Ok(s) => Ok(s@),
        Err(e) => Err(e),
    }
}

/// The view of a read image.
pub open spec fn image_result(r: Result<Image, FormatError>) -> Result<
    (usize, usize, Seq<Pixel>),
    FormatError,
> {
    match r {
        Ok(img) => Ok(img@),
        Err(e) => Err(e),
    }
}

/// The value of the numeral `b[start..end]`, if it is one and is at most
/// `limit`.
pub fn numeral_at(b: &[u8], start: usize, end: usize, limit: usize) -> (r: Option<usize>)
    requires
        start <= end <= b@.len(),
    ensures
        r is Some <==> (is_numeral(b@.subrange(start as int, end as int)) && numeral_value(
            b@.subrange(start as int, end as int),
        ) <= limit),
        r matches Some(v) ==> v == numeral_value(b@.subrange(start as int, end as int)),
{
    let ghost t = b@.subrange(start as int, end as int);
    if start == end {
        return None;
    }
    let mut v: usize = 0;
    let mut i: usize = start;
    while i < end
        invariant
            start <= i <= end <= b@.len(),
            t == b@.subrange(start as int, end as int),
            forall|k: int| start <= k < i ==> is_digit(#[trigger] b@[k]),
            v == numeral_value(t.take(i - start)),
            v <= limit,
        decreases end - i,
    {
        let c = b[i];
        proof {
            assert(t.take(i - start + 1).drop_last() =~= t.take(i - start));
            lemma_numeral_prefix(t, i - start + 1);
        }
        if c < 48 || c > 57 {
            assert(!is_digit(t[i - start]));
            return None;
        }
        let d: usize = (c - 48) as usize;
        match v.checked_mul(10) {
            None => {
                return None;
            },
            Some(m) => match m.checked_add(d) {
                None => {
                    return None;
                },
                Some(nv) => {
                    if nv > limit {
                        return None;
                    }
                    v = nv;
                },
            },
        }
        i += 1;
    }
    assert(t.take(end - start) =~= t);
    assert forall|k: int| 0 <= k < t.len() implies is_digit(#[trigger] t[k]) by {
        assert(t[k] == b@[start + k]);
    }
    Some(v)
}

/// Whether `b[start..end]` is a numeral.
pub fn is_numeral_at(b: &[u8], start: usize, end: usize) -> (r: bool)
    requires
        start <= end <= b@.len(),
    ensures
        r == is_numeral(b@.subrange(start as int, end as int)),
{
    let ghost t = b@.subrange(start as int, end as int);
    if start == end {
        return false;
    }
    let mut i: usize = start;
    while i < end
        invariant
            start <= i <= end <= b@.len(),
            t == b@.subrange(start as int, end as int),
            forall|k: int| start <= k < i ==> is_digit(#[trigger] b@[k]),
        decreases end - i,
    {
        if b[i] < 48 || b[i] > 57 {
            assert(!is_digit(t[i - start]));
            return false;
        }
        i += 1;
    }
    assert forall|k: int| 0 <= k < t.len() implies is_digit(#[trigger] t[k]) by {
        assert(t[k] == b@[start + k]);
    }
    true
}

/// The reader's move on the line `b[start..stop]`.
pub fn step_line(state: LoadState, b: &[u8], start: usize, stop: usize) -> (r: Result<
    LoadState,
    FormatError,
>)
    requires
        start <= stop <= b@.len(),
    ensures
        state_result(r) == step(state@, b@.subrange(start as int, stop as int)),
{
    let ghost line = b@.subrange(start as int, stop as int);
    let ghost st0 = state@;
    if start < stop && b[start] == HASH {
        return Ok(state);
    }
    let spans = tokenize(b, start, stop);
    let ghost ts = tokens(line);
    assert(forall|k: int|
        0 <= k < spans@.len() ==> ts[k] == b@.subrange(
            (#[trigger] spans@[k]).0 as int,
            spans@[k].1 as int,
        )) by {
        assert(ts == token_spans(b@, spans@));
    }
    let n = spans.len();
    if n == 1 {
        let (s0, e0) = spans[0];
        assert(ts[0][0] == b@[s0 as int]);
        if b[s0] == LETTER_P {
            Ok(state)
        } else if !is_numeral_at(b, s0, e0) {
            Err(FormatError::InvalidInput)
        } else if numeral_at(b, s0, e0, 255).is_none() {
            Err(FormatError::OutOfRange)
        } else {
            Ok(state)
        }
    } else if n == 2 {
        let (s0, e0) = spans[0];
        let (s1, e1) = spans[1];
        match (numeral_at(b, s0, e0, usize::MAX), numeral_at(b, s1, e1, usize::MAX)) {
            (Some(w), Some(h)) => Ok(LoadState::ReadingPixels(Image { height: h, width: w, pixels: Vec::new() })),
            _ => Err(FormatError::InvalidInput),
        }
    } else {
        match state {
            LoadState::AwaitingHeader => Err(FormatError::UninitializedImage),
            LoadState::ReadingPixels(mut img) => {
                if n % 3 != 0 {
                    return Err(FormatError::InvalidPixelValue);
                }
                let ghost old_ps = img.pixels@;
                let ghost h = img.height;
                let ghost w = img.width;
                assert(!(line.len() > 0 && line[0] == HASH));
                let mut k: usize = 0;
                while k < n / 3
                    invariant
                        n == spans@.len() == ts.len(),
                        line == b@.subrange(start as int, stop as int),
                        ts == tokens(line),
                        !(line.len() > 0 && line[0] == HASH),
                        st0 == Some((h, w, old_ps)),
                        st0 == state@,
                        n % 3 == 0,
                        0 <= k <= n / 3,
                        img.height == h,
                        img.width == w,
                        img.pixels@ == old_ps + pixels_of(ts.take(3 * k)),
                        forall|i: int| 0 <= i < 3 * k ==> is_channel(#[trigger] ts[i]),
                        forall|j: int|
                            0 <= j < spans@.len() ==> start <= (#[trigger] spans@[j]).0 < spans@[j].1 <= stop,
                        forall|j: int|
                            0 <= j < spans@.len() ==> ts[j] == b@.subrange(
                                (#[trigger] spans@[j]).0 as int,
                                spans@[j].1 as int,
                            ),
                        start <= stop <= b@.len(),
                    decreases n / 3 - k,
                {
                    let (sr, er) = spans[3 * k];
                    let (sg, eg) = spans[3 * k + 1];
                    let (sb, eb) = spans[3 * k + 2];
                    let r = numeral_at(b, sr, er, 255);
                    let g = numeral_at(b, sg, eg, 255);
                    let bl = numeral_at(b, sb, eb, 255);
                    match (r, g, bl) {
                        (Some(r), Some(g), Some(bl)) => {
                            img.pixels.push(Pixel { r: r as u8, g: g as u8, b: bl as u8 });
                            proof {
                                let t3 = ts.take(3 * k + 3);
                                assert(t3.take(3 * k) =~= ts.take(3 * k));
                                assert(t3[3 * k] == ts[3 * k]);
                                assert(t3[3 * k + 1] == ts[3 * k + 1]);
                                assert(t3[3 * k + 2] == ts[3 * k + 2]);
                                assert(pixels_of(t3) == pixels_of(ts.take(3 * k)).push(
                                    Pixel { r: r as u8, g: g as u8, b: bl as u8 },
                                ));
                                assert(img.pixels@ =~= old_ps + pixels_of(t3));
                            }
                        },
                        _ => {
                            proof {
                                assert(ts[3 * k as int] == b@.subrange(sr as int, er as int));
                                assert(ts[3 * k + 1] == b@.subrange(sg as int, eg as int));
                                assert(ts[3 * k + 2] == b@.subrange(sb as int, eb as int));
                                assert(!is_channel(ts[3 * k as int]) || !is_channel(ts[3 * k + 1])
                                    || !is_channel(ts[3 * k + 2]));
                            }
                            return Err(FormatError::InvalidPixelValue);
                        },
                    }
                    k += 1;
                }
                assert(ts.take(3 * k) =~= ts);
                Ok(LoadState::ReadingPixels(img))
            },
        }
    }
}

/// Accepts a file extension only when it is exactly `ppm`.
pub fn check_extension(ext: Option<&str>) -> (r: Result<(), FormatError>)
    ensures
        r is Ok <==> (ext matches Some(e) && e@ == seq!['p', 'p', 'm']),
        r matches Err(e) ==> e == FormatError::InvalidInput,
{
    match ext {
        None => Err(FormatError::InvalidInput),
        Some(e) => {
            if e.unicode_len() == 3 && e.get_char(0) == 'p' && e.get_char(1) == 'p' && e.get_char(2)
                == 'm' {
                assert(e@ =~= seq!['p', 'p', 'm']);
                Ok(())
            } else {
                Err(FormatError::InvalidInput)
            }
        },
    }
}

impl Image {
    /// Reads an image from the text of a PPM file.
    pub fn from_ppm(text: &str) -> (r: Result<Image, FormatError>)
        ensures
            image_result(r) == parse_ppm(text.spec_bytes()),
            r matches Ok(img) ==> img.is_complete(),
    {
        let b = text.as_bytes();
        let ghost all = b@;
        let mut state = LoadState::AwaitingHeader;
        let mut pos: usize = 0;
        assert(all.skip(0) =~= all);
        while pos < b.len()
            invariant
                pos <= b@.len(),
                b@ == all,
                all == text.spec_bytes(),
                run(state@, split_lines(all.skip(pos as int))) == run(None, split_lines(all)),
            decreases b@.len() - pos,
        {
            let ghost rest = all.skip(pos as int);
            let mut end: usize = pos;
            while end < b.len() && b[end] != 10
                invariant
                    pos <= end <= b@.len(),
                    b@ == all,
                    forall|k: int| pos <= k < end ==> all[k] != 10,
                decreases b@.len() - end,
            {
                end += 1;
            }
            let mut stop: usize = end;
            if stop > pos && b[stop - 1] == 13 {
                stop -= 1;
            }
            proof {
                lemma_line_len(rest, end - pos);
                assert(strip_cr(rest.take(end - pos)) =~= all.subrange(pos as int, stop as int));
                if end < all.len() {
                    assert(rest.skip(end - pos + 1) =~= all.skip(end + 1));
                } else {
                    assert(rest.take(end - pos) =~= rest);
                    assert(all.skip(end as int) =~= Seq::<u8>::empty());
                }
            }
            match step_line(state, b, pos, stop) {
                Ok(next) => {
                    state = next;
                },
                Err(e) => {
                    return Err(e);
                },
            }
            pos = if end < b.len() {
                end + 1
            } else {
                end
            };
            assert(split_lines(rest).drop_first() =~= split_lines(all.skip(pos as int)));
        }
        assert(all.skip(pos as int) =~= Seq::<u8>::empty());
        match state {
            LoadState::AwaitingHeader => {
                let img = Image { height: 0, width: 0, pixels: Vec::new() };
                assert(img.pixels@.len() == 0);
                assert(img.height * img.width == 0) by (nonlinear_arith)
                    requires
                        img.height == 0,
                ;
                Ok(img)
            },
            LoadState::ReadingPixels(img) => {
                let len = img.pixels.len();
                match img.height.checked_mul(img.width) {
                    Some(size) => {
                        if size == len {
                            assert(img.is_complete());
                            Ok(img)
                        } else {
                            Err(FormatError::SizeMismatch)
                        }
                    },
                    None => Err(FormatError::SizeMismatch),
                }
            },
        }
    }
}

} // verus!
