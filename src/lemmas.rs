//! What reading guarantees about written text, and about the errors the
//! reader reports.
use vstd::prelude::*;
use vstd::utf8::{encode_utf8, is_ascii_chars, is_ascii_chars_encode_utf8};
use crate::error::FormatError;
use crate::lines::{
    lemma_line_len, lemma_word_len, line_len, split_lines, strip_cr, tokens, word_len,
};
use crate::pixel::{pixel_text, Pixel};
use crate::ppm::{is_channel, parse_ppm, pixels_of, run, step};
use crate::text::{
    ascii_text, decimal, is_digit, is_numeral, is_space, lemma_decimal_value, numeral_value,
    NEWLINE, SPACE,
};
use crate::writer::{body_text, header_text, ppm_text, row_of, row_text};

verus! {

/// A byte that may stand in a written row: a digit or a space.
pub open spec fn row_byte(c: u8) -> bool {
    is_digit(c) || c == SPACE
}

/// The channel numerals of the pixels, three per pixel, in order.
pub open spec fn channel_tokens(qs: Seq<Pixel>) -> Seq<Seq<u8>>
    decreases qs.len(),
{
    if qs.len() == 0 {
        seq![]
    } else {
        let p = qs.last();
        channel_tokens(qs.drop_last()) + seq![
            decimal(p.r as nat),
            decimal(p.g as nat),
            decimal(p.b as nat),
        ]
    }
}

/// The rows of an image, each as the line that the writer produces for it.
pub open spec fn row_lines(ps: Seq<Pixel>, w: nat, k: nat) -> Seq<Seq<u8>> {
    Seq::new(k, |i: int| row_text(row_of(ps, w, i as nat)))
}

pub proof fn lemma_line_len_bounds(b: Seq<u8>)
    ensures
        line_len(b) <= b.len(),
        forall|j: int| 0 <= j < line_len(b) ==> b[j] != NEWLINE,
        line_len(b) < b.len() ==> b[line_len(b) as int] == NEWLINE,
    decreases b.len(),
{
    if b.len() > 0 && b[0] != NEWLINE {
        lemma_line_len_bounds(b.drop_first());
        assert forall|j: int| 0 <= j < line_len(b) implies b[j] != NEWLINE by {
            if j > 0 {
                assert(b[j] == b.drop_first()[j - 1]);
            }
        }
    }
}

pub proof fn lemma_word_len_bounds(l: Seq<u8>)
    ensures
        word_len(l) <= l.len(),
        forall|j: int| 0 <= j < word_len(l) ==> !is_space(#[trigger] l[j]),
        word_len(l) < l.len() ==> is_space(l[word_len(l) as int]),
    decreases l.len(),
{
    if l.len() > 0 && !is_space(l[0]) {
        lemma_word_len_bounds(l.drop_first());
        assert forall|j: int| 0 <= j < word_len(l) implies !is_space(#[trigger] l[j]) by {
            if j > 0 {
                assert(l[j] == l.drop_first()[j - 1]);
            }
        }
    }
}

/// Text that ends with a line feed splits into lines independently of what
/// follows it.
pub proof fn lemma_split_lines_concat(a: Seq<u8>, b: Seq<u8>)
    requires
        a.len() == 0 || a.last() == NEWLINE,
    ensures
        split_lines(a + b) == split_lines(a) + split_lines(b),
    decreases a.len(),
{
    if a.len() == 0 {
        assert(a + b =~= b);
        assert(split_lines(a) + split_lines(b) =~= split_lines(b));
    } else {
        lemma_line_len_bounds(a);
        let n = line_len(a) as int;
        assert(n < a.len()) by {
            if n == a.len() {
                assert(a[a.len() - 1] != NEWLINE);
            }
        }
        assert forall|j: int| 0 <= j < n implies (a + b)[j] != NEWLINE by {
            assert((a + b)[j] == a[j]);
        }
        lemma_line_len(a + b, n);
        assert((a + b).take(n) =~= a.take(n));
        assert((a + b).skip(n + 1) =~= a.skip(n + 1) + b);
        lemma_split_lines_concat(a.skip(n + 1), b);
        assert(split_lines(a + b) =~= split_lines(a) + split_lines(b));
    }
}

/// Bytes without a line feed, followed by one, make one line.
pub proof fn lemma_split_one_line(x: Seq<u8>)
    requires
        forall|j: int| 0 <= j < x.len() ==> x[j] != NEWLINE,
    ensures
        split_lines(x + seq![NEWLINE]) == seq![strip_cr(x)],
{
    let t = x + seq![NEWLINE];
    assert forall|j: int| 0 <= j < x.len() implies t[j] != NEWLINE by {
        assert(t[j] == x[j]);
    }
    lemma_line_len(t, x.len() as int);
    assert(t.take(x.len() as int) =~= x);
    assert(t.skip(x.len() + 1 as int) =~= Seq::<u8>::empty());
    reveal_with_fuel(split_lines, 2);
    assert(split_lines(t) =~= seq![strip_cr(x)]);
}

/// Text that ends with white space splits into tokens independently of what
/// follows it.
pub proof fn lemma_tokens_concat(a: Seq<u8>, b: Seq<u8>)
    requires
        a.len() == 0 || is_space(a.last()),
    ensures
        tokens(a + b) == tokens(a) + tokens(b),
    decreases a.len(),
{
    if a.len() == 0 {
        assert(a + b =~= b);
        assert(tokens(a) + tokens(b) =~= tokens(b));
    } else if is_space(a[0]) {
        assert((a + b).drop_first() =~= a.drop_first() + b);
        lemma_tokens_concat(a.drop_first(), b);
    } else {
        lemma_word_len_bounds(a);
        let n = word_len(a) as int;
        assert(n < a.len()) by {
            if n == a.len() {
                assert(!is_space(a[a.len() - 1]));
            }
        }
        assert forall|j: int| 0 <= j < n implies !is_space(#[trigger] (a + b)[j]) by {
            assert((a + b)[j] == a[j]);
        }
        lemma_word_len(a + b, n);
        assert((a + b).take(n) =~= a.take(n));
        assert((a + b).skip(n) =~= a.skip(n) + b);
        lemma_tokens_concat(a.skip(n), b);
        assert(tokens(a + b) =~= tokens(a) + tokens(b));
    }
}

/// A word, alone or followed by one space, is one token.
pub proof fn lemma_tokens_word(t: Seq<u8>)
    requires
        t.len() > 0,
        forall|j: int| 0 <= j < t.len() ==> !is_space(#[trigger] t[j]),
    ensures
        tokens(t) == seq![t],
        tokens(t + seq![SPACE]) == seq![t],
{
    lemma_word_len(t, t.len() as int);
    assert(t.take(t.len() as int) =~= t);
    assert(t.skip(t.len() as int) =~= Seq::<u8>::empty());
    reveal_with_fuel(tokens, 2);
    assert(tokens(t) =~= seq![t]);
    let u = t + seq![SPACE];
    assert forall|j: int| 0 <= j < t.len() implies !is_space(#[trigger] u[j]) by {
        assert(u[j] == t[j]);
    }
    lemma_word_len(u, t.len() as int);
    assert(u.take(t.len() as int) =~= t);
    assert(u.skip(t.len() as int) =~= seq![SPACE]);
    assert(seq![SPACE].drop_first() =~= Seq::<u8>::empty());
    assert(tokens(seq![SPACE]) =~= Seq::<Seq<u8>>::empty());
    assert(tokens(u) =~= seq![t]);
}

/// A decimal numeral is a word of digits.
pub proof fn lemma_decimal_word(n: nat)
    ensures
        is_numeral(decimal(n)),
        numeral_value(decimal(n)) == n,
        forall|j: int| 0 <= j < decimal(n).len() ==> !is_space(#[trigger] decimal(n)[j]),
        forall|j: int| 0 <= j < decimal(n).len() ==> is_digit(#[trigger] decimal(n)[j]),
        tokens(decimal(n)) == seq![decimal(n)],
        tokens(decimal(n) + seq![SPACE]) == seq![decimal(n)],
{
    lemma_decimal_value(n);
    lemma_tokens_word(decimal(n));
}

pub proof fn lemma_pixel_tokens(p: Pixel)
    ensures
        tokens(pixel_text(p)) == seq![
            decimal(p.r as nat),
            decimal(p.g as nat),
            decimal(p.b as nat),
        ],
        pixel_text(p).len() > 0,
        pixel_text(p).last() == SPACE,
        is_digit(pixel_text(p)[0]),
        forall|i: int| 0 <= i < pixel_text(p).len() ==> row_byte(#[trigger] pixel_text(p)[i]),
{
    let dr = decimal(p.r as nat);
    let dg = decimal(p.g as nat);
    let db = decimal(p.b as nat);
    lemma_decimal_word(p.r as nat);
    lemma_decimal_word(p.g as nat);
    lemma_decimal_word(p.b as nat);
    let a1 = dr + seq![SPACE];
    let a2 = dg + seq![SPACE];
    let a3 = db + seq![SPACE];
    assert(pixel_text(p) =~= a1 + (a2 + a3));
    lemma_tokens_concat(a1, a2 + a3);
    lemma_tokens_concat(a2, a3);
    assert(tokens(pixel_text(p)) =~= seq![dr, dg, db]);
    assert(pixel_text(p)[0] == dr[0]);
}

pub proof fn lemma_row_tokens(qs: Seq<Pixel>)
    ensures
        tokens(row_text(qs)) == channel_tokens(qs),
        row_text(qs).len() == 0 || (row_text(qs).last() == SPACE && is_digit(row_text(qs)[0])),
        forall|i: int| 0 <= i < row_text(qs).len() ==> row_byte(#[trigger] row_text(qs)[i]),
    decreases qs.len(),
{
    if qs.len() > 0 {
        lemma_row_tokens(qs.drop_last());
        lemma_pixel_tokens(qs.last());
        let a = row_text(qs.drop_last());
        let b = pixel_text(qs.last());
        lemma_tokens_concat(a, b);
        assert forall|i: int| 0 <= i < (a + b).len() implies row_byte(#[trigger] (a + b)[i]) by {
            if i < a.len() {
                assert((a + b)[i] == a[i]);
            } else {
                assert((a + b)[i] == b[i - a.len()]);
            }
        }
        if a.len() == 0 {
            assert((a + b)[0] == b[0]);
        } else {
            assert((a + b)[0] == a[0]);
        }
    }
}

pub proof fn lemma_channel_pixels(qs: Seq<Pixel>)
    ensures
        channel_tokens(qs).len() == 3 * qs.len(),
        forall|i: int| 0 <= i < channel_tokens(qs).len() ==> is_channel(#[trigger] channel_tokens(qs)[i]),
        pixels_of(channel_tokens(qs)) == qs,
    decreases qs.len(),
{
    if qs.len() > 0 {
        let q0 = qs.drop_last();
        let p = qs.last();
        lemma_channel_pixels(q0);
        lemma_decimal_word(p.r as nat);
        lemma_decimal_word(p.g as nat);
        lemma_decimal_word(p.b as nat);
        let c0 = channel_tokens(q0);
        let ct = channel_tokens(qs);
        assert(ct.take(ct.len() - 3) =~= c0);
        assert(pixels_of(ct) == pixels_of(c0).push(
            Pixel {
                r: numeral_value(ct[ct.len() - 3]) as u8,
                g: numeral_value(ct[ct.len() - 2]) as u8,
                b: numeral_value(ct[ct.len() - 1]) as u8,
            },
        ));
        assert(q0.push(p) =~= qs);
        assert forall|i: int| 0 <= i < ct.len() implies is_channel(#[trigger] ct[i]) by {
            if i < c0.len() {
                assert(ct[i] == c0[i]);
            }
        }
    }
}

/// Reading lines one list after another is reading them all.
pub proof fn lemma_run_concat(
    st: Option<(usize, usize, Seq<Pixel>)>,
    l1: Seq<Seq<u8>>,
    l2: Seq<Seq<u8>>,
)
    ensures
        run(st, l1 + l2) == match run(st, l1) {
            Ok(s) => run(s, l2),
            Err(e) => Err(e),
        },
    decreases l1.len(),
{
    if l1.len() == 0 {
        assert(l1 + l2 =~= l2);
    } else {
        assert((l1 + l2).drop_first() =~= l1.drop_first() + l2);
        assert((l1 + l2)[0] == l1[0]);
        match step(st, l1[0]) {
            Ok(s) => lemma_run_concat(s, l1.drop_first(), l2),
            Err(_) => {},
        }
    }
}

/// Reading a single line is one step.
pub proof fn lemma_run_one(st: Option<(usize, usize, Seq<Pixel>)>, line: Seq<u8>)
    ensures
        run(st, seq![line]) == step(st, line),
{
    reveal_with_fuel(run, 2);
    assert(seq![line].drop_first() =~= Seq::<Seq<u8>>::empty());
}

pub proof fn lemma_body_lines(ps: Seq<Pixel>, w: nat, k: nat)
    ensures
        split_lines(body_text(ps, w, k)) == row_lines(ps, w, k),
        body_text(ps, w, k).len() == 0 || body_text(ps, w, k).last() == NEWLINE,
        forall|i: int|
            0 <= i < body_text(ps, w, k).len() ==> (row_byte(#[trigger] body_text(ps, w, k)[i])
                || body_text(ps, w, k)[i] == NEWLINE),
    decreases k,
{
    if k == 0 {
        assert(row_lines(ps, w, k) =~= Seq::<Seq<u8>>::empty());
    } else {
        lemma_body_lines(ps, w, (k - 1) as nat);
        let a = body_text(ps, w, (k - 1) as nat);
        let r = row_text(row_of(ps, w, (k - 1) as nat));
        lemma_row_tokens(row_of(ps, w, (k - 1) as nat));
        lemma_split_one_line(r);
        assert(strip_cr(r) == r);
        assert(body_text(ps, w, k) =~= a + (r + seq![NEWLINE]));
        lemma_split_lines_concat(a, r + seq![NEWLINE]);
        assert(row_lines(ps, w, k) =~= row_lines(ps, w, (k - 1) as nat) + seq![r]);
        let t = a + (r + seq![NEWLINE]);
        assert forall|i: int| 0 <= i < t.len() implies (row_byte(#[trigger] t[i]) || t[i]
            == NEWLINE) by {
            if i < a.len() {
                assert(t[i] == a[i]);
            } else if i < a.len() + r.len() {
                assert(t[i] == r[i - a.len()]);
            }
        }
    }
}

pub proof fn lemma_run_rows(h: usize, w: usize, ps: Seq<Pixel>, k: nat)
    requires
        ps.len() == h * w,
        k <= h,
    ensures
        run(Some((h, w, seq![])), row_lines(ps, w as nat, k)) == Ok::<
            Option<(usize, usize, Seq<Pixel>)>,
            FormatError,
        >(Some((h, w, ps.take(k * w)))),
    decreases k,
{
    if k == 0 {
        assert(row_lines(ps, w as nat, k) =~= Seq::<Seq<u8>>::empty());
        assert(ps.take(0) =~= Seq::<Pixel>::empty());
    } else {
        lemma_run_rows(h, w, ps, (k - 1) as nat);
        assert(((k - 1) * w + w) == k * w) by (nonlinear_arith)
            requires
                k >= 1,
        ;
        assert(k * w <= h * w) by (nonlinear_arith)
            requires
                k <= h,
        ;
        let q = row_of(ps, w as nat, (k - 1) as nat);
        assert(q.len() == w);
        lemma_row_tokens(q);
        lemma_channel_pixels(q);
        let line = row_text(q);
        assert(row_lines(ps, w as nat, k) =~= row_lines(ps, w as nat, (k - 1) as nat) + seq![line]);
        lemma_run_concat(Some((h, w, seq![])), row_lines(ps, w as nat, (k - 1) as nat), seq![line]);
        let before = ps.take((k - 1) * w);
        lemma_run_one(Some((h, w, before)), line);
        assert(!(line.len() > 0 && line[0] == crate::ppm::HASH));
        assert(before + q =~= ps.take(k * w));
        assert(step(Some((h, w, before)), line) == Ok::<
            Option<(usize, usize, Seq<Pixel>)>,
            FormatError,
        >(Some((h, w, ps.take(k * w)))));
    }
}

/// The header lines read as a dimension declaration.
pub proof fn lemma_header(h: usize, w: usize)
    ensures
        run(None, split_lines(header_text(h, w))) == Ok::<
            Option<(usize, usize, Seq<Pixel>)>,
            FormatError,
        >(Some((h, w, seq![]))),
        header_text(h, w).last() == NEWLINE,
        forall|i: int| 0 <= i < header_text(h, w).len() ==> #[trigger] header_text(h, w)[i] < 128,
{
    let dw = decimal(w as nat);
    let dh = decimal(h as nat);
    let dm = decimal(255);
    lemma_decimal_word(w as nat);
    lemma_decimal_word(h as nat);
    lemma_decimal_word(255);
    let l1 = seq![80u8, 51u8];
    let l2 = dw + seq![SPACE] + dh;
    let x1 = l1 + seq![NEWLINE];
    let x2 = l2 + seq![NEWLINE];
    let x3 = dm + seq![NEWLINE];
    let hd = header_text(h, w);
    assert(hd =~= x1 + (x2 + x3));
    assert forall|j: int| 0 <= j < l2.len() implies l2[j] != NEWLINE by {
        if j < dw.len() {
            assert(l2[j] == dw[j]);
        } else if j > dw.len() {
            assert(l2[j] == dh[j - dw.len() - 1]);
        }
    }
    lemma_split_one_line(l1);
    lemma_split_one_line(l2);
    lemma_split_one_line(dm);
    lemma_split_lines_concat(x2, x3);
    lemma_split_lines_concat(x1, x2 + x3);
    assert(strip_cr(l1) == l1);
    assert(strip_cr(l2) == l2);
    assert(strip_cr(dm) == dm);
    let ls = seq![l1, l2, dm];
    assert(split_lines(hd) =~= ls);
    // the three steps
    lemma_tokens_word(l1);
    lemma_tokens_concat(dw + seq![SPACE], dh);
    assert(tokens(l2) =~= seq![dw, dh]);
    assert(l2[0] == dw[0]);
    let s = Some((h, w, Seq::<Pixel>::empty()));
    assert(step(None, l1) == Ok::<Option<(usize, usize, Seq<Pixel>)>, FormatError>(None));
    assert(step(None, l2) == Ok::<Option<(usize, usize, Seq<Pixel>)>, FormatError>(s));
    assert(step(s, dm) == Ok::<Option<(usize, usize, Seq<Pixel>)>, FormatError>(s));
    lemma_run_concat(None, seq![l1], seq![l2, dm]);
    lemma_run_concat(None, seq![l2], seq![dm]);
    lemma_run_one(None, l1);
    lemma_run_one(None, l2);
    lemma_run_one(s, dm);
    assert(seq![l1] + seq![l2, dm] =~= ls);
    assert(seq![l2] + seq![dm] =~= seq![l2, dm]);
    assert forall|i: int| 0 <= i < hd.len() implies #[trigger] hd[i] < 128 by {
        let t = x1 + (x2 + x3);
        assert(hd[i] == t[i]);
        if i >= x1.len() + x2.len() && i < x1.len() + x2.len() + dm.len() {
            assert(t[i] == dm[i - x1.len() - x2.len()]);
        } else if i >= x1.len() && i < x1.len() + dw.len() {
            assert(t[i] == dw[i - x1.len()]);
        } else if i > x1.len() + dw.len() && i < x1.len() + l2.len() {
            assert(t[i] == dh[i - x1.len() - dw.len() - 1]);
        }
    }
}

/// Reading the PPM text written for an image of `height` rows and `width`
/// columns holding `height * width` pixels gives back exactly that height,
/// width and pixel sequence.
pub proof fn lemma_read_written(height: usize, width: usize, ps: Seq<Pixel>)
    requires
        ps.len() == height * width,
    ensures
        parse_ppm(encode_utf8(ascii_text(ppm_text(height, width, ps)))) == Ok::<
            (usize, usize, Seq<Pixel>),
            FormatError,
        >((height, width, ps)),
{
    let hd = header_text(height, width);
    let bd = body_text(ps, width as nat, height as nat);
    let t = ppm_text(height, width, ps);
    lemma_header(height, width);
    lemma_body_lines(ps, width as nat, height as nat);
    lemma_split_lines_concat(hd, bd);
    lemma_run_concat(None, split_lines(hd), split_lines(bd));
    lemma_run_rows(height, width, ps, height as nat);
    assert(ps.take(height * width) =~= ps);
    let chars = ascii_text(t);
    assert forall|i: int| 0 <= i < t.len() implies #[trigger] t[i] < 128 by {
        if i < hd.len() {
            assert(t[i] == hd[i]);
        } else {
            assert(t[i] == bd[i - hd.len()]);
        }
    }
    assert(is_ascii_chars(chars));
    is_ascii_chars_encode_utf8(chars);
    assert(encode_utf8(chars) =~= t);
}

/// A line whose first byte is `#`.
pub open spec fn is_comment(line: Seq<u8>) -> bool {
    line.len() > 0 && line[0] == crate::ppm::HASH
}

/// A `width height` line.
pub open spec fn is_dimension_line(line: Seq<u8>) -> bool {
    !is_comment(line) && tokens(line).len() == 2
}

/// A line of pixel data: neither a comment nor a line of one or two tokens.
pub open spec fn is_pixel_line(line: Seq<u8>) -> bool {
    !is_comment(line) && tokens(line).len() != 1 && tokens(line).len() != 2
}

/// Reading lines with no dimension line among them, from the start, either
/// fails or is still waiting for the dimensions.
pub proof fn lemma_run_without_dimensions(ls: Seq<Seq<u8>>)
    requires
        forall|j: int| 0 <= j < ls.len() ==> !is_dimension_line(#[trigger] ls[j]),
    ensures
        run(None, ls) is Ok ==> run(None, ls) == Ok::<
            Option<(usize, usize, Seq<Pixel>)>,
            FormatError,
        >(None),
    decreases ls.len(),
{
    if ls.len() > 0 {
        assert(!is_dimension_line(ls[0]));
        assert forall|j: int| 0 <= j < ls.drop_first().len() implies !is_dimension_line(
            #[trigger] ls.drop_first()[j],
        ) by {
            assert(ls.drop_first()[j] == ls[j + 1]);
        }
        lemma_run_without_dimensions(ls.drop_first());
    }
}

/// Reading stops at line `k` with the error of that line's step, once the
/// lines before it have been read without error.
pub proof fn lemma_run_stops_at(
    ls: Seq<Seq<u8>>,
    k: int,
    st: Option<(usize, usize, Seq<Pixel>)>,
    e: FormatError,
)
    requires
        0 <= k < ls.len(),
        run(None, ls.take(k)) == Ok::<Option<(usize, usize, Seq<Pixel>)>, FormatError>(st),
        step(st, ls[k]) == Err::<Option<(usize, usize, Seq<Pixel>)>, FormatError>(e),
    ensures
        run(None, ls) == Err::<Option<(usize, usize, Seq<Pixel>)>, FormatError>(e),
{
    assert(ls =~= ls.take(k) + ls.skip(k));
    lemma_run_concat(None, ls.take(k), ls.skip(k));
    assert(ls.skip(k)[0] == ls[k]);
}

/// A maximum-value line above 255 makes reading fail with `OutOfRange`, once
/// the lines before it have been read without error.
pub proof fn lemma_max_value_above_255(b: Seq<u8>, k: int)
    requires
        0 <= k < split_lines(b).len(),
        run(None, split_lines(b).take(k)) is Ok,
        !is_comment(split_lines(b)[k]),
        tokens(split_lines(b)[k]).len() == 1,
        is_numeral(tokens(split_lines(b)[k])[0]),
        numeral_value(tokens(split_lines(b)[k])[0]) > 255,
    ensures
        parse_ppm(b) == Err::<(usize, usize, Seq<Pixel>), FormatError>(FormatError::OutOfRange),
{
    let ls = split_lines(b);
    let t = tokens(ls[k])[0];
    assert(is_digit(t[0]));
    match run(None, ls.take(k)) {
        Ok(st) => {
            assert(step(st, ls[k]) == Err::<Option<(usize, usize, Seq<Pixel>)>, FormatError>(
                FormatError::OutOfRange,
            ));
            lemma_run_stops_at(ls, k, st, FormatError::OutOfRange);
        },
        Err(_) => {},
    }
}

/// Pixel data before any dimension line makes reading fail with
/// `UninitializedImage`, once the lines before it have been read without
/// error.
pub proof fn lemma_pixels_before_dimensions(b: Seq<u8>, k: int)
    requires
        0 <= k < split_lines(b).len(),
        run(None, split_lines(b).take(k)) is Ok,
        forall|j: int| 0 <= j < k ==> !is_dimension_line(#[trigger] split_lines(b)[j]),
        is_pixel_line(split_lines(b)[k]),
    ensures
        parse_ppm(b) == Err::<(usize, usize, Seq<Pixel>), FormatError>(
            FormatError::UninitializedImage,
        ),
{
    let ls = split_lines(b);
    let pre = ls.take(k);
    assert forall|j: int| 0 <= j < pre.len() implies !is_dimension_line(#[trigger] pre[j]) by {
        assert(pre[j] == ls[j]);
    }
    lemma_run_without_dimensions(pre);
    assert(step(None, ls[k]) == Err::<Option<(usize, usize, Seq<Pixel>)>, FormatError>(
        FormatError::UninitializedImage,
    ));
    lemma_run_stops_at(ls, k, None, FormatError::UninitializedImage);
}

} // verus!
