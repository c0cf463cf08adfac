//! Bytes of ASCII text: decimal numerals, white space, and the conversion of
//! ASCII bytes to the characters of a `String`.
use vstd::prelude::*;

verus! {

pub const SPACE: u8 = 32;

pub const NEWLINE: u8 = 10;

pub const CARRIAGE_RETURN: u8 = 13;

/// The characters of a byte sequence read as ASCII.
pub open spec fn ascii_text(b: Seq<u8>) -> Seq<char> {
    b.map_values(|c: u8| c as char)
}

/// ASCII white space: tab, line feed, vertical tab, form feed, carriage
/// return and space.
pub open spec fn is_space(c: u8) -> bool {
    (9 <= c <= 13) || c == 32
}

pub open spec fn is_digit(c: u8) -> bool {
    48 <= c <= 57
}

pub open spec fn digit_byte(d: nat) -> u8 {
    (48 + d) as u8
}

/// The shortest decimal numeral of `n`.
pub open spec fn decimal(n: nat) -> Seq<u8>
    decreases n,
{
    if n < 10 {
        seq![digit_byte(n)]
    } else {
        decimal(n / 10).push(digit_byte(n % 10))
    }
}

/// A non-empty run of decimal digits.
pub open spec fn is_numeral(t: Seq<u8>) -> bool {
    t.len() > 0 && forall|i: int| 0 <= i < t.len() ==> is_digit(#[trigger] t[i])
}

/// The value of a run of decimal digits (leading zeros allowed).
pub open spec fn numeral_value(t: Seq<u8>) -> nat
    decreases t.len(),
{
    if t.len() == 0 {
        0
    } else {
        numeral_value(t.drop_last()) * 10 + (t.last() - 48) as nat
    }
}

pub proof fn lemma_ascii_text_concat(a: Seq<u8>, b: Seq<u8>)
    ensures
        ascii_text(a + b) == ascii_text(a) + ascii_text(b),
{
    assert(ascii_text(a + b) =~= ascii_text(a) + ascii_text(b));
}

/// Reading back the decimal numeral of `n` gives `n`.
pub proof fn lemma_decimal_value(n: nat)
    ensures
        is_numeral(decimal(n)),
        numeral_value(decimal(n)) == n,
        decimal(n).len() <= n + 1,
    decreases n,
{
    if n >= 10 {
        lemma_decimal_value(n / 10);
        let d = decimal(n);
        assert(d.drop_last() =~= decimal(n / 10));
        assert(n == (n / 10) * 10 + n % 10) by (nonlinear_arith);
        assert(n % 10 < 10) by (nonlinear_arith);
        assert(d.last() == 48 + n % 10);
        assert(numeral_value(d) == numeral_value(decimal(n / 10)) * 10 + n % 10);
        assert(numeral_value(d) == n);
        assert(n / 10 + 1 < n) by (nonlinear_arith)
            requires
                n >= 10,
        ;
    } else {
        assert(decimal(n).drop_last() =~= Seq::<u8>::empty());
        assert(decimal(n).last() == 48 + n);
        assert(numeral_value(Seq::<u8>::empty()) == 0);
        assert(numeral_value(decimal(n)) == n);
    }
}

/// A prefix of a numeral is worth no more than the whole.
pub proof fn lemma_numeral_prefix(t: Seq<u8>, i: int)
    requires
        0 <= i <= t.len(),
    ensures
        numeral_value(t.take(i)) <= numeral_value(t),
    decreases t.len() - i,
{
    if i < t.len() {
        lemma_numeral_prefix(t, i + 1);
        assert(t.take(i + 1).drop_last() =~= t.take(i));
    } else {
        assert(t.take(i) =~= t);
    }
}

fn digit_str(d: usize) -> (s: &'static str)
    requires
        d < 10,
    ensures
        s@ == seq![digit_byte(d as nat) as char],
{
    proof {
        reveal_strlit("0");
        reveal_strlit("1");
        reveal_strlit("2");
        reveal_strlit("3");
        reveal_strlit("4");
        reveal_strlit("5");
        reveal_strlit("6");
        reveal_strlit("7");
        reveal_strlit("8");
        reveal_strlit("9");
    }
    match d {
        0 => "0",
        1 => "1",
        2 => "2",
        3 => "3",
        4 => "4",
        5 => "5",
        6 => "6",
        7 => "7",
        8 => "8",
        _ => "9",
    }
}

/// Appends the decimal numeral of `n`.
pub fn push_decimal(s: &mut String, n: usize)
    ensures
        final(s)@ == old(s)@ + ascii_text(decimal(n as nat)),
    decreases n,
{
    if n >= 10 {
        push_decimal(s, n / 10);
    }
    let piece = digit_str(n % 10);
    s.append(piece);
    proof {
        if n >= 10 {
            assert(decimal(n as nat) == decimal((n / 10) as nat).push(digit_byte((n % 10) as nat)));
            assert(ascii_text(decimal(n as nat)) =~= ascii_text(decimal((n / 10) as nat)) + piece@);
        } else {
            assert(ascii_text(decimal(n as nat)) =~= piece@);
        }
    }
}

/// Appends one space.
pub fn push_space(s: &mut String)
    ensures
        final(s)@ == old(s)@ + ascii_text(seq![SPACE]),
{
    proof {
        reveal_strlit(" ");
    }
    s.append(" ");
    assert(ascii_text(seq![SPACE]) =~= " "@);
}

} // verus!
