//! Decimal reading and printing of numbers.
//!
//! A character sequence is a number exactly when it matches `-?[0-9]+` and
//! its value fits in a signed 64-bit integer; anything else classifies as a
//! symbol. Printing renders the decimal digits with no leading zeros and a
//! leading `-` for negative values, and reading a printed number gives the
//! number back.

use vstd::prelude::*;

use crate::text::chars_to_string;

verus! {

broadcast use vstd::seq::group_seq_axioms;

/// The magnitude bound of the signed 64-bit range: a negative number may
/// reach it, a positive one must stay below it.
pub const MAGNITUDE_BOUND: u64 = 0x8000_0000_0000_0000;

/// True of the ten decimal digit characters.
pub open spec fn is_digit_char(c: char) -> bool {
    48 <= c as u32 && c as u32 <= 57
}

/// The value of a digit character.
pub open spec fn digit_value(c: char) -> int {
    c as u32 - 48
}

/// True when every character of `t` is a decimal digit.
pub open spec fn all_digits(t: Seq<char>) -> bool {
    forall|k: int| 0 <= k < t.len() ==> is_digit_char(#[trigger] t[k])
}

/// The value of a digit string, most significant digit first.
pub open spec fn digits_val(t: Seq<char>) -> int
    decreases t.len(),
{
    if t.len() == 0 {
        0
    } else {
        digits_val(t.drop_last()) * 10 + digit_value(t.last())
    }
}

/// The digit part of a candidate number: everything after a leading `-`.
pub open spec fn digits_part(t: Seq<char>) -> Seq<char> {
    if t.len() > 0 && t[0] == '-' {
        t.skip(1)
    } else {
        t
    }
}

/// True when `t` reads as a number: an optional `-`, then one or more
/// digits, with a value inside the signed 64-bit range.
pub open spec fn is_number_text(t: Seq<char>) -> bool {
    let negative = t.len() > 0 && t[0] == '-';
    let digs = digits_part(t);
    digs.len() > 0 && all_digits(digs) && (if negative {
        digits_val(digs) <= MAGNITUDE_BOUND
    } else {
        digits_val(digs) < MAGNITUDE_BOUND
    })
}

/// The value `t` reads as.
pub open spec fn number_value(t: Seq<char>) -> int {
    if t.len() > 0 && t[0] == '-' {
        -digits_val(t.skip(1))
    } else {
        digits_val(t)
    }
}

/// A digit string's value is never negative.
pub proof fn lemma_digits_val_nonneg(t: Seq<char>)
    requires
        all_digits(t),
    ensures
        digits_val(t) >= 0,
    decreases t.len(),
{
    if t.len() > 0 {
        assert(all_digits(t.drop_last())) by {
            assert(forall|k: int|
                0 <= k < t.len() - 1 ==> #[trigger] t.drop_last()[k] == t[k]);
        }
        lemma_digits_val_nonneg(t.drop_last());
    }
}

/// Extending a digit string to the right never lowers its value.
pub proof fn lemma_digits_val_take(t: Seq<char>, k: int)
    requires
        all_digits(t),
        0 <= k <= t.len(),
    ensures
        digits_val(t.take(k)) <= digits_val(t),
    decreases t.len() - k,
{
    if k < t.len() {
        lemma_digits_val_take(t, k + 1);
        assert(t.take(k + 1).drop_last() =~= t.take(k));
        assert(t.take(k + 1).last() == t[k]);
        assert(all_digits(t.take(k))) by {
            assert(forall|j: int| 0 <= j < k ==> #[trigger] t.take(k)[j] == t[j]);
        }
        lemma_digits_val_nonneg(t.take(k));
        assert(digits_val(t.take(k + 1)) == digits_val(t.take(k)) * 10 + digit_value(t[k]));
        assert(digit_value(t[k]) >= 0);
        assert(digits_val(t.take(k)) * 10 >= digits_val(t.take(k))) by (nonlinear_arith)
            requires digits_val(t.take(k)) >= 0;
    } else {
        assert(t.take(k) =~= t);
    }
}

/// Reads a number from the characters: `Some` exactly on number text, with
/// its value.
pub fn parse_number(cs: &Vec<char>) -> (r: Option<i64>)
    ensures
        match r {
            Some(n) => is_number_text(cs@) && n as int == number_value(cs@),
            None => !is_number_text(cs@),
        },
{
    let n = cs.len();
    let negative = n > 0 && cs[0] == '-';
    let start: usize = if negative {
        1
    } else {
        0
    };
    let ghost digs = digits_part(cs@);
    proof {
        if negative {
            assert(digs =~= cs@.skip(1));
        } else {
            assert(digs =~= cs@);
        }
    }
    if start >= n {
        // no digits at all
        return None;
    }
    let mut i: usize = start;
    let mut acc: u64 = 0;
    while i < n
        invariant
            start <= i <= n,
            n == cs@.len(),
            start == (if negative { 1int } else { 0int }),
            negative == (cs@.len() > 0 && cs@[0] == '-'),
            digs == digits_part(cs@),
            digs.len() == n - start,
            forall|j: int| 0 <= j < i - start ==> is_digit_char(#[trigger] digs[j]),
            acc as int == digits_val(digs.take(i - start)),
            acc <= MAGNITUDE_BOUND,
        decreases n - i,
    {
        let c = cs[i];
        let u = c as u32;
        if u < 48 || u > 57 {
            proof {
                assert(digs[i - start] == cs@[i as int]);
                assert(!is_digit_char(digs[i - start]));
            }
            return None;
        }
        let d: u64 = (u - 48) as u64;
        let next: u128 = acc as u128 * 10 + d as u128;
        proof {
            assert(digs.take(i - start + 1).drop_last() =~= digs.take(i - start));
            assert(digs.take(i - start + 1).last() == digs[i - start]);
            assert(digs[i - start] == cs@[i as int]);
            assert(digits_val(digs.take(i - start + 1)) == digits_val(digs.take(i - start)) * 10
                + digit_value(cs@[i as int]));
        }
        if next > MAGNITUDE_BOUND as u128 {
            proof {
                assert(all_digits(digs.take(i - start + 1))) by {
                    assert(forall|j: int|
                        0 <= j < i - start + 1 ==> #[trigger] digs.take(i - start + 1)[j]
                            == digs[j]);
                }
                if all_digits(digs) {
                    lemma_digits_val_take(digs, i - start + 1);
                    assert(digits_val(digs) >= digits_val(digs.take(i - start + 1)));
                    assert(digits_val(digs) > MAGNITUDE_BOUND);
                }
            }
            return None;
        }
        acc = next as u64;
        i = i + 1;
    }
    proof {
        assert(digs.take(n - start) =~= digs);
        assert(all_digits(digs));
        assert(acc as int == digits_val(digs));
    }
    if negative {
        let value: i64 = (-(acc as i128)) as i64;
        proof {
            assert(number_value(cs@) == -digits_val(digs));
        }
        Some(value)
    } else {
        if acc >= MAGNITUDE_BOUND {
            proof {
                assert(digits_val(digs) >= MAGNITUDE_BOUND);
            }
            None
        } else {
            Some(acc as i64)
        }
    }
}

/// The character of one decimal digit.
pub open spec fn digit_char(d: int) -> char {
    if d == 0 {
        '0'
    } else if d == 1 {
        '1'
    } else if d == 2 {
        '2'
    } else if d == 3 {
        '3'
    } else if d == 4 {
        '4'
    } else if d == 5 {
        '5'
    } else if d == 6 {
        '6'
    } else if d == 7 {
        '7'
    } else if d == 8 {
        '8'
    } else {
        '9'
    }
}

/// The decimal digits of a non-negative number, no leading zeros.
pub open spec fn dec_digits(n: int) -> Seq<char>
    decreases n when n >= 0
{
    if n < 10 {
        seq![digit_char(n)]
    } else {
        dec_digits(n / 10) + seq![digit_char(n % 10)]
    }
}

/// The decimal rendering of an integer.
pub open spec fn int_to_dec(n: int) -> Seq<char> {
    if n < 0 {
        seq!['-'] + dec_digits(-n)
    } else {
        dec_digits(n)
    }
}

/// `digit_char` writes digits and `digit_value` reads them back.
pub proof fn lemma_digit_char_value(d: int)
    requires
        0 <= d < 10,
    ensures
        is_digit_char(digit_char(d)),
        digit_value(digit_char(d)) == d,
{
}

/// The printed digits of `n` are digits, at least one, and read back as `n`.
pub proof fn lemma_dec_digits(n: int)
    requires
        n >= 0,
    ensures
        dec_digits(n).len() >= 1,
        all_digits(dec_digits(n)),
        digits_val(dec_digits(n)) == n,
        n >= 10 ==> dec_digits(n).len() >= 2,
    decreases n,
{
    if n < 10 {
        lemma_digit_char_value(n);
        assert(dec_digits(n) =~= seq![digit_char(n)]);
        assert(dec_digits(n).drop_last() =~= Seq::<char>::empty());
        assert(dec_digits(n).last() == digit_char(n));
        assert(digits_val(Seq::<char>::empty()) == 0);
        assert(digits_val(dec_digits(n)) == 0 * 10 + digit_value(digit_char(n)));
    } else {
        lemma_dec_digits(n / 10);
        lemma_digit_char_value(n % 10);
        let w = dec_digits(n / 10);
        let full = dec_digits(n);
        assert(full == w + seq![digit_char(n % 10)]);
        assert(full.drop_last() =~= w);
        assert(full.last() == digit_char(n % 10));
        assert(digits_val(full) == digits_val(w) * 10 + (n % 10));
        vstd::arithmetic::div_mod::lemma_fundamental_div_mod(n, 10);
        assert(all_digits(full)) by {
            assert(forall|k: int| 0 <= k < w.len() ==> full[k] == #[trigger] w[k]);
        }
    }
}

/// Renders a number in decimal.
pub fn i64_to_dec_string(n: i64) -> (r: String)
    ensures
        r@ == int_to_dec(n as int),
{
    let mut out: Vec<char> = Vec::new();
    if n < 0 {
        out.push('-');
        let mag: u64 = (-(n as i128)) as u64;
        push_digits(mag, &mut out);
        proof {
            assert(out@ =~= seq!['-'] + dec_digits(mag as int));
        }
    } else {
        push_digits(n as u64, &mut out);
        proof {
            assert(out@ =~= dec_digits(n as int));
        }
    }
    chars_to_string(&out)
}

/// Appends the decimal digits of `u`.
fn push_digits(u: u64, out: &mut Vec<char>)
    ensures
        final(out)@ == old(out)@ + dec_digits(u as int),
    decreases u,
{
    if u < 10 {
        let c = digit_char_of(u);
        out.push(c);
        proof {
            assert(out@ =~= old(out)@ + dec_digits(u as int));
        }
    } else {
        push_digits(u / 10, out);
        let c = digit_char_of(u % 10);
        out.push(c);
        proof {
            assert(out@ =~= old(out)@ + (dec_digits(u as int / 10) + seq![digit_char(
                u as int % 10,
            )]));
        }
    }
}

/// The character of a digit below ten.
fn digit_char_of(d: u64) -> (c: char)
    requires
        d < 10,
    ensures
        c == digit_char(d as int),
{
    if d == 0 {
        '0'
    } else if d == 1 {
        '1'
    } else if d == 2 {
        '2'
    } else if d == 3 {
        '3'
    } else if d == 4 {
        '4'
    } else if d == 5 {
        '5'
    } else if d == 6 {
        '6'
    } else if d == 7 {
        '7'
    } else if d == 8 {
        '8'
    } else {
        '9'
    }
}

/// A printed number reads back as itself: the classification sees number
/// text whose value is the number printed.
pub proof fn lemma_number_round_trip(n: int)
    requires
        -0x8000_0000_0000_0000 <= n < 0x8000_0000_0000_0000,
    ensures
        is_number_text(int_to_dec(n)),
        number_value(int_to_dec(n)) == n,
{
    if n < 0 {
        lemma_dec_digits(-n);
        let t = int_to_dec(n);
        assert(t[0] == '-');
        assert(t.skip(1) =~= dec_digits(-n));
        assert(digits_part(t) == t.skip(1));
    } else {
        lemma_dec_digits(n);
        let t = int_to_dec(n);
        assert(t[0] != '-') by {
            assert(is_digit_char(t[0])) by {
                if n < 10 {
                } else {
                    assert(t[0] == dec_digits(n / 10)[0]);
                }
            }
        }
        assert(digits_part(t) == t);
    }
}

} // verus!
