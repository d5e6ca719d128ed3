//! Exact decimal numbers.
//!
//! Exchange rates and amounts are decimal fractions written in the API
//! responses and in user input. The library keeps them exact as a sign, an
//! integer mantissa and a decimal scale: the value of a [`Decimal`] is
//! `(-1)^neg * mantissa / 10^scale`. All arithmetic and formatting is done
//! on these integers, so every digit the client prints is accounted for.

use vstd::prelude::*;

verus! {

/// A decimal fraction `(-1)^neg * mantissa / 10^scale`.
#[derive(Clone, Copy, Debug, PartialEq, Eq, Structural)]
pub struct Decimal {
    pub neg: bool,
    pub mantissa: u64,
    pub scale: u32,
}

/// `10^e`.
pub open spec fn pow10(e: nat) -> nat
    decreases e,
{
    if e == 0 {
        1
    } else {
        10 * pow10((e - 1) as nat)
    }
}

pub proof fn lemma_pow10_pos(e: nat)
    ensures
        pow10(e) >= 1,
    decreases e,
{
    if e > 0 {
        lemma_pow10_pos((e - 1) as nat);
    }
}

pub proof fn lemma_pow10_adds(a: nat, b: nat)
    ensures
        pow10(a + b) == pow10(a) * pow10(b),
    decreases a,
{
    if a == 0 {
        assert(a + b == b);
        assert(pow10(a) == 1);
        assert(pow10(a) * pow10(b) == pow10(b));
        assert(pow10(a + b) == pow10(a) * pow10(b));
    } else {
        lemma_pow10_adds((a - 1) as nat, b);
        assert(((a + b) - 1) as nat == (a - 1) as nat + b);
        assert(pow10(a + b) == 10 * pow10((a - 1) as nat + b));
        assert(pow10(a) == 10 * pow10((a - 1) as nat));
        assert(10 * (pow10((a - 1) as nat) * pow10(b)) == (10 * pow10((a - 1) as nat)) * pow10(
            b,
        )) by (nonlinear_arith);
        assert(pow10(a + b) == pow10(a) * pow10(b));
    }
}

pub proof fn lemma_pow10_mono(a: nat, b: nat)
    requires
        a <= b,
    ensures
        pow10(a) <= pow10(b),
{
    lemma_pow10_adds(a, (b - a) as nat);
    lemma_pow10_pos((b - a) as nat);
    lemma_pow10_pos(a);
    assert(pow10(a) * 1 <= pow10(a) * pow10((b - a) as nat)) by (nonlinear_arith)
        requires
            pow10(a) >= 1 && pow10((b - a) as nat) >= 1,
    ;
}

/// `10^32`, written out: the bound under which all cent computations stay.
pub proof fn lemma_pow10_32()
    ensures
        pow10(32) == 100000000000000000000000000000000,
        pow10(15) == 1000000000000000,
        pow10(2) == 100,
{
    reveal_with_fuel(pow10, 33);
}

/// Is `c` an ASCII decimal digit?
pub open spec fn is_digit(c: char) -> bool {
    48 <= c as u32 && c as u32 <= 57
}

/// The numeric value of a digit character.
pub open spec fn digit_val(c: char) -> nat {
    (c as u32 - 48) as nat
}

/// The digit character for `d` (meaningful for `0 <= d < 10`).
pub open spec fn digit_char(d: int) -> char {
    ((48 + d) as u8) as char
}

pub open spec fn all_digits(s: Seq<char>) -> bool {
    forall|i: int| 0 <= i < s.len() ==> is_digit(#[trigger] s[i])
}

/// The number written by a digit string, most significant digit first.
pub open spec fn digits_val(s: Seq<char>) -> nat
    decreases s.len(),
{
    if s.len() == 0 {
        0
    } else {
        digits_val(s.drop_last()) * 10 + digit_val(s.last())
    }
}

/// The minimal digit string of `n`: empty for 0, no leading zero otherwise.
pub open spec fn spec_digits(n: nat) -> Seq<char>
    decreases n,
{
    if n == 0 {
        Seq::empty()
    } else {
        spec_digits(n / 10) + seq![digit_char((n % 10) as int)]
    }
}

pub proof fn lemma_digits_val_concat(a: Seq<char>, b: Seq<char>)
    ensures
        digits_val(a + b) == digits_val(a) * pow10(b.len()) + digits_val(b),
    decreases b.len(),
{
    if b.len() == 0 {
        assert(a + b =~= a);
        assert(pow10(b.len()) == 1);
        assert(digits_val(a) * pow10(b.len()) == digits_val(a));
    } else {
        let b0 = b.drop_last();
        lemma_digits_val_concat(a, b0);
        assert((a + b).drop_last() =~= a + b0);
        assert((a + b).last() == b.last());
        assert(digits_val(a + b) == digits_val(a + b0) * 10 + digit_val(b.last()));
        assert(digits_val(b) == digits_val(b0) * 10 + digit_val(b.last()));
        assert((digits_val(a) * pow10(b0.len()) + digits_val(b0)) * 10 + digit_val(b.last())
            == digits_val(a) * (pow10(b0.len()) * 10) + (digits_val(b0) * 10 + digit_val(
            b.last(),
        ))) by (nonlinear_arith);
        assert(pow10(b.len()) == pow10(b0.len()) * 10) by {
            lemma_pow10_adds(b0.len(), 1);
            assert(pow10(1) == 10) by { reveal_with_fuel(pow10, 2); }
        }
        assert(digits_val(a) * (pow10(b0.len()) * 10) == digits_val(a) * pow10(b.len()))
            by (nonlinear_arith)
            requires
                pow10(b.len()) == pow10(b0.len()) * 10,
        ;
    }
}

pub proof fn lemma_zeros_val(s: Seq<char>)
    requires
        forall|i: int| 0 <= i < s.len() ==> #[trigger] s[i] == '0',
    ensures
        digits_val(s) == 0,
        all_digits(s),
    decreases s.len(),
{
    if s.len() > 0 {
        lemma_zeros_val(s.drop_last());
        assert(s.last() == '0');
        assert(digit_val('0') == 0);
    }
}

pub proof fn lemma_spec_digits(n: nat)
    ensures
        all_digits(spec_digits(n)),
        digits_val(spec_digits(n)) == n,
        spec_digits(n).len() == 0 <==> n == 0,
        n > 0 ==> spec_digits(n)[0] != '0',
    decreases n,
{
    if n > 0 {
        let q = n / 10;
        let d = (n % 10) as int;
        lemma_spec_digits(q);
        let s = spec_digits(n);
        assert(s.drop_last() =~= spec_digits(q));
        assert(s.last() == digit_char(d));
        assert(digit_val(digit_char(d)) == d);
        assert(digits_val(s) == q * 10 + d);
        if n < 10 {
            assert(s[0] == digit_char(d) && d != 0);
            assert(digit_char(d) as u32 == 48 + d);
        } else {
            assert(s[0] == spec_digits(q)[0]);
        }
    }
}

pub proof fn lemma_spec_digits_len(n: nat, k: nat)
    requires
        n < pow10(k),
    ensures
        spec_digits(n).len() <= k,
    decreases k,
{
    if n > 0 {
        lemma_pow10_pos(k);
        if k == 0 {
        } else {
            assert(pow10(k) == 10 * pow10((k - 1) as nat));
            assert(n / 10 < pow10((k - 1) as nat)) by (nonlinear_arith)
                requires
                    n < 10 * pow10((k - 1) as nat),
            ;
            lemma_spec_digits_len(n / 10, (k - 1) as nat);
        }
    }
}

/// The digit string of `n` zero-padded on the left to width `w`
/// (meaningful when the digits of `n` fit in `w`).
pub open spec fn spec_padded(n: nat, w: nat) -> Seq<char> {
    Seq::new((w - spec_digits(n).len()) as nat, |i: int| '0') + spec_digits(n)
}

pub proof fn lemma_spec_padded(n: nat, w: nat)
    requires
        spec_digits(n).len() <= w,
    ensures
        spec_padded(n, w).len() == w,
        all_digits(spec_padded(n, w)),
        digits_val(spec_padded(n, w)) == n,
{
    let z = Seq::new((w - spec_digits(n).len()) as nat, |i: int| '0');
    lemma_zeros_val(z);
    lemma_spec_digits(n);
    lemma_digits_val_concat(z, spec_digits(n));
    assert(spec_padded(n, w) =~= z + spec_digits(n));
    assert(digits_val(z + spec_digits(n)) == digits_val(z) * pow10(spec_digits(n).len())
        + digits_val(spec_digits(n)));
    assert(digits_val(z) * pow10(spec_digits(n).len()) == 0);
}

/// The digit string of `n` with a single `0` for zero.
pub open spec fn spec_whole(n: nat) -> Seq<char> {
    if n == 0 {
        seq!['0']
    } else {
        spec_digits(n)
    }
}

/// How `mantissa / 10^scale` is written: the integer part, then, when the
/// scale is positive, a point and exactly `scale` fraction digits.
pub open spec fn spec_decimal_chars(m: nat, s: nat) -> Seq<char> {
    if s == 0 {
        spec_whole(m)
    } else {
        spec_whole(m / pow10(s)) + seq!['.'] + spec_padded((m % pow10(s)) as nat, s)
    }
}

/// The characters of the digits vector `d` (least significant first) read
/// back most significant first.
pub open spec fn rev_chars(d: Seq<u8>) -> Seq<char> {
    Seq::new(d.len(), |i: int| digit_char(d[d.len() - 1 - i] as int))
}

/// The digits of `n`, least significant first.
fn digit_rev(n: u128) -> (d: Vec<u8>)
    ensures
        rev_chars(d@) == spec_digits(n as nat),
        forall|i: int| 0 <= i < d@.len() ==> #[trigger] d@[i] < 10,
{
    let mut m = n;
    let mut d: Vec<u8> = Vec::new();
    proof {
        assert(rev_chars(d@) =~= Seq::<char>::empty());
    }
    while m > 0
        invariant
            spec_digits(n as nat) == spec_digits(m as nat) + rev_chars(d@),
            forall|i: int| 0 <= i < d@.len() ==> #[trigger] d@[i] < 10,
        decreases m,
    {
        let ghost old_d = d@;
        let dig = (m % 10) as u8;
        d.push(dig);
        proof {
            assert(rev_chars(d@) =~= seq![digit_char(dig as int)] + rev_chars(old_d));
            assert(spec_digits(m as nat) == spec_digits((m as nat) / 10) + seq![
                digit_char(((m as nat) % 10) as int),
            ]);
            assert(spec_digits((m as nat) / 10) + (seq![digit_char(dig as int)] + rev_chars(old_d))
                =~= (spec_digits((m as nat) / 10) + seq![digit_char(dig as int)]) + rev_chars(
                old_d,
            ));
        }
        m = m / 10;
    }
    d
}

/// Appends the single digit character for `dig` to `s`.
fn append_digit(s: &mut String, dig: u8)
    requires
        dig < 10,
    ensures
        final(s)@ == old(s)@ + seq![digit_char(dig as int)],
{
    match dig {
        0 => {
            s.append("0");
            proof {
                reveal_strlit("0");
                assert("0"@ =~= seq![digit_char(0)]);
            }
        },
        1 => {
            s.append("1");
            proof {
                reveal_strlit("1");
                assert("1"@ =~= seq![digit_char(1)]);
            }
        },
        2 => {
            s.append("2");
            proof {
                reveal_strlit("2");
                assert("2"@ =~= seq![digit_char(2)]);
            }
        },
        3 => {
            s.append("3");
            proof {
                reveal_strlit("3");
                assert("3"@ =~= seq![digit_char(3)]);
            }
        },
        4 => {
            s.append("4");
            proof {
                reveal_strlit("4");
                assert("4"@ =~= seq![digit_char(4)]);
            }
        },
        5 => {
            s.append("5");
            proof {
                reveal_strlit("5");
                assert("5"@ =~= seq![digit_char(5)]);
            }
        },
        6 => {
            s.append("6");
            proof {
                reveal_strlit("6");
                assert("6"@ =~= seq![digit_char(6)]);
            }
        },
        7 => {
            s.append("7");
            proof {
                reveal_strlit("7");
                assert("7"@ =~= seq![digit_char(7)]);
            }
        },
        8 => {
            s.append("8");
            proof {
                reveal_strlit("8");
                assert("8"@ =~= seq![digit_char(8)]);
            }
        },
        _ => {
            s.append("9");
            proof {
                reveal_strlit("9");
                assert("9"@ =~= seq![digit_char(9)]);
            }
        },
    }
}

/// Appends the digits of `n` (nothing for 0).
fn append_digits_of(s: &mut String, n: u128)
    ensures
        final(s)@ == old(s)@ + spec_digits(n as nat),
{
    let d = digit_rev(n);
    let ghost target = spec_digits(n as nat);
    let mut i: usize = 0;
    while i < d.len()
        invariant
            rev_chars(d@) == target,
            forall|j: int| 0 <= j < d@.len() ==> #[trigger] d@[j] < 10,
            i <= d@.len(),
            s@ == old(s)@ + target.take(i as int),
        decreases d@.len() - i,
    {
        append_digit(s, d[d.len() - 1 - i]);
        proof {
            assert(target[i as int] == digit_char(d@[d@.len() - 1 - i] as int));
            assert(target.take(i + 1) =~= target.take(i as int) + seq![target[i as int]]);
            assert((old(s)@ + target.take(i as int)) + seq![target[i as int]] =~= old(s)@
                + target.take(i + 1));
        }
        i = i + 1;
    }
    proof {
        assert(target.take(d@.len() as int) =~= target);
    }
}

/// Appends the digits of `n`, writing `0` for zero.
fn append_whole(s: &mut String, n: u128)
    ensures
        final(s)@ == old(s)@ + spec_whole(n as nat),
{
    if n == 0 {
        s.append("0");
        proof {
            reveal_strlit("0");
            assert("0"@ =~= seq!['0']);
        }
    } else {
        append_digits_of(s, n);
    }
}

/// Appends the digits of `n` zero-padded on the left to width `w`.
fn append_padded(s: &mut String, n: u128, w: usize)
    requires
        spec_digits(n as nat).len() <= w,
    ensures
        final(s)@ == old(s)@ + spec_padded(n as nat, w as nat),
{
    let d = digit_rev(n);
    proof {
        assert(d@.len() == spec_digits(n as nat).len());
    }
    let zeros = w - d.len();
    let ghost zseq = Seq::new(zeros as nat, |i: int| '0');
    let mut i: usize = 0;
    while i < zeros
        invariant
            i <= zeros,
            zseq == Seq::new(zeros as nat, |i: int| '0'),
            s@ == old(s)@ + zseq.take(i as int),
        decreases zeros - i,
    {
        s.append("0");
        proof {
            reveal_strlit("0");
            assert(zseq.take(i + 1) =~= zseq.take(i as int) + "0"@);
            assert((old(s)@ + zseq.take(i as int)) + "0"@ =~= old(s)@ + zseq.take(i + 1));
        }
        i = i + 1;
    }
    proof {
        assert(zseq.take(zeros as int) =~= zseq);
    }
    append_digits_of(s, n);
    proof {
        assert((old(s)@ + zseq) + spec_digits(n as nat) =~= old(s)@ + spec_padded(
            n as nat,
            w as nat,
        ));
    }
}

/// Exact power of ten.
pub fn pow10_u128(e: u32) -> (r: u128)
    requires
        e <= 32,
    ensures
        r == pow10(e as nat),
{
    proof {
        lemma_pow10_32();
    }
    let mut acc: u128 = 1;
    let mut i: u32 = 0;
    while i < e
        invariant
            i <= e <= 32,
            acc == pow10(i as nat),
        decreases e - i,
    {
        proof {
            lemma_pow10_mono(i as nat + 1, 32);
            lemma_pow10_32();
        }
        acc = acc * 10;
        i = i + 1;
    }
    acc
}

/// Appends `mantissa / 10^scale` written as a plain decimal.
fn append_decimal_chars(s: &mut String, m: u128, sc: u32)
    requires
        sc <= 32,
    ensures
        final(s)@ == old(s)@ + spec_decimal_chars(m as nat, sc as nat),
{
    if sc == 0 {
        append_whole(s, m);
    } else {
        let p = pow10_u128(sc);
        proof {
            lemma_pow10_pos(sc as nat);
            lemma_spec_digits_len((m as nat) % pow10(sc as nat), sc as nat);
        }
        append_whole(s, m / p);
        s.append(".");
        proof {
            reveal_strlit(".");
            assert("."@ =~= seq!['.']);
        }
        append_padded(s, m % p, sc as usize);
        proof {
            assert(((old(s)@ + spec_whole((m as nat) / pow10(sc as nat))) + seq!['.'])
                + spec_padded((m as nat) % pow10(sc as nat), sc as nat) =~= old(s)@
                + spec_decimal_chars(m as nat, sc as nat));
        }
    }
}

impl Decimal {
    /// A well-formed decimal: at most 15 significant digits and 15
    /// fraction digits, so that every computation below fits its type.
    pub open spec fn wf(self) -> bool {
        self.mantissa < pow10(15) && self.scale <= 15
    }

    /// How this decimal is written: an optional minus sign, the integer
    /// part, and the fraction digits when the scale is positive.
    pub open spec fn spec_chars(self) -> Seq<char> {
        (if self.neg {
            seq!['-']
        } else {
            Seq::<char>::empty()
        }) + spec_decimal_chars(self.mantissa as nat, self.scale as nat)
    }

    /// The decimal one, the default amount of a listing request.
    pub fn one() -> (r: Decimal)
        ensures
            r == (Decimal { neg: false, mantissa: 1, scale: 0 }),
            r.wf(),
    {
        proof {
            lemma_pow10_32();
        }
        Decimal { neg: false, mantissa: 1, scale: 0 }
    }

    /// Writes this decimal out exactly as [`Self::spec_chars`] says.
    pub fn to_display(&self) -> (r: String)
        requires
            self.wf(),
        ensures
            r@ == self.spec_chars(),
    {
        let mut s = String::new();
        if self.neg {
            s.append("-");
            proof {
                reveal_strlit("-");
                assert("-"@ =~= seq!['-']);
            }
        }
        append_decimal_chars(&mut s, self.mantissa as u128, self.scale);
        proof {
            assert(s@ =~= self.spec_chars());
        }
        s
    }
}

/// `amount * rate` in cents, rounded half-up to two decimals: the exact
/// product has `sa + sr` fraction digits; beyond two they are rounded away,
/// under two the product is scaled up.
pub open spec fn spec_cents(ma: nat, sa: nat, mr: nat, sr: nat) -> nat {
    let p = ma * mr;
    let ts = sa + sr;
    if ts <= 2 {
        p * pow10((2 - ts) as nat)
    } else {
        let d = pow10((ts - 2) as nat);
        p / d + if (p % d) * 2 >= d {
            1nat
        } else {
            0nat
        }
    }
}

/// Multiplies two decimals and rounds the product half-up to whole cents.
/// The sign is reported separately.
pub fn convert_cents(a: &Decimal, r: &Decimal) -> (c: u128)
    requires
        a.wf(),
        r.wf(),
    ensures
        c == spec_cents(a.mantissa as nat, a.scale as nat, r.mantissa as nat, r.scale as nat),
        c < pow10(32),
{
    proof {
        lemma_pow10_32();
        assert((a.mantissa as nat) * (r.mantissa as nat) < pow10(15) * pow10(15))
            by (nonlinear_arith)
            requires
                (a.mantissa as nat) < pow10(15) && (r.mantissa as nat) < pow10(15) && pow10(15)
                    > 0,
        ;
        lemma_pow10_adds(15, 15);
        reveal_with_fuel(pow10, 33);
    }
    let p = (a.mantissa as u128) * (r.mantissa as u128);
    let ts = a.scale + r.scale;
    if ts <= 2 {
        let f = pow10_u128(2 - ts);
        proof {
            assert(pow10((2 - ts) as nat) <= 100) by {
                lemma_pow10_mono((2 - ts) as nat, 2);
                reveal_with_fuel(pow10, 3);
            }
            assert((p as nat) * pow10((2 - ts) as nat) <= (p as nat) * 100) by (nonlinear_arith)
                requires
                    pow10((2 - ts) as nat) <= 100 && (p as nat) >= 0,
            ;
            assert((p as nat) * 100 < pow10(30) * 100) by (nonlinear_arith)
                requires
                    (p as nat) < pow10(30),
            ;
            lemma_pow10_adds(30, 2);
        }
        p * f
    } else {
        let d = pow10_u128(ts - 2);
        proof {
            lemma_pow10_pos((ts - 2) as nat);
            lemma_pow10_mono((ts - 2) as nat, 32);
            lemma_pow10_adds(30, 2);
            lemma_pow10_pos(30);
            assert((p as nat) / pow10((ts - 2) as nat) <= p as nat) by (nonlinear_arith)
                requires
                    pow10((ts - 2) as nat) >= 1 && (p as nat) >= 0,
            ;
        }
        let q = p / d;
        let rem = p % d;
        if rem * 2 >= d {
            q + 1
        } else {
            q
        }
    }
}

/// The two-decimal rendering of `cents`, with a minus sign for a negative
/// non-zero value.
pub open spec fn spec_fixed2(neg: bool, cents: nat) -> Seq<char> {
    (if neg && cents > 0 {
        seq!['-']
    } else {
        Seq::<char>::empty()
    }) + spec_decimal_chars(cents, 2)
}

/// Writes `cents` as a value with exactly two decimals, e.g. `66.55`.
pub fn format_fixed2(neg: bool, cents: u128) -> (r: String)
    requires
        cents < pow10(32),
    ensures
        r@ == spec_fixed2(neg, cents as nat),
{
    let mut s = String::new();
    if neg && cents > 0 {
        s.append("-");
        proof {
            reveal_strlit("-");
            assert("-"@ =~= seq!['-']);
        }
    }
    append_decimal_chars(&mut s, cents, 2);
    proof {
        assert(s@ =~= spec_fixed2(neg, cents as nat));
    }
    s
}

} // verus!
