//! The shared vocabulary of the ledger: identifier types, the fixed-point
//! `Amount` value type with saturating arithmetic, and the truncating
//! 4-decimal-place formatter.

use vstd::prelude::*;
use std::collections::HashSet;

verus! {

pub type ClientId = u16;

pub type TransactionId = u32;

/// The set of transaction ids currently under active dispute.
pub type Disputes = HashSet<TransactionId>;

/// An exact decimal amount, stored as a count of 1/10000 units, so four
/// fractional decimal digits are representable without loss.
#[derive(Clone, Copy, Debug, PartialEq, Eq, Structural)]
pub struct Amount {
    pub units: i128,
}

impl View for Amount {
    type V = int;

    open spec fn view(&self) -> int {
        self.units as int
    }
}

/// Clamp a mathematical integer to the range of `i128` units.
pub open spec fn sat_units(v: int) -> int {
    if v > i128::MAX as int {
        i128::MAX as int
    } else if v < i128::MIN as int {
        i128::MIN as int
    } else {
        v
    }
}

/// The amount whose unit count is the clamped sum of the two.
pub open spec fn spec_sat_add(a: Amount, b: Amount) -> Amount {
    Amount { units: sat_units(a@ + b@) as i128 }
}

/// The amount whose unit count is the clamped difference of the two.
pub open spec fn spec_sat_sub(a: Amount, b: Amount) -> Amount {
    Amount { units: sat_units(a@ - b@) as i128 }
}

impl Amount {
    pub fn zero() -> (r: Amount)
        ensures
            r@ == 0,
    {
        Amount { units: 0 }
    }

    /// Build an amount from a raw count of 1/10000 units.
    pub fn from_units(units: i128) -> (r: Amount)
        ensures
            r@ == units,
    {
        Amount { units }
    }

    /// Add, clamping at the representable bounds instead of overflowing.
    pub fn saturating_add(self, other: Amount) -> (r: Amount)
        ensures
            r == spec_sat_add(self, other),
            r@ == sat_units(self@ + other@),
    {
        match self.units.checked_add(other.units) {
            Some(v) => Amount { units: v },
            None => if other.units >= 0 {
                Amount { units: i128::MAX }
            } else {
                Amount { units: i128::MIN }
            },
        }
    }

    /// Subtract, clamping at the representable bounds instead of overflowing.
    pub fn saturating_sub(self, other: Amount) -> (r: Amount)
        ensures
            r == spec_sat_sub(self, other),
            r@ == sat_units(self@ - other@),
    {
        match self.units.checked_sub(other.units) {
            Some(v) => Amount { units: v },
            None => if other.units >= 0 {
                Amount { units: i128::MIN }
            } else {
                Amount { units: i128::MAX }
            },
        }
    }
}

pub open spec fn digit_char(d: int) -> char {
    if d == 0 {
        '0'
    } else if d == 1 {
        '1'
    } else if d == 2 {
        '2'
    } else if d == 3 {
        '3'
    } else if d == 4 {
        '4'
    } else if d == 5 {
        '5'
    } else if d == 6 {
        '6'
    } else if d == 7 {
        '7'
    } else if d == 8 {
        '8'
    } else {
        '9'
    }
}

/// The decimal digits of `n`, most significant first, with no leading zeros
/// (a single `'0'` for zero itself).
pub open spec fn spec_digits(n: nat) -> Seq<char>
    decreases n,
{
    if n < 10 {
        seq![digit_char(n as int)]
    } else {
        spec_digits(n / 10).push(digit_char((n % 10) as int))
    }
}

/// The low `k` decimal digits of `n`, zero padded to exactly `k` characters.
pub open spec fn spec_padded(n: nat, k: nat) -> Seq<char>
    decreases k,
{
    if k == 0 {
        Seq::empty()
    } else {
        spec_padded(n / 10, (k - 1) as nat).push(digit_char((n % 10) as int))
    }
}

/// The low `k` decimal digits of `n`, zero padded, with trailing zero
/// digits stripped.
pub open spec fn spec_frac(f: nat, k: nat) -> Seq<char>
    decreases k,
{
    if k == 0 {
        Seq::empty()
    } else if f % 10 == 0 {
        spec_frac(f / 10, (k - 1) as nat)
    } else {
        spec_padded(f, k)
    }
}

/// The rendering of the amount whose unit count is `v`: the whole part, then
/// a `.` and the fractional digits with trailing zeros stripped, the whole
/// thing preceded by `-` for a negative value. A value with no fractional
/// part shows no point at all, so an exact whole amount is loss-free and at
/// most four fractional digits ever appear.
pub open spec fn spec_format(v: int) -> Seq<char> {
    let m = (if v >= 0 {
        v
    } else {
        -v
    }) as nat;
    let whole = m / 10000;
    let frac = m % 10000;
    let sign: Seq<char> = if v < 0 {
        seq!['-']
    } else {
        Seq::empty()
    };
    if frac == 0 {
        sign + spec_digits(whole)
    } else {
        (sign + spec_digits(whole)).push('.') + spec_frac(frac, 4)
    }
}

proof fn lemma_padded_len(n: nat, k: nat)
    ensures
        spec_padded(n, k).len() == k,
    decreases k,
{
    if k > 0 {
        lemma_padded_len(n / 10, (k - 1) as nat);
    }
}

proof fn lemma_frac_len(f: nat, k: nat)
    ensures
        spec_frac(f, k).len() <= k,
    decreases k,
{
    if k > 0 {
        if f % 10 == 0 {
            lemma_frac_len(f / 10, (k - 1) as nat);
        } else {
            lemma_padded_len(f, k);
        }
    }
}

/// No rendering carries more than four characters after its decimal point:
/// the fractional tail a rendering appends is `spec_frac` of at most four
/// digits, and it never exceeds that many characters.
pub proof fn lemma_fraction_digits_bounded(f: nat)
    ensures
        spec_frac(f, 4).len() <= 4,
{
    lemma_frac_len(f, 4);
}

pub open spec fn is_digit_char(c: char) -> bool {
    '0' <= c && c <= '9'
}

proof fn lemma_digits_shape(n: nat)
    ensures
        spec_digits(n).len() >= 1,
        n >= 10 ==> spec_digits(n).len() >= 2,
        forall|i: int| 0 <= i < spec_digits(n).len() ==> is_digit_char(#[trigger] spec_digits(n)[i]),
    decreases n,
{
    if n >= 10 {
        lemma_digits_shape(n / 10);
    }
}

proof fn lemma_digits_injective(m: nat, n: nat)
    requires
        spec_digits(m) == spec_digits(n),
    ensures
        m == n,
    decreases m,
{
    lemma_digits_shape(m);
    lemma_digits_shape(n);
    if m < 10 && n < 10 {
        assert(spec_digits(m)[0] == digit_char(m as int));
        assert(spec_digits(n)[0] == digit_char(n as int));
    } else if m >= 10 && n >= 10 {
        assert(spec_digits(m).last() == digit_char((m % 10) as int));
        assert(spec_digits(n).last() == digit_char((n % 10) as int));
        assert(spec_digits(m).drop_last() =~= spec_digits(m / 10));
        assert(spec_digits(n).drop_last() =~= spec_digits(n / 10));
        lemma_digits_injective(m / 10, n / 10);
    }
}

proof fn lemma_padded_shape(n: nat, k: nat)
    ensures
        forall|i: int| 0 <= i < spec_padded(n, k).len() ==> is_digit_char(
            #[trigger] spec_padded(n, k)[i],
        ),
    decreases k,
{
    if k > 0 {
        lemma_padded_shape(n / 10, (k - 1) as nat);
        lemma_padded_len(n / 10, (k - 1) as nat);
    }
}

proof fn lemma_padded_injective(m: nat, n: nat, k: nat)
    requires
        m < pow10_nat(k),
        n < pow10_nat(k),
        spec_padded(m, k) == spec_padded(n, k),
    ensures
        m == n,
    decreases k,
{
    if k > 0 {
        lemma_padded_len(m / 10, (k - 1) as nat);
        lemma_padded_len(n / 10, (k - 1) as nat);
        assert(spec_padded(m, k).last() == digit_char((m % 10) as int));
        assert(spec_padded(n, k).last() == digit_char((n % 10) as int));
        assert(spec_padded(m, k).drop_last() =~= spec_padded(m / 10, (k - 1) as nat));
        assert(spec_padded(n, k).drop_last() =~= spec_padded(n / 10, (k - 1) as nat));
        assert(m / 10 < pow10_nat((k - 1) as nat) && n / 10 < pow10_nat((k - 1) as nat)) by {
            lemma_div_bound(m, (k - 1) as nat);
            lemma_div_bound(n, (k - 1) as nat);
        }
        lemma_padded_injective(m / 10, n / 10, (k - 1) as nat);
        assert(m % 10 == n % 10);
    }
}

/// Ten to the `k`, for bounding the padded digit strings.
pub open spec fn pow10_nat(k: nat) -> nat
    decreases k,
{
    if k == 0 {
        1
    } else {
        10 * pow10_nat((k - 1) as nat)
    }
}

proof fn lemma_div_bound(n: nat, k: nat)
    requires
        n < 10 * pow10_nat(k),
    ensures
        n / 10 < pow10_nat(k),
{
    assert(n / 10 < pow10_nat(k)) by (nonlinear_arith)
        requires
            n < 10 * pow10_nat(k),
            pow10_nat(k) >= 0,
    ;
}

proof fn lemma_frac_injective(m: nat, n: nat, k: nat)
    requires
        m < pow10_nat(k),
        n < pow10_nat(k),
        spec_frac(m, k) == spec_frac(n, k),
    ensures
        m == n,
    decreases k,
{
    if k > 0 {
        if m % 10 == 0 && n % 10 == 0 {
            lemma_div_bound(m, (k - 1) as nat);
            lemma_div_bound(n, (k - 1) as nat);
            lemma_frac_injective(m / 10, n / 10, (k - 1) as nat);
        } else if m % 10 != 0 && n % 10 != 0 {
            lemma_padded_injective(m, n, k);
        } else if m % 10 == 0 {
            lemma_frac_len(m / 10, (k - 1) as nat);
            lemma_padded_len(n, k);
            assert(spec_frac(m, k).len() < spec_frac(n, k).len());
        } else {
            lemma_frac_len(n / 10, (k - 1) as nat);
            lemma_padded_len(m, k);
            assert(spec_frac(n, k).len() < spec_frac(m, k).len());
        }
    }
}

spec fn fmt_sign(v: int) -> Seq<char> {
    if v < 0 {
        seq!['-']
    } else {
        Seq::empty()
    }
}

spec fn fmt_body(v: int) -> Seq<char> {
    let m = (if v >= 0 {
        v
    } else {
        -v
    }) as nat;
    if m % 10000 == 0 {
        spec_digits(m / 10000)
    } else {
        spec_digits(m / 10000).push('.') + spec_frac(m % 10000, 4)
    }
}

proof fn lemma_format_split(v: int)
    ensures
        spec_format(v) == fmt_sign(v) + fmt_body(v),
{
    assert(spec_format(v) =~= fmt_sign(v) + fmt_body(v));
}

/// The rendering is loss-free: two amounts that render to the same text are
/// the same amount, so nothing an account reports can be mistaken for
/// another value.
pub proof fn lemma_format_lossless(a: int, b: int)
    requires
        spec_format(a) == spec_format(b),
    ensures
        a == b,
{
    lemma_format_split(a);
    lemma_format_split(b);
    let ma = (if a >= 0 {
        a
    } else {
        -a
    }) as nat;
    let mb = (if b >= 0 {
        b
    } else {
        -b
    }) as nat;
    let wa = ma / 10000;
    let wb = mb / 10000;
    let fa = ma % 10000;
    let fb = mb % 10000;
    lemma_digits_shape(wa);
    lemma_digits_shape(wb);
    assert(is_digit_char(fmt_body(a)[0]) && is_digit_char(fmt_body(b)[0])) by {
        assert(fmt_body(a)[0] == spec_digits(wa)[0]);
        assert(fmt_body(b)[0] == spec_digits(wb)[0]);
    }
    if a < 0 && b >= 0 {
        assert(spec_format(a)[0] == '-');
        assert(spec_format(b)[0] == fmt_body(b)[0]);
        assert(false);
    }
    if a >= 0 && b < 0 {
        assert(spec_format(b)[0] == '-');
        assert(spec_format(a)[0] == fmt_body(a)[0]);
        assert(false);
    }
    let s = fmt_sign(a);
    assert(fmt_sign(b) == s);
    assert(fmt_body(a).len() == fmt_body(b).len()) by {
        assert((s + fmt_body(a)).len() == s.len() + fmt_body(a).len());
        assert((s + fmt_body(b)).len() == s.len() + fmt_body(b).len());
    }
    assert forall|i: int| 0 <= i < fmt_body(a).len() implies fmt_body(a)[i] == fmt_body(b)[i] by {
        assert((s + fmt_body(a))[s.len() + i] == fmt_body(a)[i]);
        assert((s + fmt_body(b))[s.len() + i] == fmt_body(b)[i]);
    }
    assert(fmt_body(a) =~= fmt_body(b));
    let la = spec_digits(wa).len() as int;
    let lb = spec_digits(wb).len() as int;
    if fa == 0 && fb == 0 {
        lemma_digits_injective(wa, wb);
    } else if fa == 0 && fb != 0 {
        assert(fmt_body(b)[lb] == '.');
        assert(is_digit_char(fmt_body(a)[lb]));
        assert(false);
    } else if fa != 0 && fb == 0 {
        assert(fmt_body(a)[la] == '.');
        assert(is_digit_char(fmt_body(b)[la]));
        assert(false);
    } else {
        if la < lb {
            assert(fmt_body(a)[la] == '.');
            assert(fmt_body(b)[la] == spec_digits(wb)[la]);
            assert(false);
        }
        if lb < la {
            assert(fmt_body(b)[lb] == '.');
            assert(fmt_body(a)[lb] == spec_digits(wa)[lb]);
            assert(false);
        }
        assert(spec_digits(wa) =~= spec_digits(wb)) by {
            assert forall|i: int| 0 <= i < la implies spec_digits(wa)[i] == spec_digits(wb)[i] by {
                assert(fmt_body(a)[i] == spec_digits(wa)[i]);
                assert(fmt_body(b)[i] == spec_digits(wb)[i]);
            }
        }
        lemma_digits_injective(wa, wb);
        lemma_frac_len(fa, 4);
        lemma_frac_len(fb, 4);
        assert(spec_frac(fa, 4).len() == spec_frac(fb, 4).len()) by {
            assert(fmt_body(a).len() == la + 1 + spec_frac(fa, 4).len());
            assert(fmt_body(b).len() == lb + 1 + spec_frac(fb, 4).len());
        }
        assert(spec_frac(fa, 4) =~= spec_frac(fb, 4)) by {
            assert forall|i: int| 0 <= i < spec_frac(fa, 4).len() implies spec_frac(fa, 4)[i]
                == spec_frac(fb, 4)[i] by {
                assert(fmt_body(a)[la + 1 + i] == spec_frac(fa, 4)[i]);
                assert(fmt_body(b)[lb + 1 + i] == spec_frac(fb, 4)[i]);
            }
        }
        assert(pow10_nat(4) == 10000) by {
            reveal_with_fuel(pow10_nat, 5);
        }
        lemma_frac_injective(fa, fb, 4);
    }
    assert(ma == mb);
}

/// The one-character string for a single decimal digit.
fn digit_str(d: u128) -> (s: &'static str)
    requires
        d < 10,
    ensures
        s@ == seq![digit_char(d as int)],
{
    proof {
        reveal_strlit("0");
        reveal_strlit("1");
        reveal_strlit("2");
        reveal_strlit("3");
        reveal_strlit("4");
        reveal_strlit("5");
        reveal_strlit("6");
        reveal_strlit("7");
        reveal_strlit("8");
        reveal_strlit("9");
    }
    match d {
        0 => "0",
        1 => "1",
        2 => "2",
        3 => "3",
        4 => "4",
        5 => "5",
        6 => "6",
        7 => "7",
        8 => "8",
        _ => "9",
    }
}

/// Append the decimal digits of `n` to `out`.
pub(crate) fn push_digits(n: u128, out: &mut String)
    ensures
        final(out)@ == old(out)@ + spec_digits(n as nat),
    decreases n,
{
    if n >= 10 {
        push_digits(n / 10, out);
        out.append(digit_str(n % 10));
    } else {
        out.append(digit_str(n));
    }
}

/// Append the low `k` decimal digits of `n` to `out`, zero padded.
fn push_padded(n: u128, k: usize, out: &mut String)
    ensures
        final(out)@ == old(out)@ + spec_padded(n as nat, k as nat),
    decreases k,
{
    if k > 0 {
        push_padded(n / 10, k - 1, out);
        out.append(digit_str(n % 10));
    }
}

/// Append the low `k` decimal digits of `f`, trailing zeros stripped.
fn push_frac(f: u128, k: usize, out: &mut String)
    ensures
        final(out)@ == old(out)@ + spec_frac(f as nat, k as nat),
    decreases k,
{
    if k > 0 {
        if f % 10 == 0 {
            push_frac(f / 10, k - 1, out);
        } else {
            push_padded(f, k, out);
        }
    }
}

/// Render an amount with truncation to at most four fractional digits,
/// trailing zero fractional digits stripped, and no sign on a zero value.
pub fn format(amount: Amount) -> (r: String)
    ensures
        r@ == spec_format(amount@),
{
    let units = amount.units;
    let mag: u128 = if units >= 0 {
        units as u128
    } else {
        ((-(units + 1)) as u128) + 1
    };
    proof {
        assert(mag as int == if amount@ >= 0 {
            amount@
        } else {
            -amount@
        });
    }
    let whole: u128 = mag / 10000;
    let frac: u128 = mag % 10000;
    let mut r = String::new();
    if units < 0 {
        proof {
            reveal_strlit("-");
        }
        r.append("-");
    }
    push_digits(whole, &mut r);
    if frac != 0 {
        proof {
            reveal_strlit(".");
        }
        r.append(".");
        push_frac(frac, 4, &mut r);
    }
    proof {
        assert(r@ =~= spec_format(amount@));
    }
    r
}

} // verus!
