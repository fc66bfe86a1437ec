//! A single typed ledger event, and the parsing of one raw input record
//! into it.

use vstd::prelude::*;
use crate::libs::{Amount, ClientId, TransactionId};

verus! {

/// One incoming ledger event: its id, the client that issued it, and the
/// monetary amount (zero for the non-monetary event kinds).
#[derive(Clone, Debug, PartialEq, Eq, Structural)]
pub struct Transaction {
    pub id: TransactionId,
    pub client_id: ClientId,
    pub amount: Amount,
}

pub open spec fn is_digit(c: char) -> bool {
    '0' <= c && c <= '9'
}

pub open spec fn digit_val(c: char) -> int {
    c as int - '0' as int
}

/// The value of a sequence of decimal digit characters, most significant
/// first.
pub open spec fn spec_digits_val(s: Seq<char>) -> int
    decreases s.len(),
{
    if s.len() == 0 {
        0
    } else {
        spec_digits_val(s.drop_last()) * 10 + digit_val(s.last())
    }
}

/// The value of a pure digit string `ds`, refused when empty, when any
/// character is not a digit, or when the value exceeds `max`.
pub open spec fn spec_uint_digits(ds: Seq<char>, max: int) -> Option<int> {
    if ds.len() == 0 || exists|i: int| 0 <= i < ds.len() && !is_digit(ds[i]) {
        None
    } else if spec_digits_val(ds) > max {
        None
    } else {
        Some(spec_digits_val(ds))
    }
}

/// The unsigned integer denoted by `s`: an optional leading `+`, then one
/// or more decimal digits, valued at most `max`. Anything else is `None`.
pub open spec fn spec_parse_uint(s: Seq<char>, max: int) -> Option<int> {
    if s.len() >= 1 && s[0] == '+' {
        spec_uint_digits(s.subrange(1, s.len() as int), max)
    } else {
        spec_uint_digits(s, max)
    }
}

proof fn lemma_digits_val_nonneg(s: Seq<char>)
    requires
        forall|i: int| 0 <= i < s.len() ==> is_digit(s[i]),
    ensures
        spec_digits_val(s) >= 0,
    decreases s.len(),
{
    if s.len() > 0 {
        lemma_digits_val_nonneg(s.drop_last());
    }
}

proof fn lemma_digits_val_monotone(s: Seq<char>, n: int)
    requires
        forall|i: int| 0 <= i < s.len() ==> is_digit(s[i]),
        0 <= n <= s.len(),
    ensures
        spec_digits_val(s) >= spec_digits_val(s.subrange(0, n)),
    decreases s.len() - n,
{
    if n < s.len() {
        lemma_digits_val_monotone(s, n + 1);
        let p = s.subrange(0, n);
        let q = s.subrange(0, n + 1);
        assert(q.drop_last() =~= p);
        lemma_digits_val_nonneg(p);
        assert(spec_digits_val(q) == spec_digits_val(p) * 10 + digit_val(q.last()));
        assert(spec_digits_val(q) >= spec_digits_val(p));
    } else {
        assert(s.subrange(0, n) =~= s);
    }
}

/// Parse an unsigned decimal integer of value at most `max`, as
/// `spec_parse_uint` describes.
fn parse_uint(s: &str, max: u64) -> (r: Option<u64>)
    requires
        max <= u32::MAX,
    ensures
        match r {
            Some(v) => spec_parse_uint(s@, max as int) == Some(v as int),
            None => spec_parse_uint(s@, max as int) is None,
        },
{
    if !s.is_ascii() {
        proof {
            assert(exists|j: int| 0 <= j < s@.len() && !('\0' <= #[trigger] s@[j] <= '\u{7f}'));
            let j = choose|j: int| 0 <= j < s@.len() && !('\0' <= #[trigger] s@[j] <= '\u{7f}');
            if s@.len() >= 1 && s@[0] == '+' {
                let ds = s@.subrange(1, s@.len() as int);
                if ds.len() > 0 && !(exists|i: int| 0 <= i < ds.len() && !is_digit(ds[i])) {
                    if j == 0 {
                        assert(false);
                    } else {
                        assert(ds[j - 1] == s@[j]);
                        assert(is_digit(ds[j - 1]));
                        assert(false);
                    }
                }
                assert(spec_uint_digits(ds, max as int) is None);
            } else {
                if s@.len() > 0 && !(exists|i: int| 0 <= i < s@.len() && !is_digit(s@[i])) {
                    assert(is_digit(s@[j]));
                    assert(false);
                }
                assert(spec_uint_digits(s@, max as int) is None);
            }
        }
        return None;
    }
    let n = s.unicode_len();
    let start: usize = if n >= 1 && s.get_char(0) == '+' {
        1
    } else {
        0
    };
    let t = s.substring_ascii(start, n);
    let ghost ds = if s@.len() >= 1 && s@[0] == '+' {
        s@.subrange(1, s@.len() as int)
    } else {
        s@
    };
    proof {
        assert(t@ =~= ds);
    }
    let m = n - start;
    if m == 0 {
        return None;
    }
    let mut acc: u64 = 0;
    let mut i: usize = 0;
    while i < m
        invariant
            0 <= i <= m,
            m == t@.len(),
            t@ == ds,
            spec_parse_uint(s@, max as int) == spec_uint_digits(ds, max as int),
            t.is_ascii(),
            max <= u32::MAX,
            acc <= max,
            forall|j: int| 0 <= j < i ==> is_digit(#[trigger] t@[j]),
            acc as int == spec_digits_val(t@.subrange(0, i as int)),
        decreases m - i,
    {
        let b = t.get_ascii(i);
        if b < 48 || b > 57 {
            proof {
                assert(!is_digit(ds[i as int]));
                assert(exists|j: int| 0 <= j < ds.len() && !is_digit(ds[j]));
                assert(spec_uint_digits(ds, max as int) is None);
            }
            return None;
        }
        let d: u64 = (b - 48) as u64;
        proof {
            assert(is_digit(t@[i as int]));
            assert(digit_val(t@[i as int]) == d as int);
        }
        if acc > max / 10 || 10 * acc + d > max {
            proof {
                let p = t@.subrange(0, i as int + 1);
                assert(p.drop_last() =~= t@.subrange(0, i as int));
                assert(p.last() == t@[i as int]);
                assert(spec_digits_val(p) > max);
                if !(exists|j: int| 0 <= j < ds.len() && !is_digit(ds[j])) {
                    assert(forall|j: int| 0 <= j < ds.len() ==> is_digit(#[trigger] ds[j]));
                    lemma_digits_val_monotone(ds, i as int + 1);
                    assert(spec_digits_val(ds) > max);
                }
                assert(spec_uint_digits(ds, max as int) is None);
            }
            return None;
        }
        proof {
            let p = t@.subrange(0, i as int + 1);
            assert(p.drop_last() =~= t@.subrange(0, i as int));
            assert(p.last() == t@[i as int]);
        }
        acc = 10 * acc + d;
        i = i + 1;
    }
    proof {
        assert(t@.subrange(0, m as int) =~= ds);
        assert(spec_uint_digits(ds, max as int) == Some(acc as int));
    }
    Some(acc)
}

pub open spec fn pow10(k: nat) -> int
    decreases k,
{
    if k == 0 {
        1
    } else {
        10 * pow10((k - 1) as nat)
    }
}

proof fn lemma_pow10_pos(k: nat)
    ensures
        pow10(k) >= 1,
    decreases k,
{
    if k > 0 {
        lemma_pow10_pos((k - 1) as nat);
    }
}

proof fn lemma_pow10_le(a: nat, b: nat)
    requires
        a <= b,
    ensures
        pow10(a) <= pow10(b),
    decreases b,
{
    if a < b {
        lemma_pow10_le(a, (b - 1) as nat);
        lemma_pow10_pos((b - 1) as nat);
    }
}

fn pow10_u128(k: u32) -> (r: u128)
    requires
        k <= 24,
    ensures
        r == pow10(k as nat),
{
    proof {
        reveal_with_fuel(pow10, 25);
        assert(pow10(24) == 1000000000000000000000000int);
    }
    let mut r: u128 = 1;
    let mut j: u32 = 0;
    while j < k
        invariant
            j <= k,
            k <= 24,
            r == pow10(j as nat),
            pow10(24) == 1000000000000000000000000int,
        decreases k - j,
    {
        proof {
            lemma_pow10_le(j as nat + 1, 24);
        }
        r = r * 10;
        j = j + 1;
    }
    r
}

/// The unit count of the value `m / 10^sc`, truncated toward zero to four
/// fractional decimal digits.
pub open spec fn spec_truncate_units(m: int, sc: nat) -> int {
    let mag = if m >= 0 {
        m
    } else {
        -m
    };
    let t = if sc <= 4 {
        mag * pow10((4 - sc) as nat)
    } else {
        mag / pow10((sc - 4) as nat)
    };
    if m < 0 {
        -t
    } else {
        t
    }
}

/// What `rust_decimal` reads out of a piece of text: the mantissa and scale
/// of the decimal it denotes, or nothing when the text denotes none.
pub uninterp spec fn spec_parse_decimal(s: Seq<char>) -> Option<(i128, u32)>;

/// Relies on rust_decimal's `Decimal::from_str`, `Decimal::mantissa` and
/// `Decimal::scale`: the parsed value depends on the text alone; a decimal's
/// mantissa is a 96-bit magnitude with a sign and its scale is at most 28.
#[verifier::external_body]
fn parse_decimal(s: &str) -> (r: Option<(i128, u32)>)
    ensures
        r == spec_parse_decimal(s@),
        r matches Some(p) ==> -0x1000000000000000000000000i128 < p.0
            < 0x1000000000000000000000000i128 && p.1 <= 28,
{
    match <rust_decimal::Decimal as core::str::FromStr>::from_str(s) {
        Ok(d) => Some((d.mantissa(), d.scale())),
        Err(_) => None,
    }
}

/// Truncate a parsed mantissa and scale to a four-decimal-place amount,
/// toward zero.
pub fn truncate_units(m: i128, sc: u32) -> (r: i128)
    requires
        -0x1000000000000000000000000i128 < m < 0x1000000000000000000000000i128,
        sc <= 28,
    ensures
        r == spec_truncate_units(m as int, sc as nat),
{
    let mag: u128 = if m >= 0 {
        m as u128
    } else {
        (-m) as u128
    };
    let t: u128 = if sc <= 4 {
        let p = pow10_u128(4 - sc);
        proof {
            reveal_with_fuel(pow10, 5);
            assert(pow10(4) == 10000int);
            lemma_pow10_le((4 - sc) as nat, 4);
            assert(mag * p <= mag * 10000int) by (nonlinear_arith)
                requires
                    p <= 10000int,
                    mag >= 0,
            ;
            assert(mag * 10000int < 0x1000000000000000000000000i128 * 10000int)
                by (nonlinear_arith)
                requires
                    mag < 0x1000000000000000000000000i128,
            ;
        }
        mag * p
    } else {
        let p = pow10_u128(sc - 4);
        proof {
            lemma_pow10_pos((sc - 4) as nat);
            assert(mag / p <= mag) by (nonlinear_arith)
                requires
                    p >= 1,
                    mag >= 0,
            ;
        }
        mag / p
    };
    if m < 0 {
        -(t as i128)
    } else {
        t as i128
    }
}

/// The amount denoted by a piece of text: the decimal it denotes, truncated
/// toward zero to four fractional digits.
pub open spec fn spec_parse_amount(s: Seq<char>) -> Option<Amount> {
    match spec_parse_decimal(s) {
        None => None,
        Some(p) => Some(Amount { units: spec_truncate_units(p.0 as int, p.1 as nat) as i128 }),
    }
}

/// Parse a decimal amount of either sign, truncating toward zero to four
/// fractional digits.
pub fn parse_amount(s: &str) -> (r: Option<Amount>)
    ensures
        r == spec_parse_amount(s@),
{
    match parse_decimal(s) {
        None => None,
        Some((m, sc)) => Some(Amount { units: truncate_units(m, sc) }),
    }
}

/// An input record as the csv reader hands it over: a row of text fields.
#[verifier::external_type_specification]
#[verifier::external_body]
pub struct ExStringRecord(csv::StringRecord);

/// The fields a record holds, in order.
pub uninterp spec fn record_fields(r: csv::StringRecord) -> Seq<Seq<char>>;

/// Relies on csv's `StringRecord::len`: the number of fields in the record.
pub assume_specification[ csv::StringRecord::len ](r: &csv::StringRecord) -> (n: usize)
    ensures
        n == record_fields(*r).len(),
;

/// Relies on csv's `StringRecord::get`: the field at the index, or `None`
/// beyond the last one.
pub assume_specification<'a>[ csv::StringRecord::get ](r: &'a csv::StringRecord, i: usize) -> (f:
    Option<&'a str>)
    ensures
        match f {
            Some(s) => i < record_fields(*r).len() && s@ == record_fields(*r)[i as int],
            None => i >= record_fields(*r).len(),
        },
;

/// The transaction denoted by a row of fields: the transaction id in the
/// third field, the client id in the second, and for a row of four or more
/// fields a strictly positive amount in the fourth, truncated to four
/// decimal places. A shorter row carries the zero amount of the
/// non-monetary event kinds. Any other row denotes no transaction.
pub open spec fn spec_parse_record(fields: Seq<Seq<char>>) -> Option<Transaction> {
    if fields.len() < 3 {
        None
    } else {
        match spec_parse_uint(fields[2], u32::MAX as int) {
            None => None,
            Some(id) => match spec_parse_uint(fields[1], u16::MAX as int) {
                None => None,
                Some(client_id) => {
                    if fields.len() < 4 {
                        Some(
                            Transaction {
                                id: id as u32,
                                client_id: client_id as u16,
                                amount: Amount { units: 0 },
                            },
                        )
                    } else {
                        match spec_parse_decimal(fields[3]) {
                            None => None,
                            Some(p) => {
                                if p.0 <= 0 {
                                    None
                                } else {
                                    Some(
                                        Transaction {
                                            id: id as u32,
                                            client_id: client_id as u16,
                                            amount: Amount {
                                                units: spec_truncate_units(
                                                    p.0 as int,
                                                    p.1 as nat,
                                                ) as i128,
                                            },
                                        },
                                    )
                                }
                            },
                        }
                    }
                },
            },
        }
    }
}

impl Transaction {
    /// Parse one raw input record into a typed transaction, refusing a
    /// record with fewer than three fields, an unreadable id or client id,
    /// or an amount that is absent, unreadable, zero or negative.
    pub fn parse_record(record: &csv::StringRecord) -> (r: Option<Transaction>)
        ensures
            r == spec_parse_record(record_fields(*record)),
    {
        if record.len() < 3 {
            return None;
        }
        let id_field = match record.get(2) {
            Some(f) => f,
            None => {
                return None;
            },
        };
        let id = match parse_uint(id_field, 0xffff_ffff) {
            Some(v) => v as u32,
            None => {
                return None;
            },
        };
        let client_field = match record.get(1) {
            Some(f) => f,
            None => {
                return None;
            },
        };
        let client_id = match parse_uint(client_field, 0xffff) {
            Some(v) => v as u16,
            None => {
                return None;
            },
        };
        if record.len() < 4 {
            return Some(Transaction { id, client_id, amount: Amount { units: 0 } });
        }
        let amount_field = match record.get(3) {
            Some(f) => f,
            None => {
                return None;
            },
        };
        match parse_decimal(amount_field) {
            None => None,
            Some((m, sc)) => {
                if m <= 0 {
                    None
                } else {
                    Some(Transaction { id, client_id, amount: Amount { units: truncate_units(m, sc) } })
                }
            },
        }
    }
}

} // verus!
