//! Numeric literals: unsigned, signed and 64.64 fixed-point numbers.
use vstd::prelude::*;

use vstd::arithmetic::div_mod::{lemma_fundamental_div_mod, lemma_mod_pos_bound};

use crate::error::Error;

verus! {

/// A 128-bit fixed-point number with 64 integer and 64 fractional bits,
/// held as its raw two's complement bits: the value is `bits / 2^64`.
#[derive(Debug, Clone, Copy, PartialEq, Eq, Structural)]
pub struct Fixed {
    pub bits: i128,
}

pub const FRAC_ONE: i128 = 0x1_0000_0000_0000_0000;

/// A number as written in a document. Values of different variants never
/// compare equal, whatever their magnitude.
#[derive(Debug, Clone, Copy, PartialEq, Eq, Structural)]
pub enum Number {
    Unsigned(u64),
    Signed(i64),
    Fixed(Fixed),
}

/// The bits that `fixed`'s `I64F64::from_str` gives for the text held by the
/// bytes, or `None` where it refuses the text.
pub uninterp spec fn fixed_bits_of(s: Seq<u8>) -> Option<i128>;

/// Relies on `fixed::types::I64F64::from_str`: parses a decimal text into the
/// nearest 64.64 value (ties to even), failing where the text is malformed or
/// the value does not fit. Its result depends on the text alone.
#[verifier::external_body]
fn parse_fixed_bits(b: &[u8]) -> (r: Option<i128>)
    ensures
        r == fixed_bits_of(b@),
{
    let s = core::str::from_utf8(b).ok()?;
    <fixed::types::I64F64 as core::str::FromStr>::from_str(s).ok().map(|f| f.to_bits())
}

/// The value of an ASCII digit in bases up to 16, or 16 for any other byte.
pub open spec fn digit_value(c: u8) -> int {
    if 0x30 <= c <= 0x39 {
        c - 0x30
    } else if 0x61 <= c <= 0x66 {
        c - 0x61 + 10
    } else if 0x41 <= c <= 0x46 {
        c - 0x41 + 10
    } else {
        16
    }
}

/// Whether `s` is a non-empty run of digits of the given base.
pub open spec fn all_digits(s: Seq<u8>, radix: int) -> bool {
    s.len() > 0 && forall|i: int| 0 <= i < s.len() ==> #[trigger] digit_value(s[i]) < radix
}

/// The value of a run of digits, most significant first.
pub open spec fn digits_value(s: Seq<u8>, radix: int) -> int
    decreases s.len(),
{
    if s.len() == 0 {
        0
    } else {
        digits_value(s.drop_last(), radix) * radix + digit_value(s.last())
    }
}

/// What `u64::from_str_radix` accepts: an optional `+`, then digits whose
/// value fits in 64 bits.
pub open spec fn unsigned_of(s: Seq<u8>, radix: int) -> Option<u64> {
    let d = if s.len() > 0 && s[0] == 0x2b {
        s.subrange(1, s.len() as int)
    } else {
        s
    };
    if all_digits(d, radix) && digits_value(d, radix) <= u64::MAX {
        Some(digits_value(d, radix) as u64)
    } else {
        None
    }
}

/// What `i64::from_str` accepts: an optional sign, then decimal digits
/// whose value fits in 64 signed bits.
pub open spec fn signed_of(s: Seq<u8>) -> Option<i64> {
    if s.len() > 0 && s[0] == 0x2d {
        let d = s.subrange(1, s.len() as int);
        if all_digits(d, 10) && digits_value(d, 10) <= 0x8000_0000_0000_0000 {
            Some((-digits_value(d, 10)) as i64)
        } else {
            None
        }
    } else {
        match unsigned_of(s, 10) {
            Some(v) => if v <= i64::MAX {
                Some(v as i64)
            } else {
                None
            },
            None => None,
        }
    }
}

pub proof fn lemma_field_nonneg(s: Seq<u8>)
    ensures
        all_digits(s, 10) ==> digits_value(s, 10) >= 0,
{
    if all_digits(s, 10) {
        lemma_digits_value_nonneg(s, 10);
    }
}

proof fn lemma_digits_value_nonneg(s: Seq<u8>, radix: int)
    requires
        all_digits(s, radix) || s.len() == 0,
        2 <= radix <= 16,
    ensures
        digits_value(s, radix) >= 0,
    decreases s.len(),
{
    if s.len() > 0 {
        if s.len() > 1 {
            assert(all_digits(s.drop_last(), radix)) by {
                assert forall|i: int| 0 <= i < s.drop_last().len() implies #[trigger] digit_value(
                    s.drop_last()[i],
                ) < radix by {
                    assert(s.drop_last()[i] == s[i]);
                }
            }
        }
        lemma_digits_value_nonneg(s.drop_last(), radix);
        assert(digit_value(s[s.len() - 1]) >= 0);
        assert(digits_value(s.drop_last(), radix) * radix >= 0) by (nonlinear_arith)
            requires
                digits_value(s.drop_last(), radix) >= 0,
                radix >= 2,
        ;
    }
}

fn digit_of(c: u8) -> (r: u64)
    ensures
        r == digit_value(c),
{
    if 0x30 <= c && c <= 0x39 {
        (c - 0x30) as u64
    } else if 0x61 <= c && c <= 0x66 {
        (c - 0x61 + 10) as u64
    } else if 0x41 <= c && c <= 0x46 {
        (c - 0x41 + 10) as u64
    } else {
        16
    }
}

/// Parses `s[start..end]` as digits of the given base whose value fits in 64
/// bits.
fn parse_digits(s: &[u8], start: usize, end: usize, radix: u64) -> (r: Option<u64>)
    requires
        start <= end <= s@.len(),
        2 <= radix <= 16,
    ensures
        ({
            let d = s@.subrange(start as int, end as int);
            r == if all_digits(d, radix as int) && digits_value(d, radix as int) <= u64::MAX {
                Some(digits_value(d, radix as int) as u64)
            } else {
                None::<u64>
            }
        }),
{
    let ghost d = s@.subrange(start as int, end as int);
    if start == end {
        return None;
    }
    let mut acc: u64 = 0;
    let mut i: usize = start;
    while i < end
        invariant
            start <= i <= end <= s@.len(),
            start < end,
            2 <= radix <= 16,
            d == s@.subrange(start as int, end as int),
            all_digits(s@.subrange(start as int, i as int), radix as int) || i == start,
            acc == digits_value(s@.subrange(start as int, i as int), radix as int),
        decreases end - i,
    {
        let ghost pre = s@.subrange(start as int, i as int);
        let ghost next = s@.subrange(start as int, i + 1);
        assert(next.drop_last() =~= pre);
        assert(next.last() == s@[i as int]);
        let dv = digit_of(s[i]);
        if dv >= radix {
            assert(!all_digits(d, radix as int)) by {
                assert(d[i - start] == s@[i as int]);
            }
            return None;
        }
        assert(all_digits(next, radix as int)) by {
            assert forall|k: int| 0 <= k < next.len() implies #[trigger] digit_value(next[k])
                < radix by {
                if k < pre.len() {
                    assert(next[k] == pre[k]);
                }
            }
        }
        let room = u64::MAX - dv;
        let lim = room / radix;
        proof {
            lemma_fundamental_div_mod(room as int, radix as int);
            lemma_mod_pos_bound(room as int, radix as int);
        }
        if acc > lim {
            proof {
                lemma_digits_value_nonneg(pre, radix as int);
                assert(acc * radix + dv > u64::MAX) by (nonlinear_arith)
                    requires
                        acc > lim,
                        room as int == radix as int * lim as int + (room as int) % (radix as int),
                        (room as int) % (radix as int) < radix,
                        room == u64::MAX - dv,
                        radix >= 2,
                ;
                if all_digits(d, radix as int) {
                    lemma_prefix_value_bound(d, (i + 1 - start) as int, radix as int);
                    assert(d.subrange(0, (i + 1 - start) as int) =~= next);
                }
            }
            return None;
        }
        assert(acc * radix + dv <= u64::MAX) by (nonlinear_arith)
            requires
                acc <= lim,
                room as int == radix as int * lim as int + (room as int) % (radix as int),
                (room as int) % (radix as int) >= 0,
                room == u64::MAX - dv,
                radix >= 2,
        ;
        acc = acc * radix + dv;
        i = i + 1;
    }
    assert(s@.subrange(start as int, i as int) =~= d);
    Some(acc)
}

/// A longer run of digits never has a smaller value than its prefix.
proof fn lemma_prefix_value_bound(d: Seq<u8>, n: int, radix: int)
    requires
        0 < n <= d.len(),
        2 <= radix <= 16,
        all_digits(d, radix),
    ensures
        digits_value(d, radix) >= digits_value(d.subrange(0, n), radix),
    decreases d.len(),
{
    if n < d.len() {
        let dl = d.drop_last();
        assert(all_digits(dl, radix)) by {
            assert forall|i: int| 0 <= i < dl.len() implies #[trigger] digit_value(dl[i])
                < radix by {
                assert(dl[i] == d[i]);
            }
        }
        lemma_prefix_value_bound(dl, n, radix);
        assert(dl.subrange(0, n) =~= d.subrange(0, n));
        lemma_digits_value_nonneg(dl, radix);
        assert(digit_value(d.last()) >= 0);
        assert(digits_value(dl, radix) * radix + digit_value(d.last()) >= digits_value(dl, radix))
            by (nonlinear_arith)
            requires
                digits_value(dl, radix) >= 0,
                radix >= 2,
                digit_value(d.last()) >= 0,
        ;
    } else {
        assert(d.subrange(0, n) =~= d);
    }
}

/// `u64::from_str_radix` on `s[start..end]`.
pub fn parse_unsigned_radix(s: &[u8], start: usize, end: usize, radix: u64) -> (r: Option<
    u64,
>)
    requires
        start <= end <= s@.len(),
        2 <= radix <= 16,
    ensures
        r == unsigned_of(s@.subrange(start as int, end as int), radix as int),
{
    if start < end && s[start] == 0x2b {
        let r = parse_digits(s, start + 1, end, radix);
        assert(s@.subrange(start as int, end as int).subrange(1, (end - start) as int)
            =~= s@.subrange(start + 1, end as int));
        r
    } else {
        parse_digits(s, start, end, radix)
    }
}

/// `i64::from_str` on `s[start..end]`.
pub fn parse_signed(s: &[u8], start: usize, end: usize) -> (r: Option<i64>)
    requires
        start <= end <= s@.len(),
    ensures
        r == signed_of(s@.subrange(start as int, end as int)),
{
    let ghost t = s@.subrange(start as int, end as int);
    assert(start < end ==> t[0] == s@[start as int]);
    if start < end && s[start] == 0x2d {
        assert(t.subrange(1, t.len() as int) =~= s@.subrange(start + 1, end as int));
        match parse_digits(s, start + 1, end, 10) {
            Some(v) => {
                let ghost d = s@.subrange(start + 1, end as int);
                proof {
                    lemma_digits_value_nonneg(d, 10);
                }
                if v <= 0x8000_0000_0000_0000u64 {
                    if v == 0x8000_0000_0000_0000u64 {
                        Some(i64::MIN)
                    } else {
                        Some(-(v as i64))
                    }
                } else {
                    None
                }
            },
            None => {
                proof {
                    let d = s@.subrange(start + 1, end as int);
                    if all_digits(d, 10) {
                        assert(digits_value(d, 10) > u64::MAX);
                    }
                }
                None
            },
        }
    } else {
        match parse_unsigned_radix(s, start, end, 10) {
            Some(v) => if v <= i64::MAX as u64 {
                Some(v as i64)
            } else {
                None
            },
            None => None,
        }
    }
}

/// Whether the byte `b` occurs in `s`.
pub open spec fn has_byte(s: Seq<u8>, b: u8) -> bool {
    exists|i: int| 0 <= i < s.len() && s[i] == b
}

pub fn contains_byte(s: &[u8], b: u8) -> (r: bool)
    ensures
        r == has_byte(s@, b),
{
    let mut i: usize = 0;
    while i < s.len()
        invariant
            i <= s@.len(),
            forall|k: int| 0 <= k < i ==> s@[k] != b,
        decreases s@.len() - i,
    {
        if s[i] == b {
            return true;
        }
        i = i + 1;
    }
    false
}

/// How a numeric literal reads: `0x` opens hex, a `.` makes it fixed-point, a
/// leading `-` makes it signed, a leading `0` with more after it opens octal,
/// and anything else is unsigned decimal.
pub open spec fn number_of(s: Seq<u8>) -> Result<Number, Error> {
    if s.len() >= 2 && s[0] == 0x30 && s[1] == 0x78 {
        match unsigned_of(s.subrange(2, s.len() as int), 16) {
            Some(v) => Ok(Number::Unsigned(v)),
            None => Err(Error::InvalidHexNumber),
        }
    } else if has_byte(s, 0x2e) {
        match fixed_bits_of(s) {
            Some(bits) => Ok(Number::Fixed(Fixed { bits })),
            None => Err(Error::InvalidFixedPointNumber),
        }
    } else if s.len() >= 1 && s[0] == 0x2d {
        match signed_of(s) {
            Some(v) => Ok(Number::Signed(v)),
            None => Err(Error::InvalidSignedNumber),
        }
    } else if s.len() >= 2 && s[0] == 0x30 {
        match unsigned_of(s, 8) {
            Some(v) => Ok(Number::Unsigned(v)),
            None => Err(Error::InvalidOctalNumber),
        }
    } else {
        match unsigned_of(s, 10) {
            Some(v) => Ok(Number::Unsigned(v)),
            None => Err(Error::InvalidUnsignedNumber),
        }
    }
}

impl Number {
    /// Parses a numeric literal.
    pub fn from_bytes(s: &[u8]) -> (r: Result<Number, Error>)
        ensures
            r == number_of(s@),
    {
        let n = s.len();
        assert(s@.subrange(0, n as int) =~= s@);
        if n >= 2 && s[0] == 0x30 && s[1] == 0x78 {
            match parse_unsigned_radix(s, 2, n, 16) {
                Some(v) => Ok(Number::Unsigned(v)),
                None => Err(Error::InvalidHexNumber),
            }
        } else if contains_byte(s, 0x2e) {
            match parse_fixed_bits(s) {
                Some(bits) => Ok(Number::Fixed(Fixed { bits })),
                None => Err(Error::InvalidFixedPointNumber),
            }
        } else if n >= 1 && s[0] == 0x2d {
            match parse_signed(s, 0, n) {
                Some(v) => Ok(Number::Signed(v)),
                None => Err(Error::InvalidSignedNumber),
            }
        } else if n >= 2 && s[0] == 0x30 {
            match parse_unsigned_radix(s, 0, n, 8) {
                Some(v) => Ok(Number::Unsigned(v)),
                None => Err(Error::InvalidOctalNumber),
            }
        } else {
            match parse_unsigned_radix(s, 0, n, 10) {
                Some(v) => Ok(Number::Unsigned(v)),
                None => Err(Error::InvalidUnsignedNumber),
            }
        }
    }

    /// The value as a `u64`, where it is a whole number in that range.
    pub fn as_u64(&self) -> (r: Option<u64>)
        ensures
            r == match *self {
                Number::Unsigned(u) => Some(u),
                Number::Signed(i) => if i >= 0 {
                    Some(i as u64)
                } else {
                    None
                },
                Number::Fixed(f) => if f.bits >= 0 && f.bits % FRAC_ONE == 0 {
                    Some((f.bits / FRAC_ONE) as u64)
                } else {
                    None
                },
            },
    {
        match *self {
            Number::Unsigned(u) => Some(u),
            Number::Signed(i) => if i >= 0 {
                Some(i as u64)
            } else {
                None
            },
            Number::Fixed(f) => if f.bits >= 0 && f.bits % FRAC_ONE == 0 {
                Some((f.bits / FRAC_ONE) as u64)
            } else {
                None
            },
        }
    }

    /// The value as an `i64`, where it is a whole number in that range.
    pub fn as_i64(&self) -> (r: Option<i64>)
        ensures
            r == match *self {
                Number::Unsigned(u) => if u <= i64::MAX {
                    Some(u as i64)
                } else {
                    None
                },
                Number::Signed(i) => Some(i),
                Number::Fixed(f) => if f.bits % FRAC_ONE == 0 {
                    Some((f.bits / FRAC_ONE) as i64)
                } else {
                    None
                },
            },
    {
        match *self {
            Number::Unsigned(u) => if u <= i64::MAX as u64 {
                Some(u as i64)
            } else {
                None
            },
            Number::Signed(i) => Some(i),
            Number::Fixed(f) => {
                if f.bits >= 0 {
                    if f.bits % FRAC_ONE == 0 {
                        Some((f.bits / FRAC_ONE) as i64)
                    } else {
                        None
                    }
                } else {
                    let m: u128 = ((-(f.bits + 1)) as u128) + 1;
                    let one: u128 = 0x1_0000_0000_0000_0000;
                    if m % one == 0 {
                        let q: u128 = m / one;
                        assert(q <= 0x8000_0000_0000_0000) by (nonlinear_arith)
                            requires
                                m <= 0x8000_0000_0000_0000_0000_0000_0000_0000,
                                q == m / one,
                                one == 0x1_0000_0000_0000_0000,
                        ;
                        assert(f.bits % FRAC_ONE == 0 && f.bits / FRAC_ONE == -q) by {
                            lemma_neg_div_exact(f.bits as int, FRAC_ONE as int);
                        }
                        if q == 0x8000_0000_0000_0000 {
                            Some(i64::MIN)
                        } else {
                            Some(-(q as i64))
                        }
                    } else {
                        assert(f.bits % FRAC_ONE != 0) by {
                            lemma_neg_mod_nonzero(f.bits as int, FRAC_ONE as int);
                        }
                        None
                    }
                }
            },
        }
    }

    /// The value as a fixed-point number, where it fits one.
    pub fn as_fixed(&self) -> (r: Option<Fixed>)
        ensures
            r == match *self {
                Number::Unsigned(u) => if u <= i64::MAX {
                    Some(Fixed { bits: (u * FRAC_ONE) as i128 })
                } else {
                    None
                },
                Number::Signed(i) => Some(Fixed { bits: (i * FRAC_ONE) as i128 }),
                Number::Fixed(f) => Some(f),
            },
    {
        match *self {
            Number::Unsigned(u) => if u <= i64::MAX as u64 {
                assert(u * FRAC_ONE <= i128::MAX) by (nonlinear_arith)
                    requires
                        u <= i64::MAX,
                ;
                Some(Fixed { bits: (u as i128) * FRAC_ONE })
            } else {
                None
            },
            Number::Signed(i) => {
                assert(i * FRAC_ONE <= i128::MAX && i * FRAC_ONE >= i128::MIN) by (nonlinear_arith)
                    requires
                        i64::MIN <= i <= i64::MAX,
                ;
                Some(Fixed { bits: (i as i128) * FRAC_ONE })
            },
            Number::Fixed(f) => Some(f),
        }
    }
}

proof fn lemma_neg_div_exact(x: int, d: int)
    requires
        x < 0,
        d > 0,
        (-x) % d == 0,
    ensures
        x % d == 0,
        x / d == -((-x) / d),
{
    lemma_fundamental_div_mod(-x, d);
    let q = (-x) / d;
    assert(x == d * (-q)) by (nonlinear_arith)
        requires
            -x == d * q + 0,
    ;
    vstd::arithmetic::div_mod::lemma_mod_multiples_basic(-q, d);
    vstd::arithmetic::div_mod::lemma_div_multiples_vanish(-q, d);
    assert(d * (-q) == (-q) * d) by (nonlinear_arith);
}

proof fn lemma_neg_mod_nonzero(x: int, d: int)
    requires
        x < 0,
        d > 0,
        (-x) % d != 0,
    ensures
        x % d != 0,
{
    if x % d == 0 {
        lemma_fundamental_div_mod(x, d);
        let q = x / d;
        assert(-x == d * (-q)) by (nonlinear_arith)
            requires
                x == d * q + 0,
        ;
        vstd::arithmetic::div_mod::lemma_mod_multiples_basic(-q, d);
        assert(d * (-q) == (-q) * d) by (nonlinear_arith);
    }
}

} // verus!
