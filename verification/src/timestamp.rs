//! The store's native timestamp encoding: a decimal count of seconds (with
//! fractional precision) since 2001-01-01T00:00:00 UTC, 978307200 seconds
//! after the 1970 epoch. Decoding turns such a raw string into a UTC instant;
//! encoding renders an instant back into the raw decimal form.

use vstd::prelude::*;
use vstd::arithmetic::div_mod::lemma_fundamental_div_mod_converse;
use vstd::arithmetic::div_mod::lemma_fundamental_div_mod;
use vstd::arithmetic::mul::lemma_mul_strict_inequality;
use vstd::string::StrSliceExecFns;
use vstd::string::StringExecFns;

verus! {

/// Seconds between the 1970 epoch and the store's 2001 reference epoch.
pub const EPOCH_OFFSET_SECS: i64 = 978307200;

/// A UTC instant: whole seconds since the 1970 epoch, plus a sub-second
/// nanosecond remainder in `[0, 1_000_000_000)`.
#[derive(Debug, Clone, Copy, PartialEq, Eq, Structural)]
pub struct Instant {
    pub secs: i64,
    pub nanos: u32,
}

impl Instant {
    /// The nanosecond remainder is a proper sub-second amount.
    pub open spec fn wf(self) -> bool {
        self.nanos < 1_000_000_000
    }
}

/// Why a raw timestamp string failed to decode.
#[derive(Debug, Clone, Copy, PartialEq, Eq, Structural)]
pub enum DecodeError {
    /// The raw string is not a plain decimal number.
    NotDecimal,
    /// The decimal denotes an instant outside the representable range.
    OutOfRange,
}

/// A decimal digit character.
pub open spec fn is_dec_digit(c: char) -> bool {
    48 <= c as u32 && c as u32 <= 57
}

/// The numeric value of a decimal digit character.
pub open spec fn digit_val(c: char) -> nat {
    (c as u32 - 48) as nat
}

/// Every character of `s` is a decimal digit.
pub open spec fn all_digits(s: Seq<char>) -> bool {
    forall|k: int| 0 <= k < s.len() ==> is_dec_digit(#[trigger] s[k])
}

/// The value of a digit string read most-significant first.
pub open spec fn digits_value(s: Seq<char>) -> nat
    decreases s.len(),
{
    if s.len() == 0 {
        0
    } else {
        digits_value(s.drop_last()) * 10 + digit_val(s.last())
    }
}

/// Ten to the `n`.
pub open spec fn pow10(n: nat) -> nat
    decreases n,
{
    if n == 0 {
        1
    } else {
        10 * pow10((n - 1) as nat)
    }
}

/// The index of the first `'.'` at or after `i`, or the length if none.
pub open spec fn dot_pos(s: Seq<char>, i: int) -> int
    recommends
        0 <= i <= s.len(),
    decreases s.len() - i when 0 <= i <= s.len()
{
    if i >= s.len() {
        s.len() as int
    } else if s[i] == '.' {
        i
    } else {
        dot_pos(s, i + 1)
    }
}

/// Whether the raw string carries a leading minus sign.
pub open spec fn has_sign(s: Seq<char>) -> bool {
    s.len() > 0 && s[0] == '-'
}

/// Where the digits begin: after the sign if there is one.
pub open spec fn body_start(s: Seq<char>) -> int {
    if has_sign(s) {
        1
    } else {
        0
    }
}

/// The digits of the integer part, between the sign and the dot.
pub open spec fn int_digits(s: Seq<char>) -> Seq<char> {
    s.subrange(body_start(s), dot_pos(s, body_start(s)))
}

/// The digits after the dot, or empty if there is no dot.
pub open spec fn frac_digits(s: Seq<char>) -> Seq<char> {
    if dot_pos(s, body_start(s)) < s.len() {
        s.subrange(dot_pos(s, body_start(s)) + 1, s.len() as int)
    } else {
        Seq::empty()
    }
}

/// A plain decimal: an optional minus sign, at least one integer digit, an
/// optional dot, and only digits after the dot.
pub open spec fn is_decimal(s: Seq<char>) -> bool {
    &&& int_digits(s).len() > 0
    &&& all_digits(int_digits(s))
    &&& all_digits(frac_digits(s))
}

/// The nanoseconds denoted by the fractional digits: the first nine digits,
/// padded with zeros on the right; further digits are truncated away.
pub open spec fn frac_nanos(f: Seq<char>) -> nat {
    if f.len() >= 9 {
        digits_value(f.subrange(0, 9))
    } else {
        digits_value(f) * pow10((9 - f.len()) as nat)
    }
}

/// The magnitude of the raw decimal, in nanoseconds since the reference epoch.
pub open spec fn raw_magnitude_nanos(s: Seq<char>) -> nat {
    digits_value(int_digits(s)) * 1_000_000_000 + frac_nanos(frac_digits(s))
}

/// The denoted instant, in nanoseconds since the 1970 epoch.
pub open spec fn unix_nanos(s: Seq<char>) -> int {
    (if has_sign(s) {
        -(raw_magnitude_nanos(s) as int)
    } else {
        raw_magnitude_nanos(s) as int
    }) + 978307200 * 1_000_000_000
}

/// The whole-second part of the denoted instant (floor division).
pub open spec fn decoded_secs(s: Seq<char>) -> int {
    unix_nanos(s) / 1_000_000_000
}

/// The nanosecond remainder of the denoted instant.
pub open spec fn decoded_nanos(s: Seq<char>) -> int {
    unix_nanos(s) % 1_000_000_000
}

/// Whether the denoted instant's seconds fit the representation.
pub open spec fn in_instant_range(s: Seq<char>) -> bool {
    i64::MIN <= decoded_secs(s) <= i64::MAX
}

/// What `decode` returns for every raw string.
pub open spec fn spec_decode(s: Seq<char>) -> Result<Instant, DecodeError> {
    if !is_decimal(s) {
        Err(DecodeError::NotDecimal)
    } else if !in_instant_range(s) {
        Err(DecodeError::OutOfRange)
    } else {
        Ok(Instant { secs: decoded_secs(s) as i64, nanos: decoded_nanos(s) as u32 })
    }
}

proof fn lemma_dot_pos_bounds(s: Seq<char>, i: int)
    requires
        0 <= i <= s.len(),
    ensures
        i <= dot_pos(s, i) <= s.len(),
    decreases s.len() - i,
{
    if i < s.len() && s[i] != '.' {
        lemma_dot_pos_bounds(s, i + 1);
    }
}

/// A digit string's value is below ten to its length.
proof fn lemma_digits_value_bound(t: Seq<char>)
    requires
        all_digits(t),
    ensures
        digits_value(t) < pow10(t.len()),
    decreases t.len(),
{
    if t.len() > 0 {
        assert(all_digits(t.drop_last()));
        lemma_digits_value_bound(t.drop_last());
        assert(digit_val(t.last()) <= 9);
    }
}

proof fn lemma_pow10_adds(a: nat, b: nat)
    ensures
        pow10(a + b) == pow10(a) * pow10(b),
    decreases a,
{
    if a > 0 {
        lemma_pow10_adds((a - 1) as nat, b);
        let p1 = pow10((a - 1) as nat);
        let pb = pow10(b);
        assert(pow10(a + b) == 10 * pow10((a + b - 1) as nat));
        assert(pow10((a + b - 1) as nat) == p1 * pb);
        assert(pow10(a) == 10 * p1);
        assert(pow10(a) * pb == pow10(a + b)) by (nonlinear_arith)
            requires
                pow10(a) == 10 * p1,
                pow10(a + b) == 10 * (p1 * pb),
        ;
    } else {
        assert(a == 0);
        assert(pow10(a) == 1);
        assert(a + b == b);
        assert(pow10(a + b) == pow10(b));
    }
}

/// The fractional digits denote fewer than a second's worth of nanoseconds.
proof fn lemma_frac_nanos_bound(f: Seq<char>)
    requires
        all_digits(f),
    ensures
        frac_nanos(f) < 1_000_000_000,
{
    assert(pow10(9) == 1_000_000_000) by {
        reveal_with_fuel(pow10, 11);
    }
    if f.len() >= 9 {
        assert(all_digits(f.subrange(0, 9)));
        lemma_digits_value_bound(f.subrange(0, 9));
    } else {
        lemma_digits_value_bound(f);
        let l = f.len();
        let p = pow10((9 - l) as nat);
        lemma_pow10_adds(l, (9 - l) as nat);
        if digits_value(f) < pow10(l) {
            assert(p > 0) by {
                lemma_pow10_adds((9 - l) as nat, 0);
                lemma_digits_value_bound(Seq::empty());
                assert(pow10((9 - l) as nat) * pow10(9) >= 0);
                lemma_pow10_pos((9 - l) as nat);
            }
            lemma_mul_strict_inequality(digits_value(f) as int, pow10(l) as int, p as int);
            assert(digits_value(f) * p < pow10(l) * p);
        }
    }
}

proof fn lemma_pow10_pos(n: nat)
    ensures
        pow10(n) >= 1,
    decreases n,
{
    if n > 0 {
        lemma_pow10_pos((n - 1) as nat);
    }
}

/// Decodes a raw epoch-offset decimal timestamp into a UTC instant.
///
/// Fails with `NotDecimal` when the string is not a plain decimal and with
/// `OutOfRange` when the denoted instant's seconds overflow the
/// representation.
#[verifier::rlimit(100)]
pub fn decode(raw: &str) -> (r: Result<Instant, DecodeError>)
    ensures
        r == spec_decode(raw@),
        r matches Ok(inst) ==> inst.wf(),
{
    let ghost s = raw@;
    let n = raw.unicode_len();
    let neg = if n > 0 {
        raw.get_char(0) == '-'
    } else {
        false
    };
    proof {
        assert(neg == has_sign(s));
    }
    let start: usize = if neg {
        1
    } else {
        0
    };
    let ghost bs = body_start(s);
    proof {
        lemma_dot_pos_bounds(s, bs);
    }
    let ghost dp = dot_pos(s, bs);

    // First pass: find the dot and check every character's shape.
    let mut i: usize = start;
    let mut dot: usize = n;
    let mut seen_dot = false;
    while i < n
        invariant
            s == raw@,
            n == s.len(),
            start == bs,
            bs == body_start(s),
            dp == dot_pos(s, bs),
            start <= i <= n,
            !seen_dot ==> dot_pos(s, i as int) == dp && dot == n,
            seen_dot ==> dot == dp && bs <= dot < i,
            forall|k: int| start <= k < i && k != dp ==> is_dec_digit(#[trigger] s[k]),
        decreases n - i,
    {
        let c = raw.get_char(i);
        if c == '.' {
            if seen_dot {
                proof {
                    lemma_dot_pos_bounds(s, bs);
                    assert(frac_digits(s)[i - dp - 1] == '.');
                    assert(!is_dec_digit('.'));
                }
                return Err(DecodeError::NotDecimal);
            }
            seen_dot = true;
            dot = i;
            proof {
                assert(dot_pos(s, i as int) == i);
            }
        } else {
            let u = c as u32;
            if u < 48 || u > 57 {
                proof {
                    lemma_dot_pos_bounds(s, bs);
                    if !seen_dot {
                        assert(dot_pos(s, i as int) == dot_pos(s, i + 1));
                        lemma_dot_pos_bounds(s, i + 1);
                        assert(dot_pos(s, i as int) > i);
                        assert(int_digits(s).len() > i - bs);
                        assert(int_digits(s)[i - bs] == s[i as int]);
                        assert(!all_digits(int_digits(s)));
                    } else {
                        assert(frac_digits(s)[i - dp - 1] == s[i as int]);
                        assert(!all_digits(frac_digits(s)));
                    }
                }
                return Err(DecodeError::NotDecimal);
            }
            proof {
                if !seen_dot {
                    assert(dot_pos(s, i as int) == dot_pos(s, i + 1));
                }
            }
        }
        i += 1;
    }
    proof {
        if !seen_dot {
            assert(dot_pos(s, n as int) == n);
        }
        assert(dot == dp);
    }
    if dot == start {
        proof {
            assert(int_digits(s).len() == 0);
        }
        return Err(DecodeError::NotDecimal);
    }
    proof {
        assert(int_digits(s).len() > 0);
        assert(all_digits(int_digits(s))) by {
            assert(forall|k: int|
                0 <= k < int_digits(s).len() ==> is_dec_digit(#[trigger] int_digits(s)[k]));
        }
        assert(all_digits(frac_digits(s))) by {
            if dp < s.len() {
                assert(forall|k: int|
                    0 <= k < frac_digits(s).len() ==> is_dec_digit(#[trigger] frac_digits(s)[k]));
            }
        }
        assert(is_decimal(s));
    }

    // Second pass: the integer part's value, noting overflow past u64 range.
    let ghost ids = int_digits(s);
    let mut whole: u64 = 0;
    let mut big = false;
    let mut j = start;
    while j < dot
        invariant
            s == raw@,
            n == s.len(),
            start == bs,
            bs == body_start(s),
            dp == dot_pos(s, bs),
            dot == dp,
            ids == int_digits(s),
            is_decimal(s),
            start <= j <= dot <= n,
            !big ==> whole == digits_value(s.subrange(bs, j as int)),
            big ==> digits_value(s.subrange(bs, j as int)) > u64::MAX,
        decreases dot - j,
    {
        let c = raw.get_char(j);
        proof {
            assert(ids[j - bs] == s[j as int]);
            assert(is_dec_digit(s[j as int]));
        }
        let d = (c as u32 - 48) as u64;
        proof {
            assert(s.subrange(bs, j + 1).drop_last() =~= s.subrange(bs, j as int));
            assert(s.subrange(bs, j + 1).last() == s[j as int]);
            assert(digits_value(s.subrange(bs, j + 1))
                == digits_value(s.subrange(bs, j as int)) * 10 + digit_val(s[j as int]));
        }
        if !big {
            let w10 = whole.checked_mul(10);
            match w10 {
                Some(w10v) => {
                    match w10v.checked_add(d) {
                        Some(w) => {
                            whole = w;
                        },
                        None => {
                            big = true;
                        },
                    }
                },
                None => {
                    big = true;
                },
            }
        }
        j += 1;
    }
    let ghost wv = digits_value(ids);
    proof {
        assert(s.subrange(bs, dot as int) =~= ids);
    }

    // Third pass: the fractional part, truncated to nine digits.
    let ghost f = frac_digits(s);
    let mut fa: u64 = 0;
    proof {
        assert(pow10(0) == 1);
    }
    if dot < n {
        let fstart = dot + 1;
        proof {
            assert(f =~= s.subrange(fstart as int, n as int));
        }
        let lim = if n - fstart > 9 {
            fstart + 9
        } else {
            n
        };
        let mut k = fstart;
        while k < lim
            invariant
                s == raw@,
                n == s.len(),
                dp == dot_pos(s, bs),
                bs == body_start(s),
                dot == dp,
                fstart == dot + 1,
                f == frac_digits(s),
                f =~= s.subrange(fstart as int, n as int),
                is_decimal(s),
                fstart <= k <= lim <= n,
                lim - fstart <= 9,
                lim == if n - fstart > 9 { (fstart + 9) as int } else { n as int },
                fa == digits_value(f.subrange(0, k - fstart)),
                fa < pow10((k - fstart) as nat),
            decreases lim - k,
        {
            let c = raw.get_char(k);
            proof {
                assert(f[k - fstart] == s[k as int]);
                assert(is_dec_digit(s[k as int]));
            }
            let d = (c as u32 - 48) as u64;
            proof {
                assert(f.subrange(0, k - fstart + 1).drop_last() =~= f.subrange(0, k - fstart));
                assert(f.subrange(0, k - fstart + 1).last() == s[k as int]);
                reveal_with_fuel(pow10, 11);
                assert(pow10((k - fstart) as nat) <= pow10(8)) by {
                    lemma_pow10_le(((k - fstart)) as nat, 8);
                }
            }
            fa = fa * 10 + d;
            k += 1;
        }
        let seen = lim - fstart;
        if seen < 9 {
            proof {
                assert(f.subrange(0, seen as int) =~= f);
                lemma_pow10_adds(seen as nat, (9 - seen) as nat);
                lemma_pow10_pos((9 - seen) as nat);
                reveal_with_fuel(pow10, 11);
                if fa < pow10(seen as nat) {
                    lemma_mul_strict_inequality(
                        fa as int,
                        pow10(seen as nat) as int,
                        pow10((9 - seen) as nat) as int,
                    );
                }
            }
            fa = fa * pow10u(9 - seen);
            proof {
                assert(fa == frac_nanos(f));
            }
        } else {
            proof {
                assert(seen == 9);
                assert(f.len() >= 9);
                assert(f.subrange(0, 9) =~= f.subrange(0, seen as int));
                assert(fa == frac_nanos(f));
            }
        }
    } else {
        proof {
            assert(f =~= Seq::<char>::empty());
            assert(digits_value(f) == 0);
            assert(f.len() < 9);
            assert(frac_nanos(f) == digits_value(f) * pow10((9 - f.len()) as nat));
            assert(digits_value(f) * pow10((9 - f.len()) as nat) == 0) by (nonlinear_arith)
                requires
                    digits_value(f) == 0,
            ;
            assert(frac_nanos(f) == 0);
        }
    }
    let ghost fv = frac_nanos(f);
    proof {
        lemma_frac_nanos_bound(f);
        assert(fa == fv);
        assert(fv < 1_000_000_000);
    }

    // Combine sign, whole seconds and nanoseconds, watching the range.
    if big {
        proof {
            lemma_combine(s, wv as int, fv as int);
            if !has_sign(s) {
                assert(decoded_secs(s) == 978307200 + wv);
            } else {
                if fv == 0 {
                    assert(decoded_secs(s) == 978307200 - wv);
                } else {
                    assert(decoded_secs(s) == 978307200 - wv - 1);
                }
            }
        }
        return Err(DecodeError::OutOfRange);
    }
    proof {
        assert(whole == wv);
        lemma_combine(s, wv as int, fv as int);
    }
    if !neg {
        if whole > (i64::MAX as u64) - 978307200 {
            proof {
                assert(decoded_secs(s) == 978307200 + wv);
            }
            return Err(DecodeError::OutOfRange);
        }
        let secs = (whole as i64) + EPOCH_OFFSET_SECS;
        let nanos = fa as u32;
        proof {
            assert(decoded_secs(s) == secs as int);
            assert(decoded_nanos(s) == nanos as int);
        }
        Ok(Instant { secs, nanos })
    } else {
        if fa > 0 {
            if whole > (i64::MAX as u64) + 978307200 {
                proof {
                    assert(decoded_secs(s) == 978307200 - wv - 1);
                    assert(decoded_secs(s) < i64::MIN);
                }
                return Err(DecodeError::OutOfRange);
            }
            let secs = if whole <= 978307200 {
                ((978307200 - whole) as i64) - 1
            } else {
                let d = whole - 978307200;
                -(d as i64) - 1
            };
            let nanos = (1_000_000_000 - fa) as u32;
            proof {
                assert(decoded_secs(s) == secs as int);
                assert(decoded_nanos(s) == nanos as int);
            }
            Ok(Instant { secs, nanos })
        } else {
            if whole > ((i64::MAX as u64) + 978307200) + 1 {
                proof {
                    assert(decoded_secs(s) == 978307200 - wv);
                    assert(decoded_secs(s) < i64::MIN);
                }
                return Err(DecodeError::OutOfRange);
            }
            let secs = if whole <= 978307200 {
                (978307200 - whole) as i64
            } else {
                let d = whole - 978307200;
                if d == 9223372036854775808 {
                    i64::MIN
                } else {
                    -(d as i64)
                }
            };
            proof {
                assert(decoded_secs(s) == secs as int);
                assert(decoded_nanos(s) == 0);
            }
            Ok(Instant { secs, nanos: 0 })
        }
    }
}

proof fn lemma_pow10_le(a: nat, b: nat)
    requires
        a <= b,
    ensures
        pow10(a) <= pow10(b),
    decreases b,
{
    if a < b {
        lemma_pow10_le(a, (b - 1) as nat);
        lemma_pow10_pos((b - 1) as nat);
    }
}

/// Ties the decoded seconds and nanoseconds to the integer- and
/// fractional-part values, in each sign case.
proof fn lemma_combine(s: Seq<char>, w: int, fv: int)
    requires
        w == digits_value(int_digits(s)),
        fv == frac_nanos(frac_digits(s)),
        0 <= fv < 1_000_000_000,
    ensures
        !has_sign(s) ==> decoded_secs(s) == 978307200 + w && decoded_nanos(s) == fv,
        has_sign(s) && fv == 0 ==> decoded_secs(s) == 978307200 - w && decoded_nanos(s) == 0,
        has_sign(s) && fv > 0 ==> decoded_secs(s) == 978307200 - w - 1
            && decoded_nanos(s) == 1_000_000_000 - fv,
{
    let u = unix_nanos(s);
    if !has_sign(s) {
        assert(u == (978307200 + w) * 1_000_000_000 + fv) by (nonlinear_arith)
            requires
                u == (w * 1_000_000_000 + fv) + 978307200 * 1_000_000_000,
        ;
        lemma_fundamental_div_mod_converse(u, 1_000_000_000, 978307200 + w, fv);
    } else if fv == 0 {
        assert(u == (978307200 - w) * 1_000_000_000) by (nonlinear_arith)
            requires
                u == -(w * 1_000_000_000 + fv) + 978307200 * 1_000_000_000,
                fv == 0,
        ;
        lemma_fundamental_div_mod_converse(u, 1_000_000_000, 978307200 - w, 0);
    } else {
        assert(u == (978307200 - w - 1) * 1_000_000_000 + (1_000_000_000 - fv))
            by (nonlinear_arith)
            requires
                u == -(w * 1_000_000_000 + fv) + 978307200 * 1_000_000_000,
        ;
        lemma_fundamental_div_mod_converse(
            u,
            1_000_000_000,
            978307200 - w - 1,
            1_000_000_000 - fv,
        );
    }
}

/// The digit character for a value below ten.
pub open spec fn digit_char(d: nat) -> char {
    if d == 0 {
        '0'
    } else if d == 1 {
        '1'
    } else if d == 2 {
        '2'
    } else if d == 3 {
        '3'
    } else if d == 4 {
        '4'
    } else if d == 5 {
        '5'
    } else if d == 6 {
        '6'
    } else if d == 7 {
        '7'
    } else if d == 8 {
        '8'
    } else {
        '9'
    }
}

fn digit_str(d: u64) -> (r: &'static str)
    requires
        d < 10,
    ensures
        r@.len() == 1,
        r@[0] == digit_char(d as nat),
{
    proof {
        reveal_strlit("0");
        reveal_strlit("1");
        reveal_strlit("2");
        reveal_strlit("3");
        reveal_strlit("4");
        reveal_strlit("5");
        reveal_strlit("6");
        reveal_strlit("7");
        reveal_strlit("8");
        reveal_strlit("9");
    }
    if d == 0 {
        "0"
    } else if d == 1 {
        "1"
    } else if d == 2 {
        "2"
    } else if d == 3 {
        "3"
    } else if d == 4 {
        "4"
    } else if d == 5 {
        "5"
    } else if d == 6 {
        "6"
    } else if d == 7 {
        "7"
    } else if d == 8 {
        "8"
    } else {
        "9"
    }
}

/// How many digits the decimal rendering of `v` has.
pub open spec fn num_digits(v: nat) -> nat
    decreases v,
{
    if v < 10 {
        1
    } else {
        1 + num_digits(v / 10)
    }
}

proof fn lemma_num_digits_le(v: nat, k: nat)
    requires
        v < pow10(k),
        k >= 1,
    ensures
        num_digits(v) <= k,
    decreases k,
{
    if v >= 10 {
        assert(pow10(1) == 10) by {
            reveal_with_fuel(pow10, 3);
        }
        if k == 1 {
            assert(false);
        }
        let p = pow10((k - 1) as nat);
        assert(pow10(k) == 10 * p);
        assert(v / 10 < p) by (nonlinear_arith)
            requires
                v < 10 * p,
                p >= 1,
        ;
        lemma_num_digits_le(v / 10, (k - 1) as nat);
    }
}

fn u64_to_string(v: u64) -> (r: String)
    ensures
        all_digits(r@),
        r@.len() == num_digits(v as nat),
        digits_value(r@) == v,
    decreases v,
{
    if v < 10 {
        let s = digit_str(v).to_owned();
        proof {
            assert(s@.len() == 1);
            assert(s@.drop_last() =~= Seq::<char>::empty());
            assert(digits_value(Seq::<char>::empty()) == 0);
            assert(digits_value(s@) == digits_value(s@.drop_last()) * 10 + digit_val(s@.last()));
            assert(s@.last() == digit_char(v as nat));
            assert(digit_val(digit_char(v as nat)) == v);
        }
        s
    } else {
        proof {
            assert(v / 10 < v) by (nonlinear_arith)
                requires
                    v >= 10,
            ;
        }
        let mut s = u64_to_string(v / 10);
        let ghost s0 = s@;
        s.append(digit_str(v % 10));
        proof {
            assert(s@.drop_last() =~= s0);
            assert(s@.last() == digit_char((v % 10) as nat));
            assert(digit_val(digit_char((v % 10) as nat)) == v % 10);
            lemma_fundamental_div_mod(v as int, 10);
            assert(digits_value(s@) == digits_value(s0) * 10 + v % 10);
        }
        s
    }
}

/// A run of `k` zero digit characters.
pub open spec fn zero_digits(k: nat) -> Seq<char> {
    Seq::new(k, |i: int| '0')
}

proof fn lemma_zero_digits_value(k: nat)
    ensures
        digits_value(zero_digits(k)) == 0,
        all_digits(zero_digits(k)),
    decreases k,
{
    if k > 0 {
        lemma_zero_digits_value((k - 1) as nat);
        assert(zero_digits(k).drop_last() =~= zero_digits((k - 1) as nat));
        assert(zero_digits(k).last() == '0');
        assert(digit_val('0') == 0);
    }
}

/// A prefix of value zero, such as leading zero digits, does not change a
/// digit string's value.
proof fn lemma_zero_prefix_value(p: Seq<char>, t: Seq<char>)
    requires
        digits_value(p) == 0,
    ensures
        digits_value(p + t) == digits_value(t),
    decreases t.len(),
{
    if t.len() == 0 {
        assert(p + t =~= p);
    } else {
        lemma_zero_prefix_value(p, t.drop_last());
        assert((p + t).drop_last() =~= p + t.drop_last());
        assert((p + t).last() == t.last());
    }
}

proof fn lemma_dot_pos_skip(s: Seq<char>, i: int, j: int)
    requires
        0 <= i <= j <= s.len(),
        forall|k: int| i <= k < j ==> #[trigger] s[k] != '.',
    ensures
        dot_pos(s, i) == dot_pos(s, j),
    decreases j - i,
{
    if i < j {
        lemma_dot_pos_skip(s, i + 1, j);
    }
}

/// Renders a UTC instant in the raw epoch-offset decimal form. Decoding the
/// result yields the instant again: the round trip is exact.
#[verifier::rlimit(100)]
pub fn encode(inst: Instant) -> (r: String)
    requires
        inst.wf(),
    ensures
        spec_decode(r@) == Ok::<Instant, DecodeError>(inst),
{
    let a: i128 = (inst.secs as i128 - 978307200) * 1_000_000_000 + (inst.nanos as i128);
    let neg = a < 0;
    let m: u128 = if a < 0 {
        (-a) as u128
    } else {
        a as u128
    };
    let whole: u64 = (m / 1_000_000_000) as u64;
    let frac: u64 = (m % 1_000_000_000) as u64;
    proof {
        lemma_fundamental_div_mod(m as int, 1_000_000_000);
        assert(m / 1_000_000_000 < 0x1_0000_0000_0000_0000) by (nonlinear_arith)
            requires
                m <= (0x8000_0000_0000_0000u128 + 978307200) * 1_000_000_000 + 1_000_000_000,
        ;
    }
    let ws = u64_to_string(whole);
    let ghost wl = ws@.len();
    let mut out = String::new();
    proof {
        reveal_strlit("-");
        reveal_strlit(".");
        reveal_strlit("0");
    }
    if neg {
        out.append("-");
    }
    let ghost sgn: Seq<char> = if neg {
        seq!['-']
    } else {
        Seq::empty()
    };
    out.append(ws.as_str());
    proof {
        assert(out@ =~= sgn + ws@);
    }
    if frac > 0 {
        out.append(".");
        let fs = u64_to_string(frac);
        let fl = fs.unicode_len();
        proof {
            assert(pow10(9) == 1_000_000_000) by {
                reveal_with_fuel(pow10, 11);
            }
            lemma_num_digits_le(frac as nat, 9);
        }
        let pad = 9 - fl;
        let ghost base = sgn + ws@ + seq!['.'];
        proof {
            assert(out@ =~= base + zero_digits(0));
        }
        let mut z: usize = 0;
        while z < pad
            invariant
                z <= pad,
                pad == 9 - fl,
                fl == fs@.len(),
                out@ == base + zero_digits(z as nat),
            decreases pad - z,
        {
            proof {
                reveal_strlit("0");
            }
            out.append("0");
            z += 1;
            proof {
                assert(out@ =~= base + zero_digits(z as nat));
            }
        }
        out.append(fs.as_str());
        proof {
            lemma_encode_round_trip(out@, inst, neg, ws@, zero_digits(pad as nat), fs@, m as int);
        }
        out
    } else {
        proof {
            lemma_encode_round_trip_whole(out@, inst, neg, ws@, m as int);
        }
        out
    }
}

/// The rendered string with a fractional part decodes back to the instant.
#[verifier::rlimit(100)]
proof fn lemma_encode_round_trip(
    s: Seq<char>,
    inst: Instant,
    neg: bool,
    ws: Seq<char>,
    zs: Seq<char>,
    fs: Seq<char>,
    m: int,
)
    requires
        inst.wf(),
        s == (if neg {
            seq!['-']
        } else {
            Seq::<char>::empty()
        }) + ws + seq!['.'] + zs + fs,
        all_digits(ws),
        all_digits(fs),
        ws.len() >= 1,
        zs == zero_digits(zs.len()),
        zs.len() + fs.len() == 9,
        digits_value(ws) == m / 1_000_000_000,
        digits_value(fs) == m % 1_000_000_000,
        m % 1_000_000_000 > 0,
        m >= 0,
        (if neg {
            -m
        } else {
            m
        }) == (inst.secs - 978307200) * 1_000_000_000 + inst.nanos,
    ensures
        spec_decode(s) == Ok::<Instant, DecodeError>(inst),
{
    let bs = if neg {
        1int
    } else {
        0int
    };
    let wl = ws.len() as int;
    lemma_zero_digits_value(zs.len());
    // the sign
    assert(!is_dec_digit('-'));
    assert(has_sign(s) == neg) by {
        if neg {
            assert(s[0] == '-');
        } else {
            assert(s[0] == ws[0]);
            assert(is_dec_digit(s[0]));
        }
    }
    assert(body_start(s) == bs);
    // the dot stands right after the integer digits
    assert(forall|k: int| bs <= k < bs + wl ==> #[trigger] s[k] == ws[k - bs]);
    assert(forall|k: int| bs <= k < bs + wl ==> #[trigger] s[k] != '.');
    lemma_dot_pos_skip(s, bs, bs + wl);
    assert(s[bs + wl] == '.');
    assert(dot_pos(s, bs + wl) == bs + wl);
    let dp = bs + wl;
    assert(dot_pos(s, bs) == dp);
    // the integer part is exactly the rendered whole seconds
    assert(int_digits(s) =~= ws);
    // the fractional part is exactly the padded rendered nanoseconds
    assert(frac_digits(s) =~= zs + fs);
    assert(frac_digits(s).len() == 9);
    assert(all_digits(zs + fs)) by {
        assert(forall|k: int|
            0 <= k < zs.len() ==> is_dec_digit(#[trigger] (zs + fs)[k]));
        assert(forall|k: int|
            zs.len() <= k < zs.len() + fs.len() ==> is_dec_digit(#[trigger] (zs + fs)[k]));
    }
    assert(is_decimal(s));
    lemma_zero_prefix_value(zs, fs);
    assert((zs + fs).subrange(0, 9) =~= zs + fs);
    assert(frac_nanos(frac_digits(s)) == digits_value(fs));
    // the denoted value is the instant's value
    let w = digits_value(ws) as int;
    let fv = digits_value(fs) as int;
    lemma_fundamental_div_mod(m, 1_000_000_000);
    assert(raw_magnitude_nanos(s) == w * 1_000_000_000 + fv);
    assert(unix_nanos(s) == inst.secs * 1_000_000_000 + inst.nanos) by (nonlinear_arith)
        requires
            unix_nanos(s) == (if neg {
                -(w * 1_000_000_000 + fv)
            } else {
                w * 1_000_000_000 + fv
            }) + 978307200 * 1_000_000_000,
            w * 1_000_000_000 + fv == m,
            (if neg {
                -m
            } else {
                m
            }) == (inst.secs - 978307200) * 1_000_000_000 + inst.nanos,
    ;
    lemma_fundamental_div_mod_converse(
        unix_nanos(s),
        1_000_000_000,
        inst.secs as int,
        inst.nanos as int,
    );
    assert(decoded_secs(s) == inst.secs);
    assert(decoded_nanos(s) == inst.nanos);
    assert(in_instant_range(s));
}

/// The rendered string without a fractional part decodes back to the instant.
#[verifier::rlimit(100)]
proof fn lemma_encode_round_trip_whole(
    s: Seq<char>,
    inst: Instant,
    neg: bool,
    ws: Seq<char>,
    m: int,
)
    requires
        inst.wf(),
        s == (if neg {
            seq!['-']
        } else {
            Seq::<char>::empty()
        }) + ws,
        all_digits(ws),
        ws.len() >= 1,
        digits_value(ws) == m / 1_000_000_000,
        m % 1_000_000_000 == 0,
        m >= 0,
        (if neg {
            -m
        } else {
            m
        }) == (inst.secs - 978307200) * 1_000_000_000 + inst.nanos,
    ensures
        spec_decode(s) == Ok::<Instant, DecodeError>(inst),
{
    let bs = if neg {
        1int
    } else {
        0int
    };
    let wl = ws.len() as int;
    assert(!is_dec_digit('-'));
    assert(has_sign(s) == neg) by {
        if neg {
            assert(s[0] == '-');
        } else {
            assert(s[0] == ws[0]);
            assert(is_dec_digit(s[0]));
        }
    }
    assert(body_start(s) == bs);
    assert(forall|k: int| bs <= k < bs + wl ==> #[trigger] s[k] == ws[k - bs]);
    assert(forall|k: int| bs <= k < bs + wl ==> #[trigger] s[k] != '.');
    lemma_dot_pos_skip(s, bs, bs + wl);
    assert(bs + wl == s.len());
    assert(dot_pos(s, bs) == s.len());
    assert(int_digits(s) =~= ws);
    assert(frac_digits(s) =~= Seq::<char>::empty());
    assert(is_decimal(s));
    assert(digits_value(frac_digits(s)) == 0);
    assert(frac_nanos(frac_digits(s)) == digits_value(frac_digits(s)) * pow10(9));
    assert(frac_nanos(frac_digits(s)) == 0) by (nonlinear_arith)
        requires
            frac_nanos(frac_digits(s)) == digits_value(frac_digits(s)) * pow10(9),
            digits_value(frac_digits(s)) == 0,
    ;
    let w = digits_value(ws) as int;
    lemma_fundamental_div_mod(m, 1_000_000_000);
    assert(raw_magnitude_nanos(s) == w * 1_000_000_000);
    assert(unix_nanos(s) == inst.secs * 1_000_000_000 + inst.nanos) by (nonlinear_arith)
        requires
            unix_nanos(s) == (if neg {
                -(w * 1_000_000_000)
            } else {
                w * 1_000_000_000
            }) + 978307200 * 1_000_000_000,
            w * 1_000_000_000 == m,
            (if neg {
                -m
            } else {
                m
            }) == (inst.secs - 978307200) * 1_000_000_000 + inst.nanos,
    ;
    lemma_fundamental_div_mod_converse(
        unix_nanos(s),
        1_000_000_000,
        inst.secs as int,
        inst.nanos as int,
    );
    assert(in_instant_range(s));
}

fn pow10u(k: usize) -> (r: u64)
    requires
        k <= 9,
    ensures
        r == pow10(k as nat),
{
    proof {
        reveal_with_fuel(pow10, 11);
    }
    if k == 0 {
        1
    } else if k == 1 {
        10
    } else if k == 2 {
        100
    } else if k == 3 {
        1_000
    } else if k == 4 {
        10_000
    } else if k == 5 {
        100_000
    } else if k == 6 {
        1_000_000
    } else if k == 7 {
        10_000_000
    } else if k == 8 {
        100_000_000
    } else {
        1_000_000_000
    }
}

} // verus!
