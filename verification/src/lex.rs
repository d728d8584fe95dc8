//! Byte-level lexing of dump text: ASCII whitespace, token splitting, and
//! decimal integer reading and writing.

use vstd::prelude::*;

verus! {

/// Why a token failed to parse as an integer of the required width.
#[derive(Debug, Clone, Copy, PartialEq, Eq, Structural)]
pub enum IntErrorKind {
    /// The token was empty.
    Empty,
    /// A character of the token was not a decimal digit.
    InvalidDigit,
    /// The value was above the type's range.
    PosOverflow,
    /// The value was below the type's range.
    NegOverflow,
}

/// True for the ASCII whitespace bytes that separate tokens of a dump line.
/// The wire format is deliberately byte-oriented: only these six ASCII
/// bytes separate tokens, trim the header, and blank a line; non-ASCII
/// whitespace is an ordinary token byte and fails integer parsing.
pub open spec fn is_ws(b: u8) -> bool {
    b == 0x20 || b == 0x09 || b == 0x0a || b == 0x0b || b == 0x0c || b == 0x0d
}

/// True for an ASCII decimal digit byte.
pub open spec fn is_digit(b: u8) -> bool {
    0x30 <= b <= 0x39
}

/// Numeric value of a decimal digit byte.
pub open spec fn digit_val(b: u8) -> int
    recommends
        is_digit(b),
{
    b - 0x30
}

/// First index at or after `i` whose byte ends a token (whitespace or end).
pub open spec fn token_end_from(s: Seq<u8>, i: int) -> int
    recommends
        0 <= i <= s.len(),
    decreases s.len() - i when 0 <= i <= s.len()
{
    if i >= s.len() || is_ws(s[i]) {
        i
    } else {
        token_end_from(s, i + 1)
    }
}

pub proof fn lemma_token_end_from(s: Seq<u8>, i: int)
    requires
        0 <= i <= s.len(),
    ensures
        i <= token_end_from(s, i) <= s.len(),
        forall|j: int| i <= j < token_end_from(s, i) ==> !is_ws(s[j]),
        token_end_from(s, i) < s.len() ==> is_ws(s[token_end_from(s, i)]),
    decreases s.len() - i,
{
    if i < s.len() && !is_ws(s[i]) {
        lemma_token_end_from(s, i + 1);
    }
}

/// The sequence of whitespace-separated tokens of `s`, starting at `i`.
pub open spec fn tokens_from(s: Seq<u8>, i: int) -> Seq<Seq<u8>>
    recommends
        0 <= i <= s.len(),
    decreases s.len() - i when 0 <= i <= s.len() via tokens_from_decreases
{
    if i >= s.len() {
        Seq::empty()
    } else if is_ws(s[i]) {
        tokens_from(s, i + 1)
    } else {
        seq![s.subrange(i, token_end_from(s, i))] + tokens_from(s, token_end_from(s, i))
    }
}

#[via_fn]
proof fn tokens_from_decreases(s: Seq<u8>, i: int) {
    if 0 <= i < s.len() && !is_ws(s[i]) {
        lemma_token_end_from(s, i);
        assert(token_end_from(s, i) == token_end_from(s, i + 1));
    }
}

/// The whitespace-separated tokens of a whole byte sequence.
pub open spec fn spec_tokens(s: Seq<u8>) -> Seq<Seq<u8>> {
    tokens_from(s, 0)
}

/// Decides [`is_ws`] for one byte.
pub fn is_ws_byte(b: u8) -> (r: bool)
    ensures
        r == is_ws(b),
{
    b == 0x20 || b == 0x09 || b == 0x0a || b == 0x0b || b == 0x0c || b == 0x0d
}

/// Splits a byte slice into its whitespace-separated tokens, each given as a
/// half-open index range into the slice.
pub fn tokenize(bytes: &[u8]) -> (r: Vec<(usize, usize)>)
    ensures
        r@.map_values(|t: (usize, usize)| bytes@.subrange(t.0 as int, t.1 as int))
            == spec_tokens(bytes@),
        forall|k: int| 0 <= k < r@.len()
            ==> #[trigger] r@[k].0 < r@[k].1 <= bytes@.len(),
{
    let ghost s = bytes@;
    let mut r: Vec<(usize, usize)> = Vec::new();
    let mut i: usize = 0;
    while i < bytes.len()
        invariant
            0 <= i <= s.len(),
            s == bytes@,
            spec_tokens(s) == r@.map_values(|t: (usize, usize)|
                s.subrange(t.0 as int, t.1 as int)) + tokens_from(s, i as int),
            forall|k: int| 0 <= k < r@.len()
                ==> #[trigger] r@[k].0 < r@[k].1 <= s.len(),
        decreases s.len() - i,
    {
        if is_ws_byte(bytes[i]) {
            i += 1;
        } else {
            let start = i;
            let mut j = i + 1;
            proof {
                lemma_token_end_from(s, start as int);
            }
            while j < bytes.len() && !is_ws_byte(bytes[j])
                invariant
                    s == bytes@,
                    start < j <= s.len(),
                    forall|m: int| start <= m < j ==> !is_ws(s[m]),
                decreases s.len() - j,
            {
                j += 1;
            }
            proof {
                lemma_token_end_from(s, start as int);
                assert(token_end_from(s, start as int) == j as int) by {
                    let e = token_end_from(s, start as int);
                    if e < j as int {
                        assert(!is_ws(s[e]));
                    }
                    if e > j as int {
                        assert(!is_ws(s[j as int]));
                    }
                };
            }
            let ghost r_old = r@;
            r.push((start, j));
            proof {
                let f = |t: (usize, usize)| s.subrange(t.0 as int, t.1 as int);
                assert(r@.map_values(f) =~= r_old.map_values(f).push(
                    s.subrange(start as int, j as int)));
            }
            i = j;
        }
    }
    proof {
        assert(r@.map_values(|t: (usize, usize)| s.subrange(t.0 as int, t.1 as int))
            + tokens_from(s, i as int)
            =~= r@.map_values(|t: (usize, usize)| s.subrange(t.0 as int, t.1 as int)));
    }
    r
}

/// Index of the first byte of `t` that is not a decimal digit, or `t.len()`.
pub open spec fn first_nondigit(t: Seq<u8>) -> int
    decreases t.len(),
{
    if t.len() == 0 {
        0
    } else if !is_digit(t[0]) {
        0
    } else {
        1 + first_nondigit(t.drop_first())
    }
}

pub proof fn lemma_first_nondigit(t: Seq<u8>)
    ensures
        0 <= first_nondigit(t) <= t.len(),
        forall|j: int| 0 <= j < first_nondigit(t) ==> is_digit(t[j]),
        first_nondigit(t) < t.len() ==> !is_digit(t[first_nondigit(t)]),
    decreases t.len(),
{
    if t.len() > 0 && is_digit(t[0]) {
        lemma_first_nondigit(t.drop_first());
        assert forall|j: int| 0 <= j < first_nondigit(t) implies is_digit(t[j]) by {
            if j > 0 {
                assert(is_digit(t.drop_first()[j - 1]));
            }
        };
    }
}

/// Value of an all-digit byte sequence read as a base-10 numeral.
pub open spec fn dec_val(t: Seq<u8>) -> int
    recommends
        forall|j: int| 0 <= j < t.len() ==> is_digit(t[j]),
    decreases t.len(),
{
    if t.len() == 0 {
        0
    } else {
        dec_val(t.drop_last()) * 10 + digit_val(t.last())
    }
}

proof fn lemma_dec_val_step(t: Seq<u8>, m: int)
    requires
        0 < m <= t.len(),
    ensures
        dec_val(t.take(m)) == dec_val(t.take(m - 1)) * 10 + digit_val(t[m - 1]),
{
    assert(t.take(m).drop_last() =~= t.take(m - 1));
    assert(t.take(m).last() == t[m - 1]);
}

pub proof fn lemma_dec_val_prefix(t: Seq<u8>, i: int, m: int)
    requires
        0 <= i <= m <= t.len(),
        forall|j: int| 0 <= j < m ==> is_digit(t[j]),
    ensures
        0 <= dec_val(t.take(i)) <= dec_val(t.take(m)),
    decreases m - i,
{
    if m == i {
        lemma_dec_val_nonneg(t, i);
    } else {
        lemma_dec_val_prefix(t, i, m - 1);
        lemma_dec_val_step(t, m);
    }
}

pub proof fn lemma_dec_val_nonneg(t: Seq<u8>, m: int)
    requires
        0 <= m <= t.len(),
        forall|j: int| 0 <= j < m ==> is_digit(t[j]),
    ensures
        dec_val(t.take(m)) >= 0,
    decreases m,
{
    if m > 0 {
        lemma_dec_val_nonneg(t, m - 1);
        lemma_dec_val_step(t, m);
    }
}

/// Outcome of reading an unsigned run of digits against a magnitude cap:
/// the exact value, or the reason the read fails.  An overflow is reported
/// as soon as the digits read so far exceed the cap, as a bad digit is only
/// reached after every digit before it was accumulated.
pub open spec fn spec_parse_digits(d: Seq<u8>, max_mag: int) -> Result<int, IntErrorKind> {
    if d.len() == 0 {
        Err(IntErrorKind::InvalidDigit)
    } else if dec_val(d.take(first_nondigit(d))) > max_mag {
        Err(IntErrorKind::PosOverflow)
    } else if first_nondigit(d) < d.len() {
        Err(IntErrorKind::InvalidDigit)
    } else {
        Ok(dec_val(d))
    }
}

/// Outcome of reading a whole token as a decimal integer in `[lo, hi]`,
/// after the rules of `str::parse` on integer types: an optional `+` sign,
/// a `-` sign only when the type is signed (`lo < 0`), then digits.
pub open spec fn spec_parse_int(t: Seq<u8>, lo: int, hi: int) -> Result<int, IntErrorKind> {
    if t.len() == 0 {
        Err(IntErrorKind::Empty)
    } else if t[0] == 0x2b {
        spec_parse_digits(t.drop_first(), hi)
    } else if lo < 0 && t[0] == 0x2d {
        match spec_parse_digits(t.drop_first(), -lo) {
            Ok(v) => Ok(-v),
            Err(IntErrorKind::PosOverflow) => Err(IntErrorKind::NegOverflow),
            Err(k) => Err(k),
        }
    } else {
        spec_parse_digits(t, hi)
    }
}

/// Reads the digit run `bytes[start..end]` as an unsigned value of at most
/// `max_mag`, reporting exactly what [`spec_parse_digits`] says.
fn parse_digits_exec(bytes: &[u8], start: usize, end: usize, max_mag: u64) -> (r: Result<
    u64,
    IntErrorKind,
>)
    requires
        start <= end <= bytes@.len(),
        max_mag >= 9,
    ensures
        ({
            let d = bytes@.subrange(start as int, end as int);
            match r {
                Ok(v) => v <= max_mag && spec_parse_digits(d, max_mag as int) == Ok::<
                    int,
                    IntErrorKind,
                >(v as int),
                Err(k) => spec_parse_digits(d, max_mag as int) == Err::<int, IntErrorKind>(k),
            }
        }),
{
    let ghost d = bytes@.subrange(start as int, end as int);
    proof {
        lemma_first_nondigit(d);
    }
    if start == end {
        return Err(IntErrorKind::InvalidDigit);
    }
    let mut acc: u64 = 0;
    let mut j = start;
    while j < end
        invariant
            start <= j <= end <= bytes@.len(),
            max_mag >= 9,
            d == bytes@.subrange(start as int, end as int),
            forall|m: int| 0 <= m < j - start ==> is_digit(d[m]),
            acc <= max_mag,
            acc == dec_val(d.take(j - start)),
        decreases end - j,
    {
        let b = bytes[j];
        proof {
            assert(d[j - start] == b);
            lemma_first_nondigit(d);
        }
        if b < 0x30 || b > 0x39 {
            proof {
                let fb = first_nondigit(d);
                assert(fb == j - start) by {
                    if fb < j - start {
                        assert(is_digit(d[fb]));
                    }
                };
            }
            return Err(IntErrorKind::InvalidDigit);
        }
        let dig = (b - 0x30) as u64;
        proof {
            vstd::arithmetic::div_mod::lemma_fundamental_div_mod(
                max_mag as int - dig as int,
                10,
            );
        }
        if acc > (max_mag - dig) / 10 {
            proof {
                let fb = first_nondigit(d);
                assert(acc * 10 + dig > max_mag);
                lemma_dec_val_step(d, j - start + 1);
                assert(fb >= j - start + 1) by {
                    if fb <= j - start {
                        assert(is_digit(d[fb]));
                    }
                };
                lemma_dec_val_prefix(d, j - start + 1, fb);
            }
            return Err(IntErrorKind::PosOverflow);
        }
        proof {
            assert(acc * 10 + dig <= max_mag);
            lemma_dec_val_step(d, j - start + 1);
        }
        acc = acc * 10 + dig;
        j += 1;
    }
    proof {
        let fb = first_nondigit(d);
        lemma_first_nondigit(d);
        assert(fb == d.len()) by {
            if fb < d.len() {
                assert(is_digit(d[fb]));
            }
        };
        assert(d.take(d.len() as int) =~= d);
    }
    Ok(acc)
}

/// Reads a whole token as an `i32`, as `str::parse::<i32>` would.
pub fn parse_i32_tok(bytes: &[u8], start: usize, end: usize) -> (r: Result<i32, IntErrorKind>)
    requires
        start <= end <= bytes@.len(),
    ensures
        ({
            let t = bytes@.subrange(start as int, end as int);
            match r {
                Ok(v) => spec_parse_int(t, i32::MIN as int, i32::MAX as int) == Ok::<
                    int,
                    IntErrorKind,
                >(v as int),
                Err(k) => spec_parse_int(t, i32::MIN as int, i32::MAX as int) == Err::<
                    int,
                    IntErrorKind,
                >(k),
            }
        }),
{
    let ghost t = bytes@.subrange(start as int, end as int);
    if start == end {
        return Err(IntErrorKind::Empty);
    }
    let first = bytes[start];
    if first == 0x2b {
        proof {
            assert(t.drop_first() =~= bytes@.subrange(start as int + 1, end as int));
        }
        match parse_digits_exec(bytes, start + 1, end, 0x7fff_ffff) {
            Ok(v) => Ok(v as i32),
            Err(k) => Err(k),
        }
    } else if first == 0x2d {
        proof {
            assert(t.drop_first() =~= bytes@.subrange(start as int + 1, end as int));
        }
        match parse_digits_exec(bytes, start + 1, end, 0x8000_0000) {
            Ok(v) => Ok((-(v as i64)) as i32),
            Err(IntErrorKind::PosOverflow) => Err(IntErrorKind::NegOverflow),
            Err(k) => Err(k),
        }
    } else {
        match parse_digits_exec(bytes, start, end, 0x7fff_ffff) {
            Ok(v) => Ok(v as i32),
            Err(k) => Err(k),
        }
    }
}

/// Reads a whole token as a `u8`, as `str::parse::<u8>` would.
pub fn parse_u8_tok(bytes: &[u8], start: usize, end: usize) -> (r: Result<u8, IntErrorKind>)
    requires
        start <= end <= bytes@.len(),
    ensures
        ({
            let t = bytes@.subrange(start as int, end as int);
            match r {
                Ok(v) => spec_parse_int(t, 0, u8::MAX as int) == Ok::<int, IntErrorKind>(
                    v as int,
                ),
                Err(k) => spec_parse_int(t, 0, u8::MAX as int) == Err::<int, IntErrorKind>(k),
            }
        }),
{
    let ghost t = bytes@.subrange(start as int, end as int);
    if start == end {
        return Err(IntErrorKind::Empty);
    }
    let s2 = if bytes[start] == 0x2b {
        proof {
            assert(t.drop_first() =~= bytes@.subrange(start as int + 1, end as int));
        }
        start + 1
    } else {
        start
    };
    match parse_digits_exec(bytes, s2, end, 255) {
        Ok(v) => Ok(v as u8),
        Err(k) => Err(k),
    }
}

/// Reads a whole token as a `u32`, as `str::parse::<u32>` would.
pub fn parse_u32_tok(bytes: &[u8], start: usize, end: usize) -> (r: Result<u32, IntErrorKind>)
    requires
        start <= end <= bytes@.len(),
    ensures
        ({
            let t = bytes@.subrange(start as int, end as int);
            match r {
                Ok(v) => spec_parse_int(t, 0, u32::MAX as int) == Ok::<int, IntErrorKind>(
                    v as int,
                ),
                Err(k) => spec_parse_int(t, 0, u32::MAX as int) == Err::<int, IntErrorKind>(k),
            }
        }),
{
    let ghost t = bytes@.subrange(start as int, end as int);
    if start == end {
        return Err(IntErrorKind::Empty);
    }
    let s2 = if bytes[start] == 0x2b {
        proof {
            assert(t.drop_first() =~= bytes@.subrange(start as int + 1, end as int));
        }
        start + 1
    } else {
        start
    };
    match parse_digits_exec(bytes, s2, end, 0xffff_ffff) {
        Ok(v) => Ok(v as u32),
        Err(k) => Err(k),
    }
}

/// Reads a whole token as a `usize`, as `str::parse::<usize>` would.
pub fn parse_usize_tok(bytes: &[u8], start: usize, end: usize) -> (r: Result<usize, IntErrorKind>)
    requires
        start <= end <= bytes@.len(),
    ensures
        ({
            let t = bytes@.subrange(start as int, end as int);
            match r {
                Ok(v) => spec_parse_int(t, 0, usize::MAX as int) == Ok::<int, IntErrorKind>(
                    v as int,
                ),
                Err(k) => spec_parse_int(t, 0, usize::MAX as int) == Err::<int, IntErrorKind>(
                    k,
                ),
            }
        }),
{
    let ghost t = bytes@.subrange(start as int, end as int);
    if start == end {
        return Err(IntErrorKind::Empty);
    }
    let s2 = if bytes[start] == 0x2b {
        proof {
            assert(t.drop_first() =~= bytes@.subrange(start as int + 1, end as int));
        }
        start + 1
    } else {
        start
    };
    match parse_digits_exec(bytes, s2, end, usize::MAX as u64) {
        Ok(v) => Ok(v as usize),
        Err(k) => Err(k),
    }
}

/// The shortest base-10 numeral of a nonnegative value.
pub open spec fn spec_dec_mag(n: int) -> Seq<u8>
    recommends
        n >= 0,
    decreases n when n >= 0 via spec_dec_mag_decreases
{
    if n < 10 {
        seq![(0x30 + n) as u8]
    } else {
        spec_dec_mag(n / 10).push((0x30 + n % 10) as u8)
    }
}

#[via_fn]
proof fn spec_dec_mag_decreases(n: int) {
    if n >= 10 {
        vstd::arithmetic::div_mod::lemma_fundamental_div_mod(n, 10);
    }
}

/// The base-10 numeral of a signed value, with a leading `-` when negative.
pub open spec fn spec_dec_int(v: int) -> Seq<u8> {
    if v < 0 {
        seq![0x2du8] + spec_dec_mag(-v)
    } else {
        spec_dec_mag(v)
    }
}

/// The numeral of a nonnegative value is a nonempty digit run with that value.
pub proof fn lemma_dec_mag(n: int)
    requires
        n >= 0,
    ensures
        spec_dec_mag(n).len() >= 1,
        forall|j: int| 0 <= j < spec_dec_mag(n).len() ==> is_digit(#[trigger] spec_dec_mag(n)[j]),
        dec_val(spec_dec_mag(n)) == n,
    decreases n,
{
    if n < 10 {
        let t = spec_dec_mag(n);
        reveal_with_fuel(dec_val, 2);
        assert(t.drop_last() =~= Seq::<u8>::empty());
        assert(dec_val(t) == dec_val(t.drop_last()) * 10 + digit_val(t.last()));
    } else {
        vstd::arithmetic::div_mod::lemma_fundamental_div_mod(n, 10);
        lemma_dec_mag(n / 10);
        let t = spec_dec_mag(n);
        assert(t.drop_last() =~= spec_dec_mag(n / 10));
        assert forall|j: int| 0 <= j < t.len() implies is_digit(t[j]) by {
            if j < t.len() - 1 {
                assert(is_digit(spec_dec_mag(n / 10)[j]));
            }
        };
    }
}

/// Reading back the numeral of `n` gives `n` whenever `n` fits the cap.
pub proof fn lemma_parse_dec_mag(n: int, max_mag: int)
    requires
        0 <= n <= max_mag,
    ensures
        spec_parse_digits(spec_dec_mag(n), max_mag) == Ok::<int, IntErrorKind>(n),
{
    lemma_dec_mag(n);
    let t = spec_dec_mag(n);
    lemma_first_nondigit(t);
    let fb = first_nondigit(t);
    assert(fb == t.len()) by {
        if fb < t.len() {
            assert(is_digit(t[fb]));
        }
    };
    assert(t.take(t.len() as int) =~= t);
}

/// Reading back the numeral of `v` gives `v` whenever `v` lies in the range.
pub proof fn lemma_parse_dec_int(v: int, lo: int, hi: int)
    requires
        lo <= v <= hi,
        hi >= 0,
    ensures
        spec_parse_int(spec_dec_int(v), lo, hi) == Ok::<int, IntErrorKind>(v),
{
    if v < 0 {
        let t = spec_dec_int(v);
        lemma_dec_mag(-v);
        assert(t[0] == 0x2d);
        assert(!is_digit(0x2du8));
        assert(t.drop_first() =~= spec_dec_mag(-v));
        lemma_parse_dec_mag(-v, -lo);
    } else {
        let t = spec_dec_int(v);
        lemma_dec_mag(v);
        assert(is_digit(t[0]));
        lemma_parse_dec_mag(v, hi);
    }
}

/// Appends the base-10 numeral of `n` to `out`.
pub fn push_dec_u64(out: &mut Vec<u8>, n: u64)
    ensures
        final(out)@ == old(out)@ + spec_dec_mag(n as int),
    decreases n,
{
    if n >= 10 {
        proof {
            vstd::arithmetic::div_mod::lemma_fundamental_div_mod(n as int, 10);
        }
        push_dec_u64(out, n / 10);
        out.push(0x30 + (n % 10) as u8);
        proof {
            assert(out@ =~= old(out)@ + spec_dec_mag(n as int));
        }
    } else {
        out.push(0x30 + n as u8);
        proof {
            assert(out@ =~= old(out)@ + spec_dec_mag(n as int));
        }
    }
}

/// Appends the signed base-10 numeral of `v` to `out`.
pub fn push_dec_i32(out: &mut Vec<u8>, v: i32)
    ensures
        final(out)@ == old(out)@ + spec_dec_int(v as int),
{
    if v < 0 {
        out.push(0x2d);
        let mag = (-(v as i64)) as u64;
        push_dec_u64(out, mag);
        proof {
            assert(out@ =~= old(out)@ + spec_dec_int(v as int));
        }
    } else {
        push_dec_u64(out, v as u64);
    }
}

} // verus!
