//! Decimal-aware conversions between raw atoms or ticks and display units.
//! Integer math only: widen, multiply, divide with explicit rounding.

use vstd::prelude::*;

verus! {

/// How an inexact division is resolved.
#[derive(Clone, Copy, Debug, PartialEq, Eq, Structural)]
pub enum Rounding {
    Down,
    Up,
    Nearest,
}

/// Why a conversion could not be completed exactly.
#[derive(Clone, Copy, Debug, PartialEq, Eq, Structural)]
pub enum ScaleError {
    /// Not a plain unsigned decimal (signed, exponent, empty or non-digit).
    Malformed,
    /// More fractional digits than the target can represent.
    TooPrecise,
    /// The exact result does not fit the target type.
    Overflow,
    /// A market parameter was zero where a divisor is required.
    DivideByZero,
}

impl ScaleError {
    /// What the error says.
    pub open spec fn spec_message(self) -> Seq<char> {
        match self {
            ScaleError::Malformed => "not a plain unsigned decimal"@,
            ScaleError::TooPrecise => "more fractional digits than representable"@,
            ScaleError::Overflow => "result does not fit the target type"@,
            ScaleError::DivideByZero => "market parameter is zero"@,
        }
    }

    /// What the error says.
    pub fn message(&self) -> (r: &'static str)
        ensures
            r@ == self.spec_message(),
    {
        match self {
            ScaleError::Malformed => "not a plain unsigned decimal",
            ScaleError::TooPrecise => "more fractional digits than representable",
            ScaleError::Overflow => "result does not fit the target type",
            ScaleError::DivideByZero => "market parameter is zero",
        }
    }
}

/// Ten to the power of `n`.
pub open spec fn ten(n: nat) -> int
    decreases n,
{
    if n == 0 {
        1
    } else {
        10 * ten((n - 1) as nat)
    }
}

pub proof fn lemma_ten_positive(n: nat)
    ensures
        ten(n) >= 1,
    decreases n,
{
    if n > 0 {
        lemma_ten_positive((n - 1) as nat);
    }
}

proof fn lemma_ten_grows(a: nat, b: nat)
    requires
        a <= b,
    ensures
        ten(a) <= ten(b),
    decreases b,
{
    if a < b {
        lemma_ten_grows(a, (b - 1) as nat);
        lemma_ten_positive((b - 1) as nat);
    }
}

/// `v` if it fits.
pub open spec fn fits(v: int) -> Result<int, ScaleError> {
    if v > u128::MAX {
        Err(ScaleError::Overflow)
    } else {
        Ok(v)
    }
}

/// Division with an explicit rounding; halves round up.
pub open spec fn divided(x: int, d: int, rounding: Rounding) -> int {
    match rounding {
        Rounding::Down => x / d,
        Rounding::Up => if x % d > 0 {
            x / d + 1
        } else {
            x / d
        },
        Rounding::Nearest => if x % d * 2 >= d {
            x / d + 1
        } else {
            x / d
        },
    }
}

/// `x * y / d`, resolved with `rounding`.
pub open spec fn scaled(x: int, y: int, d: int, rounding: Rounding) -> Result<int, ScaleError> {
    if d == 0 {
        Err(ScaleError::DivideByZero)
    } else if x * y > u128::MAX {
        Err(ScaleError::Overflow)
    } else {
        fits(divided(x * y, d, rounding))
    }
}

/// `x * y / denominator` in 128 bits, resolved with `rounding`.
fn mul_div(x: u128, y: u128, denominator: u128, rounding: Rounding) -> (r: Result<
    u128,
    ScaleError,
>)
    ensures
        match r {
            Ok(v) => scaled(x as int, y as int, denominator as int, rounding) == Ok::<
                int,
                ScaleError,
            >(v as int),
            Err(e) => scaled(x as int, y as int, denominator as int, rounding) == Err::<
                int,
                ScaleError,
            >(e),
        },
{
    if denominator == 0 {
        return Err(ScaleError::DivideByZero);
    }
    let prod: u128 = match x.checked_mul(y) {
        Some(p) => p,
        None => {
            return Err(ScaleError::Overflow);
        },
    };
    let quotient: u128 = prod / denominator;
    let remainder: u128 = prod % denominator;
    proof {
        let p = prod as int;
        let d = denominator as int;
        assert(p / d <= p) by (nonlinear_arith)
            requires
                p >= 0,
                d >= 1,
        ;
    }
    let round_up: bool = match rounding {
        Rounding::Down => false,
        Rounding::Up => remainder > 0,
        // If twice the remainder overflows, it exceeds any denominator.
        Rounding::Nearest => remainder > u128::MAX / 2 || remainder * 2 >= denominator,
    };
    if round_up {
        match quotient.checked_add(1) {
            Some(v) => Ok(v),
            None => Err(ScaleError::Overflow),
        }
    } else {
        Ok(quotient)
    }
}

/// Ten to the power of `exp`, if it fits.
fn pow10(exp: u32) -> (r: Result<u128, ScaleError>)
    ensures
        match r {
            Ok(v) => ten(exp as nat) == v,
            Err(e) => ten(exp as nat) > u128::MAX && e == ScaleError::Overflow,
        },
{
    let mut v: u128 = 1;
    let mut i: u32 = 0;
    while i < exp
        invariant
            i <= exp,
            v == ten(i as nat),
        decreases exp - i,
    {
        match v.checked_mul(10) {
            Some(x) => {
                v = x;
            },
            None => {
                proof {
                    lemma_ten_grows((i + 1) as nat, exp as nat);
                }
                return Err(ScaleError::Overflow);
            },
        }
        i = i + 1;
    }
    Ok(v)
}

/// The character of a digit.
pub open spec fn digit_char(d: int) -> char {
    (0x30 + d) as char
}

/// An integer in decimal notation.
pub open spec fn digits(n: int) -> Seq<char>
    decreases n,
{
    if n < 10 {
        seq![digit_char(n)]
    } else {
        digits(n / 10).push(digit_char(n % 10))
    }
}

/// The last `width` decimal digits of an integer.
pub open spec fn padded(n: int, width: nat) -> Seq<char>
    decreases width,
{
    if width == 0 {
        seq![]
    } else {
        padded(n / 10, (width - 1) as nat).push(digit_char(n % 10))
    }
}

/// A scaled integer as a decimal with `decimals` places.
pub open spec fn rendered(value: int, decimals: u8) -> Result<Seq<char>, ScaleError> {
    let p = ten(decimals as nat);
    if p > u128::MAX {
        Err(ScaleError::Overflow)
    } else if decimals == 0 {
        Ok(digits(value))
    } else {
        Ok(digits(value / p) + seq!['.'] + padded(value % p, decimals as nat))
    }
}

/// The character of a digit.
fn to_char(d: u8) -> (r: char)
    requires
        d < 10,
    ensures
        r == digit_char(d as int),
{
    (0x30 + d) as char
}

/// Push the decimal digits of an integer.
fn push_digits(v: &mut Vec<char>, n: u128)
    ensures
        final(v)@ == old(v)@ + digits(n as int),
    decreases n,
{
    if n >= 10 {
        push_digits(v, n / 10);
    }
    v.push(to_char((n % 10) as u8));
    assert(v@ =~= old(v)@ + digits(n as int));
}

/// Push the last `width` decimal digits of an integer.
fn push_padded(v: &mut Vec<char>, n: u128, width: usize)
    ensures
        final(v)@ == old(v)@ + padded(n as int, width as nat),
    decreases width,
{
    if width > 0 {
        push_padded(v, n / 10, width - 1);
        v.push(to_char((n % 10) as u8));
    }
    assert(v@ =~= old(v)@ + padded(n as int, width as nat));
}

/// `<String as FromIterator<&char>>::from_iter` of the standard library: the
/// string of these characters, in order.
#[verifier::external_body]
fn text_of(v: &Vec<char>) -> (r: String)
    ensures
        r@ == v@,
{
    String::from_iter(v.iter())
}

/// Render a scaled integer as a decimal string with `decimals` places.
fn render(value: u128, decimals: u8) -> (r: Result<String, ScaleError>)
    ensures
        match r {
            Ok(s) => rendered(value as int, decimals) == Ok::<Seq<char>, ScaleError>(s@),
            Err(e) => rendered(value as int, decimals) == Err::<Seq<char>, ScaleError>(e),
        },
{
    let pow: u128 = match pow10(decimals as u32) {
        Ok(p) => p,
        Err(e) => {
            return Err(e);
        },
    };
    proof {
        lemma_ten_positive(decimals as nat);
    }
    let mut v: Vec<char> = Vec::new();
    if decimals == 0 {
        push_digits(&mut v, value);
        assert(v@ =~= digits(value as int));
        return Ok(text_of(&v));
    }
    push_digits(&mut v, value / pow);
    v.push('.');
    push_padded(&mut v, value % pow, decimals as usize);
    assert(v@ =~= digits(value as int / pow as int) + seq!['.'] + padded(
        value as int % pow as int,
        decimals as nat,
    ));
    Ok(text_of(&v))
}

/// The Unicode property White_Space.
pub open spec fn is_space(c: char) -> bool {
    let u = c as u32;
    ||| 0x9 <= u <= 0xd
    ||| u == 0x20
    ||| u == 0x85
    ||| u == 0xa0
    ||| u == 0x1680
    ||| 0x2000 <= u <= 0x200a
    ||| u == 0x2028
    ||| u == 0x2029
    ||| u == 0x202f
    ||| u == 0x205f
    ||| u == 0x3000
}

pub open spec fn trimmed_start(s: Seq<char>) -> Seq<char>
    decreases s.len(),
{
    if s.len() > 0 && is_space(s[0]) {
        trimmed_start(s.drop_first())
    } else {
        s
    }
}

/// `s` without leading and trailing whitespace.
pub open spec fn trimmed(s: Seq<char>) -> Seq<char> {
    trimmed_end(trimmed_start(s))
}

pub open spec fn trimmed_end(s: Seq<char>) -> Seq<char>
    decreases s.len(),
{
    if s.len() > 0 && is_space(s.last()) {
        trimmed_end(s.drop_last())
    } else {
        s
    }
}

/// `str::trim` of the standard library: the string without leading and
/// trailing whitespace, where whitespace is the Unicode property White_Space.
#[verifier::external_body]
fn trim(s: &str) -> (r: &str)
    ensures
        r@ == trimmed(s@),
{
    s.trim()
}

/// The characters of a string.
fn chars_of(s: &str) -> (r: Vec<char>)
    ensures
        r@ == s@,
{
    let mut v: Vec<char> = Vec::new();
    for c in it: s.chars()
        invariant
            it.seq() == s@,
            v@ == s@.take(it.index()),
    {
        v.push(c);
        assert(v@ =~= s@.take(it.index() + 1));
    }
    assert(s@.take(s@.len() as int) =~= s@);
    v
}

/// The position of the first point, or the length.
pub open spec fn point_in(s: Seq<char>, i: int) -> int
    decreases s.len() - i,
{
    if i >= s.len() || s[i] == '.' {
        i
    } else {
        point_in(s, i + 1)
    }
}

/// The digits of a decimal, without the first point.
pub open spec fn without_point(s: Seq<char>) -> Seq<char> {
    let p = point_in(s, 0);
    if p < s.len() {
        s.take(p) + s.skip(p + 1)
    } else {
        s
    }
}

/// How many characters stand behind the first point.
pub open spec fn places(s: Seq<char>) -> nat {
    let p = point_in(s, 0);
    if p < s.len() {
        (s.len() - p - 1) as nat
    } else {
        0
    }
}

pub open spec fn is_digit(c: char) -> bool {
    '0' <= c <= '9'
}

/// The integer that a run of digits stands for; the first character that is
/// no digit, or the first digit that does not fit, decides the error.
pub open spec fn number(s: Seq<char>) -> Result<int, ScaleError>
    decreases s.len(),
{
    if s.len() == 0 {
        Ok(0)
    } else {
        match number(s.drop_last()) {
            Err(e) => Err(e),
            Ok(m) => if !is_digit(s.last()) {
                Err(ScaleError::Malformed)
            } else {
                fits(m * 10 + (s.last() as int - 0x30))
            },
        }
    }
}

/// A plain unsigned decimal as mantissa and number of fractional digits.
pub open spec fn decimal(s: Seq<char>) -> Result<(int, u32), ScaleError> {
    let t = trimmed(s);
    let d = without_point(t);
    if d.len() == 0 {
        Err(ScaleError::Malformed)
    } else {
        match number(d) {
            Err(e) => Err(e),
            Ok(m) => Ok((m, places(t) as u32)),
        }
    }
}

/// A failed prefix fails the whole.
proof fn lemma_number_prefix(s: Seq<char>, n: int)
    requires
        0 <= n <= s.len(),
        number(s.take(n)) is Err,
    ensures
        number(s) == number(s.take(n)),
    decreases s.len(),
{
    if n < s.len() {
        assert(s.drop_last().take(n) =~= s.take(n));
        lemma_number_prefix(s.drop_last(), n);
    } else {
        assert(s.take(n) =~= s);
    }
}

/// Read a run of digits.
fn read_number(v: &Vec<char>) -> (r: Result<u128, ScaleError>)
    ensures
        match r {
            Ok(m) => number(v@) == Ok::<int, ScaleError>(m as int),
            Err(e) => number(v@) == Err::<int, ScaleError>(e),
        },
{
    let mut mantissa: u128 = 0;
    let mut i: usize = 0;
    while i < v.len()
        invariant
            i <= v@.len(),
            number(v@.take(i as int)) == Ok::<int, ScaleError>(mantissa as int),
        decreases v@.len() - i,
    {
        let c: char = v[i];
        let ghost t = v@.take(i + 1);
        proof {
            assert(t.drop_last() =~= v@.take(i as int));
            assert(t.last() == c);
        }
        if c < '0' || c > '9' {
            proof {
                lemma_number_prefix(v@, i + 1);
            }
            return Err(ScaleError::Malformed);
        }
        let digit: u128 = c as u128 - 0x30;
        let tenfold: u128 = match mantissa.checked_mul(10) {
            Some(x) => x,
            None => {
                proof {
                    lemma_number_prefix(v@, i + 1);
                }
                return Err(ScaleError::Overflow);
            },
        };
        mantissa = match tenfold.checked_add(digit) {
            Some(x) => x,
            None => {
                proof {
                    lemma_number_prefix(v@, i + 1);
                }
                return Err(ScaleError::Overflow);
            },
        };
        i = i + 1;
    }
    assert(v@.take(i as int) =~= v@);
    Ok(mantissa)
}

/// Split a plain unsigned decimal into mantissa and fractional digit count.
fn parse_decimal(s: &str) -> (r: Result<(u128, u32), ScaleError>)
    ensures
        match r {
            Ok((m, f)) => decimal(s@) == Ok::<(int, u32), ScaleError>((m as int, f)),
            Err(e) => decimal(s@) == Err::<(int, u32), ScaleError>(e),
        },
{
    let t: Vec<char> = chars_of(trim(s));
    let mut p: usize = 0;
    while p < t.len() && t[p] != '.'
        invariant
            p <= t@.len(),
            point_in(t@, 0) == point_in(t@, p as int),
        decreases t@.len() - p,
    {
        p = p + 1;
    }
    let mut v: Vec<char> = Vec::new();
    let mut i: usize = 0;
    let mut frac: usize = 0;
    while i < t.len()
        invariant
            i <= t@.len(),
            p <= t@.len(),
            v@ == (if i <= p {
                t@.take(i as int)
            } else {
                t@.take(p as int) + t@.subrange(p + 1, i as int)
            }),
            frac == (if i <= p {
                0
            } else {
                i - p - 1
            }),
        decreases t@.len() - i,
    {
        if i != p {
            v.push(t[i]);
            if i > p {
                frac = frac + 1;
            }
        }
        i = i + 1;
        proof {
            if i <= p {
                assert(v@ =~= t@.take(i as int));
            } else {
                assert(v@ =~= t@.take(p as int) + t@.subrange(p + 1, i as int));
            }
        }
    }
    assert(v@ =~= without_point(t@));
    if v.len() == 0 {
        return Err(ScaleError::Malformed);
    }
    match read_number(&v) {
        Ok(m) => Ok((m, frac as u32)),
        Err(e) => Err(e),
    }
}

/// Raw atoms as an exact decimal string: 1_500_000_000 at 9 decimals is
/// "1.500000000".
pub fn atoms_to_ui_amount(atoms: u64, decimals: u8) -> (r: Result<String, ScaleError>)
    ensures
        match r {
            Ok(s) => rendered(atoms as int, decimals) == Ok::<Seq<char>, ScaleError>(s@),
            Err(e) => rendered(atoms as int, decimals) == Err::<Seq<char>, ScaleError>(e),
        },
{
    render(atoms as u128, decimals)
}

/// The atoms that a decimal amount stands for.
pub open spec fn amount(s: Seq<char>, decimals: u8) -> Result<u64, ScaleError> {
    match decimal(s) {
        Err(e) => Err(e),
        Ok((m, f)) => if f > decimals {
            Err(ScaleError::TooPrecise)
        } else if ten((decimals - f) as nat) > u128::MAX || m * ten((decimals - f) as nat)
            > u64::MAX {
            Err(ScaleError::Overflow)
        } else {
            Ok((m * ten((decimals - f) as nat)) as u64)
        },
    }
}

/// Inverse of [`atoms_to_ui_amount`]. Input finer than `decimals` is rejected,
/// not truncated.
pub fn ui_amount_to_atoms(ui_amount: &str, decimals: u8) -> (r: Result<u64, ScaleError>)
    ensures
        r == amount(ui_amount@, decimals),
{
    let (mantissa, frac_digits): (u128, u32) = match parse_decimal(ui_amount) {
        Ok(x) => x,
        Err(e) => {
            return Err(e);
        },
    };
    if frac_digits > decimals as u32 {
        return Err(ScaleError::TooPrecise);
    }
    let scale: u128 = match pow10(decimals as u32 - frac_digits) {
        Ok(x) => x,
        Err(e) => {
            return Err(e);
        },
    };
    let atoms: u128 = match mantissa.checked_mul(scale) {
        Some(x) => x,
        None => {
            return Err(ScaleError::Overflow);
        },
    };
    if atoms > u64::MAX as u128 {
        return Err(ScaleError::Overflow);
    }
    Ok(atoms as u64)
}

/// Ten to the power of `a` times ten to the power of `b` times `x`, if the
/// powers and the products fit.
pub open spec fn scale_up(x: int, a: nat, b: nat) -> Result<int, ScaleError> {
    if ten(a) > u128::MAX || x * ten(a) > u128::MAX || ten(b) > u128::MAX || x * ten(a) * ten(b)
        > u128::MAX {
        Err(ScaleError::Overflow)
    } else {
        Ok(x * ten(a) * ten(b))
    }
}

/// Ten to the power of `a` times ten to the power of `b` times `x`.
fn scaled_up(x: u128, a: u32, b: u32) -> (r: Result<u128, ScaleError>)
    ensures
        match r {
            Ok(v) => scale_up(x as int, a as nat, b as nat) == Ok::<int, ScaleError>(v as int),
            Err(e) => scale_up(x as int, a as nat, b as nat) == Err::<int, ScaleError>(e),
        },
{
    let p: u128 = match pow10(a) {
        Ok(v) => v,
        Err(e) => {
            return Err(e);
        },
    };
    let y: u128 = match x.checked_mul(p) {
        Some(v) => v,
        None => {
            return Err(ScaleError::Overflow);
        },
    };
    let q: u128 = match pow10(b) {
        Ok(v) => v,
        Err(e) => {
            return Err(e);
        },
    };
    match y.checked_mul(q) {
        Some(v) => Ok(v),
        None => Err(ScaleError::Overflow),
    }
}

/// The price of a tick, times ten to the power of `out`, rounded to the
/// nearest integer.
pub open spec fn price(
    tick: u32,
    tick_size: u64,
    base_lot_size: u64,
    base_decimals: u8,
    quote_decimals: u8,
    out: u8,
) -> Result<int, ScaleError> {
    match (
        scale_up(1, base_decimals as nat, out as nat),
        scale_up(base_lot_size as int, quote_decimals as nat, 0),
    ) {
        (Ok(s), Ok(d)) => scaled(tick * tick_size, s, d, Rounding::Nearest),
        _ => Err(ScaleError::Overflow),
    }
}

/// The price of a tick as text.
pub open spec fn price_text(
    tick: u32,
    tick_size: u64,
    base_lot_size: u64,
    base_decimals: u8,
    quote_decimals: u8,
    out: u8,
) -> Result<Seq<char>, ScaleError> {
    match price(tick, tick_size, base_lot_size, base_decimals, quote_decimals, out) {
        Err(e) => Err(e),
        Ok(p) => rendered(p, out),
    }
}

/// A tick's price in quote display units per base display unit, to
/// `out_decimals` places:
/// tick * tick_size * 10^base_decimals / (base_lot_size * 10^quote_decimals).
pub fn tick_to_ui_price(
    tick: u32,
    tick_size: u64,
    base_lot_size: u64,
    base_decimals: u8,
    quote_decimals: u8,
    out_decimals: u8,
) -> (r: Result<String, ScaleError>)
    ensures
        match r {
            Ok(s) => price_text(
                tick,
                tick_size,
                base_lot_size,
                base_decimals,
                quote_decimals,
                out_decimals,
            ) == Ok::<Seq<char>, ScaleError>(s@),
            Err(e) => price_text(
                tick,
                tick_size,
                base_lot_size,
                base_decimals,
                quote_decimals,
                out_decimals,
            ) == Err::<Seq<char>, ScaleError>(e),
        },
{
    assert(tick * tick_size <= 0xffff_ffff * 0xffff_ffff_ffff_ffff) by (nonlinear_arith)
        requires
            tick <= 0xffff_ffff,
            tick_size <= 0xffff_ffff_ffff_ffff,
    ;
    let per_lot: u128 = tick as u128 * tick_size as u128;
    let scale: u128 = match scaled_up(1, base_decimals as u32, out_decimals as u32) {
        Ok(x) => x,
        Err(e) => {
            return Err(e);
        },
    };
    let denominator: u128 = match scaled_up(base_lot_size as u128, quote_decimals as u32, 0) {
        Ok(x) => x,
        Err(e) => {
            return Err(e);
        },
    };
    let scaled: u128 = match mul_div(per_lot, scale, denominator, Rounding::Nearest) {
        Ok(x) => x,
        Err(e) => {
            return Err(e);
        },
    };
    render(scaled, out_decimals)
}

/// The tick of a price.
pub open spec fn tick_of(
    s: Seq<char>,
    tick_size: u64,
    base_lot_size: u64,
    base_decimals: u8,
    quote_decimals: u8,
    rounding: Rounding,
) -> Result<u32, ScaleError> {
    match decimal(s) {
        Err(e) => Err(e),
        Ok((m, f)) => match (
            scale_up(base_lot_size as int, quote_decimals as nat, 0),
            scale_up(tick_size as int, base_decimals as nat, f as nat),
        ) {
            (Ok(n), Ok(d)) => match scaled(m, n, d, rounding) {
                Err(e) => Err(e),
                Ok(t) => if t > u32::MAX {
                    Err(ScaleError::Overflow)
                } else {
                    Ok(t as u32)
                },
            },
            _ => Err(ScaleError::Overflow),
        },
    }
}

/// Inverse of [`tick_to_ui_price`]. Rounding is explicit so a quote never
/// crosses further than the caller intended.
pub fn ui_price_to_tick(
    ui_price: &str,
    tick_size: u64,
    base_lot_size: u64,
    base_decimals: u8,
    quote_decimals: u8,
    rounding: Rounding,
) -> (r: Result<u32, ScaleError>)
    ensures
        r == tick_of(
            ui_price@,
            tick_size,
            base_lot_size,
            base_decimals,
            quote_decimals,
            rounding,
        ),
{
    let (mantissa, frac_digits): (u128, u32) = match parse_decimal(ui_price) {
        Ok(x) => x,
        Err(e) => {
            return Err(e);
        },
    };
    let numerator: u128 = match scaled_up(base_lot_size as u128, quote_decimals as u32, 0) {
        Ok(x) => x,
        Err(e) => {
            return Err(e);
        },
    };
    let denominator: u128 = match scaled_up(tick_size as u128, base_decimals as u32, frac_digits) {
        Ok(x) => x,
        Err(e) => {
            return Err(e);
        },
    };
    let tick: u128 = match mul_div(mantissa, numerator, denominator, rounding) {
        Ok(x) => x,
        Err(e) => {
            return Err(e);
        },
    };
    if tick > u32::MAX as u128 {
        return Err(ScaleError::Overflow);
    }
    Ok(tick as u32)
}

/// The last digits of a number follow from its leading ones.
proof fn lemma_padded_number(d: Seq<char>, m: int, n: int, width: nat)
    requires
        number(d) == Ok::<int, ScaleError>(m),
        0 <= n < ten(width),
        0 <= m,
        m * ten(width) + n <= u128::MAX,
    ensures
        number(d + padded(n, width)) == Ok::<int, ScaleError>(m * ten(width) + n),
    decreases width,
{
    if width == 0 {
        assert(d + padded(n, 0) =~= d);
    } else {
        let w = (width - 1) as nat;
        let t = ten(w);
        lemma_ten_positive(w);
        assert(m * (10 * t) == 10 * (m * t)) by (nonlinear_arith);
        assert(m * t >= 0) by (nonlinear_arith)
            requires
                m >= 0,
                t >= 1,
        ;
        lemma_padded_number(d, m, n / 10, w);
        let s = d + padded(n, width);
        assert(s.drop_last() =~= d + padded(n / 10, w));
        assert(s.last() == digit_char(n % 10));
        lemma_digit(n % 10);
    }
}

/// A digit's character is that digit, and neither a point nor a space.
proof fn lemma_digit(d: int)
    requires
        0 <= d < 10,
    ensures
        is_digit(digit_char(d)),
        digit_char(d) as int == 0x30 + d,
        digit_char(d) != '.',
        !is_space(digit_char(d)),
{
}

/// Decimal digits stand for their number.
proof fn lemma_digits_number(n: int)
    requires
        0 <= n <= u128::MAX,
    ensures
        number(digits(n)) == Ok::<int, ScaleError>(n),
        digits(n).len() >= 1,
    decreases n,
{
    if n < 10 {
        let s = digits(n);
        lemma_digit(n);
        assert(s.drop_last() =~= Seq::<char>::empty());
        assert(number(s.drop_last()) == Ok::<int, ScaleError>(0));
        assert(s.last() == digit_char(n));
    } else {
        lemma_digits_number(n / 10);
        lemma_digit(n % 10);
        let s = digits(n);
        assert(s.drop_last() =~= digits(n / 10));
        assert(s.last() == digit_char(n % 10));
    }
}

/// Every character is a digit.
pub open spec fn all_digits(s: Seq<char>) -> bool {
    forall|i: int| 0 <= i < s.len() ==> is_digit(#[trigger] s[i])
}

pub proof fn lemma_number_digits(s: Seq<char>)
    requires
        number(s) is Ok,
    ensures
        all_digits(s),
    decreases s.len(),
{
    if s.len() > 0 {
        lemma_number_digits(s.drop_last());
        assert forall|i: int| 0 <= i < s.len() implies is_digit(#[trigger] s[i]) by {
            if i < s.len() - 1 {
                assert(s[i] == s.drop_last()[i]);
            }
        }
    }
}

proof fn lemma_padded_len(n: int, width: nat)
    requires
        0 <= n,
    ensures
        padded(n, width).len() == width,
        all_digits(padded(n, width)),
    decreases width,
{
    if width > 0 {
        lemma_padded_len(n / 10, (width - 1) as nat);
        lemma_digit(n % 10);
        let s = padded(n, width);
        assert forall|i: int| 0 <= i < s.len() implies is_digit(#[trigger] s[i]) by {
            if i < s.len() - 1 {
                assert(s[i] == padded(n / 10, (width - 1) as nat)[i]);
            }
        }
    }
}

/// Without spaces at its ends, a text is its own trimmed form.
proof fn lemma_untrimmed(s: Seq<char>)
    requires
        s.len() > 0,
        !is_space(s[0]),
        !is_space(s.last()),
    ensures
        trimmed(s) == s,
{
}

/// The first point of a run of digits, a point and more.
pub proof fn lemma_point(d: Seq<char>, f: Seq<char>, i: int)
    requires
        all_digits(d),
        0 <= i <= d.len(),
    ensures
        point_in(d + seq!['.'] + f, i) == d.len(),
    decreases d.len() - i,
{
    let s = d + seq!['.'] + f;
    if i < d.len() {
        assert(s[i] == d[i]);
        lemma_point(d, f, i + 1);
    } else {
        assert(s[i] == '.');
    }
}

pub proof fn lemma_no_point(d: Seq<char>, i: int)
    requires
        all_digits(d),
        0 <= i <= d.len(),
    ensures
        point_in(d, i) == d.len(),
    decreases d.len() - i,
{
    if i < d.len() {
        assert(is_digit(d[i]));
        lemma_no_point(d, i + 1);
    }
}

/// What is rendered reads back as the same number, with as many places.
pub proof fn lemma_rendered_reads(value: int, decimals: u8)
    requires
        0 <= value <= u128::MAX,
        rendered(value, decimals) is Ok,
    ensures
        decimal(rendered(value, decimals)->Ok_0) == Ok::<(int, u32), ScaleError>(
            (value, decimals as u32),
        ),
{
    let p = ten(decimals as nat);
    let s = rendered(value, decimals)->Ok_0;
    lemma_ten_positive(decimals as nat);
    if decimals == 0 {
        lemma_digits_number(value);
        lemma_number_digits(s);
        lemma_no_point(s, 0);
        assert(is_digit(s[0]) && is_digit(s[s.len() - 1]));
        lemma_untrimmed(s);
    } else {
        let q = value / p;
        let r = value % p;
        let d = digits(q);
        let f = padded(r, decimals as nat);
        assert(q * p + r == value && 0 <= r < p && 0 <= q <= value) by (nonlinear_arith)
            requires
                q == value / p,
                r == value % p,
                p >= 1,
                value >= 0,
        ;
        lemma_digits_number(q);
        lemma_number_digits(d);
        lemma_padded_len(r, decimals as nat);
        lemma_point(d, f, 0);
        assert(s[0] == d[0]);
        assert(s.last() == f[f.len() - 1]);
        assert(is_digit(d[0]) && is_digit(f[f.len() - 1]));
        lemma_untrimmed(s);
        assert(s.take(d.len() as int) + s.skip(d.len() as int + 1) =~= d + f);
        lemma_padded_number(d, q, r, decimals as nat);
    }
}

/// An amount that was rendered converts back to the same atoms.
pub proof fn lemma_amount_round_trip(atoms: u64, decimals: u8)
    requires
        rendered(atoms as int, decimals) is Ok,
    ensures
        amount(rendered(atoms as int, decimals)->Ok_0, decimals) == Ok::<u64, ScaleError>(atoms),
{
    lemma_rendered_reads(atoms as int, decimals);
    let m = atoms as int;
    assert(ten(0) == 1);
    assert(m * 1 == m);
}

/// How far each rounding may be off.
pub proof fn lemma_rounding(x: int, d: int)
    requires
        x >= 0,
        d > 0,
    ensures
        divided(x, d, Rounding::Down) * d <= x,
        x < (divided(x, d, Rounding::Down) + 1) * d,
        x <= divided(x, d, Rounding::Up) * d,
        (divided(x, d, Rounding::Up) - 1) * d < x,
        2 * (divided(x, d, Rounding::Nearest) * d - x) <= d,
        2 * (x - divided(x, d, Rounding::Nearest) * d) < d,
{
    let q = x / d;
    let r = x % d;
    assert(x == q * d + r && 0 <= r < d) by (nonlinear_arith)
        requires
            q == x / d,
            r == x % d,
            d > 0,
    ;
    assert((q + 1) * d == q * d + d) by (nonlinear_arith);
    assert((q - 1) * d == q * d - d) by (nonlinear_arith);
}

/// Only one integer is nearest, halves going up.
proof fn lemma_nearest(x: int, d: int, n: int)
    requires
        x >= 0,
        d > 0,
        2 * (n * d - x) <= d,
        2 * (x - n * d) < d,
    ensures
        divided(x, d, Rounding::Nearest) == n,
{
    lemma_rounding(x, d);
    let a = divided(x, d, Rounding::Nearest);
    if a != n {
        assert((a - n) * d == a * d - n * d) by (nonlinear_arith);
        if a > n {
            assert((a - n) * d >= d) by (nonlinear_arith)
                requires
                    a - n >= 1,
                    d > 0,
            ;
        } else {
            assert((a - n) * d <= -d) by (nonlinear_arith)
                requires
                    a - n <= -1,
                    d > 0,
            ;
        }
    }
}

/// A price that was rendered finely enough converts back to the same tick,
/// unless the way back overflows: the step between two ticks must be at least
/// one unit of the last place. It does not overflow where 128 bits have room
/// for one more unit of the last place.
pub proof fn lemma_price_round_trip(
    tick: u32,
    tick_size: u64,
    base_lot_size: u64,
    base_decimals: u8,
    quote_decimals: u8,
    out: u8,
)
    requires
        price_text(tick, tick_size, base_lot_size, base_decimals, quote_decimals, out) is Ok,
        base_lot_size * ten(quote_decimals as nat) <= tick_size * ten(base_decimals as nat) * ten(
            out as nat,
        ),
    ensures
        ({
            let s = price_text(
                tick,
                tick_size,
                base_lot_size,
                base_decimals,
                quote_decimals,
                out,
            )->Ok_0;
            let back = tick_of(
                s,
                tick_size,
                base_lot_size,
                base_decimals,
                quote_decimals,
                Rounding::Nearest,
            );
            let n = tick * tick_size * (ten(base_decimals as nat) * ten(out as nat));
            let unit = base_lot_size * ten(quote_decimals as nat);
            &&& back == Ok::<u32, ScaleError>(tick) || back == Err::<u32, ScaleError>(
                ScaleError::Overflow,
            )
            &&& tick >= 1 && n + unit <= u128::MAX ==> back == Ok::<u32, ScaleError>(tick)
        }),
{
    let tb = ten(base_decimals as nat);
    let tq = ten(quote_decimals as nat);
    let to = ten(out as nat);
    lemma_ten_positive(base_decimals as nat);
    lemma_ten_positive(quote_decimals as nat);
    lemma_ten_positive(out as nat);
    assert(ten(0) == 1);
    let lot = base_lot_size as int;
    let ts = tick_size as int;
    let d = lot * tq;
    assert(d * 1 == d);
    assert(1 * tb == tb);
    let e = ts * tb * to;
    let n = tick * ts * (tb * to);
    assert(n == tick * e) by (nonlinear_arith)
        requires
            n == tick * ts * (tb * to),
            e == ts * tb * to,
    ;
    assert(d >= 0) by (nonlinear_arith)
        requires
            d == lot * tq,
            lot >= 0,
            tq >= 1,
    ;
    assert(n >= 0) by (nonlinear_arith)
        requires
            n == tick * ts * (tb * to),
            tick >= 0,
            ts >= 0,
            tb >= 1,
            to >= 1,
    ;
    let p = price(tick, tick_size, base_lot_size, base_decimals, quote_decimals, out)->Ok_0;
    assert(p == divided(n, d, Rounding::Nearest));
    lemma_rounding(n, d);
    assert(p >= 0) by (nonlinear_arith)
        requires
            p == divided(n, d, Rounding::Nearest),
            n >= 0,
            d > 0,
    {
        assert(n / d >= 0);
    }
    lemma_rendered_reads(p, out);
    // On the way back `p * d` is divided by `e`, and it lies within half of
    // `d`, hence of `e`, of `tick * e`.
    if d < e {
        assert(p * d >= 0) by (nonlinear_arith)
            requires
                p >= 0,
                d >= 0,
        ;
        lemma_nearest(p * d, e, tick as int);
    } else {
        assert(n == tick * d);
        lemma_exact_division(tick as int, d, Rounding::Nearest);
        assert(p == tick);
        lemma_exact_division(tick as int, e, Rounding::Nearest);
    }
    if tick >= 1 {
        lemma_step_fits(tick, ts, tb, to);
    }
}

/// Where a price of `tick` fits, the step between two ticks does.
proof fn lemma_step_fits(tick: u32, ts: int, tb: int, to: int)
    requires
        tick >= 1,
        ts >= 0,
        tb >= 1,
        to >= 1,
    ensures
        0 <= ts * tb <= ts * tb * to <= tick * ts * (tb * to),
{
    assert(0 <= ts * tb <= ts * tb * to) by (nonlinear_arith)
        requires
            ts >= 0,
            tb >= 1,
            to >= 1,
    ;
    let e = ts * tb * to;
    assert(tick * ts * (tb * to) == tick * e) by (nonlinear_arith)
        requires
            e == ts * tb * to,
    ;
    assert(e <= tick * e) by (nonlinear_arith)
        requires
            tick >= 1,
            e >= 0,
    ;
}

/// A price that its text gives in full converts back to the same tick,
/// whichever way it is rounded.
pub proof fn lemma_exact_price(
    tick: u32,
    tick_size: u64,
    base_lot_size: u64,
    base_decimals: u8,
    quote_decimals: u8,
    out: u8,
    rounding: Rounding,
)
    requires
        price_text(tick, tick_size, base_lot_size, base_decimals, quote_decimals, out) is Ok,
        tick >= 1,
        tick_size >= 1,
        (tick * tick_size * ten(base_decimals as nat) * ten(out as nat)) % (base_lot_size * ten(
            quote_decimals as nat,
        )) == 0,
    ensures
        tick_of(
            price_text(
                tick,
                tick_size,
                base_lot_size,
                base_decimals,
                quote_decimals,
                out,
            )->Ok_0,
            tick_size,
            base_lot_size,
            base_decimals,
            quote_decimals,
            rounding,
        ) == Ok::<u32, ScaleError>(tick),
{
    let tb = ten(base_decimals as nat);
    let tq = ten(quote_decimals as nat);
    let to = ten(out as nat);
    lemma_ten_positive(base_decimals as nat);
    lemma_ten_positive(quote_decimals as nat);
    lemma_ten_positive(out as nat);
    assert(ten(0) == 1);
    let lot = base_lot_size as int;
    let ts = tick_size as int;
    let d = lot * tq;
    let e = ts * tb * to;
    let n = tick * ts * (tb * to);
    assert(d * 1 == d);
    assert(1 * tb == tb);
    assert(n == tick * e && n == tick * ts * tb * to) by (nonlinear_arith)
        requires
            n == tick * ts * (tb * to),
            e == ts * tb * to,
    ;
    assert(d >= 0) by (nonlinear_arith)
        requires
            d == lot * tq,
            lot >= 0,
            tq >= 1,
    ;
    assert(e >= 1) by (nonlinear_arith)
        requires
            e == ts * tb * to,
            ts >= 1,
            tb >= 1,
            to >= 1,
    ;
    lemma_step_fits(tick, ts, tb, to);
    let p = price(tick, tick_size, base_lot_size, base_decimals, quote_decimals, out)->Ok_0;
    assert(p == divided(n, d, Rounding::Nearest));
    let q = n / d;
    assert(n == q * d && q >= 0) by (nonlinear_arith)
        requires
            q == n / d,
            n % d == 0,
            n >= 0,
            d > 0,
    ;
    lemma_exact_division(q, d, Rounding::Nearest);
    assert(p == q);
    lemma_rendered_reads(p, out);
    lemma_exact_division(tick as int, e, rounding);
}

/// A multiple divides evenly, whichever way it is rounded.
proof fn lemma_exact_division(k: int, d: int, rounding: Rounding)
    requires
        d > 0,
        k >= 0,
    ensures
        divided(k * d, d, rounding) == k,
{
    assert((k * d) / d == k && (k * d) % d == 0) by (nonlinear_arith)
        requires
            d > 0,
    ;
}

} // verus!
