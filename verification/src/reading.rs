//! Laws of display units: what a text reads as, digit by digit, and how the
//! atoms and ticks that it converts to relate to that value.

use crate::scale::{
    all_digits,
    amount,
    decimal,
    divided,
    is_digit,
    is_space,
    lemma_no_point,
    lemma_number_digits,
    lemma_point,
    lemma_rendered_reads,
    lemma_rounding,
    lemma_ten_positive,
    number,
    point_in,
    price,
    price_text,
    rendered,
    ten,
    tick_of,
    trimmed,
    trimmed_end,
    trimmed_start,
    without_point,
    Rounding,
    ScaleError,
};
use vstd::prelude::*;

verus! {

/// The value of a run of digits: each counts its distance from '0', times ten
/// for every digit behind it.
pub open spec fn positional(s: Seq<char>) -> int
    decreases s.len(),
{
    if s.len() == 0 {
        0
    } else {
        (s[0] as int - '0' as int) * ten((s.len() - 1) as nat) + positional(s.drop_first())
    }
}

proof fn lemma_positional_push(s: Seq<char>, c: char)
    ensures
        positional(s.push(c)) == positional(s) * 10 + (c as int - '0' as int),
    decreases s.len(),
{
    let t = s.push(c);
    if s.len() == 0 {
        assert(t.drop_first() =~= Seq::<char>::empty());
        assert(ten(0) == 1);
        let d = c as int - '0' as int;
        assert(t[0] == c);
        assert(d * 1 == d);
        assert(positional(t.drop_first()) == 0);
        assert(positional(s) == 0);
        assert(positional(t) == d * ten(0) + positional(t.drop_first()));
    } else {
        assert(t.drop_first() =~= s.drop_first().push(c));
        lemma_positional_push(s.drop_first(), c);
        let d = s[0] as int - '0' as int;
        let k = ten((s.len() - 1) as nat);
        assert(ten(s.len()) == 10 * k);
        assert(d * (10 * k) == d * k * 10) by (nonlinear_arith);
        assert(t[0] == s[0]);
        assert((t.len() - 1) as nat == s.len());
        assert(positional(t) == d * ten(s.len()) + positional(t.drop_first()));
        assert(positional(s) == d * k + positional(s.drop_first()));
    }
}

proof fn lemma_positional_grows(s: Seq<char>)
    requires
        all_digits(s),
    ensures
        positional(s) >= 0,
        s.len() > 0 ==> 0 <= positional(s.drop_last()) <= positional(s),
    decreases s.len(),
{
    if s.len() > 0 {
        let p = s.drop_last();
        assert forall|i: int| 0 <= i < p.len() implies is_digit(#[trigger] p[i]) by {
            assert(p[i] == s[i]);
        }
        lemma_positional_grows(p);
        assert(p.push(s.last()) =~= s);
        assert(is_digit(s[s.len() - 1]));
        lemma_positional_push(p, s.last());
    }
}

/// A run of digits stands for its positional value.
proof fn lemma_number_value(s: Seq<char>)
    requires
        all_digits(s),
    ensures
        number(s) == if positional(s) <= u128::MAX {
            Ok::<int, ScaleError>(positional(s))
        } else {
            Err::<int, ScaleError>(ScaleError::Overflow)
        },
    decreases s.len(),
{
    if s.len() > 0 {
        let p = s.drop_last();
        assert forall|i: int| 0 <= i < p.len() implies is_digit(#[trigger] p[i]) by {
            assert(p[i] == s[i]);
        }
        lemma_number_value(p);
        lemma_positional_grows(s);
        assert(p.push(s.last()) =~= s);
        assert(is_digit(s[s.len() - 1]));
        lemma_positional_push(p, s.last());
    }
}

/// Every character is whitespace.
pub open spec fn all_spaces(s: Seq<char>) -> bool {
    forall|i: int| 0 <= i < s.len() ==> is_space(#[trigger] s[i])
}

proof fn lemma_trim_start(a: Seq<char>, s: Seq<char>)
    requires
        all_spaces(a),
        s.len() > 0,
        !is_space(s[0]),
    ensures
        trimmed_start(a + s) == s,
    decreases a.len(),
{
    let t = a + s;
    if a.len() == 0 {
        assert(t =~= s);
    } else {
        assert(t[0] == a[0]);
        assert(is_space(a[0]));
        assert(t.drop_first() =~= a.drop_first() + s);
        assert forall|i: int| 0 <= i < a.drop_first().len() implies is_space(
            #[trigger] a.drop_first()[i],
        ) by {
            assert(a.drop_first()[i] == a[i + 1]);
        }
        lemma_trim_start(a.drop_first(), s);
    }
}

proof fn lemma_trim_end(s: Seq<char>, b: Seq<char>)
    requires
        all_spaces(b),
        s.len() > 0,
        !is_space(s.last()),
    ensures
        trimmed_end(s + b) == s,
    decreases b.len(),
{
    let t = s + b;
    if b.len() == 0 {
        assert(t =~= s);
    } else {
        assert(t.last() == b.last());
        assert(is_space(b[b.len() - 1]));
        assert(t.drop_last() =~= s + b.drop_last());
        assert forall|i: int| 0 <= i < b.drop_last().len() implies is_space(
            #[trigger] b.drop_last()[i],
        ) by {
            assert(b.drop_last()[i] == b[i]);
        }
        lemma_trim_end(s, b.drop_last());
    }
}

/// Whitespace around a text is no part of it.
pub proof fn lemma_trimmed(a: Seq<char>, s: Seq<char>, b: Seq<char>)
    requires
        all_spaces(a),
        all_spaces(b),
        s.len() > 0,
        !is_space(s[0]),
        !is_space(s.last()),
    ensures
        trimmed(a + s + b) == s,
{
    let t = s + b;
    assert(a + s + b =~= a + t);
    assert(t[0] == s[0]);
    lemma_trim_start(a, t);
    lemma_trim_end(s, b);
}

/// A run of digits, with whitespace around it, reads as its value, without
/// places.
pub proof fn lemma_reads_whole(a: Seq<char>, w: Seq<char>, b: Seq<char>)
    requires
        all_spaces(a),
        all_spaces(b),
        all_digits(w),
        w.len() > 0,
    ensures
        decimal(a + w + b) == if positional(w) <= u128::MAX {
            Ok::<(int, u32), ScaleError>((positional(w), 0))
        } else {
            Err::<(int, u32), ScaleError>(ScaleError::Overflow)
        },
{
    assert(is_digit(w[0]) && is_digit(w[w.len() - 1]));
    lemma_trimmed(a, w, b);
    lemma_no_point(w, 0);
    lemma_number_value(w);
}

/// Digits, a point and more digits, with whitespace around them, read as the
/// value of all the digits, with as many places as stand behind the point.
pub proof fn lemma_reads_decimal(a: Seq<char>, w: Seq<char>, f: Seq<char>, b: Seq<char>)
    requires
        all_spaces(a),
        all_spaces(b),
        all_digits(w),
        all_digits(f),
        w.len() + f.len() > 0,
        f.len() <= u32::MAX,
    ensures
        decimal(a + (w + seq!['.'] + f) + b) == if positional(w + f) <= u128::MAX {
            Ok::<(int, u32), ScaleError>((positional(w + f), f.len() as u32))
        } else {
            Err::<(int, u32), ScaleError>(ScaleError::Overflow)
        },
{
    let s = w + seq!['.'] + f;
    assert(!is_space(s[0])) by {
        if w.len() > 0 {
            assert(s[0] == w[0]);
            assert(is_digit(w[0]));
        } else {
            assert(s[0] == '.');
        }
    }
    assert(!is_space(s.last())) by {
        if f.len() > 0 {
            assert(s.last() == f[f.len() - 1]);
            assert(is_digit(f[f.len() - 1]));
        } else {
            assert(s.last() == '.');
        }
    }
    lemma_trimmed(a, s, b);
    lemma_point(w, f, 0);
    assert(s.take(w.len() as int) + s.skip(w.len() as int + 1) =~= w + f);
    assert forall|i: int| 0 <= i < (w + f).len() implies is_digit(#[trigger] (w + f)[i]) by {
        if i < w.len() {
            assert((w + f)[i] == w[i]);
        } else {
            assert((w + f)[i] == f[i - w.len()]);
        }
    }
    lemma_number_value(w + f);
}

/// Only plain decimals read: between the whitespace stand digits, at least
/// one, and at most one point.
pub proof fn lemma_reads_plain(s: Seq<char>)
    requires
        decimal(s) is Ok,
    ensures
        ({
            let t = trimmed(s);
            let p = point_in(t, 0);
            ||| t.len() > 0 && all_digits(t)
            ||| 0 <= p < t.len() && t.len() > 1 && t[p] == '.' && all_digits(t.take(p))
                && all_digits(t.skip(p + 1))
        }),
{
    let t = trimmed(s);
    let p = point_in(t, 0);
    let d = without_point(t);
    lemma_number_digits(d);
    lemma_point_bounds(t, 0);
    if p < t.len() {
        assert forall|i: int| 0 <= i < t.take(p).len() implies is_digit(
            #[trigger] t.take(p)[i],
        ) by {
            assert(d[i] == t[i]);
            assert(is_digit(d[i]));
        }
        assert forall|i: int| 0 <= i < t.skip(p + 1).len() implies is_digit(
            #[trigger] t.skip(p + 1)[i],
        ) by {
            assert(d[p + i] == t.skip(p + 1)[i]);
            assert(is_digit(d[p + i]));
        }
    }
}

proof fn lemma_point_bounds(s: Seq<char>, i: int)
    requires
        0 <= i <= s.len(),
    ensures
        i <= point_in(s, i) <= s.len(),
        point_in(s, i) < s.len() ==> s[point_in(s, i)] == '.',
    decreases s.len() - i,
{
    if i < s.len() && s[i] != '.' {
        lemma_point_bounds(s, i + 1);
    }
}

proof fn lemma_ten_adds(a: nat, b: nat)
    ensures
        ten(a + b) == ten(a) * ten(b),
    decreases b,
{
    if b == 0 {
        assert(ten(a) * 1 == ten(a));
    } else {
        lemma_ten_adds(a, (b - 1) as nat);
        let x = ten(a);
        let y = ten((b - 1) as nat);
        assert(x * (10 * y) == 10 * (x * y)) by (nonlinear_arith);
        assert((a + b - 1) as nat == a + (b - 1) as nat);
    }
}

/// The atoms of an amount are its value times ten for each decimal, exactly:
/// an amount with more places than that is too precise, one whose atoms do not
/// fit overflows, and every other is converted.
pub proof fn lemma_amount_value(s: Seq<char>, decimals: u8, m: int, f: u32)
    requires
        decimal(s) == Ok::<(int, u32), ScaleError>((m, f)),
        m >= 0,
    ensures
        match amount(s, decimals) {
            Ok(x) => f <= decimals && x * ten(f as nat) == m * ten(decimals as nat),
            Err(e) => {
                ||| f > decimals && e == ScaleError::TooPrecise
                ||| f <= decimals && e == ScaleError::Overflow && (m * ten(decimals as nat)
                    > u64::MAX * ten(f as nat) || ten(decimals as nat) > u128::MAX * ten(
                    f as nat,
                ))
            },
        },
{
    if f <= decimals {
        let d = (decimals - f) as nat;
        let k = ten(d);
        let p = ten(f as nat);
        lemma_ten_adds(d, f as nat);
        lemma_ten_positive(d);
        lemma_ten_positive(f as nat);
        assert(d + f as nat == decimals as nat);
        assert(m * k * p == m * (k * p)) by (nonlinear_arith);
        if m * k > u64::MAX {
            assert(m * k * p > u64::MAX * p) by (nonlinear_arith)
                requires
                    m * k > u64::MAX,
                    p >= 1,
            ;
        }
        if k > u128::MAX {
            assert(k * p > u128::MAX * p) by (nonlinear_arith)
                requires
                    k > u128::MAX,
                    p >= 1,
            ;
        }
    }
}

/// What an amount converts to and what that many atoms are shown as have the
/// same value.
pub proof fn lemma_amount_shown(s: Seq<char>, decimals: u8, m: int, f: u32)
    requires
        decimal(s) == Ok::<(int, u32), ScaleError>((m, f)),
        m >= 0,
        amount(s, decimals) is Ok,
        rendered(amount(s, decimals)->Ok_0 as int, decimals) is Ok,
    ensures
        ({
            let t = rendered(amount(s, decimals)->Ok_0 as int, decimals)->Ok_0;
            match decimal(t) {
                Ok((n, g)) => g == decimals && n * ten(f as nat) == m * ten(g as nat),
                Err(_) => false,
            }
        }),
{
    lemma_amount_value(s, decimals, m, f);
    lemma_rendered_reads(amount(s, decimals)->Ok_0 as int, decimals);
}

/// `t` times `d` is `n`, or next to it on the side that the rounding says.
pub open spec fn rounds(n: int, d: int, t: int, rounding: Rounding) -> bool {
    match rounding {
        Rounding::Down => t * d <= n < t * d + d,
        Rounding::Up => t * d - d < n <= t * d,
        Rounding::Nearest => 2 * (t * d - n) <= d && 2 * (n - t * d) < d,
    }
}

proof fn lemma_rounds(n: int, d: int, rounding: Rounding)
    requires
        n >= 0,
        d > 0,
    ensures
        rounds(n, d, divided(n, d, rounding), rounding),
{
    lemma_rounding(n, d);
    let a = divided(n, d, rounding);
    assert((a + 1) * d == a * d + d) by (nonlinear_arith);
    assert((a - 1) * d == a * d - d) by (nonlinear_arith);
}

/// The tick of a price: one lot at the tick costs, in quote atoms, what the
/// lot's base costs at that price, rounded as asked.
pub proof fn lemma_tick_value(
    s: Seq<char>,
    tick_size: u64,
    base_lot_size: u64,
    base_decimals: u8,
    quote_decimals: u8,
    rounding: Rounding,
    m: int,
    f: u32,
)
    requires
        decimal(s) == Ok::<(int, u32), ScaleError>((m, f)),
        m >= 0,
    ensures
        ({
            let n = m * (base_lot_size * ten(quote_decimals as nat));
            let d = tick_size * ten(base_decimals as nat) * ten(f as nat);
            match tick_of(
                s,
                tick_size,
                base_lot_size,
                base_decimals,
                quote_decimals,
                rounding,
            ) {
                Ok(t) => tick_size > 0 && rounds(n, d, t as int, rounding),
                Err(e) => {
                    ||| e == ScaleError::DivideByZero && tick_size == 0
                    ||| e == ScaleError::Overflow && (n > u128::MAX || base_lot_size * ten(
                        quote_decimals as nat,
                    ) > u128::MAX || ten(quote_decimals as nat) > u128::MAX || ten(
                        base_decimals as nat,
                    ) > u128::MAX || ten(f as nat) > u128::MAX || d > u128::MAX || n >= d
                        * 0xffff_ffff)
                },
            }
        }),
{
    let tb = ten(base_decimals as nat);
    let tq = ten(quote_decimals as nat);
    let tf = ten(f as nat);
    let l = base_lot_size * tq;
    let d = tick_size * tb * tf;
    lemma_ten_positive(base_decimals as nat);
    lemma_ten_positive(quote_decimals as nat);
    lemma_ten_positive(f as nat);
    assert(ten(0) == 1);
    assert(l * 1 == l);
    assert(l >= 0) by (nonlinear_arith)
        requires
            l == base_lot_size * tq,
            tq >= 1,
            base_lot_size >= 0,
    ;
    let n = m * l;
    assert(n >= 0) by (nonlinear_arith)
        requires
            n == m * l,
            m >= 0,
            l >= 0,
    ;
    assert(0 <= tick_size * tb <= d) by (nonlinear_arith)
        requires
            d == tick_size * tb * tf,
            tick_size >= 0,
            tb >= 1,
            tf >= 1,
    ;
    if tick_size == 0 {
        assert(0 * tb * tf == 0) by (nonlinear_arith);
    } else {
        assert(d >= 1) by (nonlinear_arith)
            requires
                d == tick_size * tb * tf,
                tick_size >= 1,
                tb >= 1,
                tf >= 1,
        ;
        lemma_rounds(n, d, rounding);
        let t = divided(n, d, rounding);
        if t > u32::MAX {
            assert(n >= d * 0xffff_ffff) by (nonlinear_arith)
                requires
                    t >= 0x1_0000_0000,
                    n > t * d - d,
                    d >= 1,
            ;
        }
    }
}

/// The price of a tick, as shown, is what a lot at the tick costs for the
/// lot's base, rounded to the nearest unit of the last place.
pub proof fn lemma_price_value(
    tick: u32,
    tick_size: u64,
    base_lot_size: u64,
    base_decimals: u8,
    quote_decimals: u8,
    out: u8,
)
    requires
        price_text(tick, tick_size, base_lot_size, base_decimals, quote_decimals, out) is Ok,
    ensures
        ({
            let s = price_text(
                tick,
                tick_size,
                base_lot_size,
                base_decimals,
                quote_decimals,
                out,
            )->Ok_0;
            let n = tick * tick_size * (ten(base_decimals as nat) * ten(out as nat));
            let d = base_lot_size * ten(quote_decimals as nat);
            match decimal(s) {
                Ok((p, f)) => f == out && rounds(n, d, p, Rounding::Nearest),
                Err(_) => false,
            }
        }),
{
    let tb = ten(base_decimals as nat);
    let tq = ten(quote_decimals as nat);
    let to = ten(out as nat);
    lemma_ten_positive(base_decimals as nat);
    lemma_ten_positive(quote_decimals as nat);
    lemma_ten_positive(out as nat);
    assert(ten(0) == 1);
    let d = base_lot_size * tq;
    assert(d * 1 == d);
    assert(1 * tb == tb);
    let n = tick * tick_size * (tb * to);
    assert(n >= 0) by (nonlinear_arith)
        requires
            n == tick * tick_size * (tb * to),
            tb >= 1,
            to >= 1,
    ;
    assert(d >= 0) by (nonlinear_arith)
        requires
            d == base_lot_size * tq,
            tq >= 1,
    ;
    let p = price(tick, tick_size, base_lot_size, base_decimals, quote_decimals, out)->Ok_0;
    lemma_rounds(n, d, Rounding::Nearest);
    assert(p >= 0) by (nonlinear_arith)
        requires
            2 * (n - p * d) < d,
            n >= 0,
            d > 0,
    ;
    lemma_rendered_reads(p, out);
}

/// A price is shown unless a lot has no base, or a power of ten, the base of a
/// lot or the price itself is beyond 128 bits.
pub proof fn lemma_price_refused(
    tick: u32,
    tick_size: u64,
    base_lot_size: u64,
    base_decimals: u8,
    quote_decimals: u8,
    out: u8,
)
    ensures
        match price_text(tick, tick_size, base_lot_size, base_decimals, quote_decimals, out) {
            Ok(_) => base_lot_size > 0,
            Err(e) => {
                let tb = ten(base_decimals as nat);
                let tq = ten(quote_decimals as nat);
                let to = ten(out as nat);
                ||| e == ScaleError::DivideByZero && base_lot_size == 0
                ||| e == ScaleError::Overflow && (tb > u128::MAX || tq > u128::MAX || to > u128::MAX
                    || tb * to > u128::MAX || base_lot_size * tq > u128::MAX || tick * tick_size * (
                tb * to) > u128::MAX)
            },
        },
{
    let tb = ten(base_decimals as nat);
    let tq = ten(quote_decimals as nat);
    let to = ten(out as nat);
    lemma_ten_positive(base_decimals as nat);
    lemma_ten_positive(quote_decimals as nat);
    lemma_ten_positive(out as nat);
    assert(ten(0) == 1);
    let d = base_lot_size * tq;
    assert(d * 1 == d);
    assert(1 * tb == tb);
    assert(d == 0 <==> base_lot_size == 0) by (nonlinear_arith)
        requires
            d == base_lot_size * tq,
            tq >= 1,
    ;
    assert(d >= 0) by (nonlinear_arith)
        requires
            d == base_lot_size * tq,
            tq >= 1,
    ;
    let n = tick * tick_size * (tb * to);
    assert(n >= 0) by (nonlinear_arith)
        requires
            n == tick * tick_size * (tb * to),
            tb >= 1,
            to >= 1,
    ;
    if d > 0 && n <= u128::MAX {
        lemma_rounds(n, d, Rounding::Nearest);
        let t = divided(n, d, Rounding::Nearest);
        assert(t <= u128::MAX) by (nonlinear_arith)
            requires
                2 * (t * d - n) <= d,
                d >= 1,
                n <= u128::MAX,
        ;
    }
}

/// An amount is shown unless its power of ten is beyond 128 bits.
pub proof fn lemma_amount_refused(value: int, decimals: u8)
    ensures
        rendered(value, decimals) is Ok <==> ten(decimals as nat) <= u128::MAX,
        rendered(value, decimals) matches Err(e) ==> e == ScaleError::Overflow,
{
}

/// Up to 38 characters either are digits, and then their value fits in 128
/// bits, or are malformed.
proof fn lemma_short_number(s: Seq<char>)
    requires
        s.len() <= 38,
    ensures
        match number(s) {
            Ok(m) => 0 <= m < ten(s.len()) && all_digits(s),
            Err(e) => e == ScaleError::Malformed && !all_digits(s),
        },
    decreases s.len(),
{
    if s.len() > 0 {
        let d = s.drop_last();
        lemma_short_number(d);
        lemma_ten_fits(s.len());
        match number(d) {
            Ok(m) => {
                if is_digit(s.last()) {
                    assert forall|i: int| 0 <= i < s.len() implies is_digit(#[trigger] s[i]) by {
                        if i < d.len() {
                            assert(d[i] == s[i]);
                            assert(is_digit(d[i]));
                        }
                    }
                } else {
                    assert(!is_digit(s[s.len() - 1]));
                }
            },
            Err(_) => {
                if all_digits(s) {
                    assert forall|i: int| 0 <= i < d.len() implies is_digit(#[trigger] d[i]) by {
                        assert(d[i] == s[i]);
                        assert(is_digit(s[i]));
                    }
                }
            },
        }
    }
}

/// Ten to the power of 38 fits in 128 bits.
proof fn lemma_ten_fits(n: nat)
    requires
        n <= 38,
    ensures
        ten(n) <= u128::MAX,
{
    assert(ten(38) <= u128::MAX) by {
        reveal_with_fuel(ten, 39);
    }
    let d = (38 - n) as nat;
    lemma_ten_adds(n, d);
    lemma_ten_positive(d);
    lemma_ten_positive(n);
    assert(n + d == 38);
    assert(ten(n) <= ten(n) * ten(d)) by (nonlinear_arith)
        requires
            ten(n) >= 1,
            ten(d) >= 1,
    ;
}

/// A text that is not read is malformed, unless it is too long for 38 digits:
/// without whitespace around it and without its first point, it is empty or
/// has a character that is no digit.
pub proof fn lemma_malformed(s: Seq<char>)
    requires
        without_point(trimmed(s)).len() <= 38,
    ensures
        ({
            let d = without_point(trimmed(s));
            &&& decimal(s) is Ok <==> d.len() > 0 && all_digits(d)
            &&& decimal(s) matches Err(e) ==> e == ScaleError::Malformed
        }),
{
    lemma_short_number(without_point(trimmed(s)));
}

} // verus!
