//! Number formatting into a caller-owned buffer.
//!
//! Every function replaces the contents of `out` with one formatted value. Byte
//! counts are shown with three significant figures in binary units; the values are
//! rounded exactly as a 64-bit float conversion followed by fixed-precision decimal
//! printing (round half to even) would round them, computed here in integers.
use vstd::prelude::*;

verus! {

/// The decimal digit character for `d` (taken modulo ten).
pub open spec fn digit_char(d: nat) -> char {
    let d = d % 10;
    if d == 0 {
        '0'
    } else if d == 1 {
        '1'
    } else if d == 2 {
        '2'
    } else if d == 3 {
        '3'
    } else if d == 4 {
        '4'
    } else if d == 5 {
        '5'
    } else if d == 6 {
        '6'
    } else if d == 7 {
        '7'
    } else if d == 8 {
        '8'
    } else {
        '9'
    }
}

/// Decimal representation of `n`, without leading zeros (`"0"` for zero).
pub open spec fn dec(n: nat) -> Seq<char>
    decreases n,
{
    if n < 10 {
        seq![digit_char(n)]
    } else {
        dec(n / 10).push(digit_char(n % 10))
    }
}

/// The low `p` decimal digits of `r`, zero-padded to exactly `p` characters.
pub open spec fn zpad(r: nat, p: nat) -> Seq<char>
    decreases p,
{
    if p == 0 {
        Seq::empty()
    } else {
        zpad(r / 10, (p - 1) as nat).push(digit_char(r % 10))
    }
}

pub open spec fn pow10(p: nat) -> nat
    decreases p,
{
    if p == 0 {
        1
    } else {
        10 * pow10((p - 1) as nat)
    }
}

pub open spec fn pow2(k: nat) -> nat
    decreases k,
{
    if k == 0 {
        1
    } else {
        2 * pow2((k - 1) as nat)
    }
}

pub open spec fn pow1024(u: nat) -> nat
    decreases u,
{
    if u == 0 {
        1
    } else {
        1024 * pow1024((u - 1) as nat)
    }
}

/// The number `q / 10^p` written with exactly `p` digits after the point.
pub open spec fn fixed(q: nat, p: nat) -> Seq<char> {
    if p == 0 {
        dec(q)
    } else {
        dec(q / pow10(p)) + seq!['.'] + zpad(q % pow10(p), p)
    }
}

/// `n / d` rounded to the nearest integer, ties to even.
pub open spec fn round_half_even(n: nat, d: nat) -> nat
    recommends
        d > 0,
{
    let q = n / d;
    let r = n % d;
    if 2 * r > d || (2 * r == d && q % 2 == 1) {
        q + 1
    } else {
        q
    }
}

/// The smallest `k` (from `k` upward, at most 64) with `x / 2^k < 2^53`.
pub open spec fn f64_shift(x: nat, k: nat) -> nat
    decreases 64 - k,
{
    if k >= 64 || x / pow2(k) < pow2(53) {
        k
    } else {
        f64_shift(x, k + 1)
    }
}

/// The value of `x` converted to a 64-bit float: `x` rounded to 53 significant
/// bits, ties to even.
pub open spec fn f64_value(x: nat) -> nat {
    let p = pow2(f64_shift(x, 0));
    round_half_even(x, p) * p
}

/// How many times `r` can be divided by 1024 while it stays at least 1024,
/// starting from `u` and stopping at `max`.
pub open spec fn unit_steps(r: nat, u: nat, max: nat) -> nat
    decreases max - u,
{
    if u < max && r >= pow1024(u + 1) {
        unit_steps(r, u + 1, max)
    } else {
        u
    }
}

/// Long unit names: `B`, `KB`, `MB`, `GB`, `TB`, `PB`.
pub open spec fn unit_name(u: nat) -> Seq<char> {
    if u == 0 {
        seq!['B']
    } else if u == 1 {
        seq!['K', 'B']
    } else if u == 2 {
        seq!['M', 'B']
    } else if u == 3 {
        seq!['G', 'B']
    } else if u == 4 {
        seq!['T', 'B']
    } else {
        seq!['P', 'B']
    }
}

/// Short unit names: `B`, `K`, `M`, `G`, `T`.
pub open spec fn short_unit_name(u: nat) -> Seq<char> {
    if u == 0 {
        seq!['B']
    } else if u == 1 {
        seq!['K']
    } else if u == 2 {
        seq!['M']
    } else if u == 3 {
        seq!['G']
    } else {
        seq!['T']
    }
}

/// `r / d` printed with three significant figures: no decimals from 100 up, one
/// from 10 up, two below.
pub open spec fn three_figures(r: nat, d: nat) -> Seq<char> {
    if r >= 100 * d {
        fixed(round_half_even(r, d), 0)
    } else if r >= 10 * d {
        fixed(round_half_even(10 * r, d), 1)
    } else {
        fixed(round_half_even(100 * r, d), 2)
    }
}

/// The text [`bytes`] writes for `raw` bytes.
pub open spec fn bytes_text(raw: nat) -> Seq<char> {
    let r = f64_value(raw);
    let u = unit_steps(r, 0, 5);
    if u == 0 {
        dec(raw) + seq![' ', 'B']
    } else {
        three_figures(r, pow1024(u)) + seq![' '] + unit_name(u)
    }
}

/// The text [`bytes_of`] writes for `used` out of `total` bytes.
pub open spec fn bytes_of_text(used: nat, total: nat) -> Seq<char> {
    let scale = f64_value(if total >= used { total } else { used });
    let u = unit_steps(scale, 0, 5);
    let d = pow1024(u);
    fixed(round_half_even(10 * f64_value(used), d), 1) + seq![' ', '/', ' '] + fixed(
        round_half_even(10 * f64_value(total), d),
        1,
    ) + seq![' '] + unit_name(u)
}

/// The text [`human`] returns for `raw` bytes.
pub open spec fn human_text(raw: nat) -> Seq<char> {
    let r = f64_value(raw);
    let u = unit_steps(r, 0, 4);
    if u == 0 {
        dec(raw) + seq!['B']
    } else {
        fixed(round_half_even(10 * r, pow1024(u)), 1) + short_unit_name(u)
    }
}

fn digit_str(d: u128) -> (s: &'static str)
    requires
        d < 10,
    ensures
        s@ == seq![digit_char(d as nat)],
{
    proof {
        reveal_strlit("0");
        reveal_strlit("1");
        reveal_strlit("2");
        reveal_strlit("3");
        reveal_strlit("4");
        reveal_strlit("5");
        reveal_strlit("6");
        reveal_strlit("7");
        reveal_strlit("8");
        reveal_strlit("9");
    }
    if d == 0 {
        "0"
    } else if d == 1 {
        "1"
    } else if d == 2 {
        "2"
    } else if d == 3 {
        "3"
    } else if d == 4 {
        "4"
    } else if d == 5 {
        "5"
    } else if d == 6 {
        "6"
    } else if d == 7 {
        "7"
    } else if d == 8 {
        "8"
    } else {
        "9"
    }
}

/// Append the decimal digits of `n`.
fn write_dec(out: &mut String, n: u128)
    ensures
        final(out)@ == old(out)@ + dec(n as nat),
    decreases n,
{
    if n >= 10 {
        write_dec(out, n / 10);
    }
    let d = digit_str(n % 10);
    out.append(d);
    proof {
        if n >= 10 {
            assert(dec(n as nat) == dec((n / 10) as nat).push(digit_char((n % 10) as nat)));
        } else {
            assert((n % 10) as nat == n as nat);
        }
    }
}

/// Append `p` zero-padded low digits of `r`.
fn write_zpad(out: &mut String, r: u128, p: u8)
    ensures
        final(out)@ == old(out)@ + zpad(r as nat, p as nat),
    decreases p,
{
    if p > 0 {
        write_zpad(out, r / 10, p - 1);
        out.append(digit_str(r % 10));
    } else {
        assert(zpad(r as nat, 0) =~= Seq::<char>::empty());
    }
}

fn pow10_exec(p: u8) -> (r: u128)
    requires
        p <= 2,
    ensures
        r == pow10(p as nat),
        r >= 1,
{
    proof {
        reveal_with_fuel(pow10, 3);
    }
    if p == 0 {
        1
    } else if p == 1 {
        10
    } else {
        100
    }
}

/// Append `q / 10^p` with `p` decimals.
fn write_fixed(out: &mut String, q: u128, p: u8)
    requires
        p <= 2,
    ensures
        final(out)@ == old(out)@ + fixed(q as nat, p as nat),
{
    if p == 0 {
        write_dec(out, q);
    } else {
        let t = pow10_exec(p);
        write_dec(out, q / t);
        out.append(".");
        proof {
            reveal_strlit(".");
        }
        write_zpad(out, q % t, p);
        proof {
            assert(final(out)@ =~= old(out)@ + fixed(q as nat, p as nat));
        }
    }
}

fn round_half_even_exec(n: u128, d: u128) -> (r: u128)
    requires
        d > 0,
        n <= 0x1_0000_0000_0000_0000_0000u128,
        d <= 0x1_0000_0000_0000_0000_0000u128,
    ensures
        r == round_half_even(n as nat, d as nat),
{
    let q = n / d;
    let r = n % d;
    assert(q <= n) by (nonlinear_arith)
        requires
            q == n / d,
            d > 0,
    ;
    if 2 * r > d || (2 * r == d && q % 2 == 1) {
        q + 1
    } else {
        q
    }
}

proof fn lemma_pow2_positive(k: nat)
    ensures
        pow2(k) >= 1,
    decreases k,
{
    if k > 0 {
        lemma_pow2_positive((k - 1) as nat);
    }
}

/// `x` converted to a 64-bit float, as an exact integer.
fn to_f64_value(x: u64) -> (r: u128)
    ensures
        r == f64_value(x as nat),
        r <= 0x1_0000_0000_0000_0000,
{
    let two53: u64 = 0x20_0000_0000_0000;
    let mut k: u32 = 0;
    let mut p: u64 = 1;
    proof {
        reveal_with_fuel(pow2, 54);
        assert(pow2(53) == two53);
        assert(pow2(11) == 2048);
    }
    while k < 64 && x / p >= two53
        invariant
            k <= 11,
            1 <= p <= 2048,
            p == pow2(k as nat),
            two53 == 0x20_0000_0000_0000u64,
            pow2(53) == two53,
            pow2(11) == 2048,
            f64_shift(x as nat, 0) == f64_shift(x as nat, k as nat),
        decreases 64 - k,
    {
        assert(k < 11) by {
            if k == 11 {
                assert(p == 2048);
                assert(x / 2048u64 < 0x20_0000_0000_0000u64) by (bit_vector);
                assert(x / p < two53);
            }
        }
        proof {
            lemma_pow2_mono((k + 1) as nat, 11);
        }
        p = p * 2;
        k = k + 1;
    }
    assert(x / p < two53);
    let q = round_half_even_exec(x as u128, p as u128);
    proof {
        lemma_pow2_positive(k as nat);
        assert(q <= two53) by (nonlinear_arith)
            requires
                x / p < two53,
                q == round_half_even(x as nat, p as nat),
                p > 0,
        {
            assert(x % p < p);
        }
        assert(p <= 2048) by {
            lemma_pow2_mono(k as nat, 11);
        }
        assert(q * p <= 0x1_0000_0000_0000_0000) by (nonlinear_arith)
            requires
                q <= 0x20_0000_0000_0000,
                p <= 2048,
        ;
    }
    q * (p as u128)
}

proof fn lemma_pow2_mono(a: nat, b: nat)
    requires
        a <= b,
    ensures
        pow2(a) <= pow2(b),
    decreases b,
{
    if a < b {
        lemma_pow2_mono(a, (b - 1) as nat);
        lemma_pow2_positive((b - 1) as nat);
    }
}

proof fn lemma_pow1024_bound(u: nat)
    requires
        u <= 5,
    ensures
        1 <= pow1024(u) <= 0x4_0000_0000_0000,
        u <= 4 ==> pow1024(u) <= 0x100_0000_0000,
{
    reveal_with_fuel(pow1024, 6);
}

/// How many binary unit steps `r` takes (at most `max`), and `1024` to that power.
fn unit_steps_exec(r: u128, max: u32) -> (res: (u32, u128))
    requires
        max <= 5,
    ensures
        res.0 == unit_steps(r as nat, 0, max as nat),
        res.1 == pow1024(res.0 as nat),
        res.0 <= max,
        1 <= res.1 <= 0x4_0000_0000_0000,
{
    let mut u: u32 = 0;
    let mut d: u128 = 1;
    proof {
        lemma_pow1024_bound(0);
    }
    while u < max && r >= d * 1024
        invariant
            u <= max <= 5,
            d == pow1024(u as nat),
            1 <= d <= 0x4_0000_0000_0000,
            unit_steps(r as nat, 0, max as nat) == unit_steps(r as nat, u as nat, max as nat),
        decreases max - u,
    {
        proof {
            lemma_pow1024_bound((u + 1) as nat);
        }
        d = d * 1024;
        u = u + 1;
    }
    (u, d)
}

fn unit_str(u: u32) -> (s: &'static str)
    requires
        u <= 5,
    ensures
        s@ == unit_name(u as nat),
{
    proof {
        reveal_strlit("B");
        reveal_strlit("KB");
        reveal_strlit("MB");
        reveal_strlit("GB");
        reveal_strlit("TB");
        reveal_strlit("PB");
    }
    if u == 0 {
        "B"
    } else if u == 1 {
        "KB"
    } else if u == 2 {
        "MB"
    } else if u == 3 {
        "GB"
    } else if u == 4 {
        "TB"
    } else {
        "PB"
    }
}

fn short_unit_str(u: u32) -> (s: &'static str)
    requires
        u <= 4,
    ensures
        s@ == short_unit_name(u as nat),
{
    proof {
        reveal_strlit("B");
        reveal_strlit("K");
        reveal_strlit("M");
        reveal_strlit("G");
        reveal_strlit("T");
    }
    if u == 0 {
        "B"
    } else if u == 1 {
        "K"
    } else if u == 2 {
        "M"
    } else if u == 3 {
        "G"
    } else {
        "T"
    }
}

/// Append `r / d` with three significant figures.
fn write_three_figures(out: &mut String, r: u128, d: u128)
    requires
        1 <= d <= 0x4_0000_0000_0000,
        r <= 0x1_0000_0000_0000_0000,
    ensures
        final(out)@ == old(out)@ + three_figures(r as nat, d as nat),
{
    if r >= 100 * d {
        let q = round_half_even_exec(r, d);
        write_fixed(out, q, 0);
    } else if r >= 10 * d {
        let q = round_half_even_exec(10 * r, d);
        write_fixed(out, q, 1);
    } else {
        let q = round_half_even_exec(100 * r, d);
        write_fixed(out, q, 2);
    }
}

/// Write a byte count with three significant figures in binary units:
/// `12 B`, `1.50 KB`, `45.6 MB`, `789 MB`, `1.23 GB`. Below one kibibyte the exact
/// count is shown.
pub fn bytes(out: &mut String, b: crate::model::Bytes)
    ensures
        final(out)@ == bytes_text(b.0 as nat),
{
    *out = String::new();
    let raw = b.0;
    let r = to_f64_value(raw);
    let (u, d) = unit_steps_exec(r, 5);
    if u == 0 {
        write_dec(out, raw as u128);
        out.append(" B");
        proof {
            reveal_strlit(" B");
        }
    } else {
        write_three_figures(out, r, d);
        out.append(" ");
        out.append(unit_str(u));
        proof {
            reveal_strlit(" ");
        }
    }
    proof {
        assert(final(out)@ =~= bytes_text(b.0 as nat));
    }
}

/// Write a plain integer.
pub fn count(out: &mut String, n: u32)
    ensures
        final(out)@ == dec(n as nat),
{
    *out = String::new();
    write_dec(out, n as u128);
    proof {
        assert(final(out)@ =~= dec(n as nat));
    }
}

/// Write `used / total` with one decimal and a shared unit chosen from the larger
/// value, e.g. `52.3 / 64.0 GB`.
pub fn bytes_of(out: &mut String, used: crate::model::Bytes, total: crate::model::Bytes)
    ensures
        final(out)@ == bytes_of_text(used.0 as nat, total.0 as nat),
{
    *out = String::new();
    let larger = if total.0 >= used.0 {
        total.0
    } else {
        used.0
    };
    let scale = to_f64_value(larger);
    let (u, d) = unit_steps_exec(scale, 5);
    let a = round_half_even_exec(10 * to_f64_value(used.0), d);
    let b = round_half_even_exec(10 * to_f64_value(total.0), d);
    write_fixed(out, a, 1);
    out.append(" / ");
    write_fixed(out, b, 1);
    out.append(" ");
    out.append(unit_str(u));
    proof {
        reveal_strlit(" / ");
        reveal_strlit(" ");
        assert(final(out)@ =~= bytes_of_text(used.0 as nat, total.0 as nat));
    }
}

/// Compact byte count with one decimal and a one-letter unit: `512B`, `1.5K`,
/// `3.2G`.
pub fn human(b: crate::model::Bytes) -> (s: String)
    ensures
        s@ == human_text(b.0 as nat),
{
    let mut out = String::new();
    let raw = b.0;
    let r = to_f64_value(raw);
    let (u, d) = unit_steps_exec(r, 4);
    if u == 0 {
        write_dec(&mut out, raw as u128);
        out.append("B");
        proof {
            reveal_strlit("B");
        }
    } else {
        let q = round_half_even_exec(10 * r, d);
        write_fixed(&mut out, q, 1);
        out.append(short_unit_str(u));
    }
    proof {
        assert(out@ =~= human_text(b.0 as nat));
    }
    out
}

} // verus!
