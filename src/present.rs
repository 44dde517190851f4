//! Presentation transforms over parsed history: byte counts for people,
//! the most recent records, the largest processes, and shortened text.

use vstd::prelude::*;

use crate::decimal::{decimal_text, digit_char, push_decimal};
use crate::record::{ProcessInfo, Record};
use crate::text::{chars_of, string_of};

verus! {

pub open spec fn pow1000(e: nat) -> nat
    decreases e,
{
    if e == 0 {
        1
    } else {
        1000 * pow1000((e - 1) as nat)
    }
}

/// The decimal unit exponent of `n`: the largest `e` with `1000^e <= n`
/// (`0` for `0`).
pub open spec fn exponent_of(n: nat) -> nat
    decreases n,
{
    if n < 1000 {
        0
    } else {
        1 + exponent_of(n / 1000)
    }
}

/// `n / 1000^e` in hundredths, rounded to nearest, ties to even.
pub open spec fn rounded_hundredths(n: nat) -> nat {
    let d = pow1000(exponent_of(n));
    let q = (n * 100) / d;
    let rem = (n * 100) % d;
    if 2 * rem > d || (2 * rem == d && q % 2 == 1) {
        q + 1
    } else {
        q
    }
}

pub open spec fn unit_text(e: nat) -> Seq<char> {
    if e == 0 {
        seq!['B']
    } else if e == 1 {
        seq!['k', 'B']
    } else if e == 2 {
        seq!['M', 'B']
    } else if e == 3 {
        seq!['G', 'B']
    } else if e == 4 {
        seq!['T', 'B']
    } else if e == 5 {
        seq!['P', 'B']
    } else if e == 6 {
        seq!['E', 'B']
    } else if e == 7 {
        seq!['Z', 'B']
    } else {
        seq!['Y', 'B']
    }
}

/// A byte count in decimal units (powers of 1000) with two decimals,
/// e.g. `1.50 kB`.
pub open spec fn pretty_bytes(n: nat) -> Seq<char> {
    let h = rounded_hundredths(n);
    decimal_text(h / 100) + seq!['.', digit_char((h % 100) / 10), digit_char(h % 10), ' ']
        + unit_text(exponent_of(n))
}

/// The last `count` items of `s`, or all of them when there are fewer.
pub open spec fn last_n<T>(s: Seq<T>, count: nat) -> Seq<T> {
    if count >= s.len() {
        s
    } else {
        s.skip(s.len() - count)
    }
}

proof fn lemma_pow1000_exceeds(e: nat)
    ensures
        pow1000(e) > e,
    decreases e,
{
    if e > 0 {
        lemma_pow1000_exceeds((e - 1) as nat);
    }
}

/// Writes a byte count for people, e.g. `0.00 B`, `1.50 kB`.
pub fn pretty_print_bytes(num: u64) -> (r: String)
    ensures
        r@ == pretty_bytes(num as nat),
{
    let n: u128 = num as u128;
    let mut m: u128 = n;
    let mut d: u128 = 1;
    let mut e: u64 = 0;
    while m >= 1000
        invariant
            exponent_of(n as nat) == e + exponent_of(m as nat),
            d == pow1000(e as nat),
            1 <= d <= n || d == 1,
            m == n / d,
            n <= 0xffff_ffff_ffff_ffff,
            e < d,
        decreases m,
    {
        proof {
            vstd::arithmetic::div_mod::lemma_div_denominator(n as int, d as int, 1000);
            assert(d * 1000 <= n) by (nonlinear_arith)
                requires
                    m == n / d,
                    m >= 1000,
                    d >= 1,
            ;
            lemma_pow1000_exceeds((e + 1) as nat);
        }
        m = m / 1000;
        d = d * 1000;
        e = e + 1;
    }
    let scaled: u128 = n * 100;
    let q: u128 = scaled / d;
    let rem: u128 = scaled % d;
    let h: u128 = if 2 * rem > d || (2 * rem == d && q % 2 == 1) {
        q + 1
    } else {
        q
    };
    assert(q <= scaled) by (nonlinear_arith)
        requires
            q == scaled / d,
            d >= 1,
    ;
    assert(h / 100 <= n);
    let mut out: Vec<char> = Vec::new();
    push_decimal(&mut out, (h / 100) as u64);
    let tenths: u8 = ((h % 100) / 10) as u8;
    let ones: u8 = (h % 10) as u8;
    out.push('.');
    out.push((tenths + 48) as char);
    out.push((ones + 48) as char);
    out.push(' ');
    let unit = if e == 0 {
        "B"
    } else if e == 1 {
        "kB"
    } else if e == 2 {
        "MB"
    } else if e == 3 {
        "GB"
    } else if e == 4 {
        "TB"
    } else if e == 5 {
        "PB"
    } else if e == 6 {
        "EB"
    } else if e == 7 {
        "ZB"
    } else {
        "YB"
    };
    proof {
        reveal_strlit("B");
        reveal_strlit("kB");
        reveal_strlit("MB");
        reveal_strlit("GB");
        reveal_strlit("TB");
        reveal_strlit("PB");
        reveal_strlit("EB");
        reveal_strlit("ZB");
        reveal_strlit("YB");
    }
    crate::text::push_chars(&mut out, unit);
    assert(out@ =~= pretty_bytes(num as nat));
    string_of(&out)
}

/// Keeps the last `count` items of `v`.
pub fn keep_last<T>(v: Vec<T>, count: usize) -> (r: Vec<T>)
    ensures
        r@ == last_n(v@, count as nat),
{
    let ghost all = v@;
    let mut v = v;
    if count >= v.len() {
        return v;
    }
    let at = v.len() - count;
    let r = v.split_off(at);
    assert(r@ =~= all.skip(at as int));
    r
}

/// The `count` most recent records of a history listed oldest first, in
/// the same order.
pub fn tail_records(records: Vec<Record>, count: usize) -> (r: Vec<Record>)
    ensures
        r@ == last_n(records@, count as nat),
{
    keep_last(records, count)
}

/// The `count` processes with the most resident memory, from snapshots
/// listed ascending by resident memory; their order is kept.
pub fn limit_processes(processes: Vec<ProcessInfo>, count: usize) -> (r: Vec<ProcessInfo>)
    ensures
        r@ == last_n(processes@, count as nat),
{
    keep_last(processes, count)
}

/// The first `max` characters of `s`, or all of `s` when it is shorter.
pub fn truncate_chars(s: &str, max: usize) -> (r: String)
    ensures
        r@ == (if s@.len() <= max {
            s@
        } else {
            s@.take(max as int)
        }),
{
    let v = chars_of(s);
    if v.len() <= max {
        return string_of(&v);
    }
    let mut out: Vec<char> = Vec::new();
    let mut i: usize = 0;
    while i < max
        invariant
            i <= max < v@.len(),
            out@ == v@.take(i as int),
        decreases max - i,
    {
        out.push(v[i]);
        assert(out@ =~= v@.take(i + 1));
        i = i + 1;
    }
    string_of(&out)
}

}