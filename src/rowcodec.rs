//! Column values of row images: how many bytes a column's value takes and
//! which value it is, by the column's type code and table-map metadata.

use vstd::prelude::*;
use chrono::{Datelike, Timelike};
use crate::binlog::{lossy_text, utf8_lossy};
use crate::error::CdcError;
use crate::events::{CellValue, DateTimeValue};
use crate::wire::{read_u16_le, read_u24_le, read_u32_le, read_u64_le, u16_le, u24_le, u32_le, u64_le};

verus! {

pub const TYPE_TINY: u8 = 1;
pub const TYPE_SHORT: u8 = 2;
pub const TYPE_LONG: u8 = 3;
pub const TYPE_FLOAT: u8 = 4;
pub const TYPE_DOUBLE: u8 = 5;
pub const TYPE_LONGLONG: u8 = 8;
pub const TYPE_INT24: u8 = 9;
pub const TYPE_YEAR: u8 = 13;
pub const TYPE_VARCHAR: u8 = 15;
pub const TYPE_BIT: u8 = 16;
pub const TYPE_TIMESTAMP: u8 = 7;
pub const TYPE_DATE: u8 = 10;
pub const TYPE_TIME: u8 = 11;
pub const TYPE_DATETIME: u8 = 12;
pub const TYPE_NEWDATE: u8 = 14;
pub const TYPE_TIMESTAMP2: u8 = 17;
pub const TYPE_DATETIME2: u8 = 18;
pub const TYPE_TIME2: u8 = 19;
pub const TYPE_JSON: u8 = 245;
pub const TYPE_NEWDECIMAL: u8 = 246;
pub const TYPE_ENUM: u8 = 247;
pub const TYPE_SET: u8 = 248;
pub const TYPE_BLOB: u8 = 252;
pub const TYPE_VAR_STRING: u8 = 253;
pub const TYPE_STRING: u8 = 254;
pub const TYPE_GEOMETRY: u8 = 255;

/// How many metadata bytes the table map carries for a column type.
pub open spec fn meta_size(t: u8) -> nat {
    if t == TYPE_FLOAT || t == TYPE_DOUBLE || t == TYPE_BLOB || t == TYPE_GEOMETRY || t
        == TYPE_JSON || t == TYPE_TIMESTAMP2 || t == TYPE_DATETIME2 || t == TYPE_TIME2 {
        1
    } else if t == TYPE_VARCHAR || t == TYPE_VAR_STRING || t == TYPE_BIT || t == TYPE_NEWDECIMAL || t
        == TYPE_STRING || t == TYPE_ENUM || t == TYPE_SET {
        2
    } else {
        0
    }
}

pub fn meta_size_of(t: u8) -> (r: usize)
    ensures
        r == meta_size(t),
{
    if t == TYPE_FLOAT || t == TYPE_DOUBLE || t == TYPE_BLOB || t == TYPE_GEOMETRY || t
        == TYPE_JSON || t == TYPE_TIMESTAMP2 || t == TYPE_DATETIME2 || t == TYPE_TIME2 {
        1
    } else if t == TYPE_VARCHAR || t == TYPE_VAR_STRING || t == TYPE_BIT || t == TYPE_NEWDECIMAL || t
        == TYPE_STRING || t == TYPE_ENUM || t == TYPE_SET {
        2
    } else {
        0
    }
}

/// Real type and length of a STRING column, from its two metadata bytes.
pub open spec fn string_meta(m: Seq<u8>) -> (u8, u32) {
    let m0 = m[0];
    let m1 = m[1];
    if (m0 & 0x30u8) != 0x30u8 {
        ((m0 | 0x30u8), (m1 as u32) | ((((m0 & 0x30u8) ^ 0x30u8) as u32) << 4u32))
    } else {
        (m0, m1 as u32)
    }
}

/// Unsigned little-endian value of `b[p..p+n]`.
pub open spec fn le_n(b: Seq<u8>, p: int, n: nat) -> nat
    decreases n,
{
    if n == 0 {
        0
    } else {
        (b[p] + 256 * le_n(b, p + 1, (n - 1) as nat)) as nat
    }
}

/// Unsigned big-endian value of `b[p..p+n]`.
pub open spec fn be_n(b: Seq<u8>, p: int, n: nat) -> nat
    decreases n,
{
    if n == 0 {
        0
    } else {
        (be_n(b, p, (n - 1) as nat) * 256 + b[p + n - 1]) as nat
    }
}

/// Where a column value starts its payload and how long it is, for the
/// variable-length kinds: `(prefix bytes, payload bytes)`.
pub open spec fn var_layout(b: Seq<u8>, p: int, t: u8, m: Seq<u8>) -> Option<(nat, nat)> {
    if t == TYPE_VARCHAR || t == TYPE_VAR_STRING {
        let max = u16_le(m, 0);
        let pl: nat = if max < 256 { 1 } else { 2 };
        if p + pl <= b.len() {
            Some((pl, le_n(b, p, pl)))
        } else {
            None
        }
    } else if t == TYPE_STRING && string_meta(m).0 != TYPE_ENUM && string_meta(m).0 != TYPE_SET {
        let pl: nat = if string_meta(m).1 < 256 { 1 } else { 2 };
        if p + pl <= b.len() {
            Some((pl, le_n(b, p, pl)))
        } else {
            None
        }
    } else if t == TYPE_BLOB || t == TYPE_JSON || t == TYPE_GEOMETRY {
        let pl = m[0] as nat;
        if 1 <= pl <= 4 && p + pl <= b.len() {
            Some((pl, le_n(b, p, pl)))
        } else {
            None
        }
    } else {
        None
    }
}

/// Bytes a non-null value of column type `t` with metadata `m` takes at `p`,
/// or `None` for an unsupported type or when the bytes run out.
pub open spec fn cell_len(b: Seq<u8>, p: int, t: u8, m: Seq<u8>) -> Option<nat> {
    if !known_type(t) {
        if p <= b.len() {
            Some((b.len() - p) as nat)
        } else {
            None
        }
    } else {
        known_cell_len(b, p, t, m)
    }
}

/// Type codes this decoder reads. A value of another type has no known
/// length, so it keeps the rest of the event as raw bytes.
pub open spec fn known_type(t: u8) -> bool {
    t == TYPE_TINY || t == TYPE_SHORT || t == TYPE_LONG || t == TYPE_FLOAT || t == TYPE_DOUBLE || t
        == TYPE_TIMESTAMP || t == TYPE_LONGLONG || t == TYPE_INT24 || t == TYPE_DATE || t == TYPE_TIME
        || t == TYPE_DATETIME || t == TYPE_YEAR || t == TYPE_NEWDATE || t == TYPE_VARCHAR || t
        == TYPE_BIT || t == TYPE_TIMESTAMP2 || t == TYPE_DATETIME2 || t == TYPE_TIME2 || t
        == TYPE_JSON || t == TYPE_NEWDECIMAL || t == TYPE_ENUM || t == TYPE_SET || t == TYPE_BLOB
        || t == TYPE_VAR_STRING || t == TYPE_STRING || t == TYPE_GEOMETRY
}

/// Bytes a value of a known type takes, as `cell_len` says.
pub open spec fn known_cell_len(b: Seq<u8>, p: int, t: u8, m: Seq<u8>) -> Option<nat> {
    let fixed: Option<nat> = if t == TYPE_TINY || t == TYPE_YEAR {
        Some(1)
    } else if t == TYPE_SHORT {
        Some(2)
    } else if t == TYPE_INT24 || t == TYPE_DATE || t == TYPE_NEWDATE || t == TYPE_TIME {
        Some(3)
    } else if t == TYPE_LONG || t == TYPE_FLOAT || t == TYPE_TIMESTAMP {
        Some(4)
    } else if t == TYPE_LONGLONG || t == TYPE_DOUBLE || t == TYPE_DATETIME {
        Some(8)
    } else if t == TYPE_DATETIME2 && m[0] <= 6 && p + 5 <= b.len() && be_n(b, p, 5)
        >= 0x80_0000_0000 {
        Some(5 + ((m[0] as nat) + 1) / 2)
    } else if t == TYPE_TIMESTAMP2 && m[0] <= 6 {
        Some(4 + ((m[0] as nat) + 1) / 2)
    } else if t == TYPE_TIME2 && m[0] <= 6 && p + 3 <= b.len() && be_n(b, p, 3) >= 0x80_0000 {
        Some(3 + ((m[0] as nat) + 1) / 2)
    } else if t == TYPE_BIT {
        Some((m[1] as nat) + ((m[0] as nat) + 7) / 8)
    } else if t == TYPE_NEWDECIMAL && decimal_meta_ok(m) {
        Some(decimal_size(m[0] as int, m[1] as int))
    } else if t == TYPE_STRING && ((string_meta(m).0 == TYPE_ENUM && string_meta(m).1 <= 2) || (
    string_meta(m).0 == TYPE_SET && string_meta(m).1 <= 8)) {
        Some(string_meta(m).1 as nat)
    } else {
        None
    };
    match fixed {
        Some(n) => if p + n <= b.len() {
            Some(n)
        } else {
            None
        },
        None => match var_layout(b, p, t, m) {
            Some((pl, n)) => if p + pl + n <= b.len() {
                Some(pl + n)
            } else {
                None
            },
            None => None,
        },
    }
}

/// Metadata that the table map gives a column of type `t`.
pub open spec fn meta_fits(t: u8, m: Seq<u8>) -> bool {
    m.len() == meta_size(t)
}

/// The date and time packed in a DATETIME2 value `v` (already unbiased).
pub open spec fn datetime_of(v: nat, micros: nat) -> DateTimeValue {
    let ymd = v / 131072;
    let ym = ymd / 32;
    let hms = v % 131072;
    DateTimeValue {
        year: (ym / 13) as u32,
        month: (ym % 13) as u32,
        day: (ymd % 32) as u32,
        hour: (hms / 4096) as u32,
        minute: ((hms / 64) % 64) as u32,
        second: (hms % 64) as u32,
        micros: micros as u32,
    }
}

/// Decimal numeral of `n` with leading zeros up to `w` digits.
pub open spec fn padded(n: nat, w: nat) -> Seq<char> {
    Seq::new(
        if crate::text::dec(n).len() < w {
            (w - crate::text::dec(n).len()) as nat
        } else {
            0
        },
        |i: int| '0',
    ) + crate::text::dec(n)
}

fn push_padded(out: &mut Vec<char>, n: u64, w: usize)
    ensures
        final(out)@ == old(out)@ + padded(n as nat, w as nat),
{
    let d = crate::text::u64_digits(n);
    let zeros: usize = if d.len() < w { w - d.len() } else { 0 };
    let mut i: usize = 0;
    let ghost start = out@;
    while i < zeros
        invariant
            i <= zeros,
            out@ == start + Seq::new(i as nat, |k: int| '0'),
            start == old(out)@,
        decreases zeros - i,
    {
        out.push('0');
        i = i + 1;
        assert(out@ =~= start + Seq::new(i as nat, |k: int| '0'));
    }
    let mut j: usize = 0;
    let ghost mid = out@;
    while j < d.len()
        invariant
            j <= d@.len(),
            out@ == mid + d@.subrange(0, j as int),
        decreases d@.len() - j,
    {
        out.push(d[j]);
        j = j + 1;
        assert(out@ =~= mid + d@.subrange(0, j as int));
    }
    assert(d@.subrange(0, d@.len() as int) =~= d@);
    assert(final(out)@ =~= old(out)@ + padded(n as nat, w as nat));
}

/// Calendar fields (year, month, day, hour, minute, second) in UTC of a
/// count of seconds since the Unix epoch.
pub uninterp spec fn utc_fields(secs: u32) -> (u32, u32, u32, u32, u32, u32);

/// Relies on chrono's `DateTime::from_timestamp` and its `Datelike` and
/// `Timelike` accessors: the UTC calendar fields of the instant, which
/// depend on the number of seconds alone (every `u32` count is in range;
/// UTC days have 86400 seconds, so the time of day is the remainder).
#[verifier::external_body]
fn utc_fields_of(secs: u32) -> (r: (u32, u32, u32, u32, u32, u32))
    ensures
        r == utc_fields(secs),
        r.3 == (secs / 3600) % 24,
        r.4 == (secs / 60) % 60,
        r.5 == secs % 60,
{
    let dt = chrono::DateTime::from_timestamp(secs as i64, 0).unwrap_or_default();
    (dt.year() as u32, dt.month(), dt.day(), dt.hour(), dt.minute(), dt.second())
}

/// Bytes that hold `k < 10` decimal digits in the packed decimal format.
pub open spec fn dig2bytes(k: int) -> nat {
    if k <= 0 {
        0
    } else if k <= 2 {
        1
    } else if k <= 4 {
        2
    } else if k <= 6 {
        3
    } else {
        4
    }
}

fn dig2bytes_of(k: usize) -> (r: usize)
    ensures
        r == dig2bytes(k as int),
{
    if k == 0 {
        0
    } else if k <= 2 {
        1
    } else if k <= 4 {
        2
    } else if k <= 6 {
        3
    } else {
        4
    }
}

/// Bytes of a DECIMAL(`prec`, `scale`) value.
pub open spec fn decimal_size(prec: int, scale: int) -> nat {
    let intg = prec - scale;
    ((intg / 9) * 4 + dig2bytes(intg % 9) + (scale / 9) * 4 + dig2bytes(scale % 9)) as nat
}

/// Precision and scale the decoder takes.
pub open spec fn decimal_meta_ok(m: Seq<u8>) -> bool {
    1 <= m[0] <= 65 && m[1] <= 30 && m[1] <= m[0]
}

/// Byte `i` of a packed decimal at `p`, with the sign bit flipped and, for a
/// negative value, every bit inverted.
pub open spec fn decimal_byte(b: Seq<u8>, p: int, i: int, neg: bool) -> u8 {
    ((b[p + i] ^ (if neg { 0xFFu8 } else { 0u8 })) ^ (if i == 0 { 0x80u8 } else { 0u8 }))
}

/// The value's bytes once sign-normalised.
pub open spec fn decimal_bytes(b: Seq<u8>, p: int, n: nat, neg: bool) -> Seq<u8> {
    Seq::new(n, |i: int| decimal_byte(b, p, i, neg))
}

/// Nine-digit groups `0..count` starting at `off`, each 4 bytes.
pub open spec fn groups_text(d: Seq<u8>, off: int, count: nat) -> Seq<char>
    decreases count,
{
    if count == 0 {
        Seq::empty()
    } else {
        groups_text(d, off, (count - 1) as nat) + padded(be_n(d, off + 4 * (count - 1), 4), 9)
    }
}

/// `s` without leading `0`s.
pub open spec fn strip_zeros(s: Seq<char>) -> Seq<char>
    decreases s.len(),
{
    if s.len() > 0 && s[0] == '0' {
        strip_zeros(s.drop_first())
    } else {
        s
    }
}

/// Integer digits of a sign-normalised decimal with `intg` integer digits,
/// leading zeros removed.
pub open spec fn decimal_int_digits(d: Seq<u8>, intg: int) -> Seq<char> {
    let lb = dig2bytes(intg % 9) as int;
    let lead = if intg % 9 > 0 {
        padded(be_n(d, 0, lb as nat), (intg % 9) as nat)
    } else {
        Seq::empty()
    };
    strip_zeros(lead + groups_text(d, lb, (intg / 9) as nat))
}

/// The `scale` fraction digits of a sign-normalised decimal.
pub open spec fn decimal_frac_digits(d: Seq<u8>, intg: int, scale: int) -> Seq<char> {
    let fo = dig2bytes(intg % 9) + 4 * (intg / 9);
    let fb = dig2bytes(scale % 9) as int;
    groups_text(d, fo, (scale / 9) as nat) + if scale % 9 > 0 {
        padded(be_n(d, fo + 4 * (scale / 9), fb as nat), (scale % 9) as nat)
    } else {
        Seq::empty()
    }
}

/// The text of a DECIMAL(`prec`, `scale`) value at `p`: sign, integer
/// digits without leading zeros (at least `0`), and `scale` fraction digits.
pub open spec fn decimal_text(b: Seq<u8>, p: int, prec: int, scale: int) -> Seq<char> {
    let neg = (b[p] & 0x80u8) == 0u8;
    let d = decimal_bytes(b, p, decimal_size(prec, scale), neg);
    let int_digits = decimal_int_digits(d, prec - scale);
    (if neg { seq!['-'] } else { Seq::empty() }) + (if int_digits.len() == 0 {
        seq!['0']
    } else {
        int_digits
    }) + (if scale > 0 { seq!['.'] + decimal_frac_digits(d, prec - scale, scale) } else { Seq::empty() })
}

/// Microseconds of a fractional-seconds field of `n` bytes holding `f`.
pub open spec fn micros_of(f: nat, n: nat) -> nat {
    if n == 1 {
        f * 10000
    } else if n == 2 {
        f * 100
    } else {
        f
    }
}

/// `c` is the value of the column at `p` (its length given by `cell_len`).
pub open spec fn cell_is(c: CellValue, b: Seq<u8>, p: int, t: u8, m: Seq<u8>) -> bool {
    if !known_type(t) {
        c is Bytes && c->Bytes_0@ == b.subrange(p, b.len() as int)
    } else if t == TYPE_TINY {
        c == CellValue::Int8(b[p] as i8)
    } else if t == TYPE_YEAR {
        c == CellValue::UInt16(if b[p] == 0 { 0 } else { (1900 + b[p]) as u16 })
    } else if t == TYPE_SHORT {
        c == CellValue::Int16(u16_le(b, p) as i16)
    } else if t == TYPE_INT24 {
        c == CellValue::Int32(
            if u24_le(b, p) >= 0x80_0000 {
                (u24_le(b, p) - 0x100_0000) as i32
            } else {
                u24_le(b, p) as i32
            },
        )
    } else if t == TYPE_LONG {
        c == CellValue::Int32(u32_le(b, p) as i32)
    } else if t == TYPE_FLOAT {
        c == CellValue::Float(u32_le(b, p))
    } else if t == TYPE_LONGLONG {
        c == CellValue::Int64(u64_le(b, p) as i64)
    } else if t == TYPE_DOUBLE {
        c == CellValue::Double(u64_le(b, p))
    } else if t == TYPE_DATETIME2 {
        let fb = ((m[0] as nat) + 1) / 2;
        c == CellValue::DateTime(
            datetime_of(
                (be_n(b, p, 5) - 0x80_0000_0000) as nat,
                micros_of(be_n(b, p + 5, fb), fb),
            ),
        )
    } else if t == TYPE_TIMESTAMP2 {
        let fb = ((m[0] as nat) + 1) / 2;
        let f = utc_fields(be_n(b, p, 4) as u32);
        c == CellValue::DateTime(
            DateTimeValue {
                year: f.0,
                month: f.1,
                day: f.2,
                hour: f.3,
                minute: f.4,
                second: f.5,
                micros: micros_of(be_n(b, p + 4, fb), fb) as u32,
            },
        )
    } else if t == TYPE_TIMESTAMP {
        let f = utc_fields(u32_le(b, p));
        c == CellValue::DateTime(
            DateTimeValue { year: f.0, month: f.1, day: f.2, hour: f.3, minute: f.4, second: f.5, micros: 0 },
        )
    } else if t == TYPE_DATETIME {
        let v = u64_le(b, p) as nat;
        let d = v / 1000000;
        let tm = v % 1000000;
        c == CellValue::DateTime(
            DateTimeValue {
                year: (d / 10000) as u32,
                month: ((d / 100) % 100) as u32,
                day: (d % 100) as u32,
                hour: (tm / 10000) as u32,
                minute: ((tm / 100) % 100) as u32,
                second: (tm % 100) as u32,
                micros: 0,
            },
        )
    } else if t == TYPE_TIME {
        let v = u24_le(b, p) as nat;
        c is Time && c->Time_0@ == padded(v / 10000, 2) + seq![':'] + padded((v / 100) % 100, 2)
            + seq![':'] + padded(v % 100, 2)
    } else if t == TYPE_DATE || t == TYPE_NEWDATE {
        let v = u24_le(b, p) as nat;
        c is Date && c->Date_0@ == padded(v / 512, 4) + seq!['-'] + padded((v / 32) % 16, 2)
            + seq!['-'] + padded(v % 32, 2)
    } else if t == TYPE_TIME2 {
        let w = (be_n(b, p, 3) - 0x80_0000) as nat;
        c is Time && c->Time_0@ == padded((w / 4096) % 1024, 2) + seq![':'] + padded(
            (w / 64) % 64,
            2,
        ) + seq![':'] + padded(w % 64, 2)
    } else if t == TYPE_NEWDECIMAL {
        c is Decimal && c->Decimal_0@ == decimal_text(b, p, m[0] as int, m[1] as int)
    } else if t == TYPE_BIT {
        c is Bytes && c->Bytes_0@ == b.subrange(p, p + cell_len(b, p, t, m)->Some_0)
    } else if t == TYPE_STRING && string_meta(m).0 == TYPE_ENUM {
        c == CellValue::UInt16(le_n(b, p, string_meta(m).1 as nat) as u16)
    } else if t == TYPE_STRING && string_meta(m).0 == TYPE_SET {
        c == CellValue::UInt64(le_n(b, p, string_meta(m).1 as nat) as u64)
    } else {
        let (pl, n) = var_layout(b, p, t, m)->Some_0;
        let payload = b.subrange(p + pl, p + pl + n);
        if t == TYPE_BLOB || t == TYPE_GEOMETRY {
            c is Bytes && c->Bytes_0@ == payload
        } else if t == TYPE_JSON {
            c is Json && c->Json_0@ == payload
        } else {
            c is String && c->String_0@ == lossy_text(payload)
        }
    }
}

/// Reads `n <= 8` bytes little-endian.
fn read_le_n(b: &[u8], p: usize, n: usize) -> (r: u64)
    requires
        n <= 8,
        p + n <= b@.len(),
    ensures
        r == le_n(b@, p as int, n as nat),
    decreases n,
{
    let _len = b.len();
    if n == 0 {
        0
    } else {
        let rest = read_le_n(b, p + 1, n - 1);
        proof {
            lemma_le_n_bound(b@, p as int + 1, (n - 1) as nat);
            vstd::arithmetic::power2::lemma_pow2_adds(8, 8 * (n - 1) as nat);
            if n < 8 {
                vstd::arithmetic::power2::lemma_pow2_strictly_increases(8 * n as nat, 64);
            }
            vstd::arithmetic::power2::lemma2_to64();
            vstd::arithmetic::power2::lemma2_to64_rest();
            assert(8 * n as nat == 8 + 8 * (n - 1) as nat);
        }
        assert(256 * rest + b[p as int] < 0x1_0000_0000_0000_0000) by (nonlinear_arith)
            requires
                rest < vstd::arithmetic::power2::pow2(8 * (n - 1) as nat),
                vstd::arithmetic::power2::pow2(8 * n as nat) == vstd::arithmetic::power2::pow2(8)
                    * vstd::arithmetic::power2::pow2(8 * (n - 1) as nat),
                vstd::arithmetic::power2::pow2(8) == 256,
                vstd::arithmetic::power2::pow2(8 * n as nat) <= 0x1_0000_0000_0000_0000,
                b[p as int] < 256,
        ;
        b[p] as u64 + 256 * rest
    }
}

proof fn lemma_le_n_bound(b: Seq<u8>, p: int, n: nat)
    requires
        0 <= p,
        p + n <= b.len(),
    ensures
        le_n(b, p, n) < vstd::arithmetic::power2::pow2(8 * n),
    decreases n,
{
    vstd::arithmetic::power2::lemma2_to64();
    if n > 0 {
        lemma_le_n_bound(b, p + 1, (n - 1) as nat);
        vstd::arithmetic::power2::lemma_pow2_adds(8, 8 * (n - 1) as nat);
        let rest = le_n(b, p + 1, (n - 1) as nat);
        let q = vstd::arithmetic::power2::pow2(8 * (n - 1) as nat);
        assert(b[p] + 256 * rest < 256 * q) by (nonlinear_arith)
            requires
                rest < q,
                b[p] < 256,
        ;
        assert(8 * n == 8 + 8 * (n - 1) as nat);
    }
}

/// Reads `n <= 8` bytes big-endian.
fn read_be_n(b: &[u8], p: usize, n: usize) -> (r: u64)
    requires
        n <= 5,
        p + n <= b@.len(),
    ensures
        r == be_n(b@, p as int, n as nat),
        r < vstd::arithmetic::power2::pow2(8 * n as nat),
{
    let _len = b.len();
    let mut acc: u64 = 0;
    let mut i: usize = 0;
    proof {
        vstd::arithmetic::power2::lemma2_to64();
    }
    while i < n
        invariant
            i <= n <= 5,
            p + n <= b@.len(),
            _len == b@.len(),
            acc == be_n(b@, p as int, i as nat),
            acc < vstd::arithmetic::power2::pow2(8 * i as nat),
        decreases n - i,
    {
        proof {
            vstd::arithmetic::power2::lemma2_to64();
            vstd::arithmetic::power2::lemma_pow2_adds(8 * i as nat, 8);
            vstd::arithmetic::power2::lemma_pow2_strictly_increases(8 * (i + 1) as nat, 48);
        }
        let ghost q = vstd::arithmetic::power2::pow2(8 * i as nat);
        assert(acc * 256 + b[(p + i) as int] < q * 256) by (nonlinear_arith)
            requires
                acc < q,
                b[(p + i) as int] < 256,
        ;
        assert(8 * (i + 1) == 8 * i + 8);
        acc = acc * 256 + b[p + i] as u64;
        i = i + 1;
    }
    acc
}

/// Decodes the non-null value of a column at `p`: the value and its length.
#[verifier::rlimit(80)]
pub fn decode_cell(b: &[u8], p: usize, t: u8, m: &[u8]) -> (r: Result<(CellValue, usize), CdcError>)
    requires
        p <= b@.len(),
        meta_fits(t, m@),
    ensures
        match cell_len(b@, p as int, t, m@) {
            Some(n) => r is Ok && r->Ok_0.1 == n && cell_is(r->Ok_0.0, b@, p as int, t, m@),
            None => r is Err && r->Err_0 is BinlogParseError,
        },
        r is Ok ==> p + r->Ok_0.1 <= b@.len(),
{
    let blen = b.len();
    if !is_known_type(t) {
        return Ok((CellValue::Bytes(copy_bytes(b, p, blen)), blen - p));
    }
    let avail = b.len() - p;
    if t == TYPE_TINY || t == TYPE_YEAR {
        if avail < 1 {
            return Err(CdcError::BinlogParseError("row value truncated".to_owned()));
        }
        let x = b[p];
        if t == TYPE_TINY {
            return Ok((CellValue::Int8(x as i8), 1));
        }
        return Ok((CellValue::UInt16(if x == 0 { 0 } else { 1900 + x as u16 }), 1));
    }
    if t == TYPE_SHORT {
        if avail < 2 {
            return Err(CdcError::BinlogParseError("row value truncated".to_owned()));
        }
        return Ok((CellValue::Int16(read_u16_le(b, p) as i16), 2));
    }
    if t == TYPE_INT24 {
        if avail < 3 {
            return Err(CdcError::BinlogParseError("row value truncated".to_owned()));
        }
        let v = read_u24_le(b, p);
        let b0 = b[p];
        let b1 = b[p + 1];
        let b2 = b[p + 2];
        assert(v < 0x100_0000) by (bit_vector)
            requires
                v == (b0 as u32) | ((b1 as u32) << 8u32) | ((b2 as u32) << 16u32),
        ;
        let x: i32 = if v >= 0x80_0000 { (v as i64 - 0x100_0000) as i32 } else { v as i32 };
        return Ok((CellValue::Int32(x), 3));
    }
    if t == TYPE_LONG || t == TYPE_FLOAT {
        if avail < 4 {
            return Err(CdcError::BinlogParseError("row value truncated".to_owned()));
        }
        let v = read_u32_le(b, p);
        if t == TYPE_LONG {
            return Ok((CellValue::Int32(v as i32), 4));
        }
        return Ok((CellValue::Float(v), 4));
    }
    if t == TYPE_LONGLONG || t == TYPE_DOUBLE {
        if avail < 8 {
            return Err(CdcError::BinlogParseError("row value truncated".to_owned()));
        }
        let v = read_u64_le(b, p);
        if t == TYPE_LONGLONG {
            return Ok((CellValue::Int64(v as i64), 8));
        }
        return Ok((CellValue::Double(v), 8));
    }
    if t == TYPE_DATETIME2 || t == TYPE_TIMESTAMP2 {
        if m[0] > 6 {
            return Err(CdcError::BinlogParseError("bad fractional-seconds width".to_owned()));
        }
        let fb = (m[0] as usize + 1) / 2;
        let base: usize = if t == TYPE_DATETIME2 { 5 } else { 4 };
        if avail < base + fb {
            return Err(CdcError::BinlogParseError("row value truncated".to_owned()));
        }
        if t == TYPE_TIMESTAMP2 {
            let secs = read_be_n(b, p, 4);
            let f = read_be_n(b, p + 4, fb);
            proof {
                vstd::arithmetic::power2::lemma2_to64();
                if fb < 3 {
                    vstd::arithmetic::power2::lemma_pow2_strictly_increases(8 * fb as nat, 24);
                }
            }
            let micros = if fb == 1 { f * 10000 } else if fb == 2 { f * 100 } else { f };
            let (y, mo, d, h, mi, sec) = utc_fields_of(secs as u32);
            let dt = DateTimeValue {
                year: y,
                month: mo,
                day: d,
                hour: h,
                minute: mi,
                second: sec,
                micros: micros as u32,
            };
            return Ok((CellValue::DateTime(dt), base + fb));
        }
        let v = read_be_n(b, p, 5);
        let f = read_be_n(b, p + 5, fb);
        if v < 0x80_0000_0000 {
            return Err(CdcError::BinlogParseError("datetime out of range".to_owned()));
        }
        proof {
            vstd::arithmetic::power2::lemma2_to64();
            if fb < 3 {
                vstd::arithmetic::power2::lemma_pow2_strictly_increases(8 * fb as nat, 24);
            }
        }
        let w = v - 0x80_0000_0000;
        let ymd = w / 131072;
        let ym = ymd / 32;
        let hms = w % 131072;
        let micros = if fb == 1 { f * 10000 } else if fb == 2 { f * 100 } else { f };
        let dt = DateTimeValue {
            year: (ym / 13) as u32,
            month: (ym % 13) as u32,
            day: (ymd % 32) as u32,
            hour: (hms / 4096) as u32,
            minute: ((hms / 64) % 64) as u32,
            second: (hms % 64) as u32,
            micros: micros as u32,
        };
        return Ok((CellValue::DateTime(dt), base + fb));
    }
    if t == TYPE_TIMESTAMP {
        if avail < 4 {
            return Err(CdcError::BinlogParseError("row value truncated".to_owned()));
        }
        let secs = read_u32_le(b, p);
        let (y, mo, d, h, mi, sec) = utc_fields_of(secs);
        let dt = DateTimeValue { year: y, month: mo, day: d, hour: h, minute: mi, second: sec, micros: 0 };
        return Ok((CellValue::DateTime(dt), 4));
    }
    if t == TYPE_DATETIME {
        if avail < 8 {
            return Err(CdcError::BinlogParseError("row value truncated".to_owned()));
        }
        let v = read_u64_le(b, p);
        let d = v / 1000000;
        let tm = v % 1000000;
        let dt = DateTimeValue {
            year: (d / 10000) as u32,
            month: ((d / 100) % 100) as u32,
            day: (d % 100) as u32,
            hour: (tm / 10000) as u32,
            minute: ((tm / 100) % 100) as u32,
            second: (tm % 100) as u32,
            micros: 0,
        };
        return Ok((CellValue::DateTime(dt), 8));
    }
    if t == TYPE_TIME {
        if avail < 3 {
            return Err(CdcError::BinlogParseError("row value truncated".to_owned()));
        }
        let v = read_u24_le(b, p) as u64;
        let mut out: Vec<char> = Vec::new();
        push_padded(&mut out, v / 10000, 2);
        out.push(':');
        push_padded(&mut out, (v / 100) % 100, 2);
        out.push(':');
        push_padded(&mut out, v % 100, 2);
        assert(out@ =~= padded((v as nat) / 10000, 2) + seq![':'] + padded(((v as nat) / 100) % 100, 2)
            + seq![':'] + padded((v as nat) % 100, 2));
        return Ok((CellValue::Time(crate::text::string_from_chars(&out)), 3));
    }
    if t == TYPE_DATE || t == TYPE_NEWDATE {
        if avail < 3 {
            return Err(CdcError::BinlogParseError("row value truncated".to_owned()));
        }
        let v = read_u24_le(b, p) as u64;
        let mut out: Vec<char> = Vec::new();
        push_padded(&mut out, v / 512, 4);
        out.push('-');
        push_padded(&mut out, (v / 32) % 16, 2);
        out.push('-');
        push_padded(&mut out, v % 32, 2);
        assert(out@ =~= padded((v as nat) / 512, 4) + seq!['-'] + padded(((v as nat) / 32) % 16, 2)
            + seq!['-'] + padded((v as nat) % 32, 2));
        return Ok((CellValue::Date(crate::text::string_from_chars(&out)), 3));
    }
    if t == TYPE_TIME2 {
        if m[0] > 6 {
            return Err(CdcError::BinlogParseError("bad fractional-seconds width".to_owned()));
        }
        let fb = (m[0] as usize + 1) / 2;
        if avail < 3 + fb {
            return Err(CdcError::BinlogParseError("row value truncated".to_owned()));
        }
        let v = read_be_n(b, p, 3);
        if v < 0x80_0000 {
            return Err(CdcError::BinlogParseError("negative TIME value".to_owned()));
        }
        let w = v - 0x80_0000;
        let mut out: Vec<char> = Vec::new();
        push_padded(&mut out, (w / 4096) % 1024, 2);
        out.push(':');
        push_padded(&mut out, (w / 64) % 64, 2);
        out.push(':');
        push_padded(&mut out, w % 64, 2);
        assert(out@ =~= padded(((w as nat) / 4096) % 1024, 2) + seq![':'] + padded(
            ((w as nat) / 64) % 64,
            2,
        ) + seq![':'] + padded((w as nat) % 64, 2));
        return Ok((CellValue::Time(crate::text::string_from_chars(&out)), 3 + fb));
    }
    if t == TYPE_NEWDECIMAL {
        let prec = m[0] as usize;
        let scale = m[1] as usize;
        if prec < 1 || prec > 65 || scale > 30 || scale > prec {
            return Err(CdcError::BinlogParseError("unsupported DECIMAL precision".to_owned()));
        }
        let intg = prec - scale;
        let size = (intg / 9) * 4 + dig2bytes_of(intg % 9) + (scale / 9) * 4 + dig2bytes_of(scale % 9);
        if avail < size {
            return Err(CdcError::BinlogParseError("row value truncated".to_owned()));
        }
        let text = decode_decimal(b, p, prec, scale);
        return Ok((CellValue::Decimal(crate::text::string_from_chars(&text)), size));
    }
    if t == TYPE_BIT {
        let n = m[1] as usize + (m[0] as usize + 7) / 8;
        if avail < n {
            return Err(CdcError::BinlogParseError("row value truncated".to_owned()));
        }
        return Ok((CellValue::Bytes(copy_bytes(b, p, p + n)), n));
    }
    if t == TYPE_STRING {
        let m0 = m[0];
        let m1 = m[1];
        let (rtype, len): (u8, u32) = if (m0 & 0x30u8) != 0x30u8 {
            ((m0 | 0x30u8), (m1 as u32) | ((((m0 & 0x30u8) ^ 0x30u8) as u32) << 4u32))
        } else {
            (m0, m1 as u32)
        };
        assert((rtype, len) == string_meta(m@));
        if rtype == TYPE_ENUM || rtype == TYPE_SET {
            assert(len < 0x1000) by (bit_vector)
                requires
                    len == (if (m0 & 0x30u8) != 0x30u8 {
                        (m1 as u32) | ((((m0 & 0x30u8) ^ 0x30u8) as u32) << 4u32)
                    } else {
                        m1 as u32
                    }),
            ;
            let n = len as usize;
            if avail < n {
                return Err(CdcError::BinlogParseError("row value truncated".to_owned()));
            }
            if rtype == TYPE_ENUM {
                if n > 2 {
                    return Err(CdcError::BinlogParseError("bad ENUM width".to_owned()));
                }
                let v = read_le_n(b, p, n);
                return Ok((CellValue::UInt16(v as u16), n));
            }
            if n > 8 {
                return Err(CdcError::BinlogParseError("bad SET width".to_owned()));
            }
            let v = read_le_n(b, p, n);
            return Ok((CellValue::UInt64(v), n));
        }
    }
    if t == TYPE_VARCHAR || t == TYPE_VAR_STRING || t == TYPE_STRING || t == TYPE_BLOB || t
        == TYPE_JSON || t == TYPE_GEOMETRY {
        let pl: usize = if t == TYPE_VARCHAR || t == TYPE_VAR_STRING {
            if read_u16_le(m, 0) < 256 {
                1
            } else {
                2
            }
        } else if t == TYPE_STRING {
            let m0 = m[0];
            let m1 = m[1];
            let len: u32 = if (m0 & 0x30u8) != 0x30u8 {
                (m1 as u32) | ((((m0 & 0x30u8) ^ 0x30u8) as u32) << 4u32)
            } else {
                m1 as u32
            };
            assert(len == string_meta(m@).1);
            if len < 256 {
                1
            } else {
                2
            }
        } else {
            m[0] as usize
        };
        if pl < 1 || pl > 4 || avail < pl {
            return Err(CdcError::BinlogParseError("row value truncated".to_owned()));
        }
        let n = read_le_n(b, p, pl);
        if ((avail - pl) as u64) < n {
            return Err(CdcError::BinlogParseError("row value truncated".to_owned()));
        }
        let start = p + pl;
        let end = start + n as usize;
        let payload = copy_bytes(b, start, end);
        let total = pl + n as usize;
        if t == TYPE_BLOB || t == TYPE_GEOMETRY {
            return Ok((CellValue::Bytes(payload), total));
        }
        if t == TYPE_JSON {
            return Ok((CellValue::Json(payload), total));
        }
        return Ok((CellValue::String(utf8_lossy(payload.as_slice())), total));
    }
    Err(CdcError::BinlogParseError("column value does not decode".to_owned()))
}

fn is_known_type(t: u8) -> (r: bool)
    ensures
        r == known_type(t),
{
    t == TYPE_TINY || t == TYPE_SHORT || t == TYPE_LONG || t == TYPE_FLOAT || t == TYPE_DOUBLE || t
        == TYPE_TIMESTAMP || t == TYPE_LONGLONG || t == TYPE_INT24 || t == TYPE_DATE || t == TYPE_TIME
        || t == TYPE_DATETIME || t == TYPE_YEAR || t == TYPE_NEWDATE || t == TYPE_VARCHAR || t
        == TYPE_BIT || t == TYPE_TIMESTAMP2 || t == TYPE_DATETIME2 || t == TYPE_TIME2 || t
        == TYPE_JSON || t == TYPE_NEWDECIMAL || t == TYPE_ENUM || t == TYPE_SET || t == TYPE_BLOB
        || t == TYPE_VAR_STRING || t == TYPE_STRING || t == TYPE_GEOMETRY
}

fn push_groups(out: &mut Vec<char>, d: &Vec<u8>, off: usize, count: usize)
    requires
        off + 4 * count <= d@.len(),
    ensures
        final(out)@ == old(out)@ + groups_text(d@, off as int, count as nat),
{
    let ghost start = out@;
    let dl = d.len();
    let mut i: usize = 0;
    while i < count
        invariant
            i <= count,
            dl == d@.len(),
            off + 4 * count <= d@.len(),
            out@ == start + groups_text(d@, off as int, i as nat),
            start == old(out)@,
        decreases count - i,
    {
        let v = read_be_n(d.as_slice(), off + 4 * i, 4);
        push_padded(out, v, 9);
        i = i + 1;
        assert(out@ =~= start + groups_text(d@, off as int, i as nat));
    }
}

fn strip_zeros_exec(s: &Vec<char>) -> (r: Vec<char>)
    ensures
        r@ == strip_zeros(s@),
{
    let mut k: usize = 0;
    assert(s@.subrange(0, s@.len() as int) =~= s@);
    while k < s.len() && s[k] == '0'
        invariant
            k <= s@.len(),
            strip_zeros(s@) == strip_zeros(s@.subrange(k as int, s@.len() as int)),
        decreases s@.len() - k,
    {
        let ghost t = s@.subrange(k as int, s@.len() as int);
        assert(t.drop_first() =~= s@.subrange(k + 1, s@.len() as int));
        k = k + 1;
    }
    let mut r: Vec<char> = Vec::new();
    let mut i = k;
    while i < s.len()
        invariant
            k <= i <= s@.len(),
            r@ == s@.subrange(k as int, i as int),
        decreases s@.len() - i,
    {
        r.push(s[i]);
        i = i + 1;
        assert(r@ =~= s@.subrange(k as int, i as int));
    }
    r
}

fn append_chars(out: &mut Vec<char>, src: &Vec<char>)
    ensures
        final(out)@ == old(out)@ + src@,
{
    let mut k: usize = 0;
    let ghost h = out@;
    while k < src.len()
        invariant
            k <= src@.len(),
            h == old(out)@,
            out@ == h + src@.subrange(0, k as int),
        decreases src@.len() - k,
    {
        out.push(src[k]);
        k = k + 1;
        assert(out@ =~= h + src@.subrange(0, k as int));
    }
    assert(src@.subrange(0, src@.len() as int) =~= src@);
}

fn sign_normalised(b: &[u8], p: usize, size: usize) -> (r: (Vec<u8>, bool))
    requires
        size >= 1,
        p + size <= b@.len(),
    ensures
        r.1 == ((b@[p as int] & 0x80u8) == 0u8),
        r.0@ == decimal_bytes(b@, p as int, size as nat, r.1),
{
    let blen = b.len();
    let neg = (b[p] & 0x80u8) == 0u8;
    let mut d: Vec<u8> = Vec::new();
    let mut i: usize = 0;
    while i < size
        invariant
            i <= size,
            blen == b@.len(),
            p + size <= b@.len(),
            d@ == decimal_bytes(b@, p as int, size as nat, neg).subrange(0, i as int),
        decreases size - i,
    {
        let x = b[p + i] ^ (if neg { 0xFFu8 } else { 0u8 });
        let y = x ^ (if i == 0 { 0x80u8 } else { 0u8 });
        d.push(y);
        i = i + 1;
        assert(d@ =~= decimal_bytes(b@, p as int, size as nat, neg).subrange(0, i as int));
    }
    assert(d@ =~= decimal_bytes(b@, p as int, size as nat, neg));
    (d, neg)
}

fn int_digits_of(d: &Vec<u8>, intg: usize) -> (r: Vec<char>)
    requires
        intg <= 65,
        dig2bytes((intg % 9) as int) + 4 * (intg / 9) <= d@.len(),
    ensures
        r@ == decimal_int_digits(d@, intg as int),
{
    let lb = dig2bytes_of(intg % 9);
    let mut ints: Vec<char> = Vec::new();
    if intg % 9 > 0 {
        let v = read_be_n(d.as_slice(), 0, lb);
        push_padded(&mut ints, v, intg % 9);
    }
    push_groups(&mut ints, d, lb, intg / 9);
    strip_zeros_exec(&ints)
}

fn frac_digits_of(d: &Vec<u8>, intg: usize, scale: usize) -> (r: Vec<char>)
    requires
        intg <= 65,
        scale <= 30,
        dig2bytes((intg % 9) as int) + 4 * (intg / 9) + 4 * (scale / 9) + dig2bytes((scale % 9) as int)
            <= d@.len(),
    ensures
        r@ == decimal_frac_digits(d@, intg as int, scale as int),
{
    let fo = dig2bytes_of(intg % 9) + 4 * (intg / 9);
    let mut frac: Vec<char> = Vec::new();
    push_groups(&mut frac, d, fo, scale / 9);
    if scale % 9 > 0 {
        let fb = dig2bytes_of(scale % 9);
        let v = read_be_n(d.as_slice(), fo + 4 * (scale / 9), fb);
        push_padded(&mut frac, v, scale % 9);
    }
    frac
}

/// The text of a packed DECIMAL(`prec`, `scale`) value at `p`.
fn decode_decimal(b: &[u8], p: usize, prec: usize, scale: usize) -> (r: Vec<char>)
    requires
        1 <= prec <= 65,
        scale <= 30,
        scale <= prec,
        p + decimal_size(prec as int, scale as int) <= b@.len(),
    ensures
        r@ == decimal_text(b@, p as int, prec as int, scale as int),
{
    let intg = prec - scale;
    let size = (intg / 9) * 4 + dig2bytes_of(intg % 9) + (scale / 9) * 4 + dig2bytes_of(scale % 9);
    assert(size >= 1);
    let (d, neg) = sign_normalised(b, p, size);
    let digits = int_digits_of(&d, intg);
    let mut out: Vec<char> = Vec::new();
    if neg {
        out.push('-');
    }
    if digits.len() == 0 {
        out.push('0');
    } else {
        append_chars(&mut out, &digits);
    }
    if scale > 0 {
        out.push('.');
        let frac = frac_digits_of(&d, intg, scale);
        append_chars(&mut out, &frac);
    }
    assert(out@ =~= decimal_text(b@, p as int, prec as int, scale as int));
    out
}

/// The bytes `b[lo..hi]`.
pub fn copy_bytes(b: &[u8], lo: usize, hi: usize) -> (r: Vec<u8>)
    requires
        lo <= hi <= b@.len(),
    ensures
        r@ == b@.subrange(lo as int, hi as int),
{
    let mut v: Vec<u8> = Vec::new();
    let mut i = lo;
    while i < hi
        invariant
            lo <= i <= hi <= b@.len(),
            v@ == b@.subrange(lo as int, i as int),
        decreases hi - i,
    {
        v.push(b[i]);
        i = i + 1;
        assert(v@ =~= b@.subrange(lo as int, i as int));
    }
    v
}

} // verus!
