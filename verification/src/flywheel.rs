//! Usage telemetry client: the shared event taxonomy, the client's state
//! and its on/off decisions, and the identifiers and timestamps it sends.
//! Sending itself, the environment and the files it reads stay with the
//! application.

use std::time::SystemTime;
use vstd::prelude::*;
use crate::clock::{secs_since_epoch, unix_secs};

verus! {

/// Seconds in a day.
pub const SECS_PER_DAY: i64 = 86400;

/// The number of the day `y`-`m`-`d` of the proleptic Gregorian calendar,
/// counted from 1970-01-01 (day 0): years are counted from March, so that
/// the leap day closes a year; an era is 400 years of 146097 days.
pub open spec fn days_from_civil(y: int, m: int, d: int) -> int {
    let yy = if m <= 2 {
        y - 1
    } else {
        y
    };
    let era = yy / 400;
    let yoe = yy - era * 400;
    let mp = if m > 2 {
        m - 3
    } else {
        m + 9
    };
    let doy = (153 * mp + 2) / 5 + d - 1;
    let doe = yoe * 365 + yoe / 4 - yoe / 100 + doy;
    era * 146097 + doe - 719468
}

/// Leap years of the Gregorian calendar.
pub open spec fn is_leap_year(y: int) -> bool {
    y % 4 == 0 && (y % 100 != 0 || y % 400 == 0)
}

/// Days in month `m` of year `y`.
pub open spec fn days_in_month(y: int, m: int) -> int {
    if m == 2 {
        if is_leap_year(y) {
            29
        } else {
            28
        }
    } else if m == 4 || m == 6 || m == 9 || m == 11 {
        30
    } else {
        31
    }
}

/// Within an era, the year of era and the day of that year of day `doe`
/// stay in range: years 0 to 399, days 0 to 365.
proof fn lemma_year_of_era(doe: int)
    requires
        0 <= doe <= 146096,
    ensures
        ({
            let yoe = (doe - doe / 1460 + doe / 36524 - doe / 146096) / 365;
            let doy = doe - (365 * yoe + yoe / 4 - yoe / 100);
            &&& 0 <= yoe <= 399
            &&& 0 <= doy <= 365
            &&& doy == 365 ==> is_leap_year(yoe + 1)
        }),
{
    if doe == 146096 {
        assert(doe / 1460 == 100);
        assert(doe / 36524 == 4);
        assert(doe / 146096 == 1);
    } else {
        let c = doe / 36524;
        let r = doe % 36524;
        assert(doe == 36524 * c + r);
        assert(0 <= c <= 3);
        let q = r / 1461;
        let s = r % 1461;
        assert(r == 1461 * q + s);
        assert(0 <= q <= 24);
        assert(doe / 146096 == 0);
        let t = (24 * c + q + s) / 1460;
        assert(0 <= t <= 1);
        assert(doe == 1460 * (25 * c + q) + (24 * c + q + s));
        vstd::arithmetic::div_mod::lemma_fundamental_div_mod(24 * c + q + s, 1460);
        vstd::arithmetic::div_mod::lemma_fundamental_div_mod_converse(
            doe,
            1460,
            25 * c + q + t,
            (24 * c + q + s) % 1460,
        );
        assert(doe / 1460 == 25 * c + q + t);
        assert(s == 0 ==> t == 0);
        assert(s == 1460 ==> t == 1);
        assert(0 <= s - t <= 1459);
        let k = (s - t) / 365;
        let n = doe - doe / 1460 + doe / 36524 - doe / 146096;
        assert(n == 36500 * c + 1460 * q + s - t);
        assert(0 <= k <= 3);
        assert(n == 365 * (100 * c + 4 * q + k) + (s - t - 365 * k));
        assert(0 <= s - t - 365 * k < 365);
        vstd::arithmetic::div_mod::lemma_fundamental_div_mod_converse(
            n,
            365,
            100 * c + 4 * q + k,
            s - t - 365 * k,
        );
        let yoe = 100 * c + 4 * q + k;
        assert(yoe / 4 == 25 * c + q);
        assert(yoe / 100 == c);
        if s - 365 * k == 365 {
            assert(s == 1460);
            assert(q <= 23);
            assert(yoe + 1 == 100 * c + 4 * (q + 1));
        }
    }
}


/// Unix seconds to (year, month, day, hour, minute, second) in UTC, by
/// Howard Hinnant's `civil_from_days`: the day of `secs` (rounded down to
/// whole days, also before 1970) is the calendar date `y-m-d`, and the
/// rest of that day is `hh:mm:ss`.
pub fn civil_from_unix(secs: i64) -> (r: (i64, u32, u32, u32, u32, u32))
    ensures
        ({
            let days = secs as int / 86400;
            let rem = secs as int % 86400;
            &&& r.3 as int == rem / 3600
            &&& r.4 as int == (rem % 3600) / 60
            &&& r.5 as int == rem % 60
            &&& 1 <= r.1 <= 12
            &&& 1 <= r.2 <= days_in_month(r.0 as int, r.1 as int)
            &&& days_from_civil(r.0 as int, r.1 as int, r.2 as int) == days
        }),
{
    let days = secs.checked_div_euclid(SECS_PER_DAY).unwrap();
    let rem = secs.checked_rem_euclid(SECS_PER_DAY).unwrap();
    let hh = (rem / 3600) as u32;
    let mm = ((rem % 3600) / 60) as u32;
    let ss = (rem % 60) as u32;
    let z = days + 719468;
    let era = z.checked_div_euclid(146097).unwrap();
    let doe = z - era * 146097;
    proof {
        lemma_year_of_era(doe as int);
    }
    let yoe = (doe - doe / 1460 + doe / 36524 - doe / 146096) / 365;
    let y = yoe + era * 400;
    let doy = doe - (365 * yoe + yoe / 4 - yoe / 100);
    let mp = (5 * doy + 2) / 153;
    proof {
        vstd::arithmetic::div_mod::lemma_fundamental_div_mod(5 * doy as int + 2, 153);
        vstd::arithmetic::div_mod::lemma_fundamental_div_mod(153 * mp as int + 2, 5);
    }
    let d = (doy - (153 * mp + 2) / 5 + 1) as u32;
    let m = if mp < 10 {
        mp + 3
    } else {
        mp - 9
    } as u32;
    let year = if m <= 2 {
        y + 1
    } else {
        y
    };
    proof {
        let yy = if m <= 2 { year - 1 } else { year as int };
        assert(yy == yoe + era * 400);
        vstd::arithmetic::div_mod::lemma_fundamental_div_mod_converse(yy, 400, era as int, yoe as int);
        if m == 2 && d == 29 {
            assert(doy == 365);
            assert(year == yoe + 1 + era * 400);
            assert(is_leap_year(year as int)) by {
                vstd::arithmetic::div_mod::lemma_mod_multiples_vanish(era * 100, yoe + 1, 4);
                vstd::arithmetic::div_mod::lemma_mod_multiples_vanish(era * 4, yoe + 1, 100);
                vstd::arithmetic::div_mod::lemma_mod_multiples_vanish(era as int, yoe + 1, 400);
            }
        }
    }
    (year, m, d, hh, mm, ss)
}

/// `(y, m, d, hh, mm, ss)` is the UTC calendar date and time of `secs`.
pub open spec fn civil_of(secs: int, c: (i64, u32, u32, u32, u32, u32)) -> bool {
    let rem = secs % 86400;
    &&& c.3 as int == rem / 3600
    &&& c.4 as int == (rem % 3600) / 60
    &&& c.5 as int == rem % 60
    &&& 1 <= c.1 <= 12
    &&& 1 <= c.2 <= days_in_month(c.0 as int, c.1 as int)
    &&& days_from_civil(c.0 as int, c.1 as int, c.2 as int) == secs / 86400
}

/// The character of decimal digit `n`.
pub open spec fn digit(n: int) -> char {
    (48 + n) as char
}

/// The decimal digits of `n`, most significant first, without leading
/// zeros.
pub open spec fn decimal(n: nat) -> Seq<char>
    decreases n,
{
    if n < 10 {
        seq![digit(n as int)]
    } else {
        decimal(n / 10) + seq![digit((n % 10) as int)]
    }
}

/// `n` as the `0` flag of `format!` writes it with width `w`: its decimal
/// digits after as many zeros as make up the width.
pub open spec fn zero_padded(n: nat, w: nat) -> Seq<char> {
    let d = decimal(n);
    if d.len() < w {
        Seq::new((w - d.len()) as nat, |i: int| '0') + d
    } else {
        d
    }
}

/// A signed year as `{:04}` writes it: the sign counts toward the width,
/// and the zeros go after it.
pub open spec fn year_text(y: int) -> Seq<char> {
    if y >= 0 {
        zero_padded(y as nat, 4)
    } else {
        seq!['-'] + zero_padded((-y) as nat, 3)
    }
}

/// `YYYY-MM-DDTHH:MM:SSZ`, each field zero-padded as `{:04}` and `{:02}`
/// write it.
pub open spec fn timestamp_text(c: (i64, u32, u32, u32, u32, u32)) -> Seq<char> {
    year_text(c.0 as int) + seq!['-'] + zero_padded(c.1 as nat, 2) + seq!['-'] + zero_padded(c.2 as nat, 2)
        + seq!['T'] + zero_padded(c.3 as nat, 2) + seq![':'] + zero_padded(c.4 as nat, 2) + seq![':']
        + zero_padded(c.5 as nat, 2) + seq!['Z']
}

/// Appends the character of digit `d`.
fn append_digit(s: &mut String, d: u64)
    requires
        d < 10,
    ensures
        final(s)@ == old(s)@ + seq![digit(d as int)],
{
    let t: &str = match d {
        0 => "0",
        1 => "1",
        2 => "2",
        3 => "3",
        4 => "4",
        5 => "5",
        6 => "6",
        7 => "7",
        8 => "8",
        _ => "9",
    };
    proof {
        reveal_strlit("0");
        reveal_strlit("1");
        reveal_strlit("2");
        reveal_strlit("3");
        reveal_strlit("4");
        reveal_strlit("5");
        reveal_strlit("6");
        reveal_strlit("7");
        reveal_strlit("8");
        reveal_strlit("9");
        assert(t@ =~= seq![digit(d as int)]);
    }
    s.append(t);
}

/// Appends the decimal digits of `n`.
fn append_decimal(s: &mut String, n: u64)
    ensures
        final(s)@ == old(s)@ + decimal(n as nat),
    decreases n,
{
    if n >= 10 {
        append_decimal(s, n / 10);
    }
    append_digit(s, n % 10);
    assert(final(s)@ =~= old(s)@ + decimal(n as nat)) by {
        if n >= 10 {
            assert(decimal(n as nat) == decimal((n / 10) as nat) + seq![digit((n % 10) as int)]);
        }
    }
}

/// How many decimal digits `n` has.
fn digit_count(n: u64) -> (c: usize)
    ensures
        c == decimal(n as nat).len(),
        c <= 20,
    decreases n,
{
    if n >= 10 {
        let c = digit_count(n / 10);
        proof {
            lemma_decimal_len(n as nat);
        }
        c + 1
    } else {
        1
    }
}

/// A `u64` has at most 20 decimal digits.
proof fn lemma_decimal_len(n: nat)
    requires
        n <= u64::MAX,
    ensures
        decimal(n).len() <= 20,
{
    reveal_with_fuel(pow10, 21);
    assert(pow10(20) == 100000000000000000000nat);
    lemma_decimal_len_below(n, 19);
}

/// A number below `10^(k + 1)` has at most `k + 1` digits.
proof fn lemma_decimal_len_below(n: nat, k: nat)
    requires
        n < pow10(k + 1),
    ensures
        decimal(n).len() <= k + 1,
    decreases k,
{
    assert(pow10(k + 1) == 10 * pow10(k));
    if n >= 10 {
        if k == 0 {
            assert(pow10(0) == 1);
        } else {
            lemma_decimal_len_below(n / 10, (k - 1) as nat);
        }
    }
}

/// Ten to the power `k`.
pub open spec fn pow10(k: nat) -> nat
    decreases k,
{
    if k == 0 {
        1
    } else {
        10 * pow10((k - 1) as nat)
    }
}

/// Appends `n` zero-padded to width `w`; see [`zero_padded`].
fn append_padded(s: &mut String, n: u64, w: usize)
    ensures
        final(s)@ == old(s)@ + zero_padded(n as nat, w as nat),
{
    let c = digit_count(n);
    let ghost start = s@;
    if c < w {
        let mut i: usize = 0;
        while i < w - c
            invariant
                c < w,
                i <= w - c,
                s@ == start + Seq::new(i as nat, |k: int| '0'),
            decreases w - c - i,
        {
            s.append("0");
            proof {
                reveal_strlit("0");
            }
            assert(s@ =~= start + Seq::new((i + 1) as nat, |k: int| '0'));
            i = i + 1;
        }
    }
    let ghost mid = s@;
    append_decimal(s, n);
    assert(s@ =~= start + zero_padded(n as nat, w as nat)) by {
        if c >= w {
            assert(mid == start);
        }
    }
}

/// Appends a year as `{:04}` writes it; see [`year_text`].
fn append_year(s: &mut String, y: i64)
    ensures
        final(s)@ == old(s)@ + year_text(y as int),
{
    if y >= 0 {
        append_padded(s, y as u64, 4);
    } else {
        let ghost start = s@;
        s.append("-");
        proof {
            reveal_strlit("-");
        }
        let a: u64 = (-(y + 1)) as u64 + 1;
        assert(a == -y);
        append_padded(s, a, 3);
        assert(s@ =~= start + year_text(y as int));
    }
}

/// The text `YYYY-MM-DDTHH:MM:SSZ` of calendar fields.
fn format_timestamp(c: (i64, u32, u32, u32, u32, u32)) -> (s: String)
    ensures
        s@ == timestamp_text(c),
{
    let mut s = String::new();
    append_year(&mut s, c.0);
    s.append("-");
    append_padded(&mut s, c.1 as u64, 2);
    s.append("-");
    append_padded(&mut s, c.2 as u64, 2);
    s.append("T");
    append_padded(&mut s, c.3 as u64, 2);
    s.append(":");
    append_padded(&mut s, c.4 as u64, 2);
    s.append(":");
    append_padded(&mut s, c.5 as u64, 2);
    s.append("Z");
    proof {
        reveal_strlit("-");
        reveal_strlit("T");
        reveal_strlit(":");
        reveal_strlit("Z");
        assert(s@ =~= timestamp_text(c));
    }
    s
}

/// `s` is the RFC-3339 text of Unix second `secs`.
pub open spec fn is_rfc3339_of(secs: int, s: Seq<char>) -> bool {
    exists|c: (i64, u32, u32, u32, u32, u32)| #[trigger] civil_of(secs, c) && s == timestamp_text(c)
}

/// The RFC-3339 UTC timestamp of Unix second `secs`, such as
/// `2026-06-17T09:01:23Z`.
pub fn rfc3339_from_secs(secs: i64) -> (s: String)
    ensures
        is_rfc3339_of(secs as int, s@),
{
    let c = civil_from_unix(secs);
    assert(civil_of(secs as int, c));
    format_timestamp(c)
}

/// The RFC-3339 UTC timestamp of `now`, to the second; 0 (the epoch) for
/// a time before the epoch.
pub fn rfc3339_utc(now: SystemTime) -> (s: String)
    ensures
        is_rfc3339_of(unix_secs(now) as i64 as int, s@),
{
    let secs = secs_since_epoch(now);
    rfc3339_from_secs(secs as i64)
}

/// The character of hexadecimal digit `n`, lower case.
pub open spec fn hex_digit(n: int) -> char {
    if n < 10 {
        (48 + n) as char
    } else {
        (87 + n) as char
    }
}

/// Byte `b` as two lower-case hexadecimal digits.
pub open spec fn hex_byte(b: u8) -> Seq<char> {
    seq![hex_digit(b as int / 16), hex_digit(b as int % 16)]
}

/// Each byte of `b` as two lower-case hexadecimal digits.
pub open spec fn hex_bytes(b: Seq<u8>) -> Seq<char>
    decreases b.len(),
{
    if b.len() == 0 {
        Seq::empty()
    } else {
        hex_bytes(b.drop_last()) + hex_byte(b.last())
    }
}

/// Sixteen bytes in the 8-4-4-4-12 hexadecimal layout of a UUID.
pub open spec fn uuid_text(b: Seq<u8>) -> Seq<char> {
    hex_bytes(b.subrange(0, 4)) + seq!['-'] + hex_bytes(b.subrange(4, 6)) + seq!['-'] + hex_bytes(
        b.subrange(6, 8),
    ) + seq!['-'] + hex_bytes(b.subrange(8, 10)) + seq!['-'] + hex_bytes(b.subrange(10, 16))
}

/// The bytes with the version-4 nibble and the RFC-4122 variant bits set.
pub open spec fn v4_bytes(b: Seq<u8>) -> Seq<u8> {
    b.update(6, (b[6] & 0x0fu8) | 0x40u8).update(8, (b[8] & 0x3fu8) | 0x80u8)
}

/// Appends the lower-case hexadecimal digit of `d`.
fn append_hex_digit(s: &mut String, d: u8)
    requires
        d < 16,
    ensures
        final(s)@ == old(s)@ + seq![hex_digit(d as int)],
{
    let t: &str = match d {
        0 => "0",
        1 => "1",
        2 => "2",
        3 => "3",
        4 => "4",
        5 => "5",
        6 => "6",
        7 => "7",
        8 => "8",
        9 => "9",
        10 => "a",
        11 => "b",
        12 => "c",
        13 => "d",
        14 => "e",
        _ => "f",
    };
    proof {
        reveal_strlit("0");
        reveal_strlit("1");
        reveal_strlit("2");
        reveal_strlit("3");
        reveal_strlit("4");
        reveal_strlit("5");
        reveal_strlit("6");
        reveal_strlit("7");
        reveal_strlit("8");
        reveal_strlit("9");
        reveal_strlit("a");
        reveal_strlit("b");
        reveal_strlit("c");
        reveal_strlit("d");
        reveal_strlit("e");
        reveal_strlit("f");
        assert(t@ =~= seq![hex_digit(d as int)]);
    }
    s.append(t);
}

/// Appends bytes `from` to `to` of `b`, two hexadecimal digits each.
fn append_hex_bytes(s: &mut String, b: &[u8; 16], from: usize, to: usize)
    requires
        from <= to <= 16,
    ensures
        final(s)@ == old(s)@ + hex_bytes(b@.subrange(from as int, to as int)),
{
    let ghost start = s@;
    let mut i: usize = from;
    assert(b@.subrange(from as int, from as int) =~= Seq::<u8>::empty());
    while i < to
        invariant
            from <= i <= to <= 16,
            b@.len() == 16,
            s@ == start + hex_bytes(b@.subrange(from as int, i as int)),
        decreases to - i,
    {
        let x = b[i];
        append_hex_digit(s, x / 16);
        append_hex_digit(s, x % 16);
        assert(b@.subrange(from as int, i + 1).drop_last() =~= b@.subrange(from as int, i as int));
        assert(s@ =~= start + hex_bytes(b@.subrange(from as int, i + 1)));
        i = i + 1;
    }
}

/// Sixteen bytes as a UUID text; see [`uuid_text`].
fn format_uuid(b: [u8; 16]) -> (s: String)
    ensures
        s@ == uuid_text(b@),
{
    let mut s = String::new();
    append_hex_bytes(&mut s, &b, 0, 4);
    s.append("-");
    append_hex_bytes(&mut s, &b, 4, 6);
    s.append("-");
    append_hex_bytes(&mut s, &b, 6, 8);
    s.append("-");
    append_hex_bytes(&mut s, &b, 8, 10);
    s.append("-");
    append_hex_bytes(&mut s, &b, 10, 16);
    proof {
        reveal_strlit("-");
        assert(s@ =~= uuid_text(b@));
    }
    s
}

proof fn lemma_hex_bytes_len(b: Seq<u8>)
    ensures
        hex_bytes(b).len() == 2 * b.len(),
    decreases b.len(),
{
    if b.len() > 0 {
        lemma_hex_bytes_len(b.drop_last());
    }
}

/// Different hexadecimal digits have different characters.
proof fn lemma_hex_digit_inj(a: int, b: int)
    requires
        0 <= a < 16,
        0 <= b < 16,
        hex_digit(a) == hex_digit(b),
    ensures
        a == b,
{
    let ca = if a < 10 { 48 + a } else { 87 + a };
    let cb = if b < 10 { 48 + b } else { 87 + b };
    assert(hex_digit(a) as int == ca);
    assert(hex_digit(b) as int == cb);
}

/// Different bytes have different pairs of hexadecimal digits.
proof fn lemma_hex_byte_inj(x: u8, y: u8)
    requires
        hex_byte(x) == hex_byte(y),
    ensures
        x == y,
{
    assert(hex_byte(x)[0] == hex_byte(y)[0]);
    assert(hex_byte(x)[1] == hex_byte(y)[1]);
    lemma_hex_digit_inj(x as int / 16, y as int / 16);
    lemma_hex_digit_inj(x as int % 16, y as int % 16);
}

/// Byte sequences of one length with the same hexadecimal text are equal.
proof fn lemma_hex_bytes_inj(a: Seq<u8>, b: Seq<u8>)
    requires
        a.len() == b.len(),
        hex_bytes(a) == hex_bytes(b),
    ensures
        a == b,
    decreases a.len(),
{
    if a.len() > 0 {
        lemma_hex_bytes_len(a.drop_last());
        lemma_hex_bytes_len(b.drop_last());
        let k = 2 * (a.len() - 1);
        assert(hex_bytes(a).subrange(0, k) =~= hex_bytes(a.drop_last()));
        assert(hex_bytes(b).subrange(0, k) =~= hex_bytes(b.drop_last()));
        assert(hex_bytes(a).subrange(k, k + 2) =~= hex_byte(a.last()));
        assert(hex_bytes(b).subrange(k, k + 2) =~= hex_byte(b.last()));
        lemma_hex_bytes_inj(a.drop_last(), b.drop_last());
        lemma_hex_byte_inj(a.last(), b.last());
        assert(a =~= a.drop_last().push(a.last()));
        assert(b =~= b.drop_last().push(b.last()));
    }
}

/// The UUID text of 16 bytes determines the bytes.
proof fn lemma_uuid_text_inj(x: Seq<u8>, y: Seq<u8>)
    requires
        x.len() == 16,
        y.len() == 16,
        uuid_text(x) == uuid_text(y),
    ensures
        x == y,
{
    let tx = uuid_text(x);
    let ty = uuid_text(y);
    lemma_hex_bytes_len(x.subrange(0, 4));
    lemma_hex_bytes_len(x.subrange(4, 6));
    lemma_hex_bytes_len(x.subrange(6, 8));
    lemma_hex_bytes_len(x.subrange(8, 10));
    lemma_hex_bytes_len(x.subrange(10, 16));
    lemma_hex_bytes_len(y.subrange(0, 4));
    lemma_hex_bytes_len(y.subrange(4, 6));
    lemma_hex_bytes_len(y.subrange(6, 8));
    lemma_hex_bytes_len(y.subrange(8, 10));
    lemma_hex_bytes_len(y.subrange(10, 16));
    assert(tx.subrange(0, 8) =~= hex_bytes(x.subrange(0, 4)));
    assert(ty.subrange(0, 8) =~= hex_bytes(y.subrange(0, 4)));
    assert(tx.subrange(9, 13) =~= hex_bytes(x.subrange(4, 6)));
    assert(ty.subrange(9, 13) =~= hex_bytes(y.subrange(4, 6)));
    assert(tx.subrange(14, 18) =~= hex_bytes(x.subrange(6, 8)));
    assert(ty.subrange(14, 18) =~= hex_bytes(y.subrange(6, 8)));
    assert(tx.subrange(19, 23) =~= hex_bytes(x.subrange(8, 10)));
    assert(ty.subrange(19, 23) =~= hex_bytes(y.subrange(8, 10)));
    assert(tx.subrange(24, 36) =~= hex_bytes(x.subrange(10, 16)));
    assert(ty.subrange(24, 36) =~= hex_bytes(y.subrange(10, 16)));
    lemma_hex_bytes_inj(x.subrange(0, 4), y.subrange(0, 4));
    lemma_hex_bytes_inj(x.subrange(4, 6), y.subrange(4, 6));
    lemma_hex_bytes_inj(x.subrange(6, 8), y.subrange(6, 8));
    lemma_hex_bytes_inj(x.subrange(8, 10), y.subrange(8, 10));
    lemma_hex_bytes_inj(x.subrange(10, 16), y.subrange(10, 16));
    assert forall|i: int| 0 <= i < 16 implies x[i] == y[i] by {
        if i < 4 {
            assert(x.subrange(0, 4)[i] == y.subrange(0, 4)[i]);
        } else if i < 6 {
            assert(x.subrange(4, 6)[i - 4] == y.subrange(4, 6)[i - 4]);
        } else if i < 8 {
            assert(x.subrange(6, 8)[i - 6] == y.subrange(6, 8)[i - 6]);
        } else if i < 10 {
            assert(x.subrange(8, 10)[i - 8] == y.subrange(8, 10)[i - 8]);
        } else {
            assert(x.subrange(10, 16)[i - 10] == y.subrange(10, 16)[i - 10]);
        }
    }
    assert(x =~= y);
}

/// Two draws that differ in any of the 122 bits the version and variant
/// leave alone give different UUIDs.
pub proof fn lemma_uuid_injective(a: Seq<u8>, b: Seq<u8>)
    requires
        a.len() == 16,
        b.len() == 16,
        v4_bytes(a) != v4_bytes(b),
    ensures
        uuid_text(v4_bytes(a)) != uuid_text(v4_bytes(b)),
{
    if uuid_text(v4_bytes(a)) == uuid_text(v4_bytes(b)) {
        lemma_uuid_text_inj(v4_bytes(a), v4_bytes(b));
    }
}

/// A version-4 UUID made of 16 random bytes: the version nibble and the
/// variant bits are set, the other 122 bits come from `random`. The text
/// is 36 characters long, its version digit is `4` and its variant digit
/// one of `8`, `9`, `a`, `b`.
pub fn uuid_v4(random: [u8; 16]) -> (s: String)
    ensures
        s@ == uuid_text(v4_bytes(random@)),
        s@.len() == 36,
        s@[14] == '4',
        s@[19] == '8' || s@[19] == '9' || s@[19] == 'a' || s@[19] == 'b',
{
    let mut b = random;
    let r6 = b[6];
    let r8 = b[8];
    let b6 = (r6 & 0x0f) | 0x40;
    let b8 = (r8 & 0x3f) | 0x80;
    b[6] = b6;
    b[8] = b8;
    proof {
        let v = v4_bytes(random@);
        assert(b@ =~= v);
        assert(b6 / 16 == 4) by (bit_vector)
            requires
                b6 == (r6 & 0x0fu8) | 0x40u8,
        ;
        assert(8 <= b8 / 16 <= 11) by (bit_vector)
            requires
                b8 == (r8 & 0x3fu8) | 0x80u8,
        ;
        lemma_hex_bytes_len(v.subrange(0, 4));
        lemma_hex_bytes_len(v.subrange(4, 6));
        lemma_hex_bytes_len(v.subrange(6, 8));
        lemma_hex_bytes_len(v.subrange(8, 10));
        lemma_hex_bytes_len(v.subrange(10, 16));
        let h3 = hex_bytes(v.subrange(6, 8));
        assert(v.subrange(6, 8).drop_last() =~= v.subrange(6, 7));
        assert(v.subrange(6, 7).drop_last() =~= v.subrange(6, 6));
        assert(v[6] == b6);
        assert(hex_bytes(v.subrange(6, 7)) =~= hex_byte(v[6]));
        assert(h3 =~= hex_byte(v[6]) + hex_byte(v[7]));
        assert(h3[0] == hex_digit(b6 as int / 16));
        let h4 = hex_bytes(v.subrange(8, 10));
        assert(v.subrange(8, 10).drop_last() =~= v.subrange(8, 9));
        assert(v.subrange(8, 9).drop_last() =~= v.subrange(8, 8));
        assert(v[8] == b8);
        assert(hex_bytes(v.subrange(8, 9)) =~= hex_byte(v[8]));
        assert(h4 =~= hex_byte(v[8]) + hex_byte(v[9]));
        assert(h4[0] == hex_digit(b8 as int / 16));
        let t = uuid_text(v);
        assert(t[14] == h3[0]);
        assert(t[19] == h4[0]);
    }
    format_uuid(b)
}

/// The shared event taxonomy.
pub const TAXONOMY: [&'static str; 7] = [
    "page_view",
    "signup_started",
    "signup_completed",
    "conversion",
    "key_action",
    "feedback_given",
    "error",
];

/// Rust's whitespace: the characters with the Unicode `White_Space`
/// property.
pub open spec fn is_space(c: char) -> bool {
    let u = c as u32;
    ||| 9 <= u <= 13
    ||| u == 32
    ||| u == 0x85
    ||| u == 0xa0
    ||| u == 0x1680
    ||| 0x2000 <= u <= 0x200a
    ||| u == 0x2028
    ||| u == 0x2029
    ||| u == 0x202f
    ||| u == 0x205f
    ||| u == 0x3000
}

fn space_char(c: char) -> (b: bool)
    ensures
        b == is_space(c),
{
    let u = c as u32;
    (9 <= u && u <= 13) || u == 32 || u == 0x85 || u == 0xa0 || u == 0x1680 || (0x2000 <= u && u
        <= 0x200a) || u == 0x2028 || u == 0x2029 || u == 0x202f || u == 0x205f || u == 0x3000
}

/// `s` without its leading whitespace.
pub open spec fn trim_start(s: Seq<char>) -> Seq<char>
    decreases s.len(),
{
    if s.len() > 0 && is_space(s[0]) {
        trim_start(s.drop_first())
    } else {
        s
    }
}

/// `s` without its trailing whitespace.
pub open spec fn trim_end(s: Seq<char>) -> Seq<char>
    decreases s.len(),
{
    if s.len() > 0 && is_space(s.last()) {
        trim_end(s.drop_last())
    } else {
        s
    }
}

/// `s` without leading and trailing whitespace, as `str::trim` gives it.
pub open spec fn trimmed(s: Seq<char>) -> Seq<char> {
    trim_end(trim_start(s))
}

/// `s` without the `/` characters it ends in.
pub open spec fn trim_slashes(s: Seq<char>) -> Seq<char>
    decreases s.len(),
{
    if s.len() > 0 && s.last() == '/' {
        trim_slashes(s.drop_last())
    } else {
        s
    }
}

/// The text between leading and trailing whitespace.
pub fn trim_space(s: &str) -> (r: &str)
    ensures
        r@ == trimmed(s@),
{
    let n = s.unicode_len();
    let mut a: usize = 0;
    assert(s@.subrange(0, n as int) =~= s@);
    while a < n && space_char(s.get_char(a))
        invariant
            n == s@.len(),
            a <= n,
            trim_start(s@) == trim_start(s@.subrange(a as int, n as int)),
        decreases n - a,
    {
        assert(s@.subrange(a as int, n as int).drop_first() =~= s@.subrange(a + 1, n as int));
        a = a + 1;
    }
    let mut b: usize = n;
    while b > a && space_char(s.get_char(b - 1))
        invariant
            n == s@.len(),
            a <= b <= n,
            trimmed(s@) == trim_end(s@.subrange(a as int, b as int)),
        decreases b - a,
    {
        assert(s@.subrange(a as int, b as int).drop_last() =~= s@.subrange(a as int, b - 1));
        b = b - 1;
    }
    s.substring_char(a, b)
}

/// The text without the `/` characters it ends in.
pub fn trim_trailing_slashes(s: &str) -> (r: &str)
    ensures
        r@ == trim_slashes(s@),
{
    let n = s.unicode_len();
    let mut b: usize = n;
    assert(s@.subrange(0, n as int) =~= s@);
    while b > 0 && s.get_char(b - 1) == '/'
        invariant
            n == s@.len(),
            b <= n,
            trim_slashes(s@) == trim_slashes(s@.subrange(0, b as int)),
        decreases b,
    {
        assert(s@.subrange(0, b as int).drop_last() =~= s@.subrange(0, b - 1));
        b = b - 1;
    }
    s.substring_char(0, b)
}

/// Whether two texts are the same characters.
pub fn same_text(a: &str, b: &str) -> (r: bool)
    ensures
        r == (a@ == b@),
{
    let n = a.unicode_len();
    if n != b.unicode_len() {
        return false;
    }
    let mut i: usize = 0;
    while i < n
        invariant
            n == a@.len(),
            n == b@.len(),
            i <= n,
            forall|j: int| 0 <= j < i ==> a@[j] == b@[j],
        decreases n - i,
    {
        if a.get_char(i) != b.get_char(i) {
            return false;
        }
        i = i + 1;
    }
    assert(a@ =~= b@);
    true
}

/// A setting read at run time, else the one built in; an empty value
/// counts as none.
pub open spec fn setting_of(runtime: Option<Seq<char>>, built: Option<Seq<char>>) -> Option<Seq<char>> {
    match runtime {
        Some(v) if v.len() > 0 => Some(v),
        _ => match built {
            Some(v) if v.len() > 0 => Some(v),
            _ => None,
        },
    }
}

/// The views of an optional text.
pub open spec fn opt_view(s: Option<String>) -> Option<Seq<char>> {
    match s {
        Some(v) => Some(v@),
        None => None,
    }
}

/// The views of an optional text slice.
pub open spec fn opt_str_view(s: Option<&str>) -> Option<Seq<char>> {
    match s {
        Some(v) => Some(v@),
        None => None,
    }
}

/// See [`setting_of`].
pub fn pick_setting(runtime: Option<String>, built: Option<&str>) -> (r: Option<String>)
    ensures
        opt_view(r) == setting_of(opt_view(runtime), opt_str_view(built)),
{
    match runtime {
        Some(v) if v.as_str().unicode_len() > 0 => {
            return Some(v);
        },
        _ => {},
    }
    match built {
        Some(v) if v.unicode_len() > 0 => Some(v.to_owned()),
        _ => None,
    }
}

/// The configuration from its two settings: present only when both are,
/// the URL without the slashes it ends in.
pub open spec fn config_of(url: Option<Seq<char>>, key: Option<Seq<char>>) -> Option<(Seq<char>, Seq<char>)> {
    match (url, key) {
        (Some(u), Some(k)) => Some((trim_slashes(u), k)),
        _ => None,
    }
}

/// The configuration `(url, key)`: each setting from the environment,
/// else from the build; `None` leaves the client dark.
pub fn resolve_config(
    url_env: Option<String>,
    url_built: Option<&str>,
    key_env: Option<String>,
    key_built: Option<&str>,
) -> (r: Option<(String, String)>)
    ensures
        match r {
            Some(c) => config_of(
                setting_of(opt_view(url_env), opt_str_view(url_built)),
                setting_of(opt_view(key_env), opt_str_view(key_built)),
            ) == Some((c.0@, c.1@)),
            None => config_of(
                setting_of(opt_view(url_env), opt_str_view(url_built)),
                setting_of(opt_view(key_env), opt_str_view(key_built)),
            ) is None,
        },
{
    let url = match pick_setting(url_env, url_built) {
        Some(u) => u,
        None => {
            return None;
        },
    };
    let key = match pick_setting(key_env, key_built) {
        Some(k) => k,
        None => {
            return None;
        },
    };
    let trimmed_url = trim_trailing_slashes(url.as_str()).to_owned();
    Some((trimmed_url, key))
}

/// The values of the opt-out variable that switch telemetry off.
pub open spec fn flag_says_off(flag: Option<Seq<char>>) -> bool {
    match flag {
        Some(v) => v == "1"@ || v == "true"@ || v == "yes"@,
        None => false,
    }
}

/// Whether the user opted out: by the variable, or by a saved choice
/// that reads `disabled`, whitespace aside.
pub open spec fn opted_out_of(flag: Option<Seq<char>>, saved: Option<Seq<char>>) -> bool {
    ||| flag_says_off(flag)
    ||| (saved matches Some(t) && trimmed(t) == "disabled"@)
}

/// Whether telemetry is off by the user's choice: `env_flag` is the
/// opt-out variable, `saved` the saved choice, each if present.
pub fn telemetry_opted_out(env_flag: Option<&str>, saved: Option<&str>) -> (b: bool)
    ensures
        b == opted_out_of(opt_str_view(env_flag), opt_str_view(saved)),
{
    if let Some(v) = env_flag {
        if same_text(v, "1") || same_text(v, "true") || same_text(v, "yes") {
            return true;
        }
    }
    match saved {
        Some(t) => same_text(trim_space(t), "disabled"),
        None => false,
    }
}

/// The text that saves the user's choice.
pub open spec fn opt_out_file(opted_out: bool) -> Seq<char> {
    if opted_out {
        "disabled"@
    } else {
        "enabled"@
    }
}

/// See [`opt_out_file`].
pub fn opt_out_text(opted_out: bool) -> (s: &'static str)
    ensures
        s@ == opt_out_file(opted_out),
{
    if opted_out {
        "disabled"
    } else {
        "enabled"
    }
}

/// A saved choice reads back as the choice that was saved, when the
/// variable does not switch telemetry off.
pub proof fn lemma_opt_out_round_trip(opted_out: bool)
    ensures
        opted_out_of(None, Some(opt_out_file(opted_out))) == opted_out,
{
    reveal_strlit("disabled");
    reveal_strlit("enabled");
    let d = "disabled"@;
    assert(!is_space(d[0]));
    assert(trim_start(d) == d);
    assert(!is_space(d.last()));
    assert(trim_end(d) == d);
    if !opted_out {
        let e = "enabled"@;
        assert(!is_space(e[0]));
        assert(trim_start(e) == e);
        assert(!is_space(e.last()));
        assert(trim_end(e) == e);
        assert(e.len() != d.len());
    }
}

/// The visitor id kept in its file: the text between whitespace, when
/// there is any.
pub fn stored_visitor_id(text: &str) -> (r: Option<String>)
    ensures
        match r {
            Some(v) => trimmed(text@).len() > 0 && v@ == trimmed(text@),
            None => trimmed(text@).len() == 0,
        },
{
    let t = trim_space(text);
    if t.unicode_len() == 0 {
        None
    } else {
        Some(t.to_owned())
    }
}

/// The free text of a feedback form as sent: trimmed of whitespace, and
/// left out when nothing is left.
pub fn feedback_text(s: &str) -> (r: Option<&str>)
    ensures
        r is None <==> trimmed(s@).len() == 0,
        r matches Some(t) ==> t@ == trimmed(s@),
{
    let t = trim_space(s);
    if t.unicode_len() == 0 {
        None
    } else {
        Some(t)
    }
}

/// The longest error message sent, in characters.
pub const MAX_ERROR_CHARS: usize = 500;

/// An error message as sent: its first 500 characters.
pub fn error_message(message: &str) -> (r: String)
    ensures
        r@ == if message@.len() <= MAX_ERROR_CHARS {
            message@
        } else {
            message@.take(MAX_ERROR_CHARS as int)
        },
{
    let n = message.unicode_len();
    let m = if n <= MAX_ERROR_CHARS {
        n
    } else {
        MAX_ERROR_CHARS
    };
    let r = message.substring_char(0, m).to_owned();
    assert(message@.subrange(0, n as int) =~= message@);
    r
}

/// The URL of a configuration; empty without one.
pub open spec fn config_url(config: Option<(String, String)>) -> Seq<char> {
    match config {
        Some(c) => c.0@,
        None => Seq::empty(),
    }
}

/// The key of a configuration; empty without one.
pub open spec fn config_key(config: Option<(String, String)>) -> Seq<char> {
    match config {
        Some(c) => c.1@,
        None => Seq::empty(),
    }
}

/// The telemetry client: which app it speaks for, whether it is on, where
/// it posts, and the anonymous ids it posts under.
#[derive(Clone, Debug)]
pub struct Flywheel {
    app: String,
    enabled: bool,
    url: String,
    key: String,
    visitor_id: String,
    session_id: String,
}

impl Flywheel {
    /// Well-formedness: a client that holds a visitor id also holds a
    /// session id.
    pub open spec fn wf(&self) -> bool {
        self.visitor_view().len() > 0 ==> self.session_view().len() > 0
    }

    pub closed spec fn app_view(&self) -> Seq<char> {
        self.app@
    }

    pub closed spec fn on(&self) -> bool {
        self.enabled
    }

    pub closed spec fn url_view(&self) -> Seq<char> {
        self.url@
    }

    pub closed spec fn key_view(&self) -> Seq<char> {
        self.key@
    }

    pub closed spec fn visitor_view(&self) -> Seq<char> {
        self.visitor_id@
    }

    pub closed spec fn session_view(&self) -> Seq<char> {
        self.session_id@
    }

    /// Builds the client for `app`. It is on exactly when a configuration
    /// (`url`, `key`) is present and the user has not opted out; only then
    /// are ids minted, by one call of `new_ids` (visitor id, session id).
    /// Otherwise every id is empty and the client stays dark.
    pub fn init<F: FnOnce() -> (String, String)>(
        app: &str,
        config: Option<(String, String)>,
        opted_out: bool,
        new_ids: F,
    ) -> (r: Flywheel)
        requires
            new_ids.requires(()),
            forall|ids: (String, String)|
                new_ids.ensures((), ids) ==> ids.0@.len() > 0 && ids.1@.len() > 0,
        ensures
            r.wf(),
            r.app_view() == app@,
            r.on() ==> r.visitor_view().len() > 0 && r.session_view().len() > 0,
            r.on() == (config is Some && !opted_out),
            r.url_view() == config_url(config),
            r.key_view() == config_key(config),
            r.on() ==> exists|ids: (String, String)|
                new_ids.ensures((), ids) && r.visitor_view() == ids.0@ && r.session_view() == ids.1@,
            !r.on() ==> r.visitor_view() == Seq::<char>::empty() && r.session_view() == Seq::<
                char,
            >::empty(),
    {
        let (url, key, enabled) = match config {
            Some(c) => {
                let on = !opted_out;
                (c.0, c.1, on)
            },
            None => (String::new(), String::new(), false),
        };
        let ids = if enabled {
            new_ids()
        } else {
            (String::new(), String::new())
        };
        let ghost g = ids;
        let (visitor_id, session_id) = ids;
        let r = Flywheel { app: app.to_owned(), enabled, url, key, visitor_id, session_id };
        assert(r.on() ==> new_ids.ensures((), g) && r.visitor_view() == g.0@ && r.session_view() == g.1@);
        r
    }

    /// Whether the client posts at all.
    pub fn is_enabled(&self) -> (b: bool)
        ensures
            b == self.on(),
    {
        self.enabled
    }

    /// Re-evaluates whether the client is on after the user flips the
    /// toggle: on exactly when configured and not opted out. The first
    /// time it comes on without ids, it takes the configuration and mints
    /// the ids by one call of `new_ids`; otherwise nothing else changes.
    pub fn refresh_enabled<F: FnOnce() -> (String, String)>(
        &mut self,
        config: Option<(String, String)>,
        opted_out: bool,
        new_ids: F,
    )
        requires
            old(self).wf(),
            new_ids.requires(()),
            forall|ids: (String, String)|
                new_ids.ensures((), ids) ==> ids.0@.len() > 0 && ids.1@.len() > 0,
        ensures
            final(self).wf(),
            final(self).on() == (config is Some && !opted_out),
            final(self).on() ==> final(self).visitor_view().len() > 0 && final(self).session_view().len() > 0,
            final(self).app_view() == old(self).app_view(),
            if final(self).on() && old(self).visitor_view().len() == 0 {
                &&& final(self).url_view() == config_url(config)
                &&& final(self).key_view() == config_key(config)
                &&& exists|ids: (String, String)|
                    new_ids.ensures((), ids) && final(self).visitor_view() == ids.0@
                        && final(self).session_view() == ids.1@
            } else {
                &&& final(self).url_view() == old(self).url_view()
                &&& final(self).key_view() == old(self).key_view()
                &&& final(self).visitor_view() == old(self).visitor_view()
                &&& final(self).session_view() == old(self).session_view()
            },
    {
        self.enabled = config.is_some() && !opted_out;
        if self.enabled && self.visitor_id.as_str().is_empty() {
            if let Some(c) = config {
                self.url = c.0;
                self.key = c.1;
            }
            let ids = new_ids();
            let ghost g = ids;
            let (visitor_id, session_id) = ids;
            self.session_id = session_id;
            self.visitor_id = visitor_id;
            assert(new_ids.ensures((), g) && self.visitor_view() == g.0@ && self.session_view() == g.1@);
        }
    }

    /// The app this client speaks for.
    pub fn app(&self) -> (s: &str)
        ensures
            s@ == self.app_view(),
    {
        self.app.as_str()
    }

    /// Where the client posts.
    pub fn url(&self) -> (s: &str)
        ensures
            s@ == self.url_view(),
    {
        self.url.as_str()
    }

    /// The key it posts with.
    pub fn key(&self) -> (s: &str)
        ensures
            s@ == self.key_view(),
    {
        self.key.as_str()
    }

    /// The anonymous per-install id.
    pub fn visitor_id(&self) -> (s: &str)
        ensures
            s@ == self.visitor_view(),
    {
        self.visitor_id.as_str()
    }

    /// The per-process session id.
    pub fn session_id(&self) -> (s: &str)
        ensures
            s@ == self.session_view(),
    {
        self.session_id.as_str()
    }

    /// Where a row for `table` is posted: the REST path under the
    /// client's URL; `None` while the client is off, so that nothing is
    /// sent.
    pub fn endpoint(&self, table: &str) -> (r: Option<String>)
        ensures
            r is Some <==> self.on(),
            r matches Some(e) ==> e@ == self.url_view() + "/rest/v1/"@ + table@,
    {
        if !self.enabled {
            return None;
        }
        let mut e = self.url.clone();
        e.append("/rest/v1/");
        e.append(table);
        Some(e)
    }
}

/// A disabled client for the app: every id empty, never posts.
pub fn disabled() -> (r: Flywheel)
    ensures
        r.wf(),
        !r.on(),
        r.app_view() == "mac-dir-stat"@,
        r.url_view() == Seq::<char>::empty(),
        r.key_view() == Seq::<char>::empty(),
        r.visitor_view() == Seq::<char>::empty(),
        r.session_view() == Seq::<char>::empty(),
{
    Flywheel {
        app: "mac-dir-stat".to_owned(),
        enabled: false,
        url: String::new(),
        key: String::new(),
        visitor_id: String::new(),
        session_id: String::new(),
    }
}
} // verus!
