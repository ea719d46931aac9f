//! The timestamp normalizer: two free-form date grammars mapped to
//! seconds since the epoch, with a fixed table of named zone offsets.
//!
//! A raw date string is sniffed by shape: a string of at least nineteen
//! bytes with a dash at offset four and a `T` at offset ten is read as the
//! fixed-width calendar-and-clock grammar; anything else as the
//! day/month-name/year grammar. Either parser reports "unparsable" rather
//! than returning a partial result.
use vstd::prelude::*;
use vstd::arithmetic::div_mod::lemma_fundamental_div_mod;
use crate::decimal::{
    spec_all_digits,
    spec_digits_val,
    spec_parse_i64,
    parse_i64_dec,
    pow10,
    lemma_pow10_vals,
};

verus! {

pub open spec fn spec_is_ws(b: u8) -> bool {
    b == 32 || b == 9 || b == 10 || b == 13
}

/// `s` with leading and trailing whitespace removed.
pub open spec fn spec_trim(s: Seq<u8>) -> Seq<u8>
    decreases s.len(),
{
    if s.len() == 0 {
        s
    } else if spec_is_ws(s[0]) {
        spec_trim(s.skip(1))
    } else if spec_is_ws(s.last()) {
        spec_trim(s.drop_last())
    } else {
        s
    }
}

/// Copy `s` with leading and trailing whitespace removed.
pub fn trim_bytes(s: &[u8]) -> (r: Vec<u8>)
    ensures
        r@ == spec_trim(s@),
{
    let mut a: usize = 0;
    let mut b: usize = s.len();
    proof {
        assert(s@.subrange(0, s@.len() as int) =~= s@);
    }
    while a < b && (s[a] == 32 || s[a] == 9 || s[a] == 10 || s[a] == 13)
        invariant
            0 <= a <= b <= s@.len(),
            spec_trim(s@) == spec_trim(s@.subrange(a as int, b as int)),
        decreases b - a,
    {
        proof {
            let t = s@.subrange(a as int, b as int);
            assert(t[0] == s@[a as int]);
            assert(t.skip(1) =~= s@.subrange(a as int + 1, b as int));
        }
        a += 1;
    }
    while a < b && (s[b - 1] == 32 || s[b - 1] == 9 || s[b - 1] == 10 || s[b - 1] == 13)
        invariant
            0 <= a <= b <= s@.len(),
            spec_trim(s@) == spec_trim(s@.subrange(a as int, b as int)),
            a < b ==> !spec_is_ws(s@[a as int]),
        decreases b - a,
    {
        proof {
            let t = s@.subrange(a as int, b as int);
            assert(t[0] == s@[a as int]);
            assert(t.last() == s@[b as int - 1]);
            assert(t.drop_last() =~= s@.subrange(a as int, b as int - 1));
        }
        b -= 1;
    }
    proof {
        let t = s@.subrange(a as int, b as int);
        if t.len() > 0 {
            assert(t[0] == s@[a as int]);
            assert(t.last() == s@[b as int - 1]);
        }
        assert(spec_trim(t) == t);
    }
    let mut r: Vec<u8> = Vec::new();
    let mut i: usize = a;
    while i < b
        invariant
            a <= i <= b <= s@.len(),
            r@ == s@.subrange(a as int, i as int),
        decreases b - i,
    {
        r.push(s[i]);
        i += 1;
        proof {
            assert(r@ =~= s@.subrange(a as int, i as int));
        }
    }
    proof {
        assert(r@ =~= s@.subrange(a as int, b as int));
    }
    r
}

/// Whitespace-separated tokens of `s`, with `cur` the token begun so far.
pub open spec fn spec_tokens_acc(s: Seq<u8>, cur: Seq<u8>) -> Seq<Seq<u8>>
    decreases s.len(),
{
    if s.len() == 0 {
        if cur.len() == 0 {
            seq![]
        } else {
            seq![cur]
        }
    } else if spec_is_ws(s[0]) {
        if cur.len() == 0 {
            spec_tokens_acc(s.skip(1), cur)
        } else {
            seq![cur] + spec_tokens_acc(s.skip(1), seq![])
        }
    } else {
        spec_tokens_acc(s.skip(1), cur.push(s[0]))
    }
}

/// The whitespace-separated tokens of `s`, in order, each non-empty.
pub open spec fn spec_tokens(s: Seq<u8>) -> Seq<Seq<u8>> {
    spec_tokens_acc(s, seq![])
}

fn split_tokens(s: &[u8]) -> (r: Vec<Vec<u8>>)
    ensures
        r@.map_values(|t: Vec<u8>| t@) == spec_tokens(s@),
{
    let mut r: Vec<Vec<u8>> = Vec::new();
    let mut cur: Vec<u8> = Vec::new();
    let mut i: usize = 0;
    proof {
        assert(s@.skip(0) =~= s@);
        assert(r@.map_values(|t: Vec<u8>| t@) =~= Seq::<Seq<u8>>::empty());
    }
    while i < s.len()
        invariant
            i <= s@.len(),
            r@.map_values(|t: Vec<u8>| t@) + spec_tokens_acc(s@.skip(i as int), cur@)
                == spec_tokens(s@),
        decreases s@.len() - i,
    {
        let b = s[i];
        proof {
            assert(s@.skip(i as int)[0] == b);
            assert(s@.skip(i as int).skip(1) =~= s@.skip(i as int + 1));
        }
        if b == 32 || b == 9 || b == 10 || b == 13 {
            if cur.len() > 0 {
                r.push(cur);
                cur = Vec::new();
                proof {
                    assert(r@.map_values(|t: Vec<u8>| t@) =~= r@.map_values(
                        |t: Vec<u8>| t@,
                    ).drop_last().push(r@.last()@));
                }
            }
        } else {
            cur.push(b);
        }
        i += 1;
        proof {
            assert(r@.map_values(|t: Vec<u8>| t@) + spec_tokens_acc(s@.skip(i as int), cur@)
                =~= spec_tokens(s@));
        }
    }
    if cur.len() > 0 {
        r.push(cur);
        proof {
            assert(r@.map_values(|t: Vec<u8>| t@) =~= r@.map_values(
                |t: Vec<u8>| t@,
            ).drop_last().push(r@.last()@));
        }
    }
    proof {
        assert(s@.skip(s@.len() as int) =~= Seq::<u8>::empty());
        assert(r@.map_values(|t: Vec<u8>| t@) =~= spec_tokens(s@));
    }
    r
}

/// The value of the digit run `s[from..to)`, when that range is one to
/// nine digits long; anything else is not a fixed-width number field.
pub open spec fn spec_num_range(s: Seq<u8>, from: int, to: int) -> Option<int> {
    if 0 <= from < to <= s.len() && to - from <= 9 && spec_all_digits(s.subrange(from, to)) {
        Some(spec_digits_val(s.subrange(from, to)))
    } else {
        None
    }
}

fn parse_num_range(s: &[u8], from: usize, to: usize) -> (r: Option<i64>)
    requires
        from <= to <= s@.len(),
    ensures
        (r is None) == (spec_num_range(s@, from as int, to as int) is None),
        r matches Some(v) ==> spec_num_range(s@, from as int, to as int) == Some(v as int),
        r matches Some(v) ==> 0 <= v < pow10((to - from) as nat),
{
    if from == to || to - from > 9 {
        return None;
    }
    let mut acc: u64 = 0;
    let mut i: usize = from;
    proof {
        lemma_pow10_vals();
        assert(s@.subrange(from as int, from as int) =~= Seq::<u8>::empty());
    }
    while i < to
        invariant
            from <= i <= to <= s@.len(),
            to - from <= 9,
            acc == spec_digits_val(s@.subrange(from as int, i as int)),
            spec_all_digits(s@.subrange(from as int, i as int)),
            acc < pow10((i - from) as nat),
            pow10(9) == 1000000000,
        decreases to - i,
    {
        let b = s[i];
        if b < 48 || b > 57 {
            proof {
                assert(s@.subrange(from as int, to as int)[i - from as int] == s@[i as int]);
            }
            return None;
        }
        proof {
            crate::decimal::lemma_pow10_mono(((i - from) as nat) + 1, 9);
            assert(pow10(((i - from) as nat) + 1) == 10 * pow10((i - from) as nat));
        }
        acc = acc * 10 + ((b - 48) as u64);
        i += 1;
        proof {
            assert(s@.subrange(from as int, i as int).drop_last() =~= s@.subrange(
                from as int,
                i as int - 1,
            ));
            assert(s@.subrange(from as int, i as int).last() == b);
        }
    }
    proof {
        crate::decimal::lemma_pow10_mono((to - from) as nat, 9);
    }
    Some(acc as i64)
}

/// Days from the epoch date to the given civil date, by the
/// proleptic-Gregorian day-count algorithm: no leap seconds, no
/// historical calendar adjustments. Fields outside a real calendar are
/// accepted and extrapolated, as a tolerant feed parser wants.
pub open spec fn spec_days_since_epoch(year: int, month: int, day: int) -> int {
    let y = if month <= 2 {
        year - 1
    } else {
        year
    };
    let m = if month <= 2 {
        month + 9
    } else {
        month - 3
    };
    let era = y / 400;
    let yoe = y - era * 400;
    let doy = (153 * m + 2) / 5 + day - 1;
    let doe = yoe * 365 + yoe / 4 - yoe / 100 + doy;
    era * 146097 + doe - 719468
}

/// Euclidean quotient of `a` by a positive divisor: the floor-style
/// division the day-count algorithm needs on years before the epoch too.
fn div_euclid_i64(a: i64, b: i64) -> (r: i64)
    requires
        1 <= b <= 1000000,
        -0x4000000000000000 < a < 0x4000000000000000,
    ensures
        r == a as int / b as int,
{
    if a >= 0 {
        ((a as u64) / (b as u64)) as i64
    } else {
        let n: u64 = (-(a + 1)) as u64;
        let q: i64 = (n / (b as u64)) as i64;
        proof {
            lemma_fundamental_div_mod(n as int, b as int);
            assert(n as int == (b as int) * (q as int) + (n as int % b as int));
            assert((-(q as int) - 1) * (b as int) == -((b as int) * (q as int)) - (b as int))
                by (nonlinear_arith);
            assert(a as int == (-(q as int) - 1) * (b as int) + ((b as int) - 1 - (n as int % (
            b as int))));
            vstd::arithmetic::div_mod::lemma_fundamental_div_mod_converse(
                a as int,
                b as int,
                -(q as int) - 1,
                b as int - 1 - (n as int % b as int),
            );
        }
        -q - 1
    }
}

pub fn days_since_epoch(year: i64, month: i64, day: i64) -> (r: i64)
    requires
        -100000000000 <= year <= 100000000000,
        0 <= month <= 99,
        -100000000000 <= day <= 100000000000,
    ensures
        r == spec_days_since_epoch(year as int, month as int, day as int),
        -40000000000000 <= r <= 40000000000000,
{
    let y: i64 = if month <= 2 {
        year - 1
    } else {
        year
    };
    let m: u64 = if month <= 2 {
        (month + 9) as u64
    } else {
        (month - 3) as u64
    };
    let era: i64 = div_euclid_i64(y, 400);
    proof {
        lemma_fundamental_div_mod(y as int, 400);
        vstd::arithmetic::div_mod::lemma_mod_division_less_than_divisor(y as int, 400);
    }
    let yoe: u64 = (y - era * 400) as u64;
    let doy: i64 = (((153 * m + 2) / 5) as i64) + day - 1;
    let doe: i64 = ((yoe * 365 + yoe / 4) - yoe / 100) as i64 + doy;
    era * 146097 + doe - 719468
}

/// Lower-cased form of an ASCII letter.
pub open spec fn spec_lower_byte(b: u8) -> u8 {
    if 65 <= b <= 90 {
        (b + 32) as u8
    } else {
        b
    }
}

pub open spec fn spec_lower(s: Seq<u8>) -> Seq<u8> {
    s.map_values(|b: u8| spec_lower_byte(b))
}

fn lower_bytes(s: &[u8]) -> (r: Vec<u8>)
    ensures
        r@ == spec_lower(s@),
{
    let mut r: Vec<u8> = Vec::new();
    let mut i: usize = 0;
    while i < s.len()
        invariant
            i <= s@.len(),
            r@ == spec_lower(s@.take(i as int)),
        decreases s@.len() - i,
    {
        let b = s[i];
        if 65 <= b && b <= 90 {
            r.push(b + 32);
        } else {
            r.push(b);
        }
        i += 1;
        proof {
            assert(r@ =~= spec_lower(s@.take(i as int)));
        }
    }
    proof {
        assert(s@.take(s@.len() as int) =~= s@);
    }
    r
}

/// Month number for a lower-cased three-letter month abbreviation.
pub open spec fn spec_month_num(t: Seq<u8>) -> Option<int> {
    let l = spec_lower(t);
    if l == seq![106u8, 97u8, 110u8] {
        Some(1)
    } else if l == seq![102u8, 101u8, 98u8] {
        Some(2)
    } else if l == seq![109u8, 97u8, 114u8] {
        Some(3)
    } else if l == seq![97u8, 112u8, 114u8] {
        Some(4)
    } else if l == seq![109u8, 97u8, 121u8] {
        Some(5)
    } else if l == seq![106u8, 117u8, 110u8] {
        Some(6)
    } else if l == seq![106u8, 117u8, 108u8] {
        Some(7)
    } else if l == seq![97u8, 117u8, 103u8] {
        Some(8)
    } else if l == seq![115u8, 101u8, 112u8] {
        Some(9)
    } else if l == seq![111u8, 99u8, 116u8] {
        Some(10)
    } else if l == seq![110u8, 111u8, 118u8] {
        Some(11)
    } else if l == seq![100u8, 101u8, 99u8] {
        Some(12)
    } else {
        None
    }
}

fn month_num(t: &[u8]) -> (r: Option<i64>)
    ensures
        (r is None) == (spec_month_num(t@) is None),
        r matches Some(v) ==> spec_month_num(t@) == Some(v as int) && 1 <= v <= 12,
{
    let jan: [u8; 3] = [106, 97, 110];
    let feb: [u8; 3] = [102, 101, 98];
    let mar: [u8; 3] = [109, 97, 114];
    let apr: [u8; 3] = [97, 112, 114];
    let may: [u8; 3] = [109, 97, 121];
    let jun: [u8; 3] = [106, 117, 110];
    let jul: [u8; 3] = [106, 117, 108];
    let aug: [u8; 3] = [97, 117, 103];
    let sep: [u8; 3] = [115, 101, 112];
    let oct: [u8; 3] = [111, 99, 116];
    let nov: [u8; 3] = [110, 111, 118];
    let dec: [u8; 3] = [100, 101, 99];
    let l = lower_bytes(t);
    let ls = l.as_slice();
    if crate::text::bytes_eq(ls, jan.as_slice()) {
        Some(1)
    } else if crate::text::bytes_eq(ls, feb.as_slice()) {
        Some(2)
    } else if crate::text::bytes_eq(ls, mar.as_slice()) {
        Some(3)
    } else if crate::text::bytes_eq(ls, apr.as_slice()) {
        Some(4)
    } else if crate::text::bytes_eq(ls, may.as_slice()) {
        Some(5)
    } else if crate::text::bytes_eq(ls, jun.as_slice()) {
        Some(6)
    } else if crate::text::bytes_eq(ls, jul.as_slice()) {
        Some(7)
    } else if crate::text::bytes_eq(ls, aug.as_slice()) {
        Some(8)
    } else if crate::text::bytes_eq(ls, sep.as_slice()) {
        Some(9)
    } else if crate::text::bytes_eq(ls, oct.as_slice()) {
        Some(10)
    } else if crate::text::bytes_eq(ls, nov.as_slice()) {
        Some(11)
    } else if crate::text::bytes_eq(ls, dec.as_slice()) {
        Some(12)
    } else {
        None
    }
}

/// Offset in seconds east of UTC for a zone token: the fixed table of
/// named zones, a numeric `+HHMM`/`-HHMM` form, and zero for anything
/// unrecognized.
pub open spec fn spec_tz_offset(t: Seq<u8>) -> int {
    if t == seq![71u8, 77u8, 84u8] || t == seq![85u8, 84u8, 67u8] || t == seq![85u8, 84u8] || t
        == seq![90u8] {
        0
    } else if t == seq![69u8, 83u8, 84u8] {
        -5 * 3600
    } else if t == seq![69u8, 68u8, 84u8] {
        -4 * 3600
    } else if t == seq![67u8, 83u8, 84u8] {
        -6 * 3600
    } else if t == seq![67u8, 68u8, 84u8] {
        -5 * 3600
    } else if t == seq![77u8, 83u8, 84u8] {
        -7 * 3600
    } else if t == seq![77u8, 68u8, 84u8] {
        -6 * 3600
    } else if t == seq![80u8, 83u8, 84u8] {
        -8 * 3600
    } else if t == seq![80u8, 68u8, 84u8] {
        -7 * 3600
    } else if t.len() >= 5 && (t[0] == 43 || t[0] == 45) {
        let sign: int = if t[0] == 45 {
            -1
        } else {
            1
        };
        let h = match spec_num_range(t, 1, 3) {
            Some(v) => v,
            None => 0,
        };
        let m = match spec_num_range(t, 3, 5) {
            Some(v) => v,
            None => 0,
        };
        sign * (h * 3600 + m * 60)
    } else {
        0
    }
}

/// Resolve a zone token against the fixed zone table.
pub fn parse_tz_offset(t: &[u8]) -> (r: i64)
    ensures
        r == spec_tz_offset(t@),
        -400000 <= r <= 400000,
{
    let gmt: [u8; 3] = [71, 77, 84];
    let utc: [u8; 3] = [85, 84, 67];
    let ut: [u8; 2] = [85, 84];
    let zz: [u8; 1] = [90];
    let est: [u8; 3] = [69, 83, 84];
    let edt: [u8; 3] = [69, 68, 84];
    let cst: [u8; 3] = [67, 83, 84];
    let cdt: [u8; 3] = [67, 68, 84];
    let mst: [u8; 3] = [77, 83, 84];
    let mdt: [u8; 3] = [77, 68, 84];
    let pst: [u8; 3] = [80, 83, 84];
    let pdt: [u8; 3] = [80, 68, 84];
    if crate::text::bytes_eq(t, gmt.as_slice()) || crate::text::bytes_eq(t, utc.as_slice())
        || crate::text::bytes_eq(t, ut.as_slice()) || crate::text::bytes_eq(t, zz.as_slice()) {
        0
    } else if crate::text::bytes_eq(t, est.as_slice()) {
        -5 * 3600
    } else if crate::text::bytes_eq(t, edt.as_slice()) {
        -4 * 3600
    } else if crate::text::bytes_eq(t, cst.as_slice()) {
        -6 * 3600
    } else if crate::text::bytes_eq(t, cdt.as_slice()) {
        -5 * 3600
    } else if crate::text::bytes_eq(t, mst.as_slice()) {
        -7 * 3600
    } else if crate::text::bytes_eq(t, mdt.as_slice()) {
        -6 * 3600
    } else if crate::text::bytes_eq(t, pst.as_slice()) {
        -8 * 3600
    } else if crate::text::bytes_eq(t, pdt.as_slice()) {
        -7 * 3600
    } else if t.len() >= 5 && (t[0] == 43 || t[0] == 45) {
        let sign: i64 = if t[0] == 45 {
            -1
        } else {
            1
        };
        proof {
            lemma_pow10_vals();
        }
        let h: i64 = match parse_num_range(t, 1, 3) {
            Some(v) => v,
            None => 0,
        };
        let m: i64 = match parse_num_range(t, 3, 5) {
            Some(v) => v,
            None => 0,
        };
        sign * (h * 3600 + m * 60)
    } else {
        0
    }
}

/// The fixed-width calendar-and-clock grammar: `YYYY-MM-DDTHH:MM:SS`
/// with an optional zone suffix (`Z`/`z`, or a signed `+HH:MM` offset).
/// The local clock value is converted to UTC by subtracting the offset.
pub open spec fn spec_parse_rfc3339(s: Seq<u8>) -> Option<int> {
    if s.len() < 19 {
        None
    } else {
        let year = spec_num_range(s, 0, 4);
        let month = spec_num_range(s, 5, 7);
        let day = spec_num_range(s, 8, 10);
        let hour = spec_num_range(s, 11, 13);
        let minute = spec_num_range(s, 14, 16);
        let sec = spec_num_range(s, 17, 19);
        if year is None || month is None || day is None || hour is None || minute is None || sec
            is None {
            None
        } else {
            let ts = spec_days_since_epoch(year.unwrap(), month.unwrap(), day.unwrap()) * 86400
                + hour.unwrap() * 3600 + minute.unwrap() * 60 + sec.unwrap();
            let rest = s.skip(19);
            if rest.len() > 0 && (rest[0] == 90 || rest[0] == 122) {
                Some(ts)
            } else if rest.len() >= 6 && (rest[0] == 43 || rest[0] == 45) {
                let sign: int = if rest[0] == 45 {
                    -1
                } else {
                    1
                };
                let oh = spec_num_range(rest, 1, 3);
                let om = spec_num_range(rest, 4, 6);
                if oh is None || om is None {
                    None
                } else {
                    Some(ts - sign * (oh.unwrap() * 3600 + om.unwrap() * 60))
                }
            } else {
                Some(ts)
            }
        }
    }
}

/// Parse the fixed-width calendar-and-clock grammar.
pub fn parse_rfc3339(s: &[u8]) -> (r: Option<i64>)
    ensures
        (r is None) == (spec_parse_rfc3339(s@) is None),
        r matches Some(v) ==> spec_parse_rfc3339(s@) == Some(v as int),
{
    if s.len() < 19 {
        return None;
    }
    proof {
        lemma_pow10_vals();
    }
    let year = match parse_num_range(s, 0, 4) {
        Some(v) => v,
        None => { return None },
    };
    let month = match parse_num_range(s, 5, 7) {
        Some(v) => v,
        None => { return None },
    };
    let day = match parse_num_range(s, 8, 10) {
        Some(v) => v,
        None => { return None },
    };
    let hour = match parse_num_range(s, 11, 13) {
        Some(v) => v,
        None => { return None },
    };
    let minute = match parse_num_range(s, 14, 16) {
        Some(v) => v,
        None => { return None },
    };
    let sec = match parse_num_range(s, 17, 19) {
        Some(v) => v,
        None => { return None },
    };
    let ts: i64 = days_since_epoch(year, month, day) * 86400 + hour * 3600 + minute * 60 + sec;
    let ghost rest = s@.skip(19);
    if s.len() > 19 && (s[19] == 90 || s[19] == 122) {
        proof {
            assert(rest[0] == s@[19]);
        }
        Some(ts)
    } else if s.len() >= 25 && (s[19] == 43 || s[19] == 45) {
        let sign: i64 = if s[19] == 45 {
            -1
        } else {
            1
        };
        proof {
            assert(rest[0] == s@[19]);
            assert(rest.subrange(1, 3) =~= s@.subrange(20, 22));
            assert(rest.subrange(3, 5) =~= s@.subrange(22, 24));
            assert(rest.subrange(4, 6) =~= s@.subrange(23, 25));
        }
        let oh = match parse_num_range(s, 20, 22) {
            Some(v) => v,
            None => { return None },
        };
        let om = match parse_num_range(s, 23, 25) {
            Some(v) => v,
            None => { return None },
        };
        proof {
            assert(spec_num_range(rest, 1, 3) == spec_num_range(s@, 20, 22));
            assert(spec_num_range(rest, 4, 6) == spec_num_range(s@, 23, 25));
        }
        Some(ts - sign * (oh * 3600 + om * 60))
    } else {
        proof {
            if rest.len() > 0 {
                assert(rest[0] == s@[19]);
            }
        }
        Some(ts)
    }
}

/// The free-form grammar: an optional weekday name and comma, then
/// day-of-month, a month abbreviation, year, an `HH:MM:SS` clock, and an
/// optional zone token resolved against the fixed zone table. A numeric
/// field beyond a hundred billion in magnitude is unparsable: past that
/// the second count leaves the machine integer.
pub open spec fn spec_parse_rfc2822(s: Seq<u8>) -> Option<int> {
    let ci = crate::text::spec_find_byte(s, 44, 0);
    let body = if ci < s.len() {
        s.skip(ci + 1)
    } else {
        s
    };
    let parts = spec_tokens(body);
    if parts.len() < 4 {
        None
    } else {
        let day = spec_parse_i64(parts[0]);
        let mon = spec_month_num(parts[1]);
        let year = spec_parse_i64(parts[2]);
        let t = parts[3];
        let j1 = crate::text::spec_find_byte(t, 58, 0);
        let j2 = crate::text::spec_find_byte(t, 58, j1 + 1);
        if day is None || mon is None || year is None || j1 >= t.len() || j2 >= t.len() {
            None
        } else {
            let j3 = crate::text::spec_find_byte(t, 58, j2 + 1);
            let hour = spec_parse_i64(t.subrange(0, j1));
            let minute = spec_parse_i64(t.subrange(j1 + 1, j2));
            let sec = spec_parse_i64(t.subrange(j2 + 1, j3));
            if hour is None || minute is None || sec is None {
                None
            } else if !(-100000000000 <= day.unwrap() <= 100000000000) || !(-100000000000
                <= year.unwrap() <= 100000000000) || !(-100000000000 <= hour.unwrap()
                <= 100000000000) || !(-100000000000 <= minute.unwrap() <= 100000000000) || !(
            -100000000000 <= sec.unwrap() <= 100000000000) {
                None
            } else {
                let ts = spec_days_since_epoch(year.unwrap(), mon.unwrap(), day.unwrap()) * 86400
                    + hour.unwrap() * 3600 + minute.unwrap() * 60 + sec.unwrap();
                let off = if parts.len() > 4 {
                    spec_tz_offset(parts[4])
                } else {
                    0
                };
                Some(ts - off)
            }
        }
    }
}

/// Parse the free-form day/month-name/year grammar.
pub fn parse_rfc2822(s: &[u8]) -> (r: Option<i64>)
    ensures
        (r is None) == (spec_parse_rfc2822(s@) is None),
        r matches Some(v) ==> spec_parse_rfc2822(s@) == Some(v as int),
{
    let ci = crate::text::find_byte(s, 44, 0);
    let ghost body = if (ci as int) < s@.len() {
        s@.skip(ci as int + 1)
    } else {
        s@
    };
    let parts: Vec<Vec<u8>> = if ci < s.len() {
        proof {
            assert(s@.subrange(ci as int + 1, s@.len() as int) =~= s@.skip(ci as int + 1));
        }
        split_tokens(&s[ci + 1..s.len()])
    } else {
        split_tokens(s)
    };
    let ghost pviews = parts@.map_values(|t: Vec<u8>| t@);
    proof {
        assert(pviews == spec_tokens(body));
    }
    if parts.len() < 4 {
        return None;
    }
    proof {
        assert(pviews[0] == parts@[0]@);
        assert(pviews[1] == parts@[1]@);
        assert(pviews[2] == parts@[2]@);
        assert(pviews[3] == parts@[3]@);
    }
    let day = match parse_i64_dec(parts[0].as_slice()) {
        Some(v) => v,
        None => { return None },
    };
    let mon = match month_num(parts[1].as_slice()) {
        Some(v) => v,
        None => { return None },
    };
    let year = match parse_i64_dec(parts[2].as_slice()) {
        Some(v) => v,
        None => { return None },
    };
    let t = parts[3].as_slice();
    let j1 = crate::text::find_byte(t, 58, 0);
    proof {
        crate::text::lemma_find_byte_range(t@, 58, 0);
    }
    if j1 >= t.len() {
        return None;
    }
    let j2 = crate::text::find_byte(t, 58, j1 + 1);
    proof {
        crate::text::lemma_find_byte_range(t@, 58, j1 as int + 1);
    }
    if j2 >= t.len() {
        return None;
    }
    proof {
        crate::text::lemma_find_byte_range(t@, 58, j2 as int + 1);
    }
    let j3 = crate::text::find_byte(t, 58, j2 + 1);
    let hour = match parse_i64_dec(&t[0..j1]) {
        Some(v) => v,
        None => { return None },
    };
    let minute = match parse_i64_dec(&t[j1 + 1..j2]) {
        Some(v) => v,
        None => { return None },
    };
    let sec = match parse_i64_dec(&t[j2 + 1..j3]) {
        Some(v) => v,
        None => { return None },
    };
    if !(-100000000000 <= day && day <= 100000000000) || !(-100000000000 <= year && year
        <= 100000000000) || !(-100000000000 <= hour && hour <= 100000000000) || !(-100000000000
        <= minute && minute <= 100000000000) || !(-100000000000 <= sec && sec <= 100000000000) {
        return None;
    }
    let ts: i64 = days_since_epoch(year, mon, day) * 86400 + hour * 3600 + minute * 60 + sec;
    let off: i64 = if parts.len() > 4 {
        proof {
            assert(pviews[4] == parts@[4]@);
        }
        parse_tz_offset(parts[4].as_slice())
    } else {
        0
    };
    Some(ts - off)
}

/// The timestamp normalizer: trim the raw text, sniff the grammar by
/// shape, and parse with the matching grammar; `None` means unparsable,
/// never a partial result.
pub open spec fn spec_parse_timestamp(s: Seq<u8>) -> Option<int> {
    let t = spec_trim(s);
    if t.len() >= 19 && t[4] == 45 && t[10] == 84 {
        spec_parse_rfc3339(t)
    } else {
        spec_parse_rfc2822(t)
    }
}

/// Map a raw date string to seconds since the epoch, or report it
/// unparsable.
pub fn parse_timestamp(s: &[u8]) -> (r: Option<i64>)
    ensures
        (r is None) == (spec_parse_timestamp(s@) is None),
        r matches Some(v) ==> spec_parse_timestamp(s@) == Some(v as int),
{
    let t = trim_bytes(s);
    if t.len() >= 19 && t[4] == 45 && t[10] == 84 {
        parse_rfc3339(t.as_slice())
    } else {
        parse_rfc2822(t.as_slice())
    }
}

} // verus!
