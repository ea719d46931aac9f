//! Decimal rendering and parsing of integers, used by the record store
//! for the published-timestamp field and by the page renderer.
use vstd::prelude::*;
use vstd::arithmetic::div_mod::lemma_fundamental_div_mod;

verus! {

/// Decimal digits of `n`, most significant first, no sign, no leading zero.
pub open spec fn spec_dec_u64(n: nat) -> Seq<u8>
    decreases n,
{
    if n < 10 {
        seq![(48 + n) as u8]
    } else {
        spec_dec_u64(n / 10).push((48 + n % 10) as u8)
    }
}

/// Decimal form of a signed value: a leading minus sign when negative.
pub open spec fn spec_dec_i64(v: int) -> Seq<u8> {
    if v >= 0 {
        spec_dec_u64(v as nat)
    } else {
        seq![45u8] + spec_dec_u64((-v) as nat)
    }
}

pub fn u64_to_dec(n: u64) -> (r: Vec<u8>)
    ensures
        r@ == spec_dec_u64(n as nat),
    decreases n,
{
    if n < 10 {
        let mut r: Vec<u8> = Vec::new();
        r.push(48 + (n as u8));
        r
    } else {
        let mut r = u64_to_dec(n / 10);
        r.push(48 + ((n % 10) as u8));
        r
    }
}

pub fn i64_to_dec(v: i64) -> (r: Vec<u8>)
    ensures
        r@ == spec_dec_i64(v as int),
{
    if v >= 0 {
        u64_to_dec(v as u64)
    } else {
        let mag: u64 = ((-(v + 1)) as u64) + 1;
        proof {
            assert(mag as int == -(v as int));
        }
        let mut r: Vec<u8> = Vec::new();
        r.push(45);
        let d = u64_to_dec(mag);
        r.extend_from_slice(d.as_slice());
        proof {
            assert(r@ =~= seq![45u8] + spec_dec_u64(mag as nat));
        }
        r
    }
}

pub open spec fn spec_all_digits(s: Seq<u8>) -> bool {
    forall|i: int| 0 <= i < s.len() ==> 48 <= #[trigger] s[i] <= 57
}

/// The integer value of a digit string, most significant digit first.
pub open spec fn spec_digits_val(s: Seq<u8>) -> int
    decreases s.len(),
{
    if s.len() == 0 {
        0
    } else {
        spec_digits_val(s.drop_last()) * 10 + (s.last() - 48)
    }
}

pub open spec fn pow10(k: nat) -> nat
    decreases k,
{
    if k == 0 {
        1nat
    } else {
        10 * pow10((k - 1) as nat)
    }
}

pub proof fn lemma_pow10_mono(k1: nat, k2: nat)
    requires
        k1 <= k2,
    ensures
        pow10(k1) <= pow10(k2),
    decreases k2,
{
    if k1 < k2 {
        lemma_pow10_mono(k1, (k2 - 1) as nat);
    }
}

pub proof fn lemma_pow10_vals()
    ensures
        pow10(2) == 100,
        pow10(3) == 1000,
        pow10(4) == 10000,
        pow10(6) == 1000000,
        pow10(9) == 1000000000,
        pow10(19) == 10000000000000000000,
{
    assert(pow10(0) == 1);
    assert(pow10(1) == 10);
    assert(pow10(2) == 100);
    assert(pow10(3) == 1000);
    assert(pow10(4) == 10000);
    assert(pow10(5) == 100000);
    assert(pow10(6) == 1000000);
    assert(pow10(7) == 10000000);
    assert(pow10(8) == 100000000);
    assert(pow10(9) == 1000000000);
    assert(pow10(10) == 10000000000);
    assert(pow10(11) == 100000000000);
    assert(pow10(12) == 1000000000000);
    assert(pow10(13) == 10000000000000);
    assert(pow10(14) == 100000000000000);
    assert(pow10(15) == 1000000000000000);
    assert(pow10(16) == 10000000000000000);
    assert(pow10(17) == 100000000000000000);
    assert(pow10(18) == 1000000000000000000);
}

/// Every digit of the unsigned decimal form, its value, and its length.
pub proof fn lemma_dec_u64_props(n: nat)
    ensures
        spec_all_digits(spec_dec_u64(n)),
        spec_digits_val(spec_dec_u64(n)) == n,
        1 <= spec_dec_u64(n).len(),
    decreases n,
{
    if n < 10 {
        let s = spec_dec_u64(n);
        assert(s =~= seq![(48 + n) as u8]);
        assert(s.drop_last() =~= Seq::<u8>::empty());
        assert(spec_digits_val(Seq::<u8>::empty()) == 0);
        assert(s.last() == (48 + n) as u8);
        assert(spec_digits_val(s) == n);
    } else {
        lemma_dec_u64_props(n / 10);
        lemma_fundamental_div_mod(n as int, 10);
        assert(spec_dec_u64(n).drop_last() =~= spec_dec_u64(n / 10));
        assert(spec_dec_u64(n).last() == (48 + n % 10) as u8);
    }
}

pub proof fn lemma_dec_u64_len(n: nat, k: nat)
    requires
        1 <= k,
        n < pow10(k),
    ensures
        spec_dec_u64(n).len() <= k,
    decreases n,
{
    if n >= 10 {
        if k == 1 {
            assert(pow10(0) == 1);
            assert(pow10(1) == 10);
            assert(false);
        } else {
            lemma_fundamental_div_mod(n as int, 10);
            assert(n / 10 < pow10((k - 1) as nat));
            lemma_dec_u64_len(n / 10, (k - 1) as nat);
        }
    }
}

/// The decimal form of an integer that is either absent (an empty field)
/// or, when present, its signed integer value if the digits are well
/// formed and the value fits in the signed range.
pub open spec fn spec_parse_i64(s: Seq<u8>) -> Option<int> {
    let neg = s.len() > 0 && s[0] == 45;
    let ds = if neg {
        s.skip(1)
    } else {
        s
    };
    if ds.len() == 0 || ds.len() > 19 || !spec_all_digits(ds) {
        None
    } else {
        let v = if neg {
            -spec_digits_val(ds)
        } else {
            spec_digits_val(ds)
        };
        if -0x8000000000000000 <= v <= 0x7fffffffffffffff {
            Some(v)
        } else {
            None
        }
    }
}

/// Parse a decimal integer field: an optional minus sign and up to
/// nineteen digits, rejected when malformed or out of the signed range.
pub fn parse_i64_dec(s: &[u8]) -> (r: Option<i64>)
    ensures
        (r is None) == (spec_parse_i64(s@) is None),
        r matches Some(v) ==> spec_parse_i64(s@) == Some(v as int),
{
    let neg = s.len() > 0 && s[0] == 45;
    let start: usize = if neg {
        1
    } else {
        0
    };
    let ghost ds = if neg {
        s@.skip(1)
    } else {
        s@
    };
    proof {
        assert(s@.skip(0) =~= s@);
        assert(ds == s@.skip(start as int));
    }
    if s.len() - start == 0 || s.len() - start > 19 {
        proof {
            assert(ds.len() == s@.len() - start);
        }
        return None;
    }
    let mut acc: u64 = 0;
    let mut i: usize = start;
    proof {
        lemma_pow10_vals();
        assert(s@.subrange(start as int, start as int) =~= Seq::<u8>::empty());
    }
    while i < s.len()
        invariant
            start <= i <= s@.len(),
            neg == (s@.len() > 0 && s@[0] == 45),
            start == if neg {
                1int
            } else {
                0int
            },
            s@.len() - start <= 19,
            acc == spec_digits_val(s@.subrange(start as int, i as int)),
            spec_all_digits(s@.subrange(start as int, i as int)),
            acc < pow10((i - start) as nat),
            pow10(19) == 10000000000000000000,
            ds == s@.skip(start as int),
        decreases s@.len() - i,
    {
        let b = s[i];
        if b < 48 || b > 57 {
            proof {
                assert(ds[i - start as int] == s@[i as int]);
                assert(!(48 <= ds[i - start as int] <= 57));
                assert(!spec_all_digits(ds));
            }
            return None;
        }
        proof {
            lemma_pow10_mono(((i - start) as nat) + 1, 19);
            assert(pow10(((i - start) as nat) + 1) == 10 * pow10((i - start) as nat));
        }
        acc = acc * 10 + ((b - 48) as u64);
        i += 1;
        proof {
            assert(s@.subrange(start as int, i as int).drop_last() =~= s@.subrange(
                start as int,
                i as int - 1,
            ));
            assert(s@.subrange(start as int, i as int).last() == b);
        }
    }
    proof {
        assert(s@.subrange(start as int, s@.len() as int) =~= ds);
    }
    if neg {
        if acc <= 0x7fffffffffffffff {
            Some(-(acc as i64))
        } else if acc == 0x8000000000000000 {
            Some(i64::MIN)
        } else {
            None
        }
    } else {
        if acc <= 0x7fffffffffffffff {
            Some(acc as i64)
        } else {
            None
        }
    }
}

/// Rendering a signed value in decimal and parsing it back returns the
/// same value: the store's published field survives a round trip.
pub proof fn lemma_dec_i64_round_trip(v: int)
    requires
        -0x8000000000000000 <= v <= 0x7fffffffffffffff,
    ensures
        spec_parse_i64(spec_dec_i64(v)) == Some(v),
{
    lemma_pow10_vals();
    if v >= 0 {
        lemma_dec_u64_props(v as nat);
        lemma_dec_u64_len(v as nat, 19);
        let s = spec_dec_u64(v as nat);
        assert(48 <= s[0] <= 57);
        assert(s[0] != 45);
    } else {
        lemma_dec_u64_props((-v) as nat);
        lemma_dec_u64_len((-v) as nat, 19);
        let s = seq![45u8] + spec_dec_u64((-v) as nat);
        assert(s[0] == 45);
        assert(s.skip(1) =~= spec_dec_u64((-v) as nat));
    }
}

} // verus!
