//! Integer text conversions: `i64::from_str_radix` and `i64`'s `Display`.

use vstd::prelude::*;

verus! {

/// Value of an ASCII digit or letter as a digit (`char::to_digit(36)`), or 36
/// when `c` is neither.
pub open spec fn digit_of(c: char) -> int {
    if '0' <= c <= '9' {
        c as int - '0' as int
    } else if 'a' <= c <= 'z' {
        c as int - 'a' as int + 10
    } else if 'A' <= c <= 'Z' {
        c as int - 'A' as int + 10
    } else {
        36
    }
}

pub open spec fn all_digits(s: Seq<char>, radix: int) -> bool {
    forall|i: int| 0 <= i < s.len() ==> digit_of(#[trigger] s[i]) < radix
}

/// The number written by the digits `s` in base `radix`.
pub open spec fn digits_value(s: Seq<char>, radix: int) -> int
    decreases s.len(),
{
    if s.len() == 0 {
        0
    } else {
        digits_value(s.drop_last(), radix) * radix + digit_of(s.last())
    }
}

/// `i64::from_str_radix(s, radix).ok()`: an optional `+` or `-` followed by
/// at least one digit of the radix, and a value that fits in `i64`.
pub open spec fn parse_int(s: Seq<char>, radix: int) -> Option<i64> {
    let neg = s.len() > 0 && s[0] == '-';
    let ds = if s.len() > 0 && (s[0] == '-' || s[0] == '+') {
        s.drop_first()
    } else {
        s
    };
    if ds.len() == 0 || !all_digits(ds, radix) {
        None
    } else {
        let v = if neg {
            -digits_value(ds, radix)
        } else {
            digits_value(ds, radix)
        };
        if i64::MIN <= v <= i64::MAX {
            Some(v as i64)
        } else {
            None
        }
    }
}

fn digit_value(c: char) -> (d: u64)
    ensures
        d == digit_of(c),
{
    if '0' <= c && c <= '9' {
        (c as u32 - '0' as u32) as u64
    } else if 'a' <= c && c <= 'z' {
        (c as u32 - 'a' as u32 + 10) as u64
    } else if 'A' <= c && c <= 'Z' {
        (c as u32 - 'A' as u32 + 10) as u64
    } else {
        36
    }
}

proof fn lemma_digits_value_nonneg(s: Seq<char>, radix: int)
    requires
        radix >= 2,
        all_digits(s, radix),
    ensures
        digits_value(s, radix) >= 0,
    decreases s.len(),
{
    if s.len() > 0 {
        assert(all_digits(s.drop_last(), radix)) by {
            assert forall|i: int| 0 <= i < s.drop_last().len() implies digit_of(
                #[trigger] s.drop_last()[i],
            ) < radix by {
                assert(s.drop_last()[i] == s[i]);
            }
        }
        lemma_digits_value_nonneg(s.drop_last(), radix);
        let v = digits_value(s.drop_last(), radix);
        assert(v * radix >= 0) by (nonlinear_arith)
            requires
                v >= 0,
                radix >= 2,
        ;
        assert(digit_of(s.last()) >= 0);
    }
}

/// A prefix of a digit string never has a larger value than the whole.
proof fn lemma_digits_value_prefix(s: Seq<char>, radix: int, k: int)
    requires
        radix >= 2,
        all_digits(s, radix),
        0 <= k <= s.len(),
    ensures
        digits_value(s.take(k), radix) <= digits_value(s, radix),
    decreases s.len() - k,
{
    if k < s.len() {
        let t = s.take(k + 1);
        assert(all_digits(t, radix)) by {
            assert forall|i: int| 0 <= i < t.len() implies digit_of(#[trigger] t[i]) < radix by {
                assert(t[i] == s[i]);
            }
        }
        assert(t.drop_last() =~= s.take(k));
        assert forall|i: int| 0 <= i < s.take(k).len() implies digit_of(
            #[trigger] s.take(k)[i],
        ) < radix by {
            assert(s.take(k)[i] == s[i]);
        }
        lemma_digits_value_nonneg(s.take(k), radix);
        let v = digits_value(s.take(k), radix);
        assert(v * radix >= v) by (nonlinear_arith)
            requires
                v >= 0,
                radix >= 2,
        ;
        assert(digit_of(t.last()) >= 0);
        lemma_digits_value_prefix(s, radix, k + 1);
    } else {
        assert(s.take(k) =~= s);
    }
}

/// `i64::from_str_radix(s, radix).ok()`.
pub fn parse_i64_radix(s: &[char], radix: u64) -> (r: Option<i64>)
    requires
        2 <= radix <= 36,
    ensures
        r == parse_int(s@, radix as int),
{
    let neg = s.len() > 0 && s[0] == '-';
    let start: usize = if s.len() > 0 && (s[0] == '-' || s[0] == '+') {
        1
    } else {
        0
    };
    let ghost ds = if s@.len() > 0 && (s@[0] == '-' || s@[0] == '+') {
        s@.drop_first()
    } else {
        s@
    };
    assert(ds =~= s@.skip(start as int));
    if start == s.len() {
        return None;
    }
    let mut i: usize = start;
    let mut mag: u64 = 0;
    while i < s.len()
        invariant
            start <= i <= s@.len(),
            ds =~= s@.skip(start as int),
            ds == (if s@.len() > 0 && (s@[0] == '-' || s@[0] == '+') {
                s@.drop_first()
            } else {
                s@
            }),
            ds.len() > 0,
            2 <= radix <= 36,
            all_digits(ds.take(i - start), radix as int),
            mag == digits_value(ds.take(i - start), radix as int),
        decreases s@.len() - i,
    {
        let d = digit_value(s[i]);
        let ghost k = i - start;
        assert(ds.take(k + 1).drop_last() =~= ds.take(k));
        assert(ds[k] == s@[i as int]);
        if d >= radix {
            assert(!all_digits(ds, radix as int)) by {
                assert(digit_of(ds[k]) >= radix);
            }
            return None;
        }
        assert(all_digits(ds.take(k + 1), radix as int)) by {
            assert forall|j: int| 0 <= j < ds.take(k + 1).len() implies digit_of(
                #[trigger] ds.take(k + 1)[j],
            ) < radix by {
                if j < k {
                    assert(ds.take(k + 1)[j] == ds.take(k)[j]);
                }
            }
        }
        let prod = mag.checked_mul(radix);
        match prod {
            None => {
                proof {
                    lemma_parse_int_too_big(ds, radix as int, k + 1);
                    assert(digits_value(ds.take(k + 1), radix as int) == mag * radix + d);
                    assert(mag * radix + d > u64::MAX);
                }
                return None;
            },
            Some(p) => {
                match p.checked_add(d) {
                    None => {
                        proof {
                            lemma_parse_int_too_big(ds, radix as int, k + 1);
                        }
                        return None;
                    },
                    Some(v) => {
                        mag = v;
                    },
                }
            },
        }
        i = i + 1;
    }
    assert(ds.take(i - start) =~= ds);
    if neg {
        if mag <= 0x8000_0000_0000_0000u64 {
            if mag == 0x8000_0000_0000_0000u64 {
                Some(i64::MIN)
            } else {
                Some(0i64 - (mag as i64))
            }
        } else {
            None
        }
    } else {
        if mag <= 0x7FFF_FFFF_FFFF_FFFFu64 {
            Some(mag as i64)
        } else {
            None
        }
    }
}

/// When a prefix of the digits already exceeds `u64::MAX` (and every digit
/// is valid), no `i64` is parsed.
proof fn lemma_parse_int_too_big(ds: Seq<char>, radix: int, k: int)
    requires
        2 <= radix <= 36,
        0 < k <= ds.len(),
        all_digits(ds.take(k), radix),
        digits_value(ds.take(k), radix) > u64::MAX,
    ensures
        !all_digits(ds, radix) || digits_value(ds, radix) > u64::MAX,
{
    if all_digits(ds, radix) {
        lemma_digits_value_prefix(ds, radix, k);
    }
}

// ── Decimal text ────────────────────────────────────────────────────────────

pub open spec fn digit_char(d: int) -> char {
    (d + 48) as char
}

/// Decimal digits of `n`.
pub open spec fn nat_text(n: nat) -> Seq<char>
    decreases n,
{
    if n < 10 {
        seq![digit_char(n as int)]
    } else {
        nat_text(n / 10) + seq![digit_char((n % 10) as int)]
    }
}

/// `i64`'s `Display`: an optional `-` and the decimal digits.
pub open spec fn int_text(n: int) -> Seq<char> {
    if n < 0 {
        seq!['-'] + nat_text((-n) as nat)
    } else {
        nat_text(n as nat)
    }
}

fn push_digits(v: &mut Vec<char>, n: u64)
    ensures
        final(v)@ == old(v)@ + nat_text(n as nat),
    decreases n,
{
    if n >= 10 {
        push_digits(v, n / 10);
    }
    let d: u8 = (n % 10) as u8;
    let c: char = (d + 48u8) as char;
    v.push(c);
}

/// `n.to_string()` for an unsigned number.
pub fn nat_to_text(n: u64) -> (r: Vec<char>)
    ensures
        r@ == nat_text(n as nat),
{
    let mut v: Vec<char> = Vec::new();
    push_digits(&mut v, n);
    assert(v@ =~= Seq::<char>::empty() + nat_text(n as nat));
    v
}

/// `n.to_string()` for an `i64`.
pub fn int_to_text(n: i64) -> (r: Vec<char>)
    ensures
        r@ == int_text(n as int),
{
    let mut v: Vec<char> = Vec::new();
    if n < 0 {
        v.push('-');
        let mag: u64 = if n == i64::MIN {
            0x8000_0000_0000_0000u64
        } else {
            (0i64 - n) as u64
        };
        push_digits(&mut v, mag);
    } else {
        push_digits(&mut v, n as u64);
    }
    v
}

/// The decimal digits of `m` are digits, and read back as `m`.
pub proof fn lemma_nat_text_reads_back(m: nat)
    ensures
        nat_text(m).len() > 0,
        all_digits(nat_text(m), 10),
        digits_value(nat_text(m), 10) == m,
        '0' <= nat_text(m)[0] <= '9',
    decreases m,
{
    let t = nat_text(m);
    if m < 10 {
        assert(t.drop_last() =~= Seq::<char>::empty());
        assert(digit_of(digit_char(m as int)) == m);
        assert(t.last() == digit_char(m as int));
        assert(digits_value(t.drop_last(), 10) == 0);
        assert(digits_value(t, 10) == digits_value(t.drop_last(), 10) * 10 + digit_of(t.last()));
    } else {
        lemma_nat_text_reads_back(m / 10);
        let p = nat_text(m / 10);
        let d = (m % 10) as int;
        assert(t == p + seq![digit_char(d)]);
        assert(t.drop_last() =~= p);
        assert(t.last() == digit_char(d));
        assert(digit_of(digit_char(d)) == d);
        assert forall|i: int| 0 <= i < t.len() implies digit_of(#[trigger] t[i]) < 10 by {
            if i < p.len() {
                assert(t[i] == p[i]);
            }
        }
        assert(t[0] == p[0]);
        assert(digits_value(t, 10) == digits_value(p, 10) * 10 + d);
        vstd::arithmetic::div_mod::lemma_fundamental_div_mod(m as int, 10);
        assert((m / 10) * 10 == 10 * (m / 10)) by (nonlinear_arith);
    }
}

} // verus!
