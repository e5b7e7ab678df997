//! Amounts of money, held exactly as whole hundredths (cents) of the currency unit.
use vstd::prelude::*;
use crate::text::{push_char, chars_of};

verus! {

/// Each of `n` people's share of `paid`, rounded to the nearest hundredth, halves rounded up.
pub open spec fn share_of(paid: int, n: int) -> int {
    paid / n + if 2 * (paid % n) >= n { 1int } else { 0int }
}

/// A share is within half a hundredth of the exact share (an exact half rounded up), and never
/// more than the whole: of all whole numbers of hundredths it is the only one so placed.
pub proof fn lemma_share_bounds(paid: int, n: int)
    requires
        paid >= 0,
        n > 0,
    ensures
        0 <= share_of(paid, n) <= paid,
        -n < 2 * (share_of(paid, n) * n - paid) <= n,
{
    let q = paid / n;
    let r = paid % n;
    assert(paid == q * n + r && 0 <= r < n) by (nonlinear_arith)
        requires
            n > 0,
            q == paid / n,
            r == paid % n,
    ;
    assert(q >= 0) by (nonlinear_arith)
        requires
            n > 0,
            paid >= 0,
            q == paid / n,
    ;
    if 2 * r >= n {
        assert(q + 1 <= paid) by (nonlinear_arith)
            requires
                paid == q * n + r,
                0 <= r < n,
                2 * r >= n,
                q >= 0,
        ;
        assert((q + 1) * n - paid == n - r) by (nonlinear_arith)
            requires
                paid == q * n + r,
        ;
    } else {
        assert(q <= paid) by (nonlinear_arith)
            requires
                paid == q * n + r,
                0 <= r,
                n > 0,
                q >= 0,
        ;
        assert(q * n - paid == -r) by (nonlinear_arith)
            requires
                paid == q * n + r,
        ;
    }
}

/// Each of `n` people's share of `paid`, rounded to the nearest hundredth.
pub fn share(paid: i64, n: usize) -> (r: i64)
    requires
        paid >= 0,
        n > 0,
    ensures
        r == share_of(paid as int, n as int),
        0 <= r <= paid,
{
    proof {
        lemma_share_bounds(paid as int, n as int);
    }
    let p = paid as u64;
    let m = n as u64;
    let q = p / m;
    let rem = p % m;
    if rem >= m - rem {
        (q + 1) as i64
    } else {
        q as i64
    }
}

/// The character of the decimal digit `d`.
pub open spec fn digit_char(d: int) -> char {
    (d + 48) as char
}

/// Whether `c` is a decimal digit.
pub open spec fn is_digit(c: char) -> bool {
    48 <= (c as u32) <= 57
}

/// The value of the decimal digit `c`.
pub open spec fn digit_value(c: char) -> int {
    (c as u32) - 48
}

/// Whether every character of `s` is a decimal digit.
pub open spec fn all_digits(s: Seq<char>) -> bool {
    forall|i: int| 0 <= i < s.len() ==> is_digit(#[trigger] s[i])
}

/// The digits of `n` in base ten, most significant first, without leading zeros.
pub open spec fn decimal(n: nat) -> Seq<char>
    decreases n,
{
    if n < 10 {
        seq![digit_char(n as int)]
    } else {
        decimal(n / 10).push(digit_char((n % 10) as int))
    }
}

/// The number written by the decimal digits `s` (0 for no digits).
pub open spec fn digits_value(s: Seq<char>) -> nat
    decreases s.len(),
{
    if s.len() == 0 {
        0
    } else {
        (digits_value(s.drop_last()) * 10 + digit_value(s.last())) as nat
    }
}

/// How an amount (in hundredths) is written: an optional minus sign, the whole units, and,
/// where there are hundredths, a point and one or two digits with no trailing zero
/// (so 2580 is "25.8", 3333 is "33.33", 5 is "0.05" and 3000 is "30").
pub open spec fn amount_text(c: int) -> Seq<char> {
    let m = if c < 0 { -c } else { c };
    let whole = m / 100;
    let frac = m % 100;
    let sign = if c < 0 { seq!['-'] } else { Seq::empty() };
    let tail = if frac == 0 {
        Seq::empty()
    } else if frac % 10 == 0 {
        seq!['.', digit_char(frac / 10)]
    } else {
        seq!['.', digit_char(frac / 10), digit_char(frac % 10)]
    };
    sign + decimal(whole as nat) + tail
}

/// The character of the digit `d`.
fn digit_of(d: u64) -> (c: char)
    requires
        d < 10,
    ensures
        c == digit_char(d as int),
        is_digit(c),
        digit_value(c) == d,
{
    let b = (d as u8) + 48u8;
    proof {
        vstd::utf8::char_u32_cast(b as char, b as u32);
    }
    b as char
}

/// Appends the decimal digits of `n` to `s`.
fn push_decimal(s: &mut String, n: u64)
    ensures
        final(s)@ == old(s)@ + decimal(n as nat),
    decreases n,
{
    if n >= 10 {
        push_decimal(s, n / 10);
    }
    push_char(s, digit_of(n % 10));
    assert(final(s)@ =~= old(s)@ + decimal(n as nat));
}

/// Writes an amount given in hundredths, as a decimal number of whole units.
pub fn format_amount(c: i64) -> (s: String)
    ensures
        s@ == amount_text(c as int),
{
    let mut s = String::new();
    if c < 0 {
        push_char(&mut s, '-');
    }
    let m: u64 = if c < 0 { (0i128 - (c as i128)) as u64 } else { c as u64 };
    push_decimal(&mut s, m / 100);
    let f = m % 100;
    if f != 0 {
        push_char(&mut s, '.');
        push_char(&mut s, digit_of(f / 10));
        if f % 10 != 0 {
            push_char(&mut s, digit_of(f % 10));
        }
    }
    assert(s@ =~= amount_text(c as int));
    s
}

/// Where the first `c` is in `s` (the length of `s` where there is none).
pub open spec fn index_of_char(s: Seq<char>, c: char) -> int
    decreases s.len(),
{
    if s.len() == 0 {
        0
    } else if s[0] == c {
        0
    } else {
        1 + index_of_char(s.drop_first(), c)
    }
}

/// Where the first 'e' or 'E' is in `s` (the length of `s` where there is none).
pub open spec fn index_of_exp(s: Seq<char>) -> int
    decreases s.len(),
{
    if s.len() == 0 {
        0
    } else if s[0] == 'e' || s[0] == 'E' {
        0
    } else {
        1 + index_of_exp(s.drop_first())
    }
}

/// Ten to the power `k`.
pub open spec fn pow10(k: nat) -> nat
    decreases k,
{
    if k == 0 { 1 } else { pow10((k - 1) as nat) * 10 }
}

/// The number that the digits `d` write, times ten to the power `k`, rounded to a whole
/// number with halves rounded up: for `k` of zero or more, that number exactly; otherwise
/// the digits but the last `-k`, plus one where the first digit left off is 5 or more
/// (and 0 where more digits are left off than there are).
pub open spec fn rounded(d: Seq<char>, k: int) -> int {
    if k >= 0 {
        (digits_value(d) * pow10(k as nat)) as int
    } else if -k > d.len() {
        0
    } else {
        digits_value(d.take(d.len() + k)) + if digit_value(d[d.len() + k]) >= 5 { 1int } else { 0int }
    }
}

/// The amount of magnitude `mag`, negative where `neg`, if it fits in an `i64`.
pub open spec fn signed_in_range(neg: bool, mag: int) -> Option<int> {
    let v = if neg { -mag } else { mag };
    if i64::MIN <= v <= i64::MAX { Some(v) } else { None }
}

/// The amount (in hundredths) that the text `t` writes, if it writes one. The text is what
/// `f64::from_str` reads as a decimal number: an optional sign; decimal digits with an
/// optional point among or after or before them, at least one digit in all; and optionally
/// 'e' or 'E', an optional sign and at least one digit, giving a power of ten. The number is
/// rounded to the nearest hundredth (halves away from zero) and must fit in an `i64`.
/// Infinity and NaN, which `f64::from_str` also reads, are no amount: hundredths have no
/// value for them.
#[verifier::opaque]
pub open spec fn amount_of(t: Seq<char>) -> Option<int> {
    let start = if t.len() > 0 && (t[0] == '-' || t[0] == '+') { 1int } else { 0int };
    let neg = start == 1 && t[0] == '-';
    let body = t.subrange(start, t.len() as int);
    let epos = index_of_exp(body);
    let mant = body.take(epos);
    let has_exp = epos < body.len();
    let ex = if has_exp { body.skip(epos + 1) } else { Seq::empty() };
    let eneg = ex.len() > 0 && ex[0] == '-';
    let edigits = if ex.len() > 0 && (ex[0] == '-' || ex[0] == '+') { ex.drop_first() } else { ex };
    let dot = index_of_char(mant, '.');
    let ip = mant.take(dot);
    let fp = if dot < mant.len() { mant.skip(dot + 1) } else { Seq::empty() };
    if ip.len() + fp.len() == 0 || !all_digits(ip) || !all_digits(fp) || (has_exp && (edigits.len() == 0
        || !all_digits(edigits))) {
        None
    } else {
        let e = if eneg { -digits_value(edigits) } else { digits_value(edigits) as int };
        signed_in_range(neg, rounded(ip + fp, e - fp.len() + 2))
    }
}

/// The first `c` in `s` is at `i` when none comes before `i` and `i` is one or the end.
pub proof fn lemma_index_of_char(s: Seq<char>, c: char, i: int)
    requires
        0 <= i <= s.len(),
        forall|j: int| 0 <= j < i ==> s[j] != c,
        i == s.len() || s[i] == c,
    ensures
        index_of_char(s, c) == i,
    decreases i,
{
    if i > 0 {
        assert(s[0] != c);
        lemma_index_of_char(s.drop_first(), c, i - 1);
    } else if s.len() > 0 {
        assert(s[0] == c);
    }
}

/// The first 'e' or 'E' in `s` is at `i` when none comes before `i` and `i` is one or the end.
pub proof fn lemma_index_of_exp(s: Seq<char>, i: int)
    requires
        0 <= i <= s.len(),
        forall|j: int| 0 <= j < i ==> !(s[j] == 'e' || s[j] == 'E'),
        i == s.len() || s[i] == 'e' || s[i] == 'E',
    ensures
        index_of_exp(s) == i,
    decreases i,
{
    if i > 0 {
        assert(!(s[0] == 'e' || s[0] == 'E'));
        lemma_index_of_exp(s.drop_first(), i - 1);
    } else if s.len() > 0 {
        assert(s[0] == 'e' || s[0] == 'E');
    }
}

/// Powers of ten are at least one and grow with the exponent.
pub proof fn lemma_pow10_grows(a: nat, b: nat)
    requires
        a <= b,
    ensures
        1 <= pow10(a) <= pow10(b),
    decreases b,
{
    if b > 0 {
        if a < b {
            lemma_pow10_grows(a, (b - 1) as nat);
        } else {
            lemma_pow10_grows((a - 1) as nat, (b - 1) as nat);
        }
    }
}

/// Ten to the power 19 or more is beyond what hundredths in an `i64` reach.
proof fn lemma_pow10_large(k: nat)
    requires
        k >= 19,
    ensures
        pow10(k) > 9_223_372_036_854_775_808,
{
    reveal_with_fuel(pow10, 20);
    assert(pow10(19) == 10_000_000_000_000_000_000);
    lemma_pow10_grows(19, k);
}

/// A longer run of digits is worth at least as much as its beginning.
pub proof fn lemma_digits_prefix(s: Seq<char>, i: int)
    requires
        0 <= i <= s.len(),
        all_digits(s),
    ensures
        digits_value(s.take(i)) <= digits_value(s),
    decreases s.len(),
{
    if i < s.len() {
        assert(s.drop_last().take(i) =~= s.take(i));
        assert(all_digits(s.drop_last()));
        lemma_digits_prefix(s.drop_last(), i);
        assert(is_digit(s[s.len() - 1]));
    } else {
        assert(s.take(i) =~= s);
    }
}

/// Whether `cs[lo..hi]` are all decimal digits.
fn digits_only(cs: &Vec<char>, lo: usize, hi: usize) -> (r: bool)
    requires
        lo <= hi <= cs@.len(),
    ensures
        r == all_digits(cs@.subrange(lo as int, hi as int)),
{
    let mut i = lo;
    while i < hi
        invariant
            lo <= i <= hi <= cs@.len(),
            all_digits(cs@.subrange(lo as int, i as int)),
        decreases hi - i,
    {
        let c = cs[i];
        if !((c as u32) >= 48 && (c as u32) <= 57) {
            assert(cs@.subrange(lo as int, hi as int)[i - lo] == c);
            return false;
        }
        assert forall|j: int| 0 <= j < i + 1 - lo implies is_digit(#[trigger] cs@.subrange(lo as int, i + 1)[j]) by {
            if j < i - lo {
                assert(cs@.subrange(lo as int, i + 1)[j] == cs@.subrange(lo as int, i as int)[j]);
            }
        }
        i = i + 1;
    }
    true
}

/// The number written by the first `count` digits of `cs[a0..a1]` followed by `cs[b0..b1]`,
/// if it is at most 2^63.
fn prefix_number(cs: &Vec<char>, a0: usize, a1: usize, b0: usize, b1: usize, count: usize) -> (r: Option<u64>)
    requires
        a0 <= a1 <= cs@.len(),
        b0 <= b1 <= cs@.len(),
        count <= (a1 - a0) + (b1 - b0),
        all_digits(cs@.subrange(a0 as int, a1 as int)),
        all_digits(cs@.subrange(b0 as int, b1 as int)),
    ensures
        ({
            let d = (cs@.subrange(a0 as int, a1 as int) + cs@.subrange(b0 as int, b1 as int)).take(count as int);
            match r {
                Some(v) => v == digits_value(d) && v <= 9_223_372_036_854_775_808,
                None => digits_value(d) > 9_223_372_036_854_775_808,
            }
        }),
{
    let ghost all = cs@.subrange(a0 as int, a1 as int) + cs@.subrange(b0 as int, b1 as int);
    let ghost d = all.take(count as int);
    assert(all_digits(d)) by {
        assert forall|i: int| 0 <= i < d.len() implies is_digit(#[trigger] d[i]) by {
            assert(d[i] == all[i]);
            if i < a1 - a0 {
                assert(all[i] == cs@.subrange(a0 as int, a1 as int)[i]);
            } else {
                assert(all[i] == cs@.subrange(b0 as int, b1 as int)[i - (a1 - a0)]);
            }
        }
    }
    let alen = a1 - a0;
    let mut v: u64 = 0;
    let mut t: usize = 0;
    while t < count
        invariant
            t <= count <= alen + (b1 - b0),
            alen == a1 - a0,
            a0 <= a1 <= cs@.len(),
            b0 <= b1 <= cs@.len(),
            all == cs@.subrange(a0 as int, a1 as int) + cs@.subrange(b0 as int, b1 as int),
            d == all.take(count as int),
            all_digits(d),
            v == digits_value(d.take(t as int)),
            v <= 9_223_372_036_854_775_808,
        decreases count - t,
    {
        let pos = if t < alen { a0 + t } else { b0 + (t - alen) };
        let c = cs[pos];
        assert(d[t as int] == c) by {
            assert(d[t as int] == all[t as int]);
            if t < alen {
                assert(all[t as int] == cs@.subrange(a0 as int, a1 as int)[t as int]);
            } else {
                assert(all[t as int] == cs@.subrange(b0 as int, b1 as int)[t - alen]);
            }
        }
        assert(is_digit(d[t as int]));
        assert(d.take(t + 1).drop_last() =~= d.take(t as int));
        assert(d.take(t + 1).last() == c);
        let dg = ((c as u32) - 48) as u64;
        if v > 922_337_203_685_477_580 || v * 10 + dg > 9_223_372_036_854_775_808 {
            proof {
                lemma_digits_prefix(d, t + 1);
                assert(d.take(count as int) =~= d);
            }
            return None;
        }
        v = v * 10 + dg;
        t = t + 1;
    }
    assert(d.take(count as int) =~= d);
    Some(v)
}

/// The number written by the digits `cs[lo..hi]`, or `b` where it is `b` or more.
fn capped_number(cs: &Vec<char>, lo: usize, hi: usize, b: u128) -> (r: u128)
    requires
        lo <= hi <= cs@.len(),
        all_digits(cs@.subrange(lo as int, hi as int)),
        b <= 0x1_0000_0000_0000_0100,
    ensures
        r == if digits_value(cs@.subrange(lo as int, hi as int)) < b { digits_value(cs@.subrange(lo as int, hi as int)) } else { b as nat },
{
    let ghost sub = cs@.subrange(lo as int, hi as int);
    let mut v: u128 = 0;
    let mut i = lo;
    assert(sub.take(0) =~= Seq::<char>::empty());
    while i < hi
        invariant
            lo <= i <= hi <= cs@.len(),
            sub == cs@.subrange(lo as int, hi as int),
            all_digits(sub),
            b <= 0x1_0000_0000_0000_0100,
            v == if digits_value(sub.take(i - lo)) < b { digits_value(sub.take(i - lo)) } else { b as nat },
        decreases hi - i,
    {
        let c = cs[i];
        assert(sub[i - lo] == c);
        assert(sub.take(i - lo + 1).drop_last() =~= sub.take(i - lo));
        assert(sub.take(i - lo + 1).last() == c);
        assert(is_digit(sub[i - lo]));
        let dg = ((c as u32) - 48) as u128;
        let w = v * 10 + dg;
        v = if w >= b { b } else { w };
        i = i + 1;
    }
    assert(sub.take(hi - lo) =~= sub);
    v
}

/// `v0` times ten to the power `k`, if it is at most 2^63.
fn times_pow10(v0: u64, k: i128) -> (r: Option<u64>)
    requires
        v0 <= 9_223_372_036_854_775_808,
        k >= 0,
    ensures
        match r {
            Some(v) => v == v0 * pow10(k as nat) && v <= 9_223_372_036_854_775_808,
            None => v0 * pow10(k as nat) > 9_223_372_036_854_775_808,
        },
{
    let ghost m = v0 as int;
    let mut v = v0;
    let mut i: i128 = 0;
    assert(pow10(0) == 1);
    assert(m * pow10(0) == m);
    while i < k
        invariant
            0 <= i <= k,
            m == v0,
            m >= 0,
            v as int == m * pow10(i as nat),
            v <= 9_223_372_036_854_775_808,
        decreases k - i,
    {
        assert(pow10((i + 1) as nat) == pow10(i as nat) * 10);
        assert(m * pow10((i + 1) as nat) == m * pow10(i as nat) * 10) by (nonlinear_arith)
            requires
                pow10((i + 1) as nat) == pow10(i as nat) * 10,
        ;
        if v == 0 {
            proof {
                lemma_pow10_grows(0, i as nat);
                assert(m == 0) by (nonlinear_arith)
                    requires
                        m * pow10(i as nat) == 0,
                        pow10(i as nat) >= 1,
                        m >= 0,
                ;
                assert(m * pow10(k as nat) == 0);
            }
            i = k;
        } else if v > 922_337_203_685_477_580 {
            proof {
                lemma_pow10_grows((i + 1) as nat, k as nat);
                assert(m * pow10(k as nat) >= m * pow10((i + 1) as nat)) by (nonlinear_arith)
                    requires
                        pow10(k as nat) >= pow10((i + 1) as nat),
                        m >= 0,
                ;
            }
            return None;
        } else {
            v = v * 10;
            i = i + 1;
        }
    }
    Some(v)
}

/// The digits `cs[start..dot]` then `cs[fstart..epos]`, times ten to the power `k` (zero or
/// more), as a number, if it is at most 2^63.
fn magnitude_up(cs: &Vec<char>, start: usize, dot: usize, fstart: usize, epos: usize, k: i128) -> (r: Option<u64>)
    requires
        start <= dot <= fstart <= epos <= cs@.len(),
        all_digits(cs@.subrange(start as int, dot as int)),
        all_digits(cs@.subrange(fstart as int, epos as int)),
        k >= 0,
    ensures
        ({
            let dd = cs@.subrange(start as int, dot as int) + cs@.subrange(fstart as int, epos as int);
            match r {
                Some(m) => m == rounded(dd, k as int) && m <= 9_223_372_036_854_775_808,
                None => rounded(dd, k as int) > 9_223_372_036_854_775_808,
            }
        }),
{
    let ghost dd = cs@.subrange(start as int, dot as int) + cs@.subrange(fstart as int, epos as int);
    let nd = (dot - start) + (epos - fstart);
    assert(dd.take(nd as int) =~= dd);
    match prefix_number(cs, start, dot, fstart, epos, nd) {
        None => {
            proof {
                lemma_pow10_grows(0, k as nat);
                assert(digits_value(dd) * pow10(k as nat) >= digits_value(dd)) by (nonlinear_arith)
                    requires
                        pow10(k as nat) >= 1,
                ;
            }
            None
        },
        Some(v0) => times_pow10(v0, k),
    }
}

/// The digits `cs[start..dot]` then `cs[fstart..epos]`, times ten to the power `k` (below
/// zero), rounded (see `rounded`), if what is kept before rounding is at most 2^63.
fn magnitude_down(cs: &Vec<char>, start: usize, dot: usize, fstart: usize, epos: usize, k: i128) -> (r: Option<u64>)
    requires
        start <= dot <= fstart <= epos <= cs@.len(),
        all_digits(cs@.subrange(start as int, dot as int)),
        all_digits(cs@.subrange(fstart as int, epos as int)),
        k < 0,
        k > -0x1_0000_0000_0000_0000_0000,
    ensures
        ({
            let dd = cs@.subrange(start as int, dot as int) + cs@.subrange(fstart as int, epos as int);
            match r {
                Some(m) => m == rounded(dd, k as int) && m <= 9_223_372_036_854_775_809,
                None => rounded(dd, k as int) > 9_223_372_036_854_775_808,
            }
        }),
{
    let ghost dd = cs@.subrange(start as int, dot as int) + cs@.subrange(fstart as int, epos as int);
    let ilen = dot - start;
    let nd = ilen + (epos - fstart);
    assert(dd.len() == nd);
    let j = 0 - k;
    if j > nd as i128 {
        return Some(0);
    }
    let keep = nd - (j as usize);
    match prefix_number(cs, start, dot, fstart, epos, keep) {
        None => None,
        Some(q) => {
            let pos = if keep < ilen { start + keep } else { fstart + (keep - ilen) };
            let c = cs[pos];
            assert(dd[keep as int] == c) by {
                if keep < ilen {
                    assert(dd[keep as int] == cs@.subrange(start as int, dot as int)[keep as int]);
                } else {
                    assert(dd[keep as int] == cs@.subrange(fstart as int, epos as int)[keep - ilen]);
                }
            }
            let u = c as u32;
            if u >= 53 {
                Some(q + 1)
            } else {
                Some(q)
            }
        },
    }
}

/// The magnitude of an amount in hundredths: the number that the digits `cs[start..dot]` then
/// `cs[fstart..epos]` write, times ten to the power `e - (epos - fstart) + 2`, rounded (see
/// `rounded`), where `e` is the number that the digits `cs[es..n]` write, negated where
/// `eneg`; if it is at most 2^63 + 1.
fn scaled_magnitude(cs: &Vec<char>, start: usize, dot: usize, fstart: usize, epos: usize, es: usize, n: usize, eneg: bool) -> (r: Option<u64>)
    requires
        start <= dot <= fstart <= epos <= n,
        es <= n,
        n == cs@.len(),
        all_digits(cs@.subrange(start as int, dot as int)),
        all_digits(cs@.subrange(fstart as int, epos as int)),
        all_digits(cs@.subrange(es as int, n as int)),
    ensures
        ({
            let dd = cs@.subrange(start as int, dot as int) + cs@.subrange(fstart as int, epos as int);
            let edig = cs@.subrange(es as int, n as int);
            let e: int = if eneg { -digits_value(edig) } else { digits_value(edig) as int };
            let k = e - (epos - fstart) + 2;
            match r {
                Some(m) => m == rounded(dd, k) && m <= 9_223_372_036_854_775_809,
                None => rounded(dd, k) > 9_223_372_036_854_775_808,
            }
        }),
{
    let ghost dd = cs@.subrange(start as int, dot as int) + cs@.subrange(fstart as int, epos as int);
    let ghost edig = cs@.subrange(es as int, n as int);
    let ghost e: int = if eneg { -digits_value(edig) } else { digits_value(edig) as int };
    let flen = epos - fstart;
    let nd = (dot - start) + flen;
    let ghost k: int = e - flen + 2;
    assert(dd.len() == nd);
    let bound_e: u128 = (n as u128) + 100;
    let e_cap = capped_number(cs, es, n, bound_e);
    if e_cap == bound_e {
        assert(digits_value(edig) >= bound_e);
        if eneg {
            assert(-k > dd.len());
            return Some(0);
        }
        assert(k >= 102);
        assert(dd.take(nd as int) =~= dd);
        match prefix_number(cs, start, dot, fstart, epos, nd) {
            Some(v) => {
                if v != 0 {
                    proof {
                        lemma_pow10_large(k as nat);
                        assert(digits_value(dd) * pow10(k as nat) >= pow10(k as nat)) by (nonlinear_arith)
                            requires
                                digits_value(dd) >= 1,
                        ;
                    }
                    return None;
                }
                assert(digits_value(dd) == 0);
                assert(rounded(dd, k) == 0);
                Some(0)
            },
            None => {
                proof {
                    lemma_pow10_grows(0, k as nat);
                    assert(digits_value(dd) * pow10(k as nat) >= digits_value(dd)) by (nonlinear_arith)
                        requires
                            pow10(k as nat) >= 1,
                    ;
                }
                None
            },
        }
    } else {
        let ei = e_cap as i128;
        let kk: i128 = (if eneg { 0 - ei } else { ei }) - (flen as i128) + 2;
        assert(kk == k);
        if kk >= 0 {
            match magnitude_up(cs, start, dot, fstart, epos, kk) {
                Some(m) => Some(m),
                None => None,
            }
        } else {
            magnitude_down(cs, start, dot, fstart, epos, kk)
        }
    }
}

/// Where the first 'e' or 'E' at or after `start` is in `cs` (its length where there is none).
fn find_exp(cs: &Vec<char>, start: usize) -> (r: usize)
    requires
        start <= cs@.len(),
    ensures
        start <= r <= cs@.len(),
        index_of_exp(cs@.subrange(start as int, cs@.len() as int)) == r - start,
{
    let ghost body = cs@.subrange(start as int, cs@.len() as int);
    let mut epos = start;
    while epos < cs.len() && cs[epos] != 'e' && cs[epos] != 'E'
        invariant
            start <= epos <= cs@.len(),
            body == cs@.subrange(start as int, cs@.len() as int),
            forall|j: int| 0 <= j < epos - start ==> !(body[j] == 'e' || body[j] == 'E'),
        decreases cs.len() - epos,
    {
        assert(body[epos - start] == cs@[epos as int]);
        epos = epos + 1;
    }
    proof {
        if epos < cs.len() {
            assert(body[epos - start] == cs@[epos as int]);
        }
        lemma_index_of_exp(body, epos - start);
    }
    epos
}

/// Where the first '.' in `cs[start..end]` is (`end` where there is none).
fn find_dot(cs: &Vec<char>, start: usize, end: usize) -> (r: usize)
    requires
        start <= end <= cs@.len(),
    ensures
        start <= r <= end,
        index_of_char(cs@.subrange(start as int, end as int), '.') == r - start,
{
    let ghost mant = cs@.subrange(start as int, end as int);
    let mut dot = start;
    while dot < end && cs[dot] != '.'
        invariant
            start <= dot <= end <= cs@.len(),
            mant == cs@.subrange(start as int, end as int),
            forall|j: int| 0 <= j < dot - start ==> mant[j] != '.',
        decreases end - dot,
    {
        assert(mant[dot - start] == cs@[dot as int]);
        dot = dot + 1;
    }
    proof {
        if dot < end {
            assert(mant[dot - start] == cs@[dot as int]);
        }
        lemma_index_of_char(mant, '.', dot - start);
    }
    dot
}

/// What `amount_of` gives, in terms of where the sign ends, where the exponent marker and the
/// point stand, and where the exponent's digits start.
proof fn lemma_amount_parts(t: Seq<char>, start: int, epos: int, dot: int, es: int)
    requires
        start == (if t.len() > 0 && (t[0] == '-' || t[0] == '+') { 1int } else { 0int }),
        start <= dot <= epos <= t.len(),
        index_of_exp(t.subrange(start, t.len() as int)) == epos - start,
        index_of_char(t.subrange(start, epos), '.') == dot - start,
        es == (if epos < t.len() {
            if epos + 1 < t.len() && (t[epos + 1] == '-' || t[epos + 1] == '+') { epos + 2 } else { epos + 1 }
        } else {
            t.len() as int
        }),
    ensures
        ({
            let fstart = if dot < epos { dot + 1 } else { epos };
            let ip = t.subrange(start, dot);
            let fp = t.subrange(fstart, epos);
            let edig = t.subrange(es, t.len() as int);
            let eneg = epos < t.len() && epos + 1 < t.len() && t[epos + 1] == '-';
            let neg = start == 1 && t[0] == '-';
            amount_of(t) == if ip.len() + fp.len() == 0 || !all_digits(ip) || !all_digits(fp) || (epos < t.len() && (
            edig.len() == 0 || !all_digits(edig))) {
                None
            } else {
                signed_in_range(
                    neg,
                    rounded(ip + fp, (if eneg { -digits_value(edig) } else { digits_value(edig) as int }) - fp.len() + 2),
                )
            }
        }),
{
    reveal(amount_of);
    let len = t.len() as int;
    let body = t.subrange(start, len);
    let mant = body.take(epos - start);
    assert(mant =~= t.subrange(start, epos));
    assert(mant.take(dot - start) =~= t.subrange(start, dot));
    if dot < epos {
        assert(mant.skip(dot - start + 1) =~= t.subrange(dot + 1, epos));
    } else {
        assert(t.subrange(epos, epos) =~= Seq::<char>::empty());
    }
    if epos < len {
        let ex = body.skip(epos - start + 1);
        assert(ex =~= t.subrange(epos + 1, len));
        if ex.len() > 0 {
            assert(ex[0] == t[epos + 1]);
        }
        if ex.len() > 0 && (ex[0] == '-' || ex[0] == '+') {
            assert(ex.drop_first() =~= t.subrange(es, len));
        } else {
            assert(ex =~= t.subrange(es, len));
        }
    } else {
        assert(t.subrange(es, len) =~= Seq::<char>::empty());
    }
}

/// Reads an amount in hundredths from text such as "30", "25.8", "-0.05", "+7.125" or
/// "1e3"; `None` where the text writes no amount (infinity and NaN included) or one out of
/// range.
#[verifier::rlimit(80)]
pub fn parse_amount(t: &str) -> (r: Option<i64>)
    ensures
        match r {
            Some(v) => amount_of(t@) == Some(v as int),
            None => amount_of(t@) is None,
        },
{
    let cs = chars_of(t);
    let n = cs.len();
    let ghost tv = t@;
    let mut start: usize = 0;
    if n > 0 && (cs[0] == '-' || cs[0] == '+') {
        start = 1;
    }
    let neg = n > 0 && cs[0] == '-';
    let epos = find_exp(&cs, start);
    let dot = find_dot(&cs, start, epos);
    let fstart = if dot < epos { dot + 1 } else { epos };
    let mut es = n;
    let mut eneg = false;
    if epos < n {
        es = epos + 1;
        if es < n && (cs[es] == '-' || cs[es] == '+') {
            eneg = cs[es] == '-';
            es = es + 1;
        }
    }
    proof {
        lemma_amount_parts(tv, start as int, epos as int, dot as int, es as int);
    }
    if dot == start && fstart == epos {
        return None;
    }
    if !digits_only(&cs, start, dot) || !digits_only(&cs, fstart, epos) {
        return None;
    }
    if epos < n && (es == n || !digits_only(&cs, es, n)) {
        proof {
            if es == n {
                assert(cs@.subrange(es as int, n as int).len() == 0);
            }
        }
        return None;
    }
    assert(epos >= n ==> cs@.subrange(es as int, n as int) =~= Seq::<char>::empty());
    let ghost dd = cs@.subrange(start as int, dot as int) + cs@.subrange(fstart as int, epos as int);
    let ghost edig = cs@.subrange(es as int, n as int);
    let ghost e: int = if eneg { -digits_value(edig) } else { digits_value(edig) as int };
    let ghost k: int = e - (epos - fstart) + 2;
    let mag = match scaled_magnitude(&cs, start, dot, fstart, epos, es, n, eneg) {
        Some(m) => m,
        None => {
            return None;
        },
    };
    assert(mag == rounded(dd, k));
    if neg {
        if mag > 9_223_372_036_854_775_808 {
            return None;
        }
        Some((0i128 - (mag as i128)) as i64)
    } else {
        if mag > 9_223_372_036_854_775_807 {
            return None;
        }
        Some(mag as i64)
    }
}

/// The character of a digit is a digit, worth that digit.
pub proof fn lemma_digit_char(d: int)
    requires
        0 <= d < 10,
    ensures
        is_digit(digit_char(d)),
        digit_value(digit_char(d)) == d,
{
    let b = (d + 48) as u8;
    vstd::utf8::char_u32_cast(b as char, b as u32);
    assert(digit_char(d) == b as char);
}

/// The decimal digits of `n` are digits, at least one, worth `n`.
pub proof fn lemma_decimal(n: nat)
    ensures
        all_digits(decimal(n)),
        digits_value(decimal(n)) == n,
        decimal(n).len() >= 1,
    decreases n,
{
    if n < 10 {
        lemma_digit_char(n as int);
        let s = decimal(n);
        assert(s.drop_last() =~= Seq::<char>::empty());
        assert(s.last() == digit_char(n as int));
        assert(digits_value(s) == digits_value(s.drop_last()) * 10 + digit_value(s.last()));
    } else {
        lemma_decimal(n / 10);
        lemma_digit_char((n % 10) as int);
        let s = decimal(n);
        assert(s.drop_last() =~= decimal(n / 10));
        assert(s.last() == digit_char((n % 10) as int));
        assert(digits_value(s) == digits_value(s.drop_last()) * 10 + digit_value(s.last()));
        assert((n / 10) * 10 + n % 10 == n);
        assert forall|i: int| 0 <= i < s.len() implies is_digit(#[trigger] s[i]) by {
            if i < s.len() - 1 {
                assert(s[i] == decimal(n / 10)[i]);
            }
        }
    }
}

/// Reading back how an amount is written gives the amount.
pub proof fn lemma_amount_roundtrip(c: int)
    requires
        i64::MIN <= c <= i64::MAX,
    ensures
        amount_of(amount_text(c)) == Some(c),
{
    let m = if c < 0 { -c } else { c };
    let whole = m / 100;
    let frac = m % 100;
    let sign: Seq<char> = if c < 0 { seq!['-'] } else { Seq::empty() };
    let digits = decimal(whole as nat);
    let tail: Seq<char> = if frac == 0 {
        Seq::empty()
    } else if frac % 10 == 0 {
        seq!['.', digit_char(frac / 10)]
    } else {
        seq!['.', digit_char(frac / 10), digit_char(frac % 10)]
    };
    let t = amount_text(c);
    assert(t == sign + digits + tail);
    lemma_decimal(whole as nat);
    lemma_digit_char(frac / 10);
    lemma_digit_char(frac % 10);
    let start = if c < 0 { 1int } else { 0int };
    assert(is_digit(digits[0]));
    if c < 0 {
        assert(t[0] == '-');
    } else {
        assert(t[0] == digits[0]);
    }
    let len = t.len() as int;
    let body = t.subrange(start, len);
    assert(body =~= digits + tail);
    assert forall|j: int| 0 <= j < body.len() implies !(body[j] == 'e' || body[j] == 'E') by {
        if j < digits.len() {
            assert(body[j] == digits[j]);
            assert(is_digit(digits[j]));
        } else {
            assert(body[j] == tail[j - digits.len()]);
            if j > digits.len() {
                assert(is_digit(body[j]));
            }
        }
    }
    lemma_index_of_exp(body, body.len() as int);
    assert(t.subrange(start, len) == body);
    assert forall|j: int| 0 <= j < digits.len() implies body[j] != '.' by {
        assert(body[j] == digits[j]);
        assert(is_digit(digits[j]));
    }
    if tail.len() > 0 {
        assert(body[digits.len() as int] == '.');
    }
    lemma_index_of_char(body, '.', digits.len() as int);
    let dot = start + digits.len();
    lemma_amount_parts(t, start, len, dot, len);
    let fstart = if dot < len { dot + 1 } else { len };
    let ip = t.subrange(start, dot);
    let fp = t.subrange(fstart, len);
    assert(ip =~= digits);
    if tail.len() > 0 {
        assert(fp =~= tail.drop_first());
    } else {
        assert(fp =~= Seq::<char>::empty());
    }
    assert(all_digits(fp));
    let edig = t.subrange(len, len);
    assert(edig =~= Seq::<char>::empty());
    assert(digits_value(edig) == 0);
    let d = ip + fp;
    assert(whole * 100 + frac == m);
    reveal_with_fuel(pow10, 3);
    if fp.len() == 0 {
        assert(d =~= digits);
        assert(rounded(d, 2) == whole * 100);
        assert(frac == 0);
        assert(rounded(d, 2 - fp.len()) == m);
    } else if fp.len() == 1 {
        assert(d.drop_last() =~= digits);
        assert(d.last() == digit_char(frac / 10));
        assert(digits_value(d) == whole * 10 + frac / 10);
        assert(rounded(d, 1) == (whole * 10 + frac / 10) * 10);
        assert(frac % 10 == 0 && frac != 0);
        assert(frac / 10 * 10 == frac) by (nonlinear_arith)
            requires
                frac % 10 == 0,
        ;
        assert(rounded(d, 2 - fp.len()) == m);
    } else {
        assert(d.drop_last().drop_last() =~= digits);
        assert(d.drop_last().last() == digit_char(frac / 10));
        assert(d.last() == digit_char(frac % 10));
        assert(digits_value(d.drop_last()) == whole * 10 + frac / 10);
        assert(digits_value(d) == (whole * 10 + frac / 10) * 10 + frac % 10);
        assert(pow10(0) == 1);
        assert(digits_value(d) * pow10(0) == digits_value(d));
        assert(rounded(d, 0) == digits_value(d));
        assert(frac / 10 * 10 + frac % 10 == frac);
        assert(rounded(d, 2 - fp.len()) == m);
    }
    assert(whole * 100 + frac == m);
    assert(rounded(d, (digits_value(edig) as int) - fp.len() + 2) == m);
    assert((start == 1 && t[0] == '-') == (c < 0));
    assert(signed_in_range(c < 0, m) == Some(c));
}

} // verus!
