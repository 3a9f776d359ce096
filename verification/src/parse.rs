use vstd::prelude::*;
use vstd::arithmetic::div_mod::lemma_fundamental_div_mod;
use crate::error::UnitError;
use crate::unit::{Unit, BYTES_PER_GB, BYTES_PER_KB, BYTES_PER_MB, BYTES_PER_TB, FP_MAX};

verus! {

/// A decimal digit character.
pub open spec fn is_digit(c: char) -> bool {
    48 <= c as u32 <= 57
}

/// The value of a decimal digit character.
pub open spec fn digit_val(c: char) -> int
    recommends
        is_digit(c),
{
    c as u32 - 48
}

/// An ASCII whitespace character: the characters the parser trims.
pub open spec fn is_space(c: char) -> bool {
    c == ' ' || c == '\t' || c == '\n' || c == '\r' || c == '\u{000b}' || c == '\u{000c}'
}

/// The comma-as-decimal-separator normalization: commas read as periods.
pub open spec fn norm_char(c: char) -> char {
    if c == ',' {
        '.'
    } else {
        c
    }
}

/// The whole text with commas read as periods.
pub open spec fn normalize(s: Seq<char>) -> Seq<char> {
    s.map_values(|c: char| norm_char(c))
}

/// The index of the last digit character of `s`, or -1 if there is none.
pub open spec fn rfind_digit(s: Seq<char>) -> int
    decreases s.len(),
{
    if s.len() == 0 {
        -1
    } else if is_digit(s[s.len() - 1]) {
        s.len() - 1
    } else {
        rfind_digit(s.drop_last())
    }
}

/// `s` without trailing whitespace.
pub open spec fn trim_back(s: Seq<char>) -> Seq<char>
    decreases s.len(),
{
    if s.len() > 0 && is_space(s[s.len() - 1]) {
        trim_back(s.drop_last())
    } else {
        s
    }
}

/// `s` without leading whitespace.
pub open spec fn trim_front(s: Seq<char>) -> Seq<char>
    decreases s.len(),
{
    if s.len() > 0 && is_space(s[0]) {
        trim_front(s.drop_first())
    } else {
        s
    }
}

/// `s` without leading or trailing whitespace.
pub open spec fn trim(s: Seq<char>) -> Seq<char> {
    trim_front(trim_back(s))
}

/// The byte multiplier named by a unit suffix, or None for any other text.
pub open spec fn suffix_scale(u: Seq<char>) -> Option<int> {
    if u == seq!['B'] {
        Some(1int)
    } else if u == seq!['K', 'B'] {
        Some(BYTES_PER_KB as int)
    } else if u == seq!['M', 'B'] {
        Some(BYTES_PER_MB as int)
    } else if u == seq!['G', 'B'] {
        Some(BYTES_PER_GB as int)
    } else if u == seq!['T', 'B'] {
        Some(BYTES_PER_TB as int)
    } else {
        None
    }
}

/// Every character of `s` is a decimal digit.
pub open spec fn all_digits(s: Seq<char>) -> bool {
    forall|i: int| 0 <= i < s.len() ==> is_digit(s[i])
}

/// The index of the first period in `s`, or -1 if there is none.
pub open spec fn find_dot(s: Seq<char>) -> int
    decreases s.len(),
{
    if s.len() == 0 {
        -1
    } else if s[0] == '.' {
        0
    } else if find_dot(s.drop_first()) == -1 {
        -1
    } else {
        find_dot(s.drop_first()) + 1
    }
}

/// The decimal number grammar: an optional sign, then either digits, or
/// digits around a single period with at least one digit after it. On a
/// match, the sign, the integer digits and the fractional digits.
pub open spec fn number_parts(w: Seq<char>) -> Option<(bool, Seq<char>, Seq<char>)> {
    if w.len() == 0 {
        None
    } else {
        let neg = w[0] == '-';
        let body = if w[0] == '-' || w[0] == '+' {
            w.drop_first()
        } else {
            w
        };
        let di = find_dot(body);
        if di == -1 {
            if body.len() > 0 && all_digits(body) {
                Some((neg, body, Seq::<char>::empty()))
            } else {
                None
            }
        } else {
            let ip = body.subrange(0, di);
            let fp = body.subrange(di + 1, body.len() as int);
            if all_digits(ip) && fp.len() > 0 && all_digits(fp) {
                Some((neg, ip, fp))
            } else {
                None
            }
        }
    }
}

/// The integer named by a digit string (most significant digit first);
/// the empty string names zero.
pub open spec fn digits_val(s: Seq<char>) -> int
    recommends
        all_digits(s),
    decreases s.len(),
{
    if s.len() == 0 {
        0
    } else {
        digits_val(s.drop_last()) * 10 + digit_val(s[s.len() - 1])
    }
}

/// `f` without trailing zero digits.
pub open spec fn strip_zeros(f: Seq<char>) -> Seq<char>
    decreases f.len(),
{
    if f.len() > 0 && f[f.len() - 1] == '0' {
        strip_zeros(f.drop_last())
    } else {
        f
    }
}

/// Ten to the `k`.
pub open spec fn pow10(k: nat) -> int
    decreases k,
{
    if k == 0 {
        1
    } else {
        10 * pow10((k - 1) as nat)
    }
}

/// The tick count named by a parsed number and a scale, or None when the
/// quantity cannot be held exactly: more than ten fractional digits
/// remain after trailing zeros are dropped, or the magnitude passes
/// `FP_MAX` ticks.
pub open spec fn ticks_of(neg: bool, ip: Seq<char>, fp: Seq<char>, scale: int) -> Option<int> {
    let fs = strip_zeros(fp);
    if fs.len() > 10 {
        None
    } else {
        let mant = digits_val(ip) * pow10(fs.len()) + digits_val(fs);
        let t = mant * scale * pow10((10 - fs.len()) as nat);
        if t > FP_MAX as int {
            None
        } else if neg {
            Some(-t)
        } else {
            Some(t)
        }
    }
}

/// The tick count named by a decimal number text `v` under the byte
/// multiplier `sc`, or None when `v` does not match the number grammar or
/// names a quantity the fixed-point range cannot hold.
pub open spec fn number_ticks(v: Seq<char>, sc: int) -> Option<int> {
    match number_parts(normalize(v)) {
        None => None,
        Some((neg, ip, fp)) => ticks_of(neg, ip, fp, sc),
    }
}

/// What parsing yields for the character sequence `s`: the tick count of
/// the named quantity, or None when `s` does not match the grammar (split
/// at the last digit; the part up to it, trimmed and with commas read as
/// periods, must be a decimal number; the rest, trimmed, must be one of
/// the suffixes B, KB, MB, GB, TB) or names a quantity the fixed-point
/// range cannot hold.
pub open spec fn parse_spec(s: Seq<char>) -> Option<int> {
    let i = rfind_digit(s);
    if i == -1 {
        None
    } else {
        let v = trim(s.subrange(0, i + 1));
        let u = trim(s.subrange(i + 1, s.len() as int));
        match suffix_scale(u) {
            None => None,
            Some(sc) => number_ticks(v, sc),
        }
    }
}

proof fn lemma_digits_val_nonneg(s: Seq<char>)
    requires
        all_digits(s),
    ensures
        digits_val(s) >= 0,
    decreases s.len(),
{
    if s.len() > 0 {
        assert(all_digits(s.drop_last()));
        lemma_digits_val_nonneg(s.drop_last());
        assert(digits_val(s.drop_last()) * 10 >= 0) by (nonlinear_arith)
            requires
                digits_val(s.drop_last()) >= 0,
        ;
    }
}

proof fn lemma_pow10_pos(k: nat)
    ensures
        pow10(k) >= 1,
    decreases k,
{
    if k > 0 {
        lemma_pow10_pos((k - 1) as nat);
    }
}

proof fn lemma_digits_val_concat(x: Seq<char>, y: Seq<char>)
    requires
        all_digits(x),
        all_digits(y),
    ensures
        digits_val(x + y) == digits_val(x) * pow10(y.len()) + digits_val(y),
    decreases y.len(),
{
    if y.len() == 0 {
        assert(x + y =~= x);
    } else {
        let y0 = y.drop_last();
        assert(all_digits(y0));
        lemma_digits_val_concat(x, y0);
        assert((x + y).drop_last() =~= x + y0);
        assert(digits_val(x + y) == digits_val(x + y0) * 10 + digit_val(y[y.len() - 1]));
        assert((digits_val(x) * pow10(y0.len()) + digits_val(y0)) * 10 == digits_val(x) * (10
            * pow10(y0.len())) + digits_val(y0) * 10) by (nonlinear_arith);
        assert(pow10(y.len()) == 10 * pow10(y0.len()));
    }
}

/// Appending further digits never shrinks the named integer.
proof fn lemma_digits_val_prefix_bound(x: Seq<char>, y: Seq<char>)
    requires
        all_digits(x),
        all_digits(y),
    ensures
        digits_val(x + y) >= digits_val(x),
{
    lemma_digits_val_concat(x, y);
    lemma_digits_val_nonneg(x);
    lemma_digits_val_nonneg(y);
    lemma_pow10_pos(y.len());
    assert(digits_val(x) * pow10(y.len()) >= digits_val(x)) by (nonlinear_arith)
        requires
            digits_val(x) >= 0,
            pow10(y.len()) >= 1,
    ;
}

proof fn lemma_find_dot_none(s: Seq<char>)
    requires
        forall|k: int| 0 <= k < s.len() ==> s[k] != '.',
    ensures
        find_dot(s) == -1,
    decreases s.len(),
{
    if s.len() > 0 {
        lemma_find_dot_none(s.drop_first());
    }
}

proof fn lemma_find_dot_at(s: Seq<char>, t: int)
    requires
        0 <= t < s.len(),
        forall|k: int| 0 <= k < t ==> s[k] != '.',
        s[t] == '.',
    ensures
        find_dot(s) == t,
    decreases t,
{
    if t > 0 {
        lemma_find_dot_at(s.drop_first(), t - 1);
    }
}

/// Leading whitespace never reaches the last character of a text that
/// does not end in whitespace, so trimming the front keeps that character.
proof fn lemma_trim_front_keeps_last(x: Seq<char>)
    requires
        x.len() > 0,
        !is_space(x[x.len() - 1]),
    ensures
        trim_front(x).len() > 0,
        trim_front(x)[trim_front(x).len() - 1] == x[x.len() - 1],
    decreases x.len(),
{
    if is_space(x[0]) {
        lemma_trim_front_keeps_last(x.drop_first());
    }
}

/// For non-negative `a` and `c` and positive `b`: `a * b <= c` exactly
/// when `a` is at most the integer quotient `c / b`.
proof fn lemma_le_div_iff(a: int, b: int, c: int)
    requires
        a >= 0,
        b >= 1,
        c >= 0,
    ensures
        a * b <= c <==> a <= c / b,
{
    lemma_fundamental_div_mod(c, b);
    assert(a * b <= c ==> a <= c / b) by (nonlinear_arith)
        requires
            a >= 0,
            b >= 1,
            c == b * (c / b) + c % b,
            0 <= c % b < b,
    ;
    assert(a <= c / b ==> a * b <= c) by (nonlinear_arith)
        requires
            a >= 0,
            b >= 1,
            c == b * (c / b) + c % b,
            0 <= c % b < b,
    ;
}

fn is_digit_exec(c: char) -> (r: bool)
    ensures
        r == is_digit(c),
{
    let v = c as u32;
    48 <= v && v <= 57
}

fn is_space_exec(c: char) -> (r: bool)
    ensures
        r == is_space(c),
{
    c == ' ' || c == '\t' || c == '\n' || c == '\r' || c == '\u{000b}' || c == '\u{000c}'
}

/// The character at `i`, with a comma read as a period.
fn nchar_at(s: &str, i: usize) -> (c: char)
    requires
        i < s@.len(),
    ensures
        c == norm_char(s@[i as int]),
{
    let c = s.get_char(i);
    if c == ',' {
        '.'
    } else {
        c
    }
}

/// The parse failure for the input `s`.
fn invalid(s: &str) -> (e: UnitError)
    ensures
        e matches UnitError::InvalidFormat { input } && input@ == s@,
{
    UnitError::InvalidFormat { input: s.to_owned() }
}

/// The bounds of `s[a..b]` with whitespace trimmed on both sides.
fn trim_range(s: &str, a: usize, b: usize) -> (r: (usize, usize))
    requires
        a <= b <= s@.len(),
    ensures
        a <= r.0 <= r.1 <= b,
        trim(s@.subrange(a as int, b as int)) == s@.subrange(r.0 as int, r.1 as int),
{
    let mut hi = b;
    let mut done = false;
    while !done && hi > a
        invariant
            a <= hi <= b <= s@.len(),
            trim_back(s@.subrange(a as int, b as int)) == trim_back(
                s@.subrange(a as int, hi as int),
            ),
            done ==> hi > a && !is_space(s@[hi - 1]),
        decreases hi + (if done {
            0int
        } else {
            1int
        }),
    {
        let c = s.get_char(hi - 1);
        if is_space_exec(c) {
            proof {
                assert(s@.subrange(a as int, hi as int).drop_last() =~= s@.subrange(
                    a as int,
                    hi - 1,
                ));
            }
            hi = hi - 1;
        } else {
            done = true;
        }
    }
    proof {
        assert(trim_back(s@.subrange(a as int, b as int)) == s@.subrange(a as int, hi as int));
    }
    let mut lo = a;
    let mut done2 = false;
    while !done2 && lo < hi
        invariant
            a <= lo <= hi <= s@.len(),
            trim_front(s@.subrange(a as int, hi as int)) == trim_front(
                s@.subrange(lo as int, hi as int),
            ),
            done2 ==> lo < hi && !is_space(s@[lo as int]),
        decreases (hi - lo) + (if done2 {
            0int
        } else {
            1int
        }),
    {
        let c = s.get_char(lo);
        if is_space_exec(c) {
            proof {
                assert(s@.subrange(lo as int, hi as int).drop_first() =~= s@.subrange(
                    lo + 1,
                    hi as int,
                ));
            }
            lo = lo + 1;
        } else {
            done2 = true;
        }
    }
    proof {
        assert(trim_front(s@.subrange(a as int, hi as int)) == s@.subrange(lo as int, hi as int));
    }
    (lo, hi)
}

/// Whether every character of `s[a..b]`, commas read as periods, is a
/// decimal digit.
fn check_digits(s: &str, a: usize, b: usize) -> (ok: bool)
    requires
        a <= b <= s@.len(),
    ensures
        ok == all_digits(normalize(s@.subrange(a as int, b as int))),
{
    let ghost w = normalize(s@.subrange(a as int, b as int));
    let mut k = a;
    while k < b
        invariant
            a <= k <= b <= s@.len(),
            w == normalize(s@.subrange(a as int, b as int)),
            forall|t: int| 0 <= t < k - a ==> is_digit(w[t]),
        decreases b - k,
    {
        let c = nchar_at(s, k);
        proof {
            assert(w[k - a] == norm_char(s@[k as int]));
        }
        if !is_digit_exec(c) {
            proof {
                assert(!is_digit(w[k - a]));
            }
            return false;
        }
        k = k + 1;
    }
    true
}

/// Extends the integer named by `prefix` with the digits of `s[a..b]`
/// (commas read as periods), refusing a value past `FP_MAX`.
#[verifier::loop_isolation(false)]
fn accumulate_digits(s: &str, a: usize, b: usize, acc0: u128, Ghost(prefix): Ghost<Seq<char>>) -> (r:
    Option<u128>)
    requires
        a <= b <= s@.len(),
        all_digits(normalize(s@.subrange(a as int, b as int))),
        all_digits(prefix),
        acc0 as int == digits_val(prefix),
        acc0 <= FP_MAX as u128,
    ensures
        ({
            let total = digits_val(prefix + normalize(s@.subrange(a as int, b as int)));
            match r {
                Some(acc) => acc as int == total && acc <= FP_MAX as u128,
                None => total > FP_MAX as int,
            }
        }),
{
    let ghost seg = normalize(s@.subrange(a as int, b as int));
    let mut acc = acc0;
    let mut k = a;
    proof {
        assert(prefix + normalize(s@.subrange(a as int, a as int)) =~= prefix);
    }
    while k < b
        invariant
            a <= k <= b,
            acc as int == digits_val(prefix + normalize(s@.subrange(a as int, k as int))),
            acc <= FP_MAX as u128,
        decreases b - k,
    {
        let c = nchar_at(s, k);
        proof {
            assert(seg[k - a] == norm_char(s@[k as int]));
            let pre = prefix + normalize(s@.subrange(a as int, k + 1));
            assert(pre.drop_last() =~= prefix + normalize(s@.subrange(a as int, k as int)));
            assert(pre[pre.len() - 1] == norm_char(s@[k as int]));
        }
        let d = (c as u32 - 48) as u128;
        let na = acc * 10 + d;
        if na > FP_MAX as u128 {
            proof {
                let pre = prefix + normalize(s@.subrange(a as int, k + 1));
                let whole = prefix + seg;
                let rest = whole.subrange(pre.len() as int, whole.len() as int);
                assert(pre + rest =~= whole);
                assert forall|t: int| 0 <= t < pre.len() implies is_digit(pre[t]) by {
                    if t < prefix.len() {
                        assert(pre[t] == prefix[t]);
                    } else {
                        assert(pre[t] == norm_char(s@[a + (t - prefix.len())]));
                        assert(seg[t - prefix.len()] == norm_char(s@[a + (t - prefix.len())]));
                    }
                }
                assert forall|t: int| 0 <= t < rest.len() implies is_digit(rest[t]) by {
                    assert(rest[t] == whole[pre.len() + t]);
                    assert(whole[pre.len() + t] == seg[pre.len() + t - prefix.len()]);
                }
                lemma_digits_val_prefix_bound(pre, rest);
            }
            return None;
        }
        acc = na;
        k = k + 1;
    }
    proof {
        assert(prefix + normalize(s@.subrange(a as int, b as int)) == prefix + seg);
    }
    Some(acc)
}

impl Unit {
    /// Parses the trimmed number region `s[va..vb]` (whose last character
    /// is a digit) under the byte multiplier `scale`.
    #[verifier::loop_isolation(false)]
    #[verifier::rlimit(100)]
    fn parse_scaled(s: &str, va: usize, vb: usize, scale: i128) -> (r: Result<Unit, UnitError>)
        requires
            va < vb <= s@.len(),
            is_digit(s@[vb - 1]),
            1 <= scale <= BYTES_PER_TB,
        ensures
            r matches Ok(unit) ==> number_ticks(
                s@.subrange(va as int, vb as int),
                scale as int,
            ) == Some(unit@),
            r matches Err(e) ==> (e matches UnitError::InvalidFormat { input } && input@ == s@
                && number_ticks(s@.subrange(va as int, vb as int), scale as int) is None),
    {
        let ghost v = s@.subrange(va as int, vb as int);
        proof {
            assert(v[v.len() - 1] == s@[vb - 1]);
        }
        let ghost w = normalize(v);
        proof {
            assert(w[w.len() - 1] == norm_char(v[v.len() - 1]));
            assert(is_digit(w[w.len() - 1]));
        }
        let c0 = nchar_at(s, va);
        let mut p = va;
        let mut neg = false;
        if c0 == '-' {
            neg = true;
            p = va + 1;
        } else if c0 == '+' {
            p = va + 1;
        }
        proof {
            assert(w[0] == norm_char(s@[va as int]));
            assert(p < vb);
        }
        let ghost body = normalize(s@.subrange(p as int, vb as int));
        proof {
            if p > va {
                assert(body =~= w.drop_first());
            } else {
                assert(body =~= w);
            }
            assert(body[body.len() - 1] == w[w.len() - 1]);
        }
        let mut dp = vb;
        let mut k2 = p;
        while k2 < vb
            invariant
                p <= k2 <= vb,
                dp == vb || p <= dp < k2,
                dp < vb ==> norm_char(s@[dp as int]) == '.' && (forall|t: int|
                    p <= t < dp ==> norm_char(s@[t]) != '.'),
                dp == vb ==> (forall|t: int| p <= t < k2 ==> norm_char(s@[t]) != '.'),
            decreases vb - k2,
        {
            if dp == vb {
                let c = nchar_at(s, k2);
                if c == '.' {
                    dp = k2;
                }
            }
            k2 = k2 + 1;
        }
        proof {
            if dp == vb {
                lemma_find_dot_none(body);
            } else {
                lemma_find_dot_at(body, dp - p);
            }
        }
        let ip_hi = if dp == vb {
            vb
        } else {
            dp
        };
        let f_lo = if dp == vb {
            vb
        } else {
            dp + 1
        };
        let ghost ip = normalize(s@.subrange(p as int, ip_hi as int));
        let ghost fp = normalize(s@.subrange(f_lo as int, vb as int));
        proof {
            if dp == vb {
                assert(ip =~= body);
                assert(fp =~= Seq::<char>::empty());
            } else {
                assert(ip =~= body.subrange(0, dp - p));
                assert(fp =~= body.subrange(dp - p + 1, body.len() as int));
                assert(dp < vb - 1);
            }
        }
        if !check_digits(s, p, ip_hi) {
            proof {
                assert(number_parts(w) is None);
                assert(number_ticks(v, scale as int) is None);
            }
            return Err(invalid(s));
        }
        if !check_digits(s, f_lo, vb) {
            proof {
                assert(number_parts(w) is None);
                assert(number_ticks(v, scale as int) is None);
            }
            return Err(invalid(s));
        }
        proof {
            assert(number_parts(w) == Some((neg, ip, fp)));
        }
        let mut fe = vb;
        let mut done3 = false;
        while !done3 && fe > f_lo
            invariant
                f_lo <= fe <= vb,
                strip_zeros(fp) == strip_zeros(normalize(s@.subrange(f_lo as int, fe as int))),
                done3 ==> fe > f_lo && norm_char(s@[fe - 1]) != '0',
            decreases fe + (if done3 {
                0int
            } else {
                1int
            }),
        {
            let c = nchar_at(s, fe - 1);
            if c == '0' {
                proof {
                    let cur = normalize(s@.subrange(f_lo as int, fe as int));
                    assert(cur[cur.len() - 1] == norm_char(s@[fe - 1]));
                    assert(cur.drop_last() =~= normalize(s@.subrange(f_lo as int, fe - 1)));
                }
                fe = fe - 1;
            } else {
                done3 = true;
            }
        }
        let ghost fs = strip_zeros(fp);
        proof {
            assert(fs == normalize(s@.subrange(f_lo as int, fe as int)));
            assert(fs.len() == fe - f_lo);
            assert forall|t: int| 0 <= t < fs.len() implies is_digit(fs[t]) by {
                assert(fs[t] == norm_char(s@[f_lo + t]));
                assert(fp[t] == norm_char(s@[f_lo + t]));
            }
            assert(all_digits(fs));
        }
        if fe - f_lo > 10 {
            proof {
                assert(ticks_of(neg, ip, fp, scale as int) is None);
                assert(number_ticks(v, scale as int) is None);
            }
            return Err(invalid(s));
        }
        let ghost full = ip + fs;
        proof {
            lemma_digits_val_concat(ip, fs);
            lemma_digits_val_nonneg(full);
            lemma_pow10_pos((10 - fs.len()) as nat);
        }
        let fpmax_u: u128 = FP_MAX as u128;
        let acc1 = match accumulate_digits(s, p, ip_hi, 0, Ghost(Seq::<char>::empty())) {
            Some(x) => x,
            None => {
                proof {
                    assert(Seq::<char>::empty() + ip =~= ip);
                    lemma_digits_val_prefix_bound(ip, fs);
                    lemma_mant_overflow(digits_val(full), scale as int, (10 - fs.len()) as nat);
                    assert(ticks_of(neg, ip, fp, scale as int) is None);
                }
                return Err(invalid(s));
            },
        };
        proof {
            assert(Seq::<char>::empty() + ip =~= ip);
        }
        let acc = match accumulate_digits(s, f_lo, fe, acc1, Ghost(ip)) {
            Some(x) => x,
            None => {
                proof {
                    lemma_mant_overflow(digits_val(full), scale as int, (10 - fs.len()) as nat);
                    assert(ticks_of(neg, ip, fp, scale as int) is None);
                }
                return Err(invalid(s));
            },
        };
        proof {
            assert(acc as int == digits_val(ip) * pow10(fs.len()) + digits_val(fs));
        }
        let f = fe - f_lo;
        let pw = pow10_exec(10 - f);
        proof {
            assert(1 <= (scale as int) * (pw as int) <= 10_995_116_277_760_000_000_000)
                by (nonlinear_arith)
                requires
                    1 <= scale as int <= 1_099_511_627_776,
                    1 <= pw as int <= 10_000_000_000,
            ;
        }
        let spd = (scale as u128) * pw;
        proof {
            assert(1 <= spd as int <= 10_995_116_277_760_000_000_000) by (nonlinear_arith)
                requires
                    1 <= scale as int <= 1_099_511_627_776,
                    1 <= pw as int <= 10_000_000_000,
                    spd as int == (scale as int) * (pw as int),
            ;
            lemma_le_div_iff(acc as int, spd as int, FP_MAX as int);
            assert((acc as int) * ((scale as int) * (pw as int)) == (acc as int) * (scale as int) * (
            pw as int)) by (nonlinear_arith);
        }
        let th = fpmax_u / spd;
        if acc > th {
            proof {
                assert(ticks_of(neg, ip, fp, scale as int) is None);
                assert(number_ticks(v, scale as int) is None);
            }
            return Err(invalid(s));
        }
        let tu = acc * spd;
        let t = tu as i128;
        let signed = if neg {
            -t
        } else {
            t
        };
        let unit = Unit::from_ticks(signed);
        proof {
            assert(ticks_of(neg, ip, fp, scale as int) == Some(signed as int));
            assert(number_ticks(v, scale as int) == Some(signed as int));
        }
        Ok(unit)
    }

    /// Parses a human-readable size: a decimal number (optionally signed;
    /// a comma reads as the decimal separator) followed by one of the
    /// suffixes B, KB, MB, GB, TB, with whitespace allowed around either
    /// part. Succeeds exactly when `parse_spec` names a tick count for the
    /// input; any other input, and any quantity the fixed-point range
    /// cannot hold, is an `InvalidFormat` error carrying the input.
    #[verifier::loop_isolation(false)]
    #[verifier::rlimit(100)]
    pub fn from_str(s: &str) -> (r: Result<Unit, UnitError>)
        ensures
            r matches Ok(unit) ==> parse_spec(s@) == Some(unit@),
            r matches Err(e) ==> (e matches UnitError::InvalidFormat { input } && input@ == s@
                && parse_spec(s@) is None),
    {
        let n = s.unicode_len();
        let mut j: usize = 0;
        let mut idx: usize = 0;
        let mut found = false;
        while j < n
            invariant
                j <= n,
                found ==> idx < j && is_digit(s@[idx as int]) && rfind_digit(
                    s@.subrange(0, j as int),
                ) == idx as int,
                !found ==> rfind_digit(s@.subrange(0, j as int)) == -1,
            decreases n - j,
        {
            let c = s.get_char(j);
            proof {
                assert(s@.subrange(0, j + 1).drop_last() =~= s@.subrange(0, j as int));
                assert(s@.subrange(0, j + 1)[j as int] == s@[j as int]);
            }
            if is_digit_exec(c) {
                found = true;
                idx = j;
            }
            j = j + 1;
        }
        proof {
            assert(s@.subrange(0, n as int) =~= s@);
        }
        if !found {
            return Err(invalid(s));
        }
        let vr = trim_range(s, 0, idx + 1);
        let va = vr.0;
        let vb = vr.1;
        let ur = trim_range(s, idx + 1, n);
        let ua = ur.0;
        let ub = ur.1;
        let ghost v = trim(s@.subrange(0, idx + 1));
        let ghost u = trim(s@.subrange(idx + 1, n as int));
        let scale: i128;
        if ub - ua == 1 && s.get_char(ua) == 'B' {
            scale = 1;
            proof {
                assert(u =~= seq!['B']);
            }
        } else if ub - ua == 2 && s.get_char(ua) == 'K' && s.get_char(ua + 1) == 'B' {
            scale = BYTES_PER_KB;
            proof {
                assert(u =~= seq!['K', 'B']);
            }
        } else if ub - ua == 2 && s.get_char(ua) == 'M' && s.get_char(ua + 1) == 'B' {
            scale = BYTES_PER_MB;
            proof {
                assert(u =~= seq!['M', 'B']);
            }
        } else if ub - ua == 2 && s.get_char(ua) == 'G' && s.get_char(ua + 1) == 'B' {
            scale = BYTES_PER_GB;
            proof {
                assert(u =~= seq!['G', 'B']);
            }
        } else if ub - ua == 2 && s.get_char(ua) == 'T' && s.get_char(ua + 1) == 'B' {
            scale = BYTES_PER_TB;
            proof {
                assert(u =~= seq!['T', 'B']);
            }
        } else {
            proof {
                assert(u.len() == ub - ua);
                if ub - ua == 1 {
                    assert(u[0] == s@[ua as int]);
                }
                if ub - ua == 2 {
                    assert(u[0] == s@[ua as int]);
                    assert(u[1] == s@[ua + 1]);
                }
                assert(suffix_scale(u) is None);
            }
            return Err(invalid(s));
        }
        proof {
            assert(suffix_scale(u) == Some(scale as int));
            let x = s@.subrange(0, idx + 1);
            assert(x[x.len() - 1] == s@[idx as int]);
            assert(trim_back(x) == x);
            lemma_trim_front_keeps_last(x);
            assert(v.len() > 0 && is_digit(v[v.len() - 1]));
            assert(s@.subrange(va as int, vb as int) == v);
            assert(vb >= 1 && is_digit(s@[vb - 1]));
        }
        let res = Self::parse_scaled(s, va, vb, scale);
        proof {
            match &res {
                Ok(unit) => {
                    assert(parse_spec(s@) == Some(unit@));
                },
                Err(_) => {
                    assert(parse_spec(s@) is None);
                },
            }
        }
        res
    }

    /// Parses a human-readable size; `from_str` under the name the
    /// external interface uses.
    pub fn parse(s: &str) -> (r: Result<Unit, UnitError>)
        ensures
            r matches Ok(unit) ==> parse_spec(s@) == Some(unit@),
            r matches Err(e) ==> (e matches UnitError::InvalidFormat { input } && input@ == s@
                && parse_spec(s@) is None),
    {
        Self::from_str(s)
    }
}

/// A mantissa past `FP_MAX` cannot scale back into range: the scale and
/// the power of ten only grow it.
proof fn lemma_mant_overflow(mant: int, scale: int, k: nat)
    requires
        mant > FP_MAX as int,
        scale >= 1,
    ensures
        mant * scale * pow10(k) > FP_MAX as int,
{
    lemma_pow10_pos(k);
    assert(mant * scale * pow10(k) >= mant) by (nonlinear_arith)
        requires
            mant > 0,
            scale >= 1,
            pow10(k) >= 1,
    ;
}

/// Ten to the `k`, as a machine integer.
fn pow10_exec(k: usize) -> (r: u128)
    requires
        k <= 10,
    ensures
        r as int == pow10(k as nat),
        1 <= r <= 10_000_000_000,
{
    proof {
        reveal_with_fuel(pow10, 12);
    }
    match k {
        0 => 1,
        1 => 10,
        2 => 100,
        3 => 1_000,
        4 => 10_000,
        5 => 100_000,
        6 => 1_000_000,
        7 => 10_000_000,
        8 => 100_000_000,
        9 => 1_000_000_000,
        _ => 10_000_000_000,
    }
}

} // verus!
