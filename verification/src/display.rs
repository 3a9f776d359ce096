use vstd::prelude::*;
use vstd::string::StringExecFns;
use crate::num::{abs_int, rdiv_mag, rdiv_u128};
use crate::unit::{Unit, BYTES_PER_GB, BYTES_PER_KB, BYTES_PER_MB, BYTES_PER_TB, FP_DEN, FP_MAX};

verus! {

/// The decimal digit character for `d`.
pub open spec fn digit_char(d: int) -> char
    recommends
        0 <= d <= 9,
{
    if d == 0 {
        '0'
    } else if d == 1 {
        '1'
    } else if d == 2 {
        '2'
    } else if d == 3 {
        '3'
    } else if d == 4 {
        '4'
    } else if d == 5 {
        '5'
    } else if d == 6 {
        '6'
    } else if d == 7 {
        '7'
    } else if d == 8 {
        '8'
    } else {
        '9'
    }
}

/// The decimal rendering of a non-negative integer, most significant
/// digit first, with no leading zeros (zero itself renders as "0").
pub open spec fn dec_chars(n: int) -> Seq<char>
    recommends
        n >= 0,
    decreases n,
{
    if n < 10 {
        seq![digit_char(n)]
    } else {
        dec_chars(n / 10) + seq![digit_char(n % 10)]
    }
}

/// The two-decimal rendering of a non-negative quantity of `m` ticks,
/// measured in the scale that has `s` ticks per unit: the quotient rounded
/// to hundredths, halves away from zero, with exactly two digits after the
/// point.
pub open spec fn scaled_chars(m: int, s: int) -> Seq<char>
    recommends
        m >= 0,
        s > 0,
{
    let q = rdiv_mag(100 * m, s);
    dec_chars(q / 100) + seq!['.', digit_char((q / 10) % 10), digit_char(q % 10)]
}

/// What `to_display_string` renders for a tick count `t`: the largest
/// scale whose threshold the absolute quantity reaches, with two decimals
/// for TB, GB, MB and KB, and the whole number of bytes (rounded to the
/// nearest, halves away from zero) for B. The sign is preserved.
pub open spec fn display_spec(t: int) -> Seq<char> {
    let m = abs_int(t);
    let sign: Seq<char> = if t < 0 {
        seq!['-']
    } else {
        Seq::empty()
    };
    if m >= (BYTES_PER_TB as int) * (FP_DEN as int) {
        sign + scaled_chars(m, (BYTES_PER_TB as int) * (FP_DEN as int)) + seq!['T', 'B']
    } else if m >= (BYTES_PER_GB as int) * (FP_DEN as int) {
        sign + scaled_chars(m, (BYTES_PER_GB as int) * (FP_DEN as int)) + seq!['G', 'B']
    } else if m >= (BYTES_PER_MB as int) * (FP_DEN as int) {
        sign + scaled_chars(m, (BYTES_PER_MB as int) * (FP_DEN as int)) + seq!['M', 'B']
    } else if m >= (BYTES_PER_KB as int) * (FP_DEN as int) {
        sign + scaled_chars(m, (BYTES_PER_KB as int) * (FP_DEN as int)) + seq!['K', 'B']
    } else {
        sign + dec_chars(rdiv_mag(m, FP_DEN as int)) + seq!['B']
    }
}

/// Formatting ignores the sign when it picks the scale tier: a negative
/// quantity renders as the minus sign followed by the rendering of its
/// magnitude.
pub proof fn lemma_display_sign(t: int)
    requires
        t < 0,
    ensures
        display_spec(t) == seq!['-'] + display_spec(-t),
{
    assert(display_spec(t) =~= seq!['-'] + display_spec(-t));
}

/// The static string for one decimal digit.
fn digit_str(d: u8) -> (r: &'static str)
    requires
        d < 10,
    ensures
        r@ == seq![digit_char(d as int)],
{
    proof {
        reveal_strlit("0");
        reveal_strlit("1");
        reveal_strlit("2");
        reveal_strlit("3");
        reveal_strlit("4");
        reveal_strlit("5");
        reveal_strlit("6");
        reveal_strlit("7");
        reveal_strlit("8");
        reveal_strlit("9");
    }
    let r = match d {
        0 => "0",
        1 => "1",
        2 => "2",
        3 => "3",
        4 => "4",
        5 => "5",
        6 => "6",
        7 => "7",
        8 => "8",
        _ => "9",
    };
    proof {
        assert(r@ =~= seq![digit_char(d as int)]);
    }
    r
}

/// The digit characters of `s`, read back to front.
spec fn rev_digit_chars(s: Seq<u8>) -> Seq<char> {
    Seq::new(s.len(), |i: int| digit_char(s[s.len() - 1 - i] as int))
}

proof fn lemma_rev_push(s: Seq<u8>, d: u8)
    ensures
        rev_digit_chars(s.push(d)) == seq![digit_char(d as int)] + rev_digit_chars(s),
{
    let lhs = rev_digit_chars(s.push(d));
    let rhs = seq![digit_char(d as int)] + rev_digit_chars(s);
    assert forall|i: int| 0 <= i < lhs.len() implies lhs[i] == rhs[i] by {
        if i == 0 {
            assert(s.push(d)[s.len() as int] == d);
        } else {
            assert(s.push(d)[s.len() - i] == s[s.len() - i]);
        }
    }
    assert(lhs =~= rhs);
}

/// Appends the decimal rendering of `n` to `out`.
fn push_dec(out: &mut String, n: u128)
    ensures
        final(out)@ == old(out)@ + dec_chars(n as int),
{
    let ghost start: Seq<char> = out@;
    let mut digits: Vec<u8> = Vec::new();
    let mut m = n;
    proof {
        assert(dec_chars(n as int) =~= (if m >= 10 {
            dec_chars(m as int)
        } else {
            seq![digit_char(m as int)]
        }) + rev_digit_chars(digits@));
    }
    while m >= 10
        invariant
            dec_chars(n as int) == (if m >= 10 {
                dec_chars(m as int)
            } else {
                seq![digit_char(m as int)]
            }) + rev_digit_chars(digits@),
            forall|k: int| 0 <= k < digits@.len() ==> digits@[k] < 10,
        decreases m,
    {
        let d = (m % 10) as u8;
        proof {
            lemma_rev_push(digits@, d);
            assert(dec_chars(m as int) == dec_chars(m as int / 10) + seq![
                digit_char(m as int % 10),
            ]);
            assert(dec_chars(m as int) + rev_digit_chars(digits@) =~= dec_chars(m as int / 10)
                + rev_digit_chars(digits@.push(d)));
            if m / 10 < 10 {
                assert(dec_chars(m as int / 10) == seq![digit_char(m as int / 10)]);
            }
        }
        digits.push(d);
        m = m / 10;
    }
    let lead = digit_str(m as u8);
    out.append(lead);
    let ghost rev: Seq<char> = rev_digit_chars(digits@);
    proof {
        assert(dec_chars(n as int) == seq![digit_char(m as int)] + rev);
        assert(out@ =~= start + seq![digit_char(m as int)] + rev.subrange(
            0,
            digits@.len() - digits@.len(),
        ));
    }
    let mut i = digits.len();
    while i > 0
        invariant
            i <= digits@.len(),
            m < 10,
            forall|k: int| 0 <= k < digits@.len() ==> digits@[k] < 10,
            rev == rev_digit_chars(digits@),
            dec_chars(n as int) == seq![digit_char(m as int)] + rev,
            out@ == start + seq![digit_char(m as int)] + rev.subrange(0, digits@.len() - i),
        decreases i,
    {
        i = i - 1;
        let s = digit_str(digits[i]);
        out.append(s);
        proof {
            let k: int = digits@.len() - 1 - i;
            assert(rev[k] == digit_char(digits@[i as int] as int));
            assert(rev.subrange(0, k + 1) =~= rev.subrange(0, k) + seq![rev[k]]);
            assert(out@ =~= start + seq![digit_char(m as int)] + rev.subrange(0, k + 1));
        }
    }
    proof {
        assert(rev.subrange(0, digits@.len() as int) =~= rev);
        assert(out@ =~= start + dec_chars(n as int));
    }
}

/// Appends the two-decimal rendering of `m` ticks in the scale that has
/// `s` ticks per unit.
fn push_scaled(out: &mut String, m: u128, s: u128)
    requires
        s > 0,
        m <= FP_MAX as u128,
    ensures
        final(out)@ == old(out)@ + scaled_chars(m as int, s as int),
{
    let ghost start: Seq<char> = out@;
    let q = rdiv_u128(100 * m, s);
    push_dec(out, q / 100);
    let d1 = ((q / 10) % 10) as u8;
    let d2 = (q % 10) as u8;
    let s1 = digit_str(d1);
    let s2 = digit_str(d2);
    out.append(".");
    out.append(s1);
    out.append(s2);
    proof {
        reveal_strlit(".");
        assert(out@ =~= start + scaled_chars(m as int, s as int));
    }
}

impl Unit {
    /// The shortest human-readable rendering: the largest unit among TB,
    /// GB, MB, KB whose threshold the absolute quantity reaches gets two
    /// digits after the decimal point; below one kilobyte the quantity is
    /// rendered as a whole number of bytes. A negative quantity keeps its
    /// minus sign.
    pub fn to_display_string(&self) -> (r: String)
        ensures
            r@ == display_spec(self@),
    {
        let t = self.ticks_i128();
        let neg = t < 0;
        let m: u128 = if neg {
            (-t) as u128
        } else {
            t as u128
        };
        let tb: u128 = 1_099_511_627_776 * 10_000_000_000;
        let gb: u128 = 1_073_741_824 * 10_000_000_000;
        let mb: u128 = 1_048_576 * 10_000_000_000;
        let kb: u128 = 1_024 * 10_000_000_000;
        let mut out = String::new();
        if neg {
            out.append("-");
            proof {
                reveal_strlit("-");
            }
        }
        if m >= tb {
            push_scaled(&mut out, m, tb);
            out.append("TB");
            proof {
                reveal_strlit("TB");
                assert(out@ =~= display_spec(self@));
            }
        } else if m >= gb {
            push_scaled(&mut out, m, gb);
            out.append("GB");
            proof {
                reveal_strlit("GB");
                assert(out@ =~= display_spec(self@));
            }
        } else if m >= mb {
            push_scaled(&mut out, m, mb);
            out.append("MB");
            proof {
                reveal_strlit("MB");
                assert(out@ =~= display_spec(self@));
            }
        } else if m >= kb {
            push_scaled(&mut out, m, kb);
            out.append("KB");
            proof {
                reveal_strlit("KB");
                assert(out@ =~= display_spec(self@));
            }
        } else {
            let q = rdiv_u128(m, 10_000_000_000);
            push_dec(&mut out, q);
            out.append("B");
            proof {
                reveal_strlit("B");
                assert(out@ =~= display_spec(self@));
            }
        }
        out
    }
}

} // verus!
