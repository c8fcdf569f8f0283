//! Decimal text for fixed-point values: rendering micro-unit values as
//! decimal strings and parsing decimal strings back into micro-units.

use vstd::prelude::*;
use vstd::string::StringExecFns;
use vstd::string::StringSliceAdditionalSpecFns;
use crate::fixed::{SCALE, VAL_MAX};

verus! {

/// The decimal digit characters of an unsigned number, most significant
/// first.
pub open spec fn dec_chars(n: nat) -> Seq<char>
    decreases n,
{
    if n < 10 {
        seq![((48 + n) as u8) as char]
    } else {
        dec_chars(n / 10).push(((48 + n % 10) as u8) as char)
    }
}

/// `k` zero characters.
pub open spec fn zeros(k: nat) -> Seq<char>
    decreases k,
{
    if k == 0 {
        Seq::empty()
    } else {
        zeros((k - 1) as nat).push('0')
    }
}

/// A fraction with its trailing decimal zeros removed.
pub open spec fn untrail(f: nat) -> nat
    decreases f,
{
    if f > 0 && f % 10 == 0 {
        untrail(f / 10)
    } else {
        f
    }
}

/// How many leading zeros a sub-unit fraction needs after the decimal point.
pub open spec fn frac_pad(f: nat) -> nat {
    if f < 10 {
        5
    } else if f < 100 {
        4
    } else if f < 1000 {
        3
    } else if f < 10000 {
        2
    } else if f < 100000 {
        1
    } else {
        0
    }
}

/// The decimal rendering of a micro-unit value: optional sign, whole part,
/// and, when the fraction is not zero, a point followed by the six-digit
/// fraction with its trailing zeros removed.
pub open spec fn fx_chars(v: int) -> Seq<char> {
    let mag = if v >= 0 {
        v
    } else {
        -v
    };
    let whole = mag / (SCALE as int);
    let frac = mag % (SCALE as int);
    let sign: Seq<char> = if v < 0 {
        seq!['-']
    } else {
        Seq::empty()
    };
    if frac == 0 {
        sign + dec_chars(whole as nat)
    } else {
        sign + dec_chars(whole as nat) + seq!['.'] + zeros(frac_pad(frac as nat)) + dec_chars(
            untrail(frac as nat),
        )
    }
}

/// Relies on `u64::to_string` (through `Display` for unsigned integers): the
/// plain decimal digit representation, no sign and no separators.
#[verifier::external_body]
pub(crate) fn u64_to_string(n: u64) -> (r: String)
    ensures
        r@ == dec_chars(n as nat),
{
    n.to_string()
}

/// Render a micro-unit value as decimal text.
pub fn fx_to_text(v: i64) -> (r: String)
    ensures
        r@ == fx_chars(v as int),
{
    proof {
        reveal_strlit("-");
        reveal_strlit(".");
        reveal_strlit("0");
    }
    let mut out = String::new();
    let mag: u64 = if v >= 0 {
        v as u64
    } else {
        (-(v as i128)) as u64
    };
    if v < 0 {
        out.append("-");
    }
    let whole: u64 = mag / (SCALE as u64);
    let frac: u64 = mag % (SCALE as u64);
    let wtext = u64_to_string(whole);
    out.append(wtext.as_str());
    if frac > 0 {
        out.append(".");
        let pad: u64 = if frac < 10 {
            5
        } else if frac < 100 {
            4
        } else if frac < 1000 {
            3
        } else if frac < 10000 {
            2
        } else if frac < 100000 {
            1
        } else {
            0
        };
        let ghost base = out@;
        let mut z: u64 = 0;
        while z < pad
            invariant
                z <= pad,
                out@ == base + zeros(z as nat),
            decreases pad - z,
        {
            proof {
                reveal_strlit("0");
                assert(zeros((z + 1) as nat) == zeros(z as nat).push('0'));
                assert(base + zeros((z + 1) as nat) =~= (base + zeros(z as nat)).push('0'));
                assert((base + zeros(z as nat)) + "0"@ =~= (base + zeros(z as nat)).push('0'));
            }
            out.append("0");
            z = z + 1;
        }
        proof {
            assert(out@ == base + zeros(frac_pad(frac as nat)));
        }
        let mut reduced: u64 = frac;
        while reduced % 10 == 0
            invariant
                reduced > 0,
                untrail(reduced as nat) == untrail(frac as nat),
            decreases reduced,
        {
            reduced = reduced / 10;
        }
        proof {
            assert(untrail(reduced as nat) == reduced as nat);
        }
        let ftext = u64_to_string(reduced);
        out.append(ftext.as_str());
        proof {
            assert(out@ =~= fx_chars(v as int));
        }
    } else {
        proof {
            assert(out@ =~= fx_chars(v as int));
        }
    }
    out
}

/// A decimal digit byte.
pub open spec fn is_digit(c: u8) -> bool {
    48 <= c <= 57
}

/// Every byte in [i, j) is a decimal digit.
pub open spec fn all_digits(b: Seq<u8>, i: int, j: int) -> bool {
    forall|k: int| i <= k < j ==> is_digit(#[trigger] b[k])
}

/// The value of the decimal digit run in [i, j).
pub open spec fn digits_val(b: Seq<u8>, i: int, j: int) -> int
    decreases j - i,
{
    if j <= i {
        0
    } else {
        digits_val(b, i, j - 1) * 10 + (b[j - 1] - 48)
    }
}

/// The first position at or after `from` holding a decimal point, or the
/// length when there is none.
pub open spec fn dot_pos(b: Seq<u8>, from: int) -> int
    decreases b.len() - from,
{
    if from < 0 || from >= b.len() {
        b.len() as int
    } else if b[from] == 46 {
        from
    } else {
        dot_pos(b, from + 1)
    }
}

/// Powers of ten.
pub open spec fn pow10(k: nat) -> int
    decreases k,
{
    if k == 0 {
        1
    } else {
        10 * pow10((k - 1) as nat)
    }
}

/// The micro-unit value a decimal byte string denotes: optional minus sign,
/// a nonempty digit run, optionally a point and a nonempty digit run of
/// which the first six digits count. Strings of any other shape, and values
/// beyond the admitted range, denote nothing.
pub open spec fn spec_parse_fixed(b: Seq<u8>) -> Option<i64> {
    let neg = b.len() > 0 && b[0] == 45;
    let s: int = if neg {
        1
    } else {
        0
    };
    let dot = dot_pos(b, s);
    if b.len() == 0 || dot == s || !all_digits(b, s, dot) {
        None
    } else if dot < b.len() && (dot + 1 == b.len() || !all_digits(b, dot + 1, b.len() as int)) {
        None
    } else {
        let fr_end: int = if dot < b.len() {
            if b.len() <= dot + 7 {
                b.len() as int
            } else {
                dot + 7
            }
        } else {
            dot
        };
        let frac: int = if dot < b.len() {
            digits_val(b, dot + 1, fr_end) * pow10((6 - (fr_end - dot - 1)) as nat)
        } else {
            0
        };
        let mag = digits_val(b, s, dot) * SCALE + frac;
        if mag <= VAL_MAX {
            Some((if neg {
                -mag
            } else {
                mag
            }) as i64)
        } else {
            None
        }
    }
}

/// The small powers of ten, by value.
proof fn lemma_pow10_values()
    ensures
        pow10(0) == 1,
        pow10(1) == 10,
        pow10(2) == 100,
        pow10(3) == 1000,
        pow10(4) == 10000,
        pow10(5) == 100_000,
        pow10(6) == 1_000_000,
{
    assert(pow10(0) == 1);
    assert(pow10(1) == 10);
    assert(pow10(2) == 100);
    assert(pow10(3) == 1000);
    assert(pow10(4) == 10000);
    assert(pow10(5) == 100_000);
    assert(pow10(6) == 1_000_000);
}

/// Powers of ten are monotone.
proof fn lemma_pow10_monotone(a: nat, b: nat)
    requires
        a <= b,
    ensures
        pow10(a) <= pow10(b),
    decreases b,
{
    if a < b {
        lemma_pow10_monotone(a, (b - 1) as nat);
        lemma_pow10_pos((b - 1) as nat);
    }
}

/// Powers of ten are positive.
proof fn lemma_pow10_pos(k: nat)
    ensures
        pow10(k) >= 1,
    decreases k,
{
    if k > 0 {
        lemma_pow10_pos((k - 1) as nat);
    }
}

/// A digit run's value is nonnegative and grows as digits are appended.
proof fn lemma_digits_val_grows(b: Seq<u8>, i: int, j: int, j2: int)
    requires
        0 <= i <= j <= j2 <= b.len(),
        all_digits(b, i, j2),
    ensures
        0 <= digits_val(b, i, j) <= digits_val(b, i, j2),
    decreases j2 - i + (j2 - j),
{
    if j2 <= i {
    } else if j == j2 {
        lemma_digits_val_grows(b, i, j - 1, j - 1);
        assert(digits_val(b, i, j) == digits_val(b, i, j - 1) * 10 + (b[j - 1] - 48));
        assert(digits_val(b, i, j - 1) * 10 >= digits_val(b, i, j - 1)) by (nonlinear_arith)
            requires
                digits_val(b, i, j - 1) >= 0,
        ;
    } else {
        lemma_digits_val_grows(b, i, j, j2 - 1);
        lemma_digits_val_grows(b, i, j2 - 1, j2 - 1);
        assert(digits_val(b, i, j2 - 1) * 10 >= digits_val(b, i, j2 - 1)) by (nonlinear_arith)
            requires
                digits_val(b, i, j2 - 1) >= 0,
        ;
    }
}

/// Scanning past non-points advances the first-point position.
proof fn lemma_dot_pos_step(b: Seq<u8>, from: int, k: int)
    requires
        0 <= from <= k <= b.len(),
        forall|j: int| from <= j < k ==> b[j] != 46,
    ensures
        dot_pos(b, from) == dot_pos(b, k),
    decreases k - from,
{
    if from < k {
        lemma_dot_pos_step(b, from + 1, k);
    }
}

/// Parse decimal text into a micro-unit value; text of any other shape, or a
/// value beyond the admitted range, parses to nothing.
#[verifier::loop_isolation(false)]
pub fn parse_fixed(s: &str) -> (r: Option<i64>)
    ensures
        r == spec_parse_fixed(s.spec_bytes()),
        r matches Some(v) ==> -VAL_MAX <= v <= VAL_MAX,
{
    let b = s.as_bytes();
    let n = b.len();
    let ghost bs = s.spec_bytes();
    if n == 0 {
        return None;
    }
    let neg = b[0] == 45;
    let start: usize = if neg {
        1
    } else {
        0
    };
    // find the first decimal point
    let mut dot: usize = start;
    while dot < n && b[dot] != 46
        invariant
            start <= dot <= n,
            n == bs.len(),
            b@ == bs,
            forall|j: int| start <= j < dot ==> bs[j] != 46,
        decreases n - dot,
    {
        dot = dot + 1;
    }
    proof {
        lemma_dot_pos_step(bs, start as int, dot as int);
        assert(dot_pos(bs, start as int) == dot as int);
    }
    if dot == start {
        return None;
    }
    // whole part
    let mut whole: u64 = 0;
    let mut k: usize = start;
    while k < dot
        invariant
            start <= k <= dot <= n,
            n == bs.len(),
            b@ == bs,
            all_digits(bs, start as int, k as int),
            whole as int == digits_val(bs, start as int, k as int),
            whole <= 100_009,
        decreases dot - k,
    {
        let c = b[k];
        if c < 48 || c > 57 {
            proof {
                assert(!is_digit(bs[k as int]));
                assert(!all_digits(bs, start as int, dot as int));
            }
            return None;
        }
        if whole > 10_000 {
            proof {
                if all_digits(bs, start as int, dot as int) {
                    lemma_digits_val_grows(bs, start as int, k as int, dot as int);
                    assert(digits_val(bs, start as int, dot as int) * SCALE > VAL_MAX)
                        by (nonlinear_arith)
                        requires
                            digits_val(bs, start as int, dot as int) > 10_000,
                            SCALE == 1_000_000,
                            VAL_MAX == 10_000_000_000,
                    ;
                    if dot < n && all_digits(bs, dot + 1, n as int) {
                        let fe: int = if n <= dot + 7 {
                            n as int
                        } else {
                            dot + 7
                        };
                        lemma_digits_val_grows(bs, dot + 1, fe, fe);
                        lemma_pow10_pos((6 - (fe - dot - 1)) as nat);
                        assert(digits_val(bs, dot + 1, fe) * pow10((6 - (fe - dot - 1)) as nat)
                            >= 0) by (nonlinear_arith)
                            requires
                                digits_val(bs, dot + 1, fe) >= 0,
                                pow10((6 - (fe - dot - 1)) as nat) >= 1,
                        ;
                    }
                }
            }
            return None;
        }
        whole = whole * 10 + ((c - 48) as u64);
        k = k + 1;
    }
    // fraction part
    let mut frac_digits: u64 = 0;
    let mut used: usize = 0;
    if dot < n {
        if dot + 1 == n {
            return None;
        }
        let mut j: usize = dot + 1;
        let fr_end: usize = if n - dot <= 7 {
            n
        } else {
            dot + 7
        };
        while j < n
            invariant
                dot + 1 <= j <= n,
                n == bs.len(),
                b@ == bs,
                fr_end == (if n <= dot + 7 {
                    n as int
                } else {
                    dot + 7
                }),
                all_digits(bs, dot + 1, j as int),
                used == (if j <= fr_end {
                    j - dot - 1
                } else {
                    fr_end - dot - 1
                }),
                frac_digits as int == digits_val(
                    bs,
                    dot + 1,
                    if j <= fr_end {
                        j as int
                    } else {
                        fr_end as int
                    },
                ),
                frac_digits < 1_000_000,
            decreases n - j,
        {
            let c = b[j];
            if c < 48 || c > 57 {
                proof {
                    assert(!is_digit(bs[j as int]));
                    assert(!all_digits(bs, dot + 1, n as int));
                }
                return None;
            }
            if j < fr_end {
                proof {
                    assert(frac_digits * 10 + (c - 48) < 10_000_000) by (nonlinear_arith)
                        requires
                            frac_digits < 1_000_000,
                            0 <= c - 48 <= 9,
                    ;
                    assert(frac_digits as int == digits_val(bs, dot + 1, j as int));
                    assert((j as int) - (dot + 1) < 6);
                    assert(frac_digits < 100_000) by {
                        lemma_digits_width(bs, dot + 1, j as int);
                        lemma_pow10_values();
                        lemma_pow10_monotone((j - dot - 1) as nat, 5);
                    };
                }
                frac_digits = frac_digits * 10 + ((c - 48) as u64);
                used = used + 1;
            }
            j = j + 1;
        }
    }
    // scale the fraction to six digits
    let mut scale_up: u64 = 1;
    let mut z: usize = used;
    proof {
        assert(pow10(0) == 1);
    }
    while z < 6
        invariant
            z <= 6,
            used <= z <= 6,
            scale_up as int == pow10((z - used) as nat),
            scale_up <= 1_000_000,
        decreases 6 - z,
    {
        proof {
            lemma_pow10_values();
            lemma_pow10_monotone(((z + 1) - used) as nat, 6);
            assert(pow10(((z + 1) - used) as nat) == 10 * pow10((z - used) as nat));
        }
        scale_up = scale_up * 10;
        z = z + 1;
    }
    proof {
        lemma_pow10_values();
        lemma_pow10_monotone((6 - used) as nat, 6);
    }
    proof {
        assert(0 <= (frac_digits as int) * (scale_up as int) < 1_000_000_000_000)
            by (nonlinear_arith)
            requires
                0 <= frac_digits < 1_000_000,
                1 <= scale_up <= 1_000_000,
        ;
    }
    let frac: u64 = frac_digits * scale_up;
    let mag: u64 = whole * (SCALE as u64) + frac;
    if mag > VAL_MAX as u64 {
        return None;
    }
    if neg {
        Some(-(mag as i64))
    } else {
        Some(mag as i64)
    }
}

/// A digit run of width w has value below 10^w.
proof fn lemma_digits_width(b: Seq<u8>, i: int, j: int)
    requires
        0 <= i <= j <= b.len(),
        all_digits(b, i, j),
    ensures
        0 <= digits_val(b, i, j) < pow10((j - i) as nat),
    decreases j - i,
{
    if j <= i {
    } else {
        lemma_digits_width(b, i, j - 1);
        assert(digits_val(b, i, j - 1) * 10 + (b[j - 1] - 48) < pow10((j - i) as nat))
            by (nonlinear_arith)
            requires
                0 <= digits_val(b, i, j - 1) < pow10((j - i - 1) as nat),
                0 <= b[j - 1] - 48 <= 9,
                pow10((j - i) as nat) == 10 * pow10((j - i - 1) as nat),
        ;
        assert(digits_val(b, i, j - 1) * 10 >= 0) by (nonlinear_arith)
            requires
                digits_val(b, i, j - 1) >= 0,
        ;
    }
}


/// Whatever the decimal parser accepts lies within the admitted value range.
pub proof fn lemma_parse_fixed_range(b: Seq<u8>)
    ensures
        spec_parse_fixed(b) matches Some(v) ==> -VAL_MAX <= v <= VAL_MAX,
{
    let neg = b.len() > 0 && b[0] == 45;
    let s: int = if neg {
        1
    } else {
        0
    };
    let dot = dot_pos(b, s);
    if !(b.len() == 0 || dot == s || !all_digits(b, s, dot)) && !(dot < b.len() && (dot + 1
        == b.len() || !all_digits(b, dot + 1, b.len() as int))) {
        lemma_dot_bounds(b, s);
        lemma_digits_val_grows(b, s, dot, dot);
        let fr_end: int = if dot < b.len() {
            if b.len() <= dot + 7 {
                b.len() as int
            } else {
                dot + 7
            }
        } else {
            dot
        };
        if dot < b.len() {
            lemma_digits_val_grows(b, dot + 1, fr_end, fr_end);
            lemma_pow10_pos((6 - (fr_end - dot - 1)) as nat);
            assert(digits_val(b, dot + 1, fr_end) * pow10((6 - (fr_end - dot - 1)) as nat) >= 0)
                by (nonlinear_arith)
                requires
                    digits_val(b, dot + 1, fr_end) >= 0,
                    pow10((6 - (fr_end - dot - 1)) as nat) >= 1,
            ;
        }
        assert(digits_val(b, s, dot) * SCALE >= 0) by (nonlinear_arith)
            requires
                digits_val(b, s, dot) >= 0,
                SCALE > 0,
        ;
    }
}

/// The first-point position lies between the scan start and the length.
proof fn lemma_dot_bounds(b: Seq<u8>, from: int)
    requires
        0 <= from <= b.len(),
    ensures
        from <= dot_pos(b, from) <= b.len(),
    decreases b.len() - from,
{
    if from < b.len() && b[from] != 46 {
        lemma_dot_bounds(b, from + 1);
    }
}

} // verus!
