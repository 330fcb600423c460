//! Fixed-point monetary amounts.
//!
//! An amount is a signed 64-bit count of ten-thousandths, i.e. a decimal
//! number with four fractional digits. Transaction records carry amounts as
//! decimal text (`"5"`, `"5."`, `"5.0"`, `"0.0001"`); this module gives that
//! text a meaning (`spec_amount`), parses it, and renders amounts back to
//! text with exactly four fractional digits.

use vstd::prelude::*;

verus! {

pub open spec fn is_digit(c: char) -> bool {
    48 <= c as int && c as int <= 57
}

pub open spec fn digit_val(c: char) -> int {
    c as int - 48
}

pub open spec fn all_digits(s: Seq<char>) -> bool {
    forall|i: int| 0 <= i < s.len() ==> is_digit(#[trigger] s[i])
}

/// The integer denoted by a string of decimal digits, most significant first.
pub open spec fn digits_val(s: Seq<char>) -> int
    decreases s.len(),
{
    if s.len() == 0 {
        0
    } else {
        digits_val(s.drop_last()) * 10 + digit_val(s.last())
    }
}

pub open spec fn pow10(n: nat) -> int
    decreases n,
{
    if n == 0 {
        1
    } else {
        10 * pow10((n - 1) as nat)
    }
}

/// A well-formed amount text splits at `k`: at least one digit before `k`,
/// and either nothing after, or a dot at `k` followed by at most four digits.
pub open spec fn valid_split(s: Seq<char>, k: int) -> bool {
    &&& 1 <= k <= s.len()
    &&& all_digits(s.subrange(0, k))
    &&& (k < s.len() ==> s[k] == '.' && s.len() - k - 1 <= 4 && all_digits(
        s.subrange(k + 1, s.len() as int),
    ))
}

pub open spec fn valid_amount(s: Seq<char>) -> bool {
    exists|k: int| valid_split(s, k)
}

pub open spec fn split_point(s: Seq<char>) -> int {
    choose|k: int| valid_split(s, k)
}

/// The value denoted when splitting at `k`, in ten-thousandths: the fraction
/// is right-padded with zeros to four digits.
pub open spec fn value_at(s: Seq<char>, k: int) -> int {
    let frac = if k < s.len() {
        s.subrange(k + 1, s.len() as int)
    } else {
        Seq::<char>::empty()
    };
    digits_val(s.subrange(0, k)) * 10000 + digits_val(frac) * pow10((4 - frac.len()) as nat)
}

/// What an amount text denotes, in ten-thousandths. Empty text stands for
/// zero; a well-formed decimal for its value; anything else for nothing.
pub open spec fn spec_amount(s: Seq<char>) -> Option<int> {
    if s.len() == 0 {
        Some(0int)
    } else if valid_amount(s) {
        Some(value_at(s, split_point(s)))
    } else {
        None
    }
}

/// `spec_amount` narrowed to what fits the fixed-point representation:
/// a denoted value beyond `i64::MAX` ten-thousandths parses to nothing.
pub open spec fn spec_amount_i64(s: Seq<char>) -> Option<i64> {
    match spec_amount(s) {
        Some(v) => if v <= i64::MAX {
            Some(v as i64)
        } else {
            None
        },
        None => None,
    }
}

/// A well-formed amount text has exactly one split point.
pub proof fn lemma_split_unique(s: Seq<char>, k1: int, k2: int)
    requires
        valid_split(s, k1),
        valid_split(s, k2),
    ensures
        k1 == k2,
{
    if k1 < k2 {
        assert(s.subrange(0, k2)[k1] == s[k1]);
        assert(false);
    }
    if k2 < k1 {
        assert(s.subrange(0, k1)[k2] == s[k2]);
        assert(false);
    }
}

pub proof fn lemma_digits_val_bounds(s: Seq<char>)
    requires
        all_digits(s),
    ensures
        0 <= digits_val(s),
        digits_val(s) < pow10(s.len()),
    decreases s.len(),
{
    if s.len() > 0 {
        assert(all_digits(s.drop_last())) by {
            assert(forall|i: int|
                0 <= i < s.len() - 1 ==> s.drop_last()[i] == #[trigger] s[i]);
        }
        lemma_digits_val_bounds(s.drop_last());
    }
}

/// Reading one more digit multiplies the prefix value by ten and adds it.
pub proof fn lemma_digits_step(s: Seq<char>, i: int)
    requires
        0 <= i < s.len(),
    ensures
        digits_val(s.subrange(0, i + 1)) == digits_val(s.subrange(0, i)) * 10 + digit_val(s[i]),
{
    let t = s.subrange(0, i + 1);
    assert(t.drop_last() =~= s.subrange(0, i));
    assert(t.last() == s[i]);
}

/// A digit string is worth at least any of its prefixes.
pub proof fn lemma_digits_prefix_le(s: Seq<char>, i: int)
    requires
        all_digits(s),
        0 <= i <= s.len(),
    ensures
        digits_val(s.subrange(0, i)) <= digits_val(s),
    decreases s.len() - i,
{
    if i == s.len() {
        assert(s.subrange(0, i) =~= s);
    } else {
        lemma_digits_step(s, i);
        assert(all_digits(s.subrange(0, i))) by {
            assert(forall|j: int| 0 <= j < i ==> s.subrange(0, i)[j] == #[trigger] s[j]);
        }
        lemma_digits_val_bounds(s.subrange(0, i));
        lemma_digits_prefix_le(s, i + 1);
    }
}

/// A denoted amount is never negative.
pub proof fn lemma_spec_amount_nonneg(s: Seq<char>)
    ensures
        spec_amount(s) matches Some(v) ==> v >= 0,
{
    if s.len() > 0 && valid_amount(s) {
        let k = split_point(s);
        lemma_digits_val_bounds(s.subrange(0, k));
        let frac = if k < s.len() {
            s.subrange(k + 1, s.len() as int)
        } else {
            Seq::<char>::empty()
        };
        lemma_digits_val_bounds(frac);
        lemma_pow10_pos((4 - frac.len()) as nat);
        vstd::arithmetic::mul::lemma_mul_nonnegative(digits_val(s.subrange(0, k)), 10000);
        vstd::arithmetic::mul::lemma_mul_nonnegative(
            digits_val(frac),
            pow10((4 - frac.len()) as nat),
        );
    }
}

pub proof fn lemma_pow10_pos(n: nat)
    ensures
        pow10(n) >= 1,
    decreases n,
{
    if n > 0 {
        lemma_pow10_pos((n - 1) as nat);
    }
}

fn digit_of(c: char) -> (r: Option<u32>)
    ensures
        r matches Some(d) ==> is_digit(c) && d == digit_val(c),
        r is None ==> !is_digit(c),
{
    let u = c as u32;
    if 48 <= u && u <= 57 {
        Some(u - 48)
    } else {
        None
    }
}

/// Parse an amount text into ten-thousandths. Returns the denoted value
/// exactly when it exists and fits the fixed-point range, and nothing on
/// malformed text or a value too large to represent.
pub fn parse_amount(s: &str) -> (r: Option<i64>)
    ensures
        r == spec_amount_i64(s@),
{
    proof {
        lemma_spec_amount_nonneg(s@);
    }
    let n = s.unicode_len();
    if n == 0 {
        return Some(0);
    }
    let mut i: usize = 0;
    let mut ip: i64 = 0;
    let mut saw_dot: bool = false;
    // Integer part: consume digits until the end or a dot.
    loop
        invariant_except_break
            !saw_dot,
        invariant
            n == s@.len(),
            0 <= i <= n,
            all_digits(s@.subrange(0, i as int)),
            0 <= ip,
            ip == digits_val(s@.subrange(0, i as int)),
        ensures
            n == s@.len(),
            0 <= i <= n,
            all_digits(s@.subrange(0, i as int)),
            0 <= ip,
            ip == digits_val(s@.subrange(0, i as int)),
            saw_dot ==> i < n && s@[i as int] == '.',
            !saw_dot ==> i == n,
        decreases n - i,
    {
        if i >= n {
            break;
        }
        let c = s.get_char(i);
        if c == '.' {
            saw_dot = true;
            break;
        }
        match digit_of(c) {
            None => {
                // Neither a digit nor a dot: no split point can be valid.
                proof {
                    lemma_no_split_bad_char(s@, i as int);
                }
                return None;
            },
            Some(d) => {
                let wide: i128 = (ip as i128) * 10 + (d as i128);
                proof {
                    lemma_digits_step(s@, i as int);
                    assert(all_digits(s@.subrange(0, i as int + 1))) by {
                        assert(forall|j: int|
                            0 <= j < i as int + 1 ==> s@.subrange(0, i as int + 1)[j]
                                == #[trigger] s@[j]);
                    }
                }
                if wide > i64::MAX as i128 {
                    // The digits read so far already exceed the fixed-point
                    // range, so the denoted value (if any) cannot fit.
                    proof {
                        lemma_overflow_in_integer_part(s@, i as int, wide as int);
                    }
                    return None;
                }
                ip = wide as i64;
            },
        }
        i += 1;
    }
    if !saw_dot {
        // Pure integer: the only split point is the whole text.
        proof {
            assert(valid_split(s@, n as int));
            lemma_split_unique(s@, n as int, split_point(s@));
            lemma_pow10_small();
            assert(value_at(s@, n as int) == ip * 10000 + digits_val(Seq::<char>::empty())
                * pow10(4));
        }
        let wide: i128 = (ip as i128) * 10000;
        if wide > i64::MAX as i128 {
            return None;
        }
        return Some(wide as i64);
    }
    // A dot at position i: the split point, if the text is valid at all, is i.
    let dot: usize = i;
    if dot == 0 {
        // A leading dot leaves no integer digit, so no split point is valid.
        proof {
            lemma_only_split_at_dot(s@, 0);
        }
        return None;
    }
    let fl = n - dot - 1;
    if fl > 4 {
        proof {
            lemma_only_split_at_dot(s@, dot as int);
        }
        return None;
    }
    let mut fv: i64 = 0;
    i = dot + 1;
    while i < n
        invariant
            n == s@.len(),
            dot < n,
            s@[dot as int] == '.',
            all_digits(s@.subrange(0, dot as int)),
            fl == n - dot - 1 <= 4,
            dot + 1 <= i <= n,
            all_digits(s@.subrange(dot as int + 1, i as int)),
            0 <= fv,
            fv == digits_val(s@.subrange(dot as int + 1, i as int)),
            fv < pow10((i - dot - 1) as nat),
        decreases n - i,
    {
        let c = s.get_char(i);
        match digit_of(c) {
            None => {
                proof {
                    lemma_only_split_at_dot(s@, dot as int);
                    assert(!all_digits(s@.subrange(dot as int + 1, n as int))) by {
                        assert(s@.subrange(dot as int + 1, n as int)[i - dot - 1] == s@[i as int]);
                    }
                }
                return None;
            },
            Some(d) => {
                proof {
                    lemma_frac_step(s@, dot as int, i as int);
                    lemma_pow10_mono((i - dot - 1) as nat, 3);
                    lemma_pow10_small();
                }
                fv = fv * 10 + (d as i64);
                i += 1;
            },
        }
    }
    let frac_scale: i64 = pow10_exec(4 - fl as u32);
    proof {
        lemma_pow10_pos((4 - fl) as nat);
        vstd::arithmetic::mul::lemma_mul_nonnegative(fv as int, pow10((4 - fl) as nat));
        lemma_frac_scaled_bound(fv as int, fl as nat);
    }
    let fs: i64 = fv * frac_scale;
    proof {
        assert(valid_split(s@, dot as int));
        lemma_split_unique(s@, dot as int, split_point(s@));
        assert(value_at(s@, dot as int) == ip * 10000 + fs);
    }
    let wide: i128 = (ip as i128) * 10000 + (fs as i128);
    if wide > i64::MAX as i128 {
        return None;
    }
    Some(wide as i64)
}

/// A scaled fraction of at most four digits stays below one whole unit.
proof fn lemma_frac_scaled_bound(fv: int, fl: nat)
    requires
        fl <= 4,
        0 <= fv,
        fv < pow10(fl),
    ensures
        fv * pow10((4 - fl) as nat) < 10000,
        fv * pow10((4 - fl) as nat) <= (pow10(fl) - 1) * pow10((4 - fl) as nat),
{
    let p = pow10((4 - fl) as nat);
    lemma_pow10_pos((4 - fl) as nat);
    vstd::arithmetic::mul::lemma_mul_inequality(fv, pow10(fl) - 1, p);
    assert(pow10(fl) * pow10((4 - fl) as nat) == 10000) by {
        lemma_pow10_add(fl, (4 - fl) as nat);
        lemma_pow10_small();
    }
    assert((pow10(fl) - 1) * p == pow10(fl) * p - p) by (nonlinear_arith);
}

pub proof fn lemma_pow10_mono(a: nat, b: nat)
    requires
        a <= b,
    ensures
        pow10(a) <= pow10(b),
    decreases b,
{
    if a < b {
        lemma_pow10_mono(a, (b - 1) as nat);
        lemma_pow10_pos((b - 1) as nat);
    }
}

pub proof fn lemma_pow10_small()
    ensures
        pow10(0) == 1,
        pow10(1) == 10,
        pow10(2) == 100,
        pow10(3) == 1000,
        pow10(4) == 10000,
{
    assert(pow10(0) == 1);
    assert(pow10(1) == 10);
    assert(pow10(2) == 100);
    assert(pow10(3) == 1000);
    assert(pow10(4) == 10000);
}

pub proof fn lemma_pow10_add(a: nat, b: nat)
    ensures
        pow10(a + b) == pow10(a) * pow10(b),
    decreases a,
{
    if a == 0 {
    } else {
        lemma_pow10_add((a - 1) as nat, b);
        assert(pow10(a + b) == 10 * pow10((a - 1) as nat + b));
        assert(10 * (pow10((a - 1) as nat) * pow10(b)) == (10 * pow10((a - 1) as nat)) * pow10(
            b,
        )) by (nonlinear_arith);
    }
}

/// A character that is neither a digit nor a dot, with only digits before it,
/// rules out every split point.
proof fn lemma_no_split_bad_char(s: Seq<char>, i: int)
    requires
        0 <= i < s.len(),
        all_digits(s.subrange(0, i)),
        !is_digit(s[i]),
        s[i] != '.',
    ensures
        !valid_amount(s),
{
    assert forall|k: int| !valid_split(s, k) by {
        if 1 <= k <= s.len() && all_digits(s.subrange(0, k)) {
            if k > i {
                assert(s.subrange(0, k)[i] == s[i]);
            } else {
                // k <= i < s.len(), so a valid split needs s[k] == '.',
                // but every position before i holds a digit.
                if k < i {
                    assert(s.subrange(0, i)[k] == s[k]);
                }
            }
        }
    }
}

/// With digits up to a dot, the dot is the only candidate split point, and a
/// leading dot rules every split point out.
proof fn lemma_only_split_at_dot(s: Seq<char>, dot: int)
    requires
        0 <= dot < s.len(),
        all_digits(s.subrange(0, dot)),
        s[dot] == '.',
    ensures
        forall|k: int| valid_split(s, k) ==> k == dot,
        dot == 0 ==> !valid_amount(s),
{
    assert forall|k: int| valid_split(s, k) implies k == dot by {
        if k > dot {
            assert(s.subrange(0, k)[dot] == s[dot]);
            assert(false);
        }
        if k < dot {
            assert(s.subrange(0, dot)[k] == s[k]);
            assert(false);
        }
    }
    if dot == 0 {
        assert(!valid_split(s, 0));
    }
}

/// If the integer digits read so far already exceed the representable range,
/// no denoted value of the whole text can fit.
proof fn lemma_overflow_in_integer_part(s: Seq<char>, i: int, w: int)
    requires
        0 <= i < s.len(),
        all_digits(s.subrange(0, i + 1)),
        w == digits_val(s.subrange(0, i + 1)),
        w > i64::MAX,
    ensures
        spec_amount(s) matches Some(v) ==> v > i64::MAX,
{
    if s.len() > 0 && valid_amount(s) {
        let k = split_point(s);
        assert(valid_split(s, k));
        // The split point lies beyond i: positions 0..=i hold digits, and a
        // split at or before i would put a dot where a digit stands.
        assert(k > i) by {
            if k <= i {
                assert(s.subrange(0, i + 1)[k] == s[k]);
                assert(is_digit(s[k]));
            }
        }
        let ipart = s.subrange(0, k);
        assert(s.subrange(0, i + 1) =~= ipart.subrange(0, i + 1));
        lemma_digits_prefix_le(ipart, i + 1);
        let frac = if k < s.len() {
            s.subrange(k + 1, s.len() as int)
        } else {
            Seq::<char>::empty()
        };
        lemma_digits_val_bounds(frac);
        lemma_pow10_pos((4 - frac.len()) as nat);
        vstd::arithmetic::mul::lemma_mul_nonnegative(
            digits_val(frac),
            pow10((4 - frac.len()) as nat),
        );
        assert(digits_val(ipart) * 10000 >= digits_val(ipart)) by (nonlinear_arith)
            requires
                digits_val(ipart) >= w > 0,
        ;
    }
}

/// The fraction-digit counterpart of `lemma_digits_step`.
proof fn lemma_frac_step(s: Seq<char>, dot: int, i: int)
    requires
        0 <= dot < i < s.len(),
        is_digit(s[i]),
        all_digits(s.subrange(dot + 1, i)),
    ensures
        all_digits(s.subrange(dot + 1, i + 1)),
        digits_val(s.subrange(dot + 1, i + 1)) == digits_val(s.subrange(dot + 1, i)) * 10
            + digit_val(s[i]),
        digits_val(s.subrange(dot + 1, i)) < pow10((i - dot - 1) as nat) ==> digits_val(
            s.subrange(dot + 1, i + 1),
        ) < pow10((i - dot) as nat),
{
    let t = s.subrange(dot + 1, i + 1);
    assert(forall|j: int| 0 <= j < t.len() - 1 ==> t[j] == #[trigger] s.subrange(dot + 1, i)[j]);
    assert(t.drop_last() =~= s.subrange(dot + 1, i));
    assert(t.last() == s[i]);
    assert(all_digits(t)) by {
        assert(forall|j: int| 0 <= j < t.len() ==> #[trigger] t[j] == s[dot + 1 + j]);
    }
    lemma_digits_val_bounds(s.subrange(dot + 1, i));
}

// ----- rendering amounts back to text -----

pub open spec fn digit_char(n: int) -> char {
    if n == 0 {
        '0'
    } else if n == 1 {
        '1'
    } else if n == 2 {
        '2'
    } else if n == 3 {
        '3'
    } else if n == 4 {
        '4'
    } else if n == 5 {
        '5'
    } else if n == 6 {
        '6'
    } else if n == 7 {
        '7'
    } else if n == 8 {
        '8'
    } else {
        '9'
    }
}

/// The usual decimal rendering of a nonnegative integer, no leading zeros
/// except for zero itself.
pub open spec fn dec_str(n: nat) -> Seq<char>
    decreases n,
{
    if n < 10 {
        seq![digit_char(n as int)]
    } else {
        dec_str(n / 10).push(digit_char((n % 10) as int))
    }
}

/// Four fraction digits, zero padded on the left.
pub open spec fn frac4(f: nat) -> Seq<char> {
    seq![
        digit_char(((f / 1000) % 10) as int),
        digit_char(((f / 100) % 10) as int),
        digit_char(((f / 10) % 10) as int),
        digit_char((f % 10) as int),
    ]
}

/// The rendering of an amount: optional minus sign, the whole units, a dot,
/// and exactly four fraction digits.
pub open spec fn amount_str(a: int) -> Seq<char> {
    let m = if a < 0 {
        -a
    } else {
        a
    };
    let sign = if a < 0 {
        seq!['-']
    } else {
        Seq::<char>::empty()
    };
    sign + dec_str((m / 10000) as nat) + seq!['.'] + frac4((m % 10000) as nat)
}

fn digit_str(d: u64) -> (r: &'static str)
    requires
        d < 10,
    ensures
        r@ == seq![digit_char(d as int)],
{
    proof {
        reveal_strlit("0");
        reveal_strlit("1");
        reveal_strlit("2");
        reveal_strlit("3");
        reveal_strlit("4");
        reveal_strlit("5");
        reveal_strlit("6");
        reveal_strlit("7");
        reveal_strlit("8");
        reveal_strlit("9");
    }
    let r = if d == 0 {
        "0"
    } else if d == 1 {
        "1"
    } else if d == 2 {
        "2"
    } else if d == 3 {
        "3"
    } else if d == 4 {
        "4"
    } else if d == 5 {
        "5"
    } else if d == 6 {
        "6"
    } else if d == 7 {
        "7"
    } else if d == 8 {
        "8"
    } else {
        "9"
    };
    proof {
        assert(r@ =~= seq![digit_char(d as int)]);
    }
    r
}

/// Append the decimal rendering of `n` to `out`.
pub fn append_dec(n: u64, out: &mut String)
    ensures
        final(out)@ == old(out)@ + dec_str(n as nat),
    decreases n,
{
    if n < 10 {
        out.append(digit_str(n));
        proof {
            assert(out@ =~= old(out)@ + dec_str(n as nat));
        }
    } else {
        append_dec(n / 10, out);
        out.append(digit_str(n % 10));
        proof {
            assert(out@ =~= old(out)@ + dec_str(n as nat));
        }
    }
}

/// Render an amount with four fraction digits, as in `-3.5` -> `"-3.5000"`.
pub fn format_amount(a: i64) -> (r: String)
    ensures
        r@ == amount_str(a as int),
{
    let neg = a < 0;
    let m: u64 = if neg {
        (-(a as i128)) as u64
    } else {
        a as u64
    };
    let mut out = String::new();
    if neg {
        out.append("-");
        proof {
            reveal_strlit("-");
        }
    }
    append_dec(m / 10000, &mut out);
    out.append(".");
    proof {
        reveal_strlit(".");
    }
    let f = m % 10000;
    out.append(digit_str((f / 1000) % 10));
    out.append(digit_str((f / 100) % 10));
    out.append(digit_str((f / 10) % 10));
    out.append(digit_str(f % 10));
    proof {
        assert(out@ =~= amount_str(a as int));
    }
    out
}

fn pow10_exec(e: u32) -> (r: i64)
    requires
        e <= 4,
    ensures
        r == pow10(e as nat),
        1 <= r <= 10000,
{
    proof {
        lemma_pow10_small();
    }
    if e == 0 {
        1
    } else if e == 1 {
        10
    } else if e == 2 {
        100
    } else if e == 3 {
        1000
    } else {
        10000
    }
}

} // verus!
