//! Recognition and canonical rendering of numeric tokens.
//!
//! A token is numeric when it matches the decimal-float grammar
//! (optional sign, digits with an optional fraction, optional exponent)
//! and its magnitude stays below the overflow bound of a 64-bit binary
//! floating-point value; such a token is identified by a canonical decimal
//! rendering.  Everything here is plain character arithmetic: the value is
//! never rounded, only classified and rewritten.

use vstd::prelude::*;

verus! {

/// The decimal digits of the smallest magnitude that a 64-bit binary float
/// rounds up to infinity (two to the 1024th, less two to the 970th).  A
/// magnitude with 309 integer digits overflows exactly when those digits,
/// extended with zeros, reach this sequence.
pub const OVERFLOW_BOUND_DIGITS: &'static str =
    "17976931348623158079372897140530341507993413271003782693617377898044496829276475094664901797758720709633028641669288791094655554785194040263065748867150582068190890200070838367627385484581771153176447573027006985557136695962284291481986083493647529271907416844436551070434271155969950809304288017790417449779";

pub open spec fn is_digit_char(c: char) -> bool {
    48 <= c as u32 && c as u32 <= 57
}

/// The first index at or after `i` that does not hold a digit.
pub open spec fn digit_run(s: Seq<char>, i: int) -> int
    decreases s.len() - i when 0 <= i <= s.len()
{
    if i < s.len() && is_digit_char(s[i]) {
        digit_run(s, i + 1)
    } else {
        i
    }
}

pub proof fn lemma_digit_run_bounds(s: Seq<char>, i: int)
    requires
        0 <= i <= s.len(),
    ensures
        i <= digit_run(s, i) <= s.len(),
    decreases s.len() - i,
{
    if i < s.len() && is_digit_char(s[i]) {
        lemma_digit_run_bounds(s, i + 1);
    }
}

/// The first index in `[i, end)` that holds a character other than `'0'`,
/// or `end` when there is none.
pub open spec fn nonzero_from(s: Seq<char>, i: int, end: int) -> int
    decreases end - i when 0 <= i && i <= end && end <= s.len()
{
    if i < end && s[i] == '0' {
        nonzero_from(s, i + 1, end)
    } else {
        i
    }
}

/// One past the last index in `[start, j)` that holds a character other
/// than `'0'`, or `start` when there is none.
pub open spec fn nonzero_back(s: Seq<char>, start: int, j: int) -> int
    decreases j - start when 0 <= start && start <= j && j <= s.len()
{
    if j > start && s[j - 1] == '0' {
        nonzero_back(s, start, j - 1)
    } else {
        j
    }
}

/// The numeric value of the digit run `[i, j)`.
pub open spec fn digits_val(s: Seq<char>, i: int, j: int) -> int
    decreases j - i when 0 <= i && i <= j && j <= s.len()
{
    if j > i {
        digits_val(s, i, j - 1) * 10 + (s[j - 1] as u32 - 48)
    } else {
        0
    }
}

/// Length of the optional leading sign.
pub open spec fn sign_len(s: Seq<char>) -> int {
    if s.len() > 0 && (s[0] == '+' || s[0] == '-') {
        1
    } else {
        0
    }
}

/// End of the run of integer digits.
pub open spec fn int_end(s: Seq<char>) -> int {
    digit_run(s, sign_len(s))
}

pub open spec fn has_dot(s: Seq<char>) -> bool {
    int_end(s) < s.len() && s[int_end(s)] == '.'
}

/// Start of the run of fraction digits.
pub open spec fn frac_start(s: Seq<char>) -> int {
    int_end(s) + if has_dot(s) {
        1int
    } else {
        0int
    }
}

/// End of the run of fraction digits.
pub open spec fn frac_end(s: Seq<char>) -> int {
    digit_run(s, frac_start(s))
}

/// The mantissa holds at least one digit.
pub open spec fn mant_present(s: Seq<char>) -> bool {
    int_end(s) > sign_len(s) || frac_end(s) > frac_start(s)
}

/// The token continues past the mantissa with an exponent marker.
pub open spec fn has_exp(s: Seq<char>) -> bool {
    frac_end(s) < s.len() && (s[frac_end(s)] == 'e' || s[frac_end(s)] == 'E')
}

pub open spec fn exp_neg(s: Seq<char>) -> bool {
    has_exp(s) && frac_end(s) + 1 < s.len() && s[frac_end(s) + 1] == '-'
}

/// Start of the run of exponent digits.
pub open spec fn exp_digits_start(s: Seq<char>) -> int {
    frac_end(s) + 1 + if frac_end(s) + 1 < s.len() && (s[frac_end(s) + 1] == '+' || s[frac_end(s)
        + 1] == '-') {
        1int
    } else {
        0int
    }
}

/// The exponent part is absent, or is a sign and a nonempty digit run that
/// reaches the end of the token.
pub open spec fn exp_ok(s: Seq<char>) -> bool {
    if frac_end(s) == s.len() {
        true
    } else {
        has_exp(s) && exp_digits_start(s) < s.len() && digit_run(s, exp_digits_start(s))
            == s.len()
    }
}

/// The token matches the decimal-float grammar.
pub open spec fn is_numeric_shape(s: Seq<char>) -> bool {
    mant_present(s) && exp_ok(s)
}

/// The signed value of the exponent part, zero when absent.
pub open spec fn exp_val(s: Seq<char>) -> int {
    if frac_end(s) == s.len() {
        0
    } else if exp_neg(s) {
        -digits_val(s, exp_digits_start(s), s.len() as int)
    } else {
        digits_val(s, exp_digits_start(s), s.len() as int)
    }
}

/// Number of integer digits.
pub open spec fn int_len(s: Seq<char>) -> int {
    int_end(s) - sign_len(s)
}

/// Number of fraction digits.
pub open spec fn frac_len(s: Seq<char>) -> int {
    frac_end(s) - frac_start(s)
}

/// All mantissa digits, integer part then fraction part.
pub open spec fn mant(s: Seq<char>) -> Seq<char> {
    s.subrange(sign_len(s), int_end(s)) + s.subrange(frac_start(s), frac_end(s))
}

/// Index in `mant(s)` of the first significant (nonzero) digit, or the
/// mantissa length when every digit is zero.
pub open spec fn sig_first(s: Seq<char>) -> int {
    if nonzero_from(s, sign_len(s), int_end(s)) < int_end(s) {
        nonzero_from(s, sign_len(s), int_end(s)) - sign_len(s)
    } else if nonzero_from(s, frac_start(s), frac_end(s)) < frac_end(s) {
        int_len(s) + nonzero_from(s, frac_start(s), frac_end(s)) - frac_start(s)
    } else {
        int_len(s) + frac_len(s)
    }
}

/// One past the index in `mant(s)` of the last significant digit.
pub open spec fn sig_end(s: Seq<char>) -> int {
    if nonzero_back(s, frac_start(s), frac_end(s)) > frac_start(s) {
        int_len(s) + nonzero_back(s, frac_start(s), frac_end(s)) - frac_start(s)
    } else if nonzero_back(s, sign_len(s), int_end(s)) > sign_len(s) {
        nonzero_back(s, sign_len(s), int_end(s)) - sign_len(s)
    } else {
        0
    }
}

/// Every mantissa digit is zero: the token denotes zero.
pub open spec fn is_zero_mant(s: Seq<char>) -> bool {
    sig_first(s) == int_len(s) + frac_len(s)
}

/// The significant digits, leading and trailing zeros stripped.
pub open spec fn sig(s: Seq<char>) -> Seq<char> {
    mant(s).subrange(sig_first(s), sig_end(s))
}

/// The decimal position of the most significant digit: the token denotes
/// a magnitude in `[10^msd_exp, 10^(msd_exp + 1))`.
pub open spec fn msd_exp(s: Seq<char>) -> int {
    exp_val(s) - frac_len(s) + int_len(s) + frac_len(s) - sig_first(s) - 1
}

/// `a`, extended with zeros on the right, is lexicographically at or above
/// `t`; digit strings aligned at the same most significant position compare
/// this way exactly when their values do.
pub open spec fn lex_geq(a: Seq<char>, t: Seq<char>) -> bool
    decreases t.len(),
{
    if t.len() == 0 {
        true
    } else {
        let ac = if a.len() > 0 {
            a[0]
        } else {
            '0'
        };
        if ac as u32 > t[0] as u32 {
            true
        } else if (ac as u32) < t[0] as u32 {
            false
        } else {
            lex_geq(
                if a.len() > 0 {
                    a.drop_first()
                } else {
                    a
                },
                t.drop_first(),
            )
        }
    }
}

/// The token's magnitude rounds to infinity in a 64-bit float: its most
/// significant digit sits above position 308, or sits at 308 and the
/// significant digits reach the overflow bound.
pub open spec fn overflows(s: Seq<char>) -> bool {
    !is_zero_mant(s) && (msd_exp(s) > 308 || (msd_exp(s) == 308 && lex_geq(
        sig(s),
        OVERFLOW_BOUND_DIGITS@,
    )))
}

/// The token parses as a finite 64-bit float: it matches the grammar and
/// does not overflow.
pub open spec fn is_numeric_token(s: Seq<char>) -> bool {
    is_numeric_shape(s) && !overflows(s)
}

/// `n` zeros ( none when `n` is not positive ).
pub open spec fn zeros(n: int) -> Seq<char> {
    Seq::new(
        if n >= 0 {
            n as nat
        } else {
            0
        },
        |i: int| '0',
    )
}

pub open spec fn digit_char_of(n: int) -> char {
    if n == 0 {
        '0'
    } else if n == 1 {
        '1'
    } else if n == 2 {
        '2'
    } else if n == 3 {
        '3'
    } else if n == 4 {
        '4'
    } else if n == 5 {
        '5'
    } else if n == 6 {
        '6'
    } else if n == 7 {
        '7'
    } else if n == 8 {
        '8'
    } else {
        '9'
    }
}

/// The decimal rendering of a nonnegative number.
pub open spec fn nat_digits(n: int) -> Seq<char>
    decreases n when n >= 0
{
    if n < 10 {
        seq![digit_char_of(n)]
    } else {
        nat_digits(n / 10).push(digit_char_of(n % 10))
    }
}

/// The sign of the canonical rendering: kept exactly when the token starts
/// with a minus.
pub open spec fn canon_sign(s: Seq<char>) -> Seq<char> {
    if s.len() > 0 && s[0] == '-' {
        seq!['-']
    } else {
        Seq::<char>::empty()
    }
}

/// Plain rendering for a most significant digit at nonnegative position
/// `m`: integer digits, a point, and at least one fraction digit.
pub open spec fn canon_plain_pos(sg: Seq<char>, m: int) -> Seq<char> {
    if sg.len() > m + 1 {
        sg.subrange(0, m + 1) + seq!['.'] + sg.subrange(m + 1, sg.len() as int)
    } else {
        sg + zeros(m + 1 - sg.len()) + seq!['.', '0']
    }
}

/// Scientific rendering: one leading digit, a point, the remaining digits,
/// and the decimal position as exponent.
pub open spec fn canon_sci(sg: Seq<char>, m: int) -> Seq<char> {
    sg.subrange(0, 1) + seq!['.'] + (if sg.len() > 1 {
        sg.subrange(1, sg.len() as int)
    } else {
        seq!['0']
    }) + seq!['e'] + (if m < 0 {
        seq!['-']
    } else {
        Seq::<char>::empty()
    }) + nat_digits(if m < 0 {
        -m
    } else {
        m
    })
}

/// The canonical rendering of a numeric token.  A zero mantissa, and any
/// magnitude far enough below the smallest positive float, render as signed
/// zero; moderate positions render plainly, the rest scientifically.
pub open spec fn canon_of(s: Seq<char>) -> Seq<char> {
    if is_zero_mant(s) || msd_exp(s) < -324 {
        canon_sign(s) + seq!['0', '.', '0']
    } else if 0 <= msd_exp(s) <= 15 {
        canon_sign(s) + canon_plain_pos(sig(s), msd_exp(s))
    } else if -5 <= msd_exp(s) < 0 {
        canon_sign(s) + seq!['0', '.'] + zeros(-msd_exp(s) - 1) + sig(s)
    } else {
        canon_sign(s) + canon_sci(sig(s), msd_exp(s))
    }
}

/// What classification returns: the canonical rendering for a numeric
/// token, nothing for any other token.
pub open spec fn numeric_canon(s: Seq<char>) -> Option<Seq<char>> {
    if is_numeric_token(s) {
        Some(canon_of(s))
    } else {
        None
    }
}

fn is_digit_x(c: char) -> (r: bool)
    ensures
        r == is_digit_char(c),
{
    let u = c as u32;
    48 <= u && u <= 57
}

fn digit_run_x(s: &str, i: usize) -> (r: usize)
    requires
        i <= s@.len(),
    ensures
        r as int == digit_run(s@, i as int),
        i <= r <= s@.len(),
    decreases s@.len() - i,
{
    let n = s.unicode_len();
    if i < n && is_digit_x(s.get_char(i)) {
        digit_run_x(s, i + 1)
    } else {
        i
    }
}

fn nonzero_from_x(s: &str, i: usize, end: usize) -> (r: usize)
    requires
        i <= end,
        end <= s@.len(),
    ensures
        r as int == nonzero_from(s@, i as int, end as int),
        i <= r <= end,
    decreases end - i,
{
    if i < end && s.get_char(i) == '0' {
        nonzero_from_x(s, i + 1, end)
    } else {
        i
    }
}

fn nonzero_back_x(s: &str, start: usize, j: usize) -> (r: usize)
    requires
        start <= j,
        j <= s@.len(),
    ensures
        r as int == nonzero_back(s@, start as int, j as int),
        start <= r <= j,
    decreases j - start,
{
    if j > start && s.get_char(j - 1) == '0' {
        nonzero_back_x(s, start, j - 1)
    } else {
        j
    }
}

/// Saturation bound for the exponent value: far beyond every classification
/// threshold, yet small against what an `i128` holds.
const EXP_SAT: i128 = 0x1000_0000_0000_0000_0000_0000;

proof fn lemma_digits_val_nonneg(s: Seq<char>, i: int, j: int)
    requires
        0 <= i <= j <= s.len(),
        j <= digit_run(s, i),
    ensures
        digits_val(s, i, j) >= 0,
    decreases j - i,
{
    if j > i {
        lemma_digit_run_all(s, i, j - 1);
        lemma_digits_val_nonneg(s, i, j - 1);
    }
}

/// The value of the exponent digit run, saturated: exact up to `EXP_SAT`,
/// and anything beyond reported as a value above `EXP_SAT`.
fn exp_digits_val_x(s: &str, i: usize) -> (r: i128)
    requires
        i <= s@.len(),
        digit_run(s@, i as int) == s@.len(),
    ensures
        0 <= r <= EXP_SAT * 10 + 9,
        digits_val(s@, i as int, s@.len() as int) <= EXP_SAT ==> r == digits_val(
            s@,
            i as int,
            s@.len() as int,
        ),
        digits_val(s@, i as int, s@.len() as int) > EXP_SAT ==> r > EXP_SAT,
{
    let n = s.unicode_len();
    let mut acc: i128 = 0;
    let mut j = i;
    while j < n
        invariant
            i <= j <= n,
            n == s@.len(),
            digit_run(s@, i as int) == s@.len(),
            0 <= acc <= EXP_SAT * 10 + 9,
            digits_val(s@, i as int, j as int) <= EXP_SAT ==> acc == digits_val(
                s@,
                i as int,
                j as int,
            ),
            digits_val(s@, i as int, j as int) > EXP_SAT ==> acc > EXP_SAT,
        decreases n - j,
    {
        proof {
            lemma_digit_run_all(s@, i as int, j as int);
            lemma_digits_val_nonneg(s@, i as int, j as int);
        }
        let c = s.get_char(j);
        assert(is_digit_char(s@[j as int]));
        let d = (c as u32) - 48;
        if acc <= EXP_SAT {
            acc = acc * 10 + (d as i128);
        }
        j = j + 1;
        proof {
            assert(digits_val(s@, i as int, j as int) == digits_val(s@, i as int, j - 1) * 10 + (
            s@[j - 1] as u32 - 48));
        }
    }
    acc
}

fn digit_str(d: u32) -> (r: &'static str)
    requires
        d < 10,
    ensures
        r@ == seq![digit_char_of(d as int)],
{
    proof {
        reveal_strlit("0");
        reveal_strlit("1");
        reveal_strlit("2");
        reveal_strlit("3");
        reveal_strlit("4");
        reveal_strlit("5");
        reveal_strlit("6");
        reveal_strlit("7");
        reveal_strlit("8");
        reveal_strlit("9");
    }
    let r = match d {
        0 => "0",
        1 => "1",
        2 => "2",
        3 => "3",
        4 => "4",
        5 => "5",
        6 => "6",
        7 => "7",
        8 => "8",
        _ => "9",
    };
    proof {
        assert(r@ =~= seq![digit_char_of(d as int)]);
    }
    r
}

/// Appends `k` zero digits.
fn append_zeros(out: &mut String, k: usize)
    ensures
        final(out)@ == old(out)@ + zeros(k as int),
{
    proof {
        reveal_strlit("0");
    }
    let mut j: usize = 0;
    while j < k
        invariant
            j <= k,
            out@ == old(out)@ + zeros(j as int),
        decreases k - j,
    {
        out.append("0");
        j = j + 1;
        proof {
            reveal_strlit("0");
            assert(out@ =~= old(out)@ + zeros(j as int));
        }
    }
    proof {
        assert(out@ =~= old(out)@ + zeros(k as int));
    }
}

/// Appends the decimal rendering of `v`.
fn append_small_int(out: &mut String, v: u32)
    requires
        v < 1000,
    ensures
        final(out)@ == old(out)@ + nat_digits(v as int),
{
    proof {
        reveal_with_fuel(nat_digits, 4);
        assert((v as int / 10) / 10 == v as int / 100) by (nonlinear_arith);
        assert(v as int / 10 % 10 == (v as int / 10) % 10);
    }
    if v >= 100 {
        out.append(digit_str(v / 100));
        out.append(digit_str((v / 10) % 10));
        out.append(digit_str(v % 10));
        proof {
            assert(out@ =~= old(out)@ + nat_digits(v as int));
        }
    } else if v >= 10 {
        out.append(digit_str(v / 10));
        out.append(digit_str(v % 10));
        proof {
            assert(out@ =~= old(out)@ + nat_digits(v as int));
        }
    } else {
        out.append(digit_str(v));
        proof {
            assert(out@ =~= old(out)@ + nat_digits(v as int));
        }
    }
}

/// The mantissa digit at position `d`, read from the token.
fn mant_char_x(token: &str, sl: usize, ie: usize, fs: usize, fe: usize, d: usize) -> (c: char)
    requires
        sl as int == sign_len(token@),
        ie as int == int_end(token@),
        fs as int == frac_start(token@),
        fe as int == frac_end(token@),
        0 <= d < int_len(token@) + frac_len(token@),
    ensures
        c == mant(token@)[d as int],
{
    proof {
        lemma_digit_run_bounds(token@, sign_len(token@));
        lemma_digit_run_bounds(token@, frac_start(token@));
    }
    if d < ie - sl {
        token.get_char(sl + d)
    } else {
        token.get_char(fs + (d - (ie - sl)))
    }
}

/// Appends the mantissa digits `[a, b)`, read from the token.
fn append_mant_range(
    out: &mut String,
    token: &str,
    sl: usize,
    ie: usize,
    fs: usize,
    fe: usize,
    a: usize,
    b: usize,
)
    requires
        sl as int == sign_len(token@),
        ie as int == int_end(token@),
        fs as int == frac_start(token@),
        fe as int == frac_end(token@),
        a <= b,
        b as int <= int_len(token@) + frac_len(token@),
    ensures
        final(out)@ == old(out)@ + mant(token@).subrange(a as int, b as int),
{
    proof {
        lemma_digit_run_bounds(token@, sign_len(token@));
        lemma_digit_run_bounds(token@, frac_start(token@));
    }
    let il = ie - sl;
    if b <= il {
        out.append(token.substring_char(sl + a, sl + b));
        proof {
            assert(out@ =~= old(out)@ + mant(token@).subrange(a as int, b as int));
        }
    } else if a >= il {
        out.append(token.substring_char(fs + (a - il), fs + (b - il)));
        proof {
            assert(out@ =~= old(out)@ + mant(token@).subrange(a as int, b as int));
        }
    } else {
        out.append(token.substring_char(sl + a, ie));
        out.append(token.substring_char(fs, fs + (b - il)));
        proof {
            assert(out@ =~= old(out)@ + mant(token@).subrange(a as int, b as int));
        }
    }
}

/// Whether the significant digits, zero-extended, reach the overflow bound.
fn lex_geq_x(token: &str, sl: usize, ie: usize, fs: usize, fe: usize, a: usize, b: usize) -> (r:
    bool)
    requires
        sl as int == sign_len(token@),
        ie as int == int_end(token@),
        fs as int == frac_start(token@),
        fe as int == frac_end(token@),
        a <= b,
        b as int <= int_len(token@) + frac_len(token@),
    ensures
        r == lex_geq(mant(token@).subrange(a as int, b as int), OVERFLOW_BOUND_DIGITS@),
{
    let ghost sg = mant(token@).subrange(a as int, b as int);
    proof {
        lemma_digit_run_bounds(token@, sign_len(token@));
        lemma_digit_run_bounds(token@, frac_start(token@));
        assert(mant(token@).len() == int_len(token@) + frac_len(token@));
        assert(sg.skip(0) =~= sg);
        assert(OVERFLOW_BOUND_DIGITS@.skip(0) =~= OVERFLOW_BOUND_DIGITS@);
    }
    let tn = OVERFLOW_BOUND_DIGITS.unicode_len();
    let sig_len = b - a;
    let mut k: usize = 0;
    while k < tn
        invariant
            k <= tn,
            tn == OVERFLOW_BOUND_DIGITS@.len(),
            sg == mant(token@).subrange(a as int, b as int),
            sig_len as int == b - a,
            sg.len() == b - a,
            mant(token@).len() == int_len(token@) + frac_len(token@),
            sl as int == sign_len(token@),
            ie as int == int_end(token@),
            fs as int == frac_start(token@),
            fe as int == frac_end(token@),
            a <= b,
            b as int <= int_len(token@) + frac_len(token@),
            lex_geq(sg, OVERFLOW_BOUND_DIGITS@) == lex_geq(
                sg.skip(if k < sg.len() {
                    k as int
                } else {
                    sg.len() as int
                }),
                OVERFLOW_BOUND_DIGITS@.skip(k as int),
            ),
        decreases tn - k,
    {
        let ghost sk: int = if k < sg.len() {
            k as int
        } else {
            sg.len() as int
        };
        let ac = if k < sig_len {
            mant_char_x(token, sl, ie, fs, fe, a + k)
        } else {
            '0'
        };
        proof {
            assert(sg.skip(sk).len() == sg.len() - sk);
            if k < sig_len {
                assert(sg.skip(sk)[0] == sg[k as int]);
                assert(sg[k as int] == mant(token@)[a + k]);
            }
        }
        let tc = OVERFLOW_BOUND_DIGITS.get_char(k);
        if (ac as u32) > (tc as u32) {
            return true;
        }
        if (ac as u32) < (tc as u32) {
            return false;
        }
        k = k + 1;
        proof {
            let sk2: int = if k < sg.len() {
                k as int
            } else {
                sg.len() as int
            };
            assert(sg.skip(sk).drop_first() =~= sg.skip(sk2) || sg.skip(sk).len() == 0);
            if sg.skip(sk).len() == 0 {
                assert(sg.skip(sk) =~= sg.skip(sk2));
            }
            assert(OVERFLOW_BOUND_DIGITS@.skip(k - 1).drop_first() =~= OVERFLOW_BOUND_DIGITS@.skip(
                k as int,
            ));
        }
    }
    proof {
        assert(lex_geq(sg.skip(if (k as int) < sg.len() {
            k as int
        } else {
            sg.len() as int
        }), OVERFLOW_BOUND_DIGITS@.skip(k as int)));
    }
    true
}

/// A forward scan that stops inside the range stops on a nonzero
/// character.
proof fn lemma_nonzero_from_found(s: Seq<char>, i: int, end: int)
    requires
        0 <= i <= end <= s.len(),
        nonzero_from(s, i, end) < end,
    ensures
        s[nonzero_from(s, i, end)] != '0',
    decreases end - i,
{
    if i < end && s[i] == '0' {
        lemma_nonzero_from_found(s, i + 1, end);
    }
}

/// A nonzero character inside the range keeps the backward scan from
/// passing it.
proof fn lemma_nonzero_back_finds(s: Seq<char>, start: int, j: int, q: int)
    requires
        0 <= start <= q < j <= s.len(),
        s[q] != '0',
    ensures
        nonzero_back(s, start, j) > q,
    decreases j - start,
{
    if j - 1 > q && s[j - 1] == '0' {
        lemma_nonzero_back_finds(s, start, j - 1, q);
    }
}

/// The boundary indices always stand in order within the token.
proof fn lemma_shape_bounds(s: Seq<char>)
    ensures
        0 <= sign_len(s) <= int_end(s) <= frac_start(s) <= frac_end(s) <= s.len(),
        mant(s).len() == int_len(s) + frac_len(s),
{
    lemma_digit_run_bounds(s, sign_len(s));
    lemma_digit_run_bounds(s, frac_start(s));
}

/// The absolute value of the exponent part, zero when absent.
pub open spec fn exp_abs(s: Seq<char>) -> int {
    if frac_end(s) == s.len() {
        0
    } else {
        digits_val(s, exp_digits_start(s), s.len() as int)
    }
}

/// The boundary indices of a token that matches the grammar, with the
/// exponent magnitude saturated at `EXP_SAT`.
#[derive(Clone, Copy)]
struct NumShape {
    sl: usize,
    ie: usize,
    fs: usize,
    fe: usize,
    eneg: bool,
    esat: i128,
}

impl NumShape {
    spec fn wf(self, s: Seq<char>) -> bool {
        &&& self.sl as int == sign_len(s)
        &&& self.ie as int == int_end(s)
        &&& self.fs as int == frac_start(s)
        &&& self.fe as int == frac_end(s)
        &&& self.eneg == exp_neg(s)
        &&& 0 <= self.esat <= EXP_SAT * 10 + 9
        &&& (exp_abs(s) <= EXP_SAT ==> self.esat == exp_abs(s))
        &&& (exp_abs(s) > EXP_SAT ==> self.esat > EXP_SAT)
    }
}

/// First pass: the grammar check and the boundary scan.
fn scan_shape(token: &str) -> (r: Option<NumShape>)
    ensures
        r is Some <==> is_numeric_shape(token@),
        r matches Some(sh) ==> sh.wf(token@),
{
    let n = token.unicode_len();
    let sl: usize = if n > 0 && (token.get_char(0) == '+' || token.get_char(0) == '-') {
        1
    } else {
        0
    };
    assert(sl as int == sign_len(token@));
    let ie = digit_run_x(token, sl);
    let hd = ie < n && token.get_char(ie) == '.';
    assert(hd == has_dot(token@));
    let fs = if hd {
        ie + 1
    } else {
        ie
    };
    assert(fs as int == frac_start(token@));
    let fe = digit_run_x(token, fs);
    if !(ie > sl || fe > fs) {
        assert(!mant_present(token@));
        return None;
    }
    let mut eneg = false;
    let mut esat: i128 = 0;
    if fe < n {
        let ec = token.get_char(fe);
        if !(ec == 'e' || ec == 'E') {
            assert(!exp_ok(token@));
            return None;
        }
        let mut ds = fe + 1;
        if ds < n {
            let sc = token.get_char(ds);
            if sc == '-' {
                eneg = true;
                ds = ds + 1;
            } else if sc == '+' {
                ds = ds + 1;
            }
        }
        assert(ds as int == exp_digits_start(token@));
        assert(eneg == exp_neg(token@));
        if ds >= n {
            assert(!exp_ok(token@));
            return None;
        }
        let de = digit_run_x(token, ds);
        if de != n {
            assert(!exp_ok(token@));
            return None;
        }
        esat = exp_digits_val_x(token, ds);
    }
    assert(is_numeric_shape(token@));
    Some(NumShape { sl, ie, fs, fe, eneg, esat })
}

/// Second pass: the significant-digit range within the mantissa; the range
/// starts at the mantissa length exactly when every digit is zero.
fn sig_range(token: &str, sl: usize, ie: usize, fs: usize, fe: usize) -> (r: (usize, usize))
    requires
        sl as int == sign_len(token@),
        ie as int == int_end(token@),
        fs as int == frac_start(token@),
        fe as int == frac_end(token@),
    ensures
        r.0 as int == sig_first(token@),
        r.0 as int <= int_len(token@) + frac_len(token@),
        (r.0 as int) < int_len(token@) + frac_len(token@) ==> r.1 as int == sig_end(token@)
            && r.0 < r.1 && r.1 as int <= int_len(token@) + frac_len(token@),
{
    proof {
        lemma_shape_bounds(token@);
    }
    let il = ie - sl;
    let fl = fe - fs;
    let dlen = il + fl;
    let nzi = nonzero_from_x(token, sl, ie);
    if nzi < ie {
        proof {
            lemma_nonzero_from_found(token@, sl as int, ie as int);
        }
        let nzb = nonzero_back_x(token, fs, fe);
        if nzb > fs {
            (nzi - sl, il + (nzb - fs))
        } else {
            proof {
                lemma_nonzero_back_finds(token@, sl as int, ie as int, nzi as int);
            }
            let bi = nonzero_back_x(token, sl, ie);
            (nzi - sl, bi - sl)
        }
    } else {
        let nzf = nonzero_from_x(token, fs, fe);
        if nzf < fe {
            proof {
                lemma_nonzero_from_found(token@, fs as int, fe as int);
                lemma_nonzero_back_finds(token@, fs as int, fe as int, nzf as int);
            }
            let nzb = nonzero_back_x(token, fs, fe);
            (il + (nzf - fs), il + (nzb - fs))
        } else {
            (dlen, dlen)
        }
    }
}

/// Third pass: the decimal position of the most significant digit.  The
/// result is exact throughout the classification range and merely on the
/// right side of it beyond.
fn msd_position(token: &str, sh: NumShape, d_first: usize) -> (m: i128)
    requires
        is_numeric_shape(token@),
        sh.wf(token@),
        d_first as int == sig_first(token@),
        (d_first as int) < int_len(token@) + frac_len(token@),
    ensures
        -324 <= m <= 308 ==> m == msd_exp(token@),
        m > 308 ==> msd_exp(token@) > 308,
        m < -324 ==> msd_exp(token@) < -324,
{
    proof {
        lemma_shape_bounds(token@);
    }
    let fl = sh.fe - sh.fs;
    let dlen = (sh.ie - sh.sl) + fl;
    let e_signed: i128 = if sh.eneg {
        -sh.esat
    } else {
        sh.esat
    };
    let m: i128 = e_signed - (fl as i128) + (dlen as i128) - (d_first as i128) - 1;
    proof {
        if frac_end(token@) < token@.len() {
            lemma_digits_val_nonneg(token@, exp_digits_start(token@), token@.len() as int);
        }
        if exp_abs(token@) <= EXP_SAT {
            assert(e_signed == exp_val(token@));
            assert(m == msd_exp(token@));
        } else {
            assert(sh.esat > EXP_SAT);
            if sh.eneg {
                assert(m < -324);
                assert(msd_exp(token@) < -324);
            } else {
                assert(m > 308);
                assert(msd_exp(token@) > 308);
            }
        }
    }
    m
}

/// Renders a value that is zero, or too small in magnitude to sit at any
/// printable position: a signed zero.
fn render_zero(token: &str, neg: bool) -> (r: String)
    requires
        neg == (token@.len() > 0 && token@[0] == '-'),
        is_zero_mant(token@) || msd_exp(token@) < -324,
    ensures
        r@ == canon_of(token@),
{
    let mut out = String::new();
    proof {
        reveal_strlit("-");
        reveal_strlit("0.0");
    }
    if neg {
        out.append("-");
    }
    out.append("0.0");
    proof {
        assert(out@ =~= canon_of(token@));
    }
    out
}

/// Renders a most significant digit at position 0 through 15: integer
/// digits, a point, and at least one fraction digit.
fn render_plain_pos(
    token: &str,
    sl: usize,
    ie: usize,
    fs: usize,
    fe: usize,
    neg: bool,
    d_first: usize,
    d_end: usize,
    mi: usize,
) -> (r: String)
    requires
        sl as int == sign_len(token@),
        ie as int == int_end(token@),
        fs as int == frac_start(token@),
        fe as int == frac_end(token@),
        neg == (token@.len() > 0 && token@[0] == '-'),
        d_first as int == sig_first(token@),
        d_end as int == sig_end(token@),
        (d_first as int) < int_len(token@) + frac_len(token@),
        d_first < d_end,
        d_end as int <= int_len(token@) + frac_len(token@),
        mi as int == msd_exp(token@),
        mi <= 15,
    ensures
        r@ == canon_of(token@),
{
    let mut out = String::new();
    proof {
        reveal_strlit("-");
    }
    if neg {
        out.append("-");
    }
    assert(out@ == canon_sign(token@));
    proof {
        lemma_shape_bounds(token@);
    }
    let sig_count = d_end - d_first;
    if sig_count > mi + 1 {
        append_mant_range(&mut out, token, sl, ie, fs, fe, d_first, d_first + mi + 1);
        proof {
            reveal_strlit(".");
        }
        out.append(".");
        append_mant_range(&mut out, token, sl, ie, fs, fe, d_first + mi + 1, d_end);
        proof {
            assert(sig(token@).subrange(0, mi + 1) =~= mant(token@).subrange(
                d_first as int,
                d_first + mi + 1,
            ));
            assert(sig(token@).subrange(mi + 1, sig(token@).len() as int) =~= mant(
                token@,
            ).subrange(d_first + mi + 1, d_end as int));
            assert(out@ =~= canon_of(token@));
        }
    } else {
        append_mant_range(&mut out, token, sl, ie, fs, fe, d_first, d_end);
        append_zeros(&mut out, mi + 1 - sig_count);
        proof {
            reveal_strlit(".0");
        }
        out.append(".0");
        proof {
            assert(sig(token@) =~= mant(token@).subrange(d_first as int, d_end as int));
            assert(out@ =~= canon_of(token@));
        }
    }
    out
}

/// Renders a most significant digit at position -5 through -1: a zero, a
/// point, filler zeros, then the significant digits.
fn render_plain_neg(
    token: &str,
    sl: usize,
    ie: usize,
    fs: usize,
    fe: usize,
    neg: bool,
    d_first: usize,
    d_end: usize,
    zcount: usize,
) -> (r: String)
    requires
        sl as int == sign_len(token@),
        ie as int == int_end(token@),
        fs as int == frac_start(token@),
        fe as int == frac_end(token@),
        neg == (token@.len() > 0 && token@[0] == '-'),
        d_first as int == sig_first(token@),
        d_end as int == sig_end(token@),
        (d_first as int) < int_len(token@) + frac_len(token@),
        d_first < d_end,
        d_end as int <= int_len(token@) + frac_len(token@),
        -5 <= msd_exp(token@) < 0,
        zcount as int == -msd_exp(token@) - 1,
    ensures
        r@ == canon_of(token@),
{
    let mut out = String::new();
    proof {
        reveal_strlit("-");
        reveal_strlit("0.");
    }
    if neg {
        out.append("-");
    }
    assert(out@ == canon_sign(token@));
    out.append("0.");
    append_zeros(&mut out, zcount);
    append_mant_range(&mut out, token, sl, ie, fs, fe, d_first, d_end);
    proof {
        lemma_shape_bounds(token@);
        assert(sig(token@) =~= mant(token@).subrange(d_first as int, d_end as int));
        assert(out@ =~= canon_of(token@));
    }
    out
}

/// Renders any other position scientifically: one leading digit, a point,
/// the remaining digits, and the position as exponent.
#[verifier::rlimit(100)]
fn render_sci(
    token: &str,
    sl: usize,
    ie: usize,
    fs: usize,
    fe: usize,
    neg: bool,
    d_first: usize,
    d_end: usize,
    m: i128,
) -> (r: String)
    requires
        sl as int == sign_len(token@),
        ie as int == int_end(token@),
        fs as int == frac_start(token@),
        fe as int == frac_end(token@),
        neg == (token@.len() > 0 && token@[0] == '-'),
        d_first as int == sig_first(token@),
        d_end as int == sig_end(token@),
        (d_first as int) < int_len(token@) + frac_len(token@),
        d_first < d_end,
        d_end as int <= int_len(token@) + frac_len(token@),
        m as int == msd_exp(token@),
        -324 <= m <= 308,
        !(0 <= m <= 15),
        !(-5 <= m < 0),
    ensures
        r@ == canon_of(token@),
{
    let mut out = String::new();
    proof {
        reveal_strlit("-");
    }
    if neg {
        out.append("-");
    }
    assert(out@ == canon_sign(token@));
    proof {
        lemma_shape_bounds(token@);
    }
    let sig_count = d_end - d_first;
    append_mant_range(&mut out, token, sl, ie, fs, fe, d_first, d_first + 1);
    proof {
        reveal_strlit(".");
        assert(sig(token@).subrange(0, 1) =~= mant(token@).subrange(
            d_first as int,
            d_first + 1,
        ));
    }
    out.append(".");
    if sig_count > 1 {
        append_mant_range(&mut out, token, sl, ie, fs, fe, d_first + 1, d_end);
        proof {
            assert(sig(token@).subrange(1, sig(token@).len() as int) =~= mant(token@).subrange(
                d_first + 1,
                d_end as int,
            ));
        }
    } else {
        proof {
            reveal_strlit("0");
        }
        out.append("0");
    }
    proof {
        reveal_strlit("e");
    }
    out.append("e");
    if m < 0 {
        out.append("-");
        append_small_int(&mut out, (-m) as u32);
    } else {
        append_small_int(&mut out, m as u32);
    }
    proof {
        assert(out@ =~= canon_of(token@));
    }
    out
}

/// Classification: the canonical rendering for a token that parses as a
/// finite 64-bit float, nothing for any other token.
pub fn canonical_form(token: &str) -> (r: Option<String>)
    ensures
        r is Some <==> is_numeric_token(token@),
        r matches Some(c) ==> c@ == canon_of(token@),
{
    let sh = match scan_shape(token) {
        Some(sh) => sh,
        None => {
            return None;
        },
    };
    proof {
        lemma_shape_bounds(token@);
    }
    let pair = sig_range(token, sh.sl, sh.ie, sh.fs, sh.fe);
    let d_first = pair.0;
    let d_end = pair.1;
    let dlen = (sh.ie - sh.sl) + (sh.fe - sh.fs);
    let neg = sh.sl == 1 && token.get_char(0) == '-';
    assert(neg == (token@.len() > 0 && token@[0] == '-'));
    if d_first == dlen {
        assert(is_zero_mant(token@));
        assert(!overflows(token@));
        return Some(render_zero(token, neg));
    }
    let m = msd_position(token, sh, d_first);
    if m > 308 {
        assert(overflows(token@));
        return None;
    }
    if m == 308 {
        if lex_geq_x(token, sh.sl, sh.ie, sh.fs, sh.fe, d_first, d_end) {
            assert(overflows(token@));
            return None;
        }
    }
    assert(!overflows(token@));
    assert(is_numeric_token(token@));
    if m < -324 {
        return Some(render_zero(token, neg));
    }
    if 0 <= m && m <= 15 {
        return Some(
            render_plain_pos(token, sh.sl, sh.ie, sh.fs, sh.fe, neg, d_first, d_end, m as usize),
        );
    }
    if -5 <= m && m < 0 {
        return Some(
            render_plain_neg(
                token,
                sh.sl,
                sh.ie,
                sh.fs,
                sh.fe,
                neg,
                d_first,
                d_end,
                ((-m) as usize) - 1,
            ),
        );
    }
    Some(render_sci(token, sh.sl, sh.ie, sh.fs, sh.fe, neg, d_first, d_end, m))
}

/// Every index inside a digit run holds a digit.
proof fn lemma_digit_run_all(s: Seq<char>, i: int, k: int)
    requires
        0 <= i <= s.len(),
        i <= k < digit_run(s, i),
    ensures
        is_digit_char(s[k]),
    decreases k - i,
{
    lemma_digit_run_bounds(s, i);
    if k > i {
        lemma_digit_run_all(s, i + 1, k);
    }
}

} // verus!
