//! Fixed-point decimal numbers: a value is held as a count of
//! `10^-FRAC_DIGITS` units in an `i64`, within `-LIMIT ..= LIMIT`.
//! Reading a number literal (a decimal with an optional exponent) and
//! writing a magnitude back as text.
use vstd::prelude::*;

verus! {

/// Number of fractional decimal digits a value can hold.
pub const FRAC_DIGITS: u32 = 9;

/// Units that make up the value one.
pub const UNIT: i64 = 1_000_000_000;

/// Largest magnitude of a value, in units.
pub const LIMIT: i64 = 9_223_372_036_854_775_807;

pub open spec fn pow10(n: nat) -> int
    decreases n,
{
    if n == 0 {
        1
    } else {
        10 * pow10((n - 1) as nat)
    }
}

/// A count of units that a value can hold.
pub open spec fn fits(v: int) -> bool {
    -LIMIT <= v <= LIMIT
}

pub open spec fn is_digit(c: char) -> bool {
    '0' <= c && c <= '9'
}

pub open spec fn digit_val(c: char) -> int {
    c as int - '0' as int
}

pub open spec fn digit_char(d: int) -> char {
    ((d + 48) as u8) as char
}

/// The digits of `s`, with every `.` left out.
pub open spec fn digits_of(s: Seq<char>) -> Seq<char>
    decreases s.len(),
{
    if s.len() == 0 {
        s
    } else if s.last() == '.' {
        digits_of(s.drop_last())
    } else {
        digits_of(s.drop_last()).push(s.last())
    }
}

/// The number that the decimal digit string `s` denotes.
pub open spec fn digits_value(s: Seq<char>) -> int
    decreases s.len(),
{
    if s.len() == 0 {
        0
    } else {
        10 * digits_value(s.drop_last()) + digit_val(s.last())
    }
}

pub open spec fn dot_count(s: Seq<char>) -> nat
    decreases s.len(),
{
    if s.len() == 0 {
        0
    } else {
        dot_count(s.drop_last()) + if s.last() == '.' { 1nat } else { 0nat }
    }
}

/// Number of characters after the `.` of `s` (zero without one).
pub open spec fn frac_len(s: Seq<char>) -> nat
    decreases s.len(),
{
    if s.len() == 0 || s.last() == '.' {
        0
    } else if dot_count(s.drop_last()) > 0 {
        frac_len(s.drop_last()) + 1
    } else {
        0
    }
}

/// `s` without its leading minus sign, if it has one.
pub open spec fn literal_body(s: Seq<char>) -> Seq<char> {
    if s.len() > 0 && s[0] == '-' {
        s.skip(1)
    } else {
        s
    }
}

pub open spec fn literal_negative(s: Seq<char>) -> bool {
    s.len() > 0 && s[0] == '-'
}

/// A decimal: an optional `-`, then digits with at most one `.` among
/// them, and at least one digit.
pub open spec fn is_decimal(s: Seq<char>) -> bool {
    let b = literal_body(s);
    &&& forall|i: int| 0 <= i < b.len() ==> is_digit(b[i]) || b[i] == '.'
    &&& dot_count(b) <= 1
    &&& digits_of(b).len() > 0
}

/// The magnitude of the literal `s` in units (for at most `FRAC_DIGITS`
/// fractional digits).
pub open spec fn decimal_magnitude(s: Seq<char>) -> int {
    let b = literal_body(s);
    digits_value(digits_of(b)) * pow10((FRAC_DIGITS - frac_len(b)) as nat)
}

/// The value of the literal `s` in units.
pub open spec fn decimal_units(s: Seq<char>) -> int {
    if literal_negative(s) {
        -decimal_magnitude(s)
    } else {
        decimal_magnitude(s)
    }
}

/// The digit value of the decimal `s`, its `.` left out.
pub open spec fn decimal_digits(s: Seq<char>) -> int {
    digits_value(digits_of(literal_body(s)))
}

/// The decimal `s` can be held exactly.
pub open spec fn decimal_representable(s: Seq<char>) -> bool {
    frac_len(literal_body(s)) <= FRAC_DIGITS && fits(decimal_units(s))
}

pub open spec fn is_exp_mark(c: char) -> bool {
    c == 'e' || c == 'E'
}

/// Position of the first `e` or `E` in `s`, or its length when there is none.
pub open spec fn exp_mark(s: Seq<char>) -> int
    decreases s.len(),
{
    if s.len() == 0 {
        0
    } else if exp_mark(s.drop_last()) < s.len() - 1 {
        exp_mark(s.drop_last())
    } else if is_exp_mark(s.last()) {
        s.len() - 1
    } else {
        s.len() as int
    }
}

pub open spec fn has_exponent(s: Seq<char>) -> bool {
    exp_mark(s) < s.len()
}

/// The part of a literal before its exponent.
pub open spec fn mantissa(s: Seq<char>) -> Seq<char> {
    s.take(exp_mark(s))
}

/// The part of a literal after its exponent mark.
pub open spec fn exponent_text(s: Seq<char>) -> Seq<char> {
    s.skip(exp_mark(s) + 1)
}

/// An exponent: an optional `-`, then at least one digit.
pub open spec fn is_exponent(t: Seq<char>) -> bool {
    literal_body(t).len() > 0 && all_digits(literal_body(t))
}

pub open spec fn exponent_value(t: Seq<char>) -> int {
    if literal_negative(t) {
        -digits_value(literal_body(t))
    } else {
        digits_value(literal_body(t))
    }
}

/// A literal: a decimal, optionally followed by `e` or `E` and an exponent.
pub open spec fn is_literal(s: Seq<char>) -> bool {
    is_decimal(mantissa(s)) && (has_exponent(s) ==> is_exponent(exponent_text(s)))
}

/// The power of ten by which the digit value of the mantissa is scaled to
/// give units.
pub open spec fn literal_shift(s: Seq<char>) -> int {
    FRAC_DIGITS - frac_len(literal_body(mantissa(s))) + if has_exponent(s) {
        exponent_value(exponent_text(s))
    } else {
        0
    }
}

/// The magnitude of the literal `s` in units (for a non-negative shift).
pub open spec fn literal_magnitude(s: Seq<char>) -> int {
    decimal_digits(mantissa(s)) * pow10(literal_shift(s) as nat)
}

/// The value of the literal `s` in units.
pub open spec fn literal_units(s: Seq<char>) -> int {
    if literal_negative(mantissa(s)) {
        -literal_magnitude(s)
    } else {
        literal_magnitude(s)
    }
}

/// The literal `s` can be held exactly: it has no digits below `10^-9`
/// and its value fits.
pub open spec fn literal_representable(s: Seq<char>) -> bool {
    literal_shift(s) >= 0 && fits(literal_units(s))
}

/// Why a literal could not be read.
#[derive(Debug, Clone, Copy, PartialEq, Eq, Structural)]
pub enum NumberError {
    /// The text is not a decimal literal.
    Invalid,
    /// The literal has too many fractional digits or too large a magnitude.
    OutOfRange,
}

pub proof fn lemma_pow10_positive(n: nat)
    ensures
        pow10(n) >= 1,
    decreases n,
{
    if n > 0 {
        lemma_pow10_positive((n - 1) as nat);
    }
}

proof fn lemma_digits_value_grows(s: Seq<char>, j: int)
    requires
        0 <= j <= s.len(),
        forall|i: int| 0 <= i < s.len() ==> is_digit(s[i]) || s[i] == '.',
    ensures
        0 <= digits_value(digits_of(s.take(j))) <= digits_value(digits_of(s)),
    decreases s.len(),
{
    if s.len() == 0 {
        assert(s.take(j) =~= s);
    } else {
        let d = s.drop_last();
        let c = s.last();
        assert(is_digit(c) || c == '.');
        if j == s.len() {
            assert(s.take(j) =~= s);
            lemma_digits_value_grows(d, d.len() as int);
            assert(d.take(d.len() as int) =~= d);
        } else {
            assert(d.take(j) =~= s.take(j));
            lemma_digits_value_grows(d, j);
        }
        if c != '.' {
            let x = digits_of(d);
            assert(digits_of(s) == x.push(c));
            assert(x.push(c).drop_last() =~= x);
            assert(digits_value(x.push(c)) == 10 * digits_value(x) + digit_val(c));
        }
    }
}

proof fn lemma_pow10_mono(a: nat, b: nat)
    requires
        a <= b,
    ensures
        1 <= pow10(a) <= pow10(b),
    decreases b,
{
    lemma_pow10_positive(a);
    if a < b {
        lemma_pow10_mono(a, (b - 1) as nat);
    }
}

proof fn lemma_pow10_small(n: nat)
    requires
        n <= FRAC_DIGITS,
    ensures
        1 <= pow10(n) <= 1_000_000_000,
{
    lemma_pow10_mono(n, 9);
    assert(pow10(9) == 1_000_000_000) by {
        reveal_with_fuel(pow10, 10);
    }
}

proof fn lemma_pow10_18()
    ensures
        pow10(18) == 1_000_000_000_000_000_000,
        pow10(19) == 10_000_000_000_000_000_000,
{
    reveal_with_fuel(pow10, 20);
}

fn pow10_exec(n: u32) -> (r: i128)
    requires
        n <= 18,
    ensures
        r == pow10(n as nat),
{
    let mut r: i128 = 1;
    let mut i: u32 = 0;
    while i < n
        invariant
            i <= n <= 18,
            r == pow10(i as nat),
            r <= 1_000_000_000_000_000_000,
        decreases n - i,
    {
        assert(pow10((i + 1) as nat) == 10 * pow10(i as nat));
        proof {
            lemma_pow10_mono((i + 1) as nat, 18);
            lemma_pow10_18();
        }
        r = r * 10;
        i = i + 1;
    }
    r
}

/// Reads the decimal `s` into its digit value and number of fractional
/// digits; the digit value is left out when it exceeds `LIMIT`.
fn decimal_parts(s: &Vec<char>) -> (r: Option<(Option<i128>, usize)>)
    ensures
        r is None <==> !is_decimal(s@),
        r matches Some((d, f)) ==> {
            &&& f == frac_len(literal_body(s@))
            &&& (d is Some <==> decimal_digits(s@) <= LIMIT)
            &&& (d is Some ==> d->Some_0 == decimal_digits(s@))
            &&& decimal_digits(s@) >= 0
        },
{
    let neg = s.len() > 0 && s[0] == '-';
    let start: usize = if neg { 1 } else { 0 };
    let ghost b = literal_body(s@);
    let n = s.len();
    let mut i: usize = start;
    let mut dots: usize = 0;
    let mut ndigits: usize = 0;
    let mut frac: usize = 0;
    assert(b.take(0) =~= seq![]);
    while i < n
        invariant
            start <= i <= n == s@.len(),
            b == s@.skip(start as int),
            b == literal_body(s@),
            dots == dot_count(b.take(i - start)),
            dots <= 1,
            ndigits == digits_of(b.take(i - start)).len(),
            frac == frac_len(b.take(i - start)),
            frac <= i,
            ndigits <= i,
            forall|k: int| 0 <= k < i - start ==> is_digit(b[k]) || b[k] == '.',
        decreases n - i,
    {
        let c = s[i];
        let ghost t = b.take(i + 1 - start);
        assert(t.drop_last() =~= b.take(i - start));
        assert(t.last() == c);
        if c == '.' {
            if dots == 1 {
                assert(dot_count(t) == dot_count(t.drop_last()) + 1);
                assert(!is_decimal(s@)) by {
                    lemma_dot_count_grows(b, i + 1 - start);
                }
                return None;
            }
            dots = dots + 1;
            frac = 0;
        } else if '0' <= c && c <= '9' {
            ndigits = ndigits + 1;
            if dots > 0 {
                frac = frac + 1;
            }
        } else {
            assert(!is_decimal(s@)) by {
                assert(b[i - start] == c);
                assert(!(is_digit(b[i - start]) || b[i - start] == '.'));
            }
            return None;
        }
        i = i + 1;
    }
    assert(b.take(n - start) =~= b);
    if ndigits == 0 {
        return None;
    }
    assert(is_decimal(s@));
    let mut acc: i128 = 0;
    let mut j: usize = start;
    while j < n
        invariant
            start <= j <= n == s@.len(),
            b == s@.skip(start as int),
            b == literal_body(s@),
            is_decimal(s@),
            frac == frac_len(b),
            forall|k: int| 0 <= k < b.len() ==> is_digit(b[k]) || b[k] == '.',
            acc == digits_value(digits_of(b.take(j - start))),
            0 <= acc <= LIMIT,
        decreases n - j,
    {
        let c = s[j];
        let ghost t = b.take(j + 1 - start);
        assert(t.drop_last() =~= b.take(j - start));
        assert(t.last() == c);
        if c != '.' {
            let d: i128 = (c as u32 - '0' as u32) as i128;
            let next = acc * 10 + d;
            assert(digits_of(t) == digits_of(t.drop_last()).push(c));
            assert(digits_of(t).drop_last() =~= digits_of(t.drop_last()));
            if next > LIMIT as i128 {
                proof {
                    lemma_digits_value_grows(b, j + 1 - start);
                }
                return Some((None, frac));
            }
            acc = next;
        }
        j = j + 1;
    }
    assert(b.take(n - start) =~= b);
    proof {
        lemma_digits_value_grows(b, 0);
    }
    Some((Some(acc), frac))
}

proof fn lemma_dot_count_grows(s: Seq<char>, j: int)
    requires
        0 <= j <= s.len(),
    ensures
        dot_count(s.take(j)) <= dot_count(s),
    decreases s.len(),
{
    if j == s.len() {
        assert(s.take(j) =~= s);
    } else {
        let d = s.drop_last();
        assert(d.take(j) =~= s.take(j));
        lemma_dot_count_grows(d, j);
    }
}

/// Decimal digits of `n`, without leading zeros.
pub open spec fn nat_text(n: nat) -> Seq<char>
    decreases n,
{
    if n < 10 {
        seq![digit_char(n as int)]
    } else {
        nat_text(n / 10).push(digit_char((n % 10) as int))
    }
}

/// The last `w` decimal digits of `n`, with leading zeros.
pub open spec fn fixed_text(n: nat, w: nat) -> Seq<char>
    decreases w,
{
    if w == 0 {
        seq![]
    } else {
        fixed_text(n / 10, (w - 1) as nat).push(digit_char((n % 10) as int))
    }
}

/// `s` without its trailing `0` characters.
pub open spec fn trim_zeros(s: Seq<char>) -> Seq<char>
    decreases s.len(),
{
    if s.len() > 0 && s.last() == '0' {
        trim_zeros(s.drop_last())
    } else {
        s
    }
}

/// The shortest decimal text of the magnitude of `m` units: the whole part,
/// then a `.` and the fractional digits if any are non-zero.
pub open spec fn magnitude_text(m: nat) -> Seq<char> {
    let whole = nat_text(m / (UNIT as nat));
    let f = m % (UNIT as nat);
    if f == 0 {
        whole
    } else {
        whole + seq!['.'] + trim_zeros(fixed_text(f, FRAC_DIGITS as nat))
    }
}

fn digit_char_exec(d: u64) -> (c: char)
    requires
        d < 10,
    ensures
        c == digit_char(d as int),
{
    ((d as u8) + 48u8) as char
}

fn push_nat_text(out: &mut Vec<char>, n: u64)
    ensures
        final(out)@ == old(out)@ + nat_text(n as nat),
    decreases n,
{
    if n >= 10 {
        push_nat_text(out, n / 10);
    }
    out.push(digit_char_exec(n % 10));
    assert(final(out)@ =~= old(out)@ + nat_text(n as nat));
}

fn push_fixed_text(out: &mut Vec<char>, n: u64, w: u32)
    ensures
        final(out)@ == old(out)@ + fixed_text(n as nat, w as nat),
    decreases w,
{
    if w == 0 {
        assert(final(out)@ =~= old(out)@ + fixed_text(n as nat, w as nat));
        return;
    }
    push_fixed_text(out, n / 10, w - 1);
    out.push(digit_char_exec(n % 10));
    assert(final(out)@ =~= old(out)@ + fixed_text(n as nat, w as nat));
}

/// The text of the magnitude of a value of `m` units.
pub fn magnitude_chars(m: u64) -> (r: Vec<char>)
    ensures
        r@ == magnitude_text(m as nat),
{
    let mut r: Vec<char> = Vec::new();
    push_nat_text(&mut r, m / (UNIT as u64));
    let f = m % (UNIT as u64);
    if f == 0 {
        assert(r@ =~= magnitude_text(m as nat));
        return r;
    }
    let mut frac: Vec<char> = Vec::new();
    push_fixed_text(&mut frac, f, FRAC_DIGITS);
    let ghost full = frac@;
    while frac.len() > 0 && frac[frac.len() - 1] == '0'
        invariant
            trim_zeros(frac@) == trim_zeros(full),
        decreases frac.len(),
    {
        frac.pop();
    }
    r.push('.');
    let mut i: usize = 0;
    let ghost w = r@;
    while i < frac.len()
        invariant
            i <= frac@.len(),
            r@ == w + frac@.take(i as int),
        decreases frac.len() - i,
    {
        r.push(frac[i]);
        i = i + 1;
        assert(r@ =~= w + frac@.take(i as int));
    }
    assert(frac@.take(i as int) =~= frac@);
    assert(r@ =~= magnitude_text(m as nat));
    r
}

proof fn lemma_digit_char(d: int)
    requires
        0 <= d < 10,
    ensures
        is_digit(digit_char(d)),
        digit_val(digit_char(d)) == d,
{
}

proof fn lemma_pow10_add(a: nat, b: nat)
    ensures
        pow10(a) * pow10(b) == pow10(a + b),
    decreases b,
{
    if b > 0 {
        lemma_pow10_add(a, (b - 1) as nat);
        assert(pow10(a + b) == 10 * pow10((a + b - 1) as nat));
        assert(pow10(a) * (10 * pow10((b - 1) as nat)) == 10 * (pow10(a) * pow10((b - 1) as nat)))
            by (nonlinear_arith);
    }
}

/// Only digits.
pub open spec fn all_digits(s: Seq<char>) -> bool {
    forall|i: int| 0 <= i < s.len() ==> is_digit(s[i])
}

proof fn lemma_value_concat(a: Seq<char>, b: Seq<char>)
    ensures
        digits_value(a + b) == digits_value(a) * pow10(b.len()) + digits_value(b),
    decreases b.len(),
{
    if b.len() == 0 {
        assert(a + b =~= a);
    } else {
        let b1 = b.drop_last();
        lemma_value_concat(a, b1);
        assert((a + b).drop_last() =~= a + b1);
        assert((a + b).last() == b.last());
        let va = digits_value(a);
        let p = pow10(b1.len());
        assert(pow10(b.len()) == 10 * p);
        assert(10 * (va * p + digits_value(b1)) == va * (10 * p) + 10 * digits_value(b1))
            by (nonlinear_arith);
    }
}

proof fn lemma_nat_text(n: nat)
    ensures
        digits_value(nat_text(n)) == n,
        all_digits(nat_text(n)),
        nat_text(n).len() > 0,
    decreases n,
{
    if n < 10 {
        lemma_digit_char(n as int);
        let s = seq![digit_char(n as int)];
        assert(s.drop_last() =~= Seq::<char>::empty());
        assert(digits_value(Seq::<char>::empty()) == 0);
        assert(digits_value(s) == 10 * digits_value(s.drop_last()) + digit_val(s.last()));
    } else {
        lemma_nat_text(n / 10);
        lemma_digit_char((n % 10) as int);
        let s = nat_text(n / 10);
        let r = s.push(digit_char((n % 10) as int));
        assert(r.drop_last() =~= s);
        assert(digits_value(r) == 10 * digits_value(s) + digit_val(r.last()));
        assert(10 * (n / 10) + n % 10 == n);
    }
}

proof fn lemma_fixed_text(n: nat, w: nat)
    requires
        n < pow10(w),
    ensures
        digits_value(fixed_text(n, w)) == n,
        all_digits(fixed_text(n, w)),
        fixed_text(n, w).len() == w,
    decreases w,
{
    if w > 0 {
        assert(pow10(w) == 10 * pow10((w - 1) as nat));
        lemma_fixed_text(n / 10, (w - 1) as nat);
        lemma_digit_char((n % 10) as int);
        let s = fixed_text(n / 10, (w - 1) as nat);
        assert(s.push(digit_char((n % 10) as int)).drop_last() =~= s);
    }
}

proof fn lemma_trim_zeros(s: Seq<char>)
    requires
        all_digits(s),
    ensures
        trim_zeros(s).len() <= s.len(),
        trim_zeros(s) =~= s.take(trim_zeros(s).len() as int),
        digits_value(s) == digits_value(trim_zeros(s)) * pow10(
            (s.len() - trim_zeros(s).len()) as nat,
        ),
    decreases s.len(),
{
    if s.len() > 0 && s.last() == '0' {
        let s1 = s.drop_last();
        lemma_trim_zeros(s1);
        let t = trim_zeros(s1);
        let k = (s1.len() - t.len()) as nat;
        assert(s1.take(t.len() as int) =~= s.take(t.len() as int));
        assert(pow10(k + 1) == 10 * pow10(k));
        assert(10 * (digits_value(t) * pow10(k)) == digits_value(t) * (10 * pow10(k)))
            by (nonlinear_arith);
    } else {
        assert(s.take(s.len() as int) =~= s);
    }
}

proof fn lemma_dotless(s: Seq<char>)
    requires
        all_digits(s),
    ensures
        digits_of(s) == s,
        dot_count(s) == 0,
        frac_len(s) == 0,
    decreases s.len(),
{
    if s.len() > 0 {
        lemma_dotless(s.drop_last());
        assert(s.drop_last().push(s.last()) =~= s);
    }
}

proof fn lemma_after_dot(a: Seq<char>, t: Seq<char>)
    requires
        all_digits(a),
        all_digits(t),
    ensures
        digits_of(a + seq!['.'] + t) == a + t,
        dot_count(a + seq!['.'] + t) == 1,
        frac_len(a + seq!['.'] + t) == t.len(),
    decreases t.len(),
{
    let s = a + seq!['.'] + t;
    if t.len() == 0 {
        lemma_dotless(a);
        assert(s.drop_last() =~= a);
        assert(a + t =~= a);
    } else {
        let t1 = t.drop_last();
        lemma_after_dot(a, t1);
        assert(s.drop_last() =~= a + seq!['.'] + t1);
        assert(s.last() == t.last());
        assert((a + t1).push(t.last()) =~= a + t);
    }
}

/// The text of a magnitude reads back as a literal of the same value.
pub proof fn lemma_magnitude_reads_back(m: nat)
    requires
        m <= LIMIT,
    ensures
        is_literal(magnitude_text(m)),
        literal_representable(magnitude_text(m)),
        literal_units(magnitude_text(m)) == m,
        is_decimal(magnitude_text(m)),
        decimal_representable(magnitude_text(m)),
        decimal_units(magnitude_text(m)) == m,
        magnitude_text(m).len() > 0,
        forall|i: int|
            0 <= i < magnitude_text(m).len() ==> is_digit(#[trigger] magnitude_text(m)[i])
                || magnitude_text(m)[i] == '.',
{
    let w = m / (UNIT as nat);
    let f = m % (UNIT as nat);
    let a = nat_text(w);
    lemma_nat_text(w);
    lemma_pow10_small(9);
    assert(pow10(9) == 1_000_000_000) by {
        reveal_with_fuel(pow10, 10);
    }
    let s = magnitude_text(m);
    assert(s[0] == a[0]);
    assert(literal_body(s) == s);
    assert(UNIT as nat == 1_000_000_000);
    vstd::arithmetic::div_mod::lemma_fundamental_div_mod(m as int, 1_000_000_000);
    assert(m == w * 1_000_000_000 + f);
    if f == 0 {
        lemma_dotless(a);
        assert(s == a);
        assert(digits_of(s) == a);
        assert(frac_len(s) == 0);
        assert(decimal_magnitude(s) == w * pow10(9));
        assert(decimal_units(s) == m);
    } else {
        let x = fixed_text(f, 9);
        lemma_fixed_text(f, 9);
        lemma_trim_zeros(x);
        let t = trim_zeros(x);
        let k = (9 - t.len()) as nat;
        assert forall|i: int| 0 <= i < t.len() implies is_digit(t[i]) by {
            assert(t[i] == x.take(t.len() as int)[i]);
        }
        lemma_after_dot(a, t);
        lemma_value_concat(a, t);
        lemma_pow10_add(t.len(), k);
        assert(t.len() + k == 9);
        lemma_pow10_positive(k);
        assert(digits_value(t) > 0) by {
            if digits_value(t) <= 0 {
                assert(digits_value(t) * pow10(k) <= 0) by (nonlinear_arith)
                    requires
                        digits_value(t) <= 0,
                        pow10(k) >= 1,
                {
                }
                lemma_pow10_positive(k);
            }
        }
        assert(digits_of(s) == a + t);
        assert((w * pow10(t.len()) + digits_value(t)) * pow10(k) == w * (pow10(t.len()) * pow10(
            k,
        )) + digits_value(t) * pow10(k)) by (nonlinear_arith);
        assert(s == a + seq!['.'] + t);
        assert(frac_len(s) == t.len());
        assert(digits_value(x) == f);
        assert(x.len() == 9);
        assert(f == digits_value(t) * pow10(k));
        assert(digits_value(a + t) == w * pow10(t.len()) + digits_value(t));
        assert(decimal_magnitude(s) == digits_value(a + t) * pow10(k));
        assert(decimal_magnitude(s) == m);
        assert forall|i: int| 0 <= i < s.len() implies is_digit(s[i]) || s[i] == '.' by {
            if i < a.len() {
                assert(s[i] == a[i]);
            } else if i > a.len() {
                assert(s[i] == t[i - a.len() - 1]);
            }
        }
    }
    assert forall|k: int| 0 <= k < s.len() implies !is_exp_mark(#[trigger] s[k]) by {
        assert(is_digit(s[k]) || s[k] == '.');
    }
    lemma_plain_literal(s);
}

proof fn lemma_exp_mark(s: Seq<char>, i: int)
    requires
        0 <= i <= s.len(),
        forall|k: int| 0 <= k < i ==> !is_exp_mark(#[trigger] s[k]),
        i == s.len() || is_exp_mark(s[i]),
    ensures
        exp_mark(s) == i,
    decreases s.len(),
{
    if s.len() > 0 {
        let d = s.drop_last();
        if i == s.len() {
            lemma_exp_mark(d, d.len() as int);
        } else if i == s.len() - 1 {
            lemma_exp_mark(d, d.len() as int);
        } else {
            lemma_exp_mark(d, i);
        }
    }
}

/// A literal without an exponent is read as a decimal.
pub proof fn lemma_plain_literal(s: Seq<char>)
    requires
        forall|k: int| 0 <= k < s.len() ==> !is_exp_mark(#[trigger] s[k]),
    ensures
        is_literal(s) == is_decimal(s),
        literal_representable(s) == decimal_representable(s),
        literal_units(s) == decimal_units(s),
{
    lemma_exp_mark(s, s.len() as int);
    assert(mantissa(s) =~= s);
}

fn copy_range(s: &Vec<char>, from: usize, to: usize) -> (r: Vec<char>)
    requires
        from <= to <= s@.len(),
    ensures
        r@ == s@.subrange(from as int, to as int),
{
    let mut r: Vec<char> = Vec::new();
    let mut i: usize = from;
    while i < to
        invariant
            from <= i <= to <= s@.len(),
            r@ == s@.subrange(from as int, i as int),
        decreases to - i,
    {
        r.push(s[i]);
        i = i + 1;
        assert(r@ =~= s@.subrange(from as int, i as int));
    }
    r
}

/// Reads the exponent `t`: its sign and, when it is at most `cap`, its
/// magnitude.
fn exponent_parts(t: &Vec<char>, cap: i128) -> (r: Option<(bool, Option<i128>)>)
    requires
        0 <= cap <= 0x2_0000_0000_0000_0000,
    ensures
        r is None <==> !is_exponent(t@),
        r matches Some((neg, v)) ==> {
            &&& neg == literal_negative(t@)
            &&& (v is Some <==> digits_value(literal_body(t@)) <= cap)
            &&& (v is Some ==> v->Some_0 == digits_value(literal_body(t@)))
            &&& digits_value(literal_body(t@)) >= 0
        },
{
    let neg = t.len() > 0 && t[0] == '-';
    let start: usize = if neg { 1 } else { 0 };
    let ghost b = literal_body(t@);
    let n = t.len();
    assert(b.len() == n - start);
    if start >= n {
        return None;
    }
    let mut i: usize = start;
    while i < n
        invariant
            start <= i <= n == t@.len(),
            b == t@.skip(start as int),
            b == literal_body(t@),
            neg == literal_negative(t@),
            forall|k: int| 0 <= k < i - start ==> is_digit(b[k]),
        decreases n - i,
    {
        let c = t[i];
        if !('0' <= c && c <= '9') {
            assert(b[i - start] == c);
            assert(!is_digit(b[i - start]));
            assert(!all_digits(b));
            assert(!is_exponent(t@));
            return None;
        }
        i = i + 1;
    }
    assert(is_exponent(t@));
    let mut acc: i128 = 0;
    let mut j: usize = start;
    assert(b.take(0) =~= Seq::<char>::empty());
    assert(digits_of(Seq::<char>::empty()) =~= Seq::<char>::empty());
    while j < n
        invariant
            start <= j <= n == t@.len(),
            b == t@.skip(start as int),
            b == literal_body(t@),
            neg == literal_negative(t@),
            all_digits(b),
            is_exponent(t@),
            0 <= cap <= 0x2_0000_0000_0000_0000,
            0 <= acc,
            acc == digits_value(digits_of(b.take(j - start))),
            acc <= cap,
        decreases n - j,
    {
        let c = t[j];
        let ghost s1 = b.take(j + 1 - start);
        assert(s1.drop_last() =~= b.take(j - start));
        assert(s1.last() == c);
        assert(digits_of(s1) == digits_of(s1.drop_last()).push(c));
        assert(digits_of(s1).drop_last() =~= digits_of(s1.drop_last()));
        let d: i128 = (c as u32 - '0' as u32) as i128;
        if acc > cap / 10 || acc * 10 + d > cap {
            proof {
                lemma_digits_value_grows(b, j + 1 - start);
                lemma_dotless(b);
                assert(digits_value(digits_of(s1)) == 10 * acc + d);
                assert(10 * acc + d > cap) by (nonlinear_arith)
                    requires
                        acc > cap / 10 || acc * 10 + d > cap,
                        cap >= 0,
                        d >= 0,
                ;
                assert(digits_of(b) == b);
                assert(digits_value(b) > cap);
                assert(b == literal_body(t@));
            }
            return Some((neg, None));
        }
        acc = acc * 10 + d;
        j = j + 1;
    }
    assert(b.take(n - start) =~= b);
    proof {
        lemma_dotless(b);
        lemma_digits_value_grows(b, 0);
    }
    Some((neg, Some(acc)))
}

/// Reads the literal `s` (a decimal, optionally with an exponent) as a
/// count of units.
pub fn parse_literal(s: &Vec<char>) -> (r: Result<i64, NumberError>)
    ensures
        r == Err::<i64, NumberError>(NumberError::Invalid) <==> !is_literal(s@),
        r == Err::<i64, NumberError>(NumberError::OutOfRange) <==> is_literal(s@)
            && !literal_representable(s@),
        r is Ok ==> r->Ok_0 == literal_units(s@),
{
    let n = s.len();
    let mut ei: usize = 0;
    while ei < n && !(s[ei] == 'e' || s[ei] == 'E')
        invariant
            ei <= n == s@.len(),
            forall|k: int| 0 <= k < ei ==> !is_exp_mark(#[trigger] s@[k]),
        decreases n - ei,
    {
        ei = ei + 1;
    }
    proof {
        lemma_exp_mark(s@, ei as int);
    }
    let m = copy_range(s, 0, ei);
    assert(m@ =~= mantissa(s@));
    let (d, frac) = match decimal_parts(&m) {
        None => {
            return Err(NumberError::Invalid);
        },
        Some(parts) => parts,
    };
    let ghost dig = decimal_digits(m@);
    let cap: i128 = frac as i128 + 100;
    let mut e_neg = false;
    let mut e_val: Option<i128> = Some(0);
    if ei < n {
        let t = copy_range(s, ei + 1, n);
        assert(t@ =~= exponent_text(s@));
        match exponent_parts(&t, cap) {
            None => {
                return Err(NumberError::Invalid);
            },
            Some((neg, v)) => {
                e_neg = neg;
                e_val = v;
            },
        }
    }
    assert(is_literal(s@));
    let ghost shift = literal_shift(s@);
    proof {
        lemma_pow10_18();
    }
    match e_val {
        None => {
            if e_neg {
                assert(shift < 0);
                return Err(NumberError::OutOfRange);
            }
            assert(shift > 100);
            match d {
                Some(0) => {
                    assert(dig == 0);
                    assert(decimal_digits(mantissa(s@)) == 0);
                    assert(literal_magnitude(s@) == 0 * pow10(shift as nat));
                    return Ok(0);
                },
                _ => {
                    proof {
                        lemma_pow10_mono(19, shift as nat);
                        assert(dig * pow10(shift as nat) >= pow10(shift as nat)) by (nonlinear_arith)
                            requires
                                dig >= 1,
                                pow10(shift as nat) >= 1,
                        ;
                    }
                    return Err(NumberError::OutOfRange);
                },
            }
        },
        Some(v) => {
            let e: i128 = if e_neg { -(v as i128) } else { v as i128 };
            let sh: i128 = FRAC_DIGITS as i128 - frac as i128 + e;
            assert(sh == shift);
            if sh < 0 {
                return Err(NumberError::OutOfRange);
            }
            match d {
                None => {
                    proof {
                        lemma_pow10_positive(shift as nat);
                        assert(dig * pow10(shift as nat) >= dig) by (nonlinear_arith)
                            requires
                                dig >= 0,
                                pow10(shift as nat) >= 1,
                        ;
                    }
                    return Err(NumberError::OutOfRange);
                },
                Some(dv) => {
                    if dv == 0 {
                        assert(decimal_digits(mantissa(s@)) == 0);
                        assert(literal_magnitude(s@) == 0 * pow10(shift as nat));
                        return Ok(0);
                    }
                    if sh > 18 {
                        proof {
                            lemma_pow10_mono(19, shift as nat);
                            assert(dig * pow10(shift as nat) >= pow10(shift as nat))
                                by (nonlinear_arith)
                                requires
                                    dig >= 1,
                                    pow10(shift as nat) >= 1,
                            ;
                        }
                        return Err(NumberError::OutOfRange);
                    }
                    let p = pow10_exec(sh as u32);
                    proof {
                        lemma_pow10_mono(sh as nat, 18);
                        assert(dv * p <= LIMIT * 1_000_000_000_000_000_000) by (nonlinear_arith)
                            requires
                                0 <= dv <= LIMIT,
                                1 <= p <= 1_000_000_000_000_000_000,
                        ;
                        assert(0 <= dv * p) by (nonlinear_arith)
                            requires
                                dv >= 0,
                                p >= 1,
                        ;
                    }
                    let mag = dv * p;
                    if mag > LIMIT as i128 {
                        return Err(NumberError::OutOfRange);
                    }
                    if m.len() > 0 && m[0] == '-' {
                        Ok(-(mag as i64))
                    } else {
                        Ok(mag as i64)
                    }
                },
            }
        },
    }
}

} // verus!
