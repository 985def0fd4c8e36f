//! What is reported of a coefficient vector: its degree, its reduced form
//! as text, and its solution set.
use vstd::prelude::*;
use crate::equation::{
    cleaned, coefficient_of, is_space, contribution, decompose_spec, equation_spec, first_failure, side_total,
    lemma_cleaned_concat, lemma_cleaned_plain, lemma_remove_all_prefix,
    lemma_split_plain, lemma_split_two, sides_of, stripped, term_of, term_power, zero, Coefficients,
    Failure,
};
use crate::number::{
    is_digit, lemma_magnitude_reads_back, magnitude_chars, magnitude_text, LIMIT, UNIT,
};
use crate::text::{contains, occurs_at, remove_all, string_of};

verus! {

/// The highest power whose coefficient is non-zero (zero when none is).
pub open spec fn degree_of(k: Coefficients) -> nat {
    if k.a != 0 {
        2
    } else if k.b != 0 {
        1
    } else {
        0
    }
}

/// The degree of the polynomial `a·X² + b·X + c`.
pub fn degree(coeffs: Coefficients) -> (r: u8)
    ensures
        r as nat == degree_of(coeffs),
{
    if coeffs.a != 0 {
        2
    } else if coeffs.b != 0 {
        1
    } else {
        0
    }
}

pub open spec fn abs(v: int) -> nat {
    if v < 0 {
        (-v) as nat
    } else {
        v as nat
    }
}

/// The text of a coefficient of one or minus one: the variable part alone.
pub open spec fn unit_text(power: nat) -> Seq<char> {
    if power == 2 {
        seq!['X', '^', '2', ' ']
    } else if power == 1 {
        seq!['X', ' ']
    } else {
        seq![]
    }
}

/// What follows the magnitude of any other coefficient.
pub open spec fn power_text(power: nat) -> Seq<char> {
    if power == 2 {
        seq![' ', '*', ' ', 'X', '^', '2', ' ']
    } else if power == 1 {
        seq![' ', '*', ' ', 'X', ' ']
    } else {
        seq![' ']
    }
}

/// The sign of a non-zero coefficient: `- ` when negative, `+ ` when
/// positive and not the first term written.
pub open spec fn sign_text(v: int, first: bool) -> Seq<char> {
    if v < 0 {
        seq!['-', ' ']
    } else if !first {
        seq!['+', ' ']
    } else {
        seq![]
    }
}

/// The text of the term of `power` with coefficient `v` units (nothing for
/// a zero coefficient).
pub open spec fn term_text(v: int, power: nat, first: bool) -> Seq<char> {
    if v == 0 {
        seq![]
    } else if abs(v) == UNIT {
        sign_text(v, first) + unit_text(power)
    } else {
        sign_text(v, first) + magnitude_text(abs(v)) + power_text(power)
    }
}

/// The reduced form `... = 0`: the non-zero terms from the highest power
/// down, or `0` when all coefficients are zero.
pub open spec fn reduced_form(k: Coefficients) -> Seq<char> {
    let none = k.a == 0 && k.b == 0 && k.c == 0;
    term_text(k.a as int, 2, true) + term_text(k.b as int, 1, k.a == 0) + term_text(
        k.c as int,
        0,
        k.a == 0 && k.b == 0,
    ) + (if none {
        seq!['0', ' ']
    } else {
        seq![]
    }) + seq!['=', ' ', '0']
}

fn push_chars(out: &mut Vec<char>, cs: &Vec<char>)
    ensures
        final(out)@ == old(out)@ + cs@,
{
    let mut i: usize = 0;
    while i < cs.len()
        invariant
            i <= cs@.len(),
            out@ == old(out)@ + cs@.take(i as int),
        decreases cs.len() - i,
    {
        out.push(cs[i]);
        i = i + 1;
        assert(out@ =~= old(out)@ + cs@.take(i as int));
    }
    assert(cs@.take(i as int) =~= cs@);
}

#[verifier::rlimit(50)]
fn push_term(out: &mut Vec<char>, v: i64, power: u8, first: bool)
    requires
        power <= 2,
    ensures
        final(out)@ == old(out)@ + term_text(v as int, power as nat, first),
{
    if v == 0 {
        assert(final(out)@ =~= old(out)@ + term_text(v as int, power as nat, first));
        return;
    }
    let mut piece: Vec<char> = Vec::new();
    if v < 0 {
        piece.push('-');
        piece.push(' ');
    } else if !first {
        piece.push('+');
        piece.push(' ');
    }
    assert(piece@ =~= sign_text(v as int, first));
    let m: u64 = if v < 0 { (-(v as i128)) as u64 } else { v as u64 };
    if m == UNIT as u64 {
        if power == 2 {
            piece.push('X');
            piece.push('^');
            piece.push('2');
            piece.push(' ');
        } else if power == 1 {
            piece.push('X');
            piece.push(' ');
        }
        assert(piece@ =~= sign_text(v as int, first) + unit_text(power as nat));
    } else {
        let mag = magnitude_chars(m);
        push_chars(&mut piece, &mag);
        if power == 2 {
            piece.push(' ');
            piece.push('*');
            piece.push(' ');
            piece.push('X');
            piece.push('^');
            piece.push('2');
            piece.push(' ');
        } else if power == 1 {
            piece.push(' ');
            piece.push('*');
            piece.push(' ');
            piece.push('X');
            piece.push(' ');
        } else {
            piece.push(' ');
        }
        assert(piece@ =~= sign_text(v as int, first) + magnitude_text(abs(v as int)) + power_text(
            power as nat,
        ));
    }
    push_chars(out, &piece);
}

/// Renders the reduced form of the equation, e.g. `- 9.3 * X^2 + 4 * X + 4 = 0`.
pub fn reduced(coeffs: &Coefficients) -> (r: String)
    ensures
        r@ == reduced_form(*coeffs),
{
    let mut out: Vec<char> = Vec::new();
    push_term(&mut out, coeffs.a, 2, true);
    push_term(&mut out, coeffs.b, 1, coeffs.a == 0);
    push_term(&mut out, coeffs.c, 0, coeffs.a == 0 && coeffs.b == 0);
    if coeffs.a == 0 && coeffs.b == 0 && coeffs.c == 0 {
        out.push('0');
        out.push(' ');
    }
    out.push('=');
    out.push(' ');
    out.push('0');
    assert(out@ =~= reduced_form(*coeffs));
    string_of(&out)
}

/// The solution set of `a·X² + b·X + c = 0`. Rational roots are given
/// exactly as `num / den`; roots that involve a square root are given by the
/// coefficients they are computed from.
#[derive(Debug, Clone, Copy, PartialEq, Eq, Structural)]
pub enum Solution {
    /// Every real number solves the equation.
    AnyReal,
    /// No number solves the equation.
    NoSolution,
    /// The one root `num / den` of a linear equation.
    Linear { num: i128, den: i128 },
    /// Positive discriminant: the two real roots `(-b ∓ √Δ) / 2a`.
    TwoReal { a: i64, b: i64, c: i64 },
    /// Zero discriminant: the one root `num / den`, that is `-b / 2a`.
    OneReal { num: i128, den: i128 },
    /// Negative discriminant: the complex pair `-b / 2a ± i·√(-Δ) / 2a`.
    ComplexPair { a: i64, b: i64, c: i64 },
}

/// `b² - 4ac`.
pub open spec fn discriminant(k: Coefficients) -> int {
    k.b * k.b - 4 * k.a * k.c
}

/// The solution set of the equation with coefficients `k`, by degree and,
/// for degree two, by the sign of the discriminant.
pub open spec fn solution_of(k: Coefficients) -> Solution {
    if k.a == 0 && k.b == 0 {
        if k.c == 0 {
            Solution::AnyReal
        } else {
            Solution::NoSolution
        }
    } else if k.a == 0 {
        Solution::Linear { num: (-k.c) as i128, den: k.b as i128 }
    } else if discriminant(k) > 0 {
        Solution::TwoReal { a: k.a, b: k.b, c: k.c }
    } else if discriminant(k) == 0 {
        Solution::OneReal { num: (-k.b) as i128, den: (2 * k.a) as i128 }
    } else {
        Solution::ComplexPair { a: k.a, b: k.b, c: k.c }
    }
}

/// The sign of `b² - 4ac`, computed without overflow.
fn discriminant_sign(a: i64, b: i64, c: i64) -> (r: i8)
    ensures
        r == 1 <==> b * b - 4 * a * c > 0,
        r == 0 <==> b * b - 4 * a * c == 0,
        r == -1 <==> b * b - 4 * a * c < 0,
{
    assert(0 <= b * b <= 0x4000_0000_0000_0000_0000_0000_0000_0000) by (nonlinear_arith)
        requires
            -0x8000_0000_0000_0000 <= b <= 0x8000_0000_0000_0000,
    ;
    assert(-0x4000_0000_0000_0000_0000_0000_0000_0000 <= a * c
        <= 0x4000_0000_0000_0000_0000_0000_0000_0000) by (nonlinear_arith)
        requires
            -0x8000_0000_0000_0000 <= a <= 0x8000_0000_0000_0000,
            -0x8000_0000_0000_0000 <= c <= 0x8000_0000_0000_0000,
    ;
    assert(4 * a * c == 4 * (a * c)) by (nonlinear_arith);
    let bb: i128 = (b as i128) * (b as i128);
    let ac: i128 = (a as i128) * (c as i128);
    if ac <= 0 {
        if bb > 0 || ac < 0 {
            1
        } else {
            0
        }
    } else {
        let q = bb / 4;
        let m = bb % 4;
        assert(bb == 4 * q + m && 0 <= m < 4);
        if q > ac || (q == ac && m > 0) {
            1
        } else if q == ac {
            0
        } else {
            -1
        }
    }
}

/// Solves the equation of the given degree: for degree zero, any real or
/// none; for degree one, `x = -c / b`; for degree two, by the sign of the
/// discriminant.
pub fn solve(a: i64, b: i64, c: i64, degree: u8) -> (r: Solution)
    requires
        degree as nat == degree_of(Coefficients { a, b, c }),
    ensures
        r == solution_of(Coefficients { a, b, c }),
{
    if degree == 0 {
        if c == 0 {
            Solution::AnyReal
        } else {
            Solution::NoSolution
        }
    } else if degree == 1 {
        Solution::Linear { num: -(c as i128), den: b as i128 }
    } else {
        let s = discriminant_sign(a, b, c);
        if s == 1 {
            Solution::TwoReal { a, b, c }
        } else if s == 0 {
            Solution::OneReal { num: -(b as i128), den: 2 * (a as i128) }
        } else {
            Solution::ComplexPair { a, b, c }
        }
    }
}

/// With no `X` term left, every real number is a solution when the constant
/// is zero, and none is otherwise.
pub proof fn law_constant_equation(k: Coefficients)
    requires
        k.a == 0,
        k.b == 0,
    ensures
        solution_of(k) == Solution::AnyReal <==> k.c == 0,
        solution_of(k) == Solution::NoSolution <==> k.c != 0,
{
}

/// A linear equation has the one root `x = -c / b`, and `b·x + c = 0`
/// (written over the common denominator: `b·num + c·den = 0`).
pub proof fn law_linear_root(k: Coefficients)
    requires
        k.a == 0,
        k.b != 0,
    ensures
        solution_of(k) == (Solution::Linear { num: (-k.c) as i128, den: k.b as i128 }),
        k.b * (-k.c) + k.c * k.b == 0,
{
    assert(k.b * (-k.c) + k.c * k.b == 0) by (nonlinear_arith);
}

proof fn lemma_root_identity(a: int, b: int, c: int, s: int)
    ensures
        a * (-b + s) * (-b + s) + b * (-b + s) * (2 * a) + c * (2 * a) * (2 * a) == a * (s * s - (b
            * b - 4 * a * c)),
{
    let u = -b + s;
    assert(a * u * u + b * u * (2 * a) == a * (u * u + 2 * b * u)) by (nonlinear_arith);
    assert(c * (2 * a) * (2 * a) == a * (4 * a * c)) by (nonlinear_arith);
    assert(u * u + 2 * b * u == (u + b) * (u + b) - b * b) by (nonlinear_arith);
    assert(u + b == s);
    assert(a * (u * u + 2 * b * u) + a * (4 * a * c) == a * (u * u + 2 * b * u + 4 * a * c))
        by (nonlinear_arith);
    assert(a * (s * s - b * b + 4 * a * c) == a * (s * s - (b * b - 4 * a * c)));
}

/// For a quadratic equation the sign of the discriminant alone picks the
/// branch, and the reported roots solve the equation:
/// - for `x = (-b ± s) / 2a`, `4a²·(a·x² + b·x + c) = a·(s² - Δ)`, which
///   vanishes when `s = √Δ`;
/// - the double root `-b / 2a` solves it when `Δ = 0`;
/// - for `x = (-b ± i·t) / 2a`, the real part of `4a²·(a·x² + b·x + c)` is
///   `-a·(t² + Δ)` and the imaginary part is zero, so both vanish when
///   `t = √(-Δ)`.
///
/// These are identities in `s` and `t`.
pub proof fn law_quadratic_roots(k: Coefficients, s: int, t: int)
    requires
        k.a != 0,
    ensures
        solution_of(k) is TwoReal <==> discriminant(k) > 0,
        solution_of(k) is OneReal <==> discriminant(k) == 0,
        solution_of(k) is ComplexPair <==> discriminant(k) < 0,
        k.a * (-k.b + s) * (-k.b + s) + k.b * (-k.b + s) * (2 * k.a) + k.c * (2 * k.a) * (2
            * k.a) == k.a * (s * s - discriminant(k)),
        k.a * (-k.b - s) * (-k.b - s) + k.b * (-k.b - s) * (2 * k.a) + k.c * (2 * k.a) * (2
            * k.a) == k.a * (s * s - discriminant(k)),
        discriminant(k) == 0 ==> k.a * (-k.b) * (-k.b) + k.b * (-k.b) * (2 * k.a) + k.c * (2
            * k.a) * (2 * k.a) == 0,
        k.a * (k.b * k.b - t * t) + k.b * (-k.b) * (2 * k.a) + k.c * (2 * k.a) * (2 * k.a)
            == -k.a * (t * t + discriminant(k)),
        2 * k.a * (-k.b) * t + k.b * t * (2 * k.a) == 0,
{
    let (a, b, c) = (k.a as int, k.b as int, k.c as int);
    lemma_root_identity(a, b, c, s);
    lemma_root_identity(a, b, c, -s);
    assert((-s) * (-s) == s * s) by (nonlinear_arith);
    assert(-b + (-s) == -b - s);
    lemma_root_identity(a, b, c, 0);
    if b * b - 4 * a * c == 0 {
        assert(a * (0 * 0 - (b * b - 4 * a * c)) == 0) by (nonlinear_arith)
            requires
                b * b - 4 * a * c == 0,
        ;
    }
    assert(b * (-b) * (2 * a) == -2 * (a * (b * b))) by (nonlinear_arith);
    assert(a * (b * b - t * t) == a * (b * b) - a * (t * t)) by (nonlinear_arith);
    assert(c * (2 * a) * (2 * a) == 4 * (a * (a * c))) by (nonlinear_arith);
    assert(4 * a * c == 4 * (a * c)) by (nonlinear_arith);
    assert(-a * (t * t + (b * b - 4 * (a * c))) == -(a * (t * t)) - a * (b * b) + 4 * (a * (a
        * c))) by (nonlinear_arith);
    assert(2 * a * (-b) * t == -(b * t * (2 * a))) by (nonlinear_arith);
}

proof fn lemma_no_small_pattern(f: Seq<char>)
    requires
        f == seq!['0'],
    ensures
        term_of(f) == Ok::<Option<(nat, int)>, Failure>(None),
{
    assert(!contains(f, seq!['X', '^', '2']));
    assert(!contains(f, seq!['X', '^', '1']));
    assert(!contains(f, seq!['X', '^', '0']));
    assert(!contains(f, seq!['X', '^']));
}

proof fn lemma_remove_whole(p: Seq<char>)
    requires
        p.len() > 0,
    ensures
        remove_all(p, p) == Seq::<char>::empty(),
{
    assert(p.subrange(0, p.len() as int) =~= p);
    assert(occurs_at(p, p, 0));
    assert(p.skip(p.len() as int) =~= Seq::<char>::empty());
    assert(remove_all(Seq::<char>::empty(), p) == Seq::<char>::empty());
    assert(remove_all(p, p) == remove_all(p.skip(p.len() as int), p));
}

proof fn lemma_cleaned_tail()
    ensures
        cleaned(seq![' ', '*', ' ', 'X', '^', '2', ' ', '=', ' ', '0']) == seq![
            '*',
            'X',
            '^',
            '2',
            '=',
            '0',
        ],
{
    reveal_with_fuel(cleaned, 11);
    let tail = seq![' ', '*', ' ', 'X', '^', '2', ' ', '=', ' ', '0'];
    assert(cleaned(tail) =~= seq!['*', 'X', '^', '2', '=', '0']);
}

/// Stripping the power marker and `*` from `m*X^2` leaves `m`, when `m`
/// holds only digits and dots.
proof fn lemma_stripped_square_term(m: Seq<char>)
    requires
        forall|i: int| 0 <= i < m.len() ==> is_digit(m[i]) || m[i] == '.',
    ensures
        stripped(m + seq!['*'] + seq!['X', '^', '2']) == m,
        contains(m + seq!['*'] + seq!['X', '^', '2'], seq!['X', '^', '2']),
{
    let e = Seq::<char>::empty();
    let star = seq!['*'];
    let sq = seq!['X', '^', '2'];
    let p = m + star + sq;
    assert(p.subrange(m.len() + 1 as int, m.len() + 4 as int) =~= sq);
    assert(occurs_at(p, sq, m.len() + 1 as int));
    assert forall|i: int| 0 <= i < m.len() implies m[i] != 'X' && m[i] != '*' by {
        assert(is_digit(m[i]) || m[i] == '.');
    }
    assert(m + star + sq =~= m + (star + sq));
    lemma_remove_all_prefix(m, star + sq, sq);
    lemma_remove_all_prefix(star, sq, sq);
    lemma_remove_whole(sq);
    assert(star + e =~= star);
    let ms = m + star;
    assert forall|i: int| 0 <= i < ms.len() implies ms[i] != 'X' by {
        if i < m.len() {
            assert(ms[i] == m[i]);
        }
    }
    lemma_remove_all_prefix(ms, e, seq!['X', '^', '1']);
    lemma_remove_all_prefix(ms, e, seq!['X', '^', '0']);
    assert(ms + e =~= ms);
    assert(remove_all(e, seq!['X', '^', '1']) == e);
    assert(remove_all(e, seq!['X', '^', '0']) == e);
    lemma_remove_all_prefix(m, star, star);
    lemma_remove_whole(star);
    assert(m + e =~= m);
    assert(stripped(p) == m);
}

proof fn lemma_reads_back_zero(k: Coefficients)
    requires
        k.a == 0,
        k.b == 0,
        k.c == 0,
    ensures
        equation_spec(reduced_form(k)) == Ok::<Coefficients, Failure>(k),
{
    let r = reduced_form(k);
    let zero_text = seq!['0'];
    lemma_no_small_pattern(zero_text);
    lemma_split_plain(zero_text, '+');
    assert(r =~= seq!['0', ' ', '=', ' ', '0']);
    reveal_with_fuel(cleaned, 6);
    assert(cleaned(r) =~= seq!['0', '=', '0']);
    assert(seq!['0', '=', '0'] =~= zero_text.push('=') + zero_text);
    lemma_split_two(zero_text, zero_text, '=');
    let side = seq![zero_text];
    assert(sides_of(r) == Some((side, side)));
    assert(side.skip(1) =~= Seq::<Seq<char>>::empty());
    assert(first_failure(side) == first_failure(side.skip(1)));
    assert(side_total(side, 2) == contribution(zero_text, 2) + side_total(side.skip(1), 2));
    assert(side_total(side, 1) == contribution(zero_text, 1) + side_total(side.skip(1), 1));
    assert(side_total(side, 0) == contribution(zero_text, 0) + side_total(side.skip(1), 0));
    assert(decompose_spec(side, side) == Ok::<Coefficients, Failure>(zero()));
    assert(zero() == k);
}

proof fn lemma_unit_text_parts()
    ensures
        cleaned(seq!['X', '^', '2', ' ', '=', ' ', '0']) == seq!['X', '^', '2', '=', '0'],
        stripped(seq!['X', '^', '2']) == Seq::<char>::empty(),
        contains(seq!['X', '^', '2'], seq!['X', '^', '2']),
{
    let e = Seq::<char>::empty();
    let p = seq!['X', '^', '2'];
    reveal_with_fuel(cleaned, 8);
    assert(cleaned(seq!['X', '^', '2', ' ', '=', ' ', '0']) =~= seq!['X', '^', '2', '=', '0']);
    assert(p.subrange(0, 3) =~= p);
    assert(occurs_at(p, p, 0));
    lemma_remove_whole(p);
    assert(remove_all(e, seq!['X', '^', '1']) == e);
    assert(remove_all(e, seq!['X', '^', '0']) == e);
    assert(remove_all(e, seq!['*']) == e);
}

proof fn lemma_unit_form(k: Coefficients)
    requires
        k.a == UNIT,
        k.b == 0,
        k.c == 0,
    ensures
        reduced_form(k) == seq!['X', '^', '2', ' ', '=', ' ', '0'],
{
    assert(abs(k.a as int) == UNIT);
    assert(sign_text(k.a as int, true) =~= Seq::<char>::empty());
    assert(term_text(k.a as int, 2, true) =~= seq!['X', '^', '2', ' ']);
    assert(term_text(k.b as int, 1, false) =~= Seq::<char>::empty());
    assert(term_text(k.c as int, 0, false) =~= Seq::<char>::empty());
    assert(reduced_form(k) =~= seq!['X', '^', '2', ' ', '=', ' ', '0']);
}

proof fn lemma_reads_back_unit(k: Coefficients)
    requires
        k.a == UNIT,
        k.b == 0,
        k.c == 0,
    ensures
        equation_spec(reduced_form(k)) == Ok::<Coefficients, Failure>(k),
{
    let r = reduced_form(k);
    let zero_text = seq!['0'];
    lemma_no_small_pattern(zero_text);
    lemma_split_plain(zero_text, '+');
    let p = seq!['X', '^', '2'];
    lemma_unit_form(k);
    lemma_unit_text_parts();
    assert(cleaned(r) =~= p.push('=') + zero_text);
    lemma_split_two(p, zero_text, '=');
    lemma_split_plain(p, '+');
    assert(contains(p, seq!['X', '^', '2']));
    assert(term_power(p) == Some(2nat));
    assert(coefficient_of(p) == Ok::<int, Failure>(UNIT as int));
    assert(term_of(p) == Ok::<Option<(nat, int)>, Failure>(Some((2nat, UNIT as int))));
    let left = seq![p];
    let right = seq![zero_text];
    assert(sides_of(r) == Some((left, right)));
    assert(left.skip(1) =~= Seq::<Seq<char>>::empty());
    assert(right.skip(1) =~= Seq::<Seq<char>>::empty());
    assert(first_failure(left) == first_failure(left.skip(1)));
    assert(first_failure(right) == first_failure(right.skip(1)));
    assert(side_total(left, 2) == contribution(p, 2) + side_total(left.skip(1), 2));
    assert(side_total(left, 1) == contribution(p, 1) + side_total(left.skip(1), 1));
    assert(side_total(left, 0) == contribution(p, 0) + side_total(left.skip(1), 0));
    assert(side_total(right, 2) == contribution(zero_text, 2) + side_total(right.skip(1), 2));
    assert(side_total(right, 1) == contribution(zero_text, 1) + side_total(right.skip(1), 1));
    assert(side_total(right, 0) == contribution(zero_text, 0) + side_total(right.skip(1), 0));
    assert(decompose_spec(left, right) == Ok::<Coefficients, Failure>(k));
}

/// The fragment `m*X^2`, for the text `m` of a magnitude, is a square term
/// of that magnitude.
proof fn lemma_square_term(a: nat)
    requires
        0 < a <= LIMIT,
    ensures
        ({
            let p = magnitude_text(a) + seq!['*'] + seq!['X', '^', '2'];
            term_of(p) == Ok::<Option<(nat, int)>, Failure>(Some((2nat, a as int)))
        }),
{
    let m = magnitude_text(a);
    lemma_magnitude_reads_back(a);
    let p = m + seq!['*'] + seq!['X', '^', '2'];
    lemma_stripped_square_term(m);
    assert(m[0] != '-');
    assert(m != seq!['-']);
    assert(term_power(p) == Some(2nat));
    assert(coefficient_of(p) == Ok::<int, Failure>(a as int));
}

/// The square term followed by `=` and `0` splits into `[m*X^2]` and `[0]`.
proof fn lemma_square_sides(a: nat)
    requires
        0 < a <= LIMIT,
    ensures
        ({
            let m = magnitude_text(a);
            let p = m + seq!['*'] + seq!['X', '^', '2'];
            let tail = seq![' ', '*', ' ', 'X', '^', '2', ' ', '=', ' ', '0'];
            sides_of(m + tail) == Some((seq![p], seq![seq!['0']]))
        }),
{
    let m = magnitude_text(a);
    lemma_magnitude_reads_back(a);
    let zero_text = seq!['0'];
    lemma_split_plain(zero_text, '+');
    let p = m + seq!['*'] + seq!['X', '^', '2'];
    let tail = seq![' ', '*', ' ', 'X', '^', '2', ' ', '=', ' ', '0'];
    let r = m + tail;
    assert forall|i: int| 0 <= i < m.len() implies m[i] != '-' && !is_space(m[i]) by {
        assert(is_digit(m[i]) || m[i] == '.');
    }
    lemma_cleaned_plain(m);
    lemma_cleaned_concat(m, tail);
    lemma_cleaned_tail();
    assert(cleaned(r) =~= p.push('=') + zero_text);
    assert forall|i: int| 0 <= i < p.len() implies p[i] != '=' && p[i] != '+' by {
        if i < m.len() {
            assert(p[i] == m[i]);
            assert(is_digit(m[i]) || m[i] == '.');
        }
    }
    lemma_split_two(p, zero_text, '=');
    lemma_split_plain(p, '+');
}

proof fn lemma_reads_back_square(k: Coefficients)
    requires
        0 < k.a <= LIMIT,
        k.a != UNIT,
        k.b == 0,
        k.c == 0,
    ensures
        equation_spec(reduced_form(k)) == Ok::<Coefficients, Failure>(k),
{
    let r = reduced_form(k);
    let zero_text = seq!['0'];
    lemma_no_small_pattern(zero_text);
    let a = k.a as nat;
    let m = magnitude_text(a);
    let p = m + seq!['*'] + seq!['X', '^', '2'];
    let tail = seq![' ', '*', ' ', 'X', '^', '2', ' ', '=', ' ', '0'];
    assert(r =~= m + tail);
    lemma_square_sides(a);
    lemma_square_term(a);
    let left = seq![p];
    let right = seq![zero_text];
    assert(sides_of(r) == Some((left, right)));
    assert(left.skip(1) =~= Seq::<Seq<char>>::empty());
    assert(right.skip(1) =~= Seq::<Seq<char>>::empty());
    assert(first_failure(left) == first_failure(left.skip(1)));
    assert(first_failure(right) == first_failure(right.skip(1)));
    assert(side_total(left, 2) == contribution(p, 2) + side_total(left.skip(1), 2));
    assert(side_total(left, 1) == contribution(p, 1) + side_total(left.skip(1), 1));
    assert(side_total(left, 0) == contribution(p, 0) + side_total(left.skip(1), 0));
    assert(side_total(right, 2) == contribution(zero_text, 2) + side_total(right.skip(1), 2));
    assert(side_total(right, 1) == contribution(zero_text, 1) + side_total(right.skip(1), 1));
    assert(side_total(right, 0) == contribution(zero_text, 0) + side_total(right.skip(1), 0));
    assert(decompose_spec(left, right) == Ok::<Coefficients, Failure>(k));
}

/// Reading the reduced form back as an equation gives the same vector, for
/// every vector whose reduced form the reader accepts: no `X` term, no
/// constant, and a non-negative square coefficient. (The reduced form writes
/// the linear term as `X`, constants without `X^0`, and a leading sign, none
/// of which the reader takes.)
pub proof fn law_reduced_form_reads_back(k: Coefficients)
    requires
        k.b == 0,
        k.c == 0,
        0 <= k.a <= LIMIT,
    ensures
        equation_spec(reduced_form(k)) == Ok::<Coefficients, Failure>(k),
{
    if k.a == 0 {
        lemma_reads_back_zero(k);
    } else if k.a == UNIT {
        lemma_reads_back_unit(k);
    } else {
        lemma_reads_back_square(k);
    }
}

} // verus!
