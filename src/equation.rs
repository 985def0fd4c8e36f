//! From equation text to the coefficient vector: splitting into sides and
//! term fragments, classifying each fragment, and folding the terms of both
//! sides into `a·X² + b·X + c = 0`.
use vstd::prelude::*;
use crate::number::{fits, is_literal, literal_representable, literal_units, parse_literal, NumberError, UNIT};
use crate::text::{chars_of, contains, contains_exec, occurs_at, remove_all, remove_all_exec, string_of};

verus! {

/// Coefficients of `a·X² + b·X + c = 0`, each a count of units of
/// `10^-9` within `-LIMIT ..= LIMIT`.
#[derive(Debug, Clone, Copy, PartialEq, Eq, Structural)]
pub struct Coefficients {
    pub a: i64,
    pub b: i64,
    pub c: i64,
}

/// Why an equation could not be read, with the offending fragment.
#[derive(Debug)]
pub enum ParseError {
    /// The text does not hold exactly one `=`.
    MalformedEquation,
    /// A fragment names a power of `X` above two.
    UnsupportedTerm(String),
    /// A fragment names no power of `X` and is not `0`.
    UnsupportedExpression(String),
    /// The coefficient of a fragment is not a number literal.
    InvalidNumber(String),
    /// The coefficient of a fragment cannot be held.
    NumberOutOfRange(String),
    /// A coefficient of the reduced equation cannot be held.
    SumOutOfRange,
}

/// What a `ParseError` says, over character sequences.
pub enum Failure {
    MalformedEquation,
    UnsupportedTerm(Seq<char>),
    UnsupportedExpression(Seq<char>),
    InvalidNumber(Seq<char>),
    NumberOutOfRange(Seq<char>),
    SumOutOfRange,
}

impl View for ParseError {
    type V = Failure;

    open spec fn view(&self) -> Failure {
        match self {
            ParseError::MalformedEquation => Failure::MalformedEquation,
            ParseError::UnsupportedTerm(s) => Failure::UnsupportedTerm(s@),
            ParseError::UnsupportedExpression(s) => Failure::UnsupportedExpression(s@),
            ParseError::InvalidNumber(s) => Failure::InvalidNumber(s@),
            ParseError::NumberOutOfRange(s) => Failure::NumberOutOfRange(s@),
            ParseError::SumOutOfRange => Failure::SumOutOfRange,
        }
    }
}

pub open spec fn is_space(c: char) -> bool {
    c == ' ' || c == '\t' || c == '\n' || c == '\r' || c == '\x0B' || c == '\x0C'
}

/// `s` with every `-` written as `+-` and all white space left out.
pub open spec fn cleaned(s: Seq<char>) -> Seq<char>
    decreases s.len(),
{
    if s.len() == 0 {
        s
    } else if s.last() == '-' {
        cleaned(s.drop_last()) + seq!['+', '-']
    } else if is_space(s.last()) {
        cleaned(s.drop_last())
    } else {
        cleaned(s.drop_last()).push(s.last())
    }
}

/// The pieces of `s` between occurrences of `sep` (one more than there
/// are separators; pieces may be empty).
pub open spec fn split_on(s: Seq<char>, sep: char) -> Seq<Seq<char>>
    decreases s.len(),
{
    if s.len() == 0 {
        seq![seq![]]
    } else {
        let r = split_on(s.drop_last(), sep);
        if s.last() == sep {
            r.push(seq![])
        } else {
            r.update(r.len() - 1, r.last().push(s.last()))
        }
    }
}

/// The term fragments of the left and right sides of `s`, or `None` when
/// `s` does not hold exactly one `=`.
pub open spec fn sides_of(s: Seq<char>) -> Option<(Seq<Seq<char>>, Seq<Seq<char>>)> {
    let sides = split_on(cleaned(s), '=');
    if sides.len() != 2 {
        None
    } else {
        Some((split_on(sides[0], '+'), split_on(sides[1], '+')))
    }
}

pub open spec fn texts(v: Seq<String>) -> Seq<Seq<char>> {
    v.map_values(|s: String| s@)
}

pub open spec fn chars_seqs(v: Seq<Vec<char>>) -> Seq<Seq<char>> {
    v.map_values(|s: Vec<char>| s@)
}

/// The power of `X` that a fragment names, by the first of `X^2`, `X^1`,
/// `X^0` that it contains.
pub open spec fn term_power(f: Seq<char>) -> Option<nat> {
    if contains(f, seq!['X', '^', '2']) {
        Some(2)
    } else if contains(f, seq!['X', '^', '1']) {
        Some(1)
    } else if contains(f, seq!['X', '^', '0']) {
        Some(0)
    } else {
        None
    }
}

/// A fragment with its power markers and `*` removed.
pub open spec fn stripped(f: Seq<char>) -> Seq<char> {
    remove_all(
        remove_all(
            remove_all(remove_all(f, seq!['X', '^', '2']), seq!['X', '^', '1']),
            seq!['X', '^', '0'],
        ),
        seq!['*'],
    )
}

/// The coefficient of a fragment, in units: an empty remainder is one, a
/// lone `-` is minus one, anything else is read as a number literal (a
/// decimal, optionally with an exponent).
pub open spec fn coefficient_of(f: Seq<char>) -> Result<int, Failure> {
    let t = stripped(f);
    if t == seq!['-'] {
        Ok(-(UNIT as int))
    } else if t.len() == 0 {
        Ok(UNIT as int)
    } else if !is_literal(t) {
        Err(Failure::InvalidNumber(f))
    } else if !literal_representable(t) {
        Err(Failure::NumberOutOfRange(f))
    } else {
        Ok(literal_units(t))
    }
}

/// What a fragment contributes: a power and a coefficient, nothing (the
/// fragment `0`), or a failure.
pub open spec fn term_of(f: Seq<char>) -> Result<Option<(nat, int)>, Failure> {
    match term_power(f) {
        Some(p) => match coefficient_of(f) {
            Ok(u) => Ok(Some((p, u))),
            Err(e) => Err(e),
        },
        None => if contains(f, seq!['X', '^']) {
            Err(Failure::UnsupportedTerm(f))
        } else if f == seq!['0'] {
            Ok(None)
        } else {
            Err(Failure::UnsupportedExpression(f))
        },
    }
}

/// The first fragment, in order, that fails to classify.
pub open spec fn first_failure(frags: Seq<Seq<char>>) -> Option<Failure>
    decreases frags.len(),
{
    if frags.len() == 0 {
        None
    } else {
        match term_of(frags[0]) {
            Err(e) => Some(e),
            Ok(_) => first_failure(frags.skip(1)),
        }
    }
}

pub open spec fn zero() -> Coefficients {
    Coefficients { a: 0, b: 0, c: 0 }
}

/// The coefficient vector of `left = right`: each slot is the exact sum of
/// the left terms of its power minus that of the right terms. The first
/// failing fragment (left side first) is reported; otherwise the vector is
/// returned when all three slots can be held.
pub open spec fn decompose_spec(left: Seq<Seq<char>>, right: Seq<Seq<char>>) -> Result<
    Coefficients,
    Failure,
> {
    match first_failure(left) {
        Some(e) => Err(e),
        None => match first_failure(right) {
            Some(e) => Err(e),
            None => {
                let a = side_total(left, 2) - side_total(right, 2);
                let b = side_total(left, 1) - side_total(right, 1);
                let c = side_total(left, 0) - side_total(right, 0);
                if fits(a) && fits(b) && fits(c) {
                    Ok(Coefficients { a: a as i64, b: b as i64, c: c as i64 })
                } else {
                    Err(Failure::SumOutOfRange)
                }
            },
        },
    }
}

/// The coefficient vector of the equation text `s`.
pub open spec fn equation_spec(s: Seq<char>) -> Result<Coefficients, Failure> {
    match sides_of(s) {
        None => Err(Failure::MalformedEquation),
        Some((l, r)) => decompose_spec(l, r),
    }
}

fn clean(s: &Vec<char>) -> (r: Vec<char>)
    ensures
        r@ == cleaned(s@),
{
    let mut r: Vec<char> = Vec::new();
    let mut i: usize = 0;
    while i < s.len()
        invariant
            i <= s@.len(),
            r@ == cleaned(s@.take(i as int)),
        decreases s.len() - i,
    {
        let c = s[i];
        let ghost t = s@.take(i + 1);
        assert(t.drop_last() =~= s@.take(i as int));
        if c == '-' {
            r.push('+');
            r.push('-');
        } else if c == ' ' || c == '\t' || c == '\n' || c == '\r' || c == '\x0B' || c == '\x0C' {
        } else {
            r.push(c);
        }
        i = i + 1;
        assert(r@ =~= cleaned(t));
    }
    assert(s@.take(i as int) =~= s@);
    r
}

fn split(s: &Vec<char>, sep: char) -> (r: Vec<Vec<char>>)
    ensures
        chars_seqs(r@) == split_on(s@, sep),
{
    let mut parts: Vec<Vec<char>> = Vec::new();
    let mut cur: Vec<char> = Vec::new();
    let mut i: usize = 0;
    assert(chars_seqs(parts@).push(cur@) =~= split_on(s@.take(0), sep));
    while i < s.len()
        invariant
            i <= s@.len(),
            chars_seqs(parts@).push(cur@) == split_on(s@.take(i as int), sep),
        decreases s.len() - i,
    {
        let c = s[i];
        let ghost t = s@.take(i + 1);
        let ghost prev = split_on(s@.take(i as int), sep);
        assert(t.drop_last() =~= s@.take(i as int));
        if c == sep {
            parts.push(cur);
            cur = Vec::new();
            assert(chars_seqs(parts@).push(cur@) =~= prev.push(seq![]));
        } else {
            cur.push(c);
            assert(chars_seqs(parts@).push(cur@) =~= prev.update(
                prev.len() - 1,
                prev.last().push(c),
            ));
        }
        i = i + 1;
    }
    assert(s@.take(i as int) =~= s@);
    parts.push(cur);
    assert(chars_seqs(parts@) =~= split_on(s@, sep));
    parts
}

fn strings_of(v: &Vec<Vec<char>>) -> (r: Vec<String>)
    ensures
        texts(r@) == chars_seqs(v@),
{
    let mut r: Vec<String> = Vec::new();
    let mut i: usize = 0;
    while i < v.len()
        invariant
            i <= v@.len(),
            texts(r@) == chars_seqs(v@.take(i as int)),
        decreases v.len() - i,
    {
        let s = string_of(&v[i]);
        let ghost old_r = r@;
        r.push(s);
        assert(r@ == old_r.push(s));
        assert(texts(r@) =~= texts(old_r).push(v@[i as int]@));
        assert(v@.take(i + 1) =~= v@.take(i as int).push(v@[i as int]));
        i = i + 1;
        assert(texts(r@) =~= chars_seqs(v@.take(i as int)));
    }
    assert(v@.take(i as int) =~= v@);
    r
}

/// Splits the equation text into the term fragments of its two sides:
/// every `-` becomes `+-`, white space is removed, the text is split at
/// `=` (which must occur exactly once) and each side at `+`.
pub fn parse(expression: &str) -> (r: Result<(Vec<String>, Vec<String>), ParseError>)
    ensures
        match r {
            Ok((l, rt)) => sides_of(expression@) == Some((texts(l@), texts(rt@))),
            Err(e) => sides_of(expression@) is None && e@ == Failure::MalformedEquation,
        },
{
    let chars = chars_of(expression);
    let c = clean(&chars);
    let sides = split(&c, '=');
    if sides.len() != 2 {
        return Err(ParseError::MalformedEquation);
    }
    let left = split(&sides[0], '+');
    let right = split(&sides[1], '+');
    Ok((strings_of(&left), strings_of(&right)))
}

fn pattern(c: char) -> (r: Vec<char>)
    ensures
        r@ == seq!['X', '^', c],
{
    let r = vec!['X', '^', c];
    assert(r@ =~= seq!['X', '^', c]);
    r
}

fn error_text(f: &Vec<char>) -> (r: String)
    ensures
        r@ == f@,
{
    string_of(f)
}

/// The coefficient of the fragment `f`, in units.
fn coefficient(f: &Vec<char>) -> (r: Result<i64, ParseError>)
    ensures
        match r {
            Ok(u) => coefficient_of(f@) == Ok::<int, Failure>(u as int),
            Err(e) => coefficient_of(f@) == Err::<int, Failure>(e@),
        },
{
    let t2 = remove_all_exec(f, &pattern('2'));
    let t1 = remove_all_exec(&t2, &pattern('1'));
    let t0 = remove_all_exec(&t1, &pattern('0'));
    let star = vec!['*'];
    assert(star@ =~= seq!['*']);
    let t = remove_all_exec(&t0, &star);
    assert(t@ == stripped(f@));
    if t.len() == 1 && t[0] == '-' {
        assert(t@ =~= seq!['-']);
        return Ok(-UNIT);
    }
    assert(t@ != seq!['-']) by {
        if t@ == seq!['-'] {
            assert(t@[0] == '-');
        }
    }
    if t.len() == 0 {
        return Ok(UNIT);
    }
    match parse_literal(&t) {
        Ok(u) => Ok(u),
        Err(NumberError::Invalid) => Err(ParseError::InvalidNumber(error_text(f))),
        Err(NumberError::OutOfRange) => Err(ParseError::NumberOutOfRange(error_text(f))),
    }
}

/// What the fragment `f` contributes: its power and coefficient, nothing
/// for the fragment `0`, or the failure that it raises.
fn term(f: &Vec<char>) -> (r: Result<Option<(u8, i64)>, ParseError>)
    ensures
        match r {
            Ok(None) => term_of(f@) == Ok::<Option<(nat, int)>, Failure>(None),
            Ok(Some((p, u))) => term_of(f@) == Ok::<Option<(nat, int)>, Failure>(
                Some((p as nat, u as int)),
            ),
            Err(e) => term_of(f@) == Err::<Option<(nat, int)>, Failure>(e@),
        },
{
    let p: u8 = if contains_exec(f, &pattern('2')) {
        2
    } else if contains_exec(f, &pattern('1')) {
        1
    } else if contains_exec(f, &pattern('0')) {
        0
    } else {
        let xc = vec!['X', '^'];
        assert(xc@ =~= seq!['X', '^']);
        if contains_exec(f, &xc) {
            return Err(ParseError::UnsupportedTerm(error_text(f)));
        }
        if f.len() == 1 && f[0] == '0' {
            assert(f@ =~= seq!['0']);
            return Ok(None);
        }
        assert(f@ != seq!['0']) by {
            if f@ == seq!['0'] {
                assert(f@[0] == '0');
            }
        }
        return Err(ParseError::UnsupportedExpression(error_text(f)));
    };
    match coefficient(f) {
        Ok(u) => Ok(Some((p, u))),
        Err(e) => Err(e),
    }
}

/// Largest magnitude of one term's coefficient, in units.
const TERM_BOUND: i128 = 0x8000_0000_0000_0000;

/// The exact sums of the coefficients of one side's terms, by power
/// (2, 1, 0), or the first fragment that fails.
fn side_sums(frags: &Vec<String>) -> (r: Result<(i128, i128, i128), ParseError>)
    ensures
        match r {
            Ok((a, b, c)) => {
                &&& first_failure(texts(frags@)) is None
                &&& a == side_total(texts(frags@), 2)
                &&& b == side_total(texts(frags@), 1)
                &&& c == side_total(texts(frags@), 0)
                &&& -(frags@.len() * TERM_BOUND) <= a <= frags@.len() * TERM_BOUND
                &&& -(frags@.len() * TERM_BOUND) <= b <= frags@.len() * TERM_BOUND
                &&& -(frags@.len() * TERM_BOUND) <= c <= frags@.len() * TERM_BOUND
            },
            Err(e) => first_failure(texts(frags@)) == Some(e@),
        },
{
    let ghost all = texts(frags@);
    let mut sa: i128 = 0;
    let mut sb: i128 = 0;
    let mut sc: i128 = 0;
    let mut i: usize = 0;
    assert(all.skip(0) =~= all);
    while i < frags.len()
        invariant
            i <= frags@.len(),
            all == texts(frags@),
            first_failure(all) == first_failure(all.skip(i as int)),
            side_total(all, 2) == sa + side_total(all.skip(i as int), 2),
            side_total(all, 1) == sb + side_total(all.skip(i as int), 1),
            side_total(all, 0) == sc + side_total(all.skip(i as int), 0),
            -(i * TERM_BOUND) <= sa <= i * TERM_BOUND,
            -(i * TERM_BOUND) <= sb <= i * TERM_BOUND,
            -(i * TERM_BOUND) <= sc <= i * TERM_BOUND,
        decreases frags.len() - i,
    {
        let ghost rest = all.skip(i as int);
        let f = chars_of(frags[i].as_str());
        assert(rest[0] == f@);
        assert(rest.skip(1) =~= all.skip(i + 1));
        assert(i * TERM_BOUND + TERM_BOUND == (i + 1) * TERM_BOUND) by (nonlinear_arith);
        assert((i + 1) * TERM_BOUND <= 0xffff_ffff_ffff_ffff * TERM_BOUND) by (nonlinear_arith)
            requires
                i + 1 <= 0xffff_ffff_ffff_ffff,
        ;
        match term(&f) {
            Err(e) => {
                return Err(e);
            },
            Ok(None) => {},
            Ok(Some((p, u))) => {
                if p == 2 {
                    sa = sa + u as i128;
                } else if p == 1 {
                    sb = sb + u as i128;
                } else {
                    sc = sc + u as i128;
                }
            },
        }
        i = i + 1;
    }
    assert(all.skip(i as int).len() == 0);
    Ok((sa, sb, sc))
}

/// `x - y` when it can be held as a coefficient.
fn difference(x: i128, y: i128) -> (r: Option<i64>)
    ensures
        r is Some <==> fits(x - y),
        r is Some ==> r->Some_0 == x - y,
{
    if y >= 0 && x < i128::MIN + y {
        return None;
    }
    if y < 0 && x > i128::MAX + y {
        return None;
    }
    let d = x - y;
    if d < -(crate::number::LIMIT as i128) || d > crate::number::LIMIT as i128 {
        None
    } else {
        Some(d as i64)
    }
}

/// Adds up the left fragments and takes away the right ones, slot by slot,
/// exactly; the first fragment that fails (left side first) is reported,
/// and a slot that cannot be held fails the whole.
pub fn decompose(left: Vec<String>, right: Vec<String>) -> (r: Result<Coefficients, ParseError>)
    ensures
        match r {
            Ok(v) => decompose_spec(texts(left@), texts(right@)) == Ok::<Coefficients, Failure>(v),
            Err(e) => decompose_spec(texts(left@), texts(right@)) == Err::<Coefficients, Failure>(
                e@,
            ),
        },
{
    let (la, lb, lc) = match side_sums(&left) {
        Err(e) => {
            return Err(e);
        },
        Ok(s) => s,
    };
    let (ra, rb, rc) = match side_sums(&right) {
        Err(e) => {
            return Err(e);
        },
        Ok(s) => s,
    };
    match (difference(la, ra), difference(lb, rb), difference(lc, rc)) {
        (Some(a), Some(b), Some(c)) => Ok(Coefficients { a, b, c }),
        _ => Err(ParseError::SumOutOfRange),
    }
}

/// Reads the equation text into its coefficient vector.
pub fn equation_coefficients(expression: &str) -> (r: Result<Coefficients, ParseError>)
    ensures
        match r {
            Ok(v) => equation_spec(expression@) == Ok::<Coefficients, Failure>(v),
            Err(e) => equation_spec(expression@) == Err::<Coefficients, Failure>(e@),
        },
{
    match parse(expression) {
        Err(e) => Err(e),
        Ok((l, rt)) => decompose(l, rt),
    }
}

/// What the fragment `f` adds to the slot of `power` (zero when it names
/// another power or contributes nothing).
pub open spec fn contribution(f: Seq<char>, power: nat) -> int {
    match term_of(f) {
        Ok(Some((p, u))) => if p == power {
            u
        } else {
            0
        },
        _ => 0,
    }
}

/// The exact sum of what the fragments add to the slot of `power`.
pub open spec fn side_total(frags: Seq<Seq<char>>, power: nat) -> int
    decreases frags.len(),
{
    if frags.len() == 0 {
        0
    } else {
        contribution(frags[0], power) + side_total(frags.skip(1), power)
    }
}

proof fn lemma_side_total_remove(s: Seq<Seq<char>>, j: int, power: nat)
    requires
        0 <= j < s.len(),
    ensures
        side_total(s, power) == contribution(s[j], power) + side_total(s.remove(j), power),
    decreases j,
{
    if j == 0 {
        assert(s.remove(0) =~= s.skip(1));
    } else {
        lemma_side_total_remove(s.skip(1), j - 1, power);
        let r = s.remove(j);
        assert(r[0] == s[0]);
        assert(r.skip(1) =~= s.skip(1).remove(j - 1));
    }
}

proof fn lemma_side_total_permutation(s1: Seq<Seq<char>>, s2: Seq<Seq<char>>, power: nat)
    requires
        s1.to_multiset() == s2.to_multiset(),
    ensures
        side_total(s1, power) == side_total(s2, power),
    decreases s1.len(),
{
    broadcast use vstd::seq_lib::to_multiset_len, vstd::seq_lib::to_multiset_contains;

    if s1.len() == 0 {
        assert(s2.to_multiset().len() == 0);
        assert(s2.len() == 0);
    } else {
        let x = s1[0];
        assert(s1.contains(x));
        assert(s1.to_multiset().count(x) > 0);
        assert(s2.contains(x));
        let j = choose|j: int| 0 <= j < s2.len() && s2[j] == x;
        vstd::seq_lib::to_multiset_remove(s1, 0);
        vstd::seq_lib::to_multiset_remove(s2, j);
        assert(s1.remove(0) =~= s1.skip(1));
        lemma_side_total_permutation(s1.remove(0), s2.remove(j), power);
        lemma_side_total_remove(s2, j, power);
    }
}

proof fn lemma_no_failure(s: Seq<Seq<char>>)
    ensures
        first_failure(s) is None <==> forall|i: int| 0 <= i < s.len() ==> (#[trigger] term_of(
            s[i],
        )) is Ok,
    decreases s.len(),
{
    if s.len() > 0 {
        lemma_no_failure(s.skip(1));
        if first_failure(s) is None {
            assert forall|i: int| 0 <= i < s.len() implies (#[trigger] term_of(s[i])) is Ok by {
                if i > 0 {
                    assert(s.skip(1)[i - 1] == s[i]);
                }
            }
        }
        if forall|i: int| 0 <= i < s.len() ==> (#[trigger] term_of(s[i])) is Ok {
            assert(term_of(s[0]) is Ok);
            assert forall|i: int| 0 <= i < s.skip(1).len() implies (#[trigger] term_of(
                s.skip(1)[i],
            )) is Ok by {
                assert(s.skip(1)[i] == s[i + 1]);
            }
        }
    }
}

proof fn lemma_failure_permutation(s1: Seq<Seq<char>>, s2: Seq<Seq<char>>)
    requires
        s1.to_multiset() == s2.to_multiset(),
    ensures
        first_failure(s1) is None <==> first_failure(s2) is None,
{
    broadcast use vstd::seq_lib::to_multiset_contains;

    lemma_no_failure(s1);
    lemma_no_failure(s2);
    if first_failure(s1) is None {
        assert forall|i: int| 0 <= i < s2.len() implies (#[trigger] term_of(s2[i])) is Ok by {
            let x = s2[i];
            assert(s2.contains(x));
            assert(s2.to_multiset().count(x) > 0);
            assert(s1.contains(x));
        }
    }
    if first_failure(s2) is None {
        assert forall|i: int| 0 <= i < s1.len() implies (#[trigger] term_of(s1[i])) is Ok by {
            let x = s1[i];
            assert(s1.contains(x));
            assert(s1.to_multiset().count(x) > 0);
            assert(s2.contains(x));
        }
    }
}

/// The coefficient vector does not depend on the order of the fragments
/// within each side: when the sides of two readings hold the same
/// fragments, each as often, one succeeds exactly when the other does, and
/// then with the same vector.
pub proof fn law_order_independent(
    l1: Seq<Seq<char>>,
    r1: Seq<Seq<char>>,
    l2: Seq<Seq<char>>,
    r2: Seq<Seq<char>>,
)
    requires
        l1.to_multiset() == l2.to_multiset(),
        r1.to_multiset() == r2.to_multiset(),
    ensures
        decompose_spec(l1, r1) is Ok <==> decompose_spec(l2, r2) is Ok,
        decompose_spec(l1, r1) is Ok ==> decompose_spec(l1, r1) == decompose_spec(l2, r2),
{
    lemma_failure_permutation(l1, l2);
    lemma_failure_permutation(r1, r2);
    lemma_side_total_permutation(l1, l2, 2);
    lemma_side_total_permutation(l1, l2, 1);
    lemma_side_total_permutation(l1, l2, 0);
    lemma_side_total_permutation(r1, r2, 2);
    lemma_side_total_permutation(r1, r2, 1);
    lemma_side_total_permutation(r1, r2, 0);
}

/// Swapping the two sides negates the coefficient vector.
pub proof fn law_sides_swap(left: Seq<Seq<char>>, right: Seq<Seq<char>>)
    requires
        decompose_spec(left, right) is Ok,
    ensures
        ({
            let v = decompose_spec(left, right)->Ok_0;
            decompose_spec(right, left) == Ok::<Coefficients, Failure>(
                Coefficients { a: -v.a as i64, b: -v.b as i64, c: -v.c as i64 },
            )
        }),
{
}

pub proof fn lemma_cleaned_concat(a: Seq<char>, b: Seq<char>)
    ensures
        cleaned(a + b) == cleaned(a) + cleaned(b),
    decreases b.len(),
{
    if b.len() == 0 {
        assert(a + b =~= a);
        assert(cleaned(a) + cleaned(b) =~= cleaned(a));
    } else {
        lemma_cleaned_concat(a, b.drop_last());
        assert((a + b).drop_last() =~= a + b.drop_last());
        assert((a + b).last() == b.last());
        if b.last() == '-' {
            assert(cleaned(a) + cleaned(b.drop_last()) + seq!['+', '-'] =~= cleaned(a) + (cleaned(
                b.drop_last(),
            ) + seq!['+', '-']));
        } else if is_space(b.last()) {
        } else {
            assert((cleaned(a) + cleaned(b.drop_last())).push(b.last()) =~= cleaned(a) + cleaned(
                b.drop_last(),
            ).push(b.last()));
        }
    }
}

pub proof fn lemma_cleaned_plain(s: Seq<char>)
    requires
        forall|i: int| 0 <= i < s.len() ==> s[i] != '-' && !is_space(s[i]),
    ensures
        cleaned(s) == s,
    decreases s.len(),
{
    if s.len() > 0 {
        lemma_cleaned_plain(s.drop_last());
        assert(s.drop_last().push(s.last()) =~= s);
    }
}

pub proof fn lemma_split_plain(s: Seq<char>, sep: char)
    requires
        forall|i: int| 0 <= i < s.len() ==> s[i] != sep,
    ensures
        split_on(s, sep) == seq![s],
    decreases s.len(),
{
    if s.len() == 0 {
        assert(s =~= Seq::<char>::empty());
        assert(seq![s] == seq![Seq::<char>::empty()]);
    } else {
        lemma_split_plain(s.drop_last(), sep);
        assert(s.drop_last().push(s.last()) =~= s);
        assert(seq![s.drop_last()].update(0, s.drop_last().push(s.last())) =~= seq![s]);
    }
}

proof fn lemma_split_concat(a: Seq<char>, b: Seq<char>, sep: char)
    requires
        forall|i: int| 0 <= i < b.len() ==> b[i] != sep,
    ensures
        split_on(a + b, sep).len() == split_on(a, sep).len(),
        split_on(a + b, sep) == split_on(a, sep).update(
            split_on(a, sep).len() - 1,
            split_on(a, sep).last() + b,
        ),
    decreases b.len(),
{
    lemma_split_nonempty(a, sep);
    if b.len() == 0 {
        assert(a + b =~= a);
        assert(split_on(a, sep).last() + b =~= split_on(a, sep).last());
        assert(split_on(a, sep).update(split_on(a, sep).len() - 1, split_on(a, sep).last())
            =~= split_on(a, sep));
    } else {
        let b1 = b.drop_last();
        lemma_split_concat(a, b1, sep);
        assert((a + b).drop_last() =~= a + b1);
        assert((a + b).last() == b.last());
        let r = split_on(a, sep);
        assert((r.last() + b1).push(b.last()) =~= r.last() + b);
        assert(r.update(r.len() - 1, r.last() + b1).update(r.len() - 1, (r.last() + b1).push(
            b.last(),
        )) =~= r.update(r.len() - 1, r.last() + b));
    }
}

proof fn lemma_split_nonempty(s: Seq<char>, sep: char)
    ensures
        split_on(s, sep).len() >= 1,
    decreases s.len(),
{
    if s.len() > 0 {
        lemma_split_nonempty(s.drop_last(), sep);
    }
}

/// Splitting `a`, `sep`, `b` where neither part holds `sep` gives the two parts.
pub proof fn lemma_split_two(a: Seq<char>, b: Seq<char>, sep: char)
    requires
        forall|i: int| 0 <= i < a.len() ==> a[i] != sep,
        forall|i: int| 0 <= i < b.len() ==> b[i] != sep,
    ensures
        split_on(a.push(sep) + b, sep) == seq![a, b],
{
    lemma_split_plain(a, sep);
    assert(a.push(sep).drop_last() =~= a);
    assert(split_on(a.push(sep), sep) == seq![a].push(Seq::<char>::empty()));
    lemma_split_concat(a.push(sep), b, sep);
    assert(seq![a].push(Seq::<char>::empty()).update(1, Seq::<char>::empty() + b) =~= seq![a, b]);
}

/// A prefix without the pattern's first character is kept as it is.
pub proof fn lemma_remove_all_prefix(a: Seq<char>, b: Seq<char>, p: Seq<char>)
    requires
        p.len() > 0,
        forall|i: int| 0 <= i < a.len() ==> a[i] != p[0],
    ensures
        remove_all(a + b, p) == a + remove_all(b, p),
    decreases a.len(),
{
    if a.len() == 0 {
        assert(a + b =~= b);
        assert(a + remove_all(b, p) =~= remove_all(b, p));
    } else {
        let s = a + b;
        assert(!occurs_at(s, p, 0)) by {
            if occurs_at(s, p, 0) {
                assert(s.subrange(0, p.len() as int)[0] == s[0]);
            }
        }
        assert(s.skip(1) =~= a.skip(1) + b);
        lemma_remove_all_prefix(a.skip(1), b, p);
        assert(seq![s[0]] + (a.skip(1) + remove_all(b, p)) =~= a + remove_all(b, p));
    }
}

/// The pieces joined back together, with `sep` between neighbours.
pub open spec fn join_on(parts: Seq<Seq<char>>, sep: char) -> Seq<char>
    decreases parts.len(),
{
    if parts.len() == 0 {
        seq![]
    } else if parts.len() == 1 {
        parts[0]
    } else {
        join_on(parts.drop_last(), sep).push(sep) + parts.last()
    }
}

/// Splitting at `sep` loses nothing: joining the pieces with `sep` gives
/// the text back. With `sides_of`, the fragments of both sides, joined with
/// `+` and then with `=`, give the cleaned equation text.
pub proof fn law_split_joins(s: Seq<char>, sep: char)
    ensures
        join_on(split_on(s, sep), sep) == s,
    decreases s.len(),
{
    if s.len() == 0 {
        assert(s =~= Seq::<char>::empty());
    } else {
        let d = s.drop_last();
        let c = s.last();
        let r = split_on(d, sep);
        law_split_joins(d, sep);
        lemma_split_nonempty(d, sep);
        if c == sep {
            let r2 = r.push(Seq::<char>::empty());
            assert(r2.drop_last() =~= r);
            assert(join_on(r2, sep) == join_on(r, sep).push(sep) + Seq::<char>::empty());
            assert(d.push(sep) + Seq::<char>::empty() =~= s);
        } else {
            let r2 = r.update(r.len() - 1, r.last().push(c));
            if r.len() == 1 {
                assert(join_on(r2, sep) == r2[0]);
                assert(r2[0] =~= s);
            } else {
                assert(r2.drop_last() =~= r.drop_last());
                assert(join_on(r, sep) == join_on(r.drop_last(), sep).push(sep) + r.last());
                assert(join_on(r2, sep) == join_on(r.drop_last(), sep).push(sep) + r.last().push(
                    c,
                ));
                assert(join_on(r.drop_last(), sep).push(sep) + r.last().push(c) =~= (join_on(
                    r.drop_last(),
                    sep,
                ).push(sep) + r.last()).push(c));
                assert(d.push(c) =~= s);
            }
        }
    }
}

/// The fragments that `sides_of` gives, joined with `+` on each side and
/// the sides joined with `=`, are the cleaned text.
pub proof fn law_fragments_join(s: Seq<char>)
    requires
        sides_of(s) is Some,
    ensures
        ({
            let (l, r) = sides_of(s)->Some_0;
            join_on(seq![join_on(l, '+'), join_on(r, '+')], '=') == cleaned(s)
        }),
{
    let sides = split_on(cleaned(s), '=');
    law_split_joins(cleaned(s), '=');
    law_split_joins(sides[0], '+');
    law_split_joins(sides[1], '+');
    assert(seq![sides[0], sides[1]] =~= sides);
    let j = seq![sides[0], sides[1]];
    assert(j.drop_last() =~= seq![sides[0]]);
}

} // verus!
