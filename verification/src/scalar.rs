//! The numbers that priors, values and scores are made of.
//!
//! The search is written against [`Scalar`]: a type with constants, arithmetic and
//! comparisons, each of which is a function of its arguments. Of these it is assumed that no
//! number is below itself and that zero compares equal to itself, and nothing else, so a law
//! proved here holds whatever rounding, overflow or unordered values the type has.
//! A program instantiates it with machine floats; [`Expr`] is the instance that keeps every
//! computation as the expression it is.

use vstd::prelude::*;

verus! {

/// A function of one number.
#[derive(Clone, Copy, Debug, PartialEq, Eq, Structural)]
pub enum Unary {
    Abs,
    Sqrt,
    Tanh,
    Exp,
    Ln,
    Ceil,
    Floor,
    Round,
}

/// A function of two numbers.
#[derive(Clone, Copy, Debug, PartialEq, Eq, Structural)]
pub enum Binary {
    Plus,
    Minus,
    Times,
    Over,
    Power,
    Max,
    Min,
}

/// A number type to compute with.
pub trait Scalar: Sized {
    /// What [`Scalar::decimal`] gives.
    closed spec fn spec_decimal(digits: int, exponent: int) -> Self {
        arbitrary()
    }

    /// What [`Scalar::count`] gives.
    closed spec fn spec_count(n: usize) -> Self {
        arbitrary()
    }

    /// What [`Scalar::infinity`] gives.
    closed spec fn spec_infinity(positive: bool) -> Self {
        arbitrary()
    }

    /// What [`Scalar::unary`] gives.
    closed spec fn spec_unary(op: Unary, x: Self) -> Self {
        arbitrary()
    }

    /// What [`Scalar::binary`] gives.
    closed spec fn spec_binary(op: Binary, x: Self, y: Self) -> Self {
        arbitrary()
    }

    /// What [`Scalar::raise`] gives.
    closed spec fn spec_raise(x: Self, n: usize) -> Self {
        arbitrary()
    }

    /// What [`Scalar::less`] answers.
    closed spec fn spec_less(x: Self, y: Self) -> bool {
        arbitrary()
    }

    /// What [`Scalar::same`] answers.
    closed spec fn spec_same(x: Self, y: Self) -> bool {
        arbitrary()
    }

    /// What [`Scalar::to_count`] gives.
    closed spec fn spec_to_count(x: Self) -> usize {
        arbitrary()
    }

    /// The number nearest to `digits * 10^exponent`.
    fn decimal(digits: i64, exponent: i32) -> (r: Self)
        ensures
            r == Self::spec_decimal(digits as int, exponent as int),
    ;

    /// The number nearest to `n`.
    fn count(n: usize) -> (r: Self)
        ensures
            r == Self::spec_count(n),
    ;

    /// Plus or minus infinity.
    fn infinity(positive: bool) -> (r: Self)
        ensures
            r == Self::spec_infinity(positive),
    ;

    /// Applies a function of one number.
    fn unary(op: Unary, x: &Self) -> (r: Self)
        ensures
            r == Self::spec_unary(op, *x),
    ;

    /// Applies a function of two numbers.
    fn binary(op: Binary, x: &Self, y: &Self) -> (r: Self)
        ensures
            r == Self::spec_binary(op, *x, *y),
    ;

    /// `x` to a whole power.
    fn raise(x: &Self, n: usize) -> (r: Self)
        ensures
            r == Self::spec_raise(*x, n),
    ;

    /// Whether `x` is below `y`; false where the two are unordered.
    fn less(x: &Self, y: &Self) -> (r: bool)
        ensures
            r == Self::spec_less(*x, *y),
    ;

    /// Whether the two compare equal.
    fn same(x: &Self, y: &Self) -> (r: bool)
        ensures
            r == Self::spec_same(*x, *y),
    ;

    /// The number cut down to a count, clamped to the range of `usize`.
    fn to_count(x: &Self) -> (r: usize)
        ensures
            r == Self::spec_to_count(*x),
    ;

    /// A copy of the number.
    fn dup(&self) -> (r: Self)
        ensures
            r == *self,
    ;

    /// No number is below itself.
    proof fn less_law(x: Self)
        ensures
            !Self::spec_less(x, x),
    ;

    /// Zero compares equal to itself.
    proof fn same_law()
        ensures
            Self::spec_same(Self::spec_decimal(0, 0), Self::spec_decimal(0, 0)),
    ;
}

/// `x + y`
pub open spec fn plus<R: Scalar>(x: R, y: R) -> R {
    R::spec_binary(Binary::Plus, x, y)
}

/// `x - y`
pub open spec fn minus<R: Scalar>(x: R, y: R) -> R {
    R::spec_binary(Binary::Minus, x, y)
}

/// `x * y`
pub open spec fn times<R: Scalar>(x: R, y: R) -> R {
    R::spec_binary(Binary::Times, x, y)
}

/// `x / y`
pub open spec fn over<R: Scalar>(x: R, y: R) -> R {
    R::spec_binary(Binary::Over, x, y)
}

/// The square root of `x`.
pub open spec fn root<R: Scalar>(x: R) -> R {
    R::spec_unary(Unary::Sqrt, x)
}

/// Zero.
pub open spec fn zero<R: Scalar>() -> R {
    R::spec_decimal(0, 0)
}

/// One.
pub open spec fn one<R: Scalar>() -> R {
    R::spec_decimal(1, 0)
}

/// The larger of `x` and `y`.
pub open spec fn larger<R: Scalar>(x: R, y: R) -> R {
    R::spec_binary(Binary::Max, x, y)
}

/// The smaller of `x` and `y`.
pub open spec fn smaller<R: Scalar>(x: R, y: R) -> R {
    R::spec_binary(Binary::Min, x, y)
}

/// `x <= y`; false where the two are unordered.
pub open spec fn spec_at_most<R: Scalar>(x: R, y: R) -> bool {
    R::spec_less(x, y) || R::spec_same(x, y)
}

/// Whether `x <= y`.
pub fn at_most<R: Scalar>(x: &R, y: &R) -> (r: bool)
    ensures
        r == spec_at_most(*x, *y),
{
    R::less(x, y) || R::same(x, y)
}

/// The sum of numbers, added up from the left.
pub open spec fn spec_sum<R: Scalar>(s: Seq<R>) -> R
    decreases s.len(),
{
    if s.len() == 0 {
        zero()
    } else {
        plus(spec_sum(s.drop_last()), s.last())
    }
}

/// Adds numbers up from the left.
pub fn sum<R: Scalar>(v: &[R]) -> (r: R)
    ensures
        r == spec_sum(v@),
{
    let mut out: R = R::decimal(0, 0);
    let mut i: usize = 0;
    assert(v@.take(0).len() == 0);
    while i < v.len()
        invariant
            i <= v.len(),
            out == spec_sum(v@.take(i as int)),
        decreases v.len() - i,
    {
        assert(v@.take(i + 1).drop_last() =~= v@.take(i as int));
        out = R::binary(Binary::Plus, &out, &v[i]);
        i += 1;
    }
    assert(v@.take(i as int) =~= v@);
    out
}

/// A number type whose numbers can be brought into another one.
pub trait Convert<T: Scalar>: Scalar {
    /// What [`Convert::convert`] gives.
    closed spec fn spec_convert(self) -> T {
        arbitrary()
    }

    /// The number of `T` nearest to this one.
    fn convert(&self) -> (r: T)
        ensures
            r == self.spec_convert(),
    ;
}

/// `x` cut to the range from `lo` to `hi`; an unordered `x` stays as it is.
pub open spec fn spec_clamp<R: Scalar>(x: R, lo: R, hi: R) -> R {
    if R::spec_less(x, lo) {
        lo
    } else if R::spec_less(hi, x) {
        hi
    } else {
        x
    }
}

/// Cuts `x` to the range from `lo` to `hi`.
pub fn clamp<R: Scalar>(x: R, lo: R, hi: R) -> (r: R)
    ensures
        r == spec_clamp(x, lo, hi),
{
    if R::less(&x, &lo) {
        lo
    } else if R::less(&hi, &x) {
        hi
    } else {
        x
    }
}

/// Copies of a sequence of numbers.
pub fn dup_all<R: Scalar>(v: &Vec<R>) -> (r: Vec<R>)
    ensures
        r@ == v@,
{
    let mut out: Vec<R> = Vec::with_capacity(v.len());
    let mut i: usize = 0;
    while i < v.len()
        invariant
            i <= v.len(),
            out@ == v@.take(i as int),
        decreases v.len() - i,
    {
        out.push(v[i].dup());
        i += 1;
        assert(out@ =~= v@.take(i as int));
    }
    assert(out@ =~= v@);
    out
}

/// `n` copies of one number.
pub fn filled<R: Scalar>(x: &R, n: usize) -> (r: Vec<R>)
    ensures
        r@ == Seq::new(n as nat, |i: int| *x),
{
    let mut out: Vec<R> = Vec::with_capacity(n);
    let mut i: usize = 0;
    while i < n
        invariant
            i <= n,
            out@ == Seq::new(i as nat, |j: int| *x),
        decreases n - i,
    {
        out.push(x.dup());
        i += 1;
        assert(out@ =~= Seq::new(i as nat, |j: int| *x));
    }
    out
}

/// A number kept as the expression that computes it. Two expressions are the same where they
/// are equal as trees, and none is below another.
#[derive(Debug, PartialEq, Eq)]
pub enum Expr {
    Decimal(i64, i32),
    Count(usize),
    Infinity(bool),
    Unary(Unary, Box<Expr>),
    Binary(Binary, Box<Expr>, Box<Expr>),
    Raise(Box<Expr>, usize),
}

/// Whether two expressions are equal as trees.
fn expr_same(x: &Expr, y: &Expr) -> (r: bool)
    ensures
        r == (*x == *y),
    decreases *x,
{
    match (x, y) {
        (Expr::Decimal(a, b), Expr::Decimal(c, d)) => *a == *c && *b == *d,
        (Expr::Count(a), Expr::Count(b)) => *a == *b,
        (Expr::Infinity(a), Expr::Infinity(b)) => *a == *b,
        (Expr::Unary(f, a), Expr::Unary(g, b)) => *f == *g && expr_same(a, b),
        (Expr::Binary(f, a, b), Expr::Binary(g, c, d)) => *f == *g && expr_same(a, c)
            && expr_same(b, d),
        (Expr::Raise(a, n), Expr::Raise(b, m)) => *n == *m && expr_same(a, b),
        _ => false,
    }
}

/// A copy of an expression.
fn expr_dup(x: &Expr) -> (r: Expr)
    ensures
        r == *x,
    decreases *x,
{
    match x {
        Expr::Decimal(a, b) => Expr::Decimal(*a, *b),
        Expr::Count(n) => Expr::Count(*n),
        Expr::Infinity(p) => Expr::Infinity(*p),
        Expr::Unary(f, a) => Expr::Unary(*f, Box::new(expr_dup(a))),
        Expr::Binary(f, a, b) => Expr::Binary(*f, Box::new(expr_dup(a)), Box::new(expr_dup(b))),
        Expr::Raise(a, n) => Expr::Raise(Box::new(expr_dup(a)), *n),
    }
}

impl Scalar for Expr {
    open spec fn spec_decimal(digits: int, exponent: int) -> Self {
        Expr::Decimal(digits as i64, exponent as i32)
    }

    open spec fn spec_count(n: usize) -> Self {
        Expr::Count(n)
    }

    open spec fn spec_infinity(positive: bool) -> Self {
        Expr::Infinity(positive)
    }

    open spec fn spec_unary(op: Unary, x: Self) -> Self {
        Expr::Unary(op, Box::new(x))
    }

    open spec fn spec_binary(op: Binary, x: Self, y: Self) -> Self {
        Expr::Binary(op, Box::new(x), Box::new(y))
    }

    open spec fn spec_raise(x: Self, n: usize) -> Self {
        Expr::Raise(Box::new(x), n)
    }

    open spec fn spec_less(x: Self, y: Self) -> bool {
        false
    }

    open spec fn spec_same(x: Self, y: Self) -> bool {
        x == y
    }

    open spec fn spec_to_count(x: Self) -> usize {
        match x {
            Expr::Count(n) => n,
            _ => 0,
        }
    }

    fn decimal(digits: i64, exponent: i32) -> (r: Self) {
        Expr::Decimal(digits, exponent)
    }

    fn count(n: usize) -> (r: Self) {
        Expr::Count(n)
    }

    fn infinity(positive: bool) -> (r: Self) {
        Expr::Infinity(positive)
    }

    fn unary(op: Unary, x: &Self) -> (r: Self) {
        Expr::Unary(op, Box::new(expr_dup(x)))
    }

    fn binary(op: Binary, x: &Self, y: &Self) -> (r: Self) {
        Expr::Binary(op, Box::new(expr_dup(x)), Box::new(expr_dup(y)))
    }

    fn raise(x: &Self, n: usize) -> (r: Self) {
        Expr::Raise(Box::new(expr_dup(x)), n)
    }

    fn less(x: &Self, y: &Self) -> (r: bool) {
        false
    }

    fn same(x: &Self, y: &Self) -> (r: bool) {
        expr_same(x, y)
    }

    fn to_count(x: &Self) -> (r: usize) {
        match x {
            Expr::Count(n) => *n,
            _ => 0,
        }
    }

    fn dup(&self) -> (r: Self) {
        expr_dup(self)
    }

    proof fn less_law(x: Self) {
    }

    proof fn same_law() {
    }
}

impl Convert<Expr> for Expr {
    open spec fn spec_convert(self) -> Expr {
        self
    }

    fn convert(&self) -> (r: Expr) {
        expr_dup(self)
    }
}

} // verus!
