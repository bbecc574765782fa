//! The arithmetic of samples.
//!
//! Every stage of the library computes on samples of some type `T`, through
//! an [`Arithmetic`] that the caller supplies. Nothing is taken for granted
//! of that arithmetic: rounding, special values and platform differences are
//! its own affair. What the library proves is which operations are applied to
//! which samples, and in which order. A [`Formula`] writes such a computation
//! down, and [`evals`] says that a sample is an answer the arithmetic gave for
//! it.

use vstd::prelude::*;

verus! {

/// A sample: a plain value that can be copied and handed to other threads.
pub trait Sample: Copy + Send + Sync {

}

impl<T: Copy + Send + Sync> Sample for T {

}

/// The operations on samples that the library is built from.
pub trait Arithmetic<T>: Sync {
    /// The quotient of two whole numbers, `p / q`.
    fn ratio(&self, p: u64, q: u64) -> T;

    /// A whole number as a sample.
    fn count(&self, n: usize) -> T;

    /// Positive infinity.
    fn infinity(&self) -> T;

    /// The circle constant of a full turn.
    fn turn(&self) -> T;

    fn neg(&self, a: T) -> T;

    fn abs(&self, a: T) -> T;

    fn signum(&self, a: T) -> T;

    fn sqrt(&self, a: T) -> T;

    fn exp(&self, a: T) -> T;

    fn ln(&self, a: T) -> T;

    /// The logarithm of `1 + a`.
    fn ln_1p(&self, a: T) -> T;

    fn asinh(&self, a: T) -> T;

    fn cos(&self, a: T) -> T;

    fn floor(&self, a: T) -> T;

    fn ceil(&self, a: T) -> T;

    fn plus(&self, a: T, b: T) -> T;

    fn minus(&self, a: T, b: T) -> T;

    fn times(&self, a: T, b: T) -> T;

    fn over(&self, a: T, b: T) -> T;

    /// The smaller of two samples.
    fn least(&self, a: T, b: T) -> T;

    /// The larger of two samples.
    fn most(&self, a: T, b: T) -> T;

    /// `a` to the power `b`.
    fn powf(&self, a: T, b: T) -> T;

    /// `a` to a whole power.
    fn powi(&self, a: T, n: usize) -> T;

    /// `a` limited to the range from `low` to `high`.
    fn clamp(&self, a: T, low: T, high: T) -> T;

    fn less(&self, a: T, b: T) -> bool;

    fn less_or_equal(&self, a: T, b: T) -> bool;

    fn equal(&self, a: T, b: T) -> bool;

    /// Whether the sample is not a number.
    fn is_nan(&self, a: T) -> bool;

    /// A whole number that orders samples: the smaller sample has the smaller
    /// key, and samples that compare equal share one.
    fn order_key(&self, a: T) -> u64;

    /// The whole part of a sample as an index, limited to the index range.
    fn to_index(&self, a: T) -> usize;

    /// The whole part of a sample as a signed offset, limited to the range of
    /// the offsets.
    fn to_offset(&self, a: T) -> i64;

    /// The whole part of a sample as a byte, limited to the byte range.
    fn to_byte(&self, a: T) -> u8;
}

/// Operations on one sample.
pub enum Unary {
    Neg,
    Abs,
    Signum,
    Sqrt,
    Exp,
    Ln,
    Ln1p,
    Asinh,
    Cos,
    Floor,
    Ceil,
}

/// Operations on two samples.
pub enum Binary {
    Plus,
    Minus,
    Times,
    Over,
    Least,
    Most,
    Pow,
}

/// Questions about two samples.
pub enum Test {
    Less,
    LessOrEqual,
    Equal,
}

/// A computation on samples, written down.
pub enum Formula<T> {
    /// A given sample.
    Given(T),
    /// The quotient of two whole numbers.
    Ratio(u64, u64),
    /// A whole number.
    Count(usize),
    Infinity,
    Turn,
    Unary(Unary, Box<Formula<T>>),
    Binary(Binary, Box<Formula<T>>, Box<Formula<T>>),
    /// A formula to a whole power.
    Power(Box<Formula<T>>, usize),
    /// The first formula limited to the range from the second to the third.
    Clamp(Box<Formula<T>>, Box<Formula<T>>, Box<Formula<T>>),
    /// The third formula where the test holds of the first two, the fourth
    /// where it does not.
    Select(Test, Box<Formula<T>>, Box<Formula<T>>, Box<Formula<T>>, Box<Formula<T>>),
}

/// `v` is an answer of the arithmetic for `op` on `x`.
pub open spec fn unary_answers<T, A: Arithmetic<T>>(ops: &A, op: Unary, x: T, v: T) -> bool {
    match op {
        Unary::Neg => call_ensures(A::neg, (ops, x), v),
        Unary::Abs => call_ensures(A::abs, (ops, x), v),
        Unary::Signum => call_ensures(A::signum, (ops, x), v),
        Unary::Sqrt => call_ensures(A::sqrt, (ops, x), v),
        Unary::Exp => call_ensures(A::exp, (ops, x), v),
        Unary::Ln => call_ensures(A::ln, (ops, x), v),
        Unary::Ln1p => call_ensures(A::ln_1p, (ops, x), v),
        Unary::Asinh => call_ensures(A::asinh, (ops, x), v),
        Unary::Cos => call_ensures(A::cos, (ops, x), v),
        Unary::Floor => call_ensures(A::floor, (ops, x), v),
        Unary::Ceil => call_ensures(A::ceil, (ops, x), v),
    }
}

/// `v` is an answer of the arithmetic for `op` on `x` and `y`.
pub open spec fn binary_answers<T, A: Arithmetic<T>>(ops: &A, op: Binary, x: T, y: T, v: T) -> bool {
    match op {
        Binary::Plus => call_ensures(A::plus, (ops, x, y), v),
        Binary::Minus => call_ensures(A::minus, (ops, x, y), v),
        Binary::Times => call_ensures(A::times, (ops, x, y), v),
        Binary::Over => call_ensures(A::over, (ops, x, y), v),
        Binary::Least => call_ensures(A::least, (ops, x, y), v),
        Binary::Most => call_ensures(A::most, (ops, x, y), v),
        Binary::Pow => call_ensures(A::powf, (ops, x, y), v),
    }
}

/// `r` is an answer of the arithmetic to the question `test` about `x` and `y`.
pub open spec fn test_answers<T, A: Arithmetic<T>>(ops: &A, test: Test, x: T, y: T, r: bool) -> bool {
    match test {
        Test::Less => call_ensures(A::less, (ops, x, y), r),
        Test::LessOrEqual => call_ensures(A::less_or_equal, (ops, x, y), r),
        Test::Equal => call_ensures(A::equal, (ops, x, y), r),
    }
}

/// `v` is an answer of the arithmetic for `x` to the power `n`.
pub open spec fn power_answers<T, A: Arithmetic<T>>(ops: &A, x: T, n: usize, v: T) -> bool {
    call_ensures(A::powi, (ops, x, n), v)
}

/// `v` is an answer of the arithmetic for `x` limited to `low..=high`.
pub open spec fn clamp_answers<T, A: Arithmetic<T>>(ops: &A, x: T, low: T, high: T, v: T) -> bool {
    call_ensures(A::clamp, (ops, x, low, high), v)
}

/// `v` is a value of the formula: the answer of its outermost operation on
/// values of its parts.
pub open spec fn evals<T, A: Arithmetic<T>>(ops: &A, f: Formula<T>, v: T) -> bool
    decreases f,
{
    match f {
        Formula::Given(x) => v == x,
        Formula::Ratio(p, q) => call_ensures(A::ratio, (ops, p, q), v),
        Formula::Count(n) => call_ensures(A::count, (ops, n), v),
        Formula::Infinity => call_ensures(A::infinity, (ops,), v),
        Formula::Turn => call_ensures(A::turn, (ops,), v),
        Formula::Unary(op, a) => exists|x: T|
            evals(ops, *a, x) && #[trigger] unary_answers(ops, op, x, v),
        Formula::Binary(op, a, b) => exists|x: T, y: T|
            evals(ops, *a, x) && evals(ops, *b, y) && #[trigger] binary_answers(ops, op, x, y, v),
        Formula::Power(a, n) => exists|x: T|
            evals(ops, *a, x) && #[trigger] power_answers(ops, x, n, v),
        Formula::Clamp(a, low, high) => exists|x: T, l: T, h: T|
            evals(ops, *a, x) && evals(ops, *low, l) && evals(ops, *high, h)
                && #[trigger] clamp_answers(ops, x, l, h, v),
        Formula::Select(test, a, b, then, other) => exists|x: T, y: T, r: bool|
            evals(ops, *a, x) && evals(ops, *b, y) && #[trigger] test_answers(ops, test, x, y, r) && (
            if r {
                evals(ops, *then, v)
            } else {
                evals(ops, *other, v)
            }),
    }
}

/// `r` is an answer to the question `test` about values of the two formulas.
pub open spec fn decides<T, A: Arithmetic<T>>(
    ops: &A,
    test: Test,
    a: Formula<T>,
    b: Formula<T>,
    r: bool,
) -> bool {
    exists|x: T, y: T|
        evals(ops, a, x) && evals(ops, b, y) && #[trigger] test_answers(ops, test, x, y, r)
}

/// `k` is the index that the arithmetic gave for a value of the formula.
pub open spec fn indexes<T, A: Arithmetic<T>>(ops: &A, f: Formula<T>, k: usize) -> bool {
    exists|x: T| evals(ops, f, x) && #[trigger] index_answers(ops, x, k)
}

/// `k` is an answer of the arithmetic for the index of `x`.
pub open spec fn index_answers<T, A: Arithmetic<T>>(ops: &A, x: T, k: usize) -> bool {
    call_ensures(A::to_index, (ops, x), k)
}

/// `k` is the offset that the arithmetic gave for a value of the formula.
pub open spec fn offsets<T, A: Arithmetic<T>>(ops: &A, f: Formula<T>, k: i64) -> bool {
    exists|x: T| evals(ops, f, x) && #[trigger] offset_answers(ops, x, k)
}

/// `k` is an answer of the arithmetic for the offset of `x`.
pub open spec fn offset_answers<T, A: Arithmetic<T>>(ops: &A, x: T, k: i64) -> bool {
    call_ensures(A::to_offset, (ops, x), k)
}

/// `b` is the byte that the arithmetic gave for a value of the formula.
pub open spec fn bytes_of<T, A: Arithmetic<T>>(ops: &A, f: Formula<T>, b: u8) -> bool {
    exists|x: T| evals(ops, f, x) && #[trigger] byte_answers(ops, x, b)
}

/// `b` is an answer of the arithmetic for the byte of `x`.
pub open spec fn byte_answers<T, A: Arithmetic<T>>(ops: &A, x: T, b: u8) -> bool {
    call_ensures(A::to_byte, (ops, x), b)
}

/// Every sample of `vs` is a value of the formula at its place in `fs`.
pub open spec fn evals_all<T, A: Arithmetic<T>>(ops: &A, fs: Seq<Formula<T>>, vs: Seq<T>) -> bool {
    &&& fs.len() == vs.len()
    &&& forall|i: int| 0 <= i < vs.len() ==> evals(ops, fs[i], #[trigger] vs[i])
}

/// The samples of a sequence, each as a formula.
pub open spec fn given<T>(s: Seq<T>) -> Seq<Formula<T>> {
    Seq::new(s.len(), |i: int| Formula::Given(s[i]))
}

/// The whole number `p` as a formula.
pub open spec fn whole<T>(p: u64) -> Formula<T> {
    Formula::Ratio(p, 1)
}

impl<T> Formula<T> {
    pub open spec fn apply(self, op: Unary) -> Formula<T> {
        Formula::Unary(op, Box::new(self))
    }

    pub open spec fn with(self, op: Binary, other: Formula<T>) -> Formula<T> {
        Formula::Binary(op, Box::new(self), Box::new(other))
    }

    pub open spec fn abs(self) -> Formula<T> {
        self.apply(Unary::Abs)
    }

    pub open spec fn plus(self, other: Formula<T>) -> Formula<T> {
        self.with(Binary::Plus, other)
    }

    pub open spec fn minus(self, other: Formula<T>) -> Formula<T> {
        self.with(Binary::Minus, other)
    }

    pub open spec fn times(self, other: Formula<T>) -> Formula<T> {
        self.with(Binary::Times, other)
    }

    pub open spec fn over(self, other: Formula<T>) -> Formula<T> {
        self.with(Binary::Over, other)
    }

    pub open spec fn least(self, other: Formula<T>) -> Formula<T> {
        self.with(Binary::Least, other)
    }

    pub open spec fn most(self, other: Formula<T>) -> Formula<T> {
        self.with(Binary::Most, other)
    }

    pub open spec fn power(self, n: usize) -> Formula<T> {
        Formula::Power(Box::new(self), n)
    }

    pub open spec fn clamp(self, low: Formula<T>, high: Formula<T>) -> Formula<T> {
        Formula::Clamp(Box::new(self), Box::new(low), Box::new(high))
    }

    /// The formula limited to the unit range.
    pub open spec fn unit(self) -> Formula<T> {
        self.clamp(whole(0), whole(1))
    }

    pub open spec fn select(
        test: Test,
        a: Formula<T>,
        b: Formula<T>,
        then: Formula<T>,
        other: Formula<T>,
    ) -> Formula<T> {
        Formula::Select(test, Box::new(a), Box::new(b), Box::new(then), Box::new(other))
    }
}

/// A sample together with the formula that it is a value of.
pub struct Traced<T> {
    pub value: T,
    pub formula: Ghost<Formula<T>>,
}

impl<T: Copy> Clone for Traced<T> {
    fn clone(&self) -> (r: Self)
        ensures
            r == *self,
    {
        *self
    }
}

impl<T: Copy> Copy for Traced<T> {

}

impl<T: Copy> Traced<T> {
    /// The sample is a value of the formula.
    pub open spec fn holds<A: Arithmetic<T>>(self, ops: &A) -> bool {
        evals(ops, self.formula@, self.value)
    }

    pub fn given<A: Arithmetic<T>>(_ops: &A, value: T) -> (r: Self)
        ensures
            r.holds(_ops),
            r.value == value,
            r.formula@ == Formula::Given(value),
    {
        Traced { value, formula: Ghost(Formula::Given(value)) }
    }

    pub fn ratio<A: Arithmetic<T>>(ops: &A, p: u64, q: u64) -> (r: Self)
        ensures
            r.holds(ops),
            r.formula@ == Formula::<T>::Ratio(p, q),
    {
        let value = ops.ratio(p, q);
        Traced { value, formula: Ghost(Formula::Ratio(p, q)) }
    }

    pub fn whole<A: Arithmetic<T>>(ops: &A, p: u64) -> (r: Self)
        ensures
            r.holds(ops),
            r.formula@ == whole::<T>(p),
    {
        Self::ratio(ops, p, 1)
    }

    pub fn count<A: Arithmetic<T>>(ops: &A, n: usize) -> (r: Self)
        ensures
            r.holds(ops),
            r.formula@ == Formula::<T>::Count(n),
    {
        let value = ops.count(n);
        Traced { value, formula: Ghost(Formula::Count(n)) }
    }

    pub fn infinity<A: Arithmetic<T>>(ops: &A) -> (r: Self)
        ensures
            r.holds(ops),
            r.formula@ == Formula::<T>::Infinity,
    {
        let value = ops.infinity();
        Traced { value, formula: Ghost(Formula::Infinity) }
    }

    pub fn turn<A: Arithmetic<T>>(ops: &A) -> (r: Self)
        ensures
            r.holds(ops),
            r.formula@ == Formula::<T>::Turn,
    {
        let value = ops.turn();
        Traced { value, formula: Ghost(Formula::Turn) }
    }

    pub fn apply<A: Arithmetic<T>>(self, ops: &A, op: Unary) -> (r: Self)
        requires
            self.holds(ops),
        ensures
            r.holds(ops),
            r.formula@ == self.formula@.apply(op),
    {
        let ghost f = self.formula@.apply(op);
        let x = self.value;
        let value = match op {
            Unary::Neg => ops.neg(x),
            Unary::Abs => ops.abs(x),
            Unary::Signum => ops.signum(x),
            Unary::Sqrt => ops.sqrt(x),
            Unary::Exp => ops.exp(x),
            Unary::Ln => ops.ln(x),
            Unary::Ln1p => ops.ln_1p(x),
            Unary::Asinh => ops.asinh(x),
            Unary::Cos => ops.cos(x),
            Unary::Floor => ops.floor(x),
            Unary::Ceil => ops.ceil(x),
        };
        assert(unary_answers(ops, op, x, value));
        Traced { value, formula: Ghost(f) }
    }

    pub fn with<A: Arithmetic<T>>(self, ops: &A, op: Binary, other: Self) -> (r: Self)
        requires
            self.holds(ops),
            other.holds(ops),
        ensures
            r.holds(ops),
            r.formula@ == self.formula@.with(op, other.formula@),
    {
        let ghost f = self.formula@.with(op, other.formula@);
        let x = self.value;
        let y = other.value;
        let value = match op {
            Binary::Plus => ops.plus(x, y),
            Binary::Minus => ops.minus(x, y),
            Binary::Times => ops.times(x, y),
            Binary::Over => ops.over(x, y),
            Binary::Least => ops.least(x, y),
            Binary::Most => ops.most(x, y),
            Binary::Pow => ops.powf(x, y),
        };
        assert(binary_answers(ops, op, x, y, value));
        Traced { value, formula: Ghost(f) }
    }

    pub fn plus<A: Arithmetic<T>>(self, ops: &A, other: Self) -> (r: Self)
        requires
            self.holds(ops),
            other.holds(ops),
        ensures
            r.holds(ops),
            r.formula@ == self.formula@.plus(other.formula@),
    {
        self.with(ops, Binary::Plus, other)
    }

    pub fn minus<A: Arithmetic<T>>(self, ops: &A, other: Self) -> (r: Self)
        requires
            self.holds(ops),
            other.holds(ops),
        ensures
            r.holds(ops),
            r.formula@ == self.formula@.minus(other.formula@),
    {
        self.with(ops, Binary::Minus, other)
    }

    pub fn times<A: Arithmetic<T>>(self, ops: &A, other: Self) -> (r: Self)
        requires
            self.holds(ops),
            other.holds(ops),
        ensures
            r.holds(ops),
            r.formula@ == self.formula@.times(other.formula@),
    {
        self.with(ops, Binary::Times, other)
    }

    pub fn over<A: Arithmetic<T>>(self, ops: &A, other: Self) -> (r: Self)
        requires
            self.holds(ops),
            other.holds(ops),
        ensures
            r.holds(ops),
            r.formula@ == self.formula@.over(other.formula@),
    {
        self.with(ops, Binary::Over, other)
    }

    pub fn power<A: Arithmetic<T>>(self, ops: &A, n: usize) -> (r: Self)
        requires
            self.holds(ops),
        ensures
            r.holds(ops),
            r.formula@ == self.formula@.power(n),
    {
        let ghost f = self.formula@.power(n);
        let x = self.value;
        let value = ops.powi(x, n);
        assert(power_answers(ops, x, n, value));
        assert(f->Power_0 == self.formula@ && f->Power_1 == n);
        Traced { value, formula: Ghost(f) }
    }

    pub fn clamp<A: Arithmetic<T>>(self, ops: &A, low: Self, high: Self) -> (r: Self)
        requires
            self.holds(ops),
            low.holds(ops),
            high.holds(ops),
        ensures
            r.holds(ops),
            r.formula@ == self.formula@.clamp(low.formula@, high.formula@),
    {
        let value = ops.clamp(self.value, low.value, high.value);
        assert(clamp_answers(ops, self.value, low.value, high.value, value));
        Traced { value, formula: Ghost(self.formula@.clamp(low.formula@, high.formula@)) }
    }

    /// The sample limited to the unit range.
    pub fn unit<A: Arithmetic<T>>(self, ops: &A) -> (r: Self)
        requires
            self.holds(ops),
        ensures
            r.holds(ops),
            r.formula@ == self.formula@.unit(),
    {
        self.clamp(ops, Self::whole(ops, 0), Self::whole(ops, 1))
    }

    pub fn test<A: Arithmetic<T>>(self, ops: &A, test: Test, other: Self) -> (r: bool)
        requires
            self.holds(ops),
            other.holds(ops),
        ensures
            decides(ops, test, self.formula@, other.formula@, r),
    {
        let ghost t = test;
        let x = self.value;
        let y = other.value;
        let r = match test {
            Test::Less => ops.less(x, y),
            Test::LessOrEqual => ops.less_or_equal(x, y),
            Test::Equal => ops.equal(x, y),
        };
        assert(test_answers(ops, t, x, y, r));
        r
    }

    pub fn to_index<A: Arithmetic<T>>(self, ops: &A) -> (r: usize)
        requires
            self.holds(ops),
        ensures
            indexes(ops, self.formula@, r),
    {
        let r = ops.to_index(self.value);
        assert(index_answers(ops, self.value, r));
        r
    }

    pub fn to_offset<A: Arithmetic<T>>(self, ops: &A) -> (r: i64)
        requires
            self.holds(ops),
        ensures
            offsets(ops, self.formula@, r),
    {
        let r = ops.to_offset(self.value);
        assert(offset_answers(ops, self.value, r));
        r
    }

    pub fn to_byte<A: Arithmetic<T>>(self, ops: &A) -> (r: u8)
        requires
            self.holds(ops),
        ensures
            bytes_of(ops, self.formula@, r),
    {
        let r = ops.to_byte(self.value);
        assert(byte_answers(ops, self.value, r));
        r
    }
}

/// A value of the branch that an answer picks is a value of the selection.
pub proof fn lemma_select<T, A: Arithmetic<T>>(
    ops: &A,
    test: Test,
    a: Formula<T>,
    b: Formula<T>,
    r: bool,
    then: Formula<T>,
    other: Formula<T>,
    v: T,
)
    requires
        decides(ops, test, a, b, r),
        r ==> evals(ops, then, v),
        !r ==> evals(ops, other, v),
    ensures
        evals(ops, Formula::select(test, a, b, then, other), v),
{
    let (x, y) = choose|x: T, y: T|
        evals(ops, a, x) && evals(ops, b, y) && #[trigger] test_answers(ops, test, x, y, r);
    assert(test_answers(ops, test, x, y, r));
}

} // verus!
