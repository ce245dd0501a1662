//! Polynomial expressions in the tables of a sumcheck.
use vstd::prelude::*;
use crate::congruence::{cong, lemma_cong_minus, lemma_cong_plus, lemma_cong_times};
use crate::field::{residues, stands_for, Lifted, PrimeField};

verus! {

/// A polynomial in the tables of a sumcheck and in its batching challenges.
#[derive(Debug)]
pub enum Expression<F> {
    /// The table with this index.
    WitIn(usize),
    /// The challenge with this index.
    Challenge(usize),
    /// A constant.
    Constant(F),
    Sum(Box<Expression<F>>, Box<Expression<F>>),
    Difference(Box<Expression<F>>, Box<Expression<F>>),
    Product(Box<Expression<F>>, Box<Expression<F>>),
}

impl<F: PrimeField> Expression<F> {
    /// The value of the expression where the tables take the values `wit`.
    pub open spec fn value(self, wit: Seq<int>, challenges: Seq<int>) -> int
        decreases self,
    {
        match self {
            Expression::WitIn(i) => wit[i as int],
            Expression::Challenge(i) => challenges[i as int],
            Expression::Constant(c) => c.residue(),
            Expression::Sum(a, b) => a.value(wit, challenges) + b.value(wit, challenges),
            Expression::Difference(a, b) => a.value(wit, challenges) - b.value(wit, challenges),
            Expression::Product(a, b) => a.value(wit, challenges) * b.value(wit, challenges),
        }
    }

    /// The degree of the expression in the tables.
    pub open spec fn degree(self) -> nat
        decreases self,
    {
        match self {
            Expression::WitIn(_) => 1,
            Expression::Challenge(_) => 0,
            Expression::Constant(_) => 0,
            Expression::Sum(a, b) => if a.degree() >= b.degree() {
                a.degree()
            } else {
                b.degree()
            },
            Expression::Difference(a, b) => if a.degree() >= b.degree() {
                a.degree()
            } else {
                b.degree()
            },
            Expression::Product(a, b) => a.degree() + b.degree(),
        }
    }

    /// The expression speaks of the first `tables` tables and the first `challenges`
    /// challenges only.
    pub open spec fn within(self, tables: nat, challenges: nat) -> bool
        decreases self,
    {
        match self {
            Expression::WitIn(i) => i < tables,
            Expression::Challenge(i) => i < challenges,
            Expression::Constant(_) => true,
            Expression::Sum(a, b) => a.within(tables, challenges) && b.within(tables, challenges),
            Expression::Difference(a, b) => a.within(tables, challenges) && b.within(
                tables,
                challenges,
            ),
            Expression::Product(a, b) => a.within(tables, challenges) && b.within(
                tables,
                challenges,
            ),
        }
    }

    /// Whether the expression speaks of the first tables and challenges only.
    pub fn is_within(&self, tables: usize, challenges: usize) -> (r: bool)
        ensures
            r == self.within(tables as nat, challenges as nat),
        decreases self,
    {
        match self {
            Expression::WitIn(i) => *i < tables,
            Expression::Challenge(i) => *i < challenges,
            Expression::Constant(_) => true,
            Expression::Sum(a, b) => a.is_within(tables, challenges) && b.is_within(
                tables,
                challenges,
            ),
            Expression::Difference(a, b) => a.is_within(tables, challenges) && b.is_within(
                tables,
                challenges,
            ),
            Expression::Product(a, b) => a.is_within(tables, challenges) && b.is_within(
                tables,
                challenges,
            ),
        }
    }

    /// The value of the expression where the tables take the values `wit`.
    pub fn evaluate(&self, wit: &[F], challenges: &[F]) -> (r: F)
        requires
            self.within(wit@.len(), challenges@.len()),
        ensures
            stands_for(r, self.value(residues(wit@), residues(challenges@))),
        decreases self,
    {
        let ghost w = residues(wit@);
        let ghost c = residues(challenges@);
        match self {
            Expression::WitIn(i) => Lifted::of(wit[*i]).get(),
            Expression::Challenge(i) => Lifted::of(challenges[*i]).get(),
            Expression::Constant(x) => Lifted::of(*x).get(),
            Expression::Sum(a, b) => {
                let x = Lifted::known(a.evaluate(wit, challenges), Ghost(a.value(w, c)));
                let y = Lifted::known(b.evaluate(wit, challenges), Ghost(b.value(w, c)));
                x.plus(y).get()
            },
            Expression::Difference(a, b) => {
                let x = Lifted::known(a.evaluate(wit, challenges), Ghost(a.value(w, c)));
                let y = Lifted::known(b.evaluate(wit, challenges), Ghost(b.value(w, c)));
                x.minus(y).get()
            },
            Expression::Product(a, b) => {
                let x = Lifted::known(a.evaluate(wit, challenges), Ghost(a.value(w, c)));
                let y = Lifted::known(b.evaluate(wit, challenges), Ghost(b.value(w, c)));
                x.times(y).get()
            },
        }
    }

    pub fn table(i: usize) -> (r: Self)
        ensures
            r == Expression::<F>::WitIn(i),
    {
        Expression::WitIn(i)
    }

    pub fn plus(self, other: Self) -> (r: Self)
        ensures
            r == Expression::Sum(Box::new(self), Box::new(other)),
    {
        Expression::Sum(Box::new(self), Box::new(other))
    }

    pub fn minus(self, other: Self) -> (r: Self)
        ensures
            r == Expression::Difference(Box::new(self), Box::new(other)),
    {
        Expression::Difference(Box::new(self), Box::new(other))
    }

    pub fn times(self, other: Self) -> (r: Self)
        ensures
            r == Expression::Product(Box::new(self), Box::new(other)),
    {
        Expression::Product(Box::new(self), Box::new(other))
    }
}

/// An expression in some tables is one in more tables.
pub proof fn lemma_within_more<F: PrimeField>(e: Expression<F>, a: nat, b: nat, challenges: nat)
    requires
        e.within(a, challenges),
        a <= b,
    ensures
        e.within(b, challenges),
    decreases e,
{
    match e {
        Expression::Sum(x, y) => {
            lemma_within_more(*x, a, b, challenges);
            lemma_within_more(*y, a, b, challenges);
        },
        Expression::Difference(x, y) => {
            lemma_within_more(*x, a, b, challenges);
            lemma_within_more(*y, a, b, challenges);
        },
        Expression::Product(x, y) => {
            lemma_within_more(*x, a, b, challenges);
            lemma_within_more(*y, a, b, challenges);
        },
        _ => {},
    }
}

/// The value of an expression is made up of those of its parts, and so is its degree.
pub proof fn law_parts<F: PrimeField>(
    a: Expression<F>,
    b: Expression<F>,
    i: usize,
    x: F,
    wit: Seq<int>,
    challenges: Seq<int>,
)
    ensures
        ({
            let (s, t) = (a.value(wit, challenges), b.value(wit, challenges));
            let (sum, difference, product) = (
                Expression::Sum(Box::new(a), Box::new(b)),
                Expression::Difference(Box::new(a), Box::new(b)),
                Expression::Product(Box::new(a), Box::new(b)),
            );
            &&& sum.value(wit, challenges) - s == t
            &&& difference.value(wit, challenges) + t == s
            &&& product.value(wit, challenges) == t * s
            &&& Expression::<F>::WitIn(i).value(wit, challenges) == wit[i as int]
            &&& Expression::<F>::Challenge(i).value(wit, challenges) == challenges[i as int]
            &&& Expression::<F>::Constant(x).value(wit, challenges) == x.residue()
            &&& product.degree() - a.degree() == b.degree()
            &&& sum.degree() == difference.degree()
            &&& sum.degree() >= a.degree() && sum.degree() >= b.degree()
            &&& sum.degree() == a.degree() || sum.degree() == b.degree()
            &&& Expression::<F>::WitIn(i).degree() == 1
            &&& Expression::<F>::Challenge(i).degree() == 0
            &&& Expression::<F>::Constant(x).degree() == 0
        }),
{
    let (s, t) = (a.value(wit, challenges), b.value(wit, challenges));
    assert(s * t == t * s) by (nonlinear_arith);
}

/// An expression is a polynomial: at values that are congruent it takes values that are
/// congruent.
pub proof fn law_polynomial<F: PrimeField>(
    e: Expression<F>,
    tables: nat,
    count: nat,
    a: Seq<int>,
    b: Seq<int>,
    c: Seq<int>,
    d: Seq<int>,
    m: int,
)
    requires
        m > 0,
        e.within(tables, count),
        forall|i: int| 0 <= i < tables ==> cong(#[trigger] a[i], b[i], m),
        forall|i: int| 0 <= i < count ==> cong(#[trigger] c[i], d[i], m),
    ensures
        cong(e.value(a, c), e.value(b, d), m),
    decreases e,
{
    match e {
        Expression::WitIn(i) => {
            assert(cong(a[i as int], b[i as int], m));
        },
        Expression::Challenge(i) => {
            assert(cong(c[i as int], d[i as int], m));
        },
        Expression::Constant(_) => {},
        Expression::Sum(x, y) => {
            law_polynomial(*x, tables, count, a, b, c, d, m);
            law_polynomial(*y, tables, count, a, b, c, d, m);
            lemma_cong_plus(x.value(a, c), x.value(b, d), y.value(a, c), y.value(b, d), m);
        },
        Expression::Difference(x, y) => {
            law_polynomial(*x, tables, count, a, b, c, d, m);
            law_polynomial(*y, tables, count, a, b, c, d, m);
            lemma_cong_minus(x.value(a, c), x.value(b, d), y.value(a, c), y.value(b, d), m);
        },
        Expression::Product(x, y) => {
            law_polynomial(*x, tables, count, a, b, c, d, m);
            law_polynomial(*y, tables, count, a, b, c, d, m);
            lemma_cong_times(x.value(a, c), x.value(b, d), y.value(a, c), y.value(b, d), m);
        },
    }
}

/// An expression in some tables and challenges takes the same value wherever these agree.
pub proof fn law_within<F: PrimeField>(
    e: Expression<F>,
    tables: nat,
    count: nat,
    a: Seq<int>,
    b: Seq<int>,
    c: Seq<int>,
    d: Seq<int>,
)
    requires
        e.within(tables, count),
        forall|i: int| 0 <= i < tables ==> #[trigger] a[i] == b[i],
        forall|i: int| 0 <= i < count ==> #[trigger] c[i] == d[i],
    ensures
        e.value(a, c) == e.value(b, d),
    decreases e,
{
    match e {
        Expression::WitIn(i) => {
            assert(a[i as int] == b[i as int]);
        },
        Expression::Challenge(i) => {
            assert(c[i as int] == d[i as int]);
        },
        Expression::Constant(_) => {},
        Expression::Sum(x, y) => {
            law_within(*x, tables, count, a, b, c, d);
            law_within(*y, tables, count, a, b, c, d);
        },
        Expression::Difference(x, y) => {
            law_within(*x, tables, count, a, b, c, d);
            law_within(*y, tables, count, a, b, c, d);
        },
        Expression::Product(x, y) => {
            law_within(*x, tables, count, a, b, c, d);
            law_within(*y, tables, count, a, b, c, d);
        },
    }
}

} // verus!
