//! Claims on the value of a multilinear extension at a point.
use vstd::prelude::*;

verus! {

/// The claim that a multilinear extension takes the value `eval` at `point`.
#[derive(Debug)]
pub struct Claim<F> {
    pub point: Vec<F>,
    pub eval: F,
}

impl<F> Claim<F> {
    pub fn new(point: Vec<F>, eval: F) -> (r: Self)
        ensures
            r.point@ == point@,
            r.eval == eval,
    {
        Claim { point, eval }
    }
}

/// What is left to check of a sumcheck once its rounds have been verified: the
/// summed polynomial takes the value `expected_evaluation` at `point`.
#[derive(Debug)]
pub struct SubClaim<F> {
    pub point: Vec<F>,
    pub expected_evaluation: F,
}

/// Two vectors, one after the other.
pub fn joined<F: Copy>(a: &[F], b: &[F]) -> (r: Vec<F>)
    ensures
        r@ == a@ + b@,
{
    let mut r: Vec<F> = Vec::new();
    for i in 0..a.len()
        invariant
            r@ == a@.take(i as int),
    {
        r.push(a[i]);
        assert(a@.take(i + 1) =~= a@.take(i as int).push(a@[i as int]));
    }
    assert(a@.take(a@.len() as int) + b@.take(0) =~= a@);
    for i in 0..b.len()
        invariant
            r@ == a@ + b@.take(i as int),
    {
        r.push(b[i]);
        assert(a@ + b@.take(i + 1) =~= (a@ + b@.take(i as int)).push(b@[i as int]));
    }
    assert(b@.take(b@.len() as int) =~= b@);
    r
}

/// The values of `a` from `from` up to `to`.
pub fn part<F: Copy>(a: &[F], from: usize, to: usize) -> (r: Vec<F>)
    requires
        from <= to <= a@.len(),
    ensures
        r@ == a@.subrange(from as int, to as int),
{
    let mut r: Vec<F> = Vec::new();
    for i in from..to
        invariant
            from <= to <= a@.len(),
            r@ == a@.subrange(from as int, i as int),
    {
        r.push(a[i]);
        assert(a@.subrange(from as int, i + 1) =~= a@.subrange(from as int, i as int).push(
            a@[i as int],
        ));
    }
    r
}

} // verus!
