//! Prime field arithmetic and its reading as integer arithmetic.
//!
//! A polynomial identity over the integers holds in every prime field. The
//! specifications of this crate are therefore integer expressions, and an
//! executable function states that its result is such an expression reduced by
//! the modulus of the field.
use vstd::prelude::*;
use vstd::arithmetic::div_mod::*;

verus! {

/// A prime field whose elements are the residues of a modulus.
pub trait PrimeField: Sized + Copy {
    /// The modulus of the field.
    spec fn modulus() -> int;

    /// The canonical representative of an element, below the modulus.
    spec fn residue(self) -> int;

    /// The modulus exceeds one, and every residue lies below it.
    proof fn residue_bounds(self)
        ensures
            1 < Self::modulus(),
            0 <= self.residue() < Self::modulus(),
    ;

    fn zero() -> (r: Self)
        ensures
            r.residue() == 0,
    ;

    fn one() -> (r: Self)
        ensures
            r.residue() == 1,
    ;

    fn plus(self, other: Self) -> (r: Self)
        ensures
            r.residue() == (self.residue() + other.residue()) % Self::modulus(),
    ;

    fn minus(self, other: Self) -> (r: Self)
        ensures
            r.residue() == (self.residue() - other.residue()) % Self::modulus(),
    ;

    fn times(self, other: Self) -> (r: Self)
        ensures
            r.residue() == (self.residue() * other.residue()) % Self::modulus(),
    ;

    /// The element that an unsigned integer stands for.
    fn from_u64(x: u64) -> (r: Self)
        ensures
            r.residue() == x as int % Self::modulus(),
    ;

    /// The element that a signed integer stands for; a negative integer is read
    /// as the additive inverse of its absolute value.
    fn from_i64(x: i64) -> (r: Self)
        ensures
            r.residue() == x as int % Self::modulus(),
    ;

    /// The inverse of two.
    fn half() -> (r: Self)
        ensures
            inverts(2, r.residue(), Self::modulus()),
    ;

    /// The multiplicative inverse, or `None` where there is none.
    fn inverse(self) -> (r: Option<Self>)
        ensures
            match r {
                Some(x) => inverts(x.residue(), self.residue(), Self::modulus()),
                None => forall|y: int| !inverts(y, self.residue(), Self::modulus()),
            },
    ;

    /// Whether two elements are the same residue.
    fn is_same(self, other: Self) -> (r: bool)
        ensures
            r == (self.residue() == other.residue()),
    ;
}

/// The product of `x` and `y` is one modulo `m`.
pub open spec fn inverts(x: int, y: int, m: int) -> bool {
    (x * y) % m == 1
}

/// The residues of a sequence of elements.
pub open spec fn residues<F: PrimeField>(s: Seq<F>) -> Seq<int> {
    Seq::new(s.len(), |i: int| s[i].residue())
}

/// `f` is the element that the integer `x` stands for.
pub open spec fn stands_for<F: PrimeField>(f: F, x: int) -> bool {
    f.residue() == x % F::modulus()
}

/// Each element of `s` is the element that the integer at its place in `v`
/// stands for.
pub open spec fn all_stand_for<F: PrimeField>(s: Seq<F>, v: Seq<int>) -> bool {
    &&& s.len() == v.len()
    &&& forall|i: int| 0 <= i < s.len() ==> stands_for(#[trigger] s[i], v[i])
}

/// Every element stands for its residue.
pub proof fn lemma_residue_stands<F: PrimeField>(f: F)
    ensures
        stands_for(f, f.residue()),
{
    f.residue_bounds();
    lemma_small_mod(f.residue() as nat, F::modulus() as nat);
}

/// Every sequence of elements stands for its residues.
pub proof fn lemma_residues_stand<F: PrimeField>(s: Seq<F>)
    ensures
        all_stand_for(s, residues(s)),
{
    assert forall|i: int| 0 <= i < s.len() implies stands_for(#[trigger] s[i], residues(s)[i]) by {
        lemma_residue_stands(s[i]);
    }
}

/// A field element together with an integer that it stands for. Arithmetic on
/// such values is exact in the integer, whatever the modulus.
pub struct Lifted<F: PrimeField> {
    elem: F,
    value: Ghost<int>,
}

impl<F: PrimeField> Clone for Lifted<F> {
    fn clone(&self) -> (r: Self)
        ensures
            r == *self,
    {
        proof {
            use_type_invariant(self);
        }
        Lifted { elem: self.elem, value: self.value }
    }
}

impl<F: PrimeField> Copy for Lifted<F> {

}

impl<F: PrimeField> Lifted<F> {
    #[verifier::type_invariant]
    spec fn inv(self) -> bool {
        stands_for(self.elem, self.value@)
    }

    /// The integer that the element stands for.
    pub closed spec fn view(&self) -> int {
        self.value@
    }

    /// An element, standing for its residue.
    pub fn of(elem: F) -> (r: Self)
        ensures
            r@ == elem.residue(),
    {
        proof {
            lemma_residue_stands(elem);
        }
        Lifted { elem, value: Ghost(elem.residue()) }
    }

    /// An element, standing for the given integer.
    pub fn known(elem: F, Ghost(value): Ghost<int>) -> (r: Self)
        requires
            stands_for(elem, value),
        ensures
            r@ == value,
    {
        Lifted { elem, value: Ghost(value) }
    }

    /// The element.
    pub fn get(self) -> (r: F)
        ensures
            stands_for(r, self@),
    {
        proof {
            use_type_invariant(&self);
        }
        self.elem
    }

    pub fn zero() -> (r: Self)
        ensures
            r@ == 0,
    {
        let elem = F::zero();
        proof {
            elem.residue_bounds();
            lemma_small_mod(0, F::modulus() as nat);
        }
        Lifted { elem, value: Ghost(0) }
    }

    pub fn one() -> (r: Self)
        ensures
            r@ == 1,
    {
        let elem = F::one();
        proof {
            elem.residue_bounds();
            lemma_small_mod(1, F::modulus() as nat);
        }
        Lifted { elem, value: Ghost(1) }
    }

    pub fn of_u64(x: u64) -> (r: Self)
        ensures
            r@ == x,
    {
        Lifted { elem: F::from_u64(x), value: Ghost(x as int) }
    }

    pub fn of_i64(x: i64) -> (r: Self)
        ensures
            r@ == x,
    {
        Lifted { elem: F::from_i64(x), value: Ghost(x as int) }
    }

    pub fn plus(self, other: Self) -> (r: Self)
        ensures
            r@ == self@ + other@,
    {
        let elem = self.elem.plus(other.elem);
        proof {
            use_type_invariant(&self);
            use_type_invariant(&other);
            elem.residue_bounds();
            lemma_add_mod_noop(self@, other@, F::modulus());
        }
        Lifted { elem, value: Ghost(self@ + other@) }
    }

    pub fn minus(self, other: Self) -> (r: Self)
        ensures
            r@ == self@ - other@,
    {
        let elem = self.elem.minus(other.elem);
        proof {
            use_type_invariant(&self);
            use_type_invariant(&other);
            elem.residue_bounds();
            lemma_sub_mod_noop(self@, other@, F::modulus());
        }
        Lifted { elem, value: Ghost(self@ - other@) }
    }

    pub fn times(self, other: Self) -> (r: Self)
        ensures
            r@ == self@ * other@,
    {
        let elem = self.elem.times(other.elem);
        proof {
            use_type_invariant(&self);
            use_type_invariant(&other);
            elem.residue_bounds();
            lemma_mul_mod_noop_general(self@, other@, F::modulus());
        }
        Lifted { elem, value: Ghost(self@ * other@) }
    }
}

} // verus!
