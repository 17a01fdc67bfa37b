use vstd::prelude::*;

verus! {

/// The number type that the graph computes with.
///
/// Each operation has a spec counterpart that names its result as a function
/// of its arguments alone, so contracts of the engine can say which value
/// every node and gradient ends up with. What those results are is up to the
/// implementing type (for example IEEE double precision, with its infinities
/// and NaNs propagated silently).
pub trait Scalar: Copy + Sized {
    spec fn spec_zero() -> Self;

    spec fn spec_one() -> Self;

    spec fn spec_negated(self) -> Self;

    spec fn spec_plus(self, other: Self) -> Self;

    spec fn spec_minus(self, other: Self) -> Self;

    spec fn spec_times(self, other: Self) -> Self;

    spec fn spec_over(self, other: Self) -> Self;

    spec fn spec_powf(self, k: Self) -> Self;

    spec fn spec_exp(self) -> Self;

    /// The additive identity: every gradient starts here.
    fn zero() -> (r: Self)
        ensures
            r == Self::spec_zero(),
    ;

    /// The multiplicative identity: the seed of a backward traversal.
    fn one() -> (r: Self)
        ensures
            r == Self::spec_one(),
    ;

    fn negated(self) -> (r: Self)
        ensures
            r == self.spec_negated(),
    ;

    fn plus(self, other: Self) -> (r: Self)
        ensures
            r == self.spec_plus(other),
    ;

    fn minus(self, other: Self) -> (r: Self)
        ensures
            r == self.spec_minus(other),
    ;

    fn times(self, other: Self) -> (r: Self)
        ensures
            r == self.spec_times(other),
    ;

    fn over(self, other: Self) -> (r: Self)
        ensures
            r == self.spec_over(other),
    ;

    /// `self` raised to the real exponent `k`.
    fn powf(self, k: Self) -> (r: Self)
        ensures
            r == self.spec_powf(k),
    ;

    /// e raised to `self`.
    fn exp(self) -> (r: Self)
        ensures
            r == self.spec_exp(),
    ;
}

/// The hyperbolic tangent `(e^x - e^-x) / (e^x + e^-x)`.
pub open spec fn spec_tanh<T: Scalar>(x: T) -> T {
    let ep = x.spec_exp();
    let en = x.spec_negated().spec_exp();
    ep.spec_minus(en).spec_over(ep.spec_plus(en))
}

} // verus!
