//! Divergence scores as exact fractions.

use vstd::prelude::*;

verus! {

/// The largest magnitude of a score's numerator.
pub const MAX_NUMERATOR: i128 = 77371252455336267181195264;

/// The largest denominator of a score.
pub const MAX_DENOMINATOR: i128 = 1099511627776;

/// A score below one part in this many counts as zero.
pub const NEGLIGIBLE_PARTS: i128 = 1000000000;

/// A fraction of two integers: what a [`Score`] stands for.
pub struct Ratio {
    pub num: int,
    pub den: int,
}

impl Ratio {
    /// The denominator is positive and both parts are within the limits of
    /// a [`Score`].
    pub open spec fn wf(self) -> bool {
        &&& 0 < self.den <= MAX_DENOMINATOR
        &&& -MAX_NUMERATOR <= self.num <= MAX_NUMERATOR
    }

    /// `self < other`, for positive denominators.
    pub open spec fn below(self, other: Ratio) -> bool {
        self.num * other.den < other.num * self.den
    }

    /// `self == other`, for positive denominators.
    pub open spec fn same(self, other: Ratio) -> bool {
        self.num * other.den == other.num * self.den
    }

    /// `self < 1 / NEGLIGIBLE_PARTS`, for a positive denominator.
    pub open spec fn negligible(self) -> bool {
        self.num * NEGLIGIBLE_PARTS < self.den
    }

    /// `self * other`.
    pub open spec fn times(self, other: Ratio) -> Ratio {
        Ratio { num: self.num * other.num, den: self.den * other.den }
    }

    /// `self - other`.
    pub open spec fn minus(self, other: Ratio) -> Ratio {
        Ratio { num: self.num * other.den - other.num * self.den, den: self.den * other.den }
    }
}

/// The largest fraction of a list; of several equal ones, the first. For an
/// empty list, 0.
pub open spec fn max_ratio(list: Seq<Ratio>) -> Ratio
    decreases list.len(),
{
    if list.len() == 0 {
        Ratio { num: 0, den: 1 }
    } else if list.len() == 1 {
        list[0]
    } else {
        let before = max_ratio(list.drop_last());
        if before.below(list.last()) {
            list.last()
        } else {
            before
        }
    }
}

/// The fractions that a list of scores stands for.
pub open spec fn score_views(list: Seq<Score>) -> Seq<Ratio> {
    Seq::new(list.len(), |i: int| list[i]@)
}

/// A divergence score: the fraction `numerator / denominator`, kept exact.
/// The denominator is positive. Two scores are compared by value, so `1/2`
/// and `2/4` are the same score.
#[derive(Clone, Copy, Debug)]
pub struct Score {
    numerator: i128,
    denominator: i128,
}

impl View for Score {
    type V = Ratio;

    closed spec fn view(&self) -> Ratio {
        Ratio { num: self.numerator as int, den: self.denominator as int }
    }
}

impl PartialEq for Score {
    /// Whether the two scores are the same fraction.
    fn eq(&self, other: &Score) -> (yes: bool) {
        self.is_same(other)
    }
}

impl vstd::std_specs::cmp::PartialEqSpecImpl for Score {
    open spec fn obeys_eq_spec() -> bool {
        true
    }

    open spec fn eq_spec(&self, other: &Score) -> bool {
        self@.same(other@)
    }
}

impl Score {
    /// The denominator is positive and both parts are within the limits.
    #[verifier::type_invariant]
    pub open spec fn wf(self) -> bool {
        self@.wf()
    }

    /// The score `numerator / denominator`, where both parts are within the
    /// limits and the denominator is positive.
    pub fn new(numerator: i128, denominator: i128) -> (made: Option<Score>)
        ensures
            made is Some <==> (Ratio { num: numerator as int, den: denominator as int }).wf(),
            made is Some ==> made.unwrap()@ == (Ratio {
                num: numerator as int,
                den: denominator as int,
            }),
    {
        if 0 < denominator && denominator <= MAX_DENOMINATOR && -MAX_NUMERATOR <= numerator
            && numerator <= MAX_NUMERATOR {
            Some(Score { numerator, denominator })
        } else {
            None
        }
    }

    /// The score `numerator / denominator`.
    pub fn from_parts(numerator: i128, denominator: i128) -> (made: Score)
        requires
            (Ratio { num: numerator as int, den: denominator as int }).wf(),
        ensures
            made@ == (Ratio { num: numerator as int, den: denominator as int }),
            made.wf(),
    {
        Score { numerator, denominator }
    }

    /// The score 0, as `0 / 1`.
    pub fn zero() -> (made: Score)
        ensures
            made@ == (Ratio { num: 0, den: 1 }),
            made.wf(),
    {
        Score { numerator: 0, denominator: 1 }
    }

    /// The numerator of the fraction.
    pub fn numerator(&self) -> (n: i128)
        ensures
            n == self@.num,
            self.wf(),
    {
        proof {
            use_type_invariant(self);
        }
        self.numerator
    }

    /// The denominator of the fraction.
    pub fn denominator(&self) -> (d: i128)
        ensures
            d == self@.den,
            self.wf(),
    {
        proof {
            use_type_invariant(self);
        }
        self.denominator
    }

    /// Whether `self < other` as fractions.
    pub fn is_below(&self, other: &Score) -> (yes: bool)
        ensures
            yes == self@.below(other@),
            self.wf(),
            other.wf(),
    {
        proof {
            use_type_invariant(self);
            use_type_invariant(other);
            lemma_cross_product_fits(self@.num, other@.den);
            lemma_cross_product_fits(other@.num, self@.den);
        }
        self.numerator * other.denominator < other.numerator * self.denominator
    }

    /// Whether `self == other` as fractions.
    pub fn is_same(&self, other: &Score) -> (yes: bool)
        ensures
            yes == self@.same(other@),
            self.wf(),
            other.wf(),
    {
        proof {
            use_type_invariant(self);
            use_type_invariant(other);
            lemma_cross_product_fits(self@.num, other@.den);
            lemma_cross_product_fits(other@.num, self@.den);
        }
        self.numerator * other.denominator == other.numerator * self.denominator
    }

    /// Whether the score is below one part in [`NEGLIGIBLE_PARTS`], which
    /// every score that is zero or negative is.
    pub fn is_negligible(&self) -> (yes: bool)
        ensures
            yes == self@.negligible(),
            self.wf(),
    {
        proof {
            use_type_invariant(self);
            lemma_cross_product_fits(self@.num, NEGLIGIBLE_PARTS as int);
        }
        self.numerator * NEGLIGIBLE_PARTS < self.denominator
    }
}

/// A numerator times a denominator stays far inside `i128`.
pub proof fn lemma_cross_product_fits(n: int, d: int)
    requires
        -MAX_NUMERATOR <= n <= MAX_NUMERATOR,
        0 < d <= MAX_DENOMINATOR,
    ensures
        -MAX_NUMERATOR * MAX_DENOMINATOR <= n * d <= MAX_NUMERATOR * MAX_DENOMINATOR,
        MAX_NUMERATOR * MAX_DENOMINATOR == 85070591730234615865843651857942052864,
{
    assert(-MAX_NUMERATOR * MAX_DENOMINATOR <= n * d <= MAX_NUMERATOR * MAX_DENOMINATOR)
        by (nonlinear_arith)
        requires
            -MAX_NUMERATOR <= n <= MAX_NUMERATOR,
            0 < d <= MAX_DENOMINATOR,
            0 < MAX_NUMERATOR,
            0 < MAX_DENOMINATOR,
    ;
    assert(MAX_NUMERATOR * MAX_DENOMINATOR == 85070591730234615865843651857942052864)
        by (nonlinear_arith);
}

/// Among fractions with positive denominators, "below" is the strict part
/// of a total order: of `a <= b` and `b < c` follows `a < c`.
pub proof fn lemma_not_above_then_below(a: Ratio, b: Ratio, c: Ratio)
    requires
        0 < a.den,
        0 < b.den,
        0 < c.den,
        !b.below(a),
        b.below(c),
    ensures
        a.below(c),
{
    let (an, ad, bn, bd, cn, cd) = (a.num, a.den, b.num, b.den, c.num, c.den);
    assert(an * cd < cn * ad) by (nonlinear_arith)
        requires
            0 < ad,
            0 < bd,
            0 < cd,
            an * bd <= bn * ad,
            bn * cd < cn * bd,
    {
        assert(an * bd * cd <= bn * ad * cd);
        assert(bn * cd * ad < cn * bd * ad);
        assert((an * cd) * bd < (cn * ad) * bd);
    }
}

/// Of `a <= b` and `b <= c` follows `a <= c`.
pub proof fn lemma_not_above_chain(a: Ratio, b: Ratio, c: Ratio)
    requires
        0 < a.den,
        0 < b.den,
        0 < c.den,
        !b.below(a),
        !c.below(b),
    ensures
        !c.below(a),
{
    let (an, ad, bn, bd, cn, cd) = (a.num, a.den, b.num, b.den, c.num, c.den);
    assert(an * cd <= cn * ad) by (nonlinear_arith)
        requires
            0 < ad,
            0 < bd,
            0 < cd,
            an * bd <= bn * ad,
            bn * cd <= cn * bd,
    {
        assert(an * bd * cd <= bn * ad * cd);
        assert(bn * cd * ad <= cn * bd * ad);
        assert((an * cd) * bd <= (cn * ad) * bd);
    }
}

} // verus!
