//! The categories from which floating-point values are drawn, and how much
//! weight each of them has.

use crate::choices::{Probability, PROBABILITY_ONE};
use crate::sampling::IntegerGenerationParameters;
use vstd::prelude::*;

verus! {

/// The number of categories of floating-point values.
pub const FLOAT_CATEGORIES: usize = 17;

/// A category of floating-point values.
#[derive(Clone, Copy, Debug, PartialEq, Eq, Structural)]
pub enum FloatCategory {
    /// The ends of the range and what lies next to them.
    Endpoint,
    /// Values between minus and plus one tenth.
    NearZero,
    /// Values below the least magnitude of full precision.
    Subnormal,
    /// Values a few steps away from one or minus one.
    NearOne,
    /// Integers.
    Integer,
    /// Numbers halfway between two integers.
    HalfInteger,
    /// Magnitudes of which two add up to too much.
    NearMaxForAdd,
    /// Magnitudes of which two multiply to too much.
    NearMaxForMul,
    /// Magnitudes of which two multiply to too little.
    NearSqrtMinPositive,
    /// What is no number.
    Nan,
    /// The infinities.
    Infinity,
    /// The largest finite magnitude.
    MaxMagnitude,
    /// The largest magnitude up to which every integer is representable.
    MaxExactInteger,
    /// The zeros.
    SignedZero,
    /// Powers of two and the magnitudes just below them.
    BinadeEdge,
    /// Values with no finite binary expansion, rounded.
    NonDyadic,
    /// All of the range.
    Ordinary,
}

impl FloatCategory {
    /// The place of a category among the weights.
    pub open spec fn place(self) -> int {
        match self {
            FloatCategory::Endpoint => 0,
            FloatCategory::NearZero => 1,
            FloatCategory::Subnormal => 2,
            FloatCategory::NearOne => 3,
            FloatCategory::Integer => 4,
            FloatCategory::HalfInteger => 5,
            FloatCategory::NearMaxForAdd => 6,
            FloatCategory::NearMaxForMul => 7,
            FloatCategory::NearSqrtMinPositive => 8,
            FloatCategory::Nan => 9,
            FloatCategory::Infinity => 10,
            FloatCategory::MaxMagnitude => 11,
            FloatCategory::MaxExactInteger => 12,
            FloatCategory::SignedZero => 13,
            FloatCategory::BinadeEdge => 14,
            FloatCategory::NonDyadic => 15,
            FloatCategory::Ordinary => 16,
        }
    }

    /// The category at a place among the weights; whatever lies beyond the
    /// last one is ordinary.
    pub fn at(place: usize) -> (r: Self)
        ensures
            place < FLOAT_CATEGORIES ==> r.place() == place,
            place >= FLOAT_CATEGORIES ==> r == FloatCategory::Ordinary,
    {
        match place {
            0 => FloatCategory::Endpoint,
            1 => FloatCategory::NearZero,
            2 => FloatCategory::Subnormal,
            3 => FloatCategory::NearOne,
            4 => FloatCategory::Integer,
            5 => FloatCategory::HalfInteger,
            6 => FloatCategory::NearMaxForAdd,
            7 => FloatCategory::NearMaxForMul,
            8 => FloatCategory::NearSqrtMinPositive,
            9 => FloatCategory::Nan,
            10 => FloatCategory::Infinity,
            11 => FloatCategory::MaxMagnitude,
            12 => FloatCategory::MaxExactInteger,
            13 => FloatCategory::SignedZero,
            14 => FloatCategory::BinadeEdge,
            15 => FloatCategory::NonDyadic,
            _ => FloatCategory::Ordinary,
        }
    }
}

/// The weights of the categories from which a floating-point value is drawn.
/// What is left of the whole goes to the ordinary values.
#[derive(Clone, Copy, Debug, PartialEq, Eq, Structural)]
pub struct FloatGenerationParameters {
    /// The weight of [`FloatCategory::Endpoint`].
    pub endpoint: Probability,
    /// The weight of [`FloatCategory::NearZero`].
    pub near_zero: Probability,
    /// The weight of [`FloatCategory::Subnormal`].
    pub subnormal: Probability,
    /// The weight of [`FloatCategory::NearOne`].
    pub near_one: Probability,
    /// The weight of [`FloatCategory::Integer`].
    pub integer: Probability,
    /// The weight of [`FloatCategory::HalfInteger`].
    pub half_integer: Probability,
    /// The weight of [`FloatCategory::NearMaxForAdd`].
    pub near_max_for_add: Probability,
    /// The weight of [`FloatCategory::NearMaxForMul`].
    pub near_max_for_mul: Probability,
    /// The weight of [`FloatCategory::NearSqrtMinPositive`].
    pub near_sqrt_min_positive: Probability,
    /// The weight of [`FloatCategory::Nan`].
    pub nan: Probability,
    /// The weight of [`FloatCategory::Infinity`].
    pub infinity: Probability,
    /// The weight of [`FloatCategory::MaxMagnitude`].
    pub max_magnitude: Probability,
    /// The weight of [`FloatCategory::MaxExactInteger`].
    pub max_exact_integer: Probability,
    /// The weight of [`FloatCategory::SignedZero`].
    pub signed_zero: Probability,
    /// The weight of [`FloatCategory::BinadeEdge`].
    pub binade_edge: Probability,
    /// The weight of [`FloatCategory::NonDyadic`].
    pub non_dyadic: Probability,
    /// The weight of [`FloatCategory::Ordinary`].
    pub ordinary: Probability,
}

impl FloatGenerationParameters {
    /// The numerators of the weights, by the places of their categories.
    pub open spec fn numbers(self) -> Seq<u64> {
        seq![
            self.endpoint.numerator,
            self.near_zero.numerator,
            self.subnormal.numerator,
            self.near_one.numerator,
            self.integer.numerator,
            self.half_integer.numerator,
            self.near_max_for_add.numerator,
            self.near_max_for_mul.numerator,
            self.near_sqrt_min_positive.numerator,
            self.nan.numerator,
            self.infinity.numerator,
            self.max_magnitude.numerator,
            self.max_exact_integer.numerator,
            self.signed_zero.numerator,
            self.binade_edge.numerator,
            self.non_dyadic.numerator,
            self.ordinary.numerator,
        ]
    }

    /// The weights with the given numerators.
    pub fn from_weights(weights: [u64; 17]) -> (r: Self)
        ensures
            r.numbers() == weights@,
    {
        let r = FloatGenerationParameters {
            endpoint: Probability { numerator: weights[0] },
            near_zero: Probability { numerator: weights[1] },
            subnormal: Probability { numerator: weights[2] },
            near_one: Probability { numerator: weights[3] },
            integer: Probability { numerator: weights[4] },
            half_integer: Probability { numerator: weights[5] },
            near_max_for_add: Probability { numerator: weights[6] },
            near_max_for_mul: Probability { numerator: weights[7] },
            near_sqrt_min_positive: Probability { numerator: weights[8] },
            nan: Probability { numerator: weights[9] },
            infinity: Probability { numerator: weights[10] },
            max_magnitude: Probability { numerator: weights[11] },
            max_exact_integer: Probability { numerator: weights[12] },
            signed_zero: Probability { numerator: weights[13] },
            binade_edge: Probability { numerator: weights[14] },
            non_dyadic: Probability { numerator: weights[15] },
            ordinary: Probability { numerator: weights[16] },
        };
        assert(r.numbers() =~= weights@);
        r
    }

    /// The numerators of the weights.
    pub fn weights(&self) -> (r: [u64; 17])
        ensures
            r@ == self.numbers(),
    {
        let r: [u64; 17] = [
            self.endpoint.numerator,
            self.near_zero.numerator,
            self.subnormal.numerator,
            self.near_one.numerator,
            self.integer.numerator,
            self.half_integer.numerator,
            self.near_max_for_add.numerator,
            self.near_max_for_mul.numerator,
            self.near_sqrt_min_positive.numerator,
            self.nan.numerator,
            self.infinity.numerator,
            self.max_magnitude.numerator,
            self.max_exact_integer.numerator,
            self.signed_zero.numerator,
            self.binade_edge.numerator,
            self.non_dyadic.numerator,
            self.ordinary.numerator,
        ];
        assert(r@ =~= self.numbers());
        r
    }
}

/// The sum of the first `n` weights.
pub open spec fn weight_before(weights: Seq<u64>, n: int) -> int
    decreases n,
{
    if n <= 0 {
        0
    } else {
        weight_before(weights, n - 1) + weights[n - 1]
    }
}

/// Whether the number `u` selects a category: it lies in the stretch that the
/// weight of the category takes up, or past all of them for the last one.
pub open spec fn selects(weights: Seq<u64>, u: int, category: FloatCategory) -> bool {
    let i = category.place();
    &&& weight_before(weights, i) <= u
    &&& u < weight_before(weights, i + 1) || category == FloatCategory::Ordinary
}

/// The category that the number `u` selects.
pub fn float_category_of(u: u64, params: &FloatGenerationParameters) -> (r: FloatCategory)
    ensures
        selects(params.numbers(), u as int, r),
{
    let weights = params.weights();
    let mut before: u128 = 0;
    let mut i: usize = 0;
    while i < FLOAT_CATEGORIES - 1
        invariant
            i < FLOAT_CATEGORIES,
            weights@ == params.numbers(),
            before == weight_before(weights@, i as int),
            before <= i * u64::MAX,
            before <= u,
        decreases FLOAT_CATEGORIES - i,
    {
        let upto: u128 = before + weights[i] as u128;
        assert(upto == weight_before(weights@, i + 1));
        if (u as u128) < upto {
            return FloatCategory::at(i);
        }
        before = upto;
        i = i + 1;
    }
    FloatCategory::Ordinary
}

proof fn lemma_weight_grows(weights: Seq<u64>, m: int, n: int)
    requires
        0 <= m <= n,
    ensures
        weight_before(weights, m) <= weight_before(weights, n),
    decreases n - m,
{
    if m < n {
        lemma_weight_grows(weights, m, n - 1);
    }
}

/// A number selects one category.
pub proof fn lemma_selection_is_unique(
    weights: Seq<u64>,
    u: int,
    a: FloatCategory,
    b: FloatCategory,
)
    requires
        selects(weights, u, a),
        selects(weights, u, b),
    ensures
        a == b,
{
    if a.place() < b.place() {
        lemma_weight_grows(weights, a.place() + 1, b.place());
    }
    if b.place() < a.place() {
        lemma_weight_grows(weights, b.place() + 1, a.place());
    }
}

/// A category without weight is never selected, unless it is the ordinary one.
pub proof fn lemma_no_weight_no_selection(weights: Seq<u64>, u: int, category: FloatCategory)
    requires
        selects(weights, u, category),
        category != FloatCategory::Ordinary,
    ensures
        weights[category.place()] > 0,
{
}

/// A category that has all the weight is always selected.
pub proof fn lemma_whole_weight_selects(weights: Seq<u64>, u: int, category: FloatCategory)
    requires
        weights.len() == FLOAT_CATEGORIES,
        weights[category.place()] == PROBABILITY_ONE,
        forall|i: int|
            0 <= i < FLOAT_CATEGORIES && i != category.place() ==> #[trigger] weights[i] == 0,
        0 <= u < PROBABILITY_ONE,
    ensures
        selects(weights, u, category),
{
    lemma_no_weight_before(weights, category.place());
}

proof fn lemma_no_weight_before(weights: Seq<u64>, n: int)
    requires
        forall|i: int| 0 <= i < n ==> #[trigger] weights[i] == 0,
    ensures
        weight_before(weights, n) == 0,
    decreases n,
{
    if n > 0 {
        lemma_no_weight_before(weights, n - 1);
    }
}

/// The weights of a test case: those of integers of a wide range, and those of
/// floating-point values.
#[derive(Clone, Copy, Debug, PartialEq, Eq, Structural)]
pub struct GenerationParameters {
    /// The weights of the categories of integers.
    pub integer: IntegerGenerationParameters,
    /// The weights of the categories of floating-point values.
    pub float: FloatGenerationParameters,
}

impl GenerationParameters {
    /// The numerators of all weights.
    pub open spec fn numbers(self) -> Seq<u64> {
        seq![
            self.integer.endpoint.numerator,
            self.integer.interesting.numerator,
            self.integer.diffuse.numerator,
        ] + self.float.numbers()
    }

    /// The numerators of all weights.
    pub fn to_numbers(&self) -> (r: [u64; 20])
        ensures
            r@ == self.numbers(),
    {
        let f = self.float.weights();
        let r: [u64; 20] = [
            self.integer.endpoint.numerator,
            self.integer.interesting.numerator,
            self.integer.diffuse.numerator,
            f[0],
            f[1],
            f[2],
            f[3],
            f[4],
            f[5],
            f[6],
            f[7],
            f[8],
            f[9],
            f[10],
            f[11],
            f[12],
            f[13],
            f[14],
            f[15],
            f[16],
        ];
        assert(r@ =~= self.numbers());
        r
    }

    /// The weights with the given numerators.
    pub fn from_numbers(n: [u64; 20]) -> (r: Self)
        ensures
            r.numbers() == n@,
    {
        let integer = IntegerGenerationParameters {
            endpoint: Probability { numerator: n[0] },
            interesting: Probability { numerator: n[1] },
            diffuse: Probability { numerator: n[2] },
        };
        let float = FloatGenerationParameters::from_weights(
            [
                n[3],
                n[4],
                n[5],
                n[6],
                n[7],
                n[8],
                n[9],
                n[10],
                n[11],
                n[12],
                n[13],
                n[14],
                n[15],
                n[16],
                n[17],
                n[18],
                n[19],
            ],
        );
        let r = GenerationParameters { integer, float };
        assert(r.numbers() =~= n@);
        r
    }
}

} // verus!
