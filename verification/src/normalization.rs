//! Linear scaling of centrality values to the range from zero to one.

use vstd::prelude::*;
use crate::error::IpsError;
use crate::node::ONE;

verus! {

/// The lowest and the highest of a list of samples.
#[derive(Clone, Copy, Debug, PartialEq, Eq, Structural)]
pub struct NormalizationFactors {
    pub min: i64,
    pub max: i64,
}

/// The lowest of the samples (of one sample and more).
pub open spec fn lowest(samples: Seq<i64>) -> i64
    decreases samples.len(),
{
    if samples.len() <= 1 {
        samples[0]
    } else {
        let before = lowest(samples.drop_last());
        if samples.last() < before {
            samples.last()
        } else {
            before
        }
    }
}

/// The highest of the samples (of one sample and more).
pub open spec fn highest(samples: Seq<i64>) -> i64
    decreases samples.len(),
{
    if samples.len() <= 1 {
        samples[0]
    } else {
        let before = highest(samples.drop_last());
        if samples.last() > before {
            samples.last()
        } else {
            before
        }
    }
}

/// The lowest and the highest sample are samples, and bound all of them.
pub proof fn lemma_lowest_highest(samples: Seq<i64>)
    requires
        samples.len() >= 1,
    ensures
        samples.contains(lowest(samples)),
        samples.contains(highest(samples)),
        forall|k: int|
            0 <= k < samples.len() ==> lowest(samples) <= #[trigger] samples[k] && samples[k]
                <= highest(samples),
    decreases samples.len(),
{
    if samples.len() > 1 {
        let shorter = samples.drop_last();
        lemma_lowest_highest(shorter);
        let a = choose|a: int| 0 <= a < shorter.len() && shorter[a] == lowest(shorter);
        let b = choose|b: int| 0 <= b < shorter.len() && shorter[b] == highest(shorter);
        assert(samples[a] == shorter[a] && samples[b] == shorter[b]);
        assert(samples[samples.len() - 1] == samples.last());
        assert forall|k: int| 0 <= k < samples.len()
            implies lowest(samples) <= #[trigger] samples[k]
            && samples[k] <= highest(samples) by {
            if k < shorter.len() {
                assert(shorter[k] == samples[k]);
            }
        }
    } else {
        assert(samples[0] == lowest(samples));
    }
}

/// The quotient of `n` by `d`, rounded towards zero.
pub open spec fn truncated_quotient(n: int, d: int) -> int {
    if d > 0 {
        if n >= 0 {
            n / d
        } else {
            -((-n) / d)
        }
    } else {
        if n >= 0 {
            -(n / (-d))
        } else {
            (-n) / (-d)
        }
    }
}

/// Where `value` stands between `min` and `max`, in millionths of the way
/// from the one to the other, rounded towards zero; zero where the two are
/// the same.
pub open spec fn scaled(min: int, max: int, value: int) -> int {
    if min == max {
        0
    } else {
        truncated_quotient((value - min) * ONE, max - min)
    }
}

/// The lowest sample scales to zero and the highest, where it is another, to
/// one; where the two are the same, every value scales to zero.
pub proof fn lemma_scaled_ends(min: int, max: int, value: int)
    ensures
        scaled(min, max, min) == 0,
        min != max ==> scaled(min, max, max) == ONE,
        scaled(min, min, value) == 0,
{
    if min != max {
        let d = max - min;
        if d > 0 {
            assert((d * ONE) / d == ONE) by (nonlinear_arith)
                requires
                    d > 0,
            ;
            assert(d * ONE >= 0) by (nonlinear_arith)
                requires
                    d > 0,
            ;
        } else {
            let e = -d;
            assert((e * ONE) / e == ONE) by (nonlinear_arith)
                requires
                    e > 0,
            ;
            assert(-(d * ONE) == e * ONE) by (nonlinear_arith)
                requires
                    e == -d,
            ;
            assert(d * ONE < 0) by (nonlinear_arith)
                requires
                    d < 0,
            ;
        }
        assert(0int / d == 0 && 0int / (-d) == 0) by (nonlinear_arith)
            requires
                d != 0,
        ;
    }
}

/// A value between the two factors scales to between zero and one.
pub proof fn lemma_scaled_range(min: int, max: int, value: int)
    requires
        min <= value <= max,
    ensures
        0 <= scaled(min, max, value) <= ONE,
{
    if min != max {
        let d = max - min;
        let n = (value - min) * ONE;
        assert(0 <= n <= d * ONE) by (nonlinear_arith)
            requires
                0 <= value - min <= d,
                n == (value - min) * ONE,
        ;
        assert(0 <= n / d <= ONE) by (nonlinear_arith)
            requires
                0 <= n <= d * ONE,
                d > 0,
        ;
    }
}

/// How far a scaled value can lie from zero, whatever the inputs.
pub open spec fn scaled_limit() -> int {
    0x1_0000_0000_0000_0000 * ONE
}

/// Scaling any 64-bit value by any 64-bit factors stays within the limit.
pub proof fn lemma_scaled_limit(min: i64, max: i64, value: i64)
    ensures
        -scaled_limit() < scaled(min as int, max as int, value as int) < scaled_limit(),
{
    if min != max {
        let d = max - min;
        let v = value - min;
        let n = v * ONE;
        let m: int = if n >= 0 {
            n
        } else {
            -n
        };
        let e: int = if d > 0 {
            d
        } else {
            -d
        };
        assert(m < scaled_limit()) by (nonlinear_arith)
            requires
                -0x1_0000_0000_0000_0000 < v < 0x1_0000_0000_0000_0000,
                n == v * ONE,
                m == (if n >= 0 {
                    n
                } else {
                    -n
                }),
                scaled_limit() == 0x1_0000_0000_0000_0000 * ONE,
        ;
        assert(0 <= m / e <= m) by (nonlinear_arith)
            requires
                m >= 0,
                e >= 1,
        ;
    }
}

impl NormalizationFactors {
    /// Determines the factors of a list of samples: its lowest and its
    /// highest value. A list without samples has none.
    pub fn determine(list: &[i64]) -> (result: Result<NormalizationFactors, IpsError>)
        ensures
            list@.len() == 0 <==> result == Err::<NormalizationFactors, IpsError>(
                IpsError::EmptyNormalizationSample,
            ),
            list@.len() > 0 ==> result == Ok::<NormalizationFactors, IpsError>(
                NormalizationFactors { min: lowest(list@), max: highest(list@) },
            ),
    {
        if list.len() == 0 {
            return Err(IpsError::EmptyNormalizationSample);
        }
        let mut min: i64 = list[0];
        let mut max: i64 = list[0];
        assert(list@.take(1).len() == 1);
        let mut i: usize = 1;
        while i < list.len()
            invariant
                1 <= i <= list.len(),
                min == lowest(list@.take(i as int)),
                max == highest(list@.take(i as int)),
            decreases list.len() - i,
        {
            let sample = list[i];
            proof {
                assert(list@.take(i + 1).drop_last() =~= list@.take(i as int));
                assert(list@.take(i + 1).last() == sample);
            }
            if sample < min {
                min = sample;
            }
            if sample > max {
                max = sample;
            }
            i += 1;
        }
        proof {
            assert(list@.take(i as int) =~= list@);
        }
        Ok(NormalizationFactors { min, max })
    }

    /// Scales a value by the factors.
    pub fn scale(&self, value: i64) -> (result: i128)
        ensures
            result == scaled(self.min as int, self.max as int, value as int),
    {
        if self.min == self.max {
            return 0;
        }
        proof {
            lemma_scaled_limit(self.min, self.max, value);
        }
        let distance: i128 = value as i128 - self.min as i128;
        let span: i128 = self.max as i128 - self.min as i128;
        let part: u128 = if distance >= 0 {
            distance as u128
        } else {
            (-distance) as u128
        };
        let whole: u128 = if span > 0 {
            span as u128
        } else {
            (-span) as u128
        };
        assert(part * ONE < 0x1_0000_0000_0000_0000 * ONE) by (nonlinear_arith)
            requires
                part < 0x1_0000_0000_0000_0000,
        ;
        let millionths: u128 = part * (ONE as u128);
        let quotient: u128 = millionths / whole;
        proof {
            assert(quotient <= millionths) by (nonlinear_arith)
                requires
                    quotient == millionths as int / whole as int,
                    whole >= 1,
                    millionths >= 0,
            ;
            assert((value - self.min) * ONE == distance * ONE);
            if distance >= 0 {
                assert(distance * ONE == millionths) by (nonlinear_arith)
                    requires
                        millionths == part * ONE,
                        part == distance,
                ;
            } else {
                assert(-(distance * ONE) == millionths) by (nonlinear_arith)
                    requires
                        millionths == part * ONE,
                        part == -distance,
                ;
                assert(distance * ONE < 0) by (nonlinear_arith)
                    requires
                        distance < 0,
                ;
            }
        }
        if (distance >= 0) == (span > 0) {
            quotient as i128
        } else {
            -(quotient as i128)
        }
    }
}

} // verus!
