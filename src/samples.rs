//! Target functions for symbolic regression, sampled on integer inputs.
use vstd::prelude::*;

verus! {

/// The functions that evolved programs are asked to match.
#[derive(Debug, Clone, Copy, PartialEq, Eq, Structural)]
pub enum TargetFunction {
    /// `3x^2 + x + 3`, sampled on `-5..=5`.
    Quadratic,
    /// `x^3 - 2x^2 + 3x + 5`, sampled on `-10..=10`.
    Cubic,
}

/// The value of the target function at `x`.
pub open spec fn target_value(f: TargetFunction, x: int) -> int {
    match f {
        TargetFunction::Quadratic => 3 * x * x + x + 3,
        TargetFunction::Cubic => x * x * x - 2 * x * x + 3 * x + 5,
    }
}

/// Half the width of the sampled range: inputs run from `-reach` to `reach`.
pub open spec fn reach(f: TargetFunction) -> int {
    match f {
        TargetFunction::Quadratic => 5,
        TargetFunction::Cubic => 10,
    }
}

/// The samples: one `(x, f(x))` pair for each integer `x` of the range, in order.
pub open spec fn samples_of(f: TargetFunction) -> Seq<(i32, i32)> {
    Seq::new((2 * reach(f) + 1) as nat, |i: int| ((i - reach(f)) as i32, target_value(f, i - reach(f)) as i32))
}

/// `(x, f(x))` for every integer `x` of the target's range, in increasing order.
pub fn generate_samples(target: TargetFunction) -> (r: Vec<(i32, i32)>)
    ensures
        r@ == samples_of(target),
{
    let lim: i32 = match target {
        TargetFunction::Quadratic => 5,
        TargetFunction::Cubic => 10,
    };
    let mut samples: Vec<(i32, i32)> = Vec::new();
    let mut x: i32 = -lim;
    while x <= lim
        invariant
            lim == reach(target),
            -lim <= x <= lim + 1,
            samples@ == samples_of(target).subrange(0, x + lim),
        decreases lim + 1 - x,
    {
        assert(-10 <= x <= 10);
        let y: i32 = match target {
            TargetFunction::Quadratic => {
                assert(-30 <= 3 * x <= 30 && 0 <= 3 * x * x <= 300) by (nonlinear_arith)
                    requires
                        -10 <= x <= 10,
                ;
                3 * x * x + x + 3
            },
            TargetFunction::Cubic => {
                assert(0 <= x * x <= 100 && -1000 <= x * x * x <= 1000 && -20 <= 2 * x <= 20 && 0 <= 2 * x * x <= 200) by (nonlinear_arith)
                    requires
                        -10 <= x <= 10,
                ;
                x * x * x - 2 * x * x + 3 * x + 5
            },
        };
        samples.push((x, y));
        assert(samples@ =~= samples_of(target).subrange(0, x + 1 + lim));
        x = x + 1;
    }
    assert(samples@ =~= samples_of(target));
    samples
}

} // verus!
