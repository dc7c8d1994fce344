use vstd::prelude::*;

verus! {

/// A real target written as the fraction `num / den`.
#[derive(Debug, Clone, Copy, PartialEq, Eq)]
pub struct Target {
    pub num: i64,
    pub den: u64,
}

impl Target {
    /// A usable target has a positive denominator.
    pub open spec fn wf(self) -> bool {
        self.den > 0
    }
}

/// Distance from `v` to the target, multiplied by the target's denominator:
/// `|v * den - num| == den * |v - num / den|`, so comparing these values
/// compares the true distances whenever `den > 0`.
pub open spec fn dist(v: int, t: Target) -> int {
    let d = v * t.den - t.num;
    if d < 0 {
        -d
    } else {
        d
    }
}

/// Computes `dist(v, t)` without overflow.
pub fn scaled_distance(v: i32, t: Target) -> (r: i128)
    ensures
        r == dist(v as int, t),
{
    let vi = v as i128;
    let di = t.den as i128;
    proof {
        assert(-0x8000_0000 <= vi <= 0x7fff_ffff);
        assert(0 <= di <= 0xffff_ffff_ffff_ffff);
        assert(-0x8000_0000 * 0x1_0000_0000_0000_0000 <= vi * di <= 0x8000_0000 * 0x1_0000_0000_0000_0000)
            by (nonlinear_arith)
            requires
                -0x8000_0000 <= vi <= 0x7fff_ffff,
                0 <= di <= 0xffff_ffff_ffff_ffff,
        ;
    }
    let d = vi * di - t.num as i128;
    if d < 0 {
        -d
    } else {
        d
    }
}

} // verus!
