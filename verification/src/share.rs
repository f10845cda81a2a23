//! Proportional division of an extent on an integer grid.
//!
//! An extent of `span` grid steps is divided among weights that add up to
//! `whole`. The boundary that follows a running weight of `part` lies at
//! `part * span / whole`, rounded down. Placing boundaries, rather than
//! rounding each width on its own, keeps consecutive pieces gap-free and makes
//! the last boundary fall on the end of the extent.

use vstd::prelude::*;
use vstd::arithmetic::div_mod::{lemma_fundamental_div_mod, lemma_div_is_ordered, lemma_div_multiples_vanish, lemma_mod_bound};
use vstd::arithmetic::mul::{lemma_mul_inequality, lemma_mul_is_commutative, lemma_mul_is_distributive_sub_other_way};

verus! {

/// The number of grid steps in one unit of the default extents.
pub const RESOLUTION: u64 = 1_000_000;

/// A full turn, two pi, in steps of one [`RESOLUTION`]-th of a radian and
/// rounded down.
pub const FULL_TURN: u64 = 6_283_185;

/// The offset of the boundary that follows a running weight of `part` out of
/// `whole`, within an extent of `span` steps. With nothing to divide by, every
/// boundary collapses onto the start.
pub open spec fn cut(part: nat, whole: nat, span: nat) -> nat {
    if whole == 0 {
        0
    } else {
        (part * span) / whole
    }
}

/// Boundaries start at zero, grow with the running weight, and end on `span`.
pub proof fn lemma_cut_bounds(a: nat, b: nat, whole: nat, span: nat)
    requires
        a <= b <= whole,
    ensures
        cut(0, whole, span) == 0,
        cut(a, whole, span) <= cut(b, whole, span) <= span,
        whole > 0 ==> cut(whole, whole, span) == span,
{
    if whole > 0 {
        lemma_mul_inequality(a as int, b as int, span as int);
        lemma_mul_inequality(b as int, whole as int, span as int);
        lemma_div_is_ordered((a * span) as int, (b * span) as int, whole as int);
        lemma_div_is_ordered((b * span) as int, (whole * span) as int, whole as int);
        lemma_mul_is_commutative(whole as int, span as int);
        lemma_div_multiples_vanish(span as int, whole as int);
        assert(0 * span == 0);
    }
}

/// The piece between two boundaries differs from its exact proportional share
/// by less than one grid step.
pub proof fn lemma_cut_share(a: nat, b: nat, whole: nat, span: nat)
    requires
        a <= b <= whole,
        whole > 0,
    ensures
        cut(a, whole, span) <= cut(b, whole, span),
        (b - a) * span - whole < (cut(b, whole, span) - cut(a, whole, span)) * whole,
        (cut(b, whole, span) - cut(a, whole, span)) * whole < (b - a) * span + whole,
{
    lemma_cut_bounds(a, b, whole, span);
    let ca = cut(a, whole, span) as int;
    let cb = cut(b, whole, span) as int;
    let w = whole as int;
    lemma_fundamental_div_mod((a * span) as int, w);
    lemma_fundamental_div_mod((b * span) as int, w);
    lemma_mod_bound((a * span) as int, w);
    lemma_mod_bound((b * span) as int, w);
    lemma_mul_is_commutative(w, ca);
    lemma_mul_is_commutative(w, cb);
    lemma_mul_is_distributive_sub_other_way(w, cb, ca);
    lemma_mul_is_distributive_sub_other_way(span as int, b as int, a as int);
}

/// Computes [`cut`] without overflow.
pub fn cut_at(part: u64, whole: u64, span: u64) -> (c: u64)
    requires
        part <= whole,
    ensures
        c == cut(part as nat, whole as nat, span as nat),
        c <= span,
{
    proof {
        lemma_cut_bounds(part as nat, part as nat, whole as nat, span as nat);
    }
    if whole == 0 {
        0
    } else {
        assert(part * span <= 0xffff_ffff_ffff_ffff * 0xffff_ffff_ffff_ffff) by (nonlinear_arith)
            requires
                part <= 0xffff_ffff_ffff_ffff,
                span <= 0xffff_ffff_ffff_ffff,
        ;
        let scaled: u128 = (part as u128) * (span as u128);
        let c: u128 = scaled / (whole as u128);
        c as u64
    }
}

} // verus!
