//! Rounding an address up to an alignment boundary.

use vstd::prelude::*;
use vstd::arithmetic::div_mod::{
    lemma_fundamental_div_mod,
    lemma_mod_bound,
    lemma_mod_self_0,
    lemma_small_mod,
    lemma_mod_multiples_basic,
};

verus! {

/// The smallest multiple of `a` at or above `x`.
pub open spec fn spec_align_up(x: int, a: int) -> int
    recommends
        a >= 1,
{
    x + ((a - (x % a)) % a)
}

/// Rounding up lands on a multiple of the alignment, at or above the
/// address, and less than one alignment above it.
pub proof fn lemma_align_up(x: int, a: int)
    requires
        x >= 0,
        a >= 1,
    ensures
        spec_align_up(x, a) >= x,
        spec_align_up(x, a) < x + a,
        spec_align_up(x, a) % a == 0,
{
    let r = x % a;
    lemma_mod_bound(x, a);
    if r == 0 {
        lemma_mod_self_0(a);
        assert((a - 0) % a == 0) by {
            lemma_mod_multiples_basic(1, a);
        }
    } else {
        lemma_small_mod((a - r) as nat, a as nat);
        assert(spec_align_up(x, a) == x + a - r);
        lemma_fundamental_div_mod(x, a);
        assert(x + a - r == a * (x / a + 1)) by {
            assert(x == a * (x / a) + r);
            assert(a * (x / a + 1) == a * (x / a) + a) by (nonlinear_arith);
        }
        assert((a * (x / a + 1)) % a == 0) by {
            lemma_mod_multiples_basic(x / a + 1, a);
        }
    }
}

/// Rounds `x` up to the next multiple of `a`, or reports that the result
/// does not fit the address space.
pub fn align_up(x: usize, a: usize) -> (r: Option<usize>)
    requires
        a >= 1,
    ensures
        match r {
            Some(y) => y == spec_align_up(x as int, a as int),
            None => spec_align_up(x as int, a as int) > usize::MAX,
        },
{
    proof {
        lemma_mod_bound(x as int, a as int);
    }
    let rem = x % a;
    if rem == 0 {
        proof {
            lemma_align_up_unfold_zero(x as int, a as int);
        }
        Some(x)
    } else {
        proof {
            lemma_align_up_unfold_pos(x as int, a as int);
        }
        x.checked_add(a - rem)
    }
}

/// With no remainder, rounding up changes nothing.
proof fn lemma_align_up_unfold_zero(x: int, a: int)
    requires
        x >= 0,
        a >= 1,
        x % a == 0,
    ensures
        spec_align_up(x, a) == x,
{
    lemma_mod_self_0(a);
    assert((a - 0) % a == 0) by {
        lemma_mod_multiples_basic(1, a);
    }
}

/// With a remainder, rounding up adds what is missing to the boundary.
proof fn lemma_align_up_unfold_pos(x: int, a: int)
    requires
        x >= 0,
        a >= 1,
        x % a != 0,
    ensures
        spec_align_up(x, a) == x + (a - x % a),
{
    lemma_mod_bound(x, a);
    lemma_small_mod((a - x % a) as nat, a as nat);
}

} // verus!
