use vstd::prelude::*;

verus! {

/// Division rounded towards positive infinity: the least `q` with `q * y >= x`.
pub open spec fn ceil_div_spec(x: int, y: int) -> int {
    x / y + (if x % y != 0 { 1int } else { 0int })
}

/// Division with round up of result.
pub fn ceil_div(x: u32, y: u32) -> (r: u32)
    requires
        y >= 1,
    ensures
        r == ceil_div_spec(x as int, y as int),
        r * y >= x,
        (r - 1) * y < x,
{
    let q: u32 = x / y;
    let rem: u32 = x % y;
    proof {
        assert(x == (x as int / y as int) * (y as int) + x as int % (y as int)) by {
            vstd::arithmetic::div_mod::lemma_fundamental_div_mod(x as int, y as int);
        }
        assert((q + 1) * y == q * y + y && (q - 1) * y == q * y - y) by (nonlinear_arith);
        assert(q * y <= x && q <= x) by (nonlinear_arith)
            requires
                y >= 1,
                x == q * y + rem,
                q >= 0,
                rem >= 0,
        ;
    }
    if rem != 0 {
        proof {
            assert(2 * q <= q * y) by (nonlinear_arith)
                requires
                    q >= 0,
                    y >= 2,
            ;
        }
        q + 1
    } else {
        q
    }
}

} // verus!
