//! Alignment arithmetic: how far the end of the arena has to be pushed out
//! before a value of a given alignment can start there.

use vstd::prelude::*;

verus! {

/// Whether skipping `skip` bytes after `end` lands on a multiple of `align`.
pub open spec fn lands_aligned(end: nat, skip: nat, align: nat) -> bool
    recommends
        align > 0,
{
    (end + skip) % align == 0
}

/// The number of bytes to skip after `end` to reach a multiple of `align`.
pub open spec fn padding_for(end: nat, align: nat) -> nat
    recommends
        align > 0,
{
    ((align - end % align) % (align as int)) as nat
}

/// The first multiple of `align` that is not below `end`.
pub open spec fn aligned_up(end: nat, align: nat) -> nat
    recommends
        align > 0,
{
    end + padding_for(end, align)
}

/// `padding_for` is the least number of bytes that brings `end` to a
/// multiple of `align`: it does so, it is below `align`, and nothing
/// smaller does.
pub proof fn lemma_padding_is_least(end: nat, align: nat)
    requires
        align > 0,
    ensures
        padding_for(end, align) < align,
        lands_aligned(end, padding_for(end, align), align),
        forall|k: nat| k < padding_for(end, align) ==> !#[trigger] lands_aligned(end, k, align),
{
    let r = end % align;
    let q = end / align;
    assert(end == q * align + r) by {
        vstd::arithmetic::div_mod::lemma_fundamental_div_mod(end as int, align as int);
        vstd::arithmetic::mul::lemma_mul_is_commutative(q as int, align as int);
    }
    if r == 0 {
        assert(padding_for(end, align) == 0) by {
            vstd::arithmetic::div_mod::lemma_mod_self_0(align as int);
        }
    } else {
        assert(padding_for(end, align) == align - r) by {
            vstd::arithmetic::div_mod::lemma_small_mod((align - r) as nat, align);
        }
        assert(lands_aligned(end, padding_for(end, align), align)) by {
            assert(end + (align - r) == (q + 1) * align + 0) by (nonlinear_arith)
                requires
                    end == q * align + r,
            ;
            vstd::arithmetic::div_mod::lemma_fundamental_div_mod_converse(
                end + (align - r),
                align as int,
                q as int + 1,
                0,
            );
        }
        assert forall|k: nat| k < padding_for(end, align) implies !#[trigger] lands_aligned(
            end,
            k,
            align,
        ) by {
            vstd::arithmetic::div_mod::lemma_fundamental_div_mod_converse(
                (end + k) as int,
                align as int,
                q as int,
                (r + k) as int,
            );
        }
    }
}

/// Computes the padding that `padding_for` describes.
pub fn alignment_padding(end: usize, align: usize) -> (padding: usize)
    requires
        align > 0,
    ensures
        padding == padding_for(end as nat, align as nat),
{
    let rem: usize = end % align;
    proof {
        lemma_padding_is_least(end as nat, align as nat);
        if rem == 0 {
            vstd::arithmetic::div_mod::lemma_mod_self_0(align as int);
        } else {
            vstd::arithmetic::div_mod::lemma_small_mod((align - rem) as nat, align as nat);
        }
    }
    if rem == 0 {
        0
    } else {
        align - rem
    }
}

} // verus!
