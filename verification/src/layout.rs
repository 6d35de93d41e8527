//! Sizes and alignment of the queues inside the shared arena.
//!
//! A queue occupies an index region (`tail`, `head` and one chain cell per
//! slot, four bytes each) followed by a data region of equally sized slots.
//! Both regions are padded to a multiple of the cache line size, which is an
//! input to every function here.
use vstd::prelude::*;
use vstd::arithmetic::div_mod::lemma_fundamental_div_mod;
use vstd::arithmetic::div_mod::lemma_fundamental_div_mod_converse;
use vstd::arithmetic::div_mod::lemma_mod_bound;

verus! {

/// Width of one index cell in bytes.
pub const INDEX_SIZE: usize = 4;

/// Every queue has at least this many message slots.
pub const MIN_MSGS: usize = 3;

/// `size` rounded up to the next multiple of `alignment`.
pub open spec fn align_up(size: int, alignment: int) -> int
    recommends
        size >= 0,
        alignment > 0,
{
    ((size + alignment - 1) / alignment) * alignment
}

/// The rounded size is the least multiple of the alignment that is not below
/// the size.
pub proof fn lemma_align_up(size: int, alignment: int)
    requires
        size >= 0,
        alignment > 0,
    ensures
        align_up(size, alignment) % alignment == 0,
        size <= align_up(size, alignment) < size + alignment,
        size % alignment == 0 ==> align_up(size, alignment) == size,
        size % alignment != 0 ==> align_up(size, alignment) == size - size % alignment + alignment,
{
    let q = size / alignment;
    let r = size % alignment;
    lemma_fundamental_div_mod(size, alignment);
    lemma_mod_bound(size, alignment);
    let t = size + alignment - 1;
    if r == 0 {
        assert(t == q * alignment + (alignment - 1)) by (nonlinear_arith)
            requires
                size == alignment * q + r,
                r == 0,
                t == size + alignment - 1,
        ;
        lemma_fundamental_div_mod_converse(t, alignment, q, alignment - 1);
        assert(q * alignment == size) by (nonlinear_arith)
            requires
                size == alignment * q + r,
                r == 0,
        ;
    } else {
        assert(t == (q + 1) * alignment + (r - 1)) by (nonlinear_arith)
            requires
                size == alignment * q + r,
                t == size + alignment - 1,
        ;
        lemma_fundamental_div_mod_converse(t, alignment, q + 1, r - 1);
        assert((q + 1) * alignment == size - r + alignment) by (nonlinear_arith)
            requires
                size == alignment * q + r,
        ;
    }
    let k = t / alignment;
    lemma_fundamental_div_mod_converse(k * alignment, alignment, k, 0);
}

/// Rounds `size` up to a multiple of `alignment`.
pub fn mem_align(size: usize, alignment: usize) -> (r: usize)
    requires
        alignment > 0,
        align_up(size as int, alignment as int) <= usize::MAX,
    ensures
        r == align_up(size as int, alignment as int),
{
    proof {
        lemma_align_up(size as int, alignment as int);
        vstd::arithmetic::div_mod::lemma_mod_decreases(size as nat, alignment as nat);
    }
    let rem: usize = size % alignment;
    if rem == 0 {
        size
    } else {
        size - rem + alignment
    }
}

/// Rounds `size` up to a multiple of `alignment`, or gives `None` where the
/// rounded size does not fit the machine word.
pub fn checked_mem_align(size: usize, alignment: usize) -> (r: Option<usize>)
    requires
        alignment > 0,
    ensures
        r.is_some() <==> align_up(size as int, alignment as int) <= usize::MAX,
        r.is_some() ==> r.unwrap() == align_up(size as int, alignment as int),
{
    proof {
        lemma_align_up(size as int, alignment as int);
        vstd::arithmetic::div_mod::lemma_mod_decreases(size as nat, alignment as nat);
    }
    let rem: usize = size % alignment;
    if rem == 0 {
        Some(size)
    } else {
        (size - rem).checked_add(alignment)
    }
}

/// Rounds `size` up to a multiple of the cache line size `cls`.
pub fn cacheline_aligned(size: usize, cls: usize) -> (r: usize)
    requires
        cls > 0,
        align_up(size as int, cls as int) <= usize::MAX,
    ensures
        r == align_up(size as int, cls as int),
{
    mem_align(size, cls)
}

} // verus!
