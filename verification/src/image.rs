//! The bounded working size at which an image is clustered.

use vstd::arithmetic::div_mod::{
    lemma_div_by_multiple, lemma_div_is_ordered, lemma_div_pos_is_pos, lemma_multiply_divide_lt,
};
use vstd::prelude::*;

verus! {

/// The longest image side the clustering pipeline works on; a larger image
/// is scaled down to this bound before its pixels are read, purely to cap
/// clustering cost.
pub const MAX_SIZE: u32 = 400;

/// The dimensions an image is clustered at: unchanged when both sides are
/// already below the bound, otherwise scaled proportionally so the longer
/// side equals the bound, the shorter side rounding down.
pub open spec fn resized_dims(width: int, height: int) -> (int, int) {
    if width < MAX_SIZE && height < MAX_SIZE {
        (width, height)
    } else if width > height {
        (MAX_SIZE as int, height * MAX_SIZE / width)
    } else {
        (width * MAX_SIZE / height, MAX_SIZE as int)
    }
}

/// Computes the bounded working size of an image, preserving the aspect
/// ratio. The caller scales the decoded image itself; this function only
/// decides the target dimensions.
pub fn resize(width: u32, height: u32) -> (r: (u32, u32))
    ensures
        (r.0 as int, r.1 as int) == resized_dims(width as int, height as int),
        r.0 <= width,
        r.1 <= height,
{
    if width < MAX_SIZE && height < MAX_SIZE {
        return (width, height);
    }
    if width > height {
        proof {
            assert(MAX_SIZE == 400);
            assert(width >= MAX_SIZE);
            assert((height as int * MAX_SIZE as int) <= (height as int * width as int))
                by (nonlinear_arith)
                requires
                    (MAX_SIZE as int) <= (width as int),
                    0 <= height as int,
            ;
            lemma_div_pos_is_pos(height as int * MAX_SIZE as int, width as int);
            lemma_multiply_divide_lt(
                height as int * MAX_SIZE as int,
                width as int,
                MAX_SIZE as int,
            );
            assert((height as int * MAX_SIZE as int) < (width as int * MAX_SIZE as int))
                by (nonlinear_arith)
                requires
                    (height as int) < (width as int),
                    0 < MAX_SIZE as int,
            ;
            lemma_div_is_ordered(
                height as int * MAX_SIZE as int,
                height as int * width as int,
                width as int,
            );
            lemma_div_by_multiple(height as int, width as int);
        }
        let target = (height as u64 * MAX_SIZE as u64) / (width as u64);
        (MAX_SIZE, target as u32)
    } else {
        proof {
            assert(MAX_SIZE == 400);
            assert(height >= MAX_SIZE);
            assert((width as int * MAX_SIZE as int) <= (height as int * MAX_SIZE as int))
                by (nonlinear_arith)
                requires
                    (width as int) <= (height as int),
                    0 <= MAX_SIZE as int,
            ;
            assert((width as int * MAX_SIZE as int) <= (width as int * height as int))
                by (nonlinear_arith)
                requires
                    (MAX_SIZE as int) <= (height as int),
                    0 <= width as int,
            ;
            lemma_div_pos_is_pos(width as int * MAX_SIZE as int, height as int);
            lemma_div_is_ordered(
                width as int * MAX_SIZE as int,
                height as int * MAX_SIZE as int,
                height as int,
            );
            assert(height as int * MAX_SIZE as int == MAX_SIZE as int * height as int);
            lemma_div_by_multiple(MAX_SIZE as int, height as int);
            lemma_div_is_ordered(
                width as int * MAX_SIZE as int,
                width as int * height as int,
                height as int,
            );
            lemma_div_by_multiple(width as int, height as int);
        }
        let target = (width as u64 * MAX_SIZE as u64) / (height as u64);
        (target as u32, MAX_SIZE)
    }
}

} // verus!
