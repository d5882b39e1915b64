//! The pseudo-random generator that the renderer threads through its work.
use vstd::prelude::*;
use rand::Rng;
use rand_pcg::Mcg128Xsl64;

verus! {

/// rand_pcg's 128-bit multiplicative congruential generator (`Pcg64Mcg`).
#[verifier::external_type_specification]
#[verifier::external_body]
pub struct ExMcg128Xsl64(Mcg128Xsl64);

/// The generator that rand_pcg's `Mcg128Xsl64::new` makes from `state`.
pub uninterp spec fn pcg_from(state: u128) -> Mcg128Xsl64;

/// rand_pcg's `Mcg128Xsl64::new`: a generator from a 128-bit state, which
/// depends on that state alone (it keeps `state | 1`).
pub assume_specification[ Mcg128Xsl64::new ](state: u128) -> (r: Mcg128Xsl64)
    ensures
        r == pcg_from(state),
;

/// Relies on rand's `Rng::gen_range` for `u8`: a value in `[low, high)`; it
/// panics when `low >= high`.
#[verifier::external_body]
pub(crate) fn gen_range_u8(rng: &mut Mcg128Xsl64, low: u8, high: u8) -> (r: u8)
    requires
        low < high,
    ensures
        low <= r < high,
{
    rng.gen_range(low, high)
}

/// The seed of worker `slice`: the shared base seed offset by the worker's index,
/// wrapping around at 2^128.
pub open spec fn slice_seed_of(base: u128, slice: u32) -> u128 {
    let sum = base as int + slice as int;
    if sum > u128::MAX {
        (sum - (u128::MAX as int + 1)) as u128
    } else {
        sum as u128
    }
}

/// The seed of worker `slice`, so that workers draw from distinct generators.
pub fn slice_seed(base: u128, slice: u32) -> (r: u128)
    ensures
        r == slice_seed_of(base, slice),
{
    base.wrapping_add(slice as u128)
}

/// The generator that worker `slice` owns for the whole of its band.
pub fn slice_rng(base: u128, slice: u32) -> (r: Mcg128Xsl64)
    ensures
        r == pcg_from(slice_seed_of(base, slice)),
{
    Mcg128Xsl64::new(slice_seed(base, slice))
}

} // verus!
