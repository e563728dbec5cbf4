use vstd::prelude::*;
use rand::rngs::ThreadRng;

verus! {

/// The thread's random generator of `rand`, carried through the generators unopened.
#[verifier::external_type_specification]
#[verifier::external_body]
pub struct ExThreadRng(rand::rngs::ThreadRng);

/// A handle on the thread's generator, from `rand::thread_rng`. Nothing is claimed of
/// it. (`thread_rng` panics only when the operating system cannot seed it, which no
/// argument decides.)
#[verifier::external_body]
pub(crate) fn thread_rng() -> ThreadRng {
    rand::thread_rng()
}

/// A value drawn uniformly from `0 .. n` by `rand::Rng::gen_range`. The draw depends
/// on the generator's state, so all that is claimed is the range `gen_range`
/// guarantees; `n > 0` because `gen_range` panics on an empty range.
#[verifier::external_body]
pub(crate) fn random_below(rng: &mut ThreadRng, n: usize) -> (res: usize)
    requires
        n > 0,
    ensures
        res < n,
{
    rand::Rng::gen_range(rng, 0..n)
}

/// Sixty-four random bits drawn by `rand::Rng::gen::<u64>`; nothing is claimed of
/// them, as they depend on the generator's state alone.
#[verifier::external_body]
pub(crate) fn random_u64(rng: &mut ThreadRng) -> u64 {
    rand::Rng::gen::<u64>(rng)
}

/// Whether a `u64` drawn by `rand` falls below `2^(64 - e)`: this is how `rand`'s
/// `gen_bool(p)` answers for a probability `p = 2^-e`, comparing one `u64` draw with
/// `p * 2^64`; for `e > 64` that threshold is zero and the answer is always false.
pub open spec fn draw_below(v: u64, e: u32) -> bool {
    1 <= e <= 64 && v < (1u64 << ((64 - e) as u64))
}

/// The answer `gen_bool(2^-e)` gives for the draw `v` (see `draw_below`); `e` is at
/// least one.
pub fn bool_from_draw(v: u64, e: u32) -> (res: bool)
    requires
        e >= 1,
    ensures
        res == draw_below(v, e),
{
    if e > 64 {
        false
    } else {
        v < (1u64 << ((64 - e) as u64))
    }
}

/// A fair coin, as `rand`'s `gen_bool(0.5)` draws it: one random `u64` below `2^63`.
pub(crate) fn coin_flip(rng: &mut ThreadRng) -> bool {
    let v = random_u64(rng);
    bool_from_draw(v, 1)
}

/// True with probability `2^-(k + 2)`, as `rand`'s `gen_bool(0.25 * 0.5^k)` draws it:
/// one random `u64` below `2^(62 - k)`, never true once `k > 62`.
pub(crate) fn chance_quarter_halved(rng: &mut ThreadRng, k: u32) -> (res: bool)
    ensures
        k > 62 ==> !res,
{
    let v = random_u64(rng);
    if k > 62 {
        false
    } else {
        bool_from_draw(v, k + 2)
    }
}

} // verus!
