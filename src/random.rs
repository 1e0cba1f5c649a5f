use vstd::prelude::*;
use rand::rngs::SmallRng;
use rand::seq::SliceRandom;
use rand::rngs::OsRng;
use rand::{Rng, SeedableRng};

verus! {

#[verifier::external_type_specification]
#[verifier::external_body]
pub struct ExSmallRng(SmallRng);

/// Relies on rand::Rng::gen::<bool>: a coin flip; nothing is known of its
/// outcome.
#[verifier::external_body]
pub(crate) fn flip_coin(rng: &mut SmallRng) -> (r: bool) {
    rng.gen()
}

/// Relies on rand::seq::SliceRandom::choose: `None` for an empty slice,
/// otherwise one of its elements.
#[verifier::external_body]
pub(crate) fn choose_cell(rng: &mut SmallRng, cells: &Vec<(usize, usize)>) -> (r: Option<
    (usize, usize),
>)
    ensures
        r is None <==> cells@.len() == 0,
        r matches Some(c) ==> cells@.contains(c),
{
    cells.choose(rng).copied()
}

/// Relies on rand::SeedableRng::from_rng with rand::rngs::OsRng: a generator
/// seeded by the operating system, or `None` when the operating system
/// supplies no entropy.
#[verifier::external_body]
pub(crate) fn fresh_rng() -> Option<SmallRng> {
    SmallRng::from_rng(OsRng).ok()
}

} // verus!
