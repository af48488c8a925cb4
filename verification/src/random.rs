//! The random draws that generation and pathfinding make, each behind a
//! contract that holds of every outcome.
use crate::geometry::Vector;
use rand::seq::IteratorRandom;
use rand::seq::SliceRandom;
use rand::Rng;
use rand_pcg::Pcg32;
use vstd::prelude::*;

verus! {

/// The generator behind [`rand_pcg::Pcg32`]; nothing of its state is known.
#[verifier::external_type_specification]
#[verifier::external_body]
pub struct ExPcg32(rand_pcg::Lcg64Xsh32);

/// `Rng::gen_range` on the inclusive range `low..=high`. The draw panics on
/// an empty range, so `low <= high` is required; the result lies in the
/// range, and nothing else is known of it.
#[verifier::external_body]
pub(crate) fn random_range(rng: &mut Pcg32, low: i32, high: i32) -> (r: i32)
    requires
        low <= high,
    ensures
        low <= r <= high,
{
    rng.gen_range(low..=high)
}

/// `Rng::gen` for a `bool`. Either value may come back.
#[verifier::external_body]
pub(crate) fn random_bool(rng: &mut Pcg32) -> bool {
    rng.gen()
}

/// `SliceRandom::choose`: one of the elements of `items`, or `None` if
/// there is none. Nothing is known of which element it is.
#[verifier::external_body]
pub(crate) fn choose_one<T: Copy>(rng: &mut Pcg32, items: &Vec<T>) -> (r: Option<T>)
    ensures
        match r {
            Some(v) => items@.contains(v),
            None => items@.len() == 0,
        },
{
    items.choose(rng).copied()
}

/// `IteratorRandom::choose` over the elements of `items`: one of them, or
/// `None` if there is none. Nothing is known of which element it is.
#[verifier::external_body]
pub(crate) fn choose_among(rng: &mut Pcg32, items: Vec<Vector>) -> (r: Option<Vector>)
    ensures
        match r {
            Some(v) => items@.contains(v),
            None => items@.len() == 0,
        },
{
    items.into_iter().choose(rng)
}

} // verus!
