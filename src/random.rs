//! Random choices, drawn from the thread-local generator of `rand`.
use vstd::prelude::*;
use rand::Rng;

verus! {

/// An ASCII letter or digit.
pub open spec fn is_alphanumeric(c: char) -> bool {
    ('a' <= c && c <= 'z') || ('A' <= c && c <= 'Z') || ('0' <= c && c <= '9')
}

/// Relies on `rand::thread_rng` and `Rng::gen::<bool>` (the `Standard` distribution
/// for `bool`): a coin toss. Nothing is promised of the outcome.
#[verifier::external_body]
pub(crate) fn coin() -> bool {
    rand::thread_rng().gen::<bool>()
}

/// Relies on `rand::thread_rng` and `rand::distributions::Alphanumeric`, which in
/// rand 0.7 samples a `char` uniformly from `A-Z`, `a-z` and `0-9`.
#[verifier::external_body]
pub(crate) fn alphanumeric() -> (c: char)
    ensures
        is_alphanumeric(c),
{
    rand::thread_rng().sample(rand::distributions::Alphanumeric)
}

} // verus!
