use vstd::prelude::*;

verus! {

/// A random byte from `rand::random::<u8>()`, which draws from the
/// thread-local generator (`rand::rng()`).  Nothing is promised of the
/// value beyond its type: it depends on chance.
#[verifier::external_body]
pub fn get_rand_byte() -> (byte: u8) {
    rand::random::<u8>()
}

} // verus!
