//! The random source of the generators: the dice of `rltk`.

use rltk::RandomNumberGenerator;
use vstd::prelude::*;

verus! {

/// The random number generator of `rltk`, carried through as it is: nothing
/// is known of what it holds.
#[verifier::external_type_specification]
#[verifier::external_body]
pub struct ExRandomNumberGenerator(RandomNumberGenerator);

/// One throw of a die with `sides` faces, by `RandomNumberGenerator::roll_dice`
/// with a single die. That method draws from the range `1..sides + 1`, which
/// must not be empty and whose upper end must fit; the contract claims only
/// that the throw shows one of the faces, whatever the state of the generator.
#[verifier::external_body]
pub(crate) fn roll_die(rng: &mut RandomNumberGenerator, sides: i32) -> (face: i32)
    requires
        1 <= sides < i32::MAX,
    ensures
        1 <= face <= sides,
{
    rng.roll_dice(1, sides)
}

} // verus!
