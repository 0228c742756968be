//! Animals, generic over the kind of animal and the sound it makes.

use vstd::prelude::*;

verus! {

/// What every kind of animal can do.
pub trait AnimalBehavior {
    /// The sound that this kind of animal makes.
    spec fn sound(&self) -> Seq<char>;

    /// Makes the sound.
    fn make_sound(&self) -> (heard: &str)
        ensures
            heard@ == self.sound(),
    ;
}

/// An animal of kind `T`.
pub struct Animal<T> where T: AnimalBehavior {
    pub name: String,
    pub animal_type: T,
    pub weight: u8,
}

/// A dog of some breed.
pub struct Dog {
    pub breed: String,
}

/// A parrot of some colour.
pub struct Parrot {
    pub color: String,
}

impl AnimalBehavior for Dog {
    open spec fn sound(&self) -> Seq<char> {
        "Woof!"@
    }

    fn make_sound(&self) -> (heard: &str) {
        "Woof!"
    }
}

impl AnimalBehavior for Parrot {
    open spec fn sound(&self) -> Seq<char> {
        "Polly wants a cracker!"@
    }

    fn make_sound(&self) -> (heard: &str) {
        "Polly wants a cracker!"
    }
}

} // verus!
