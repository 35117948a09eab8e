//! Seeds for the random generators that key generation draws from.
use vstd::prelude::*;

verus! {

/// A seed value, used to initialize a generator.
#[derive(Debug, Copy, Clone, PartialEq, Eq)]
pub struct Seed(pub u128);

/// A seeding strategy.
pub trait Seeder {
    /// Generates a new seed.
    fn seed(&mut self) -> Seed;

    /// Whether the seeder can be used on the current machine.
    fn is_available() -> bool
        where Self: Sized;
}

} // verus!
