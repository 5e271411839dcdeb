//! A small named payload for exercising the reclamation engine.
//!
//! The engine itself is payload-agnostic; `Canary` is the concrete value the
//! demo driver and the tests place into slots so that each retirement and
//! destruction can be told apart by name.

use vstd::prelude::*;

verus! {

/// A named payload value.
pub struct Canary {
    /// The name that identifies this particular value.
    pub name: String,
}

impl Canary {
    /// Creates a payload carrying a copy of `name`.
    pub fn new(name: &str) -> (c: Canary)
        ensures
            c.name@ == name@,
    {
        Canary { name: name.to_owned() }
    }
}

} // verus!
