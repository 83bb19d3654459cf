//! Parsing and rendering of `at://` record identifiers, and framing of
//! content-addressed blocks into a single archive byte stream.
use vstd::prelude::*;

pub mod aturi;
pub mod car;
pub mod grammar;

verus! {

} // verus!
