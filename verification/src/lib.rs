//! Website status monitoring, together with a handful of small text and
//! arithmetic utilities, written as verified Verus code.
use vstd::prelude::*;

pub mod monitor;
pub mod text;
pub mod exercises;
pub mod books;
pub mod pricing;

verus! {

} // verus!
