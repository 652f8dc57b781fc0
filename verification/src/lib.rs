//! A compiler for the Qa language: it turns a Qa program into C source code.
use vstd::prelude::*;

pub mod compiler;
pub mod config;
pub mod launch;
pub mod preprocessor;
pub mod text;

verus! {
} // verus!
