//! A small regular-expression engine: a pattern is parsed into an abstract
//! syntax tree, compiled into byte code for a tiny virtual machine, and the
//! byte code is run against a text with one of two strategies.
use vstd::prelude::*;

pub mod engine;
pub mod helper;

verus! {

} // verus!
