use vstd::prelude::*;

pub mod block;
pub mod coords;
pub mod noise;
pub mod chunk;
pub mod mesh;
pub mod tree;
pub mod persistence;
pub mod world;
mod random;

verus! {

} // verus!
