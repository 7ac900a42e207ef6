pub mod alpha;
pub mod jumbler;
pub mod laws;
mod rng;
pub mod words;
