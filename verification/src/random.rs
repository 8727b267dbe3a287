//! Randomness as an explicit capability: a context value that is threaded
//! through every call that draws random data, with no ambient generator state.

pub mod context;
