//! A vector of fixed-width unsigned codes packed densely into 64-bit words,
//! most significant bit first, with elements allowed to straddle two words.
//! Element types convert to and from their codes through `ReprUsize`.

pub mod bits_vec;
pub mod codec;
pub mod laws;
pub mod stream;
pub mod word;

pub use bits_vec::{BitsVec, IntoIter, Iter};
pub use codec::ReprUsize;
