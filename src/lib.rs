//! Fixed-capacity open-addressed hash maps whose cells pack a key
//! descriptor and a 2-byte value into a single atomic word.
pub mod array;
pub mod cell;
pub mod map;
pub mod store;
pub mod util;

pub use array::ConcurrentArray;
pub use map::HashMap;
