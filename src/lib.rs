//! A fixed-capacity circular buffer of samples for one producer and one
//! consumer: single and block pushes and reads, overwrite mode, and two
//! indexing policies (power-of-two with a bit mask, or exact with modulo).
pub mod cursor;
pub mod state;
pub mod buffer;
pub mod laws;

pub use buffer::{CapacityError, Indexing, RingBuffer};
