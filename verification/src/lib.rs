//! A recycling byte-buffer allocator.
//!
//! A [`pool::BufPool`] hands out byte buffers of a requested size and, instead
//! of discarding their storage on release, keeps it in size-indexed free lists
//! for reuse by later requests of the same power-of-two size class.  Two buffer
//! facades share the pool design: the growable [`buf::Buf`], a length/capacity
//! byte vector, and the fixed-capacity [`fixed::FixedBuf`], which packs its
//! block address and capacity exponent into a single machine word.

pub mod buf;
pub mod fixed;
pub mod model;
pub mod pack;
pub mod pool;
pub mod sizes;
