//! Computation of the complement of an IPv4 CIDR block.
//!
//! The library has two parts: the `cidr` module holds the CIDR value type
//! with its textual parsing and rendering, and the `complement` module maps
//! a block to the ordered list of sibling blocks that together cover every
//! address outside it. The `bits` module holds the small binary-text
//! utilities that the bit manipulation can be expressed with.

pub mod bits;
pub mod cidr;
pub mod complement;
