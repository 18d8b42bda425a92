//! A gravitational N-body particle engine: the per-tick bookkeeping of a
//! collection of bodies that attract each other and coalesce on contact.
//!
//! The library is generic in the body type. The numeric work on a body
//! (integration against the other bodies, the contact test, the merge of two
//! bodies) is handed in by the caller; the library decides which bodies
//! interact, which pairs merge, and what the next generation of bodies is.
pub mod collision;
pub mod system;
