//! Gadgets for the nonlinear substitution layer of a SNARK-friendly hash
//! permutation over the BLS12-381 scalar field.
//!
//! A field element is first re-expressed in a mixed-radix positional system
//! with small digits (`decomposition_gadget`), then a small lookup table is
//! applied to each digit, with carried comparison state that corrects the
//! boundary where the digit string could denote a value at or above the
//! field modulus (`s_box_and_constraints`).

pub mod composer;
pub mod field;
pub mod gadgets;
pub mod scan;
