//! Verified building blocks of an FHE integer-operation compiler.

pub mod add_tree;
pub mod div;
pub mod aes;
pub mod erasable;
pub mod filters;
pub mod hillis_steele;
pub mod hs_add;
pub mod iop;
pub mod kinds;
pub mod kogge;
pub mod match_value;
pub mod mh_mul;
pub mod mul;
pub mod muls;
pub mod scope;
pub mod short_names;
pub mod small_vec;
pub mod stack_vec;
