//! Type-system analyses of a compiler with refined enums: refinement types,
//! outlives components, representability, variance constraints, origin
//! contracts and the conversion of region constraints.
pub mod ty;
pub mod refinement;
pub mod visit;
pub mod origin_contract;
pub mod outlives;
pub mod representability;
pub mod variance;
pub mod constraint_conversion;
pub mod outlives_modes;
