//! Terms, definitions of functions, and the passes that optimize these.
//!
//! The passes are, in their order: [`redundancy`], [`specializer`], [`renamer`], [`reducer`] with
//! [`substitutor`], [`lifter`], and [`renamer`] once more. [`signature`] runs them, and [`checks`]
//! has tests of whether they can do their work. What the passes lead to is stated in [`binding`],
//! [`scope`], [`normal_form`], [`copying`], [`hygiene`], [`optimization`] and [`interface`]. What
//! each does to a term, and what it leaves as it is, is stated in [`reading`], [`conversion`],
//! [`specialization`] and [`lifting`], and of lists of definitions in [`passes`].
pub mod binding;
pub mod checks;
pub mod conversion;
pub mod copying;
pub mod free_var;
pub mod hygiene;
pub mod interface;
pub mod lifter;
pub mod lifting;
pub mod naming;
pub mod normal_form;
pub mod optimization;
pub mod passes;
pub mod primitive_functions;
pub mod reading;
pub mod reducer;
pub mod redundancy;
pub mod renamer;
pub mod scope;
pub mod signature;
pub mod specialization;
pub mod specializer;
pub mod substitutor;
pub mod term;
pub mod usage;
