//! A constraint-based layout engine for named UI elements.
//!
//! Callers state equality constraints between arithmetic expressions over
//! element properties (`box.right = box.left + box.width`, and so on).
//! The engine rearranges every constraint so that each property occurrence
//! stands alone on one side, groups the rearranged equations per element and
//! property, adds the structural identities that tie width/left/right and
//! height/bottom/top together, and then resolves concrete integer values by
//! fixed-point substitution, reporting conflicting or under-determined
//! constraint sets.

pub mod augment;
pub mod code;
pub mod expr;
pub mod extract;
pub mod group;
pub mod isolate;
pub mod paths;
pub mod rat;
pub mod solve;
pub mod widget;

pub use crate::expr::{Constraint, Direction, Expression, Name, Property};
pub use crate::extract::extract_prop_constraints;
pub use crate::group::{ElementConstraints, group_by_element};
pub use crate::augment::fill_with_inherent_constraints;
pub use crate::isolate::isolate_variable;
pub use crate::paths::find_paths_to_vars;
pub use crate::solve::{Element, ElementBuilder, ResolutionError, resolve};
