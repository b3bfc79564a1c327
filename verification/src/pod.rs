//! Plain data: values that can be printed, copied, compared and hashed.
use vstd::prelude::*;

verus! {

/// Plain old data: debuggable, clonable, comparable and hashable values.
pub trait POD: core::fmt::Debug + Clone + PartialEq + Eq + core::hash::Hash {}

impl<T: core::fmt::Debug + Clone + PartialEq + Eq + core::hash::Hash> POD for T {}

} // verus!
