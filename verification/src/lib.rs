//! A small homoiconic language whose only runtime values are maps and
//! the empty value, verified with Verus.
use vstd::prelude::*;

pub mod order;
pub mod value;
pub mod encode;
pub mod map;
pub mod text;
pub mod interp;
pub mod ops;
pub mod parse;
pub mod render;
pub mod laws;
pub mod revision;

verus! {

} // verus!
