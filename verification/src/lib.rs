//! Fixed-capacity sequence containers whose storage lives inline.
//!
//! [`vec::ArrayVec`] holds up to `N` elements of any type in `N` slots of
//! which a prefix is occupied. [`copy::CopyArrayVec`] is the same container
//! for `Copy` elements, [`string::ArrayString`] a UTF-8 string over at most
//! `N` bytes, and [`iter::IntoIter`] hands out the elements of a container
//! from either end. [`common::SetLenOnDrop`] is the guarded length that the
//! bulk writers use, and [`error`] holds what the containers report.
pub mod common;
pub mod copy;
pub mod error;
pub mod iter;
pub mod string;
pub mod vec;
