//! Conversions between compact JSON text and linked lists, binary trees and
//! the element texts of a JSON array.
use vstd::prelude::*;

pub mod error;
pub mod json;
pub mod list;
pub mod parse;
pub mod text;
pub mod tree;

pub use error::CodecError;
pub use parse::{split_array, Array};
pub use list::{LinkedList, ListLink, ListNode};
pub use tree::{BinaryTree, TreeLink, TreeNode};
pub use text::join_array;

verus! {

/// The unit type on which problem solutions are written as associated functions.
pub struct Solution;

} // verus!
