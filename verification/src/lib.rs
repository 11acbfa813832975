//! A library for building and rendering an indented tree view of a
//! directory hierarchy.
//!
//! The tree builder consumes a raw snapshot of what a directory listing
//! reported (names, classifications, link targets) and produces an ordered,
//! hidden-entry-filtered tree of typed nodes. The renderer walks a finished
//! tree and produces one line per visible entry, with box-drawing connector
//! glyphs, together with aggregate directory and file counts. Both passes are
//! pure: all filesystem access stays with the caller.

pub mod builder;
pub mod errors;
pub mod node;
pub mod order;
pub mod raw;
pub mod render;

pub use builder::build;
pub use node::FileTree;
pub use order::sort_by_name;

use vstd::prelude::*;

verus! {

/// A name is hidden when its first character is a period.
pub open spec fn is_hidden_name(s: Seq<char>) -> bool {
    s.len() > 0 && s[0] == '.'
}

/// Returns whether a name does not start with the hidden-entry marker.
pub fn is_not_hidden(name: &str) -> (r: bool)
    ensures
        r == !is_hidden_name(name@),
{
    if name.is_empty() {
        true
    } else {
        name.get_char(0) != '.'
    }
}

} // verus!
