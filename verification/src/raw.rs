//! The raw material the tree builder works from: what enumerating a
//! directory reported, entry by entry, before any ordering, filtering or
//! classification into tree nodes has happened.

use vstd::prelude::*;
use crate::node::Metadata;

verus! {

/// One directory as its listing reported it: the directory's own name and
/// one slot per entry the listing named, in the order the listing produced,
/// unfiltered and unsorted.
pub struct RawDir {
    pub name: String,
    pub children: Vec<RawChild>,
}

/// One slot of a directory listing.
pub enum RawChild {
    /// An entry the listing named but could not read while enumerating
    /// (for instance, one deleted mid-scan). The best-effort tier drops it.
    Skipped,
    /// An entry whose name alone was read and nothing more; the hidden-entry
    /// filter keeps its metadata from ever being fetched.
    Unexamined(String),
    /// An entry read in full.
    Loaded(RawNode),
}

/// A fully examined entry, already classified with symlink-ness checked
/// before directory-ness and file-ness.
pub enum RawNode {
    Dir(RawDir),
    File { name: String, metadata: Metadata },
    Link { name: String, metadata: Metadata, target: String },
}

/// The mathematical view of a raw directory listing.
pub struct RawDirV {
    pub name: Seq<char>,
    pub children: Seq<RawChildV>,
}

/// The mathematical view of one listing slot.
pub enum RawChildV {
    Skipped,
    Unexamined(Seq<char>),
    Loaded(RawNodeV),
}

/// The mathematical view of a fully examined entry.
pub enum RawNodeV {
    Dir(RawDirV),
    File { name: Seq<char> },
    Link { name: Seq<char>, target: Seq<char> },
}

pub open spec fn raw_children_view(s: Seq<RawChild>) -> Seq<RawChildV>
    decreases s,
{
    if s.len() == 0 {
        Seq::empty()
    } else {
        seq![raw_child_view(s[0])] + raw_children_view(s.drop_first())
    }
}

pub open spec fn raw_child_view(c: RawChild) -> RawChildV
    decreases c,
{
    match c {
        RawChild::Skipped => RawChildV::Skipped,
        RawChild::Unexamined(name) => RawChildV::Unexamined(name@),
        RawChild::Loaded(n) => RawChildV::Loaded(raw_node_view(n)),
    }
}

pub open spec fn raw_node_view(n: RawNode) -> RawNodeV
    decreases n,
{
    match n {
        RawNode::Dir(d) => RawNodeV::Dir(raw_dir_view(d)),
        RawNode::File { name, .. } => RawNodeV::File { name: name@ },
        RawNode::Link { name, target, .. } => RawNodeV::Link { name: name@, target: target@ },
    }
}

pub open spec fn raw_dir_view(d: RawDir) -> RawDirV
    decreases d,
{
    RawDirV { name: d.name@, children: raw_children_view(d.children@) }
}

impl View for RawDir {
    type V = RawDirV;

    open spec fn view(&self) -> RawDirV {
        raw_dir_view(*self)
    }
}

impl View for RawChild {
    type V = RawChildV;

    open spec fn view(&self) -> RawChildV {
        raw_child_view(*self)
    }
}

impl View for RawNode {
    type V = RawNodeV;

    open spec fn view(&self) -> RawNodeV {
        raw_node_view(*self)
    }
}

/// `raw_children_view` maps `raw_child_view` over the slots, one by one.
pub proof fn lemma_raw_children_view_elements(s: Seq<RawChild>)
    ensures
        raw_children_view(s).len() == s.len(),
        forall|i: int| 0 <= i < s.len() ==> raw_children_view(s)[i] == raw_child_view(s[i]),
    decreases s,
{
    if s.len() > 0 {
        lemma_raw_children_view_elements(s.drop_first());
    }
}

/// The name a fully examined entry carries.
pub open spec fn raw_node_name(n: RawNodeV) -> Seq<char> {
    match n {
        RawNodeV::Dir(d) => d.name,
        RawNodeV::File { name } => name,
        RawNodeV::Link { name, .. } => name,
    }
}

/// The name a fully examined entry carries.
pub fn raw_name<'a>(n: &'a RawNode) -> (r: &'a String)
    ensures
        r@ == raw_node_name(n@),
{
    match n {
        RawNode::Dir(d) => &d.name,
        RawNode::File { name, .. } => name,
        RawNode::Link { name, .. } => name,
    }
}

} // verus!
