//! The entries of the tree and the messages by which a scan reports them.
use vstd::prelude::*;

use crate::path::{FsPath, PartView};

verus! {

/// A file or directory in the tree.
#[derive(Debug, PartialEq, Eq)]
pub struct Node {
    pub name: String,
    pub path: FsPath,
    pub size: u64,
    pub is_dir: bool,
}

/// What a [`Node`] stands for.
pub struct NodeView {
    pub name: Seq<char>,
    pub path: Seq<PartView>,
    pub size: nat,
    pub is_dir: bool,
}

impl View for Node {
    type V = NodeView;

    open spec fn view(&self) -> NodeView {
        NodeView { name: self.name@, path: self.path@, size: self.size as nat, is_dir: self.is_dir }
    }
}

impl Clone for Node {
    fn clone(&self) -> (copy: Self)
        ensures
            copy@ == self@,
    {
        Node {
            name: self.name.clone(),
            path: self.path.clone(),
            size: self.size,
            is_dir: self.is_dir,
        }
    }
}

/// What a list of nodes stands for.
pub open spec fn nodes_view(nodes: Seq<Node>) -> Seq<NodeView> {
    Seq::new(nodes.len(), |i: int| nodes[i]@)
}

/// A message of a scan. All messages go through a single channel, in the order in which they
/// were sent.
#[derive(Debug, PartialEq, Eq)]
pub enum Msg {
    /// A directory was opened.
    DirCount {  },
    /// A directory or file. A directory has size 0 until its `SizeReady` arrives.
    Entry { parent: FsPath, node: Node },
    /// The size of a directory. It is the next message after the directory's `Entry`.
    SizeReady { path: FsPath, size: u64 },
    /// The scan is over.
    Done,
}

/// What a [`Msg`] stands for.
pub enum MsgView {
    DirCount,
    Entry { parent: Seq<PartView>, node: NodeView },
    SizeReady { path: Seq<PartView>, size: nat },
    Done,
}

impl View for Msg {
    type V = MsgView;

    open spec fn view(&self) -> MsgView {
        match self {
            Msg::DirCount {  } => MsgView::DirCount,
            Msg::Entry { parent, node } => MsgView::Entry { parent: parent@, node: node@ },
            Msg::SizeReady { path, size } => MsgView::SizeReady { path: path@, size: *size as nat },
            Msg::Done => MsgView::Done,
        }
    }
}

} // verus!
