//! That nothing is lost between a value and what it stands for.
use vstd::prelude::*;

use crate::explorer::{disks_view, inbox_view, Disk};
use crate::listing::{names_view, EntryName};
use crate::path::{FsPath, PathPart, PartView};
use crate::render::{rows_view, shown_view, Row};
use crate::scan::{Action, ActionView};
use crate::tree::{nodes_view, Msg, MsgView, Node};
use crate::walk::{Query, QueryView};

verus! {

/// A path stands for its components, each of them whole.
pub proof fn path_stands(path: FsPath)
    ensures
        path@.len() == path.parts@.len(),
        forall|i: int|
            0 <= i < path@.len() ==> match path.parts@[i] {
                PathPart::Prefix(bytes) => #[trigger] path@[i] == PartView::Prefix(bytes@),
                PathPart::Root => path@[i] == PartView::Root,
                PathPart::Current => path@[i] == PartView::Current,
                PathPart::Up => path@[i] == PartView::Up,
                PathPart::Name(bytes) => path@[i] == PartView::Name(bytes@),
            },
{
}

/// Names stand for themselves, one by one.
pub proof fn names_stand(names: Seq<EntryName>)
    ensures
        names_view(names).len() == names.len(),
        forall|i: int|
            0 <= i < names.len() ==> (#[trigger] names_view(names)[i]).id == names[i].id@
                && names_view(names)[i].text == names[i].text@,
{
}

/// Nodes stand for themselves, one by one.
pub proof fn nodes_stand(nodes: Seq<Node>)
    ensures
        nodes_view(nodes).len() == nodes.len(),
        forall|i: int|
            0 <= i < nodes.len() ==> {
                let node = #[trigger] nodes_view(nodes)[i];
                &&& node.name == nodes[i].name@
                &&& node.path == nodes[i].path@
                &&& node.size == nodes[i].size
                &&& node.is_dir == nodes[i].is_dir
            },
{
}

/// Messages stand for themselves.
pub proof fn message_stands(msg: Msg)
    ensures
        match msg {
            Msg::DirCount {  } => msg@ == MsgView::DirCount,
            Msg::Entry { parent, node } => {
                &&& msg@ matches MsgView::Entry { parent: p, node: n }
                &&& p == parent@
                &&& n.name == node.name@
                &&& n.path == node.path@
                &&& n.size == node.size
                &&& n.is_dir == node.is_dir
            },
            Msg::SizeReady { path, size } => {
                &&& msg@ matches MsgView::SizeReady { path: p, size: s }
                &&& p == path@
                &&& s == size
            },
            Msg::Done => msg@ == MsgView::Done,
        },
{
}

/// So do the messages of several scans, each with the root of its scan.
pub proof fn inbox_stands(inbox: Seq<(FsPath, Option<Msg>)>)
    ensures
        inbox_view(inbox).len() == inbox.len(),
        forall|i: int|
            0 <= i < inbox.len() ==> {
                let (root, msg) = #[trigger] inbox_view(inbox)[i];
                &&& root == inbox[i].0@
                &&& match inbox[i].1 {
                    Some(m) => msg == Some(m@),
                    None => msg is None,
                }
            },
{
}

/// What the caller of a scan has to do stands for itself.
pub proof fn action_stands(action: Action)
    ensures
        match action {
            Action::ReadDir(path) => action@ == ActionView::ReadDir(path@),
            Action::Stat(path) => action@ == ActionView::Stat(path@),
            Action::Send(msg) => action@ == ActionView::Send(msg@),
            Action::Refresh => action@ == ActionView::Refresh,
            Action::Finished => action@ == ActionView::Finished,
        },
{
}

/// What the caller of a walk has to ask stands for itself.
pub proof fn query_stands(query: Query)
    ensures
        match query {
            Query::ReadDir(path) => query@ == QueryView::ReadDir(path@),
            Query::Stat(path) => query@ == QueryView::Stat(path@),
        },
{
}

/// Disks stand for themselves, one by one.
pub proof fn disks_stand(disks: Seq<Disk>)
    ensures
        disks_view(disks).len() == disks.len(),
        forall|i: int| 0 <= i < disks.len() ==> #[trigger] disks_view(disks)[i] == disks[i]@,
{
}

/// The entries that are shown stand for themselves, one by one.
pub proof fn shown_stand(shown: Seq<(usize, Node)>)
    ensures
        shown_view(shown).len() == shown.len(),
        forall|i: int|
            0 <= i < shown.len() ==> (#[trigger] shown_view(shown)[i]).0 == shown[i].0
                && shown_view(shown)[i].1 == shown[i].1@,
{
}

/// The lines of the tree stand for themselves, one by one.
pub proof fn rows_stand(rows: Seq<Row>)
    ensures
        rows_view(rows).len() == rows.len(),
        forall|i: int|
            0 <= i < rows.len() ==> {
                let row = #[trigger] rows_view(rows)[i];
                &&& row.depth == rows[i].depth
                &&& row.path == rows[i].path@
                &&& row.is_dir == rows[i].is_dir
                &&& row.mark == rows[i].mark
                &&& row.text == rows[i].text@
                &&& row.spinner == rows[i].spinner
            },
{
}

} // verus!
