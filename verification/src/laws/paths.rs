//! What the operations on paths give.
use vstd::prelude::*;
use vstd::utf8::encode_utf8;

use crate::path::{bare_drive_bytes, child_of, explored, normalized, parent_of, PartView};

verus! {

/// An entry of a directory has the components of the directory, and its name behind them.
pub proof fn child_reads(dir: Seq<PartView>, name: Seq<u8>)
    ensures
        child_of(dir, name).len() == dir.len() + 1,
        child_of(dir, name).take(dir.len() as int) == dir,
        child_of(dir, name)[dir.len() as int] == PartView::Name(name),
{
    assert(child_of(dir, name).take(dir.len() as int) =~= dir);
}

/// The path one level up is the path without its last component. There is none above the empty
/// path, a root or a prefix.
pub proof fn parent_reads(path: Seq<PartView>)
    ensures
        match parent_of(path) {
            Some(up) => {
                &&& path.len() == up.len() + 1
                &&& path.take(up.len() as int) == up
                &&& !(path[path.len() - 1] is Root)
                &&& !(path[path.len() - 1] is Prefix)
            },
            None => path.len() == 0 || path[path.len() - 1] is Root || path[path.len() - 1] is Prefix,
        },
{
    if path.len() > 0 {
        assert(path.drop_last() =~= path.take(path.len() - 1));
    }
}

/// Only a text of two bytes that ends in a colon changes when it is normalized: a backslash is put
/// behind it.
pub proof fn normalized_reads(text: Seq<char>)
    ensures
        encode_utf8(text).len() == 2 && text.last() == ':' ==> normalized(text) == text + seq!['\\'],
        !(encode_utf8(text).len() == 2 && text.last() == ':') ==> normalized(text) == text,
{
    bare_drive_bytes(text);
    assert(text.push('\\') =~= text + seq!['\\']);
}

/// The path under which a disk is explored is its mount point, unless the text of that changes when
/// it is normalized. Then a drive gets its root where a backslash separates components; elsewhere
/// the last name gets the backslash.
pub proof fn explored_reads(mount_point: Seq<PartView>, text: Seq<char>, separates: bool)
    ensures
        ({
            let bare = encode_utf8(text).len() == 2 && text.last() == ':';
            let path = explored(mount_point, text, separates);
            let n = mount_point.len() as int;
            &&& !bare ==> path == mount_point
            &&& bare && separates && n > 0 && mount_point[n - 1] is Prefix ==> path == mount_point
                + seq![PartView::Root]
            &&& bare && separates && n > 0 && mount_point[n - 1] is Name ==> path == mount_point
            &&& bare && !separates && n > 0 && mount_point[n - 1] is Name ==> path
                == mount_point.take(n - 1) + seq![
                PartView::Name(mount_point[n - 1]->Name_0 + seq![0x5cu8]),
            ]
            &&& n == 0 || mount_point[n - 1] is Root || mount_point[n - 1] is Current
                || mount_point[n - 1] is Up ==> path == mount_point
        }),
{
    bare_drive_bytes(text);
    let n = mount_point.len() as int;
    let path = explored(mount_point, text, separates);
    if n > 0 {
        assert(mount_point.push(PartView::Root) =~= mount_point + seq![PartView::Root]);
        if let PartView::Name(name) = mount_point[n - 1] {
            assert(name.push(0x5c) =~= name + seq![0x5cu8]);
            assert(mount_point.drop_last().push(PartView::Name(name.push(0x5c)))
                =~= mount_point.take(n - 1) + seq![PartView::Name(name + seq![0x5cu8])]);
        }
    }
}

} // verus!
