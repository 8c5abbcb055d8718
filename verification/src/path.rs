//! Paths, as the sequences of components that the explorer compares and extends.
use vstd::prelude::*;
use vstd::string::{StrSliceExecFns, StringExecFns};
use vstd::utf8::{encode_scalar, encode_utf8};

verus! {

/// One component of a path. Names and drive prefixes are the bytes that the system gave for them.
#[derive(Debug, PartialEq, Eq)]
pub enum PathPart {
    /// A drive or share, such as `C:`.
    Prefix(Vec<u8>),
    /// The root directory.
    Root,
    /// The directory itself, `.`.
    Current,
    /// The directory above, `..`.
    Up,
    /// A file or directory name.
    Name(Vec<u8>),
}

/// What a [`PathPart`] stands for.
pub enum PartView {
    Prefix(Seq<u8>),
    Root,
    Current,
    Up,
    Name(Seq<u8>),
}

/// A path: its components, outermost first.
#[derive(Debug, PartialEq, Eq)]
pub struct FsPath {
    pub parts: Vec<PathPart>,
}

impl View for PathPart {
    type V = PartView;

    open spec fn view(&self) -> PartView {
        match self {
            PathPart::Prefix(bytes) => PartView::Prefix(bytes@),
            PathPart::Root => PartView::Root,
            PathPart::Current => PartView::Current,
            PathPart::Up => PartView::Up,
            PathPart::Name(bytes) => PartView::Name(bytes@),
        }
    }
}

impl View for FsPath {
    type V = Seq<PartView>;

    open spec fn view(&self) -> Seq<PartView> {
        Seq::new(self.parts@.len(), |i: int| self.parts@[i]@)
    }
}

/// The path one level up. A path that ends at a root or a prefix has none, nor has the empty path.
pub open spec fn parent_of(path: Seq<PartView>) -> Option<Seq<PartView>> {
    if path.len() == 0 {
        None
    } else {
        match path.last() {
            PartView::Prefix(_) => None,
            PartView::Root => None,
            _ => Some(path.drop_last()),
        }
    }
}

/// The path of the entry called `name` in the directory `dir`.
pub open spec fn child_of(dir: Seq<PartView>, name: Seq<u8>) -> Seq<PartView> {
    dir.push(PartView::Name(name))
}

/// A directory is the parent of each of its entries.
pub proof fn child_has_parent(dir: Seq<PartView>, name: Seq<u8>)
    ensures
        parent_of(child_of(dir, name)) == Some(dir),
{
    assert(child_of(dir, name).drop_last() =~= dir);
}

/// Two entries of one directory have the same path only if they have the same name.
pub proof fn child_names_differ(dir: Seq<PartView>, a: Seq<u8>, b: Seq<u8>)
    ensures
        child_of(dir, a) == child_of(dir, b) <==> a == b,
{
    assert(child_of(dir, a).last() == PartView::Name(a));
    assert(child_of(dir, b).last() == PartView::Name(b));
}

/// Copies a run of bytes.
fn copy_bytes(bytes: &Vec<u8>) -> (copy: Vec<u8>)
    ensures
        copy@ == bytes@,
{
    let mut copy: Vec<u8> = Vec::new();
    let mut i: usize = 0;
    while i < bytes.len()
        invariant
            i <= bytes.len(),
            copy@ == bytes@.take(i as int),
        decreases bytes.len() - i,
    {
        copy.push(bytes[i]);
        i += 1;
        assert(copy@ =~= bytes@.take(i as int));
    }
    assert(bytes@.take(i as int) =~= bytes@);
    copy
}

/// Whether two runs of bytes are the same.
fn same_bytes(a: &Vec<u8>, b: &Vec<u8>) -> (same: bool)
    ensures
        same == (a@ == b@),
{
    if a.len() != b.len() {
        return false;
    }
    let mut i: usize = 0;
    while i < a.len()
        invariant
            i <= a.len(),
            a.len() == b.len(),
            forall|j: int| 0 <= j < i ==> a@[j] == b@[j],
        decreases a.len() - i,
    {
        if a[i] != b[i] {
            return false;
        }
        i += 1;
    }
    assert(a@ =~= b@);
    true
}

impl Clone for PathPart {
    fn clone(&self) -> (copy: Self)
        ensures
            copy@ == self@,
    {
        match self {
            PathPart::Prefix(bytes) => PathPart::Prefix(copy_bytes(bytes)),
            PathPart::Root => PathPart::Root,
            PathPart::Current => PathPart::Current,
            PathPart::Up => PathPart::Up,
            PathPart::Name(bytes) => PathPart::Name(copy_bytes(bytes)),
        }
    }
}

impl PathPart {
    /// Whether two components are the same.
    pub fn same(&self, other: &PathPart) -> (same: bool)
        ensures
            same == (self@ == other@),
    {
        match (self, other) {
            (PathPart::Prefix(a), PathPart::Prefix(b)) => same_bytes(a, b),
            (PathPart::Root, PathPart::Root) => true,
            (PathPart::Current, PathPart::Current) => true,
            (PathPart::Up, PathPart::Up) => true,
            (PathPart::Name(a), PathPart::Name(b)) => same_bytes(a, b),
            _ => false,
        }
    }
}

impl Clone for FsPath {
    fn clone(&self) -> (copy: Self)
        ensures
            copy@ == self@,
    {
        self.leading(self.parts.len())
    }
}

impl FsPath {
    /// The path made of the first `n` components.
    fn leading(&self, n: usize) -> (path: FsPath)
        requires
            n <= self@.len(),
        ensures
            path@ == self@.take(n as int),
    {
        let mut parts: Vec<PathPart> = Vec::new();
        let mut i: usize = 0;
        while i < n
            invariant
                i <= n <= self.parts.len(),
                parts.len() == i,
                forall|j: int| 0 <= j < i ==> (#[trigger] parts@[j])@ == self.parts@[j]@,
            decreases n - i,
        {
            let part = self.parts[i].clone();
            parts.push(part);
            i += 1;
        }
        let path = FsPath { parts };
        assert(path@ =~= self@.take(n as int));
        path
    }

    /// How many components the path has.
    pub fn len(&self) -> (n: usize)
        ensures
            n == self@.len(),
    {
        self.parts.len()
    }

    /// Whether `base` leads up to this path: it is the path itself or a directory above it.
    pub fn starts_with(&self, base: &FsPath) -> (starts: bool)
        ensures
            starts == base@.is_prefix_of(self@),
    {
        if base.parts.len() > self.parts.len() {
            return false;
        }
        let mut i: usize = 0;
        while i < base.parts.len()
            invariant
                i <= base.parts.len() <= self.parts.len(),
                forall|j: int| 0 <= j < i ==> self@[j] == #[trigger] base@[j],
            decreases base.parts.len() - i,
        {
            if !self.parts[i].same(&base.parts[i]) {
                assert(self@[i as int] != base@[i as int]);
                assert(self@.subrange(0, base@.len() as int)[i as int] == self@[i as int]);
                return false;
            }
            i += 1;
        }
        assert(base@ =~= self@.subrange(0, base@.len() as int));
        true
    }

    /// Whether two paths have the same components.
    pub fn same(&self, other: &FsPath) -> (same: bool)
        ensures
            same == (self@ == other@),
    {
        let same = self.parts.len() == other.parts.len() && self.starts_with(other);
        assert(self@.len() == other@.len() ==> self@.subrange(0, other@.len() as int) =~= self@);
        same
    }

    /// The path one level up.
    pub fn parent(&self) -> (parent: Option<FsPath>)
        ensures
            match parent {
                Some(p) => parent_of(self@) == Some(p@),
                None => parent_of(self@) is None,
            },
    {
        let n: usize = self.parts.len();
        if n == 0 {
            return None;
        }
        assert(self@.drop_last() =~= self@.take(n - 1));
        match &self.parts[n - 1] {
            PathPart::Prefix(_) => None,
            PathPart::Root => None,
            _ => Some(self.leading(n - 1)),
        }
    }

    /// The path of the entry called `name` in this directory.
    pub fn child(&self, name: &Vec<u8>) -> (path: FsPath)
        ensures
            path@ == child_of(self@, name@),
    {
        let mut path = self.clone();
        let ghost before = path;
        path.parts.push(PathPart::Name(copy_bytes(name)));
        assert(path@ =~= before@.push(PartView::Name(name@)));
        path
    }
}

/// Whether a path's text is a drive without its root, such as `C:`.
pub open spec fn is_bare_drive(text: Seq<char>) -> bool {
    text.len() == 2 && text[0] <= '\u{7f}' && text[1] == ':'
}

/// A character takes one byte if it is an ASCII one, and more otherwise.
proof fn scalar_width(c: char)
    ensures
        encode_scalar(c as u32).len() >= 1,
        encode_scalar(c as u32).len() == 1 <==> c <= '\u{7f}',
{
}

/// A drive without its root is a text of two bytes that ends in a colon, and no other text is.
pub proof fn bare_drive_bytes(text: Seq<char>)
    ensures
        is_bare_drive(text) <==> encode_utf8(text).len() == 2 && text.last() == ':',
{
    if text.len() >= 1 {
        let rest = text.drop_first();
        scalar_width(text[0]);
        assert(encode_utf8(text).len() == encode_scalar(text[0] as u32).len() + encode_utf8(
            rest,
        ).len());
        if rest.len() >= 1 {
            let tail = rest.drop_first();
            assert(rest[0] == text[1]);
            scalar_width(text[1]);
            assert(encode_utf8(rest).len() == encode_scalar(rest[0] as u32).len() + encode_utf8(
                tail,
            ).len());
            if tail.len() >= 1 {
                scalar_width(tail[0]);
                assert(encode_utf8(tail).len() >= encode_scalar(tail[0] as u32).len());
            }
        }
    }
}

/// The text under which a disk's mount point is used.
pub open spec fn normalized(text: Seq<char>) -> Seq<char> {
    if is_bare_drive(text) {
        text.push('\\')
    } else {
        text
    }
}

/// A mount point that was normalized stays as it is.
pub proof fn normalized_twice(text: Seq<char>)
    ensures
        normalized(normalized(text)) == normalized(text),
{
}

/// Gives a drive that stands without its root the root: `C:` becomes `C:\`. Any other path keeps
/// its text.
pub fn normalize_path(path: String) -> (text: String)
    ensures
        text@ == normalized(path@),
{
    proof {
        bare_drive_bytes(path@);
    }
    let n: usize = path.as_str().unicode_len();
    if path.as_str().as_bytes().len() == 2 && path.as_str().get_char(n - 1) == ':' {
        proof {
            reveal_strlit("\\");
        }
        let text = path.concat("\\");
        assert(text@ =~= path@.push('\\'));
        text
    } else {
        path
    }
}

/// The components of the path of a bare drive after a backslash was put behind its text. Where a
/// backslash separates components, a drive gets its root, and a name stays as it is. Elsewhere the
/// backslash belongs to the name.
pub open spec fn with_backslash(path: Seq<PartView>, separates: bool) -> Seq<PartView> {
    if path.len() == 0 {
        path
    } else {
        match path.last() {
            PartView::Prefix(_) => if separates {
                path.push(PartView::Root)
            } else {
                path
            },
            PartView::Name(name) => if separates {
                path
            } else {
                path.drop_last().push(PartView::Name(name.push(0x5c)))
            },
            _ => path,
        }
    }
}

/// The path under which the disk is explored that is mounted at `mount_point`, written `text`: the
/// components of the normalized text.
pub open spec fn explored(
    mount_point: Seq<PartView>,
    text: Seq<char>,
    separates: bool,
) -> Seq<PartView> {
    if normalized(text) == text {
        mount_point
    } else {
        with_backslash(mount_point, separates)
    }
}

/// The path under which a disk is explored. It takes the mount point both as components and as
/// text, which the components alone do not tell (`C:` and `C:/` can have the same), and whether a
/// backslash separates components.
pub fn explored_path(mount_point: &FsPath, text: String, separates: bool) -> (path: FsPath)
    ensures
        path@ == explored(mount_point@, text@, separates),
{
    let written: usize = text.as_str().unicode_len();
    let normal = normalize_path(text);
    let n: usize = mount_point.parts.len();
    if normal.as_str().unicode_len() == written || n == 0 {
        return mount_point.clone();
    }
    match &mount_point.parts[n - 1] {
        PathPart::Prefix(_) if separates => {
            let mut path = mount_point.clone();
            let ghost before = path@;
            path.parts.push(PathPart::Root);
            assert(path@ =~= before.push(PartView::Root));
            path
        },
        PathPart::Name(name) if !separates => {
            let mut longer = copy_bytes(name);
            longer.push(0x5c);
            assert(mount_point@.drop_last() =~= mount_point@.take(n - 1));
            mount_point.leading(n - 1).child(&longer)
        },
        _ => mount_point.clone(),
    }
}

} // verus!
