//! What the file system tells about directories and files.
use vstd::prelude::*;

use crate::path::{child_of, PartView};

verus! {

/// The name of a directory entry: the bytes that identify it, and its text.
#[derive(Debug, PartialEq, Eq)]
pub struct EntryName {
    pub id: Vec<u8>,
    pub text: String,
}

/// What an [`EntryName`] stands for.
pub struct NameView {
    pub id: Seq<u8>,
    pub text: Seq<char>,
}

impl View for EntryName {
    type V = NameView;

    open spec fn view(&self) -> NameView {
        NameView { id: self.id@, text: self.text@ }
    }
}

/// What a list of names stands for.
pub open spec fn names_view(names: Seq<EntryName>) -> Seq<NameView> {
    Seq::new(names.len(), |i: int| names[i]@)
}

/// What kind of entry a path leads to: a directory, or a file of so many bytes.
#[derive(Debug, Clone, Copy, PartialEq, Eq)]
pub enum Meta {
    Dir,
    File(u64),
}

/// The names of a directory that are still to be looked at.
pub struct Names {
    names: Vec<EntryName>,
    next: usize,
}

impl View for Names {
    type V = Seq<NameView>;

    closed spec fn view(&self) -> Seq<NameView> {
        if self.next <= self.names@.len() {
            names_view(self.names@).skip(self.next as int)
        } else {
            Seq::empty()
        }
    }
}

impl Names {
    /// All of `names`.
    pub fn new(names: Vec<EntryName>) -> (left: Names)
        ensures
            left@ == names_view(names@),
    {
        let left = Names { names, next: 0 };
        assert(left@ =~= names_view(names@));
        left
    }

    /// Whether none is left.
    pub fn is_empty(&self) -> (empty: bool)
        ensures
            empty == (self@.len() == 0),
    {
        self.next >= self.names.len()
    }

    /// The next one.
    pub fn first(&self) -> (name: &EntryName)
        requires
            self@.len() > 0,
        ensures
            name@ == self@.first(),
    {
        &self.names[self.next]
    }

    /// Goes on behind the next one.
    pub fn advance(&mut self)
        requires
            old(self)@.len() > 0,
        ensures
            final(self)@ == old(self)@.drop_first(),
    {
        assert(self.next < self.names.len());
        self.next += 1;
        assert(self@ =~= old(self)@.drop_first());
    }
}

/// A file system at rest: what each path answers. A path without a listing cannot be read as a
/// directory; nothing can be told of a path without a kind.
pub struct Snapshot {
    pub listings: Map<Seq<PartView>, Seq<NameView>>,
    pub kinds: Map<Seq<PartView>, Meta>,
}

impl Snapshot {
    /// The names in a directory, if it can be read.
    pub open spec fn names(self, dir: Seq<PartView>) -> Option<Seq<NameView>> {
        if self.listings.dom().contains(dir) {
            Some(self.listings[dir])
        } else {
            None
        }
    }

    /// The kind of a path, if it can be told.
    pub open spec fn kind(self, path: Seq<PartView>) -> Option<Meta> {
        if self.kinds.dom().contains(path) {
            Some(self.kinds[path])
        } else {
            None
        }
    }

    /// Whether no directory lies more than `h` levels below `dir`.
    pub open spec fn fits(self, dir: Seq<PartView>, h: nat) -> bool
        decreases h,
    {
        self.names(dir) matches Some(names) ==> forall|i: int|
            0 <= i < names.len() && self.kind(child_of(dir, (#[trigger] names[i]).id)) == Some(
                Meta::Dir,
            ) ==> h > 0 && self.fits(child_of(dir, names[i].id), (h - 1) as nat)
    }

    /// The bytes of all files in `dir` and, down to `h` levels, in the directories below it.
    pub open spec fn bytes(self, dir: Seq<PartView>, h: nat) -> nat
        decreases h, 1nat, 0nat,
    {
        match self.names(dir) {
            Some(names) => self.bytes_of(dir, names, h),
            None => 0,
        }
    }

    /// The bytes of those entries of `dir` that are called `names`.
    pub open spec fn bytes_of(self, dir: Seq<PartView>, names: Seq<NameView>, h: nat) -> nat
        decreases h, 0nat, names.len(),
    {
        if names.len() == 0 {
            0
        } else {
            self.bytes_at(child_of(dir, names.first().id), h) + self.bytes_of(
                dir,
                names.drop_first(),
                h,
            )
        }
    }

    /// The bytes of one entry.
    pub open spec fn bytes_at(self, path: Seq<PartView>, h: nat) -> nat
        decreases h, 0nat, 0nat,
    {
        match self.kind(path) {
            Some(Meta::File(len)) => len as nat,
            Some(Meta::Dir) => if h > 0 {
                self.bytes(path, (h - 1) as nat)
            } else {
                0
            },
            None => 0,
        }
    }
}

} // verus!
