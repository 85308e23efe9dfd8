//! An in-memory filesystem for the deployment protocol: a journal of
//! writes, removals and symlink creations, read through a last-write-wins
//! view. The engine is verified against this model; a thin outer layer
//! replays the same plans against the real filesystem.

use vstd::prelude::*;

use crate::codec::bytes_eq;

verus! {

/// What a path holds.
#[derive(Debug, Clone, PartialEq, Eq)]
pub enum Entry {
    /// A regular file with these contents.
    File(Vec<u8>),
    /// A symbolic link to this path.
    Link(Vec<u8>),
    /// Nothing.
    Absent,
}

/// The spec-level shape of an entry.
pub enum EntryModel {
    FileM(Seq<u8>),
    LinkM(Seq<u8>),
    AbsentM,
}

/// The model of one entry.
pub open spec fn entry_model(e: Entry) -> EntryModel {
    match e {
        Entry::File(c) => EntryModel::FileM(c@),
        Entry::Link(p) => EntryModel::LinkM(p@),
        Entry::Absent => EntryModel::AbsentM,
    }
}

/// What `p` holds after the journal `log`: the last entry wins.
pub open spec fn lookup(log: Seq<(Vec<u8>, Entry)>, p: Seq<u8>) -> EntryModel
    decreases log.len(),
{
    if log.len() == 0 {
        EntryModel::AbsentM
    } else if log.last().0@ == p {
        entry_model(log.last().1)
    } else {
        lookup(log.drop_last(), p)
    }
}

/// A file's contents at `p`, following at most one symlink, as reading
/// through the target path does.
pub open spec fn resolve(log: Seq<(Vec<u8>, Entry)>, p: Seq<u8>) -> Option<Seq<u8>> {
    match lookup(log, p) {
        EntryModel::FileM(c) => Option::Some(c),
        EntryModel::LinkM(q) => match lookup(log, q) {
            EntryModel::FileM(c) => Option::Some(c),
            _ => Option::None,
        },
        EntryModel::AbsentM => Option::None,
    }
}

/// An in-memory filesystem.
pub struct FsModel {
    /// The journal of every write, removal and symlink creation.
    pub log: Vec<(Vec<u8>, Entry)>,
}

impl FsModel {
    /// What `p` holds now.
    pub open spec fn at(self, p: Seq<u8>) -> EntryModel {
        lookup(self.log@, p)
    }

    /// A file's contents at `p`, following at most one symlink.
    pub open spec fn contents(self, p: Seq<u8>) -> Option<Seq<u8>> {
        resolve(self.log@, p)
    }

    /// An empty filesystem.
    pub fn new() -> (r: Self)
        ensures
            forall|p: Seq<u8>| r.at(p) is AbsentM,
    {
        FsModel { log: Vec::new() }
    }

    /// Records `e` at `path`.
    fn put(&mut self, path: Vec<u8>, e: Entry)
        ensures
            final(self).at(path@) == entry_model(e),
            forall|q: Seq<u8>| q != path@ ==> final(self).at(q) == old(self).at(q),
    {
        let ghost pv = path@;
        self.log.push((path, e));
        proof {
            assert(self.log@.last().0@ == pv);
            assert(self.log@.drop_last() =~= old(self).log@);
        }
    }

    /// Creates or overwrites the regular file at `path`.
    pub fn write_file(&mut self, path: Vec<u8>, data: Vec<u8>)
        ensures
            final(self).at(path@) == EntryModel::FileM(data@),
            forall|q: Seq<u8>| q != path@ ==> final(self).at(q) == old(self).at(q),
    {
        self.put(path, Entry::File(data));
    }

    /// Removes whatever is at `path`. Removing an absent path is allowed
    /// and leaves it absent.
    pub fn remove(&mut self, path: Vec<u8>)
        ensures
            final(self).at(path@) is AbsentM,
            forall|q: Seq<u8>| q != path@ ==> final(self).at(q) == old(self).at(q),
    {
        self.put(path, Entry::Absent);
    }

    /// Creates a symlink at `at` pointing to `to`. As on a real filesystem,
    /// the destination name must be free.
    pub fn symlink(&mut self, at: Vec<u8>, to: Vec<u8>)
        requires
            old(self).at(at@) is AbsentM,
        ensures
            final(self).at(at@) == EntryModel::LinkM(to@),
            forall|q: Seq<u8>| q != at@ ==> final(self).at(q) == old(self).at(q),
    {
        self.put(at, Entry::Link(to));
    }

    /// What `path` holds, scanned from the newest journal entry back.
    fn get(&self, path: &Vec<u8>) -> (r: Entry)
        ensures
            entry_model(r) == self.at(path@),
    {
        let n = self.log.len();
        let mut i: usize = n;
        assert(self.log@.take(n as int) =~= self.log@);
        while i > 0
            invariant
                0 <= i <= n,
                n == self.log@.len(),
                lookup(self.log@, path@) == lookup(self.log@.take(i as int), path@),
            decreases i,
        {
            proof {
                assert(self.log@.take(i as int).last() == self.log@[i - 1]);
                assert(self.log@.take(i as int).drop_last() =~= self.log@.take(i - 1));
            }
            if bytes_eq(&self.log[i - 1].0, path) {
                let e = &self.log[i - 1].1;
                return match e {
                    Entry::File(c) => Entry::File(crate::paths::copy_bytes(c)),
                    Entry::Link(p) => Entry::Link(crate::paths::copy_bytes(p)),
                    Entry::Absent => Entry::Absent,
                };
            }
            i = i - 1;
        }
        assert(self.log@.take(0) =~= Seq::<(Vec<u8>, Entry)>::empty());
        Entry::Absent
    }

    /// Whether anything (file or symlink) is at `path`.
    pub fn occupied(&self, path: &Vec<u8>) -> (r: bool)
        ensures
            r == !(self.at(path@) is AbsentM),
    {
        match self.get(path) {
            Entry::Absent => false,
            _ => true,
        }
    }

    /// Reads the file at `path`, following at most one symlink, as a read
    /// through the target path does.
    pub fn read_file(&self, path: &Vec<u8>) -> (r: Option<Vec<u8>>)
        ensures
            match r {
                Option::Some(c) => self.contents(path@) == Option::Some(c@),
                Option::None => self.contents(path@) is None,
            },
    {
        match self.get(path) {
            Entry::File(c) => Option::Some(c),
            Entry::Link(p) => match self.get(&p) {
                Entry::File(c) => Option::Some(c),
                _ => Option::None,
            },
            Entry::Absent => Option::None,
        }
    }
}

} // verus!
