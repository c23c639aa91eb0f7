use vstd::prelude::*;

verus! {

/// One entry met while walking a root recursively.
pub enum WalkEntry {
    /// A directory: descended into, never emitted.
    Directory(String),
    /// Anything that is not a directory.
    File(String),
    /// An entry that could not be read (permission denied, vanished).
    Unreadable { path: String, cause: String },
}

/// The decisions of the path discoverer over one walk, and what it has seen.
pub struct Discoverer {
    files: usize,
    directories: usize,
    skipped: usize,
}

impl Discoverer {
    pub closed spec fn files_view(&self) -> nat {
        self.files as nat
    }

    pub closed spec fn directories_view(&self) -> nat {
        self.directories as nat
    }

    pub closed spec fn skipped_view(&self) -> nat {
        self.skipped as nat
    }

    /// Every entry seen so far.
    pub open spec fn seen_view(&self) -> nat {
        self.files_view() + self.directories_view() + self.skipped_view()
    }

    pub fn new() -> (d: Discoverer)
        ensures
            d.files_view() == 0,
            d.directories_view() == 0,
            d.skipped_view() == 0,
    {
        Discoverer { files: 0, directories: 0, skipped: 0 }
    }

    /// Takes one walk entry: a file is emitted as a candidate path; a directory
    /// is not; an unreadable entry is skipped without ending the walk.
    pub fn route(&mut self, entry: WalkEntry) -> (emitted: Option<String>)
        requires
            old(self).seen_view() < usize::MAX,
        ensures
            match entry {
                WalkEntry::File(p) => {
                    &&& emitted == Some(p)
                    &&& final(self).files_view() == old(self).files_view() + 1
                    &&& final(self).directories_view() == old(self).directories_view()
                    &&& final(self).skipped_view() == old(self).skipped_view()
                },
                WalkEntry::Directory(_) => {
                    &&& emitted is None
                    &&& final(self).files_view() == old(self).files_view()
                    &&& final(self).directories_view() == old(self).directories_view() + 1
                    &&& final(self).skipped_view() == old(self).skipped_view()
                },
                WalkEntry::Unreadable { .. } => {
                    &&& emitted is None
                    &&& final(self).files_view() == old(self).files_view()
                    &&& final(self).directories_view() == old(self).directories_view()
                    &&& final(self).skipped_view() == old(self).skipped_view() + 1
                },
            },
    {
        match entry {
            WalkEntry::File(p) => {
                self.files = self.files + 1;
                Some(p)
            },
            WalkEntry::Directory(_) => {
                self.directories = self.directories + 1;
                None
            },
            WalkEntry::Unreadable { .. } => {
                self.skipped = self.skipped + 1;
                None
            },
        }
    }

    /// Candidate files emitted so far.
    pub fn files(&self) -> (r: usize)
        ensures
            r == self.files_view(),
    {
        self.files
    }

    /// Directories searched so far.
    pub fn directories(&self) -> (r: usize)
        ensures
            r == self.directories_view(),
    {
        self.directories
    }

    /// Unreadable entries skipped so far.
    pub fn skipped(&self) -> (r: usize)
        ensures
            r == self.skipped_view(),
    {
        self.skipped
    }
}

/// The non-empty lines of a path list, in order: each one is a root.
pub open spec fn roots_of(lines: Seq<Seq<char>>) -> Seq<Seq<char>>
    decreases lines.len(),
{
    if lines.len() == 0 {
        Seq::empty()
    } else if lines.last().len() == 0 {
        roots_of(lines.drop_last())
    } else {
        roots_of(lines.drop_last()).push(lines.last())
    }
}

/// The roots named by a path list, one per line; empty lines name nothing.
pub fn roots_from_lines(lines: &Vec<String>) -> (roots: Vec<String>)
    ensures
        roots@.map_values(|s: String| s@) == roots_of(lines@.map_values(|s: String| s@)),
{
    let ghost ls = lines@.map_values(|s: String| s@);
    let mut roots: Vec<String> = Vec::new();
    let mut i: usize = 0;
    while i < lines.len()
        invariant
            i <= lines.len(),
            ls == lines@.map_values(|s: String| s@),
            roots@.map_values(|s: String| s@) == roots_of(ls.take(i as int)),
        decreases lines.len() - i,
    {
        proof {
            assert(ls.take(i + 1).drop_last() =~= ls.take(i as int));
        }
        if !lines[i].as_str().is_empty() {
            let s = lines[i].clone();
            let ghost prev = roots@;
            roots.push(s);
            assert(roots@.map_values(|s: String| s@) =~= prev.map_values(|s: String| s@).push(s@));
        }
        i = i + 1;
    }
    assert(ls.take(lines.len() as int) =~= ls);
    roots
}

} // verus!
