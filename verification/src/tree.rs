//! The source tree: a cache of answers the environment has given about the
//! file system.  A file entry pairs a canonical path with its raw bytes (or
//! with the reason it could not be read); a link entry records to which file
//! a directive path, taken relative to some directory, resolved.
use crate::bytes::bytes_eq;
use crate::bytes::sub_vec;
use vstd::pervasive::VecAdditionalExecFns;
use vstd::prelude::*;

verus! {

/// What is known about one file's raw content.
pub enum FileData {
    /// Nothing has been recorded for this file yet.
    Pending,
    /// The read failed; the bytes are the reported cause.
    Unreadable(Vec<u8>),
    /// The raw bytes of the file.
    Text(Vec<u8>),
}

/// One file of the tree, under its canonical path.
pub struct SourceFile {
    pub path: Vec<u8>,
    pub data: FileData,
}

/// How a directive path resolved.
pub enum LinkFate {
    /// It named the file at this index.
    File(usize),
    /// It could not be canonicalized; the bytes are the reported cause.
    Broken(Vec<u8>),
}

/// The recorded resolution of the directive path `rel` against `dir`.
pub struct PathEntry {
    pub dir: Vec<u8>,
    pub rel: Vec<u8>,
    pub fate: LinkFate,
}

/// All environment answers one resolution run works from.
pub struct SourceTree {
    pub files: Vec<SourceFile>,
    pub links: Vec<PathEntry>,
}

/// First recorded fate for `(dir, rel)` among `ls`, if any.
pub open spec fn lookup_links(ls: Seq<PathEntry>, dir: Seq<u8>, rel: Seq<u8>) -> Option<LinkFate>
    decreases ls.len(),
{
    if ls.len() == 0 {
        None
    } else if ls[0].dir@ == dir && ls[0].rel@ == rel {
        Some(ls[0].fate)
    } else {
        lookup_links(ls.skip(1), dir, rel)
    }
}

impl SourceTree {
    /// Every link entry points inside the file list.
    pub open spec fn wf(self) -> bool {
        forall|k: int|
            0 <= k < self.links@.len() ==> (match (#[trigger] self.links@[k]).fate {
                LinkFate::File(j) => (j as int) < self.files@.len(),
                LinkFate::Broken(_) => true,
            })
    }

    /// The set of valid file indices.
    pub open spec fn index_set(self) -> Set<int> {
        vstd::set_lib::set_int_range(0, self.files@.len() as int)
    }

    /// An empty tree.
    pub fn new() -> (t: SourceTree)
        ensures
            t.files@.len() == 0,
            t.links@.len() == 0,
            t.wf(),
    {
        SourceTree { files: Vec::new(), links: Vec::new() }
    }

    /// Adds a file entry with no content recorded yet; returns its index.
    pub fn add_file(&mut self, path: Vec<u8>) -> (i: usize)
        requires
            old(self).wf(),
        ensures
            final(self).wf(),
            i == old(self).files@.len(),
            final(self).files@ == old(self).files@.push(
                (SourceFile { path, data: FileData::Pending }),
            ),
            final(self).links@ == old(self).links@,
    {
        let i = self.files.len();
        self.files.push(SourceFile { path, data: FileData::Pending });
        i
    }

    /// Records the raw bytes of file `i`.
    pub fn set_file_text(&mut self, i: usize, text: Vec<u8>)
        requires
            old(self).wf(),
            (i as int) < old(self).files@.len(),
        ensures
            final(self).wf(),
            final(self).files@.len() == old(self).files@.len(),
            forall|k: int|
                0 <= k < old(self).files@.len() && k != i ==> final(self).files@[k] == old(
                    self,
                ).files@[k],
            final(self).files@[i as int].path@ == old(self).files@[i as int].path@,
            final(self).files@[i as int].data == FileData::Text(text),
            final(self).links@ == old(self).links@,
    {
        let path = sub_vec(&self.files[i].path, 0, self.files[i].path.len());
        proof {
            assert(path@ =~= self.files@[i as int].path@);
        }
        self.files.set(i, SourceFile { path, data: FileData::Text(text) });
    }

    /// Records that file `i` could not be read.
    pub fn set_file_unreadable(&mut self, i: usize, cause: Vec<u8>)
        requires
            old(self).wf(),
            (i as int) < old(self).files@.len(),
        ensures
            final(self).wf(),
            final(self).files@.len() == old(self).files@.len(),
            forall|k: int|
                0 <= k < old(self).files@.len() && k != i ==> final(self).files@[k] == old(
                    self,
                ).files@[k],
            final(self).files@[i as int].path@ == old(self).files@[i as int].path@,
            final(self).files@[i as int].data == FileData::Unreadable(cause),
            final(self).links@ == old(self).links@,
    {
        let path = sub_vec(&self.files[i].path, 0, self.files[i].path.len());
        proof {
            assert(path@ =~= self.files@[i as int].path@);
        }
        self.files.set(i, SourceFile { path, data: FileData::Unreadable(cause) });
    }

    /// Records that `(dir, rel)` resolved to file `target`.
    pub fn add_link(&mut self, dir: Vec<u8>, rel: Vec<u8>, target: usize)
        requires
            old(self).wf(),
            (target as int) < old(self).files@.len(),
        ensures
            final(self).wf(),
            final(self).files@ == old(self).files@,
            final(self).links@ == old(self).links@.push(
                (PathEntry { dir, rel, fate: LinkFate::File(target) }),
            ),
    {
        self.links.push(PathEntry { dir, rel, fate: LinkFate::File(target) });
    }

    /// Records that `(dir, rel)` could not be canonicalized.
    pub fn add_broken_link(&mut self, dir: Vec<u8>, rel: Vec<u8>, cause: Vec<u8>)
        requires
            old(self).wf(),
        ensures
            final(self).wf(),
            final(self).files@ == old(self).files@,
            final(self).links@ == old(self).links@.push(
                (PathEntry { dir, rel, fate: LinkFate::Broken(cause) }),
            ),
    {
        self.links.push(PathEntry { dir, rel, fate: LinkFate::Broken(cause) });
    }

    /// Index of the file whose canonical path is `path`, if one exists.
    pub fn find_file(&self, path: &Vec<u8>) -> (r: Option<usize>)
        ensures
            match r {
                Some(i) => (i as int) < self.files@.len() && self.files@[i as int].path@ == path@,
                None => forall|k: int|
                    0 <= k < self.files@.len() ==> self.files@[k].path@ != path@,
            },
    {
        let mut k: usize = 0;
        while k < self.files.len()
            invariant
                k <= self.files@.len(),
                forall|t: int| 0 <= t < k ==> self.files@[t].path@ != path@,
            decreases self.files@.len() - k,
        {
            if bytes_eq(&self.files[k].path, path) {
                return Some(k);
            }
            k += 1;
        }
        None
    }

    /// Index of the first link entry recorded for `(dir, rel)`, if any,
    /// related to the spec-level `lookup_links`.
    pub fn lookup_link(&self, dir: &Vec<u8>, rel: &Vec<u8>) -> (r: Option<usize>)
        ensures
            match r {
                None => lookup_links(self.links@, dir@, rel@) == None::<LinkFate>,
                Some(k) => (k as int) < self.links@.len() && self.links@[k as int].dir@ == dir@
                    && self.links@[k as int].rel@ == rel@ && lookup_links(self.links@, dir@, rel@)
                    == Some(self.links@[k as int].fate),
            },
    {
        let mut k: usize = 0;
        proof {
            assert(self.links@.skip(0) =~= self.links@);
        }
        while k < self.links.len()
            invariant
                k <= self.links@.len(),
                lookup_links(self.links@, dir@, rel@) == lookup_links(
                    self.links@.skip(k as int),
                    dir@,
                    rel@,
                ),
            decreases self.links@.len() - k,
        {
            let hit = bytes_eq(&self.links[k].dir, dir) && bytes_eq(&self.links[k].rel, rel);
            proof {
                assert(self.links@.skip(k as int)[0] == self.links@[k as int]);
                assert(self.links@.skip(k as int).skip(1) =~= self.links@.skip(k as int + 1));
            }
            if hit {
                return Some(k);
            }
            k += 1;
        }
        None
    }
}

/// Under `wf`, a looked-up file target lies inside the file list.
pub proof fn lemma_lookup_links_wf(t: SourceTree, dir: Seq<u8>, rel: Seq<u8>)
    requires
        t.wf(),
    ensures
        match lookup_links(t.links@, dir, rel) {
            Some(LinkFate::File(j)) => (j as int) < t.files@.len(),
            _ => true,
        },
{
    lemma_lookup_links_bound(t.links@, dir, rel, t.files@.len() as int);
}

/// Generalization of `lemma_lookup_links_wf` over any entry sequence.
proof fn lemma_lookup_links_bound(ls: Seq<PathEntry>, dir: Seq<u8>, rel: Seq<u8>, bound: int)
    requires
        forall|k: int|
            0 <= k < ls.len() ==> (match (#[trigger] ls[k]).fate {
                LinkFate::File(j) => (j as int) < bound,
                LinkFate::Broken(_) => true,
            }),
    ensures
        match lookup_links(ls, dir, rel) {
            Some(LinkFate::File(j)) => (j as int) < bound,
            _ => true,
        },
    decreases ls.len(),
{
    if ls.len() > 0 && !(ls[0].dir@ == dir && ls[0].rel@ == rel) {
        assert(forall|k: int| 0 <= k < ls.skip(1).len() ==> ls.skip(1)[k] == ls[k + 1]);
        lemma_lookup_links_bound(ls.skip(1), dir, rel, bound);
    }
}

} // verus!
