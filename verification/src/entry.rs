use vstd::prelude::*;

use crate::extent::bytes_eq;
use crate::extent::clone_bytes;
use crate::file::File;
use crate::file::GFile;

verus! {

/// Default permission bits for a file created without explicit metadata:
/// read-only.
pub const DEFAULT_FILE_MODE: u32 = 0o444;

/// Default permission bits for a directory created without explicit
/// metadata: read and traverse.
pub const DEFAULT_DIR_MODE: u32 = 0o555;

/// Mathematical model of [`Metadata`].
#[verifier::ext_equal]
pub struct GMeta {
    pub mode: u32,
    pub uid: u32,
    pub gid: u32,
    pub xattrs: Seq<(Seq<u8>, Seq<u8>)>,
}

impl GMeta {
    /// Metadata as files get it by default: read-only, owned by root, no
    /// extended attributes.
    pub open spec fn file_default() -> GMeta {
        GMeta { mode: DEFAULT_FILE_MODE, uid: 0, gid: 0, xattrs: Seq::empty() }
    }

    /// Metadata as directories get it by default.
    pub open spec fn dir_default() -> GMeta {
        GMeta { mode: DEFAULT_DIR_MODE, uid: 0, gid: 0, xattrs: Seq::empty() }
    }
}

/// The view of one extended-attribute pair.
pub open spec fn xattr_view(p: (Vec<u8>, Vec<u8>)) -> (Seq<u8>, Seq<u8>) {
    (p.0@, p.1@)
}

/// POSIX-style metadata shared by files and directories: permission bits,
/// owner and group ids, and extended attributes (name to raw value).
#[derive(Debug)]
pub struct Metadata {
    pub mode: u32,
    pub uid: u32,
    pub gid: u32,
    pub xattrs: Vec<(Vec<u8>, Vec<u8>)>,
}

impl View for Metadata {
    type V = GMeta;

    open spec fn view(&self) -> GMeta {
        GMeta {
            mode: self.mode,
            uid: self.uid,
            gid: self.gid,
            xattrs: self.xattrs@.map_values(|p: (Vec<u8>, Vec<u8>)| xattr_view(p)),
        }
    }
}

impl Metadata {
    /// Fresh default metadata for a file.
    pub fn file_default() -> (r: Metadata)
        ensures
            r@ == GMeta::file_default(),
    {
        let r = Metadata { mode: DEFAULT_FILE_MODE, uid: 0, gid: 0, xattrs: Vec::new() };
        proof {
            assert(r@.xattrs =~= GMeta::file_default().xattrs);
            assert(r@ =~= GMeta::file_default());
        }
        r
    }

    /// Fresh default metadata for a directory.
    pub fn dir_default() -> (r: Metadata)
        ensures
            r@ == GMeta::dir_default(),
    {
        let r = Metadata { mode: DEFAULT_DIR_MODE, uid: 0, gid: 0, xattrs: Vec::new() };
        proof {
            assert(r@.xattrs =~= GMeta::dir_default().xattrs);
            assert(r@ =~= GMeta::dir_default());
        }
        r
    }

    /// Whether two metadata records have the same model.
    pub fn same_as(&self, other: &Metadata) -> (r: bool)
        ensures
            r == (self@ == other@),
    {
        if self.mode != other.mode || self.uid != other.uid || self.gid != other.gid {
            proof {
                if self@ == other@ {
                    assert(self@.mode == other@.mode);
                    assert(self@.uid == other@.uid);
                    assert(self@.gid == other@.gid);
                }
            }
            return false;
        }
        if self.xattrs.len() != other.xattrs.len() {
            proof {
                if self@ == other@ {
                    assert(self@.xattrs.len() == other@.xattrs.len());
                }
            }
            return false;
        }
        let mut i: usize = 0;
        while i < self.xattrs.len()
            invariant
                self.xattrs@.len() == other.xattrs@.len(),
                i <= self.xattrs@.len(),
                forall|j: int|
                    0 <= j < i ==> xattr_view(#[trigger] self.xattrs@[j]) == xattr_view(
                        other.xattrs@[j],
                    ),
            decreases self.xattrs@.len() - i,
        {
            let nm = bytes_eq(&self.xattrs[i].0, &other.xattrs[i].0);
            let vl = bytes_eq(&self.xattrs[i].1, &other.xattrs[i].1);
            if !nm || !vl {
                proof {
                    assert(self@.xattrs[i as int] == xattr_view(self.xattrs@[i as int]));
                    assert(other@.xattrs[i as int] == xattr_view(other.xattrs@[i as int]));
                    if self@ == other@ {
                        assert(self@.xattrs[i as int] == other@.xattrs[i as int]);
                    }
                }
                return false;
            }
            i += 1;
        }
        proof {
            assert forall|j: int|
                0 <= j < self@.xattrs.len() implies self@.xattrs[j] == other@.xattrs[j] by {
                assert(self@.xattrs[j] == xattr_view(self.xattrs@[j]));
                assert(other@.xattrs[j] == xattr_view(other.xattrs@[j]));
            }
            assert(self@.xattrs =~= other@.xattrs);
            assert(self@ =~= other@);
        }
        true
    }

    /// Deep copy with an identical model.
    pub fn dup(&self) -> (r: Metadata)
        ensures
            r@ == self@,
    {
        let mut xs: Vec<(Vec<u8>, Vec<u8>)> = Vec::new();
        let mut i: usize = 0;
        while i < self.xattrs.len()
            invariant
                i <= self.xattrs.len(),
                xs@.len() == i,
                forall|j: int|
                    0 <= j < i ==> xattr_view(#[trigger] xs@[j]) == xattr_view(self.xattrs@[j]),
            decreases self.xattrs.len() - i,
        {
            let pair = (clone_bytes(&self.xattrs[i].0), clone_bytes(&self.xattrs[i].1));
            proof {
                assert(xattr_view(pair) == xattr_view(self.xattrs@[i as int]));
            }
            xs.push(pair);
            i += 1;
        }
        let r = Metadata { mode: self.mode, uid: self.uid, gid: self.gid, xattrs: xs };
        proof {
            assert forall|j: int| 0 <= j < r@.xattrs.len() implies r@.xattrs[j] == self@.xattrs[j] by {
                assert(r@.xattrs[j] == xattr_view(xs@[j]));
                assert(self@.xattrs[j] == xattr_view(self.xattrs@[j]));
            }
            assert(r@.xattrs =~= self@.xattrs);
            assert(r@ =~= self@);
        }
        r
    }
}

/// A directory: the same metadata shape as a file, but no byte content. Its
/// children are not stored inside it; they are implied by other entries of
/// the tree whose paths are nested under it.
#[derive(Debug)]
pub struct Directory {
    pub meta: Metadata,
}

impl Directory {
    /// A directory with default metadata.
    pub fn new_default() -> (r: Directory)
        ensures
            r.meta@ == GMeta::dir_default(),
    {
        Directory { meta: Metadata::dir_default() }
    }

    /// Deep copy with an identical model.
    pub fn dup(&self) -> (r: Directory)
        ensures
            r.meta@ == self.meta@,
    {
        Directory { meta: self.meta.dup() }
    }
}

/// Mathematical model of an [`Entry`].
#[verifier::ext_equal]
pub enum GEntry {
    File(GFile),
    Directory(GMeta),
}

impl GEntry {
    /// The metadata carried by either kind of entry.
    pub open spec fn meta(self) -> GMeta {
        match self {
            GEntry::File(f) => f.meta,
            GEntry::Directory(m) => m,
        }
    }

    /// Replace the metadata, keeping everything else.
    pub open spec fn with_meta(self, m: GMeta) -> GEntry {
        match self {
            GEntry::File(f) => GEntry::File(GFile { meta: m, ..f }),
            GEntry::Directory(_) => GEntry::Directory(m),
        }
    }

    /// Entry well-formedness: a file's extents are well formed.
    pub open spec fn wf(self) -> bool {
        match self {
            GEntry::File(f) => f.wf(),
            GEntry::Directory(_) => true,
        }
    }
}

/// One node of the filesystem tree: a file or a directory.
#[derive(Debug)]
pub enum Entry {
    File(File),
    Directory(Directory),
}

impl View for Entry {
    type V = GEntry;

    open spec fn view(&self) -> GEntry {
        match self {
            Entry::File(f) => GEntry::File(f@),
            Entry::Directory(d) => GEntry::Directory(d.meta@),
        }
    }
}

impl Entry {
    /// Whether two entries have the same model: same kind, same metadata,
    /// and for files the same extents.
    pub fn same_as(&self, other: &Entry) -> (r: bool)
        ensures
            r == (self@ == other@),
    {
        match (self, other) {
            (Entry::File(f1), Entry::File(f2)) => f1.same_as(f2),
            (Entry::Directory(d1), Entry::Directory(d2)) => d1.meta.same_as(&d2.meta),
            _ => false,
        }
    }

    /// Deep copy with an identical model.
    pub fn dup(&self) -> (r: Entry)
        ensures
            r@ == self@,
    {
        match self {
            Entry::File(f) => Entry::File(f.dup()),
            Entry::Directory(d) => Entry::Directory(d.dup()),
        }
    }
}

} // verus!
