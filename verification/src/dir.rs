use vstd::prelude::*;

use crate::entry::Directory;
use crate::entry::Entry;
use crate::entry::GEntry;
use crate::entry::GMeta;
use crate::entry::Metadata;
use crate::error::Error;
use crate::error::GErr;
use crate::extent::Extent;
use crate::extent::GExtent;
use crate::file::File;
use crate::file::GFile;
use crate::fs::g_fs_wf;
use crate::fs::g_insert;
use crate::fs::g_lookup;
use crate::fs::g_tree_eq;
use crate::fs::Filesystem;
use crate::fs::GFs;

verus! {

/// Mathematical model of a [`DirRecord`].
#[verifier::ext_equal]
pub struct GRecord {
    pub relpath: Seq<char>,
    pub is_dir: bool,
    pub is_symlink: bool,
    pub mode: u32,
    pub uid: u32,
    pub gid: u32,
    pub xattrs: Seq<(Seq<u8>, Seq<u8>)>,
    pub contents: Seq<u8>,
}

/// What an external directory walker reports for one path under the root:
/// the path relative to the root, the entry kind, its metadata, and, for
/// files, the full byte contents.
#[derive(Debug)]
pub struct DirRecord {
    pub relpath: String,
    pub is_dir: bool,
    pub is_symlink: bool,
    pub mode: u32,
    pub uid: u32,
    pub gid: u32,
    pub xattrs: Vec<(Vec<u8>, Vec<u8>)>,
    pub contents: Vec<u8>,
}

impl View for DirRecord {
    type V = GRecord;

    open spec fn view(&self) -> GRecord {
        GRecord {
            relpath: self.relpath@,
            is_dir: self.is_dir,
            is_symlink: self.is_symlink,
            mode: self.mode,
            uid: self.uid,
            gid: self.gid,
            xattrs: self.xattrs@.map_values(|p: (Vec<u8>, Vec<u8>)| crate::entry::xattr_view(p)),
            contents: self.contents@,
        }
    }
}

/// The tree entry one record stands for: a directory, or a file whose whole
/// content is a single owned extent.
pub open spec fn g_record_entry(r: GRecord) -> GEntry {
    let meta = GMeta { mode: r.mode, uid: r.uid, gid: r.gid, xattrs: r.xattrs };
    if r.is_dir {
        GEntry::Directory(meta)
    } else {
        GEntry::File(
            GFile { extents: seq![(0nat, GExtent::Owned { data: r.contents })], meta },
        )
    }
}

/// Fold directory records into a tree, in order; the first symbolic link
/// fails the whole import.
pub open spec fn g_import(recs: Seq<GRecord>) -> Result<GFs, GErr>
    decreases recs.len(),
{
    if recs.len() == 0 {
        Ok(Seq::empty())
    } else {
        match g_import(recs.drop_last()) {
            Ok(fs) => {
                if recs.last().is_symlink {
                    Err(GErr::UnsupportedEntry { path: recs.last().relpath })
                } else {
                    Ok(g_insert(fs, recs.last().relpath, g_record_entry(recs.last())))
                }
            },
            Err(e) => Err(e),
        }
    }
}

/// Once a prefix of the records fails, the whole import fails the same way.
pub proof fn lemma_g_import_err(recs: Seq<GRecord>, j: int)
    requires
        0 <= j <= recs.len(),
        g_import(recs.take(j)) is Err,
    ensures
        g_import(recs) == g_import(recs.take(j)),
    decreases recs.len() - j,
{
    if j < recs.len() {
        assert(recs.take(j + 1).drop_last() =~= recs.take(j));
        lemma_g_import_err(recs, j + 1);
    } else {
        assert(recs.take(j) =~= recs);
    }
}

impl Filesystem {
    /// Build the in-memory view of an on-disk directory tree out of the
    /// records an external walker produced for it, one record per path under
    /// the root, in walk order. A symbolic link fails the import with
    /// `UnsupportedEntry`; nothing else does.
    #[verifier::loop_isolation(false)]
    pub fn from_records(records: Vec<DirRecord>) -> (r: Result<Filesystem, Error>)
        ensures
            match g_import(records@.map_values(|d: DirRecord| d@)) {
                Ok(gfs) => r matches Ok(fs) && fs@ == gfs && g_fs_wf(fs@),
                Err(e) => r matches Err(err) && err@ == e,
            },
    {
        let ghost gorig = records@.map_values(|d: DirRecord| d@);
        let mut records = records;
        let mut fs = Filesystem::new();
        let ghost mut done: int = 0;
        proof {
            assert(gorig.take(0) =~= Seq::<GRecord>::empty());
        }
        while records.len() > 0
            invariant
                0 <= done,
                done + records@.len() == gorig.len(),
                forall|j: int|
                    0 <= j < records@.len() ==> (#[trigger] records@[j])@ == gorig[done + j],
                g_import(gorig.take(done)) == Ok::<GFs, GErr>(fs@),
                g_fs_wf(fs@),
            decreases records@.len(),
        {
            let rec = records.remove(0);
            proof {
                assert(rec@ == gorig[done]);
                assert(forall|j: int|
                    0 <= j < records@.len() ==> (#[trigger] records@[j])@ == gorig[done + 1 + j]);
                assert(gorig.take(done + 1).drop_last() =~= gorig.take(done));
                assert(gorig.take(done + 1).last() == gorig[done]);
            }
            if rec.is_symlink {
                proof {
                    lemma_g_import_err(gorig, done + 1);
                }
                return Err(Error::UnsupportedEntry(rec.relpath));
            }
            let ghost grec = rec@;
            let content_len = rec.contents.len();
            let meta = Metadata { mode: rec.mode, uid: rec.uid, gid: rec.gid, xattrs: rec.xattrs };
            let entry = if rec.is_dir {
                Entry::Directory(Directory { meta })
            } else {
                let mut extents: Vec<(usize, Extent)> = Vec::new();
                extents.push((0, Extent::Owned { data: rec.contents }));
                Entry::File(File { extents, meta })
            };
            proof {
                assert(entry@ =~~= g_record_entry(grec));
                assert(grec.contents.len() == content_len);
                assert(entry@.wf());
            }
            fs.insert(rec.relpath, entry);
            proof {
                done = done + 1;
            }
        }
        proof {
            assert(gorig.take(done) =~= gorig);
        }
        Ok(fs)
    }
}

/// A successful import yields a tree with unique paths, whatever the
/// records held.
pub proof fn lemma_import_unique(recs: Seq<GRecord>)
    ensures
        g_import(recs) matches Ok(fs) ==> crate::fs::g_fs_unique(fs),
    decreases recs.len(),
{
    if recs.len() > 0 {
        lemma_import_unique(recs.drop_last());
        match g_import(recs.drop_last()) {
            Ok(fs) => {
                if !recs.last().is_symlink {
                    crate::fs::lemma_insert_unique(
                        fs,
                        recs.last().relpath,
                        g_record_entry(recs.last()),
                    );
                }
            },
            Err(_) => {},
        }
    }
}

/// Importing the same directory records a second time yields a tree
/// structurally equal to the first import: the import is a function of the
/// records alone.
pub proof fn lemma_import_idempotent(recs: Seq<GRecord>, fs1: GFs, fs2: GFs)
    requires
        g_import(recs) == Ok::<GFs, GErr>(fs1),
        g_import(recs) == Ok::<GFs, GErr>(fs2),
    ensures
        g_tree_eq(fs1, fs2),
{
    assert(fs1 == fs2);
    assert(forall|p: Seq<char>| #[trigger] g_lookup(fs1, p) == g_lookup(fs2, p));
}

} // verus!
