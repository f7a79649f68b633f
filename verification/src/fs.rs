use vstd::prelude::*;
use vstd::pervasive::VecAdditionalExecFns;

use crate::entry::Directory;
use crate::entry::Entry;
use crate::entry::GEntry;
use crate::entry::GMeta;
use crate::error::Error;
use crate::error::GErr;
use crate::extent::Extent;
use crate::extent::GExtent;
use crate::file::clone_pieces;
use crate::file::contiguous;
use crate::file::pieces_bytes;
use crate::file::extents_view;
use crate::file::File;
use crate::file::GFile;

verus! {

/// Mathematical model of a [`Filesystem`]: the entries in insertion order,
/// each a path with its entry.
pub type GFs = Seq<(Seq<char>, GEntry)>;

/// Index of the first entry at path `p`, or `-1` if there is none.
pub open spec fn g_find(fs: GFs, p: Seq<char>) -> int
    decreases fs.len(),
{
    if fs.len() == 0 {
        -1
    } else if fs[0].0 == p {
        0
    } else {
        let r = g_find(fs.drop_first(), p);
        if r < 0 {
            -1
        } else {
            r + 1
        }
    }
}

/// The entry at path `p`, if any.
pub open spec fn g_lookup(fs: GFs, p: Seq<char>) -> Option<GEntry> {
    if g_find(fs, p) >= 0 {
        Some(fs[g_find(fs, p)].1)
    } else {
        None
    }
}

/// Insert or overwrite the entry at path `p`.
pub open spec fn g_insert(fs: GFs, p: Seq<char>, e: GEntry) -> GFs {
    if g_find(fs, p) >= 0 {
        fs.update(g_find(fs, p), (p, e))
    } else {
        fs.push((p, e))
    }
}

/// Remove the entry at path `p`; no change if there is none.
pub open spec fn g_remove(fs: GFs, p: Seq<char>) -> GFs {
    if g_find(fs, p) >= 0 {
        fs.remove(g_find(fs, p))
    } else {
        fs
    }
}

/// Update the permission bits of the entry at path `p`.
pub open spec fn g_chmod(fs: GFs, p: Seq<char>, mode: u32) -> Result<GFs, GErr> {
    let i = g_find(fs, p);
    if i >= 0 {
        Ok(fs.update(i, (fs[i].0, fs[i].1.with_meta(GMeta { mode, ..fs[i].1.meta() }))))
    } else {
        Err(GErr::MissingEntry { path: p })
    }
}

/// Update the owner and group of the entry at path `p`.
pub open spec fn g_chown(fs: GFs, p: Seq<char>, uid: u32, gid: u32) -> Result<GFs, GErr> {
    let i = g_find(fs, p);
    if i >= 0 {
        Ok(fs.update(i, (fs[i].0, fs[i].1.with_meta(GMeta { uid, gid, ..fs[i].1.meta() }))))
    } else {
        Err(GErr::MissingEntry { path: p })
    }
}

/// Every file entry of the tree is well formed.
pub open spec fn g_fs_wf(fs: GFs) -> bool {
    forall|i: int| 0 <= i < fs.len() ==> (#[trigger] fs[i]).1.wf()
}

/// `g_find` points at `i` when `i` holds the path and nothing before it
/// does.
pub proof fn lemma_g_find_at(fs: GFs, p: Seq<char>, i: int)
    requires
        0 <= i < fs.len(),
        fs[i].0 == p,
        forall|j: int| 0 <= j < i ==> (#[trigger] fs[j]).0 != p,
    ensures
        g_find(fs, p) == i,
    decreases fs.len(),
{
    if i > 0 {
        let rest = fs.drop_first();
        assert(forall|j: int| 0 <= j < i - 1 ==> (#[trigger] rest[j]).0 == fs[j + 1].0);
        assert(rest[i - 1].0 == p);
        lemma_g_find_at(rest, p, i - 1);
    }
}

/// `g_find` answers `-1` when no entry holds the path.
pub proof fn lemma_g_find_absent(fs: GFs, p: Seq<char>)
    requires
        forall|j: int| 0 <= j < fs.len() ==> (#[trigger] fs[j]).0 != p,
    ensures
        g_find(fs, p) == -1,
    decreases fs.len(),
{
    if fs.len() > 0 {
        let rest = fs.drop_first();
        assert(forall|j: int| 0 <= j < rest.len() ==> (#[trigger] rest[j]).0 == fs[j + 1].0);
        lemma_g_find_absent(rest, p);
    }
}

/// What `g_find` returns is in range, holds the path, and is the first such
/// index.
pub proof fn lemma_g_find_props(fs: GFs, p: Seq<char>)
    ensures
        -1 <= g_find(fs, p) < fs.len(),
        g_find(fs, p) >= 0 ==> fs[g_find(fs, p)].0 == p,
        forall|j: int|
            0 <= j < fs.len() && (g_find(fs, p) == -1 || j < g_find(fs, p)) ==> (#[trigger] fs[j]).0
                != p,
    decreases fs.len(),
{
    if fs.len() > 0 && fs[0].0 != p {
        let rest = fs.drop_first();
        lemma_g_find_props(rest, p);
        assert(forall|j: int| 0 <= j < rest.len() ==> (#[trigger] rest[j]).0 == fs[j + 1].0);
        assert(forall|j: int| 1 <= j < fs.len() ==> fs[j].0 == rest[j - 1].0);
    }
}

/// An ordered mapping from path to entry. Paths are relative to the owning
/// subvolume's root; the root itself is the empty path. No parent-existence
/// check is made at this layer: the command interpreter orders commands so
/// that parents precede children.
#[derive(Debug)]
pub struct Filesystem {
    pub entries: Vec<(String, Entry)>,
}

impl View for Filesystem {
    type V = GFs;

    open spec fn view(&self) -> GFs {
        self.entries@.map_values(|p: (String, Entry)| (p.0@, p.1@))
    }
}

impl Filesystem {
    /// An empty tree.
    pub fn new() -> (r: Filesystem)
        ensures
            r@ == Seq::<(Seq<char>, GEntry)>::empty(),
            g_fs_wf(r@),
    {
        let r = Filesystem { entries: Vec::new() };
        proof {
            assert(r@ =~= Seq::<(Seq<char>, GEntry)>::empty());
        }
        r
    }

    /// Index of the entry at `path`, if any.
    fn find(&self, path: &String) -> (r: Option<usize>)
        ensures
            match r {
                Some(i) => 0 <= i < self@.len() && g_find(self@, path@) == i,
                None => g_find(self@, path@) == -1,
            },
    {
        let mut i: usize = 0;
        while i < self.entries.len()
            invariant
                i <= self.entries.len(),
                forall|j: int| 0 <= j < i ==> (#[trigger] self@[j]).0 != path@,
            decreases self.entries.len() - i,
        {
            if self.entries[i].0 == *path {
                proof {
                    assert(self@[i as int].0 == path@);
                    lemma_g_find_at(self@, path@, i as int);
                }
                return Some(i);
            }
            proof {
                assert(self@[i as int].0 != path@);
            }
            i += 1;
        }
        proof {
            lemma_g_find_absent(self@, path@);
        }
        None
    }

    /// Look up the entry at `path`; absence is a normal, checkable
    /// condition.
    pub fn get(&self, path: &String) -> (r: Option<&Entry>)
        ensures
            match r {
                Some(e) => g_lookup(self@, path@) == Some(e@),
                None => g_lookup(self@, path@) is None,
            },
    {
        match self.find(path) {
            Some(i) => Some(&self.entries[i].1),
            None => None,
        }
    }

    /// Insert or overwrite the entry at `path`.
    pub fn insert(&mut self, path: String, entry: Entry)
        ensures
            final(self)@ == g_insert(old(self)@, path@, entry@),
            g_fs_wf(old(self)@) && entry@.wf() ==> g_fs_wf(final(self)@),
    {
        let ghost gp = path@;
        let ghost ge = entry@;
        match self.find(&path) {
            Some(i) => {
                self.entries.set(i, (path, entry));
                proof {
                    assert forall|j: int|
                        0 <= j < self@.len() implies self@[j] == g_insert(old(self)@, gp, ge)[j] by {
                        assert(self@[j] == (self.entries@[j].0@, self.entries@[j].1@));
                    }
                    assert(self@ =~= g_insert(old(self)@, gp, ge));
                }
            },
            None => {
                self.entries.push((path, entry));
                proof {
                    assert forall|j: int|
                        0 <= j < self@.len() implies self@[j] == g_insert(old(self)@, gp, ge)[j] by {
                        assert(self@[j] == (self.entries@[j].0@, self.entries@[j].1@));
                    }
                    assert(self@ =~= g_insert(old(self)@, gp, ge));
                }
            },
        }
    }

    /// Remove and return the entry at `path`; fail with `MissingEntry` if it
    /// is absent.
    pub fn remove(&mut self, path: &String) -> (r: Result<Entry, Error>)
        ensures
            match r {
                Ok(e) => g_lookup(old(self)@, path@) == Some(e@) && final(self)@ == g_remove(
                    old(self)@,
                    path@,
                ),
                Err(err) => err@ == (GErr::MissingEntry { path: path@ }) && g_find(
                    old(self)@,
                    path@,
                ) == -1 && final(self)@ == old(self)@,
            },
            g_fs_wf(old(self)@) ==> g_fs_wf(final(self)@),
    {
        match self.find(path) {
            Some(i) => {
                let pr = self.entries.remove(i);
                proof {
                    assert forall|j: int|
                        0 <= j < self@.len() implies self@[j] == g_remove(old(self)@, path@)[j] by {
                        assert(self@[j] == (self.entries@[j].0@, self.entries@[j].1@));
                    }
                    assert(self@ =~= g_remove(old(self)@, path@));
                }
                Ok(pr.1)
            },
            None => Err(Error::MissingEntry(path.clone())),
        }
    }

    /// Update the permission bits of the entry at `path`, file or directory
    /// alike; fail with `MissingEntry` if it is absent.
    pub fn chmod(&mut self, path: &String, mode: u32) -> (r: Result<(), Error>)
        ensures
            match g_chmod(old(self)@, path@, mode) {
                Ok(fs2) => r is Ok && final(self)@ == fs2,
                Err(e) => r matches Err(err) && err@ == e && final(self)@ == old(self)@,
            },
            g_fs_wf(old(self)@) ==> g_fs_wf(final(self)@),
    {
        match self.find(path) {
            Some(i) => {
                let mut pair = (String::new(), Entry::Directory(Directory::new_default()));
                self.entries.set_and_swap(i, &mut pair);
                let (path0, ent) = pair;
                let ent2 = match ent {
                    Entry::File(mut f) => {
                        f.meta.mode = mode;
                        Entry::File(f)
                    },
                    Entry::Directory(mut d) => {
                        d.meta.mode = mode;
                        Entry::Directory(d)
                    },
                };
                self.entries.set(i, (path0, ent2));
                proof {
                    let fs2 = g_chmod(old(self)@, path@, mode)->Ok_0;
                    assert forall|j: int| 0 <= j < self@.len() implies self@[j] == fs2[j] by {
                        assert(self@[j] == (self.entries@[j].0@, self.entries@[j].1@));
                        assert(old(self)@[j] == (old(self).entries@[j].0@, old(self).entries@[j].1@));
                    }
                    assert(self@ =~= fs2);
                }
                Ok(())
            },
            None => Err(Error::MissingEntry(path.clone())),
        }
    }

    /// Update the owner and group ids of the entry at `path`, file or
    /// directory alike; fail with `MissingEntry` if it is absent.
    pub fn chown(&mut self, path: &String, uid: u32, gid: u32) -> (r: Result<(), Error>)
        ensures
            match g_chown(old(self)@, path@, uid, gid) {
                Ok(fs2) => r is Ok && final(self)@ == fs2,
                Err(e) => r matches Err(err) && err@ == e && final(self)@ == old(self)@,
            },
            g_fs_wf(old(self)@) ==> g_fs_wf(final(self)@),
    {
        match self.find(path) {
            Some(i) => {
                let mut pair = (String::new(), Entry::Directory(Directory::new_default()));
                self.entries.set_and_swap(i, &mut pair);
                let (path0, ent) = pair;
                let ent2 = match ent {
                    Entry::File(mut f) => {
                        f.meta.uid = uid;
                        f.meta.gid = gid;
                        Entry::File(f)
                    },
                    Entry::Directory(mut d) => {
                        d.meta.uid = uid;
                        d.meta.gid = gid;
                        Entry::Directory(d)
                    },
                };
                self.entries.set(i, (path0, ent2));
                proof {
                    let fs2 = g_chown(old(self)@, path@, uid, gid)->Ok_0;
                    assert forall|j: int| 0 <= j < self@.len() implies self@[j] == fs2[j] by {
                        assert(self@[j] == (self.entries@[j].0@, self.entries@[j].1@));
                        assert(old(self)@[j] == (old(self).entries@[j].0@, old(self).entries@[j].1@));
                    }
                    assert(self@ =~= fs2);
                }
                Ok(())
            },
            None => Err(Error::MissingEntry(path.clone())),
        }
    }
}

/// Total number of bytes a run of pieces holds.
pub open spec fn total_len(pieces: Seq<GExtent>) -> nat
    decreases pieces.len(),
{
    if pieces.len() == 0 {
        0
    } else {
        (total_len(pieces.drop_last()) + pieces.last().bytes().len()) as nat
    }
}

/// Append a run of pieces at the end of a file, in order.
pub open spec fn g_append_pieces(f: GFile, pieces: Seq<GExtent>) -> GFile
    decreases pieces.len(),
{
    if pieces.len() == 0 {
        f
    } else {
        g_append_pieces(f, pieces.drop_last()).append(pieces.last())
    }
}

/// A prefix never holds more bytes than the whole run.
pub proof fn lemma_total_len_prefix(pieces: Seq<GExtent>, j: int)
    requires
        0 <= j <= pieces.len(),
    ensures
        total_len(pieces.take(j)) <= total_len(pieces),
    decreases pieces.len() - j,
{
    if j < pieces.len() {
        assert(pieces.take(j + 1).drop_last() =~= pieces.take(j));
        lemma_total_len_prefix(pieces, j + 1);
    } else {
        assert(pieces.take(j) =~= pieces);
    }
}

/// Appending one well-formed extent keeps a file well formed and grows it by
/// exactly that extent's bytes.
pub proof fn lemma_append_wf(f: GFile, e: GExtent)
    requires
        f.wf(),
        e.wf(),
        f.len() + e.bytes().len() <= usize::MAX,
    ensures
        f.append(e).wf(),
        f.append(e).len() == f.len() + e.bytes().len(),
        f.append(e).meta == f.meta,
{
    let f2 = f.append(e);
    assert(forall|i: int| 0 <= i < f.extents.len() ==> f2.extents[i] == f.extents[i]);
    assert(f2.extents.last() == (f.len(), e));
    assert(contiguous(f2.extents));
}

/// Appending a run of well-formed pieces keeps a file well formed and grows
/// it by their total length; metadata is untouched.
pub proof fn lemma_append_pieces_props(f: GFile, pieces: Seq<GExtent>)
    requires
        f.wf(),
        forall|i: int| 0 <= i < pieces.len() ==> (#[trigger] pieces[i]).wf(),
        f.len() + total_len(pieces) <= usize::MAX,
    ensures
        g_append_pieces(f, pieces).wf(),
        g_append_pieces(f, pieces).len() == f.len() + total_len(pieces),
        g_append_pieces(f, pieces).meta == f.meta,
    decreases pieces.len(),
{
    if pieces.len() > 0 {
        let pre = pieces.drop_last();
        assert(forall|i: int| 0 <= i < pre.len() ==> (#[trigger] pre[i]).wf());
        lemma_append_pieces_props(f, pre);
        lemma_append_wf(g_append_pieces(f, pre), pieces.last());
    }
}

/// The file at a found index, for speaking about clone sources and
/// destinations; meaningful only when the entry is a file.
pub open spec fn g_entry_file(e: GEntry) -> GFile {
    match e {
        GEntry::File(f) => f,
        GEntry::Directory(_) => GFile::empty(),
    }
}

/// Slice `[lo, hi)` out of the file at `src` and append the produced pieces
/// at offset `dst_off` of the file at `dst`, which must be exactly that
/// file's current end. Checks run in order: source present, source a file,
/// destination present, destination a file, offset at the end, total length
/// within a machine word.
pub open spec fn g_clone_into(
    fs: GFs,
    src: Seq<char>,
    lo: nat,
    hi: nat,
    dst: Seq<char>,
    dst_off: nat,
) -> Result<GFs, GErr> {
    let si = g_find(fs, src);
    if si < 0 {
        Err(GErr::MissingEntry { path: src })
    } else if !(fs[si].1 is File) {
        Err(GErr::WrongEntryKind { path: src })
    } else {
        let pieces = clone_pieces(g_entry_file(fs[si].1).extents, lo, hi);
        let di = g_find(fs, dst);
        if di < 0 {
            Err(GErr::MissingEntry { path: dst })
        } else if !(fs[di].1 is File) {
            Err(GErr::WrongEntryKind { path: dst })
        } else {
            let df = g_entry_file(fs[di].1);
            if dst_off != df.len() {
                Err(
                    GErr::InvariantViolated {
                        reason: "clone destination offset is not the end of the file"@,
                    },
                )
            } else if df.len() + total_len(pieces) > usize::MAX {
                Err(GErr::InvariantViolated { reason: "clone would overflow the file length"@ })
            } else {
                Ok(fs.update(di, (fs[di].0, GEntry::File(g_append_pieces(df, pieces)))))
            }
        }
    }
}

impl Filesystem {
    /// Deep copy with an identical model.
    pub fn dup(&self) -> (r: Filesystem)
        ensures
            r@ == self@,
    {
        let mut entries: Vec<(String, Entry)> = Vec::new();
        let mut i: usize = 0;
        while i < self.entries.len()
            invariant
                i <= self.entries.len(),
                entries@.len() == i,
                forall|j: int|
                    0 <= j < i ==> (#[trigger] entries@[j]).0@ == self.entries@[j].0@
                        && entries@[j].1@ == self.entries@[j].1@,
            decreases self.entries.len() - i,
        {
            let pair = (self.entries[i].0.clone(), self.entries[i].1.dup());
            entries.push(pair);
            i += 1;
        }
        let r = Filesystem { entries };
        proof {
            assert forall|j: int| 0 <= j < r@.len() implies r@[j] == self@[j] by {
                assert(r@[j] == (entries@[j].0@, entries@[j].1@));
                assert(self@[j] == (self.entries@[j].0@, self.entries@[j].1@));
            }
            assert(r@ =~= self@);
        }
        r
    }

    /// Realize a clone command: slice `[src_start, src_end)` out of the file
    /// at `src_path` and append the pieces to the file at `dst_path`, whose
    /// end must be exactly `dst_offset`. The pieces keep a reference to the
    /// source range while capturing its bytes, so the destination is a fixed
    /// snapshot of the source at clone time.
    pub fn clone_into(
        &mut self,
        src_path: &String,
        src_start: usize,
        src_end: usize,
        dst_path: &String,
        dst_offset: usize,
    ) -> (r: Result<(), Error>)
        requires
            g_fs_wf(old(self)@),
        ensures
            g_fs_wf(final(self)@),
            match g_clone_into(
                old(self)@,
                src_path@,
                src_start as nat,
                src_end as nat,
                dst_path@,
                dst_offset as nat,
            ) {
                Ok(f2) => r is Ok && final(self)@ == f2,
                Err(e) => r matches Err(err) && err@ == e && final(self)@ == old(self)@,
            },
    {
        proof {
            lemma_g_find_props(self@, src_path@);
        }
        let pieces: Vec<Extent> = match self.find(src_path) {
            None => {
                return Err(Error::MissingEntry(src_path.clone()));
            },
            Some(si) => match &self.entries[si].1 {
                Entry::Directory(_) => {
                    return Err(Error::WrongEntryKind(src_path.clone()));
                },
                Entry::File(f) => {
                    proof {
                        assert(self@[si as int].1 == GEntry::File(f@));
                    }
                    f.clone(src_start, src_end)
                },
            },
        };
        let ghost gpieces = extents_view(pieces@);
        let di = match self.find(dst_path) {
            None => {
                return Err(Error::MissingEntry(dst_path.clone()));
            },
            Some(i) => i,
        };
        match &self.entries[di].1 {
            Entry::Directory(_) => {
                return Err(Error::WrongEntryKind(dst_path.clone()));
            },
            Entry::File(_) => {},
        }
        let mut pair = (String::new(), Entry::Directory(Directory::new_default()));
        self.entries.set_and_swap(di, &mut pair);
        let (dpath, dent) = pair;
        let mut df = match dent {
            Entry::File(f) => f,
            // unreachable: the entry at this index was just checked to be a
            // file, and swapping it out does not change it
            Entry::Directory(_) => {
                proof {
                    assert(false);
                }
                File::new_empty()
            },
        };
        proof {
            assert(old(self)@[di as int].1 == GEntry::File(df@));
            assert(df@.wf());
        }
        let dlen = df.len();
        if dst_offset != dlen {
            self.entries.set(di, (dpath, Entry::File(df)));
            proof {
                assert forall|j: int| 0 <= j < self@.len() implies self@[j] == old(self)@[j] by {
                    assert(self@[j] == (self.entries@[j].0@, self.entries@[j].1@));
                    assert(old(self)@[j] == (old(self).entries@[j].0@, old(self).entries@[j].1@));
                }
                assert(self@ =~= old(self)@);
            }
            return Err(
                Error::InvariantViolated("clone destination offset is not the end of the file"),
            );
        }
        // Sum the piece lengths first, so an oversized clone is rejected
        // before anything is appended.
        let mut total: usize = 0;
        let mut j: usize = 0;
        let mut overflow: bool = false;
        while j < pieces.len()
            invariant
                j <= pieces.len(),
                !overflow ==> total == total_len(gpieces.take(j as int)),
                overflow ==> total_len(gpieces) > usize::MAX,
                gpieces == extents_view(pieces@),
            decreases pieces.len() - j,
        {
            if !overflow {
                let plen = pieces[j].len();
                proof {
                    assert(gpieces.take(j + 1).drop_last() =~= gpieces.take(j as int));
                    assert(gpieces.take(j + 1).last() == gpieces[j as int]);
                    assert(gpieces[j as int] == pieces@[j as int]@);
                }
                if plen > usize::MAX - total {
                    proof {
                        lemma_total_len_prefix(gpieces, j + 1);
                    }
                    overflow = true;
                } else {
                    total = total + plen;
                }
            }
            j += 1;
        }
        proof {
            assert(gpieces.take(pieces@.len() as int) =~= gpieces);
        }
        if overflow || dlen > usize::MAX - total {
            self.entries.set(di, (dpath, Entry::File(df)));
            proof {
                assert forall|k: int| 0 <= k < self@.len() implies self@[k] == old(self)@[k] by {
                    assert(self@[k] == (self.entries@[k].0@, self.entries@[k].1@));
                    assert(old(self)@[k] == (old(self).entries@[k].0@, old(self).entries@[k].1@));
                }
                assert(self@ =~= old(self)@);
            }
            return Err(Error::InvariantViolated("clone would overflow the file length"));
        }
        let ghost df0 = df@;
        let mut k: usize = 0;
        while k < pieces.len()
            invariant
                k <= pieces.len(),
                df@ == g_append_pieces(df0, gpieces.take(k as int)),
                df@.wf(),
                df@.len() == df0.len() + total_len(gpieces.take(k as int)),
                df0.wf(),
                df0.len() + total_len(gpieces) <= usize::MAX,
                gpieces == extents_view(pieces@),
                forall|i: int| 0 <= i < pieces@.len() ==> (#[trigger] pieces@[i])@.wf(),
            decreases pieces.len() - k,
        {
            proof {
                assert(gpieces.take(k + 1).drop_last() =~= gpieces.take(k as int));
                assert(gpieces.take(k + 1).last() == gpieces[k as int]);
                assert(gpieces[k as int] == pieces@[k as int]@);
                lemma_total_len_prefix(gpieces, k + 1);
            }
            let piece = pieces[k].dup();
            df.write(piece);
            k += 1;
        }
        proof {
            assert(gpieces.take(pieces@.len() as int) =~= gpieces);
        }
        self.entries.set(di, (dpath, Entry::File(df)));
        proof {
            let fs2 = g_clone_into(
                old(self)@,
                src_path@,
                src_start as nat,
                src_end as nat,
                dst_path@,
                dst_offset as nat,
            )->Ok_0;
            lemma_append_pieces_props(df0, gpieces);
            assert forall|m: int| 0 <= m < self@.len() implies self@[m] == fs2[m] by {
                assert(self@[m] == (self.entries@[m].0@, self.entries@[m].1@));
                assert(old(self)@[m] == (old(self).entries@[m].0@, old(self).entries@[m].1@));
            }
            assert(self@ =~= fs2);
        }
        Ok(())
    }
}

/// Appending a run of pieces appends exactly their bytes to the content.
pub proof fn lemma_append_pieces_content(f: GFile, pieces: Seq<GExtent>)
    ensures
        g_append_pieces(f, pieces).content() == f.content() + pieces_bytes(pieces),
    decreases pieces.len(),
{
    if pieces.len() == 0 {
        assert(f.content() + pieces_bytes(pieces) =~= f.content());
    } else {
        let pre = pieces.drop_last();
        lemma_append_pieces_content(f, pre);
        let g = g_append_pieces(f, pre);
        let g2 = g.append(pieces.last());
        assert(g2.extents.drop_last() =~= g.extents);
        assert(g2.content() == g.content() + pieces.last().bytes());
        assert(g.content() + pieces.last().bytes() =~= f.content() + pieces_bytes(pieces));
    }
}

/// The clone command realizes copy-on-write byte copying: cloning the byte
/// range `[lo, hi)` of the file at `src` into the file at `dst` leaves every
/// other entry untouched and gives the destination its old content with
/// exactly that slice of the source's content appended.
pub proof fn lemma_clone_into_content(
    fs: GFs,
    src: Seq<char>,
    lo: nat,
    hi: nat,
    dst: Seq<char>,
    dst_off: nat,
)
    requires
        g_fs_wf(fs),
        g_clone_into(fs, src, lo, hi, dst, dst_off) is Ok,
        lo <= hi,
        hi <= g_entry_file(fs[g_find(fs, src)].1).len(),
    ensures
        ({
            let fs2 = g_clone_into(fs, src, lo, hi, dst, dst_off)->Ok_0;
            let sf = g_entry_file(fs[g_find(fs, src)].1);
            let df = g_entry_file(fs[g_find(fs, dst)].1);
            let di = g_find(fs, dst);
            &&& fs2.len() == fs.len()
            &&& fs2[di].1 is File
            &&& g_entry_file(fs2[di].1).content() == df.content() + sf.content().subrange(
                lo as int,
                hi as int,
            )
            &&& forall|j: int| 0 <= j < fs.len() && j != di ==> fs2[j] == fs[j]
        }),
{
    lemma_g_find_props(fs, src);
    lemma_g_find_props(fs, dst);
    let sf = g_entry_file(fs[g_find(fs, src)].1);
    let df = g_entry_file(fs[g_find(fs, dst)].1);
    crate::file::lemma_clone_correct(sf, lo, hi);
    lemma_append_pieces_content(df, clone_pieces(sf.extents, lo, hi));
}

/// Paths are unique: no two entries share one.
pub open spec fn g_fs_unique(fs: GFs) -> bool {
    forall|i: int, j: int| 0 <= i < j < fs.len() ==> (#[trigger] fs[i]).0 != (#[trigger] fs[j]).0
}

/// Inserting keeps paths unique: an existing path is overwritten in place,
/// a new one lands at the end.
pub proof fn lemma_insert_unique(fs: GFs, p: Seq<char>, e: GEntry)
    requires
        g_fs_unique(fs),
    ensures
        g_fs_unique(g_insert(fs, p, e)),
{
    lemma_g_find_props(fs, p);
    let fs2 = g_insert(fs, p, e);
    if g_find(fs, p) >= 0 {
        assert(fs2[g_find(fs, p)].0 == fs[g_find(fs, p)].0);
        assert(forall|i: int| 0 <= i < fs2.len() ==> (#[trigger] fs2[i]).0 == fs[i].0);
    }
}

/// Removing keeps paths unique.
pub proof fn lemma_remove_unique(fs: GFs, p: Seq<char>)
    requires
        g_fs_unique(fs),
    ensures
        g_fs_unique(g_remove(fs, p)),
{
    lemma_g_find_props(fs, p);
    if g_find(fs, p) >= 0 {
        let k = g_find(fs, p);
        let fs2 = fs.remove(k);
        assert forall|i: int, j: int|
            0 <= i < j < fs2.len() implies (#[trigger] fs2[i]).0 != (#[trigger] fs2[j]).0 by {
            let i0 = if i < k {
                i
            } else {
                i + 1
            };
            let j0 = if j < k {
                j
            } else {
                j + 1
            };
            assert(fs2[i] == fs[i0]);
            assert(fs2[j] == fs[j0]);
        }
    }
}

/// Updating an entry in place, path kept, keeps paths unique.
pub proof fn lemma_update_same_key_unique(fs: GFs, i: int, e: GEntry)
    requires
        g_fs_unique(fs),
        0 <= i < fs.len(),
    ensures
        g_fs_unique(fs.update(i, (fs[i].0, e))),
{
    let fs2 = fs.update(i, (fs[i].0, e));
    assert(forall|j: int| 0 <= j < fs2.len() ==> (#[trigger] fs2[j]).0 == fs[j].0);
}

/// Two trees are structurally equal when every path maps to the same entry
/// in both.
pub open spec fn g_tree_eq(a: GFs, b: GFs) -> bool {
    forall|p: Seq<char>| #[trigger] g_lookup(a, p) == g_lookup(b, p)
}

/// `chmod` updates exactly the target entry's permission bits: the entry
/// keeps its place, its other metadata and content are untouched, and every
/// other entry of the tree, descendants of a directory included, is left
/// exactly as it was.
pub proof fn lemma_chmod_local(fs: GFs, p: Seq<char>, mode: u32)
    requires
        g_find(fs, p) >= 0,
    ensures
        g_chmod(fs, p, mode) is Ok,
        ({
            let fs2 = g_chmod(fs, p, mode)->Ok_0;
            let i = g_find(fs, p);
            &&& fs2.len() == fs.len()
            &&& fs2[i].0 == p
            &&& fs2[i].1 == fs[i].1.with_meta(GMeta { mode, ..fs[i].1.meta() })
            &&& forall|j: int| 0 <= j < fs.len() && j != i ==> fs2[j] == fs[j]
        }),
{
    lemma_g_find_props(fs, p);
}

/// `chown` updates exactly the target entry's owner and group ids; all else
/// holds as for `chmod`.
pub proof fn lemma_chown_local(fs: GFs, p: Seq<char>, uid: u32, gid: u32)
    requires
        g_find(fs, p) >= 0,
    ensures
        g_chown(fs, p, uid, gid) is Ok,
        ({
            let fs2 = g_chown(fs, p, uid, gid)->Ok_0;
            let i = g_find(fs, p);
            &&& fs2.len() == fs.len()
            &&& fs2[i].0 == p
            &&& fs2[i].1 == fs[i].1.with_meta(GMeta { uid, gid, ..fs[i].1.meta() })
            &&& forall|j: int| 0 <= j < fs.len() && j != i ==> fs2[j] == fs[j]
        }),
{
    lemma_g_find_props(fs, p);
}

impl Filesystem {
    /// Structural comparison of two trees with unique paths: true exactly
    /// when every path maps to the same entry in both, whatever order the
    /// entries were inserted in.
    pub fn tree_eq(&self, other: &Filesystem) -> (r: bool)
        ensures
            g_fs_unique(self@) && g_fs_unique(other@) ==> r == g_tree_eq(self@, other@),
    {
        let mut i: usize = 0;
        while i < self.entries.len()
            invariant
                i <= self.entries.len(),
                forall|j: int|
                    0 <= j < i ==> g_lookup(other@, (#[trigger] self@[j]).0) == Some(self@[j].1),
            decreases self.entries.len() - i,
        {
            proof {
                assert(self@[i as int] == (self.entries@[i as int].0@, self.entries@[i as int].1@));
            }
            match other.get(&self.entries[i].0) {
                Some(e) => {
                    if !self.entries[i].1.same_as(e) {
                        proof {
                            if g_fs_unique(self@) && g_fs_unique(other@) {
                                let p0 = self@[i as int].0;
                                assert(forall|j: int|
                                    0 <= j < i ==> (#[trigger] self@[j]).0 != p0);
                                lemma_g_find_at(self@, p0, i as int);
                                assert(g_lookup(self@, p0) != g_lookup(other@, p0));
                            }
                        }
                        return false;
                    }
                },
                None => {
                    proof {
                        if g_fs_unique(self@) && g_fs_unique(other@) {
                            let p0 = self@[i as int].0;
                            assert(forall|j: int| 0 <= j < i ==> (#[trigger] self@[j]).0 != p0);
                            lemma_g_find_at(self@, p0, i as int);
                            assert(g_lookup(self@, p0) != g_lookup(other@, p0));
                        }
                    }
                    return false;
                },
            }
            i += 1;
        }
        let mut k: usize = 0;
        while k < other.entries.len()
            invariant
                k <= other.entries.len(),
                forall|j: int|
                    0 <= j < self@.len() ==> g_lookup(other@, (#[trigger] self@[j]).0) == Some(
                        self@[j].1,
                    ),
                forall|j: int| 0 <= j < k ==> g_lookup(self@, (#[trigger] other@[j]).0) is Some,
            decreases other.entries.len() - k,
        {
            proof {
                assert(other@[k as int] == (
                    other.entries@[k as int].0@,
                    other.entries@[k as int].1@,
                ));
            }
            match self.get(&other.entries[k].0) {
                Some(_) => {},
                None => {
                    proof {
                        if g_fs_unique(self@) && g_fs_unique(other@) {
                            let p0 = other@[k as int].0;
                            assert(forall|j: int|
                                0 <= j < k ==> (#[trigger] other@[j]).0 != p0);
                            lemma_g_find_at(other@, p0, k as int);
                            assert(g_lookup(self@, p0) != g_lookup(other@, p0));
                        }
                    }
                    return false;
                },
            }
            k += 1;
        }
        proof {
            if g_fs_unique(self@) && g_fs_unique(other@) {
                assert forall|p: Seq<char>| #[trigger]
                    g_lookup(self@, p) == g_lookup(other@, p) by {
                    lemma_g_find_props(self@, p);
                    lemma_g_find_props(other@, p);
                    if g_find(self@, p) >= 0 {
                        let ia = g_find(self@, p);
                        assert(g_lookup(other@, self@[ia].0) == Some(self@[ia].1));
                    } else {
                        if g_find(other@, p) >= 0 {
                            let ib = g_find(other@, p);
                            assert(g_lookup(self@, other@[ib].0) is Some);
                            assert(false);
                        }
                    }
                }
            }
        }
        true
    }
}

} // verus!
