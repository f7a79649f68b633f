use vstd::prelude::*;

use crate::entry::GMeta;
use crate::entry::Metadata;
use crate::extent::bytes_eq;
use crate::extent::clone_bytes;
use crate::extent::Extent;
use crate::extent::GExtent;

verus! {

/// Concatenation of the bytes of a run of extents, in order.
pub open spec fn cat_bytes(exts: Seq<(nat, GExtent)>) -> Seq<u8>
    decreases exts.len(),
{
    if exts.len() == 0 {
        Seq::empty()
    } else {
        cat_bytes(exts.drop_last()) + exts.last().1.bytes()
    }
}

/// The offset one past the last extent: the file's logical length.
pub open spec fn end_offset(exts: Seq<(nat, GExtent)>) -> nat {
    if exts.len() == 0 {
        0
    } else {
        exts.last().0 + exts.last().1.bytes().len()
    }
}

/// Extents are contiguous: the first starts at offset zero and each further
/// one starts exactly where its predecessor ends. Holes are not supported.
pub open spec fn contiguous(exts: Seq<(nat, GExtent)>) -> bool {
    &&& (exts.len() > 0 ==> exts[0].0 == 0)
    &&& (forall|i: int|
        0 < i < exts.len() ==> (#[trigger] exts[i]).0 == exts[i - 1].0
            + exts[i - 1].1.bytes().len())
}

/// For contiguous extents the end offset equals the total number of content
/// bytes.
pub proof fn lemma_contiguous_len(exts: Seq<(nat, GExtent)>)
    requires
        contiguous(exts),
    ensures
        cat_bytes(exts).len() == end_offset(exts),
    decreases exts.len(),
{
    if exts.len() > 0 {
        let pre = exts.drop_last();
        assert(contiguous(pre));
        lemma_contiguous_len(pre);
    }
}

/// Mathematical model of a [`File`]: its extents, keyed by starting offset,
/// and its metadata.
#[verifier::ext_equal]
pub struct GFile {
    pub extents: Seq<(nat, GExtent)>,
    pub meta: GMeta,
}

impl GFile {
    /// Full logical content: all extent bytes in ascending offset order.
    pub open spec fn content(self) -> Seq<u8> {
        cat_bytes(self.extents)
    }

    /// Logical length: where the last extent ends.
    pub open spec fn len(self) -> nat {
        end_offset(self.extents)
    }

    /// Well-formed: every extent is well formed, the extents are contiguous
    /// from offset zero, and the logical length fits a machine word.
    pub open spec fn wf(self) -> bool {
        &&& (forall|i: int| 0 <= i < self.extents.len() ==> (#[trigger] self.extents[i]).1.wf())
        &&& contiguous(self.extents)
        &&& self.len() <= usize::MAX
    }

    /// An empty file with default metadata.
    pub open spec fn empty() -> GFile {
        GFile { extents: Seq::empty(), meta: GMeta::file_default() }
    }

    /// Append one extent at the current end of the file.
    pub open spec fn append(self, e: GExtent) -> GFile {
        GFile { extents: self.extents.push((self.len(), e)), meta: self.meta }
    }
}

/// The pieces produced by slicing the byte range `[lo, hi)` out of a run of
/// extents: for each extent overlapping the range, a cloned piece clipped to
/// `[max(lo, start), min(hi, start + len))`, in ascending offset order.
/// A range that overlaps nothing yields no pieces.
pub open spec fn clone_pieces(exts: Seq<(nat, GExtent)>, lo: nat, hi: nat) -> Seq<GExtent>
    decreases exts.len(),
{
    if exts.len() == 0 {
        Seq::empty()
    } else {
        let rest = clone_pieces(exts.drop_last(), lo, hi);
        let st = exts.last().0;
        let eb = exts.last().1.bytes();
        let s = if lo > st {
            lo
        } else {
            st
        };
        let en = if hi < st + eb.len() {
            hi
        } else {
            (st + eb.len()) as nat
        };
        if s < en {
            rest.push(GExtent::Cloned { lo: s, hi: en, data: eb.subrange(s - st, en - st) })
        } else {
            rest
        }
    }
}

/// Every piece produced by slicing is well formed.
pub proof fn lemma_clone_pieces_wf(exts: Seq<(nat, GExtent)>, lo: nat, hi: nat)
    ensures
        forall|i: int|
            0 <= i < clone_pieces(exts, lo, hi).len() ==> (#[trigger] clone_pieces(
                exts,
                lo,
                hi,
            )[i]).wf(),
    decreases exts.len(),
{
    if exts.len() > 0 {
        lemma_clone_pieces_wf(exts.drop_last(), lo, hi);
        let rest = clone_pieces(exts.drop_last(), lo, hi);
        let all = clone_pieces(exts, lo, hi);
        assert(forall|i: int| 0 <= i < rest.len() ==> all[i] == rest[i]);
    }
}

/// The view of a run of produced extents.
pub open spec fn extents_view(s: Seq<Extent>) -> Seq<GExtent> {
    s.map_values(|e: Extent| e@)
}

/// Concatenation of the bytes of a run of produced pieces, in order.
pub open spec fn pieces_bytes(s: Seq<GExtent>) -> Seq<u8>
    decreases s.len(),
{
    if s.len() == 0 {
        Seq::empty()
    } else {
        pieces_bytes(s.drop_last()) + s.last().bytes()
    }
}

/// Index of the last extent whose starting offset is at or before `pos`, or
/// `-1` if every extent starts past it.
pub open spec fn extent_index_at(exts: Seq<(nat, GExtent)>, pos: nat) -> int
    decreases exts.len(),
{
    if exts.len() == 0 {
        -1
    } else if exts.last().0 <= pos {
        exts.len() - 1
    } else {
        extent_index_at(exts.drop_last(), pos)
    }
}

/// The smaller of two naturals.
pub open spec fn nmin(a: nat, b: nat) -> nat {
    if a < b {
        a
    } else {
        b
    }
}

/// Slicing `[lo, hi)` out of contiguous extents yields pieces whose bytes
/// are exactly that range of the concatenated content, each bound clipped to
/// the content's length.
pub proof fn lemma_clone_pieces_bytes(exts: Seq<(nat, GExtent)>, lo: nat, hi: nat)
    requires
        contiguous(exts),
        lo <= hi,
    ensures
        pieces_bytes(clone_pieces(exts, lo, hi)) == cat_bytes(exts).subrange(
            nmin(lo, cat_bytes(exts).len()) as int,
            nmin(hi, cat_bytes(exts).len()) as int,
        ),
    decreases exts.len(),
{
    lemma_contiguous_len(exts);
    if exts.len() == 0 {
        assert(pieces_bytes(clone_pieces(exts, lo, hi)) =~= cat_bytes(exts).subrange(0, 0));
    } else {
        let pre = exts.drop_last();
        let st = exts.last().0;
        let eb = exts.last().1.bytes();
        assert(contiguous(pre));
        lemma_contiguous_len(pre);
        assert(cat_bytes(pre).len() == st);
        let cat_all = cat_bytes(exts);
        let len_all = cat_all.len();
        assert(len_all == st + eb.len());
        lemma_clone_pieces_bytes(pre, lo, hi);
        let rest = clone_pieces(pre, lo, hi);
        let s = if lo > st {
            lo
        } else {
            st
        };
        let en = if hi < st + eb.len() {
            hi
        } else {
            (st + eb.len()) as nat
        };
        if s < en {
            let piece = GExtent::Cloned { lo: s, hi: en, data: eb.subrange(s - st, en - st) };
            assert(clone_pieces(exts, lo, hi) == rest.push(piece));
            assert(rest.push(piece).drop_last() =~= rest);
            assert(pieces_bytes(clone_pieces(exts, lo, hi)) == pieces_bytes(rest)
                + piece.bytes());
            assert(nmin(hi, len_all) == en);
            assert(nmin(lo, len_all) == lo);
            assert(nmin(hi, st) == st);
            assert(pieces_bytes(rest) + piece.bytes() =~= cat_all.subrange(
                lo as int,
                en as int,
            ));
        } else {
            assert(pieces_bytes(clone_pieces(exts, lo, hi)) == pieces_bytes(rest));
            assert(pieces_bytes(rest) =~= cat_all.subrange(
                nmin(lo, len_all) as int,
                nmin(hi, len_all) as int,
            ));
        }
    }
}

/// Clone correctness: for a well-formed file and a byte range within its
/// logical length, the bytes of the produced pieces are exactly that slice
/// of the file's content.
pub proof fn lemma_clone_correct(f: GFile, lo: nat, hi: nat)
    requires
        f.wf(),
        lo <= hi <= f.len(),
    ensures
        pieces_bytes(clone_pieces(f.extents, lo, hi)) == f.content().subrange(
            lo as int,
            hi as int,
        ),
{
    lemma_contiguous_len(f.extents);
    lemma_clone_pieces_bytes(f.extents, lo, hi);
}

/// Copy the byte range `[from, to)` out of a vector.
pub fn copy_range(v: &Vec<u8>, from: usize, to: usize) -> (r: Vec<u8>)
    requires
        from <= to <= v@.len(),
    ensures
        r@ == v@.subrange(from as int, to as int),
{
    let mut r: Vec<u8> = Vec::new();
    let mut i: usize = from;
    while i < to
        invariant
            from <= i <= to <= v@.len(),
            r@ == v@.subrange(from as int, i as int),
        decreases to - i,
    {
        r.push(v[i]);
        proof {
            assert(r@ =~= v@.subrange(from as int, i + 1 as int));
        }
        i += 1;
    }
    r
}

/// A single file: copy-on-write extents holding the content, plus
/// POSIX-style metadata. Extents allow a file to be assembled from a
/// sequence of mutation commands (writes and cross-file clones) without
/// copying untouched byte ranges.
#[derive(Debug)]
pub struct File {
    pub extents: Vec<(usize, Extent)>,
    pub meta: Metadata,
}

impl View for File {
    type V = GFile;

    open spec fn view(&self) -> GFile {
        GFile {
            extents: self.extents@.map_values(|p: (usize, Extent)| (p.0 as nat, p.1@)),
            meta: self.meta@,
        }
    }
}

/// Builder for a [`File`], with every field defaulted: no content, mode
/// read-only, owner and group root, no extended attributes.
#[derive(Debug)]
pub struct FileBuilder {
    pub extents: Vec<(usize, Extent)>,
    pub meta: Metadata,
}

impl View for FileBuilder {
    type V = GFile;

    open spec fn view(&self) -> GFile {
        GFile {
            extents: self.extents@.map_values(|p: (usize, Extent)| (p.0 as nat, p.1@)),
            meta: self.meta@,
        }
    }
}

impl FileBuilder {
    /// Set the contents to a single owned extent holding `data`.
    pub fn contents(self, data: Vec<u8>) -> (r: FileBuilder)
        ensures
            r@.extents == seq![(0nat, GExtent::Owned { data: data@ })],
            r@.meta == self@.meta,
    {
        let ghost gdata = data@;
        let mut extents: Vec<(usize, Extent)> = Vec::new();
        extents.push((0, Extent::Owned { data }));
        let r = FileBuilder { extents, meta: self.meta };
        proof {
            assert(r@.extents =~= seq![(0nat, GExtent::Owned { data: gdata })]);
        }
        r
    }

    /// Set the permission bits.
    pub fn mode(self, mode: u32) -> (r: FileBuilder)
        ensures
            r@.extents == self@.extents,
            r@.meta == (GMeta { mode, ..self@.meta }),
    {
        FileBuilder { extents: self.extents, meta: Metadata { mode, ..self.meta } }
    }

    /// Set the owner id.
    pub fn uid(self, uid: u32) -> (r: FileBuilder)
        ensures
            r@.extents == self@.extents,
            r@.meta == (GMeta { uid, ..self@.meta }),
    {
        FileBuilder { extents: self.extents, meta: Metadata { uid, ..self.meta } }
    }

    /// Set the group id.
    pub fn gid(self, gid: u32) -> (r: FileBuilder)
        ensures
            r@.extents == self@.extents,
            r@.meta == (GMeta { gid, ..self@.meta }),
    {
        FileBuilder { extents: self.extents, meta: Metadata { gid, ..self.meta } }
    }

    /// Set the extended attributes.
    pub fn xattrs(self, xattrs: Vec<(Vec<u8>, Vec<u8>)>) -> (r: FileBuilder)
        ensures
            r@.extents == self@.extents,
            r@.meta == (GMeta {
                xattrs: xattrs@.map_values(|p: (Vec<u8>, Vec<u8>)| crate::entry::xattr_view(p)),
                ..self@.meta
            }),
    {
        FileBuilder { extents: self.extents, meta: Metadata { xattrs, ..self.meta } }
    }

    /// Finish building.
    pub fn build(self) -> (r: File)
        ensures
            r@ == self@,
    {
        File { extents: self.extents, meta: self.meta }
    }
}

impl File {
    /// A builder whose every field starts at its default.
    pub fn builder() -> (r: FileBuilder)
        ensures
            r@ == GFile::empty(),
    {
        let r = FileBuilder { extents: Vec::new(), meta: Metadata::file_default() };
        proof {
            assert(r@.extents =~= GFile::empty().extents);
            assert(r@ =~= GFile::empty());
        }
        r
    }

    /// A file with no extents and default metadata.
    pub fn new_empty() -> (r: File)
        ensures
            r@ == GFile::empty(),
    {
        File::builder().build()
    }

    /// Whether the file holds no extents at all.
    pub fn is_empty(&self) -> (r: bool)
        ensures
            r == (self@.extents.len() == 0),
    {
        self.extents.len() == 0
    }

    /// Logical length: the starting offset of the last extent plus that
    /// extent's length, which for a well-formed file equals the number of
    /// content bytes.
    pub fn len(&self) -> (r: usize)
        requires
            self@.wf(),
        ensures
            r == self@.len(),
            r == self@.content().len(),
    {
        proof {
            lemma_contiguous_len(self@.extents);
        }
        if self.extents.len() == 0 {
            0
        } else {
            let last = &self.extents[self.extents.len() - 1];
            last.0 + last.1.len()
        }
    }

    /// Materialize the full logical content by walking the extents in
    /// ascending offset order.
    pub fn to_bytes(&self) -> (r: Vec<u8>)
        requires
            self@.wf(),
        ensures
            r@ == self@.content(),
    {
        let mut r: Vec<u8> = Vec::new();
        let mut i: usize = 0;
        while i < self.extents.len()
            invariant
                i <= self.extents.len(),
                r@ == cat_bytes(self@.extents.take(i as int)),
            decreases self.extents.len() - i,
        {
            let mut piece = clone_bytes(self.extents[i].1.data());
            r.append(&mut piece);
            proof {
                let pre = self@.extents.take(i + 1 as int);
                assert(pre.drop_last() =~= self@.extents.take(i as int));
                assert(pre.last() == self@.extents[i as int]);
            }
            i += 1;
        }
        proof {
            assert(self@.extents.take(self.extents@.len() as int) =~= self@.extents);
        }
        r
    }

    /// Slice the byte range `[start, end)` out of this file: one cloned
    /// piece per overlapping extent, clipped to the requested range, in
    /// ascending offset order. A range overlapping no extent yields an
    /// empty result.
    pub fn clone(&self, start: usize, end: usize) -> (r: Vec<Extent>)
        requires
            self@.wf(),
        ensures
            extents_view(r@) == clone_pieces(self@.extents, start as nat, end as nat),
            forall|i: int| 0 <= i < r@.len() ==> (#[trigger] r@[i])@.wf(),
    {
        let mut out: Vec<Extent> = Vec::new();
        let mut i: usize = 0;
        while i < self.extents.len()
            invariant
                self@.wf(),
                i <= self.extents.len(),
                extents_view(out@) == clone_pieces(
                    self@.extents.take(i as int),
                    start as nat,
                    end as nat,
                ),
            decreases self.extents.len() - i,
        {
            let ext_start = self.extents[i].0;
            let ext_len = self.extents[i].1.len();
            proof {
                lemma_offsets_bounded(self@.extents, i as int);
            }
            let ext_end = ext_start + ext_len;
            let s = if start > ext_start {
                start
            } else {
                ext_start
            };
            let en = if end < ext_end {
                end
            } else {
                ext_end
            };
            if s < en {
                let data = copy_range(self.extents[i].1.data(), s - ext_start, en - ext_start);
                out.push(Extent::Cloned { src_start: s, src_end: en, data });
            }
            proof {
                let pre = self@.extents.take(i + 1 as int);
                assert(pre.drop_last() =~= self@.extents.take(i as int));
                assert(pre.last() == self@.extents[i as int]);
                assert(extents_view(out@) =~= clone_pieces(pre, start as nat, end as nat));
            }
            i += 1;
        }
        proof {
            assert(self@.extents.take(self.extents@.len() as int) =~= self@.extents);
            lemma_clone_pieces_wf(self@.extents, start as nat, end as nat);
            assert(forall|j: int|
                0 <= j < out@.len() ==> (#[trigger] out@[j])@ == extents_view(out@)[j]);
        }
        out
    }

    /// Find the extent that contains the byte at `pos`: the last extent
    /// whose starting offset is at or before `pos`, provided `pos` does not
    /// pass that extent's end.
    pub fn extent_for_byte(&self, pos: usize) -> (r: Option<(usize, &Extent)>)
        ensures
            match r {
                Some(pr) => ({
                    let i = extent_index_at(self@.extents, pos as nat);
                    &&& i >= 0
                    &&& pr.0 == self@.extents[i].0
                    &&& pr.1@ == self@.extents[i].1
                    &&& pr.0 <= pos
                    &&& pos - pr.0 <= pr.1@.bytes().len()
                }),
                None => ({
                    let i = extent_index_at(self@.extents, pos as nat);
                    i == -1 || pos - self@.extents[i].0 > self@.extents[i].1.bytes().len()
                }),
            },
    {
        let mut i: usize = self.extents.len();
        proof {
            assert(self@.extents.take(i as int) =~= self@.extents);
        }
        while i > 0
            invariant
                i <= self.extents.len(),
                extent_index_at(self@.extents, pos as nat) == extent_index_at(
                    self@.extents.take(i as int),
                    pos as nat,
                ),
            decreases i,
        {
            proof {
                assert(self@.extents.take(i as int).drop_last() =~= self@.extents.take(i - 1));
                assert(self@.extents.take(i as int).last() == self@.extents[i - 1]);
            }
            let start = self.extents[i - 1].0;
            if start <= pos {
                let e = &self.extents[i - 1].1;
                if pos - start <= e.len() {
                    return Some((start, e));
                } else {
                    return None;
                }
            }
            i -= 1;
        }
        proof {
            assert(self@.extents.take(0) =~= Seq::<(nat, GExtent)>::empty());
        }
        None
    }

    /// Append one extent at the current end of the file.
    pub fn write(&mut self, e: Extent)
        requires
            old(self)@.wf(),
            e@.wf(),
            old(self)@.len() + e@.bytes().len() <= usize::MAX,
        ensures
            final(self)@ == old(self)@.append(e@),
            final(self)@.wf(),
    {
        proof {
            lemma_contiguous_len(self@.extents);
        }
        let off = self.len();
        self.extents.push((off, e));
        proof {
            assert(self@.extents =~= old(self)@.append(e@).extents);
            assert(self@ =~= old(self)@.append(e@));
            let n = self@.extents.len() as int;
            assert(forall|i: int| 0 <= i < n - 1 ==> self@.extents[i] == old(self)@.extents[i]);
            assert(contiguous(self@.extents));
        }
    }

    /// Whether two files have the same model: equal extent layout and equal
    /// metadata.
    pub fn same_as(&self, other: &File) -> (r: bool)
        ensures
            r == (self@ == other@),
    {
        if !self.meta.same_as(&other.meta) {
            proof {
                if self@ == other@ {
                    assert(self@.meta == other@.meta);
                }
            }
            return false;
        }
        if self.extents.len() != other.extents.len() {
            proof {
                if self@ == other@ {
                    assert(self@.extents.len() == other@.extents.len());
                }
            }
            return false;
        }
        let mut i: usize = 0;
        while i < self.extents.len()
            invariant
                self.extents@.len() == other.extents@.len(),
                self@.meta == other@.meta,
                i <= self.extents@.len(),
                forall|j: int| 0 <= j < i ==> self@.extents[j] == other@.extents[j],
            decreases self.extents@.len() - i,
        {
            proof {
                assert(self@.extents[i as int] == (
                    self.extents@[i as int].0 as nat,
                    self.extents@[i as int].1@,
                ));
                assert(other@.extents[i as int] == (
                    other.extents@[i as int].0 as nat,
                    other.extents@[i as int].1@,
                ));
            }
            if self.extents[i].0 != other.extents[i].0 {
                proof {
                    if self@ == other@ {
                        assert(self@.extents[i as int] == other@.extents[i as int]);
                    }
                }
                return false;
            }
            if !self.extents[i].1.same_as(&other.extents[i].1) {
                proof {
                    if self@ == other@ {
                        assert(self@.extents[i as int] == other@.extents[i as int]);
                    }
                }
                return false;
            }
            i += 1;
        }
        proof {
            assert(self@.extents =~= other@.extents);
            assert(self@ =~= other@);
        }
        true
    }

    /// Deep copy with an identical model.
    pub fn dup(&self) -> (r: File)
        ensures
            r@ == self@,
    {
        let mut extents: Vec<(usize, Extent)> = Vec::new();
        let mut i: usize = 0;
        while i < self.extents.len()
            invariant
                i <= self.extents.len(),
                extents@.len() == i,
                forall|j: int|
                    0 <= j < i ==> (#[trigger] extents@[j]).0 == self.extents@[j].0
                        && extents@[j].1@ == self.extents@[j].1@,
            decreases self.extents.len() - i,
        {
            let start = self.extents[i].0;
            extents.push((start, self.extents[i].1.dup()));
            i += 1;
        }
        let r = File { extents, meta: self.meta.dup() };
        proof {
            assert forall|j: int|
                0 <= j < r@.extents.len() implies r@.extents[j] == self@.extents[j] by {
                assert(r@.extents[j] == (extents@[j].0 as nat, extents@[j].1@));
                assert(self@.extents[j] == (self.extents@[j].0 as nat, self.extents@[j].1@));
            }
            assert(r@.extents =~= self@.extents);
            assert(r@ =~= self@);
        }
        r
    }
}

/// In a contiguous run every starting offset is at most the end offset, so
/// each fits a machine word whenever the end offset does.
pub proof fn lemma_offsets_bounded(exts: Seq<(nat, GExtent)>, i: int)
    requires
        contiguous(exts),
        0 <= i < exts.len(),
    ensures
        exts[i].0 + exts[i].1.bytes().len() <= end_offset(exts),
    decreases exts.len(),
{
    if i < exts.len() - 1 {
        let pre = exts.drop_last();
        assert(contiguous(pre));
        lemma_offsets_bounded(pre, i);
        assert(exts[exts.len() - 1].0 == exts[exts.len() - 2].0 + exts[exts.len()
            - 2].1.bytes().len());
    }
}

} // verus!
