use vstd::prelude::*;

verus! {

/// Mathematical model of an [`Extent`]: either bytes owned outright, or bytes
/// sliced out of a source file's byte range `[lo, hi)` and captured at clone
/// time.
#[verifier::ext_equal]
pub enum GExtent {
    Owned { data: Seq<u8> },
    Cloned { lo: nat, hi: nat, data: Seq<u8> },
}

impl GExtent {
    /// The bytes this extent contributes to its file's content.
    pub open spec fn bytes(self) -> Seq<u8> {
        match self {
            GExtent::Owned { data } => data,
            GExtent::Cloned { lo: _, hi: _, data } => data,
        }
    }

    /// A cloned extent's cached bytes cover exactly the range it was sliced
    /// from.
    pub open spec fn wf(self) -> bool {
        match self {
            GExtent::Owned { data: _ } => true,
            GExtent::Cloned { lo, hi, data } => lo <= hi && data.len() == hi - lo,
        }
    }
}

/// A contiguous run of bytes within a file's content. `Cloned` records the
/// source byte range it was sliced from; the bytes themselves are captured at
/// the moment of cloning, so a clone is a fixed snapshot of the source, never
/// a live alias that would change if the source later mutates.
#[derive(Debug)]
pub enum Extent {
    Owned { data: Vec<u8> },
    Cloned { src_start: usize, src_end: usize, data: Vec<u8> },
}

impl View for Extent {
    type V = GExtent;

    open spec fn view(&self) -> GExtent {
        match self {
            Extent::Owned { data } => GExtent::Owned { data: data@ },
            Extent::Cloned { src_start, src_end, data } => GExtent::Cloned {
                lo: *src_start as nat,
                hi: *src_end as nat,
                data: data@,
            },
        }
    }
}

/// Whether two byte vectors hold the same bytes.
pub fn bytes_eq(a: &Vec<u8>, b: &Vec<u8>) -> (r: bool)
    ensures
        r == (a@ == b@),
{
    if a.len() != b.len() {
        return false;
    }
    let mut i: usize = 0;
    while i < a.len()
        invariant
            a@.len() == b@.len(),
            i <= a@.len(),
            forall|j: int| 0 <= j < i ==> a@[j] == b@[j],
        decreases a@.len() - i,
    {
        if a[i] != b[i] {
            return false;
        }
        i += 1;
    }
    proof {
        assert(a@ =~= b@);
    }
    true
}

/// Copy a byte vector.
pub fn clone_bytes(v: &Vec<u8>) -> (r: Vec<u8>)
    ensures
        r@ == v@,
{
    let mut r: Vec<u8> = Vec::new();
    let mut i: usize = 0;
    while i < v.len()
        invariant
            i <= v.len(),
            r@ == v@.take(i as int),
        decreases v.len() - i,
    {
        r.push(v[i]);
        proof {
            assert(r@ =~= v@.take(i + 1 as int));
        }
        i += 1;
    }
    proof {
        assert(r@ =~= v@);
    }
    r
}

impl Extent {
    /// The number of content bytes this extent holds.
    pub fn len(&self) -> (r: usize)
        ensures
            r == self@.bytes().len(),
    {
        match self {
            Extent::Owned { data } => data.len(),
            Extent::Cloned { src_start: _, src_end: _, data } => data.len(),
        }
    }

    /// The content bytes this extent holds.
    pub fn data(&self) -> (r: &Vec<u8>)
        ensures
            r@ == self@.bytes(),
    {
        match self {
            Extent::Owned { data } => data,
            Extent::Cloned { src_start: _, src_end: _, data } => data,
        }
    }

    /// Whether two extents have the same model: same kind, same source
    /// range, same bytes.
    pub fn same_as(&self, other: &Extent) -> (r: bool)
        ensures
            r == (self@ == other@),
    {
        match (self, other) {
            (Extent::Owned { data: d1 }, Extent::Owned { data: d2 }) => bytes_eq(d1, d2),
            (
                Extent::Cloned { src_start: s1, src_end: e1, data: d1 },
                Extent::Cloned { src_start: s2, src_end: e2, data: d2 },
            ) => *s1 == *s2 && *e1 == *e2 && bytes_eq(d1, d2),
            _ => false,
        }
    }

    /// Deep copy with an identical model.
    pub fn dup(&self) -> (r: Extent)
        ensures
            r@ == self@,
    {
        match self {
            Extent::Owned { data } => Extent::Owned { data: clone_bytes(data) },
            Extent::Cloned { src_start, src_end, data } => Extent::Cloned {
                src_start: *src_start,
                src_end: *src_end,
                data: clone_bytes(data),
            },
        }
    }
}

} // verus!
