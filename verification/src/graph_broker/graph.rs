//! Plain graph element types: item identifiers, edge records, orientations
//! and path names with optional coordinates.

use vstd::prelude::*;

use crate::util::bytes_eq;

verus! {

/// Identifier of a countable graph element (a node or an edge).
#[derive(Debug, Clone, Copy, PartialEq, Eq, Structural, Hash, PartialOrd, Ord)]
pub struct ItemId(pub u32);

/// Direction in which a node is traversed.
#[derive(Debug, Clone, Copy, PartialEq, Eq, Structural, Hash)]
pub enum Orientation {
    Forward,
    Backward,
}

impl Orientation {
    /// The opposite direction.
    pub fn flip(&self) -> (res: Orientation)
        ensures
            *self == Orientation::Forward ==> res == Orientation::Backward,
            *self == Orientation::Backward ==> res == Orientation::Forward,
    {
        match self {
            Orientation::Forward => Orientation::Backward,
            Orientation::Backward => Orientation::Forward,
        }
    }
}

/// A directed edge: the two incident nodes with the orientation in which
/// each is entered.
#[derive(Debug, Clone, Copy, PartialEq, Eq, Structural, Hash)]
pub struct Edge(pub ItemId, pub Orientation, pub ItemId, pub Orientation);

/// A path name of the form `sample[#haplotype[#sequence]]`, optionally
/// restricted to a half-open coordinate interval. Name parts are kept as
/// byte strings, exactly as they stand in the input.
#[derive(Debug, Clone, Eq, Hash)]
pub struct PathSegment {
    pub sample: Vec<u8>,
    pub haplotype: Option<Vec<u8>>,
    pub seqid: Option<Vec<u8>>,
    pub start: Option<usize>,
    pub end: Option<usize>,
}

/// Equality of optional byte strings, compared by content.
pub open spec fn opt_bytes_eq_spec(a: Option<Vec<u8>>, b: Option<Vec<u8>>) -> bool {
    match (a, b) {
        (Option::None, Option::None) => true,
        (Option::Some(x), Option::Some(y)) => x@ == y@,
        _ => false,
    }
}

/// Content equality of optional byte strings.
pub fn opt_bytes_eq(a: &Option<Vec<u8>>, b: &Option<Vec<u8>>) -> (res: bool)
    ensures
        res <==> opt_bytes_eq_spec(*a, *b),
{
    match (a, b) {
        (Option::None, Option::None) => true,
        (Option::Some(x), Option::Some(y)) => bytes_eq(x.as_slice(), y.as_slice()),
        _ => false,
    }
}

impl PathSegment {
    /// What it means for two path segments to name the same path slice:
    /// the name parts agree by content and the coordinates agree.
    pub open spec fn eq_spec_full(&self, other: &PathSegment) -> bool {
        &&& self.sample@ == other.sample@
        &&& opt_bytes_eq_spec(self.haplotype, other.haplotype)
        &&& opt_bytes_eq_spec(self.seqid, other.seqid)
        &&& self.start == other.start
        &&& self.end == other.end
    }

    /// A segment made of a bare sample name.
    pub fn from_sample(sample: Vec<u8>) -> (res: PathSegment)
        ensures
            res.sample == sample,
            res.haplotype is None,
            res.seqid is None,
            res.start is None,
            res.end is None,
    {
        PathSegment { sample, haplotype: None, seqid: None, start: None, end: None }
    }

    /// A fully specified segment.
    pub fn new(
        sample: Vec<u8>,
        haplotype: Vec<u8>,
        seqid: Vec<u8>,
        start: Option<usize>,
        end: Option<usize>,
    ) -> (res: PathSegment)
        ensures
            res.sample == sample,
            res.haplotype == Some(haplotype),
            res.seqid == Some(seqid),
            res.start == start,
            res.end == end,
    {
        PathSegment { sample, haplotype: Some(haplotype), seqid: Some(seqid), start, end }
    }

    /// The coordinate interval, when both ends are given.
    pub fn coords(&self) -> (res: Option<(usize, usize)>)
        ensures
            res == (if self.start is Some && self.end is Some {
                Some((self.start->0, self.end->0))
            } else {
                None::<(usize, usize)>
            }),
    {
        match (self.start, self.end) {
            (Some(s), Some(e)) => Some((s, e)),
            _ => None,
        }
    }

    /// The same path name without coordinates.
    pub fn clear_coords(&self) -> (res: PathSegment)
        ensures
            res.sample@ == self.sample@,
            opt_bytes_eq_spec(res.haplotype, self.haplotype),
            opt_bytes_eq_spec(res.seqid, self.seqid),
            res.start is None,
            res.end is None,
    {
        PathSegment {
            sample: clone_bytes(&self.sample),
            haplotype: clone_opt_bytes(&self.haplotype),
            seqid: clone_opt_bytes(&self.seqid),
            start: None,
            end: None,
        }
    }

    /// Whether the name parts (ignoring coordinates) agree with `other`'s.
    pub fn same_id(&self, other: &PathSegment) -> (res: bool)
        ensures
            res <==> (self.sample@ == other.sample@ && opt_bytes_eq_spec(
                self.haplotype,
                other.haplotype,
            ) && opt_bytes_eq_spec(self.seqid, other.seqid)),
    {
        bytes_eq(self.sample.as_slice(), other.sample.as_slice()) && opt_bytes_eq(
            &self.haplotype,
            &other.haplotype,
        ) && opt_bytes_eq(&self.seqid, &other.seqid)
    }

    /// Whether `self` names a piece of `other`: the names agree and, when
    /// `other` carries coordinates, `self`'s coordinates lie inside them.
    pub fn is_part_of(&self, other: &PathSegment) -> (res: bool)
        ensures
            res <==> (self.sample@ == other.sample@ && opt_bytes_eq_spec(
                self.haplotype,
                other.haplotype,
            ) && opt_bytes_eq_spec(self.seqid, other.seqid) && (match (other.start, other.end) {
                (Some(os), Some(oe)) => match (self.start, self.end) {
                    (Some(s), Some(e)) => os <= s && e <= oe,
                    _ => false,
                },
                _ => true,
            })),
    {
        if !self.same_id(other) {
            return false;
        }
        match (other.start, other.end) {
            (Some(os), Some(oe)) => match (self.start, self.end) {
                (Some(s), Some(e)) => os <= s && e <= oe,
                _ => false,
            },
            _ => true,
        }
    }

    /// The path's identifier: its name parts joined by `#`, without
    /// coordinates.
    pub fn id(&self) -> (res: Vec<u8>)
        ensures
            res@ == path_id_bytes(self),
    {
        let mut out = clone_bytes(&self.sample);
        match &self.haplotype {
            Some(h) => {
                out.push(35u8);
                let mut k: usize = 0;
                while k < h.len()
                    invariant
                        0 <= k <= h@.len(),
                        out@ == self.sample@ + seq![35u8] + h@.take(k as int),
                    decreases h@.len() - k,
                {
                    out.push(h[k]);
                    proof {
                        assert(h@.take(k + 1 as int) =~= h@.take(k as int).push(h@[k as int]));
                        assert(self.sample@ + seq![35u8] + h@.take(k + 1 as int) =~= (self.sample@
                            + seq![35u8] + h@.take(k as int)).push(h@[k as int]));
                    }
                    k += 1;
                }
                proof {
                    assert(h@.take(h@.len() as int) =~= h@);
                }
            },
            None => {},
        }
        match &self.seqid {
            Some(q) => {
                let ghost pre = out@;
                out.push(35u8);
                let mut k: usize = 0;
                while k < q.len()
                    invariant
                        0 <= k <= q@.len(),
                        out@ == pre + seq![35u8] + q@.take(k as int),
                    decreases q@.len() - k,
                {
                    out.push(q[k]);
                    proof {
                        assert(q@.take(k + 1 as int) =~= q@.take(k as int).push(q@[k as int]));
                        assert(pre + seq![35u8] + q@.take(k + 1 as int) =~= (pre + seq![35u8]
                            + q@.take(k as int)).push(q@[k as int]));
                    }
                    k += 1;
                }
                proof {
                    assert(q@.take(q@.len() as int) =~= q@);
                    assert(out@ =~= path_id_bytes(self));
                }
            },
            None => {
                proof {
                    assert(out@ =~= path_id_bytes(self));
                }
            },
        }
        out
    }
}

/// The byte form of a path's identifier: name parts joined by `#`.
pub open spec fn path_id_bytes(seg: &PathSegment) -> Seq<u8> {
    seg.sample@ + (match seg.haplotype {
        Some(h) => seq![35u8] + h@,
        None => Seq::empty(),
    }) + (match seg.seqid {
        Some(q) => seq![35u8] + q@,
        None => Seq::empty(),
    })
}

impl PartialEq for PathSegment {
    fn eq(&self, other: &PathSegment) -> (res: bool) {
        self.same_id(other) && self.start == other.start && self.end == other.end
    }
}

impl vstd::std_specs::cmp::PartialEqSpecImpl for PathSegment {
    open spec fn obeys_eq_spec() -> bool {
        true
    }

    open spec fn eq_spec(&self, other: &PathSegment) -> bool {
        self.eq_spec_full(other)
    }
}

/// A copy of a byte string.
pub fn clone_bytes(v: &Vec<u8>) -> (res: Vec<u8>)
    ensures
        res@ == v@,
{
    let mut out: Vec<u8> = Vec::new();
    let mut k: usize = 0;
    while k < v.len()
        invariant
            0 <= k <= v@.len(),
            out@ == v@.take(k as int),
        decreases v@.len() - k,
    {
        out.push(v[k]);
        proof {
            assert(v@.take(k + 1 as int) =~= v@.take(k as int).push(v@[k as int]));
        }
        k += 1;
    }
    proof {
        assert(v@.take(v@.len() as int) =~= v@);
    }
    out
}

/// A copy of an index array.
pub fn clone_usizes(v: &Vec<usize>) -> (res: Vec<usize>)
    ensures
        res@ == v@,
{
    let mut out: Vec<usize> = Vec::new();
    let mut k: usize = 0;
    while k < v.len()
        invariant
            0 <= k <= v@.len(),
            out@ == v@.take(k as int),
        decreases v@.len() - k,
    {
        out.push(v[k]);
        proof {
            assert(v@.take(k + 1 as int) =~= v@.take(k as int).push(v@[k as int]));
        }
        k += 1;
    }
    proof {
        assert(v@.take(v@.len() as int) =~= v@);
    }
    out
}

/// A copy of an interval list.
pub fn clone_intervals(v: &Vec<(usize, usize)>) -> (res: Vec<(usize, usize)>)
    ensures
        res@ == v@,
{
    let mut out: Vec<(usize, usize)> = Vec::new();
    let mut k: usize = 0;
    while k < v.len()
        invariant
            0 <= k <= v@.len(),
            out@ == v@.take(k as int),
        decreases v@.len() - k,
    {
        out.push(v[k]);
        proof {
            assert(v@.take(k + 1 as int) =~= v@.take(k as int).push(v@[k as int]));
        }
        k += 1;
    }
    proof {
        assert(v@.take(v@.len() as int) =~= v@);
    }
    out
}

/// A copy of an optional byte string.
pub fn clone_opt_bytes(v: &Option<Vec<u8>>) -> (res: Option<Vec<u8>>)
    ensures
        opt_bytes_eq_spec(res, *v),
{
    match v {
        Some(x) => Some(clone_bytes(x)),
        None => None,
    }
}

} // verus!
