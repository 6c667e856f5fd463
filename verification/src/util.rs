//! Shared plain data types of the engine: count kinds, the per-path item
//! table consumed by the coverage builders, the exclusion bitset, and the
//! error type of the library.

use vstd::prelude::*;

verus! {

/// Integer width used for item (node/edge) identifiers.
pub type ItemIdSize = u32;

/// Integer width used for group identifiers.
pub type GroupSize = u16;

/// Integer width used for per-(item, group) occurrence counts.
pub type CountSize = u32;

/// Which graph quantity is being counted.
#[derive(Debug, Clone, Copy, PartialEq, Eq, Structural, Hash)]
pub enum CountType {
    Node,
    Edge,
    Bp,
    All,
}

/// Errors of the engine. Configuration errors signal inputs that refer to
/// unknown entities; invariant errors signal structurally inconsistent
/// inputs; size errors signal inputs beyond machine limits.
#[derive(Debug, Clone, Copy, PartialEq, Eq, Structural)]
pub enum CoreError {
    /// A referenced path is not a known path.
    UnknownPath,
    /// Path-to-group assignments are not contiguous per group.
    UngroupedOrder,
    /// An item table, path order or companion array is inconsistent.
    MalformedInput,
    /// A size bound of the machine representation would be exceeded.
    TooLarge,
    /// Two coverage tables that must agree do not.
    MismatchedAbaci,
}

/// Per-path item membership in CSR form: `items[id_prefsum[p]..id_prefsum[p+1]]`
/// are the item occurrences of path `p`, in path order.
#[derive(Debug)]
pub struct ItemTable {
    pub id_prefsum: Vec<usize>,
    pub items: Vec<ItemIdSize>,
}

impl ItemTable {
    /// Structural soundness: offsets start at zero, never decrease, and end
    /// exactly at the occurrence array's length.
    pub open spec fn wf(&self) -> bool {
        &&& self.id_prefsum@.len() >= 1
        &&& self.id_prefsum@[0] == 0
        &&& forall|a: int, b: int|
            0 <= a <= b < self.id_prefsum@.len() ==> self.id_prefsum@[a] <= self.id_prefsum@[b]
        &&& self.id_prefsum@[self.id_prefsum@.len() - 1] == self.items@.len()
    }

    /// An empty table over `n_paths` paths.
    pub fn new(n_paths: usize) -> (res: ItemTable)
        requires
            n_paths < usize::MAX,
        ensures
            res.wf(),
            res.id_prefsum@.len() == n_paths + 1,
            res.items@.len() == 0,
            forall|a: int| 0 <= a < res.id_prefsum@.len() ==> res.id_prefsum@[a] == 0,
    {
        ItemTable { id_prefsum: vec![0usize; n_paths + 1], items: Vec::new() }
    }
}

/// Bitset over item identifiers; a `true` entry marks the item as excluded
/// from all coverage counts.
#[derive(Debug)]
pub struct ActiveTable {
    pub items: Vec<bool>,
}

/// Whether item `i` is marked in an optional exclusion table.
pub open spec fn excluded(ex: &Option<ActiveTable>, i: int) -> bool {
    match ex {
        Option::Some(t) => 0 <= i < t.items@.len() && t.items@[i],
        Option::None => false,
    }
}

/// Whether the half-open intervals `a` and `b` overlap.
pub open spec fn spec_intervals_overlap(a: (usize, usize), b: (usize, usize)) -> bool {
    a.0 < b.1 && b.0 < a.1
}

/// True when some interval of `v` overlaps the half-open interval `el`.
pub fn intersects(v: &[(usize, usize)], el: &(usize, usize)) -> (res: bool)
    ensures
        res <==> exists|k: int| 0 <= k < v@.len() && spec_intervals_overlap(v@[k], *el),
{
    let mut k: usize = 0;
    while k < v.len()
        invariant
            0 <= k <= v@.len(),
            forall|j: int| 0 <= j < k ==> !spec_intervals_overlap(v@[j], *el),
        decreases v@.len() - k,
    {
        if v[k].0 < el.1 && el.0 < v[k].1 {
            return true;
        }
        k += 1;
    }
    false
}

/// True when some single interval of `v` fully contains the half-open
/// interval `el`.
pub fn is_contained(v: &[(usize, usize)], el: &(usize, usize)) -> (res: bool)
    ensures
        res <==> exists|k: int| 0 <= k < v@.len() && v@[k].0 <= el.0 && el.1 <= v@[k].1,
{
    let mut k: usize = 0;
    while k < v.len()
        invariant
            0 <= k <= v@.len(),
            forall|j: int| 0 <= j < k ==> !(v@[j].0 <= el.0 && el.1 <= v@[j].1),
        decreases v@.len() - k,
    {
        if v[k].0 <= el.0 && el.1 <= v[k].1 {
            return true;
        }
        k += 1;
    }
    false
}

/// True when the byte slices hold the same bytes.
pub fn bytes_eq(a: &[u8], b: &[u8]) -> (res: bool)
    ensures
        res <==> a@ == b@,
{
    if a.len() != b.len() {
        return false;
    }
    let mut k: usize = 0;
    while k < a.len()
        invariant
            0 <= k <= a@.len(),
            a@.len() == b@.len(),
            forall|j: int| 0 <= j < k ==> a@[j] == b@[j],
        decreases a@.len() - k,
    {
        if a[k] != b[k] {
            return false;
        }
        k += 1;
    }
    proof {
        assert(a@ =~= b@);
    }
    true
}

/// Sum of the first `j` entries of `s`.
pub open spec fn sum_prefix(s: Seq<usize>, j: int) -> int
    decreases j,
{
    if j <= 0 {
        0
    } else {
        sum_prefix(s, j - 1) + s[j - 1]
    }
}

/// Partial sums of non-negative entries never decrease.
pub proof fn lemma_sum_prefix_mono(s: Seq<usize>, j1: int, j2: int)
    requires
        0 <= j1 <= j2 <= s.len(),
    ensures
        sum_prefix(s, j1) <= sum_prefix(s, j2),
    decreases j2 - j1,
{
    if j1 < j2 {
        lemma_sum_prefix_mono(s, j1, j2 - 1);
    }
}

/// Adjacent monotonicity extends to any pair of positions.
pub proof fn lemma_mono_range(s: Seq<usize>, a: int, b: int)
    requires
        forall|t: int| 0 <= t && t + 1 < s.len() ==> #[trigger] s[t] <= s[t + 1],
        0 <= a <= b < s.len(),
    ensures
        s[a] <= s[b],
    decreases b - a,
{
    if a < b {
        lemma_mono_range(s, a, b - 1);
        assert(s[b - 1] <= s[b]);
    }
}

/// A sum over zero entries is zero.
pub proof fn lemma_sum_prefix_zero(s: Seq<usize>, j: int)
    requires
        0 <= j <= s.len(),
        forall|t: int| 0 <= t < j ==> s[t] == 0,
    ensures
        sum_prefix(s, j) == 0,
    decreases j,
{
    if j > 0 {
        lemma_sum_prefix_zero(s, j - 1);
    }
}

/// How a partial sum changes when one entry is replaced.
pub proof fn lemma_sum_prefix_update(s: Seq<usize>, idx: int, v: usize, j: int)
    requires
        0 <= idx < s.len(),
        0 <= j <= s.len(),
    ensures
        sum_prefix(s.update(idx, v), j) == sum_prefix(s, j) + (if idx < j {
            v - s[idx]
        } else {
            0
        }),
    decreases j,
{
    if j > 0 {
        lemma_sum_prefix_update(s, idx, v, j - 1);
        assert(s.update(idx, v)[j - 1] == (if idx == j - 1 {
            v
        } else {
            s[j - 1]
        }));
    }
}

/// True when the index arrays hold the same values.
pub fn eq_usizes(a: &Vec<usize>, b: &Vec<usize>) -> (res: bool)
    ensures
        res <==> a@ == b@,
{
    if a.len() != b.len() {
        return false;
    }
    let mut k: usize = 0;
    while k < a.len()
        invariant
            0 <= k <= a@.len(),
            a@.len() == b@.len(),
            forall|j: int| 0 <= j < k ==> a@[j] == b@[j],
        decreases a@.len() - k,
    {
        if a[k] != b[k] {
            return false;
        }
        k += 1;
    }
    proof {
        assert(a@ =~= b@);
    }
    true
}

/// True when `v` holds `x`.
pub fn contains_usize(v: &[usize], x: usize) -> (res: bool)
    ensures
        res <==> v@.contains(x),
{
    let mut k: usize = 0;
    while k < v.len()
        invariant
            0 <= k <= v@.len(),
            forall|j: int| 0 <= j < k ==> v@[j] != x,
        decreases v@.len() - k,
    {
        if v[k] == x {
            assert(v@[k as int] == x);
            return true;
        }
        k += 1;
    }
    false
}

} // verus!
