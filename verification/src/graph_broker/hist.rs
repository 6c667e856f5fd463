//! Coverage histograms: the one-dimensional frequency distribution of item
//! coverage, and its two-dimensional form correlating the coverage of two
//! group partitions over the same item universe.

use vstd::prelude::*;

use crate::graph_broker::abacus::{
    bp_tally, bp_tally_at, count_eq, count_eq_at, lemma_sum_lens_mono, lemma_sum_lens_nonneg,
    sum_lens, sum_lens_at, AbacusByTotal,
};
use crate::util::{eq_usizes, CoreError, CountSize, CountType};

verus! {

/// The coverage histogram: `coverage[k]` is the number of items (or, for
/// base-pair counting, the number of base pairs) covered by exactly `k`
/// groups. Index zero holds the uncovered mass.
#[derive(Debug)]
pub struct Hist {
    pub count: CountType,
    pub coverage: Vec<usize>,
}

impl Hist {
    /// Derives the histogram from a total coverage table. For node and
    /// edge counting every item adds one to its coverage's bin; for
    /// base-pair counting it adds its covered length, with all uncovered
    /// length pooled in bin zero.
    pub fn from_abacus(abacus: &AbacusByTotal, node_lens: Option<&Vec<u32>>) -> (res: Hist)
        requires
            abacus.count != CountType::All,
            abacus.groups@.len() < usize::MAX,
            abacus.countable@.len() < usize::MAX,
            abacus.count == CountType::Bp ==> (node_lens matches Some(l) && l@.len()
                == abacus.countable@.len() && (abacus.uncovered_bps matches Some(u) && u@.len()
                == abacus.countable@.len() && (forall|t: int|
                0 <= t < u@.len() ==> (#[trigger] u@[t]) <= l@[t])) && sum_lens(
                l@,
                l@.len() as int,
            ) <= usize::MAX),
        ensures
            res.count == abacus.count,
            res.coverage@.len() == abacus.groups@.len() + 1,
            (abacus.count == CountType::Node || abacus.count == CountType::Edge) ==> forall|k: int|
                0 <= k < res.coverage@.len() ==> (#[trigger] res.coverage@[k]) as nat == count_eq(
                    abacus.countable@,
                    k,
                    abacus.countable@.len() as int,
                ),
            abacus.count == CountType::Bp ==> (node_lens matches Some(l)
                && abacus.uncovered_bps matches Some(u) && (forall|k: int|
                0 <= k < res.coverage@.len() ==> (#[trigger] res.coverage@[k]) as int == bp_tally(
                    abacus.countable@,
                    l@,
                    u@,
                    res.coverage@.len() as int,
                    k,
                    abacus.countable@.len() as int,
                ))),
    {
        let coverage = match abacus.count {
            CountType::Node | CountType::Edge => abacus.construct_hist(),
            CountType::Bp => {
                let lens = match node_lens {
                    Some(l) => l,
                    None => {
                        proof {
                            assert(false);
                        }
                        return Hist { count: abacus.count, coverage: Vec::new() };
                    },
                };
                abacus.construct_hist_bps(lens)
            },
            CountType::All => {
                proof {
                    assert(false);
                }
                return Hist { count: abacus.count, coverage: Vec::new() };
            },
        };
        Hist { count: abacus.count, coverage }
    }

    /// Derives the histogram restricted to a caller-given list of item
    /// indices; for base-pair counting a caller-supplied uncovered map
    /// replaces the table's own.
    pub fn from_abacus_for_window(
        abacus: &AbacusByTotal,
        node_lens: Option<&Vec<u32>>,
        indices: &Vec<usize>,
        uncovered_bps: Option<Vec<usize>>,
    ) -> (res: Hist)
        requires
            abacus.count != CountType::All,
            abacus.groups@.len() < usize::MAX,
            indices@.len() < usize::MAX,
            forall|t: int|
                0 <= t < indices@.len() ==> (#[trigger] indices@[t]) < abacus.countable@.len(),
            abacus.count == CountType::Bp ==> (node_lens matches Some(l) && l@.len()
                == abacus.countable@.len() && (uncovered_bps matches Some(u) && u@.len()
                == abacus.countable@.len() && (forall|t: int|
                0 <= t < indices@.len() ==> u@[(#[trigger] indices@[t]) as int] <= l@[indices@[t] as int]))
                && sum_lens_at(l@, indices@, indices@.len() as int) <= usize::MAX),
        ensures
            res.count == abacus.count,
            res.coverage@.len() == abacus.groups@.len() + 1,
            (abacus.count == CountType::Node || abacus.count == CountType::Edge) ==> forall|k: int|
                0 <= k < res.coverage@.len() ==> (#[trigger] res.coverage@[k]) as nat
                    == count_eq_at(abacus.countable@, indices@, k, indices@.len() as int),
            abacus.count == CountType::Bp ==> (node_lens matches Some(l) && uncovered_bps matches Some(u)
                && (forall|k: int|
                0 <= k < res.coverage@.len() ==> (#[trigger] res.coverage@[k]) as int
                    == bp_tally_at(
                    abacus.countable@,
                    l@,
                    u@,
                    indices@,
                    res.coverage@.len() as int,
                    k,
                    indices@.len() as int,
                ))),
    {
        let coverage = match abacus.count {
            CountType::Node | CountType::Edge => abacus.construct_hist_from_set(indices),
            CountType::Bp => {
                let lens = match node_lens {
                    Some(l) => l,
                    None => {
                        proof {
                            assert(false);
                        }
                        return Hist { count: abacus.count, coverage: Vec::new() };
                    },
                };
                let uncov = match &uncovered_bps {
                    Some(u) => u,
                    None => {
                        proof {
                            assert(false);
                        }
                        return Hist { count: abacus.count, coverage: Vec::new() };
                    },
                };
                abacus.construct_hist_bps_of_subset(lens, indices, uncov)
            },
            CountType::All => {
                proof {
                    assert(false);
                }
                return Hist { count: abacus.count, coverage: Vec::new() };
            },
        };
        Hist { count: abacus.count, coverage }
    }
}

/// Pairs of coverages tallied over the first `j` items: bin `(k1, k2)`
/// counts items covered by `k1` groups of the first partition and `k2`
/// groups of the second; out-of-range pairs are ignored.
pub open spec fn count_eq2(
    ca: Seq<CountSize>,
    cb: Seq<CountSize>,
    n1: int,
    n2: int,
    k1: int,
    k2: int,
    j: int,
) -> nat
    decreases j,
{
    if j <= 0 {
        0nat
    } else {
        count_eq2(ca, cb, n1, n2, k1, k2, j - 1) + (if (ca[j - 1] as int) < n1 && (cb[j - 1] as int)
            < n2 && ca[j - 1] as int == k1 && cb[j - 1] as int == k2 {
            1nat
        } else {
            0nat
        })
    }
}

/// A pair tally over `j` items never exceeds `j`.
pub proof fn lemma_count_eq2_le(
    ca: Seq<CountSize>,
    cb: Seq<CountSize>,
    n1: int,
    n2: int,
    k1: int,
    k2: int,
    j: int,
)
    ensures
        count_eq2(ca, cb, n1, n2, k1, k2, j) <= (if j <= 0 {
            0int
        } else {
            j
        }),
    decreases j,
{
    if j > 0 {
        lemma_count_eq2_le(ca, cb, n1, n2, k1, k2, j - 1);
    }
}

/// Base-pair mass of the joint bin `(k1, k2)` over the first `j` items: an
/// item within both partitions' ranges adds its covered length to its own
/// cell and its uncovered length to the origin cell.
pub open spec fn bp_tally2(
    ca: Seq<CountSize>,
    cb: Seq<CountSize>,
    lens: Seq<u32>,
    uncov: Seq<usize>,
    n1: int,
    n2: int,
    k1: int,
    k2: int,
    j: int,
) -> int
    decreases j,
{
    if j <= 0 {
        0
    } else {
        bp_tally2(ca, cb, lens, uncov, n1, n2, k1, k2, j - 1) + (if (ca[j - 1] as int) < n1 && (cb[j
            - 1] as int) < n2 && ca[j - 1] as int == k1 && cb[j - 1] as int == k2 {
            lens[j - 1] - uncov[j - 1]
        } else {
            0int
        }) + (if (ca[j - 1] as int) < n1 && (cb[j - 1] as int) < n2 && k1 == 0 && k2 == 0 {
            uncov[j - 1] as int
        } else {
            0int
        })
    }
}

/// Joint base-pair masses are non-negative and never exceed the total
/// length.
pub proof fn lemma_bp_tally2_bounds(
    ca: Seq<CountSize>,
    cb: Seq<CountSize>,
    lens: Seq<u32>,
    uncov: Seq<usize>,
    n1: int,
    n2: int,
    k1: int,
    k2: int,
    j: int,
)
    requires
        forall|t: int| 0 <= t < j ==> (#[trigger] uncov[t]) <= lens[t],
    ensures
        0 <= bp_tally2(ca, cb, lens, uncov, n1, n2, k1, k2, j),
        bp_tally2(ca, cb, lens, uncov, n1, n2, k1, k2, j) <= sum_lens(lens, j),
    decreases j,
{
    if j > 0 {
        lemma_bp_tally2_bounds(ca, cb, lens, uncov, n1, n2, k1, k2, j - 1);
        assert(uncov[j - 1] <= lens[j - 1]);
    }
}

/// Sums the node lengths, reporting when the total does not fit the
/// machine word.
fn sum_lens_checked(lens: &Vec<u32>) -> (res: Option<usize>)
    ensures
        match res {
            Some(s) => s as int == sum_lens(lens@, lens@.len() as int) && sum_lens(
                lens@,
                lens@.len() as int,
            ) <= usize::MAX,
            None => sum_lens(lens@, lens@.len() as int) > usize::MAX,
        },
{
    let mut acc: usize = 0;
    let mut i: usize = 0;
    while i < lens.len()
        invariant
            0 <= i <= lens@.len(),
            acc as int == sum_lens(lens@, i as int),
        decreases lens@.len() - i,
    {
        proof {
            assert(sum_lens(lens@, i + 1 as int) == sum_lens(lens@, i as int) + lens@[i as int]);
        }
        let x = lens[i] as usize;
        if x > usize::MAX - acc {
            proof {
                lemma_sum_lens_mono(lens@, i + 1 as int, lens@.len() as int);
            }
            return None;
        }
        acc = acc + x;
        i += 1;
    }
    Some(acc)
}

/// The two-dimensional coverage histogram: `coverage[k1][k2]` counts the
/// items covered by `k1` groups of one partition and `k2` of the other.
#[derive(Debug)]
pub struct Hist3D {
    pub count: CountType,
    pub coverage: Vec<Vec<usize>>,
}

impl Hist3D {
    /// Whether two coverage tables can be correlated: same count type and
    /// same item universe, and for base-pair counting additionally a
    /// matching length array, identical uncovered maps bounded by the
    /// lengths, and a total length within the machine word.
    pub open spec fn abaci_compatible(
        a: &AbacusByTotal,
        b: &AbacusByTotal,
        node_lens: Option<&Vec<u32>>,
    ) -> bool {
        &&& a.count == b.count
        &&& a.countable@.len() == b.countable@.len()
        &&& (a.count == CountType::Bp ==> {
            &&& node_lens is Some
            &&& node_lens->Some_0@.len() == a.countable@.len()
            &&& a.uncovered_bps is Some
            &&& a.uncovered_bps->Some_0@.len() == a.countable@.len()
            &&& b.uncovered_bps is Some
            &&& a.uncovered_bps->Some_0@ == b.uncovered_bps->Some_0@
            &&& (forall|t: int|
                0 <= t < a.uncovered_bps->Some_0@.len() ==> (
                #[trigger] a.uncovered_bps->Some_0@[t]) <= node_lens->Some_0@[t])
            &&& sum_lens(node_lens->Some_0@, node_lens->Some_0@.len() as int) <= usize::MAX
        })
    }

    /// Correlates two total coverage tables over the same item universe
    /// into a two-dimensional histogram: cell `(k1, k2)` tallies the items
    /// covered by `k1` groups of the first partition and `k2` of the
    /// second, weighted by covered base pairs when base pairs are counted,
    /// with all uncovered mass pooled in the origin cell. Fails exactly
    /// when the tables cannot be correlated.
    pub fn from_abaci(
        a: &AbacusByTotal,
        b: &AbacusByTotal,
        node_lens: Option<&Vec<u32>>,
    ) -> (res: Result<Hist3D, CoreError>)
        requires
            a.count != CountType::All,
            a.groups@.len() < usize::MAX,
            b.groups@.len() < usize::MAX,
            a.countable@.len() < usize::MAX,
        ensures
            res.is_ok() <==> Self::abaci_compatible(a, b, node_lens),
            res matches Err(e) ==> (e == CoreError::MismatchedAbaci || e == CoreError::TooLarge),
            match res {
                Ok(h) => {
                    &&& h.count == a.count
                    &&& h.coverage@.len() == a.groups@.len() + 1
                    &&& forall|k1: int|
                        0 <= k1 < h.coverage@.len() ==> (#[trigger] h.coverage@[k1])@.len()
                            == b.groups@.len() + 1
                    &&& ((a.count == CountType::Node || a.count == CountType::Edge)
                        ==> forall|k1: int, k2: int|
                        #![trigger h.coverage@[k1]@[k2]]
                        0 <= k1 < h.coverage@.len() && 0 <= k2 < b.groups@.len() + 1
                            ==> h.coverage@[k1]@[k2] as nat == count_eq2(
                            a.countable@,
                            b.countable@,
                            a.groups@.len() as int + 1,
                            b.groups@.len() as int + 1,
                            k1,
                            k2,
                            a.countable@.len() as int,
                        ))
                    &&& (a.count == CountType::Bp ==> (node_lens matches Some(l)
                        && a.uncovered_bps matches Some(ua) && (forall|k1: int, k2: int|
                        #![trigger h.coverage@[k1]@[k2]]
                        0 <= k1 < h.coverage@.len() && 0 <= k2 < b.groups@.len() + 1
                            ==> h.coverage@[k1]@[k2] as int == bp_tally2(
                            a.countable@,
                            b.countable@,
                            l@,
                            ua@,
                            a.groups@.len() as int + 1,
                            b.groups@.len() as int + 1,
                            k1,
                            k2,
                            a.countable@.len() as int,
                        ))))
                },
                Err(_) => true,
            },
    {
        if !(a.count == b.count) {
            return Err(CoreError::MismatchedAbaci);
        }
        if a.countable.len() != b.countable.len() {
            return Err(CoreError::MismatchedAbaci);
        }
        let is_bp = a.count == CountType::Bp;
        let mut lens_opt: Option<&Vec<u32>> = None;
        let mut uncov_opt: Option<&Vec<usize>> = None;
        if is_bp {
            let l = match node_lens {
                Some(l) => l,
                None => {
                    return Err(CoreError::MismatchedAbaci);
                },
            };
            if l.len() != a.countable.len() {
                return Err(CoreError::MismatchedAbaci);
            }
            let ua = match &a.uncovered_bps {
                Some(u) => u,
                None => {
                    return Err(CoreError::MismatchedAbaci);
                },
            };
            let ub = match &b.uncovered_bps {
                Some(u) => u,
                None => {
                    return Err(CoreError::MismatchedAbaci);
                },
            };
            if ua.len() != a.countable.len() {
                return Err(CoreError::MismatchedAbaci);
            }
            if !eq_usizes(ua, ub) {
                return Err(CoreError::MismatchedAbaci);
            }
            let mut t: usize = 0;
            while t < ua.len()
                invariant
                    a.count == CountType::Bp,
                    0 <= t <= ua@.len(),
                    ua@.len() == a.countable@.len(),
                    l@.len() == a.countable@.len(),
                    a.uncovered_bps matches Some(uu) && uu@ == ua@,
                    node_lens matches Some(ll) && ll@ == l@,
                    forall|x: int| 0 <= x < t ==> (#[trigger] ua@[x]) <= l@[x],
                decreases ua@.len() - t,
            {
                if ua[t] > l[t] as usize {
                    proof {
                        assert(ua@[t as int] > l@[t as int]);
                        assert(ua@ == a.uncovered_bps->Some_0@);
                        assert(l@ == node_lens->Some_0@);
                        if Self::abaci_compatible(a, b, node_lens) {
                            assert(a.uncovered_bps->Some_0@[t as int] == ua@[t as int]);
                            assert(node_lens->Some_0@[t as int] == l@[t as int]);
                            assert((a.uncovered_bps->Some_0@[t as int])
                                <= node_lens->Some_0@[t as int]);
                        }
                        assert(!Self::abaci_compatible(a, b, node_lens));
                    }
                    return Err(CoreError::MismatchedAbaci);
                }
                t += 1;
            }
            if sum_lens_checked(l).is_none() {
                return Err(CoreError::TooLarge);
            }
            lens_opt = Some(l);
            uncov_opt = Some(ua);
        }
        let h = a.groups.len() + 1;
        let w = b.groups.len() + 1;
        let ghost n1: int = a.groups@.len() as int + 1;
        let ghost n2: int = b.groups@.len() as int + 1;
        let mut bins: Vec<Vec<usize>> = Vec::new();
        let mut r: usize = 0;
        while r < h
            invariant
                0 <= r <= h,
                bins@.len() == r,
                forall|k1: int| 0 <= k1 < r ==> (#[trigger] bins@[k1])@.len() == w,
                forall|k1: int, k2: int|
                    #![trigger bins@[k1]@[k2]]
                    0 <= k1 < r && 0 <= k2 < w ==> bins@[k1]@[k2] == 0,
            decreases h - r,
        {
            bins.push(vec![0usize; w]);
            r += 1;
        }
        let mut i: usize = 0;
        while i < a.countable.len()
            invariant
                a.countable@.len() == b.countable@.len(),
                a.countable@.len() < usize::MAX,
                h == a.groups@.len() + 1,
                w == b.groups@.len() + 1,
                n1 == h as int,
                n2 == w as int,
                bins@.len() == h,
                forall|k1: int| 0 <= k1 < h ==> (#[trigger] bins@[k1])@.len() == w,
                0 <= i <= a.countable@.len(),
                is_bp <==> a.count == CountType::Bp,
                is_bp ==> (lens_opt matches Some(l) && l@.len() == a.countable@.len() && (
                uncov_opt matches Some(u) && u@.len() == a.countable@.len() && (forall|x: int|
                    0 <= x < u@.len() ==> (#[trigger] u@[x]) <= l@[x])) && sum_lens(
                    l@,
                    l@.len() as int,
                ) <= usize::MAX),
                !is_bp ==> (forall|k1: int, k2: int|
                    #![trigger bins@[k1]@[k2]]
                    0 <= k1 < h && 0 <= k2 < w ==> bins@[k1]@[k2] as nat == count_eq2(
                        a.countable@,
                        b.countable@,
                        n1,
                        n2,
                        k1,
                        k2,
                        i as int,
                    )),
                is_bp ==> (lens_opt matches Some(l) && uncov_opt matches Some(u) && (forall|
                    k1: int,
                    k2: int,
                |
                    #![trigger bins@[k1]@[k2]]
                    0 <= k1 < h && 0 <= k2 < w ==> bins@[k1]@[k2] as int == bp_tally2(
                        a.countable@,
                        b.countable@,
                        l@,
                        u@,
                        n1,
                        n2,
                        k1,
                        k2,
                        i as int,
                    ))),
            decreases a.countable@.len() - i,
        {
            let ca = a.countable[i] as usize;
            let cb = b.countable[i] as usize;
            if ca < h && cb < w {
                if !is_bp {
                    proof {
                        lemma_count_eq2_le(
                            a.countable@,
                            b.countable@,
                            n1,
                            n2,
                            ca as int,
                            cb as int,
                            i as int,
                        );
                    }
                    let ghost old_bins = bins@;
                    let mut row = bins.remove(ca);
                    let old_v = row[cb];
                    row.set(cb, old_v + 1);
                    let ghost row_view = row@;
                    let ghost mid = bins@;
                    bins.insert(ca, row);
                    proof {
                        assert forall|k1: int|
                            0 <= k1 < old_bins.len() implies #[trigger] bins@[k1]@ == (if k1
                            == ca as int {
                            row_view
                        } else {
                            old_bins[k1]@
                        }) by {
                            if k1 < ca as int {
                                assert(bins@[k1] == mid[k1]);
                                assert(mid[k1] == old_bins[k1]);
                            } else if k1 > ca as int {
                                assert(bins@[k1] == mid[k1 - 1]);
                                assert(mid[k1 - 1] == old_bins[k1]);
                            }
                        }
                    }
                } else {
                    let l = match lens_opt {
                        Some(l) => l,
                        None => {
                            proof {
                                assert(false);
                            }
                            return Err(CoreError::MismatchedAbaci);
                        },
                    };
                    let u = match uncov_opt {
                        Some(u) => u,
                        None => {
                            proof {
                                assert(false);
                            }
                            return Err(CoreError::MismatchedAbaci);
                        },
                    };
                    proof {
                        assert(sum_lens(l@, i + 1 as int) == sum_lens(l@, i as int)
                            + l@[i as int]);
                        lemma_sum_lens_mono(l@, i + 1 as int, l@.len() as int);
                        lemma_sum_lens_nonneg(l@, i as int);
                        assert forall|k1: int, k2: int|
                            #![trigger bins@[k1]@[k2]]
                            0 <= k1 < h && 0 <= k2 < w implies 0 <= (bins@[k1]@[k2]) as int
                            <= sum_lens(l@, i as int) by {
                            lemma_bp_tally2_bounds(
                                a.countable@,
                                b.countable@,
                                l@,
                                u@,
                                n1,
                                n2,
                                k1,
                                k2,
                                i as int,
                            );
                        }
                    }
                    let covered = (l[i] as usize) - u[i];
                    let ghost old_bins = bins@;
                    let mut row = bins.remove(ca);
                    let old_v = row[cb];
                    row.set(cb, old_v + covered);
                    let ghost row_view = row@;
                    let ghost mid = bins@;
                    bins.insert(ca, row);
                    proof {
                        assert forall|k1: int|
                            0 <= k1 < old_bins.len() implies #[trigger] bins@[k1]@ == (if k1
                            == ca as int {
                            row_view
                        } else {
                            old_bins[k1]@
                        }) by {
                            if k1 < ca as int {
                                assert(bins@[k1] == mid[k1]);
                                assert(mid[k1] == old_bins[k1]);
                            } else if k1 > ca as int {
                                assert(bins@[k1] == mid[k1 - 1]);
                                assert(mid[k1 - 1] == old_bins[k1]);
                            }
                        }
                    }
                    let ghost old_bins2 = bins@;
                    let mut row0 = bins.remove(0);
                    let old_o = row0[0];
                    row0.set(0, old_o + u[i]);
                    let ghost row0_view = row0@;
                    let ghost mid2 = bins@;
                    bins.insert(0, row0);
                    proof {
                        assert forall|k1: int|
                            0 <= k1 < old_bins2.len() implies #[trigger] bins@[k1]@ == (if k1
                            == 0int {
                            row0_view
                        } else {
                            old_bins2[k1]@
                        }) by {
                            if k1 > 0int {
                                assert(bins@[k1] == mid2[k1 - 1]);
                                assert(mid2[k1 - 1] == old_bins2[k1]);
                            }
                        }
                    }
                }
            }
            proof {
                if !is_bp {
                    assert forall|k1: int, k2: int|
                        #![trigger bins@[k1]@[k2]]
                        0 <= k1 < h && 0 <= k2 < w implies bins@[k1]@[k2] as nat == count_eq2(
                        a.countable@,
                        b.countable@,
                        n1,
                        n2,
                        k1,
                        k2,
                        i + 1 as int,
                    ) by {
                        assert(count_eq2(a.countable@, b.countable@, n1, n2, k1, k2, i + 1 as int)
                            == count_eq2(a.countable@, b.countable@, n1, n2, k1, k2, i as int)
                            + (if (a.countable@[i as int] as int) < n1 && (
                        b.countable@[i as int] as int) < n2 && a.countable@[i as int] as int == k1
                            && b.countable@[i as int] as int == k2 {
                            1nat
                        } else {
                            0nat
                        }));
                    }
                } else {
                    match (lens_opt, uncov_opt) {
                        (Some(l), Some(u)) => {
                            assert forall|k1: int, k2: int|
                                #![trigger bins@[k1]@[k2]]
                                0 <= k1 < h && 0 <= k2 < w implies bins@[k1]@[k2] as int
                                == bp_tally2(
                                a.countable@,
                                b.countable@,
                                l@,
                                u@,
                                n1,
                                n2,
                                k1,
                                k2,
                                i + 1 as int,
                            ) by {
                                assert(bp_tally2(
                                    a.countable@,
                                    b.countable@,
                                    l@,
                                    u@,
                                    n1,
                                    n2,
                                    k1,
                                    k2,
                                    i + 1 as int,
                                ) == bp_tally2(
                                    a.countable@,
                                    b.countable@,
                                    l@,
                                    u@,
                                    n1,
                                    n2,
                                    k1,
                                    k2,
                                    i as int,
                                ) + (if (a.countable@[i as int] as int) < n1 && (
                                b.countable@[i as int] as int) < n2
                                    && a.countable@[i as int] as int == k1
                                    && b.countable@[i as int] as int == k2 {
                                    l@[i as int] - u@[i as int]
                                } else {
                                    0int
                                }) + (if (a.countable@[i as int] as int) < n1 && (
                                b.countable@[i as int] as int) < n2 && k1 == 0 && k2 == 0 {
                                    u@[i as int] as int
                                } else {
                                    0int
                                }));
                            }
                        },
                        _ => {
                            assert(false);
                        },
                    }
                }
            }
            i += 1;
        }
        Ok(Hist3D { count: a.count, coverage: bins })
    }
}

} // verus!
