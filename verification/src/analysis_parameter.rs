//! Descriptions of the analyses a run can request, and the grouping and
//! clustering choices they carry.

use core::cmp::Ordering;
use vstd::prelude::*;

use crate::util::CountType;

verus! {

/// Lexicographic order on character sequences, by scalar value.
pub open spec fn lex_cmp_chars(a: Seq<char>, b: Seq<char>) -> Ordering
    decreases a.len(),
{
    if a.len() == 0 && b.len() == 0 {
        Ordering::Equal
    } else if a.len() == 0 {
        Ordering::Less
    } else if b.len() == 0 {
        Ordering::Greater
    } else if (a[0] as u32) < (b[0] as u32) {
        Ordering::Less
    } else if (a[0] as u32) > (b[0] as u32) {
        Ordering::Greater
    } else {
        lex_cmp_chars(a.skip(1), b.skip(1))
    }
}

/// Order on optional strings: absent sorts first.
pub open spec fn opt_str_cmp_spec(a: Option<String>, b: Option<String>) -> Ordering {
    match (a, b) {
        (Option::None, Option::None) => Ordering::Equal,
        (Option::None, Option::Some(_)) => Ordering::Less,
        (Option::Some(_), Option::None) => Ordering::Greater,
        (Option::Some(x), Option::Some(y)) => lex_cmp_chars(x@, y@),
    }
}

/// Position of a grouping variant in declaration order.
pub open spec fn grouping_rank(g: Grouping) -> int {
    match g {
        Grouping::Sample => 0,
        Grouping::Haplotype => 1,
        Grouping::Custom(_) => 2,
    }
}

/// Order on groupings: by variant, then by the custom file name.
pub open spec fn grouping_cmp_spec(a: Grouping, b: Grouping) -> Ordering {
    if grouping_rank(a) < grouping_rank(b) {
        Ordering::Less
    } else if grouping_rank(a) > grouping_rank(b) {
        Ordering::Greater
    } else {
        match (a, b) {
            (Grouping::Custom(x), Grouping::Custom(y)) => lex_cmp_chars(x@, y@),
            _ => Ordering::Equal,
        }
    }
}

/// Order on optional groupings: absent sorts first.
pub open spec fn opt_grouping_cmp_spec(a: Option<Grouping>, b: Option<Grouping>) -> Ordering {
    match (a, b) {
        (Option::None, Option::None) => Ordering::Equal,
        (Option::None, Option::Some(_)) => Ordering::Less,
        (Option::Some(_), Option::None) => Ordering::Greater,
        (Option::Some(x), Option::Some(y)) => grouping_cmp_spec(x, y),
    }
}

/// Position of a count type in declaration order.
pub open spec fn count_rank(c: CountType) -> int {
    match c {
        CountType::Node => 0,
        CountType::Edge => 1,
        CountType::Bp => 2,
        CountType::All => 3,
    }
}

/// Order on count types, by declaration order.
pub open spec fn count_cmp_spec(a: CountType, b: CountType) -> Ordering {
    if count_rank(a) < count_rank(b) {
        Ordering::Less
    } else if count_rank(a) > count_rank(b) {
        Ordering::Greater
    } else {
        Ordering::Equal
    }
}

/// Order on booleans: false sorts first.
pub open spec fn bool_cmp_spec(a: bool, b: bool) -> Ordering {
    if a == b {
        Ordering::Equal
    } else if !a {
        Ordering::Less
    } else {
        Ordering::Greater
    }
}

/// The second comparison decides only where the first is a tie.
pub open spec fn ord_then(a: Ordering, b: Ordering) -> Ordering {
    if a == Ordering::Equal {
        b
    } else {
        a
    }
}

/// The order of two histogram requests: by graph, subset, exclusion,
/// grouping, count type, name, and display flag, in that precedence.
pub open spec fn hist_params_cmp(
    g1: Seq<char>,
    s1: Option<String>,
    e1: Option<String>,
    gr1: Option<Grouping>,
    c1: CountType,
    n1: Option<String>,
    d1: bool,
    g2: Seq<char>,
    s2: Option<String>,
    e2: Option<String>,
    gr2: Option<Grouping>,
    c2: CountType,
    n2: Option<String>,
    d2: bool,
) -> Ordering {
    ord_then(
        lex_cmp_chars(g1, g2),
        ord_then(
            opt_str_cmp_spec(s1, s2),
            ord_then(
                opt_str_cmp_spec(e1, e2),
                ord_then(
                    opt_grouping_cmp_spec(gr1, gr2),
                    ord_then(
                        count_cmp_spec(c1, c2),
                        ord_then(opt_str_cmp_spec(n1, n2), bool_cmp_spec(d1, d2)),
                    ),
                ),
            ),
        ),
    )
}

/// Lexicographic comparison of two strings by character scalar value.
pub fn str_cmp(a: &str, b: &str) -> (res: Ordering)
    ensures
        res == lex_cmp_chars(a@, b@),
{
    let alen = a.unicode_len();
    let blen = b.unicode_len();
    let mut i: usize = 0;
    proof {
        assert(a@.skip(0) =~= a@);
        assert(b@.skip(0) =~= b@);
    }
    while i < alen && i < blen
        invariant
            alen as nat == a@.len(),
            blen as nat == b@.len(),
            0 <= i <= alen,
            0 <= i <= blen,
            lex_cmp_chars(a@, b@) == lex_cmp_chars(a@.skip(i as int), b@.skip(i as int)),
        decreases alen - i,
    {
        proof {
            assert(a@.skip(i as int)[0] == a@[i as int]);
            assert(b@.skip(i as int)[0] == b@[i as int]);
            assert(a@.skip(i as int).skip(1) =~= a@.skip(i + 1 as int));
            assert(b@.skip(i as int).skip(1) =~= b@.skip(i + 1 as int));
        }
        let ca = a.get_char(i) as u32;
        let cb = b.get_char(i) as u32;
        if ca < cb {
            return Ordering::Less;
        }
        if ca > cb {
            return Ordering::Greater;
        }
        i += 1;
    }
    if i < blen {
        return Ordering::Less;
    }
    if i < alen {
        return Ordering::Greater;
    }
    Ordering::Equal
}

/// Comparison of optional strings: absent sorts first.
pub fn opt_str_cmp(a: &Option<String>, b: &Option<String>) -> (res: Ordering)
    ensures
        res == opt_str_cmp_spec(*a, *b),
{
    match (a, b) {
        (None, None) => Ordering::Equal,
        (None, Some(_)) => Ordering::Less,
        (Some(_), None) => Ordering::Greater,
        (Some(x), Some(y)) => str_cmp(x.as_str(), y.as_str()),
    }
}

/// Comparison of optional groupings: absent sorts first.
pub fn opt_grouping_cmp(a: &Option<Grouping>, b: &Option<Grouping>) -> (res: Ordering)
    ensures
        res == opt_grouping_cmp_spec(*a, *b),
{
    match (a, b) {
        (None, None) => Ordering::Equal,
        (None, Some(_)) => Ordering::Less,
        (Some(_), None) => Ordering::Greater,
        (Some(x), Some(y)) => match (x, y) {
            (Grouping::Sample, Grouping::Sample) => Ordering::Equal,
            (Grouping::Sample, _) => Ordering::Less,
            (Grouping::Haplotype, Grouping::Sample) => Ordering::Greater,
            (Grouping::Haplotype, Grouping::Haplotype) => Ordering::Equal,
            (Grouping::Haplotype, Grouping::Custom(_)) => Ordering::Less,
            (Grouping::Custom(_), Grouping::Sample) => Ordering::Greater,
            (Grouping::Custom(_), Grouping::Haplotype) => Ordering::Greater,
            (Grouping::Custom(f1), Grouping::Custom(f2)) => str_cmp(f1.as_str(), f2.as_str()),
        },
    }
}

/// Comparison of count types by declaration order.
pub fn count_cmp(a: CountType, b: CountType) -> (res: Ordering)
    ensures
        res == count_cmp_spec(a, b),
{
    let ra: u8 = match a {
        CountType::Node => 0,
        CountType::Edge => 1,
        CountType::Bp => 2,
        CountType::All => 3,
    };
    let rb: u8 = match b {
        CountType::Node => 0,
        CountType::Edge => 1,
        CountType::Bp => 2,
        CountType::All => 3,
    };
    if ra < rb {
        Ordering::Less
    } else if ra > rb {
        Ordering::Greater
    } else {
        Ordering::Equal
    }
}

/// One requested analysis, with everything needed to run it.
#[derive(Debug, PartialEq, Eq, Hash, Clone)]
pub enum AnalysisParameter {
    Hist {
        name: Option<String>,
        count_type: CountType,
        graph: String,
        display: bool,
        subset: Option<String>,
        exclude: Option<String>,
        grouping: Option<Grouping>,
    },
    Growth {
        name: Option<String>,
        coverage: Option<String>,
        quorum: Option<String>,
        hist: String,
        display: bool,
        add_hist: bool,
    },
    Subset {
        name: String,
        file: String,
    },
    Graph {
        name: String,
        file: String,
        nice: bool,
    },
    Table {
        count_type: CountType,
        graph: String,
        subset: Option<String>,
        exclude: Option<String>,
        grouping: Option<Grouping>,
        total: bool,
        order: Option<String>,
    },
    NodeDistribution {
        graph: String,
        radius: u32,
    },
    Similarity {
        count_type: CountType,
        graph: String,
        subset: Option<String>,
        exclude: Option<String>,
        grouping: Option<Grouping>,
        cluster_method: ClusterMethod,
    },
    Info {
        graph: String,
        subset: Option<String>,
        exclude: Option<String>,
        grouping: Option<Grouping>,
    },
    OrderedGrowth {
        name: Option<String>,
        coverage: Option<String>,
        quorum: Option<String>,
        order: Option<String>,
        count_type: CountType,
        graph: String,
        display: bool,
        subset: Option<String>,
        exclude: Option<String>,
        grouping: Option<Grouping>,
    },
    CoverageLine {
        name: Option<String>,
        count_type: CountType,
        graph: String,
        display: bool,
        reference: String,
        grouping: Option<Grouping>,
    },
}

impl AnalysisParameter {
    /// The scheduling order of two histogram requests, decided field by
    /// field: graph, subset, exclusion, grouping, count type, name, and
    /// display flag.
    pub fn compare_hists(&self, other: &Self) -> (res: Ordering)
        requires
            self matches AnalysisParameter::Hist { .. },
            other matches AnalysisParameter::Hist { .. },
        ensures
            self matches AnalysisParameter::Hist {
                name: n1,
                count_type: c1,
                graph: g1,
                display: d1,
                subset: s1,
                exclude: e1,
                grouping: gr1,
            } ==> (other matches AnalysisParameter::Hist {
                name: n2,
                count_type: c2,
                graph: g2,
                display: d2,
                subset: s2,
                exclude: e2,
                grouping: gr2,
            } ==> res == hist_params_cmp(
                g1@,
                *s1,
                *e1,
                *gr1,
                *c1,
                *n1,
                *d1,
                g2@,
                *s2,
                *e2,
                *gr2,
                *c2,
                *n2,
                *d2,
            )),
    {
        match (self, other) {
            (
                AnalysisParameter::Hist {
                    name: n1,
                    count_type: c1,
                    graph: g1,
                    display: d1,
                    subset: s1,
                    exclude: e1,
                    grouping: gr1,
                },
                AnalysisParameter::Hist {
                    name: n2,
                    count_type: c2,
                    graph: g2,
                    display: d2,
                    subset: s2,
                    exclude: e2,
                    grouping: gr2,
                },
            ) => {
                let c = str_cmp(g1.as_str(), g2.as_str());
                if !matches!(c, Ordering::Equal) {
                    return c;
                }
                let c = opt_str_cmp(s1, s2);
                if !matches!(c, Ordering::Equal) {
                    return c;
                }
                let c = opt_str_cmp(e1, e2);
                if !matches!(c, Ordering::Equal) {
                    return c;
                }
                let c = opt_grouping_cmp(gr1, gr2);
                if !matches!(c, Ordering::Equal) {
                    return c;
                }
                let c = count_cmp(*c1, *c2);
                if !matches!(c, Ordering::Equal) {
                    return c;
                }
                let c = opt_str_cmp(n1, n2);
                if !matches!(c, Ordering::Equal) {
                    return c;
                }
                if *d1 == *d2 {
                    Ordering::Equal
                } else if !*d1 {
                    Ordering::Less
                } else {
                    Ordering::Greater
                }
            },
            _ => {
                proof {
                    assert(false);
                }
                Ordering::Equal
            },
        }
    }
}

/// How paths are merged into groups.
#[derive(Debug, PartialEq, Eq, Hash, Clone, PartialOrd, Ord)]
pub enum Grouping {
    Sample,
    Haplotype,
    Custom(String),
}

/// Default value used when an analysis does not say whether to display.
pub fn get_true() -> (res: bool)
    ensures
        res,
{
    true
}

/// Default neighbourhood radius of the node-distribution analysis.
pub fn get_radius() -> (res: u32)
    ensures
        res == 20,
{
    20
}

/// The linkage strategy used by the similarity analysis.
#[derive(Debug, Clone, Copy, PartialEq, Structural, Hash, Eq, PartialOrd, Ord)]
pub enum ClusterMethod {
    Single,
    Complete,
    Average,
    Weighted,
    Ward,
    Centroid,
    Median,
}

impl Default for ClusterMethod {
    fn default() -> (res: Self)
        ensures
            res == ClusterMethod::Centroid,
    {
        ClusterMethod::Centroid
    }
}

} // verus!
