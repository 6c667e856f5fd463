//! The sparse per-group coverage matrix in CSR layout, built in two passes
//! over a group-sorted traversal of the paths.
//!
//! Rows are items, columns are groups; only nonzero coverage is stored.
//! `r` gives each item's half-open slice into the flat group array `c`,
//! whose entries are strictly increasing within a row; the optional value
//! array `v` counts, per stored `(item, group)` pair, how often the item
//! occurs in that group's paths.

use vstd::prelude::*;
use vstd::seq_lib::*;

use crate::graph_broker::abacus::{
    dedup_labels, flatten_occurrences, groups_sorted, labels_of, lemma_occ_cnt_exists, AbacusByTotal,
    lemma_occ_cnt_le, lemma_row_model_len, lemma_row_model_props, lemma_row_model_take,
    number_groups, numbered_order, occ_cnt, occ_model, order_sorted, row_model,
};
use crate::graph_broker::graph::ItemId;
use crate::util::{
    excluded, lemma_mono_range, lemma_sum_prefix_mono, lemma_sum_prefix_update,
    lemma_sum_prefix_zero, sum_prefix, ActiveTable, CoreError, CountSize, CountType, GroupSize,
    ItemIdSize, ItemTable,
};

verus! {

/// Offsets start at zero and never decrease.
pub open spec fn offsets_wf(rr: Seq<usize>) -> bool {
    &&& rr.len() >= 2
    &&& rr[0] == 0
    &&& forall|a: int, b: int| 0 <= a <= b < rr.len() ==> rr[a] <= rr[b]
}

/// Offsets grow per item by its distinct-group count, and by nothing for
/// excluded items.
pub open spec fn offsets_match(
    rr: Seq<usize>,
    exclude_table: &Option<ActiveTable>,
    occs: Seq<(GroupSize, ItemIdSize)>,
    n_items: int,
) -> bool {
    forall|i: int|
        #![trigger row_model(occs, i as ItemIdSize)]
        0 <= i <= n_items ==> rr[i + 1] == rr[i] + (if excluded(exclude_table, i) {
            0int
        } else {
            row_model(occs, i as ItemIdSize).len() as int
        })
}

/// Offsets either skip an item or make room for exactly its row model.
pub open spec fn rows_sized(rr: Seq<usize>, occs: Seq<(GroupSize, ItemIdSize)>, n_items: int) -> bool {
    forall|i: int|
        #![trigger row_model(occs, i as ItemIdSize)]
        0 <= i <= n_items ==> rr[i + 1] == rr[i] || rr[i + 1] == rr[i] + row_model(
            occs,
            i as ItemIdSize,
        ).len()
}

/// Every nonempty row holds exactly its item's row model.
pub open spec fn rows_match(
    rr: Seq<usize>,
    cc: Seq<GroupSize>,
    occs: Seq<(GroupSize, ItemIdSize)>,
    n_items: int,
) -> bool {
    forall|i: int|
        #![trigger row_model(occs, i as ItemIdSize)]
        0 <= i <= n_items && rr[i + 1] != rr[i] ==> cc.subrange(rr[i] as int, rr[i + 1] as int)
            == row_model(occs, i as ItemIdSize)
}

/// Every stored value counts its `(item, group)` pair's occurrences.
pub open spec fn values_match(
    rr: Seq<usize>,
    cc: Seq<GroupSize>,
    vv: Seq<CountSize>,
    occs: Seq<(GroupSize, ItemIdSize)>,
    n_items: int,
) -> bool {
    forall|i: int, t: int|
        #![trigger rr[i], vv[t]]
        0 <= i <= n_items && rr[i] <= t < rr[i + 1] ==> vv[t] == occ_cnt(
            occs,
            cc[t],
            i as ItemIdSize,
        )
}

/// All occurrence groups lie below the group count.
pub open spec fn occs_groups_below(occs: Seq<(GroupSize, ItemIdSize)>, n_groups: int) -> bool {
    forall|k: int| 0 <= k < occs.len() ==> ((#[trigger] occs[k]).0 as int) < n_groups
}

/// Offsets that grow by exact row lengths (or zero) satisfy the sizing
/// dichotomy that pass two expects.
proof fn lemma_offsets_match_implies_sized(
    rr: Seq<usize>,
    exclude_table: &Option<ActiveTable>,
    occs: Seq<(GroupSize, ItemIdSize)>,
    n_items: int,
)
    requires
        offsets_match(rr, exclude_table, occs, n_items),
    ensures
        rows_sized(rr, occs, n_items),
{
    assert forall|i: int|
        0 <= i <= n_items implies rr[i + 1] == rr[i] || rr[i + 1] == rr[i] + (#[trigger] row_model(
        occs,
        i as ItemIdSize,
    )).len() by {
        assert(row_model(occs, i as ItemIdSize).len() >= 0);
        assert(rr[i + 1] == rr[i] + (if excluded(exclude_table, i) {
            0int
        } else {
            row_model(occs, i as ItemIdSize).len() as int
        }));
    }
}

/// Pass one of the construction: size each item's row.
///
/// Walks the occurrence sequence once, keeping per item the group counted
/// last; because groups never decrease along the traversal, an occurrence
/// opens a new `(item, group)` pair exactly when its group differs from that
/// item's last counted group. The per-item counts are then folded into the
/// offset array: `r[i]` is the number of pairs of all items before `i`, so
/// `r[i + 1] - r[i]` is the number of distinct groups covering item `i`,
/// and zero for excluded items.
pub(crate) fn compute_row_storage_space(
    occs: &Vec<(GroupSize, ItemIdSize)>,
    exclude_table: &Option<ActiveTable>,
    n_items: usize,
) -> (r: Vec<usize>)
    requires
        n_items <= usize::MAX - 2,
        n_items <= ItemIdSize::MAX as usize,
        forall|k: int| 0 <= k < occs@.len() ==> (#[trigger] occs@[k]).1 <= n_items,
        forall|k: int| 0 <= k < occs@.len() ==> (#[trigger] occs@[k]).0 < GroupSize::MAX,
        match exclude_table {
            Some(t) => t.items@.len() == n_items + 1,
            None => true,
        },
    ensures
        r@.len() == n_items + 2,
        offsets_wf(r@),
        offsets_match(r@, exclude_table, occs@, n_items as int),
        r@[n_items + 1] <= occs@.len(),
{
    let mut counts: Vec<usize> = vec![0usize; n_items + 2];
    let mut last: Vec<GroupSize> = vec![GroupSize::MAX; n_items + 1];
    proof {
        lemma_sum_prefix_zero(counts@, counts@.len() as int);
    }
    let mut k: usize = 0;
    while k < occs.len()
        invariant
            n_items <= usize::MAX - 2,
            n_items <= ItemIdSize::MAX as usize,
            forall|j: int| 0 <= j < occs@.len() ==> (#[trigger] occs@[j]).1 <= n_items,
            forall|j: int| 0 <= j < occs@.len() ==> (#[trigger] occs@[j]).0 < GroupSize::MAX,
            match exclude_table {
                Some(t) => t.items@.len() == n_items + 1,
                None => true,
            },
            0 <= k <= occs@.len(),
            counts@.len() == n_items + 2,
            counts@[n_items + 1] == 0,
            last@.len() == n_items + 1,
            forall|i: int|
                0 <= i <= n_items ==> #[trigger] counts@[i] == (if excluded(exclude_table, i) {
                    0int
                } else {
                    row_model(occs@.take(k as int), i as ItemIdSize).len() as int
                }),
            forall|i: int|
                0 <= i <= n_items && !excluded(exclude_table, i) && row_model(
                    occs@.take(k as int),
                    i as ItemIdSize,
                ).len() == 0 ==> #[trigger] last@[i] == GroupSize::MAX,
            forall|i: int|
                0 <= i <= n_items && !excluded(exclude_table, i) && row_model(
                    occs@.take(k as int),
                    i as ItemIdSize,
                ).len() > 0 ==> #[trigger] last@[i] == row_model(
                    occs@.take(k as int),
                    i as ItemIdSize,
                ).last(),
            sum_prefix(counts@, counts@.len() as int) <= k,
        decreases occs@.len() - k,
    {
        let (g, sid) = occs[k];
        proof {
            assert((#[trigger] occs@[k as int]).1 <= n_items);
            assert(occs@[k as int].0 < GroupSize::MAX);
            assert(occs@.take(k + 1 as int).drop_last() =~= occs@.take(k as int));
            assert(occs@.take(k + 1 as int).last() == occs@[k as int]);
        }
        let sid_us = sid as usize;
        let is_excl = match exclude_table {
            Some(t) => t.items[sid_us],
            None => false,
        };
        let ghost prefix = occs@.take(k as int);
        let ghost prefix1 = occs@.take(k + 1 as int);
        if !is_excl && last[sid_us] != g {
            proof {
                lemma_row_model_len(prefix, sid);
                lemma_sum_prefix_update(
                    counts@,
                    sid_us as int,
                    (counts@[sid_us as int] + 1) as usize,
                    counts@.len() as int,
                );
            }
            let cur = counts[sid_us];
            counts.set(sid_us, cur + 1);
            last.set(sid_us, g);
            proof {
                // the new occurrence opens a new pair for `sid`
                let pre = row_model(prefix, sid);
                if pre.len() > 0 {
                    assert(row_model(prefix1, sid) == pre.push(g));
                } else {
                    assert(row_model(prefix1, sid) == pre.push(g));
                }
                assert forall|i: int| 0 <= i <= n_items && i != sid_us implies #[trigger] row_model(
                    prefix1,
                    i as ItemIdSize,
                ) == row_model(prefix, i as ItemIdSize) by {
                    assert(prefix1.drop_last() =~= prefix);
                    assert(prefix1.last() == occs@[k as int]);
                    assert((i as ItemIdSize) as int == i);
                    assert(prefix1.last().1 != i as ItemIdSize);
                }
            }
        } else {
            proof {
                let pre = row_model(prefix, sid);
                if !is_excl {
                    // same group as counted last: the row does not change
                    assert(last@[sid_us as int] == g);
                    assert(pre.len() > 0) by {
                        if pre.len() == 0 {
                            assert(last@[sid_us as int] == GroupSize::MAX);
                        }
                    }
                    assert(pre.last() == g);
                    assert(row_model(prefix1, sid) == pre);
                }
                assert forall|i: int| 0 <= i <= n_items && i != sid_us implies #[trigger] row_model(
                    prefix1,
                    i as ItemIdSize,
                ) == row_model(prefix, i as ItemIdSize) by {
                    assert(prefix1.drop_last() =~= prefix);
                    assert(prefix1.last() == occs@[k as int]);
                    assert((i as ItemIdSize) as int == i);
                    assert(prefix1.last().1 != i as ItemIdSize);
                }
            }
        }
        k += 1;
    }
    proof {
        assert(occs@.take(occs@.len() as int) =~= occs@);
    }
    // fold the per-item counts into offsets
    let ghost counts_final = counts@;
    let mut r = counts;
    let mut acc: usize = 0;
    let mut j: usize = 0;
    proof {
        lemma_sum_prefix_mono(counts_final, 0, counts_final.len() as int);
    }
    while j < r.len()
        invariant
            r@.len() == counts_final.len(),
            counts_final.len() == n_items + 2,
            0 <= j <= r@.len(),
            acc == sum_prefix(counts_final, j as int),
            forall|t: int| 0 <= t < j ==> #[trigger] r@[t] == sum_prefix(counts_final, t),
            forall|t: int| j <= t < r@.len() ==> #[trigger] r@[t] == counts_final[t],
            sum_prefix(counts_final, counts_final.len() as int) <= occs@.len(),
            sum_prefix(counts_final, counts_final.len() as int) <= usize::MAX,
        decreases r@.len() - j,
    {
        let tmp = r[j];
        proof {
            lemma_sum_prefix_mono(counts_final, j + 1 as int, counts_final.len() as int);
            assert(sum_prefix(counts_final, j + 1 as int) == sum_prefix(counts_final, j as int)
                + counts_final[j as int]);
        }
        r.set(j, acc);
        acc = acc + tmp;
        j += 1;
    }
    proof {
        assert forall|a: int, b: int| 0 <= a <= b < r@.len() implies r@[a] <= r@[b] by {
            lemma_sum_prefix_mono(counts_final, a, b);
        }
        assert(r@[n_items + 1] == sum_prefix(counts_final, n_items + 1 as int));
        lemma_sum_prefix_mono(counts_final, n_items + 1 as int, counts_final.len() as int);
        assert forall|i: int|
            0 <= i <= n_items implies r@[i + 1] == r@[i] + (if excluded(exclude_table, i) {
            0int
        } else {
            (#[trigger] row_model(occs@, i as ItemIdSize)).len() as int
        }) by {
            assert(r@[i] == sum_prefix(counts_final, i));
            assert(r@[i + 1] == sum_prefix(counts_final, i + 1));
            assert(counts_final[i] == (if excluded(exclude_table, i) {
                0int
            } else {
                row_model(occs@, i as ItemIdSize).len() as int
            }));
        }
        assert(offsets_match(r@, exclude_table, occs@, n_items as int));
    }
    r
}

/// Pass two of the construction: fill the rows.
///
/// Walks the occurrence sequence again. Per item a write cursor tracks how
/// many entries of its row are already filled; an occurrence whose group
/// matches the row's last written group only bumps that pair's value, while
/// a larger group is appended behind the cursor. Rows sized zero in pass
/// one (excluded or uncovered items) are skipped. On return every nonempty
/// row holds exactly the distinct groups covering its item, strictly
/// increasing, and the value array counts each stored pair's occurrences.
#[verifier::rlimit(50)]
pub(crate) fn compute_column_values(
    occs: &Vec<(GroupSize, ItemIdSize)>,
    r: &Vec<usize>,
    n_items: usize,
    report_values: bool,
) -> (res: (Option<Vec<CountSize>>, Vec<GroupSize>))
    requires
        groups_sorted(occs@),
        occs@.len() <= u32::MAX as usize,
        n_items <= usize::MAX - 2,
        n_items <= ItemIdSize::MAX as usize,
        forall|k: int| 0 <= k < occs@.len() ==> (#[trigger] occs@[k]).1 <= n_items,
        r@.len() == n_items + 2,
        offsets_wf(r@),
        rows_sized(r@, occs@, n_items as int),
    ensures
        res.1@.len() == r@[n_items + 1],
        rows_match(r@, res.1@, occs@, n_items as int),
        match res.0 {
            Some(v) => report_values && v@.len() == res.1@.len() && values_match(
                r@,
                res.1@,
                v@,
                occs@,
                n_items as int,
            ),
            None => !report_values,
        },
{
    let n = r[n_items + 1];
    let mut c: Vec<GroupSize> = vec![0u16; n];
    let mut v: Vec<CountSize> = if report_values {
        vec![0u32; n]
    } else {
        vec![0u32; 1]
    };
    let mut cur: Vec<usize> = vec![0usize; n_items + 1];
    let mut k: usize = 0;
    while k < occs.len()
        invariant
            groups_sorted(occs@),
            occs@.len() <= u32::MAX as usize,
            n_items <= usize::MAX - 2,
            n_items <= ItemIdSize::MAX as usize,
            forall|j: int| 0 <= j < occs@.len() ==> (#[trigger] occs@[j]).1 <= n_items,
            r@.len() == n_items + 2,
            r@[0] == 0,
            forall|a: int, b: int| 0 <= a <= b < r@.len() ==> r@[a] <= r@[b],
            rows_sized(r@, occs@, n_items as int),
            n == r@[n_items + 1],
            c@.len() == n,
            v@.len() == (if report_values {
                n as int
            } else {
                1int
            }),
            cur@.len() == n_items + 1,
            0 <= k <= occs@.len(),
            forall|i: int|
                0 <= i <= n_items ==> #[trigger] cur@[i] == (if r@[i + 1] == r@[i] {
                    0int
                } else {
                    row_model(occs@.take(k as int), i as ItemIdSize).len() as int
                }),
            forall|i: int| 0 <= i <= n_items ==> r@[i] + #[trigger] cur@[i] <= r@[i + 1],
            forall|i: int|
                0 <= i <= n_items && r@[i + 1] != r@[i] ==> #[trigger] c@.subrange(
                    r@[i] as int,
                    r@[i] + cur@[i],
                ) == row_model(occs@.take(k as int), i as ItemIdSize),
            report_values ==> (forall|i: int, t: int|
                #![trigger r@[i], v@[t]]
                0 <= i <= n_items && r@[i] <= t < r@[i] + cur@[i] ==> v@[t] == occ_cnt(
                    occs@.take(k as int),
                    c@[t],
                    i as ItemIdSize,
                )),
        decreases occs@.len() - k,
    {
        let (g, sid) = occs[k];
        let ghost prefix = occs@.take(k as int);
        let ghost prefix1 = occs@.take(k + 1 as int);
        proof {
            assert((#[trigger] occs@[k as int]).1 <= n_items);
            assert(prefix1.drop_last() =~= prefix);
            assert(prefix1.last() == occs@[k as int]);
            assert(groups_sorted(prefix)) by {
                assert forall|a: int, b: int|
                    0 <= a <= b < prefix.len() implies (#[trigger] prefix[a]).0
                    <= (#[trigger] prefix[b]).0 by {
                    assert(prefix[a] == occs@[a]);
                    assert(prefix[b] == occs@[b]);
                }
            }
            lemma_row_model_props(prefix, sid);
            lemma_row_model_take(occs@, sid, k + 1 as int);
            lemma_row_model_take(occs@, sid, k as int);
            // occurrences of other items leave their rows and counts alone
            assert forall|i: int| 0 <= i <= n_items && i != sid as int implies #[trigger] row_model(
                prefix1,
                i as ItemIdSize,
            ) == row_model(prefix, i as ItemIdSize) by {
                assert((i as ItemIdSize) as int == i);
                assert(prefix1.last().1 != i as ItemIdSize);
            }
            assert forall|gg: GroupSize, i: int|
                0 <= i <= n_items && i != sid as int implies #[trigger] occ_cnt(
                    prefix1,
                    gg,
                    i as ItemIdSize,
                ) == occ_cnt(prefix, gg, i as ItemIdSize) by {
                assert((i as ItemIdSize) as int == i);
                assert(prefix1.last().1 != i as ItemIdSize);
            }
            assert forall|gg: GroupSize| gg != g implies #[trigger] occ_cnt(prefix1, gg, sid)
                == occ_cnt(prefix, gg, sid) by {}
            assert(occ_cnt(prefix1, g, sid) == occ_cnt(prefix, g, sid) + 1);
            // every group of an occurrence of `sid` so far is at most `g`
            assert forall|j: int|
                0 <= j < row_model(prefix, sid).len() implies #[trigger] row_model(prefix, sid)[j]
                <= g by {
                lemma_occ_cnt_exists(prefix, row_model(prefix, sid)[j], sid);
                let w = choose|w: int|
                    0 <= w < prefix.len() && prefix[w] == (row_model(prefix, sid)[j], sid);
                assert(prefix[w] == occs@[w]);
                assert(occs@[w].0 <= occs@[k as int].0);
            }
        }
        let sid_us = sid as usize;
        let row_start = r[sid_us];
        let row_end = r[sid_us + 1];
        if row_end != row_start {
            proof {
                assert(cur@[sid_us as int] == row_model(prefix, sid).len());
                assert(row_model(prefix1, sid).len() <= row_model(occs@, sid).len());
                assert(r@[sid_us as int] + row_model(occs@, sid).len() == r@[sid_us as int + 1]);
            }
            let cu = cur[sid_us];
            if cu == 0 {
                proof {
                    assert(row_model(prefix, sid).len() == 0);
                    assert(row_model(prefix1, sid) =~= row_model(prefix, sid).push(g));
                    assert(occ_cnt(prefix, g, sid) == 0) by {
                        if occ_cnt(prefix, g, sid) > 0 {
                            assert(row_model(prefix, sid).contains(g));
                        }
                    }
                }
                let ghost c_old = c@;
                c.set(row_start, g);
                if report_values {
                    v.set(row_start, 1);
                }
                cur.set(sid_us, 1);
                proof {
                    assert(c@.subrange(row_start as int, row_start + 1) =~= seq![g]);
                    assert(row_model(prefix1, sid) =~= seq![g]);
                    assert forall|i: int|
                        0 <= i <= n_items && i != sid_us as int && r@[i + 1]
                            != r@[i] implies #[trigger] c@.subrange(r@[i] as int, r@[i] + cur@[i])
                        == row_model(prefix1, i as ItemIdSize) by {
                        assert(i + 1 <= sid_us as int || sid_us as int + 1 <= i);
                        assert(r@[i] + cur@[i] <= r@[i + 1]);
                        if i < sid_us as int {
                            assert(r@[i + 1] <= r@[sid_us as int]);
                        } else {
                            assert(r@[sid_us as int + 1] <= r@[i]);
                        }
                        assert(c@.subrange(r@[i] as int, r@[i] + cur@[i]) =~= c_old.subrange(
                            r@[i] as int,
                            r@[i] + cur@[i],
                        ));
                    }
                }
            } else {
                let last_idx = row_start + cu - 1;
                proof {
                    assert(row_model(prefix, sid).len() == cu);
                    assert(c@.subrange(row_start as int, row_start + cu as int)[cu - 1]
                        == row_model(prefix, sid).last());
                }
                let cg = c[last_idx];
                if cg == g {
                    proof {
                        assert(row_model(prefix, sid).last() == g);
                        assert(row_model(prefix1, sid) == row_model(prefix, sid));
                    }
                    if report_values {
                        let old_v = v[last_idx];
                        proof {
                            lemma_occ_cnt_le(prefix, g, sid);
                            assert(old_v == occ_cnt(prefix, c@[last_idx as int], sid));
                        }
                        let ghost v_old = v@;
                        v.set(last_idx, old_v + 1);
                        proof {
                            assert forall|i: int, t: int|
                                #![trigger r@[i], v@[t]]
                                0 <= i <= n_items && r@[i] <= t < r@[i]
                                    + cur@[i] implies v@[t] == occ_cnt(
                                prefix1,
                                c@[t],
                                i as ItemIdSize,
                            ) by {
                                if t == last_idx as int {
                                    assert(i == sid_us as int) by {
                                        if i < sid_us as int {
                                            assert(r@[i + 1] <= r@[sid_us as int]);
                                        } else if i > sid_us as int {
                                            assert(r@[sid_us as int + 1] <= r@[i]);
                                        }
                                    }
                                    assert(c@[t] == g);
                                } else {
                                    assert(v@[t] == v_old[t]);
                                    if i == sid_us as int {
                                        let off = r@[sid_us as int];
                                        assert(c@[t] == row_model(prefix, sid)[t - off]);
                                        assert(c@[t] != g) by {
                                            assert(row_model(prefix, sid)[t - r@[sid_us as int]]
                                                < row_model(prefix, sid)[cu - 1]);
                                        }
                                    }
                                }
                            }
                        }
                    }
                } else {
                    proof {
                        assert(cg == row_model(prefix, sid).last());
                        assert(cg <= g);
                        assert(cg < g);
                        assert(row_model(prefix1, sid) =~= row_model(prefix, sid).push(g));
                        assert(cu + 1 <= row_model(occs@, sid).len());
                        assert(occ_cnt(prefix, g, sid) == 0) by {
                            if occ_cnt(prefix, g, sid) > 0 {
                                assert(row_model(prefix, sid).contains(g));
                                let j = choose|j: int|
                                    0 <= j < row_model(prefix, sid).len() && row_model(
                                        prefix,
                                        sid,
                                    )[j] == g;
                                if j < cu - 1 {
                                    assert(row_model(prefix, sid)[j] < row_model(
                                        prefix,
                                        sid,
                                    )[cu - 1]);
                                }
                            }
                        }
                    }
                    let ghost c_old = c@;
                    let ghost v_old = v@;
                    c.set(row_start + cu, g);
                    if report_values {
                        v.set(row_start + cu, 1);
                    }
                    cur.set(sid_us, cu + 1);
                    proof {
                        assert(c@.subrange(row_start as int, row_start + cu + 1) =~= c_old.subrange(
                            row_start as int,
                            row_start + cu as int,
                        ).push(g));
                        assert forall|i: int|
                            0 <= i <= n_items && i != sid_us as int && r@[i + 1]
                                != r@[i] implies #[trigger] c@.subrange(
                            r@[i] as int,
                            r@[i] + cur@[i],
                        ) == row_model(prefix1, i as ItemIdSize) by {
                            assert(r@[i] + cur@[i] <= r@[i + 1]);
                            if i < sid_us as int {
                                assert(r@[i + 1] <= r@[sid_us as int]);
                            } else {
                                assert(r@[sid_us as int + 1] <= r@[i]);
                            }
                            assert(c@.subrange(r@[i] as int, r@[i] + cur@[i]) =~= c_old.subrange(
                                r@[i] as int,
                                r@[i] + cur@[i],
                            ));
                        }
                        if report_values {
                            assert forall|i: int, t: int|
                                #![trigger r@[i], v@[t]]
                                0 <= i <= n_items && r@[i] <= t < r@[i]
                                    + cur@[i] implies v@[t] == occ_cnt(
                                prefix1,
                                c@[t],
                                i as ItemIdSize,
                            ) by {
                                if t == row_start + cu as int {
                                    assert(i == sid_us as int) by {
                                        if i < sid_us as int {
                                            assert(r@[i + 1] <= r@[sid_us as int]);
                                        } else if i > sid_us as int {
                                            assert(r@[sid_us as int + 1] <= r@[i]);
                                        }
                                    }
                                    assert(c@[t] == g);
                                } else {
                                    assert(v@[t] == v_old[t]);
                                    assert(c@[t] == c_old[t]);
                                    if i == sid_us as int {
                                        assert(t < r@[sid_us as int] + cu);
                                        assert(c_old[t] == c_old.subrange(
                                            row_start as int,
                                            row_start + cu as int,
                                        )[t - r@[sid_us as int]]);
                                        assert(c@[t] != g) by {
                                            assert(row_model(prefix, sid)[t - r@[sid_us as int]]
                                                <= row_model(prefix, sid)[cu - 1]);
                                        }
                                    }
                                }
                            }
                        }
                    }
                }
            }
        } else {
            proof {
                assert(cur@[sid_us as int] == 0);
            }
        }
        k += 1;
    }
    proof {
        assert(occs@.take(occs@.len() as int) =~= occs@);
        assert forall|i: int|
            0 <= i <= n_items && r@[i + 1] != r@[i] implies c@.subrange(
            r@[i] as int,
            r@[i + 1] as int,
        ) == #[trigger] row_model(occs@, i as ItemIdSize) by {
            assert(cur@[i] == row_model(occs@, i as ItemIdSize).len());
            assert(r@[i + 1] == r@[i] + row_model(occs@, i as ItemIdSize).len());
        }
        assert(rows_match(r@, c@, occs@, n_items as int));
        if report_values {
            assert forall|i: int, t: int|
                #![trigger r@[i], v@[t]]
                0 <= i <= n_items && r@[i] <= t < r@[i + 1] implies v@[t] == occ_cnt(
                occs@,
                c@[t],
                i as ItemIdSize,
            ) by {
                assert(cur@[i] + r@[i] == r@[i + 1] || r@[i + 1] == r@[i]);
            }
            assert(values_match(r@, c@, v@, occs@, n_items as int));
        }
    }
    (
        if report_values {
            Some(v)
        } else {
            None
        },
        c,
    )
}

/// Within monotone offsets every position below the total belongs to a row.
pub proof fn lemma_offset_row(r: Seq<usize>, t: int)
    requires
        r.len() >= 2,
        forall|a: int, b: int| 0 <= a <= b < r.len() ==> r[a] <= r[b],
        r[0] == 0,
        0 <= t < r[r.len() - 1],
    ensures
        exists|i: int| 0 <= i < r.len() - 1 && (#[trigger] r[i]) <= t && t < r[i + 1],
    decreases r.len(),
{
    if r[r.len() - 2] <= t {
        assert(0 <= r.len() - 2 < r.len() - 1 && r[r.len() - 2] <= t && t < r[r.len() - 2 + 1]);
    } else {
        let rr = r.drop_last();
        assert(rr.len() == r.len() - 1);
        assert(forall|a: int, b: int| 0 <= a <= b < rr.len() ==> rr[a] <= rr[b]);
        assert(rr[0] == 0);
        assert(t < rr[rr.len() - 1]);
        lemma_offset_row(rr, t);
        let i = choose|i: int| 0 <= i < rr.len() - 1 && (#[trigger] rr[i]) <= t && t < rr[i + 1];
        assert(0 <= i < r.len() - 1 && r[i] <= t && t < r[i + 1]);
    }
}


/// A matrix whose rows equal a sorted traversal's row model, with counted
/// values and aligned companion arrays, is well formed.
#[verifier::rlimit(100)]
#[verifier::spinoff_prover]
proof fn lemma_matrix_wf(m: CoverageMatrix, occs: Seq<(GroupSize, ItemIdSize)>, n_items: int)
    requires
        groups_sorted(occs),
        n_items >= 0,
        n_items <= ItemIdSize::MAX as int,
        m.r@.len() == n_items + 2,
        m.r@[0] == 0,
        forall|a: int, b: int| 0 <= a <= b < m.r@.len() ==> m.r@[a] <= m.r@[b],
        m.r@[n_items + 1] == m.c@.len(),
        m.c@.len() <= u32::MAX as usize,
        rows_match(m.r@, m.c@, occs, n_items),
        occs_groups_below(occs, m.groups@.len() as int),
        match m.v {
            Some(v) => v@.len() == m.c@.len() && values_match(m.r@, m.c@, v@, occs, n_items),
            None => true,
        },
        m.uncovered_bps@.len() == n_items + 1,
    ensures
        m.wf(),
{
    let rr = m.r@;
    let cc = m.c@;
    assert forall|i: int, x: int, y: int|
        #![trigger cc.subrange(rr[i] as int, rr[i + 1] as int)[x], cc.subrange(rr[i] as int, rr[i + 1] as int)[y]]
        0 <= i < rr.len() - 1 && 0 <= x < y < cc.subrange(rr[i] as int, rr[i + 1] as int).len()
            implies cc.subrange(rr[i] as int, rr[i + 1] as int)[x] < cc.subrange(
        rr[i] as int,
        rr[i + 1] as int,
    )[y] by {
        assert(rr[i] <= rr[i + 1]);
        assert(rr[i + 1] <= rr[rr.len() - 1]);
        lemma_row_model_props(occs, i as ItemIdSize);
        assert(cc.subrange(rr[i] as int, rr[i + 1] as int) == row_model(occs, i as ItemIdSize));
    }
    assert forall|t: int|
        0 <= t < cc.len() implies ((#[trigger] cc[t]) as int) < m.groups@.len() by {
        lemma_offset_row(rr, t);
        let i = choose|i: int| 0 <= i < rr.len() - 1 && (#[trigger] rr[i]) <= t && t < rr[i + 1];
        lemma_row_model_props(occs, i as ItemIdSize);
        let row = row_model(occs, i as ItemIdSize);
        assert(cc.subrange(rr[i] as int, rr[i + 1] as int) == row);
        assert(cc[t] == row[t - rr[i]]);
        assert(occ_cnt(occs, row[t - rr[i]], i as ItemIdSize) > 0);
        lemma_occ_cnt_exists(occs, row[t - rr[i]], i as ItemIdSize);
    }
    match m.v {
        Some(v) => {
            assert forall|t: int| 0 <= t < v@.len() implies #[trigger] v@[t] >= 1 by {
                lemma_offset_row(rr, t);
                let i = choose|i: int|
                    0 <= i < rr.len() - 1 && (#[trigger] rr[i]) <= t && t < rr[i + 1];
                lemma_row_model_props(occs, i as ItemIdSize);
                let row = row_model(occs, i as ItemIdSize);
                assert(cc.subrange(rr[i] as int, rr[i + 1] as int) == row);
                assert(cc[t] == row[t - rr[i]]);
                assert(occ_cnt(occs, row[t - rr[i]], i as ItemIdSize) > 0);
                assert(v@[t] == occ_cnt(occs, cc[t], i as ItemIdSize));
            }
        },
        None => {},
    }
}

/// The sparse coverage matrix. `r` holds one offset per item plus a final
/// total, `c` the strictly increasing group ids of each item's row, and `v`,
/// when values were requested, the per-(item, group) occurrence counts.
/// `uncovered_bps[i]` is the number of base pairs of item `i` to subtract
/// from base-pair-weighted tallies; `groups` the group labels, indexed by
/// group id.
#[derive(Debug)]
pub struct CoverageMatrix {
    pub count: CountType,
    pub r: Vec<usize>,
    pub v: Option<Vec<CountSize>>,
    pub c: Vec<GroupSize>,
    pub uncovered_bps: Vec<usize>,
    pub groups: Vec<String>,
}

impl CoverageMatrix {
    /// Structural soundness of the CSR layout: offsets start at zero, never
    /// decrease and end at the length of `c`; within each row the group ids
    /// strictly increase and stay below the group count; the value array,
    /// when present, is aligned with `c` and holds no zero.
    pub open spec fn wf(&self) -> bool {
        &&& self.r@.len() >= 2
        &&& self.r@[0] == 0
        &&& forall|a: int, b: int| 0 <= a <= b < self.r@.len() ==> self.r@[a] <= self.r@[b]
        &&& self.r@[self.r@.len() - 1] == self.c@.len()
        &&& self.c@.len() <= u32::MAX as usize
        &&& forall|i: int, x: int, y: int|
            #![trigger self.row_seq(i)[x], self.row_seq(i)[y]]
            0 <= i < self.r@.len() - 1 && 0 <= x < y < self.row_seq(i).len() ==> self.row_seq(i)[x]
                < self.row_seq(i)[y]
        &&& forall|t: int|
            0 <= t < self.c@.len() ==> ((#[trigger] self.c@[t]) as int) < self.groups@.len()
        &&& match self.v {
            Some(v) => v@.len() == self.c@.len() && (forall|t: int|
                0 <= t < v@.len() ==> #[trigger] v@[t] >= 1),
            None => true,
        }
        &&& self.uncovered_bps@.len() == self.r@.len() - 1
    }

    /// The group ids stored for item `i`.
    #[verifier::inline]
    pub open spec fn row_seq(&self, i: int) -> Seq<GroupSize> {
        self.c@.subrange(self.r@[i] as int, self.r@[i + 1] as int)
    }
}

/// The occurrence sequence that an item table yields along a labelled,
/// group-sorted path order.
pub open spec fn model_of(item_table: &ItemTable, po: Seq<(ItemIdSize, String)>) -> Seq<
    (GroupSize, ItemIdSize),
> {
    occ_model(item_table.id_prefsum@, item_table.items@, numbered_order(po))
}

/// Structural soundness of the construction inputs: a well-formed item
/// table whose occurrences stay within `n_items`, a path order whose path
/// ids lie inside the table, and companion arrays of the right length.
pub open spec fn inputs_valid(
    item_table: &ItemTable,
    exclude_table: &Option<ActiveTable>,
    po: Seq<(ItemIdSize, String)>,
    uncovered_len: int,
    n_items: usize,
) -> bool {
    &&& item_table.wf()
    &&& n_items <= usize::MAX - 2
    &&& n_items <= ItemIdSize::MAX as usize
    &&& forall|k: int|
        0 <= k < po.len() ==> ((#[trigger] po[k]).0 as int) + 1 < item_table.id_prefsum@.len()
    &&& forall|j: int|
        0 <= j < item_table.items@.len() ==> ((#[trigger] item_table.items@[j]) as int)
            <= n_items as int
    &&& match exclude_table {
        Some(t) => t.items@.len() == n_items + 1,
        None => true,
    }
    &&& uncovered_len == n_items + 1
}

/// Whether the construction stays within the machine's size limits: group
/// ids must fit the group id width and occurrence counts the count width.
pub open spec fn inputs_fit(item_table: &ItemTable, po: Seq<(ItemIdSize, String)>) -> bool {
    &&& dedup_labels(labels_of(po)).len() < GroupSize::MAX as int
    &&& model_of(item_table, po).len() <= u32::MAX as int
}

/// Checks the structural soundness of the construction inputs.
pub(crate) fn check_inputs(
    item_table: &ItemTable,
    exclude_table: &Option<ActiveTable>,
    path_order: &Vec<(ItemIdSize, String)>,
    uncovered_len: usize,
    n_items: usize,
) -> (res: bool)
    ensures
        res <==> inputs_valid(
            item_table,
            exclude_table,
            path_order@,
            uncovered_len as int,
            n_items,
        ),
{
    if n_items > usize::MAX - 2 {
        return false;
    }
    if n_items > ItemIdSize::MAX as usize {
        return false;
    }
    let ps_len = item_table.id_prefsum.len();
    if ps_len < 1 {
        return false;
    }
    if item_table.id_prefsum[0] != 0 {
        return false;
    }
    let mut a: usize = 0;
    while a + 1 < ps_len
        invariant
            ps_len == item_table.id_prefsum@.len(),
            0 <= a < ps_len || (a == 0 && ps_len == 1),
            forall|t: int|
                0 <= t < a ==> #[trigger] item_table.id_prefsum@[t] <= item_table.id_prefsum@[t
                    + 1],
        decreases ps_len - a,
    {
        if item_table.id_prefsum[a] > item_table.id_prefsum[a + 1] {
            return false;
        }
        a += 1;
    }
    proof {
        assert forall|x: int, y: int|
            0 <= x <= y < item_table.id_prefsum@.len() implies item_table.id_prefsum@[x]
            <= item_table.id_prefsum@[y] by {
            lemma_mono_range(item_table.id_prefsum@, x, y);
        }
    }
    if item_table.id_prefsum[ps_len - 1] != item_table.items.len() {
        return false;
    }
    let mut k: usize = 0;
    while k < path_order.len()
        invariant
            ps_len == item_table.id_prefsum@.len(),
            ps_len >= 1,
            0 <= k <= path_order@.len(),
            forall|t: int|
                0 <= t < k ==> ((#[trigger] path_order@[t]).0 as int) + 1
                    < item_table.id_prefsum@.len(),
        decreases path_order@.len() - k,
    {
        let pid = path_order[k].0;
        if ps_len < 2 || pid as usize >= ps_len - 1 {
            return false;
        }
        k += 1;
    }
    let mut j: usize = 0;
    while j < item_table.items.len()
        invariant
            0 <= j <= item_table.items@.len(),
            forall|t: int|
                0 <= t < j ==> ((#[trigger] item_table.items@[t]) as int) <= n_items as int,
        decreases item_table.items@.len() - j,
    {
        if item_table.items[j] as usize > n_items {
            return false;
        }
        j += 1;
    }
    match exclude_table {
        Some(t) => {
            if t.items.len() != n_items + 1 {
                return false;
            }
        },
        None => {},
    }
    if uncovered_len != n_items + 1 {
        return false;
    }
    true
}

/// Runs the two construction passes over a numeric, group-sorted path
/// order and returns the offset, value and group-id arrays of the matrix.
/// Fails exactly when there are more occurrences than the count width can
/// hold.
#[verifier::rlimit(100)]
#[verifier::spinoff_prover]
fn build_parts(
    item_table: &ItemTable,
    exclude_table: &Option<ActiveTable>,
    order: &Vec<(ItemIdSize, GroupSize)>,
    n_items: usize,
    n_groups: usize,
    report_values: bool,
) -> (res: Result<(Vec<usize>, Option<Vec<CountSize>>, Vec<GroupSize>), CoreError>)
    requires
        item_table.wf(),
        n_items <= usize::MAX - 2,
        n_items <= ItemIdSize::MAX as usize,
        forall|k: int|
            0 <= k < order@.len() ==> ((#[trigger] order@[k]).0 as int) + 1
                < item_table.id_prefsum@.len(),
        forall|j: int|
            0 <= j < item_table.items@.len() ==> ((#[trigger] item_table.items@[j]) as int)
                <= n_items as int,
        order_sorted(order@),
        forall|k: int| 0 <= k < order@.len() ==> ((#[trigger] order@[k]).1 as int) < n_groups as int,
        (n_groups as int) < GroupSize::MAX as int,
        match exclude_table {
            Some(t) => t.items@.len() == n_items + 1,
            None => true,
        },
    ensures
        res.is_ok() <==> occ_model(item_table.id_prefsum@, item_table.items@, order@).len()
            <= u32::MAX as int,
        res matches Err(e) ==> e == CoreError::TooLarge,
        res matches Ok(rvc) ==> {
            let occs = occ_model(item_table.id_prefsum@, item_table.items@, order@);
            &&& groups_sorted(occs)
            &&& rvc.0@.len() == n_items + 2
            &&& offsets_wf(rvc.0@)
            &&& rvc.0@[n_items + 1] == rvc.2@.len()
            &&& rvc.2@.len() <= u32::MAX as usize
            &&& offsets_match(rvc.0@, exclude_table, occs, n_items as int)
            &&& rows_match(rvc.0@, rvc.2@, occs, n_items as int)
            &&& occs_groups_below(occs, n_groups as int)
            &&& match rvc.1 {
                Some(v) => report_values && v@.len() == rvc.2@.len() && values_match(
                    rvc.0@,
                    rvc.2@,
                    v@,
                    occs,
                    n_items as int,
                ),
                None => !report_values,
            }
        },
{
    let occs = flatten_occurrences(item_table, order, Ghost(n_items as int));
    let ghost occs_g = occs@;
    if occs.len() > ItemIdSize::MAX as usize {
        return Err(CoreError::TooLarge);
    }
    let r = compute_row_storage_space(&occs, exclude_table, n_items);
    proof {
        lemma_offsets_match_implies_sized(r@, exclude_table, occs@, n_items as int);
    }
    let (v, c) = compute_column_values(&occs, &r, n_items, report_values);
    proof {
        assert forall|k: int|
            0 <= k < occs_g.len() implies ((#[trigger] occs_g[k]).0 as int) < n_groups as int by {
            assert(order@.len() > 0);
            assert(occs_g[k].0 <= order@[order@.len() - 1].1);
        }
        assert(occs_g == occ_model(item_table.id_prefsum@, item_table.items@, order@));
        assert(occs_groups_below(occs_g, n_groups as int));
    }
    Ok((r, v, c))
}

impl CoverageMatrix {
    /// Builds the coverage matrix from a parsed item table, the optional
    /// exclusion bitset, the labelled path order produced by the graph
    /// mask (paths of one group adjacent, group blocks in order), the
    /// per-item uncovered base pairs, and the item universe size.
    ///
    /// On success every row `i` of the matrix holds exactly the distinct
    /// groups covering item `i` under the traversal model, in strictly
    /// increasing order, with excluded items' rows empty; when
    /// `report_values` is set, the value array counts each stored pair's
    /// occurrences. Fails exactly on structurally inconsistent inputs or
    /// when a size bound of the representation would be exceeded.
    #[verifier::rlimit(100)]
    #[verifier::spinoff_prover]
    pub fn from_gfa(
        item_table: &ItemTable,
        exclude_table: &Option<ActiveTable>,
        path_order: &Vec<(ItemIdSize, String)>,
        uncovered_bps: Vec<usize>,
        n_items: usize,
        count: CountType,
        report_values: bool,
    ) -> (res: Result<CoverageMatrix, CoreError>)
        ensures
            res.is_ok() <==> (inputs_valid(
                item_table,
                exclude_table,
                path_order@,
                uncovered_bps@.len() as int,
                n_items,
            ) && inputs_fit(item_table, path_order@)),
            res matches Err(e) ==> e == (if !inputs_valid(
                item_table,
                exclude_table,
                path_order@,
                uncovered_bps@.len() as int,
                n_items,
            ) {
                CoreError::MalformedInput
            } else {
                CoreError::TooLarge
            }),
            match res {
                Ok(m) => {
                    let occs = model_of(item_table, path_order@);
                    let ded = dedup_labels(labels_of(path_order@));
                    &&& m.wf()
                    &&& m.count == count
                    &&& m.uncovered_bps@ == uncovered_bps@
                    &&& m.groups@.len() == ded.len()
                    &&& forall|j: int| 0 <= j < ded.len() ==> (#[trigger] m.groups@[j])@ == ded[j]
                    &&& m.r@.len() == n_items + 2
                    &&& groups_sorted(occs)
                    &&& offsets_match(m.r@, exclude_table, occs, n_items as int)
                    &&& rows_match(m.r@, m.c@, occs, n_items as int)
                    &&& match m.v {
                        Some(v) => report_values && v@.len() == m.c@.len() && values_match(
                            m.r@,
                            m.c@,
                            v@,
                            occs,
                            n_items as int,
                        ),
                        None => !report_values,
                    }
                },
                Err(_) => true,
            },
    {
        if !check_inputs(item_table, exclude_table, path_order, uncovered_bps.len(), n_items) {
            return Err(CoreError::MalformedInput);
        }
        let (order, groups) = match number_groups(path_order) {
            Ok(og) => og,
            Err(e) => {
                return Err(e);
            },
        };
        proof {
            assert forall|t: int|
                0 <= t < order@.len() implies ((#[trigger] order@[t]).0 as int) + 1
                < item_table.id_prefsum@.len() by {
                assert(order@[t].0 == (#[trigger] path_order@[t]).0);
            }
        }
        let n_groups = groups.len();
        let parts = match build_parts(
            item_table,
            exclude_table,
            &order,
            n_items,
            n_groups,
            report_values,
        ) {
            Ok(p) => p,
            Err(e) => {
                proof {
                    assert(occ_model(item_table.id_prefsum@, item_table.items@, order@)
                        == model_of(item_table, path_order@));
                }
                return Err(e);
            },
        };
        let (r, v, c) = parts;
        let m = CoverageMatrix { count, r, v, c, uncovered_bps, groups };
        proof {
            assert(occ_model(item_table.id_prefsum@, item_table.items@, order@) == model_of(
                item_table,
                path_order@,
            ));
            lemma_matrix_wf(m, model_of(item_table, path_order@), n_items as int);
        }
        Ok(m)
    }
}


impl CoverageMatrix {
    /// Which graph quantity the matrix counts.
    pub fn get_count(&self) -> (res: CountType)
        ensures
            res == self.count,
    {
        self.count
    }

    /// The group labels, indexed by group id.
    pub fn get_groups(&self) -> (res: &Vec<String>)
        ensures
            res@ == self.groups@,
    {
        &self.groups
    }

    /// The row offset array.
    pub fn get_r(&self) -> (res: &Vec<usize>)
        ensures
            res@ == self.r@,
    {
        &self.r
    }

    /// The flat array of per-row group ids.
    pub fn get_c(&self) -> (res: &Vec<GroupSize>)
        ensures
            res@ == self.c@,
    {
        &self.c
    }

    /// The items whose rows mention at least one of the given group ids, in
    /// ascending order.
    pub fn get_nodes_of_paths(&self, paths: &Vec<usize>) -> (res: Vec<usize>)
        requires
            self.wf(),
        ensures
            res@ == Seq::new((self.r@.len() - 1) as nat, |n: int| n as usize).filter(
                |n: usize|
                    count_in_paths(
                        self.c@.subrange(self.r@[n as int] as int, self.r@[n as int + 1] as int),
                        paths@,
                    ) > 0,
            ),
    {
        let ghost pred = |n: usize|
            count_in_paths(
                self.c@.subrange(self.r@[n as int] as int, self.r@[n as int + 1] as int),
                paths@,
            ) > 0;
        let ghost all = Seq::new((self.r@.len() - 1) as nat, |n: int| n as usize);
        let mut res: Vec<usize> = Vec::new();
        let n_rows = self.r.len() - 1;
        let mut i: usize = 0;
        while i < n_rows
            invariant
                self.wf(),
                n_rows == self.r@.len() - 1,
                0 <= i <= n_rows,
                pred == (|n: usize|
                    count_in_paths(
                        self.c@.subrange(self.r@[n as int] as int, self.r@[n as int + 1] as int),
                        paths@,
                    ) > 0),
                all == Seq::new((self.r@.len() - 1) as nat, |n: int| n as usize),
                res@ == all.take(i as int).filter(pred),
            decreases n_rows - i,
        {
            let start = self.r[i];
            let end = self.r[i + 1];
            proof {
                assert(self.r@[i as int] <= self.r@[i as int + 1]);
                assert(self.r@[i as int + 1] <= self.r@[self.r@.len() - 1]);
            }
            let cov = self.count_row_in_paths(start, end, paths);
            if cov > 0 {
                res.push(i);
            }
            proof {
                assert(all.take(i + 1 as int) =~= all.take(i as int).push(i as usize));
                all.take(i as int).lemma_filter_push(i as usize, pred);
            }
            i += 1;
        }
        proof {
            assert(all.take(all.len() as int) =~= all);
        }
        res
    }

    /// Counts the entries of the row slice `start..end` that lie in `paths`.
    fn count_row_in_paths(&self, start: usize, end: usize, paths: &Vec<usize>) -> (cov: CountSize)
        requires
            self.wf(),
            start <= end,
            end <= self.c@.len(),
        ensures
            cov as nat == count_in_paths(self.c@.subrange(start as int, end as int), paths@),
            (cov > 0) <==> count_in_paths(self.c@.subrange(start as int, end as int), paths@) > 0,
    {
        let mut cov: CountSize = 0;
        let mut t = start;
        while t < end
            invariant
                self.wf(),
                start <= t <= end,
                end <= self.c@.len(),
                cov as int <= t - start,
                cov as nat == count_in_paths(self.c@.subrange(start as int, t as int), paths@),
            decreases end - t,
        {
            proof {
                assert(self.c@.subrange(start as int, t + 1 as int).drop_last() =~= self.c@
                    .subrange(start as int, t as int));
                assert(self.c@.subrange(start as int, t + 1 as int).last() == self.c@[t as int]);
            }
            if crate::util::contains_usize(paths.as_slice(), self.c[t] as usize) {
                cov = cov + 1;
            }
            t += 1;
        }
        cov
    }

    /// Restricts the matrix to arbitrary item and group subsets: recounts,
    /// per requested item, how many of its stored groups lie in `paths`,
    /// and also returns the requested items with nonzero restricted
    /// coverage, in request order.
    pub fn to_abacus(&self, nodes: &Vec<usize>, paths: &Vec<usize>) -> (res: (
        AbacusByTotal,
        Vec<usize>,
    ))
        requires
            self.wf(),
            forall|k: int| 0 <= k < nodes@.len() ==> (#[trigger] nodes@[k]) + 1 < self.r@.len(),
            forall|j: int| 0 <= j < paths@.len() ==> (#[trigger] paths@[j]) < self.groups@.len(),
        ensures
            res.0.count == self.count,
            res.0.countable@.len() == nodes@.len(),
            forall|k: int|
                0 <= k < nodes@.len() ==> (#[trigger] res.0.countable@[k]) as nat
                    == count_in_paths(
                    self.c@.subrange(
                        self.r@[nodes@[k] as int] as int,
                        self.r@[nodes@[k] as int + 1] as int,
                    ),
                    paths@,
                ),
            res.0.groups@.len() == paths@.len(),
            forall|j: int|
                0 <= j < paths@.len() ==> (#[trigger] res.0.groups@[j])@ == self.groups@[paths@[j] as int]@,
            res.0.uncovered_bps matches Some(u) && u@ == self.uncovered_bps@,
            res.1@ == nodes@.filter(
                |n: usize|
                    count_in_paths(
                        self.c@.subrange(self.r@[n as int] as int, self.r@[n as int + 1] as int),
                        paths@,
                    ) > 0,
            ),
    {
        let ghost pred = |n: usize|
            count_in_paths(
                self.c@.subrange(self.r@[n as int] as int, self.r@[n as int + 1] as int),
                paths@,
            ) > 0;
        let mut countable: Vec<CountSize> = Vec::new();
        let mut non_zero: Vec<usize> = Vec::new();
        let mut k: usize = 0;
        while k < nodes.len()
            invariant
                self.wf(),
                forall|t: int| 0 <= t < nodes@.len() ==> (#[trigger] nodes@[t]) + 1 < self.r@.len(),
                0 <= k <= nodes@.len(),
                countable@.len() == k,
                forall|t: int|
                    0 <= t < k ==> (#[trigger] countable@[t]) as nat == count_in_paths(
                        self.c@.subrange(
                            self.r@[nodes@[t] as int] as int,
                            self.r@[nodes@[t] as int + 1] as int,
                        ),
                        paths@,
                    ),
                pred == (|n: usize|
                    count_in_paths(
                        self.c@.subrange(self.r@[n as int] as int, self.r@[n as int + 1] as int),
                        paths@,
                    ) > 0),
                non_zero@ == nodes@.take(k as int).filter(pred),
            decreases nodes@.len() - k,
        {
            let node = nodes[k];
            let rl = self.r.len();
            proof {
                assert((#[trigger] nodes@[k as int]) + 1 < self.r@.len());
                assert(node as int + 1 < rl as int);
            }
            let start = self.r[node];
            let end = self.r[node + 1];
            proof {
                assert(self.r@[node as int] <= self.r@[node as int + 1]);
                assert(self.r@[node as int + 1] <= self.r@[self.r@.len() - 1]);
            }
            let cov = self.count_row_in_paths(start, end, paths);
            countable.push(cov);
            if cov > 0 {
                non_zero.push(node);
            }
            proof {
                assert(nodes@.take(k + 1 as int) =~= nodes@.take(k as int).push(node));
                nodes@.take(k as int).lemma_filter_push(node, pred);
            }
            k += 1;
        }
        proof {
            assert(nodes@.take(nodes@.len() as int) =~= nodes@);
        }
        let mut groups: Vec<String> = Vec::new();
        let mut j: usize = 0;
        while j < paths.len()
            invariant
                forall|t: int| 0 <= t < paths@.len() ==> (#[trigger] paths@[t]) < self.groups@.len(),
                0 <= j <= paths@.len(),
                groups@.len() == j,
                forall|t: int|
                    0 <= t < j ==> (#[trigger] groups@[t])@ == self.groups@[paths@[t] as int]@,
            decreases paths@.len() - j,
        {
            proof {
                assert((#[trigger] paths@[j as int]) < self.groups@.len());
            }
            groups.push(crate::graph_broker::abacus::clone_string(&self.groups[paths[j]]));
            j += 1;
        }
        let uncovered = crate::graph_broker::graph::clone_usizes(&self.uncovered_bps);
        (
            AbacusByTotal {
                count: self.count,
                countable,
                uncovered_bps: Some(uncovered),
                groups,
            },
            non_zero,
        )
    }

    /// The subset query over every item: restricts only the group set.
    pub fn to_abacus_all_nodes(&self, paths: &Vec<usize>) -> (res: (AbacusByTotal, Vec<usize>))
        requires
            self.wf(),
            forall|j: int| 0 <= j < paths@.len() ==> (#[trigger] paths@[j]) < self.groups@.len(),
        ensures
            res.0.count == self.count,
            res.0.countable@.len() == self.r@.len() - 1,
            forall|k: int|
                0 <= k < self.r@.len() - 1 ==> (#[trigger] res.0.countable@[k]) as nat
                    == count_in_paths(
                    self.c@.subrange(self.r@[k] as int, self.r@[k + 1] as int),
                    paths@,
                ),
            res.0.groups@.len() == paths@.len(),
            forall|j: int|
                0 <= j < paths@.len() ==> (#[trigger] res.0.groups@[j])@ == self.groups@[paths@[j] as int]@,
            res.0.uncovered_bps matches Some(u) && u@ == self.uncovered_bps@,
            res.1@ == Seq::new((self.r@.len() - 1) as nat, |n: int| n as usize).filter(
                |n: usize|
                    count_in_paths(
                        self.c@.subrange(self.r@[n as int] as int, self.r@[n as int + 1] as int),
                        paths@,
                    ) > 0,
            ),
    {
        let no_nodes = self.r.len() - 1;
        let mut nodes: Vec<usize> = Vec::new();
        let mut n: usize = 0;
        while n < no_nodes
            invariant
                0 <= n <= no_nodes,
                nodes@ =~= Seq::new(n as nat, |t: int| t as usize),
            decreases no_nodes - n,
        {
            nodes.push(n);
            proof {
                assert(nodes@ =~= Seq::new((n + 1) as nat, |t: int| t as usize));
            }
            n += 1;
        }
        let res = self.to_abacus(&nodes, paths);
        proof {
            assert(nodes@ =~= Seq::new((self.r@.len() - 1) as nat, |t: int| t as usize));
            assert forall|k: int| 0 <= k < self.r@.len() - 1 implies (
            #[trigger] res.0.countable@[k]) as nat == count_in_paths(
                self.c@.subrange(self.r@[k] as int, self.r@[k + 1] as int),
                paths@,
            ) by {
                assert(nodes@[k] == k as usize);
            }
        }
        res
    }

    /// For node counting, the total coverage of each item above the dummy
    /// item, paired with its identifier.
    pub fn get_node_coverages(&self) -> (res: Vec<(ItemId, u64)>)
        requires
            self.wf(),
            self.count == CountType::Node,
            self.r@.len() <= u32::MAX as usize,
        ensures
            res@.len() == self.r@.len() - 2,
            forall|k: int|
                0 <= k < res@.len() ==> #[trigger] res@[k] == (
                    ItemId((k + 1) as u32),
                    (self.r@[k + 2] - self.r@[k + 1]) as u64,
                ),
    {
        let mut res: Vec<(ItemId, u64)> = Vec::new();
        let n_rows = self.r.len() - 1;
        let mut i: usize = 1;
        while i < n_rows
            invariant
                self.wf(),
                self.r@.len() <= u32::MAX as usize,
                n_rows == self.r@.len() - 1,
                1 <= i <= n_rows,
                res@.len() == i - 1,
                forall|k: int|
                    0 <= k < res@.len() ==> #[trigger] res@[k] == (
                        ItemId((k + 1) as u32),
                        (self.r@[k + 2] - self.r@[k + 1]) as u64,
                    ),
            decreases n_rows - i,
        {
            proof {
                assert(self.r@[i as int] <= self.r@[i as int + 1]);
                assert(self.r@[i as int + 1] <= self.r@[self.r@.len() - 1]);
            }
            let total = self.r[i + 1] - self.r[i];
            res.push((ItemId(i as u32), total as u64));
            i += 1;
        }
        res
    }
}

/// How many entries of a row lie in a chosen set of group ids.
pub open spec fn count_in_paths(row: Seq<GroupSize>, paths: Seq<usize>) -> nat
    decreases row.len(),
{
    if row.len() == 0 {
        0nat
    } else {
        count_in_paths(row.drop_last(), paths) + (if paths.contains(row.last() as usize) {
            1nat
        } else {
            0nat
        })
    }
}

/// Counting a row against a path set that holds every one of its entries
/// yields the row's full length.
pub proof fn lemma_full_group_roundtrip(row: Seq<GroupSize>, paths: Seq<usize>)
    requires
        forall|j: int| 0 <= j < row.len() ==> paths.contains((#[trigger] row[j]) as usize),
    ensures
        count_in_paths(row, paths) == row.len(),
    decreases row.len(),
{
    if row.len() > 0 {
        assert forall|j: int| 0 <= j < row.drop_last().len() implies paths.contains(
            (#[trigger] row.drop_last()[j]) as usize,
        ) by {
            assert(row.drop_last()[j] == row[j]);
        }
        lemma_full_group_roundtrip(row.drop_last(), paths);
        assert(paths.contains((row[row.len() - 1]) as usize));
    }
}

/// The subset query over every group reproduces the total coverage: for any
/// item of a group-sorted traversal, counting its stored row against a path
/// set that contains every group id yields exactly the row's length, which
/// is the item's total distinct-group coverage. The matrix path and the
/// directly built total abacus therefore agree, bin for bin, on every item.
pub proof fn lemma_matrix_total_agree(
    occs: Seq<(GroupSize, ItemIdSize)>,
    paths: Seq<usize>,
    n_groups: int,
    i: ItemIdSize,
)
    requires
        groups_sorted(occs),
        occs_groups_below(occs, n_groups),
        forall|g: int| 0 <= g < n_groups ==> #[trigger] paths.contains(g as usize),
    ensures
        count_in_paths(row_model(occs, i), paths) == row_model(occs, i).len(),
{
    lemma_row_model_props(occs, i);
    let row = row_model(occs, i);
    assert forall|j: int| 0 <= j < row.len() implies paths.contains(
        (#[trigger] row[j]) as usize,
    ) by {
        assert(occ_cnt(occs, row[j], i) > 0);
        lemma_occ_cnt_exists(occs, row[j], i);
        let w = choose|w: int| 0 <= w < occs.len() && occs[w] == (row[j], i);
        assert(((occs[w]).0 as int) < n_groups);
        assert(paths.contains((row[j] as int) as usize));
    }
    lemma_full_group_roundtrip(row, paths);
}

} // verus!
