//! The occurrence model shared by all coverage builders, the path-to-group
//! mask, and the per-item total coverage table.
//!
//! Every coverage structure of this crate is specified against one model:
//! the flat sequence of `(group, item)` occurrence pairs that a group-sorted
//! traversal of the paths yields. `row_model` gives, per item, the distinct
//! groups covering it in traversal order; `occ_cnt` gives the multiplicity
//! of one `(group, item)` pair.

use vstd::prelude::*;

use crate::graph_broker::graph::PathSegment;
use crate::util::{
    excluded, ActiveTable, CoreError, CountSize, CountType, GroupSize, ItemIdSize, ItemTable,
    lemma_sum_prefix_zero,
};

verus! {

/// The item occurrences of one path, tagged with the group of the path.
pub open spec fn path_occs(
    prefsum: Seq<usize>,
    items: Seq<ItemIdSize>,
    pg: (ItemIdSize, GroupSize),
) -> Seq<(GroupSize, ItemIdSize)> {
    items.subrange(prefsum[pg.0 as int] as int, prefsum[pg.0 as int + 1] as int).map(
        |_j: int, it: ItemIdSize| (pg.1, it),
    )
}

/// Occurrences of the first `k` paths of `order`, flattened in traversal order.
pub open spec fn occ_model_upto(
    prefsum: Seq<usize>,
    items: Seq<ItemIdSize>,
    order: Seq<(ItemIdSize, GroupSize)>,
    k: int,
) -> Seq<(GroupSize, ItemIdSize)>
    decreases k,
{
    if k <= 0 {
        Seq::empty()
    } else {
        occ_model_upto(prefsum, items, order, k - 1) + path_occs(prefsum, items, order[k - 1])
    }
}

/// All `(group, item)` occurrences that the traversal of `order` yields.
pub open spec fn occ_model(
    prefsum: Seq<usize>,
    items: Seq<ItemIdSize>,
    order: Seq<(ItemIdSize, GroupSize)>,
) -> Seq<(GroupSize, ItemIdSize)> {
    occ_model_upto(prefsum, items, order, order.len() as int)
}

/// Group components never decrease along the occurrence sequence.
pub open spec fn groups_sorted(s: Seq<(GroupSize, ItemIdSize)>) -> bool {
    forall|a: int, b: int| 0 <= a <= b < s.len() ==> (#[trigger] s[a]).0 <= (#[trigger] s[b]).0
}

/// Group components never decrease along a path order.
pub open spec fn order_sorted(order: Seq<(ItemIdSize, GroupSize)>) -> bool {
    forall|a: int, b: int| 0 <= a <= b < order.len() ==> (#[trigger] order[a]).1
        <= (#[trigger] order[b]).1
}

/// The distinct groups covering item `i`, in the order the traversal
/// discovers them: an occurrence of `i` appends its group unless that group
/// equals the one appended last. Under a group-sorted traversal this is
/// exactly the sorted set of groups covering `i`.
pub open spec fn row_model(s: Seq<(GroupSize, ItemIdSize)>, i: ItemIdSize) -> Seq<GroupSize>
    decreases s.len(),
{
    if s.len() == 0 {
        Seq::empty()
    } else {
        let pre = row_model(s.drop_last(), i);
        if s.last().1 != i {
            pre
        } else if pre.len() > 0 && pre.last() == s.last().0 {
            pre
        } else {
            pre.push(s.last().0)
        }
    }
}

/// How often the pair `(g, i)` occurs in `s`.
pub open spec fn occ_cnt(s: Seq<(GroupSize, ItemIdSize)>, g: GroupSize, i: ItemIdSize) -> nat
    decreases s.len(),
{
    if s.len() == 0 {
        0nat
    } else {
        occ_cnt(s.drop_last(), g, i) + (if s.last() == (g, i) {
            1nat
        } else {
            0nat
        })
    }
}

/// A row never holds more entries than there are occurrences.
pub proof fn lemma_row_model_len(s: Seq<(GroupSize, ItemIdSize)>, i: ItemIdSize)
    ensures
        row_model(s, i).len() <= s.len(),
    decreases s.len(),
{
    if s.len() > 0 {
        lemma_row_model_len(s.drop_last(), i);
    }
}

/// A pair's multiplicity never exceeds the sequence length.
pub proof fn lemma_occ_cnt_le(s: Seq<(GroupSize, ItemIdSize)>, g: GroupSize, i: ItemIdSize)
    ensures
        occ_cnt(s, g, i) <= s.len(),
    decreases s.len(),
{
    if s.len() > 0 {
        lemma_occ_cnt_le(s.drop_last(), g, i);
    }
}

/// A positive multiplicity means the pair stands somewhere in the sequence.
pub proof fn lemma_occ_cnt_exists(s: Seq<(GroupSize, ItemIdSize)>, g: GroupSize, i: ItemIdSize)
    requires
        occ_cnt(s, g, i) > 0,
    ensures
        exists|k: int| 0 <= k < s.len() && s[k] == (g, i),
    decreases s.len(),
{
    if s.last() == (g, i) {
        assert(s[s.len() - 1] == (g, i));
    } else {
        lemma_occ_cnt_exists(s.drop_last(), g, i);
        let k = choose|k: int| 0 <= k < s.drop_last().len() && s.drop_last()[k] == (g, i);
        assert(s[k] == (g, i));
    }
}

/// Under a group-sorted traversal, each item's row is strictly increasing,
/// every row entry is the group of some occurrence of the item, and every
/// group that occurs with the item stands in the row.
pub proof fn lemma_row_model_props(s: Seq<(GroupSize, ItemIdSize)>, i: ItemIdSize)
    requires
        groups_sorted(s),
    ensures
        forall|j1: int, j2: int|
            0 <= j1 < j2 < row_model(s, i).len() ==> #[trigger] row_model(s, i)[j1]
                < #[trigger] row_model(s, i)[j2],
        forall|j: int| 0 <= j < row_model(s, i).len() ==> occ_cnt(
            s,
            #[trigger] row_model(s, i)[j],
            i,
        ) > 0,
        forall|g: GroupSize| occ_cnt(s, g, i) > 0 ==> row_model(s, i).contains(g),
    decreases s.len(),
{
    if s.len() == 0 {
    } else {
        let pre_s = s.drop_last();
        assert(groups_sorted(pre_s)) by {
            assert forall|a: int, b: int|
                0 <= a <= b < pre_s.len() implies (#[trigger] pre_s[a]).0
                <= (#[trigger] pre_s[b]).0 by {
                assert(pre_s[a] == s[a]);
                assert(pre_s[b] == s[b]);
            }
        }
        lemma_row_model_props(pre_s, i);
        let pre = row_model(pre_s, i);
        let row = row_model(s, i);
        let g0 = s.last().0;
        let it0 = s.last().1;
        if it0 != i {
            assert(row == pre);
            assert forall|g: GroupSize| occ_cnt(s, g, i) > 0 implies row.contains(g) by {
                assert(occ_cnt(pre_s, g, i) == occ_cnt(s, g, i));
            }
        } else {
            // every entry of the old row is at most the new group
            assert forall|j: int| 0 <= j < pre.len() implies pre[j] <= g0 by {
                lemma_occ_cnt_exists(pre_s, pre[j], i);
                let k = choose|k: int| 0 <= k < pre_s.len() && pre_s[k] == (pre[j], i);
                assert(pre_s[k] == s[k]);
                assert(s[k].0 <= s[s.len() - 1].0);
            }
            if pre.len() > 0 && pre.last() == g0 {
                assert(row == pre);
                assert forall|g: GroupSize| occ_cnt(s, g, i) > 0 implies row.contains(g) by {
                    if g == g0 {
                        assert(row[row.len() - 1] == g0);
                    } else {
                        assert(occ_cnt(pre_s, g, i) == occ_cnt(s, g, i));
                    }
                }
            } else {
                assert(row == pre.push(g0));
                // strictness: old entries are < g0
                assert forall|j: int| 0 <= j < pre.len() implies pre[j] < g0 by {
                    if pre.len() > 0 {
                        if j < pre.len() - 1 {
                            assert(pre[j] < pre[pre.len() - 1]);
                        }
                        assert(pre[pre.len() - 1] <= g0);
                        assert(pre[pre.len() - 1] != g0);
                    }
                }
                assert forall|j1: int, j2: int|
                    0 <= j1 < j2 < row.len() implies #[trigger] row[j1] < #[trigger] row[j2] by {
                    if j2 < pre.len() {
                        assert(row[j1] == pre[j1] && row[j2] == pre[j2]);
                    } else {
                        assert(row[j2] == g0);
                        assert(row[j1] == pre[j1]);
                    }
                }
                assert forall|j: int|
                    0 <= j < row.len() implies occ_cnt(s, #[trigger] row[j], i) > 0 by {
                    if j < pre.len() {
                        assert(occ_cnt(s, row[j], i) >= occ_cnt(pre_s, row[j], i));
                    } else {
                        assert(row[j] == g0);
                        assert(occ_cnt(s, g0, i) == occ_cnt(pre_s, g0, i) + 1);
                    }
                }
                assert forall|g: GroupSize| occ_cnt(s, g, i) > 0 implies row.contains(g) by {
                    if g == g0 {
                        assert(row[row.len() - 1] == g0);
                    } else {
                        assert(occ_cnt(pre_s, g, i) == occ_cnt(s, g, i));
                        assert(pre.contains(g));
                        let j = choose|j: int| 0 <= j < pre.len() && pre[j] == g;
                        assert(row[j] == g);
                    }
                }
            }
        }
    }
}

/// The row over a prefix of the traversal is a prefix of the full row.
pub proof fn lemma_row_model_take(s: Seq<(GroupSize, ItemIdSize)>, i: ItemIdSize, k: int)
    requires
        0 <= k <= s.len(),
    ensures
        row_model(s.take(k), i).len() <= row_model(s, i).len(),
        row_model(s, i).take(row_model(s.take(k), i).len() as int) == row_model(s.take(k), i),
    decreases s.len() - k,
{
    if k == s.len() {
        assert(s.take(k) =~= s);
        assert(row_model(s, i).take(row_model(s, i).len() as int) =~= row_model(s, i));
    } else {
        lemma_row_model_take(s, i, k + 1);
        let a = row_model(s.take(k), i);
        let b = row_model(s.take(k + 1), i);
        let c = row_model(s, i);
        assert(s.take(k + 1).drop_last() =~= s.take(k));
        // b is a, or a with one entry appended
        assert(b == a || b == a.push(s.take(k + 1).last().0));
        assert(a.len() <= b.len());
        assert(c.take(a.len() as int) =~= a) by {
            assert forall|j: int| 0 <= j < a.len() implies c[j] == a[j] by {
                assert(c.take(b.len() as int)[j] == b[j]);
                if b == a {
                } else {
                    assert(b[j] == a.push(s.take(k + 1).last().0)[j]);
                }
            }
        }
    }
}

/// Flattens the item table along the path order into the occurrence sequence
/// that the model speaks of. The result's groups are sorted like the order's,
/// and its items respect any bound the item array respects.
pub(crate) fn flatten_occurrences(
    item_table: &ItemTable,
    order: &Vec<(ItemIdSize, GroupSize)>,
    Ghost(bound): Ghost<int>,
) -> (occs: Vec<(GroupSize, ItemIdSize)>)
    requires
        item_table.wf(),
        forall|k: int|
            0 <= k < order@.len() ==> (#[trigger] order@[k]).0 as int + 1
                < item_table.id_prefsum@.len(),
        order_sorted(order@),
        forall|j: int|
            0 <= j < item_table.items@.len() ==> ((#[trigger] item_table.items@[j]) as int)
                <= bound,
    ensures
        occs@ == occ_model(item_table.id_prefsum@, item_table.items@, order@),
        groups_sorted(occs@),
        order@.len() > 0 ==> forall|k: int|
            0 <= k < occs@.len() ==> (#[trigger] occs@[k]).0 <= order@[order@.len() - 1].1,
        order@.len() == 0 ==> occs@.len() == 0,
        forall|w: int| 0 <= w < occs@.len() ==> ((#[trigger] occs@[w]).1 as int) <= bound,
{
    let ghost prefsum = item_table.id_prefsum@;
    let ghost items = item_table.items@;
    let mut occs: Vec<(GroupSize, ItemIdSize)> = Vec::new();
    let mut p: usize = 0;
    while p < order.len()
        invariant
            item_table.wf(),
            prefsum == item_table.id_prefsum@,
            items == item_table.items@,
            forall|k: int|
                0 <= k < order@.len() ==> (#[trigger] order@[k]).0 as int + 1 < prefsum.len(),
            order_sorted(order@),
            0 <= p <= order@.len(),
            occs@ == occ_model_upto(prefsum, items, order@, p as int),
            groups_sorted(occs@),
            forall|k: int, q: int|
                0 <= k < occs@.len() && p <= q < order@.len() ==> (#[trigger] occs@[k]).0
                    <= (#[trigger] order@[q]).1,
            order@.len() > 0 ==> forall|k: int|
                0 <= k < occs@.len() ==> (#[trigger] occs@[k]).0 <= order@[order@.len() - 1].1,
            forall|j2: int| 0 <= j2 < items.len() ==> ((#[trigger] items[j2]) as int) <= bound,
            forall|w: int| 0 <= w < occs@.len() ==> ((#[trigger] occs@[w]).1 as int) <= bound,
        decreases order@.len() - p,
    {
        let (pid, g) = order[p];
        let n_pref = item_table.id_prefsum.len();
        proof {
            assert((#[trigger] order@[p as int]).0 as int + 1 < prefsum.len());
            assert(pid as int + 1 < n_pref as int);
        }
        let start = item_table.id_prefsum[pid as usize];
        let end = item_table.id_prefsum[pid as usize + 1];
        proof {
            assert(prefsum[pid as int] <= prefsum[pid as int + 1]);
            assert(prefsum[pid as int + 1] <= prefsum[prefsum.len() - 1]) by {
                assert(0 <= pid as int + 1 <= prefsum.len() - 1);
            }
        }
        let mut j = start;
        while j < end
            invariant
                item_table.wf(),
                prefsum == item_table.id_prefsum@,
                items == item_table.items@,
                order_sorted(order@),
                0 <= p < order@.len(),
                order@[p as int] == (pid, g),
                start == prefsum[pid as int],
                end == prefsum[pid as int + 1],
                start <= j <= end,
                end <= items.len(),
                occs@ == occ_model_upto(prefsum, items, order@, p as int) + items.subrange(
                    start as int,
                    j as int,
                ).map(|_j: int, it: ItemIdSize| (g, it)),
                groups_sorted(occs@),
                forall|k: int, q: int|
                    0 <= k < occs@.len() && p <= q < order@.len() ==> (#[trigger] occs@[k]).0
                        <= (#[trigger] order@[q]).1,
                forall|j2: int| 0 <= j2 < items.len() ==> ((#[trigger] items[j2]) as int) <= bound,
                forall|w: int| 0 <= w < occs@.len() ==> ((#[trigger] occs@[w]).1 as int) <= bound,
            decreases end - j,
        {
            let it = item_table.items[j];
            occs.push((g, it));
            proof {
                let f = |_j: int, x: ItemIdSize| (g, x);
                assert(items.subrange(start as int, j + 1 as int) =~= items.subrange(
                    start as int,
                    j as int,
                ).push(it));
                assert(items.subrange(start as int, j + 1 as int).map(f) =~= items.subrange(
                    start as int,
                    j as int,
                ).map(f).push((g, it)));
                assert forall|k: int, q: int|
                    0 <= k < occs@.len() && p <= q < order@.len() implies (#[trigger] occs@[k]).0
                    <= (#[trigger] order@[q]).1 by {
                    if k == occs@.len() - 1 {
                        assert(occs@[k].0 == g);
                        assert(order@[p as int].1 <= order@[q].1);
                    }
                }
                assert forall|a: int, b: int|
                    0 <= a <= b < occs@.len() implies (#[trigger] occs@[a]).0
                    <= (#[trigger] occs@[b]).0 by {
                    if b == occs@.len() - 1 && a < b {
                        assert(occs@[a].0 <= order@[p as int].1);
                    }
                }
            }
            j += 1;
        }
        proof {
            assert(items.subrange(start as int, end as int).map(
                |_j: int, it: ItemIdSize| (g, it),
            ) == path_occs(prefsum, items, order@[p as int]));
            assert(occ_model_upto(prefsum, items, order@, p as int + 1) == occ_model_upto(
                prefsum,
                items,
                order@,
                p as int,
            ) + path_occs(prefsum, items, order@[p as int]));
            assert forall|k: int|
                order@.len() > 0 && 0 <= k < occs@.len() implies (#[trigger] occs@[k]).0
                <= order@[order@.len() - 1].1 by {
                if p < order@.len() {
                    assert(occs@[k].0 <= order@[order@.len() - 1].1);
                }
            }
        }
        p += 1;
    }
    occs
}

/// The adjacent-distinct list of labels: a label is appended where it
/// differs from the label before it.
pub open spec fn dedup_labels(labels: Seq<Seq<char>>) -> Seq<Seq<char>>
    decreases labels.len(),
{
    if labels.len() == 0 {
        Seq::empty()
    } else {
        let pre = dedup_labels(labels.drop_last());
        if pre.len() > 0 && pre.last() == labels.last() {
            pre
        } else {
            pre.push(labels.last())
        }
    }
}

/// The label views of a path order.
pub open spec fn labels_of(po: Seq<(ItemIdSize, String)>) -> Seq<Seq<char>> {
    po.map(|_j: int, p: (ItemIdSize, String)| p.1@)
}

/// The numeric order a labelled path order denotes: each path keeps its
/// identifier and is assigned the id of its group, which is the number of
/// label changes seen up to it.
pub open spec fn numbered_order(po: Seq<(ItemIdSize, String)>) -> Seq<(ItemIdSize, GroupSize)> {
    Seq::new(
        po.len(),
        |k: int| (po[k].0, (dedup_labels(labels_of(po).take(k + 1)).len() - 1) as GroupSize),
    )
}

/// The dedup list over a prefix is a prefix of the full dedup list.
pub proof fn lemma_dedup_labels_take(labels: Seq<Seq<char>>, k: int)
    requires
        0 <= k <= labels.len(),
    ensures
        dedup_labels(labels.take(k)).len() <= dedup_labels(labels).len(),
        dedup_labels(labels).take(dedup_labels(labels.take(k)).len() as int) == dedup_labels(
            labels.take(k),
        ),
    decreases labels.len() - k,
{
    if k == labels.len() {
        assert(labels.take(k) =~= labels);
        assert(dedup_labels(labels).take(dedup_labels(labels).len() as int) =~= dedup_labels(
            labels,
        ));
    } else {
        lemma_dedup_labels_take(labels, k + 1);
        let a = dedup_labels(labels.take(k));
        let b = dedup_labels(labels.take(k + 1));
        let c = dedup_labels(labels);
        assert(labels.take(k + 1).drop_last() =~= labels.take(k));
        assert(b == a || b == a.push(labels.take(k + 1).last()));
        assert(c.take(a.len() as int) =~= a) by {
            assert forall|j: int| 0 <= j < a.len() implies c[j] == a[j] by {
                assert(c.take(b.len() as int)[j] == b[j]);
                if b != a {
                    assert(b[j] == a.push(labels.take(k + 1).last())[j]);
                }
            }
        }
    }
}

/// Assigns consecutive numeric group ids along a labelled, group-sorted path
/// order and returns the numeric order together with the group labels, one
/// per id. Fails only when there are more groups than the group id width
/// can hold.
pub fn number_groups(path_order: &Vec<(ItemIdSize, String)>) -> (res: Result<
    (Vec<(ItemIdSize, GroupSize)>, Vec<String>),
    CoreError,
>)
    ensures
        match res {
            Ok(og) => {
                &&& dedup_labels(labels_of(path_order@)).len() < GroupSize::MAX as int
                &&& og.0@ == numbered_order(path_order@)
                &&& og.1@.len() == dedup_labels(labels_of(path_order@)).len()
                &&& forall|j: int|
                    0 <= j < og.1@.len() ==> (#[trigger] og.1@[j])@ == dedup_labels(
                        labels_of(path_order@),
                    )[j]
                &&& order_sorted(og.0@)
                &&& forall|k: int|
                    0 <= k < og.0@.len() ==> ((#[trigger] og.0@[k]).1 as int) < og.1@.len()
            },
            Err(e) => {
                &&& e == CoreError::TooLarge
                &&& dedup_labels(labels_of(path_order@)).len() >= GroupSize::MAX as int
            },
        },
{
    let ghost labels = labels_of(path_order@);
    let mut order: Vec<(ItemIdSize, GroupSize)> = Vec::new();
    let mut groups: Vec<String> = Vec::new();
    let mut k: usize = 0;
    while k < path_order.len()
        invariant
            labels == labels_of(path_order@),
            labels.len() == path_order@.len(),
            forall|j: int| 0 <= j < labels.len() ==> labels[j] == (#[trigger] path_order@[j]).1@,
            0 <= k <= path_order@.len(),
            order@ == numbered_order(path_order@).take(k as int),
            order@.len() == k,
            groups@.len() == dedup_labels(labels.take(k as int)).len(),
            groups@.len() < GroupSize::MAX as usize,
            forall|j: int|
                0 <= j < groups@.len() ==> (#[trigger] groups@[j])@ == dedup_labels(
                    labels.take(k as int),
                )[j],
            k > 0 ==> groups@.len() > 0,
            forall|j: int| 0 <= j < k ==> ((#[trigger] order@[j]).1 as int) < groups@.len(),
            k > 0 ==> (order@[k - 1].1 as int) == groups@.len() - 1,
            forall|a: int, b: int|
                0 <= a <= b < k ==> (#[trigger] order@[a]).1 <= (#[trigger] order@[b]).1,
        decreases path_order@.len() - k,
    {
        proof {
            assert(labels.take(k + 1 as int).drop_last() =~= labels.take(k as int));
            assert(labels.take(k + 1 as int).last() == labels[k as int]);
        }
        let is_new = if groups.len() == 0 {
            true
        } else {
            !string_eq(&groups[groups.len() - 1], &path_order[k].1)
        };
        if is_new {
            if groups.len() == GroupSize::MAX as usize - 1 {
                proof {
                    let d = dedup_labels(labels.take(k + 1 as int));
                    assert(d.len() == groups@.len() + 1);
                    lemma_dedup_labels_take(labels, k + 1);
                    assert(labels.take(labels.len() as int) =~= labels);
                }
                return Err(CoreError::TooLarge);
            }
            groups.push(clone_string(&path_order[k].1));
        }
        let gid: GroupSize = (groups.len() - 1) as GroupSize;
        let pid = path_order[k].0;
        order.push((pid, gid));
        proof {
            let d = dedup_labels(labels.take(k + 1 as int));
            if is_new {
                assert(d =~= dedup_labels(labels.take(k as int)).push(labels[k as int]));
            } else {
                assert(d == dedup_labels(labels.take(k as int)));
            }
            assert(order@ =~= numbered_order(path_order@).take(k + 1 as int)) by {
                assert forall|j: int| 0 <= j < k + 1 implies order@[j] == numbered_order(
                    path_order@,
                )[j] by {
                    if j < k {
                        assert(order@[j] == numbered_order(path_order@).take(k as int)[j]);
                    } else {
                        assert(order@[j] == (pid, gid));
                        assert(numbered_order(path_order@)[j] == (
                            path_order@[j].0,
                            (dedup_labels(labels_of(path_order@).take(j + 1)).len()
                                - 1) as GroupSize,
                        ));
                    }
                }
            }
        }
        k += 1;
    }
    proof {
        assert(labels.take(labels.len() as int) =~= labels);
        assert(numbered_order(path_order@).take(path_order@.len() as int) =~= numbered_order(
            path_order@,
        ));
    }
    Ok((order, groups))
}

/// Per-item total coverage: `countable[i]` is the number of distinct groups
/// covering item `i`, independent of which groups they are.
#[derive(Debug)]
pub struct AbacusByTotal {
    pub count: CountType,
    pub countable: Vec<CountSize>,
    pub uncovered_bps: Option<Vec<usize>>,
    pub groups: Vec<String>,
}


/// How many of the first `j` per-item counts equal `k`.
pub open spec fn count_eq(counts: Seq<CountSize>, k: int, j: int) -> nat
    decreases j,
{
    if j <= 0 {
        0nat
    } else {
        count_eq(counts, k, j - 1) + (if counts[j - 1] as int == k {
            1nat
        } else {
            0nat
        })
    }
}

/// A tally over `j` items never exceeds `j`.
pub proof fn lemma_count_eq_le(counts: Seq<CountSize>, k: int, j: int)
    ensures
        count_eq(counts, k, j) <= (if j <= 0 {
            0int
        } else {
            j
        }),
    decreases j,
{
    if j > 0 {
        lemma_count_eq_le(counts, k, j - 1);
    }
}

/// How many of the first `j` listed items' counts equal `k`.
pub open spec fn count_eq_at(counts: Seq<CountSize>, idxs: Seq<usize>, k: int, j: int) -> nat
    decreases j,
{
    if j <= 0 {
        0nat
    } else {
        count_eq_at(counts, idxs, k, j - 1) + (if counts[idxs[j - 1] as int] as int == k {
            1nat
        } else {
            0nat
        })
    }
}

/// A tally over `j` listed items never exceeds `j`.
pub proof fn lemma_count_eq_at_le(counts: Seq<CountSize>, idxs: Seq<usize>, k: int, j: int)
    ensures
        count_eq_at(counts, idxs, k, j) <= (if j <= 0 {
            0int
        } else {
            j
        }),
    decreases j,
{
    if j > 0 {
        lemma_count_eq_at_le(counts, idxs, k, j - 1);
    }
}

/// Per-item total coverage equals the item's distinct-group count, and
/// zero for excluded items.
pub open spec fn countable_matches(
    cnts: Seq<CountSize>,
    exclude_table: &Option<ActiveTable>,
    occs: Seq<(GroupSize, ItemIdSize)>,
    n_items: int,
) -> bool {
    forall|i: int|
        #![trigger cnts[i]]
        0 <= i <= n_items ==> cnts[i] as int == (if excluded(exclude_table, i) {
            0int
        } else {
            row_model(occs, i as ItemIdSize).len() as int
        })
}

impl AbacusByTotal {
    /// Builds the per-item total coverage table from a parsed item table,
    /// the optional exclusion bitset and the labelled, group-sorted path
    /// order: `countable[i]` becomes the number of distinct groups covering
    /// item `i`, zero for excluded items. Fails exactly on structurally
    /// inconsistent inputs or when a size bound would be exceeded.
    pub fn item_table_to_abacus(
        item_table: &ItemTable,
        exclude_table: &Option<ActiveTable>,
        path_order: &Vec<(ItemIdSize, String)>,
        uncovered_bps: Option<Vec<usize>>,
        n_items: usize,
        count: CountType,
    ) -> (res: Result<AbacusByTotal, CoreError>)
        ensures
            res.is_ok() <==> (n_items <= usize::MAX - 2
                && crate::graph_broker::coverage_matrix::inputs_valid(
                item_table,
                exclude_table,
                path_order@,
                n_items + 1,
                n_items,
            ) && crate::graph_broker::coverage_matrix::inputs_fit(item_table, path_order@)),
            match res {
                Ok(ab) => {
                    let occs = crate::graph_broker::coverage_matrix::model_of(
                        item_table,
                        path_order@,
                    );
                    let ded = dedup_labels(labels_of(path_order@));
                    &&& ab.count == count
                    &&& ab.countable@.len() == n_items + 1
                    &&& countable_matches(ab.countable@, exclude_table, occs, n_items as int)
                    &&& groups_sorted(occs)
                    &&& ab.groups@.len() == ded.len()
                    &&& forall|j: int|
                        0 <= j < ded.len() ==> (#[trigger] ab.groups@[j])@ == ded[j]
                    &&& ab.uncovered_bps == uncovered_bps
                },
                Err(_) => true,
            },
    {
        if n_items > usize::MAX - 2 {
            return Err(CoreError::MalformedInput);
        }
        if !crate::graph_broker::coverage_matrix::check_inputs(
            item_table,
            exclude_table,
            path_order,
            n_items + 1,
            n_items,
        ) {
            return Err(CoreError::MalformedInput);
        }
        let (order, groups) = match number_groups(path_order) {
            Ok(og) => og,
            Err(e) => {
                return Err(e);
            },
        };
        proof {
            assert forall|t: int|
                0 <= t < order@.len() implies ((#[trigger] order@[t]).0 as int) + 1
                < item_table.id_prefsum@.len() by {
                assert(order@[t].0 == (#[trigger] path_order@[t]).0);
            }
        }
        let occs = flatten_occurrences(item_table, &order, Ghost(n_items as int));
        if occs.len() > ItemIdSize::MAX as usize {
            return Err(CoreError::TooLarge);
        }
        let r = crate::graph_broker::coverage_matrix::compute_row_storage_space(
            &occs,
            exclude_table,
            n_items,
        );
        let mut countable: Vec<CountSize> = Vec::new();
        let mut i: usize = 0;
        while i < n_items + 1
            invariant
                n_items <= usize::MAX - 2,
                r@.len() == n_items + 2,
                crate::graph_broker::coverage_matrix::offsets_wf(r@),
                crate::graph_broker::coverage_matrix::offsets_match(
                    r@,
                    exclude_table,
                    occs@,
                    n_items as int,
                ),
                r@[n_items + 1] <= occs@.len(),
                occs@.len() <= u32::MAX as usize,
                0 <= i <= n_items + 1,
                countable@.len() == i,
                forall|t: int|
                    #![trigger countable@[t]]
                    0 <= t < i ==> countable@[t] as int == (if excluded(exclude_table, t) {
                        0int
                    } else {
                        row_model(occs@, t as ItemIdSize).len() as int
                    }),
            decreases n_items + 1 - i,
        {
            proof {
                assert(row_model(occs@, i as ItemIdSize).len() >= 0);
                assert(r@[i as int] <= r@[i as int + 1]);
                assert(r@[i as int + 1] <= r@[r@.len() - 1]);
            }
            let diff = r[i + 1] - r[i];
            countable.push(diff as CountSize);
            proof {
                assert(r@[i as int + 1] == r@[i as int] + (if excluded(exclude_table, i as int) {
                    0int
                } else {
                    row_model(occs@, (i as int) as ItemIdSize).len() as int
                }));
                assert(countable@[i as int] as int == r@[i as int + 1] - r@[i as int]);
                assert forall|t: int|
                    #![trigger countable@[t]]
                    0 <= t < i + 1 implies countable@[t] as int == (if excluded(
                    exclude_table,
                    t,
                ) {
                    0int
                } else {
                    row_model(occs@, t as ItemIdSize).len() as int
                }) by {
                    assert(row_model(occs@, t as ItemIdSize).len() >= 0);
                }
            }
            i += 1;
        }
        proof {
            assert(countable_matches(countable@, exclude_table, occs@, n_items as int));
            assert(occs@ == crate::graph_broker::coverage_matrix::model_of(
                item_table,
                path_order@,
            ));
        }
        Ok(AbacusByTotal { count, countable, uncovered_bps, groups })
    }

    /// Tallies the coverage histogram: bin `k` counts the items covered by
    /// exactly `k` groups; counts beyond the group count are ignored.
    pub fn construct_hist(&self) -> (res: Vec<usize>)
        requires
            self.groups@.len() < usize::MAX,
            self.countable@.len() < usize::MAX,
        ensures
            res@.len() == self.groups@.len() + 1,
            forall|k: int|
                0 <= k < res@.len() ==> (#[trigger] res@[k]) as nat == count_eq(
                    self.countable@,
                    k,
                    self.countable@.len() as int,
                ),
    {
        let n_bins = self.groups.len() + 1;
        let mut bins: Vec<usize> = vec![0usize; n_bins];
        let mut i: usize = 0;
        while i < self.countable.len()
            invariant
                self.groups@.len() < usize::MAX,
                self.countable@.len() < usize::MAX,
                n_bins == self.groups@.len() + 1,
                bins@.len() == n_bins,
                0 <= i <= self.countable@.len(),
                forall|k: int|
                    0 <= k < bins@.len() ==> (#[trigger] bins@[k]) as nat == count_eq(
                        self.countable@,
                        k,
                        i as int,
                    ),
            decreases self.countable@.len() - i,
        {
            let cov = self.countable[i] as usize;
            if cov < n_bins {
                proof {
                    lemma_count_eq_le(self.countable@, cov as int, i as int);
                }
                let old_bin = bins[cov];
                bins.set(cov, old_bin + 1);
            }
            proof {
                assert forall|k: int|
                    0 <= k < bins@.len() implies (#[trigger] bins@[k]) as nat == count_eq(
                    self.countable@,
                    k,
                    i + 1 as int,
                ) by {
                    assert(count_eq(self.countable@, k, i + 1 as int) == count_eq(
                        self.countable@,
                        k,
                        i as int,
                    ) + (if self.countable@[i as int] as int == k {
                        1nat
                    } else {
                        0nat
                    }));
                }
            }
            i += 1;
        }
        bins
    }

    /// Tallies the coverage histogram over a chosen list of item indices,
    /// with repetitions counted as often as listed.
    pub fn construct_hist_from_set(&self, indices: &Vec<usize>) -> (res: Vec<usize>)
        requires
            self.groups@.len() < usize::MAX,
            indices@.len() < usize::MAX,
            forall|t: int|
                0 <= t < indices@.len() ==> (#[trigger] indices@[t]) < self.countable@.len(),
        ensures
            res@.len() == self.groups@.len() + 1,
            forall|k: int|
                0 <= k < res@.len() ==> (#[trigger] res@[k]) as nat == count_eq_at(
                    self.countable@,
                    indices@,
                    k,
                    indices@.len() as int,
                ),
    {
        let n_bins = self.groups.len() + 1;
        let mut bins: Vec<usize> = vec![0usize; n_bins];
        let mut i: usize = 0;
        while i < indices.len()
            invariant
                self.groups@.len() < usize::MAX,
                indices@.len() < usize::MAX,
                forall|t: int|
                    0 <= t < indices@.len() ==> (#[trigger] indices@[t]) < self.countable@.len(),
                n_bins == self.groups@.len() + 1,
                bins@.len() == n_bins,
                0 <= i <= indices@.len(),
                forall|k: int|
                    0 <= k < bins@.len() ==> (#[trigger] bins@[k]) as nat == count_eq_at(
                        self.countable@,
                        indices@,
                        k,
                        i as int,
                    ),
            decreases indices@.len() - i,
        {
            proof {
                assert((#[trigger] indices@[i as int]) < self.countable@.len());
            }
            let idx = indices[i];
            let cov = self.countable[idx] as usize;
            if cov < n_bins {
                proof {
                    lemma_count_eq_at_le(self.countable@, indices@, cov as int, i as int);
                }
                let old_bin = bins[cov];
                bins.set(cov, old_bin + 1);
            }
            proof {
                assert forall|k: int|
                    0 <= k < bins@.len() implies (#[trigger] bins@[k]) as nat == count_eq_at(
                    self.countable@,
                    indices@,
                    k,
                    i + 1 as int,
                ) by {
                    assert(count_eq_at(self.countable@, indices@, k, i + 1 as int) == count_eq_at(
                        self.countable@,
                        indices@,
                        k,
                        i as int,
                    ) + (if self.countable@[indices@[i as int] as int] as int == k {
                        1nat
                    } else {
                        0nat
                    }));
                }
            }
            i += 1;
        }
        bins
    }
}


/// Sum of the first `j` node lengths.
pub open spec fn sum_lens(lens: Seq<u32>, j: int) -> int
    decreases j,
{
    if j <= 0 {
        0
    } else {
        sum_lens(lens, j - 1) + lens[j - 1]
    }
}

/// Base-pair mass of bin `k` over the first `j` items: an in-range item
/// adds its covered length to its own bin and its uncovered length to bin
/// zero; out-of-range items add nothing.
pub open spec fn bp_tally(
    counts: Seq<CountSize>,
    lens: Seq<u32>,
    uncov: Seq<usize>,
    n_bins: int,
    k: int,
    j: int,
) -> int
    decreases j,
{
    if j <= 0 {
        0
    } else {
        bp_tally(counts, lens, uncov, n_bins, k, j - 1) + (if (counts[j - 1] as int) < n_bins
            && counts[j - 1] as int == k {
            lens[j - 1] - uncov[j - 1]
        } else {
            0int
        }) + (if (counts[j - 1] as int) < n_bins && k == 0 {
            uncov[j - 1] as int
        } else {
            0int
        })
    }
}

/// Base-pair masses are non-negative and never exceed the total length.
pub proof fn lemma_bp_tally_bounds(
    counts: Seq<CountSize>,
    lens: Seq<u32>,
    uncov: Seq<usize>,
    n_bins: int,
    k: int,
    j: int,
)
    requires
        forall|t: int| 0 <= t < j ==> (#[trigger] uncov[t]) <= lens[t],
    ensures
        0 <= bp_tally(counts, lens, uncov, n_bins, k, j),
        bp_tally(counts, lens, uncov, n_bins, k, j) <= sum_lens(lens, j),
    decreases j,
{
    if j > 0 {
        lemma_bp_tally_bounds(counts, lens, uncov, n_bins, k, j - 1);
        assert(uncov[j - 1] <= lens[j - 1]);
    }
}

impl AbacusByTotal {
    /// Tallies the base-pair-weighted coverage histogram: bin `k` gains the
    /// covered base pairs of every item with coverage exactly `k`, and bin
    /// zero additionally gains all uncovered base pairs; items whose count
    /// exceeds the group count are ignored.
    pub fn construct_hist_bps(&self, node_lens: &Vec<u32>) -> (res: Vec<usize>)
        requires
            self.groups@.len() < usize::MAX,
            node_lens@.len() == self.countable@.len(),
            self.uncovered_bps matches Some(u) && u@.len() == self.countable@.len() && (forall|
                t: int,
            |
                0 <= t < u@.len() ==> (#[trigger] u@[t]) <= node_lens@[t]),
            sum_lens(node_lens@, node_lens@.len() as int) <= usize::MAX,
        ensures
            res@.len() == self.groups@.len() + 1,
            self.uncovered_bps matches Some(u) ==> forall|k: int|
                0 <= k < res@.len() ==> (#[trigger] res@[k]) as int == bp_tally(
                    self.countable@,
                    node_lens@,
                    u@,
                    res@.len() as int,
                    k,
                    self.countable@.len() as int,
                ),
    {
        let uncovered = match &self.uncovered_bps {
            Some(u) => u,
            None => {
                proof {
                    assert(false);
                }
                return Vec::new();
            },
        };
        let ghost uncov = uncovered@;
        let ghost lens = node_lens@;
        let n_bins = self.groups.len() + 1;
        let mut bins: Vec<usize> = vec![0usize; n_bins];
        let mut i: usize = 0;
        while i < self.countable.len()
            invariant
                self.groups@.len() < usize::MAX,
                n_bins == self.groups@.len() + 1,
                bins@.len() == n_bins,
                lens == node_lens@,
                uncov == uncovered@,
                lens.len() == self.countable@.len(),
                uncov.len() == self.countable@.len(),
                forall|t: int| 0 <= t < uncov.len() ==> (#[trigger] uncov[t]) <= lens[t],
                sum_lens(lens, lens.len() as int) <= usize::MAX,
                0 <= i <= self.countable@.len(),
                forall|k: int|
                    0 <= k < bins@.len() ==> (#[trigger] bins@[k]) as int == bp_tally(
                        self.countable@,
                        lens,
                        uncov,
                        n_bins as int,
                        k,
                        i as int,
                    ),
            decreases self.countable@.len() - i,
        {
            let cov = self.countable[i] as usize;
            proof {
                lemma_sum_prefix_like(lens, i as int);
                assert forall|k: int| 0 <= k < bins@.len() implies 0 <= (#[trigger] bins@[k]) as int
                    <= sum_lens(lens, i as int) by {
                    lemma_bp_tally_bounds(self.countable@, lens, uncov, n_bins as int, k, i as int);
                }
            }
            if cov < n_bins {
                let len_i = node_lens[i];
                let uncov_i = uncovered[i];
                let covered = (len_i as usize) - uncov_i;
                let b0 = bins[cov];
                bins.set(cov, b0 + covered);
                let b1 = bins[0];
                bins.set(0, b1 + uncov_i);
            }
            proof {
                assert forall|k: int|
                    0 <= k < bins@.len() implies (#[trigger] bins@[k]) as int == bp_tally(
                    self.countable@,
                    lens,
                    uncov,
                    n_bins as int,
                    k,
                    i + 1 as int,
                ) by {
                    assert(bp_tally(self.countable@, lens, uncov, n_bins as int, k, i + 1 as int)
                        == bp_tally(self.countable@, lens, uncov, n_bins as int, k, i as int) + (if (
                    self.countable@[i as int] as int) < n_bins && self.countable@[i as int] as int
                        == k {
                        lens[i as int] - uncov[i as int]
                    } else {
                        0int
                    }) + (if (self.countable@[i as int] as int) < n_bins && k == 0 {
                        uncov[i as int] as int
                    } else {
                        0int
                    }));
                }
            }
            i += 1;
        }
        bins
    }
}

/// The partial length sums never exceed the full sum.
pub proof fn lemma_sum_prefix_like(lens: Seq<u32>, j: int)
    requires
        0 <= j < lens.len(),
    ensures
        sum_lens(lens, j) + lens[j] <= sum_lens(lens, lens.len() as int),
        sum_lens(lens, j) >= 0,
    decreases lens.len() - j,
{
    assert(sum_lens(lens, j + 1) == sum_lens(lens, j) + lens[j]);
    lemma_sum_lens_mono(lens, j + 1, lens.len() as int);
    lemma_sum_lens_nonneg(lens, j);
}

/// Length sums grow with the range.
pub proof fn lemma_sum_lens_mono(lens: Seq<u32>, j1: int, j2: int)
    requires
        0 <= j1 <= j2 <= lens.len(),
    ensures
        sum_lens(lens, j1) <= sum_lens(lens, j2),
    decreases j2 - j1,
{
    if j1 < j2 {
        lemma_sum_lens_mono(lens, j1, j2 - 1);
    }
}

/// Length sums are non-negative.
pub proof fn lemma_sum_lens_nonneg(lens: Seq<u32>, j: int)
    requires
        j <= lens.len(),
    ensures
        sum_lens(lens, j) >= 0,
    decreases j,
{
    if j > 0 {
        lemma_sum_lens_nonneg(lens, j - 1);
    }
}


/// Sum of the lengths of the first `j` listed items.
pub open spec fn sum_lens_at(lens: Seq<u32>, idxs: Seq<usize>, j: int) -> int
    decreases j,
{
    if j <= 0 {
        0
    } else {
        sum_lens_at(lens, idxs, j - 1) + lens[idxs[j - 1] as int]
    }
}

/// Base-pair mass of bin `k` over the first `j` listed items, with an
/// override uncovered map.
pub open spec fn bp_tally_at(
    counts: Seq<CountSize>,
    lens: Seq<u32>,
    uncov: Seq<usize>,
    idxs: Seq<usize>,
    n_bins: int,
    k: int,
    j: int,
) -> int
    decreases j,
{
    if j <= 0 {
        0
    } else {
        let x = idxs[j - 1] as int;
        bp_tally_at(counts, lens, uncov, idxs, n_bins, k, j - 1) + (if (counts[x] as int) < n_bins
            && counts[x] as int == k {
            lens[x] - uncov[x]
        } else {
            0int
        }) + (if (counts[x] as int) < n_bins && k == 0 {
            uncov[x] as int
        } else {
            0int
        })
    }
}

/// Subset base-pair masses are non-negative and never exceed the listed
/// items' total length.
pub proof fn lemma_bp_tally_at_bounds(
    counts: Seq<CountSize>,
    lens: Seq<u32>,
    uncov: Seq<usize>,
    idxs: Seq<usize>,
    n_bins: int,
    k: int,
    j: int,
)
    requires
        forall|t: int| 0 <= t < idxs.len() ==> (#[trigger] idxs[t]) < lens.len(),
        forall|t: int| 0 <= t < idxs.len() ==> uncov[(#[trigger] idxs[t]) as int] <= lens[idxs[t] as int],
        0 <= j <= idxs.len(),
    ensures
        0 <= bp_tally_at(counts, lens, uncov, idxs, n_bins, k, j),
        bp_tally_at(counts, lens, uncov, idxs, n_bins, k, j) <= sum_lens_at(lens, idxs, j),
    decreases j,
{
    if j > 0 {
        lemma_bp_tally_at_bounds(counts, lens, uncov, idxs, n_bins, k, j - 1);
        assert(uncov[(#[trigger] idxs[j - 1]) as int] <= lens[idxs[j - 1] as int]);
    }
}

/// Partial listed sums never exceed the full listed sum.
pub proof fn lemma_sum_lens_at_mono(lens: Seq<u32>, idxs: Seq<usize>, j1: int, j2: int)
    requires
        0 <= j1 <= j2 <= idxs.len(),
        forall|t: int| 0 <= t < idxs.len() ==> (#[trigger] idxs[t]) < lens.len(),
    ensures
        sum_lens_at(lens, idxs, j1) <= sum_lens_at(lens, idxs, j2),
    decreases j2 - j1,
{
    if j1 < j2 {
        lemma_sum_lens_at_mono(lens, idxs, j1, j2 - 1);
        assert((#[trigger] idxs[j2 - 1]) < lens.len());
    }
}

/// Listed sums are non-negative.
pub proof fn lemma_sum_lens_at_nonneg(lens: Seq<u32>, idxs: Seq<usize>, j: int)
    requires
        0 <= j <= idxs.len(),
    ensures
        sum_lens_at(lens, idxs, j) >= 0,
    decreases j,
{
    if j > 0 {
        lemma_sum_lens_at_nonneg(lens, idxs, j - 1);
    }
}


/// The label views of a path-to-group assignment list.
pub open spec fn labels_of_groups(gs: Seq<(PathSegment, String)>) -> Seq<Seq<char>> {
    gs.map(|_j: int, g: (PathSegment, String)| g.1@)
}

/// Group labels are contiguous: once the label changes, an earlier label
/// never returns.
pub open spec fn labels_grouped(labels: Seq<Seq<char>>) -> bool {
    forall|k: int, j: int|
        #![trigger labels[k], labels[j]]
        1 <= k < labels.len() && 0 <= j < k && labels[k] != labels[k - 1] ==> labels[j] != labels[k]
}

/// The position a path segment has in the known path list: its first entry
/// naming the same path slice, if any.
pub open spec fn seg_index(segs: Seq<PathSegment>, seg: PathSegment) -> Option<int>
    decreases segs.len(),
{
    if segs.len() == 0 {
        None
    } else if segs[0].eq_spec_full(&seg) {
        Some(0int)
    } else {
        match seg_index(segs.skip(1), seg) {
            Some(i) => Some(i + 1),
            None => None,
        }
    }
}

/// Resolves which paths belong to which group and which coordinate ranges
/// are in or out of scope. The assignments stand in canonical order: all
/// paths of one group adjacent, group blocks in first-seen order.
#[derive(Debug)]
pub struct GraphMask {
    pub groups: Vec<(PathSegment, String)>,
    pub include_coords: Option<Vec<PathSegment>>,
    pub exclude_coords: Option<Vec<PathSegment>>,
    pub order: Option<Vec<PathSegment>>,
}

impl GraphMask {
    /// The canonical-order invariant: group labels are contiguous.
    pub open spec fn wf(&self) -> bool {
        labels_grouped(labels_of_groups(self.groups@))
    }

    /// Builds a mask from path-to-group assignments and the optional
    /// coordinate lists. Fails exactly when the assignments are not in
    /// canonical order, that is when a group's paths are not adjacent.
    pub fn new(
        groups: Vec<(PathSegment, String)>,
        include_coords: Option<Vec<PathSegment>>,
        exclude_coords: Option<Vec<PathSegment>>,
        order: Option<Vec<PathSegment>>,
    ) -> (res: Result<GraphMask, CoreError>)
        ensures
            res.is_ok() <==> labels_grouped(labels_of_groups(groups@)),
            res matches Err(e) ==> e == CoreError::UngroupedOrder,
            res matches Ok(m) ==> m.wf() && m.groups@ == groups@ && m.include_coords
                == include_coords && m.exclude_coords == exclude_coords && m.order == order,
    {
        let ghost labels = labels_of_groups(groups@);
        let mut k: usize = 1;
        while k < groups.len()
            invariant
                labels == labels_of_groups(groups@),
                labels.len() == groups@.len(),
                forall|t: int| 0 <= t < labels.len() ==> labels[t] == (#[trigger] groups@[t]).1@,
                1 <= k <= groups@.len() || (k == 1 && groups@.len() == 0),
                forall|t: int, j: int|
                    #![trigger labels[t], labels[j]]
                    1 <= t < k && t < labels.len() && 0 <= j < t && labels[t] != labels[t - 1]
                        ==> labels[j] != labels[t],
            decreases groups@.len() - k,
        {
            if !string_eq(&groups[k].1, &groups[k - 1].1) {
                let mut j: usize = 0;
                while j < k
                    invariant
                        labels.len() == groups@.len(),
                        forall|t: int|
                            0 <= t < labels.len() ==> labels[t] == (#[trigger] groups@[t]).1@,
                        1 <= k < groups@.len(),
                        labels[k as int] != labels[k - 1],
                        0 <= j <= k,
                        forall|t: int| 0 <= t < j ==> labels[t] != labels[k as int],
                    decreases k - j,
                {
                    if string_eq(&groups[j].1, &groups[k].1) {
                        proof {
                            assert(labels[k as int] != labels[k - 1]);
                            assert(labels[j as int] == labels[k as int]);
                            assert(!labels_grouped(labels));
                            assert(labels == labels_of_groups(groups@));
                            assert(!labels_grouped(labels_of_groups(groups@)));
                        }
                        return Err(CoreError::UngroupedOrder);
                    }
                    j += 1;
                }
            }
            k += 1;
        }
        proof {
            assert forall|t: int, j: int|
                #![trigger labels[t], labels[j]]
                1 <= t < labels.len() && 0 <= j < t && labels[t] != labels[t - 1] implies labels[j]
                != labels[t] by {}
        }
        Ok(GraphMask { groups, include_coords, exclude_coords, order })
    }

    /// How many distinct groups the mask assigns: the number of label
    /// blocks in the canonical order.
    pub fn count_groups(&self) -> (res: usize)
        ensures
            res as int == dedup_labels(labels_of_groups(self.groups@)).len(),
    {
        let ghost labels = labels_of_groups(self.groups@);
        let mut n: usize = 0;
        let mut k: usize = 0;
        while k < self.groups.len()
            invariant
                labels == labels_of_groups(self.groups@),
                labels.len() == self.groups@.len(),
                forall|t: int|
                    0 <= t < labels.len() ==> labels[t] == (#[trigger] self.groups@[t]).1@,
                0 <= k <= self.groups@.len(),
                n as int == dedup_labels(labels.take(k as int)).len(),
                n <= k,
                k > 0 ==> dedup_labels(labels.take(k as int)).len() > 0 && dedup_labels(
                    labels.take(k as int),
                ).last() == labels[k - 1],
            decreases self.groups@.len() - k,
        {
            proof {
                assert(labels.take(k + 1 as int).drop_last() =~= labels.take(k as int));
                assert(labels.take(k + 1 as int).last() == labels[k as int]);
            }
            let is_new = if k == 0 {
                true
            } else {
                !string_eq(&self.groups[k].1, &self.groups[k - 1].1)
            };
            if is_new {
                n = n + 1;
            }
            k += 1;
        }
        proof {
            assert(labels.take(labels.len() as int) =~= labels);
        }
        n
    }

    /// The canonical path order as pairs of path id and group label: each
    /// assignment's path resolved to its position in the known path list.
    /// Fails exactly when an assignment references an unknown path or a
    /// position beyond the path id width.
    pub fn get_path_order(&self, path_segments: &Vec<PathSegment>) -> (res: Result<
        Vec<(ItemIdSize, String)>,
        CoreError,
    >)
        ensures
            res.is_ok() <==> (forall|k: int|
                0 <= k < self.groups@.len() ==> (seg_index(
                    path_segments@,
                    (#[trigger] self.groups@[k]).0,
                ) matches Some(i) && i <= ItemIdSize::MAX as int)),
            match res {
                Ok(order) => {
                    &&& order@.len() == self.groups@.len()
                    &&& forall|k: int|
                        0 <= k < order@.len() ==> Some((#[trigger] order@[k]).0 as int)
                            == seg_index(path_segments@, self.groups@[k].0)
                    &&& forall|k: int|
                        0 <= k < order@.len() ==> (#[trigger] order@[k]).1@ == self.groups@[k].1@
                },
                Err(e) => e == CoreError::UnknownPath || e == CoreError::TooLarge,
            },
    {
        let mut order: Vec<(ItemIdSize, String)> = Vec::new();
        let mut k: usize = 0;
        while k < self.groups.len()
            invariant
                0 <= k <= self.groups@.len(),
                order@.len() == k,
                forall|t: int|
                    0 <= t < k ==> Some((#[trigger] order@[t]).0 as int) == seg_index(
                        path_segments@,
                        self.groups@[t].0,
                    ),
                forall|t: int|
                    0 <= t < k ==> (#[trigger] order@[t]).1@ == self.groups@[t].1@,
                forall|t: int|
                    0 <= t < k ==> (seg_index(path_segments@, (#[trigger] self.groups@[t]).0)
                        matches Some(i) && i <= ItemIdSize::MAX as int),
            decreases self.groups@.len() - k,
        {
            let idx = match find_segment(path_segments, &self.groups[k].0) {
                Some(i) => i,
                None => {
                    return Err(CoreError::UnknownPath);
                },
            };
            if idx > ItemIdSize::MAX as usize {
                return Err(CoreError::TooLarge);
            }
            order.push((idx as ItemIdSize, clone_string(&self.groups[k].1)));
            k += 1;
        }
        Ok(order)
    }
}

/// Finds a path segment's first position in the known path list.
pub fn find_segment(segs: &Vec<PathSegment>, seg: &PathSegment) -> (res: Option<usize>)
    ensures
        match res {
            Some(i) => Some(i as int) == seg_index(segs@, *seg),
            None => seg_index(segs@, *seg) is None,
        },
{
    let mut k: usize = 0;
    proof {
        assert(segs@.skip(0) =~= segs@);
    }
    while k < segs.len()
        invariant
            0 <= k <= segs@.len(),
            seg_index(segs@.skip(k as int), *seg) matches Some(i) ==> seg_index(segs@, *seg)
                == Some(i + k),
            seg_index(segs@.skip(k as int), *seg) is None ==> seg_index(segs@, *seg) is None,
        decreases segs@.len() - k,
    {
        proof {
            assert(segs@.skip(k as int)[0] == segs@[k as int]);
            assert(segs@.skip(k as int).skip(1) =~= segs@.skip(k + 1 as int));
        }
        if segs[k].eq(seg) {
            return Some(k);
        }
        k += 1;
    }
    proof {
        assert(segs@.skip(segs@.len() as int).len() == 0);
    }
    None
}

/// Content equality of strings.
pub fn string_eq(a: &String, b: &String) -> (res: bool)
    ensures
        res <==> a@ == b@,
{
    a.eq(b)
}

/// A copy of a string.
pub fn clone_string(s: &String) -> (res: String)
    ensures
        res@ == s@,
{
    s.clone()
}


impl AbacusByTotal {
    /// Tallies the base-pair-weighted coverage histogram over a chosen list
    /// of item indices, with a caller-supplied uncovered map in place of the
    /// table's own.
    pub fn construct_hist_bps_of_subset(
        &self,
        node_lens: &Vec<u32>,
        indices: &Vec<usize>,
        uncovered_bps: &Vec<usize>,
    ) -> (res: Vec<usize>)
        requires
            self.groups@.len() < usize::MAX,
            node_lens@.len() == self.countable@.len(),
            uncovered_bps@.len() == self.countable@.len(),
            forall|t: int|
                0 <= t < indices@.len() ==> (#[trigger] indices@[t]) < self.countable@.len(),
            forall|t: int|
                0 <= t < indices@.len() ==> uncovered_bps@[(#[trigger] indices@[t]) as int]
                    <= node_lens@[indices@[t] as int],
            sum_lens_at(node_lens@, indices@, indices@.len() as int) <= usize::MAX,
        ensures
            res@.len() == self.groups@.len() + 1,
            forall|k: int|
                0 <= k < res@.len() ==> (#[trigger] res@[k]) as int == bp_tally_at(
                    self.countable@,
                    node_lens@,
                    uncovered_bps@,
                    indices@,
                    res@.len() as int,
                    k,
                    indices@.len() as int,
                ),
    {
        let ghost lens = node_lens@;
        let ghost uncov = uncovered_bps@;
        let n_bins = self.groups.len() + 1;
        let mut bins: Vec<usize> = vec![0usize; n_bins];
        let mut i: usize = 0;
        while i < indices.len()
            invariant
                self.groups@.len() < usize::MAX,
                n_bins == self.groups@.len() + 1,
                bins@.len() == n_bins,
                lens == node_lens@,
                uncov == uncovered_bps@,
                lens.len() == self.countable@.len(),
                uncov.len() == self.countable@.len(),
                forall|t: int|
                    0 <= t < indices@.len() ==> (#[trigger] indices@[t]) < self.countable@.len(),
                forall|t: int|
                    0 <= t < indices@.len() ==> uncov[(#[trigger] indices@[t]) as int] <= lens[
                        indices@[t] as int
                    ],
                sum_lens_at(lens, indices@, indices@.len() as int) <= usize::MAX,
                0 <= i <= indices@.len(),
                forall|k: int|
                    0 <= k < bins@.len() ==> (#[trigger] bins@[k]) as int == bp_tally_at(
                        self.countable@,
                        lens,
                        uncov,
                        indices@,
                        n_bins as int,
                        k,
                        i as int,
                    ),
            decreases indices@.len() - i,
        {
            proof {
                assert((#[trigger] indices@[i as int]) < self.countable@.len());
                assert(sum_lens_at(lens, indices@, i + 1 as int) == sum_lens_at(
                    lens,
                    indices@,
                    i as int,
                ) + lens[indices@[i as int] as int]);
                lemma_sum_lens_at_mono(lens, indices@, i + 1 as int, indices@.len() as int);
                lemma_sum_lens_at_nonneg(lens, indices@, i as int);
                assert forall|k: int| 0 <= k < bins@.len() implies 0 <= (#[trigger] bins@[k]) as int
                    <= sum_lens_at(lens, indices@, i as int) by {
                    lemma_bp_tally_at_bounds(
                        self.countable@,
                        lens,
                        uncov,
                        indices@,
                        n_bins as int,
                        k,
                        i as int,
                    );
                }
            }
            let idx = indices[i];
            let cov = self.countable[idx] as usize;
            if cov < n_bins {
                let len_i = node_lens[idx];
                let uncov_i = uncovered_bps[idx];
                let covered = (len_i as usize) - uncov_i;
                let b0 = bins[cov];
                bins.set(cov, b0 + covered);
                let b1 = bins[0];
                bins.set(0, b1 + uncov_i);
            }
            proof {
                assert forall|k: int|
                    0 <= k < bins@.len() implies (#[trigger] bins@[k]) as int == bp_tally_at(
                    self.countable@,
                    lens,
                    uncov,
                    indices@,
                    n_bins as int,
                    k,
                    i + 1 as int,
                ) by {
                    let x = indices@[i as int] as int;
                    assert(bp_tally_at(
                        self.countable@,
                        lens,
                        uncov,
                        indices@,
                        n_bins as int,
                        k,
                        i + 1 as int,
                    ) == bp_tally_at(
                        self.countable@,
                        lens,
                        uncov,
                        indices@,
                        n_bins as int,
                        k,
                        i as int,
                    ) + (if (self.countable@[x] as int) < n_bins && self.countable@[x] as int == k {
                        lens[x] - uncov[x]
                    } else {
                        0int
                    }) + (if (self.countable@[x] as int) < n_bins && k == 0 {
                        uncov[x] as int
                    } else {
                        0int
                    }));
                }
            }
            i += 1;
        }
        bins
    }
}

} // verus!
