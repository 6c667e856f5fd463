//! Helpers of the windowed analyses that are plain computation over the
//! engine's types: reference lengths and the regrouping of reference paths
//! by their coordinate-free name.

use vstd::prelude::*;

use crate::graph_broker::graph::{ItemId, Orientation, PathSegment};

verus! {

/// Sum of the lengths of the first `j` reference nodes.
pub open spec fn ref_len(
    nodes: Seq<(ItemId, Orientation)>,
    node_lens: Seq<u32>,
    j: int,
) -> int
    decreases j,
{
    if j <= 0 {
        0
    } else {
        ref_len(nodes, node_lens, j - 1) + node_lens[nodes[j - 1].0.0 as int]
    }
}

/// Partial reference lengths never exceed the full reference length.
pub proof fn lemma_ref_len_mono(
    nodes: Seq<(ItemId, Orientation)>,
    node_lens: Seq<u32>,
    j1: int,
    j2: int,
)
    requires
        0 <= j1 <= j2 <= nodes.len(),
        forall|t: int| 0 <= t < nodes.len() ==> ((#[trigger] nodes[t]).0.0 as int) < node_lens.len(),
    ensures
        ref_len(nodes, node_lens, j1) <= ref_len(nodes, node_lens, j2),
    decreases j2 - j1,
{
    if j1 < j2 {
        lemma_ref_len_mono(nodes, node_lens, j1, j2 - 1);
        assert(((#[trigger] nodes[j2 - 1]).0.0 as int) < node_lens.len());
    }
}

/// The length in base pairs of a reference path: the sum of its nodes'
/// lengths.
pub fn get_ref_length(ref_nodes: &Vec<(ItemId, Orientation)>, node_lens: &Vec<u32>) -> (res: u32)
    requires
        forall|t: int|
            0 <= t < ref_nodes@.len() ==> ((#[trigger] ref_nodes@[t]).0.0 as int)
                < node_lens@.len(),
        ref_len(ref_nodes@, node_lens@, ref_nodes@.len() as int) <= u32::MAX,
    ensures
        res as int == ref_len(ref_nodes@, node_lens@, ref_nodes@.len() as int),
{
    let mut total: u32 = 0;
    let mut j: usize = 0;
    while j < ref_nodes.len()
        invariant
            forall|t: int|
                0 <= t < ref_nodes@.len() ==> ((#[trigger] ref_nodes@[t]).0.0 as int)
                    < node_lens@.len(),
            ref_len(ref_nodes@, node_lens@, ref_nodes@.len() as int) <= u32::MAX,
            0 <= j <= ref_nodes@.len(),
            total as int == ref_len(ref_nodes@, node_lens@, j as int),
        decreases ref_nodes@.len() - j,
    {
        proof {
            assert(((#[trigger] ref_nodes@[j as int]).0.0 as int) < node_lens@.len());
            lemma_ref_len_mono(ref_nodes@, node_lens@, j + 1 as int, ref_nodes@.len() as int);
            assert(ref_len(ref_nodes@, node_lens@, j + 1 as int) == ref_len(
                ref_nodes@,
                node_lens@,
                j as int,
            ) + node_lens@[ref_nodes@[j as int].0.0 as int]);
            assert(ref_len(ref_nodes@, node_lens@, j as int) >= 0) by {
                lemma_ref_len_mono(ref_nodes@, node_lens@, 0, j as int);
            }
        }
        let node = ref_nodes[j].0;
        total = total + node_lens[node.0 as usize];
        j += 1;
    }
    total
}

/// Groups reference paths by their coordinate-free name: each input pair
/// lands under the key that equals its path without coordinates, with keys
/// created in first-encounter order.
pub fn split_ref_paths(
    ref_paths: Vec<(PathSegment, Vec<(ItemId, Orientation)>)>,
) -> (res: Vec<(PathSegment, Vec<(PathSegment, Vec<(ItemId, Orientation)>)>)>)
    ensures
        // every key is coordinate-free
        forall|g: int|
            0 <= g < res@.len() ==> (#[trigger] res@[g]).0.start is None && res@[g].0.end is None,
        // keys are pairwise distinct by name
        forall|g1: int, g2: int|
            0 <= g1 < g2 < res@.len() ==> !((#[trigger] res@[g1]).0.sample@ == (
            #[trigger] res@[g2]).0.sample@ && crate::graph_broker::graph::opt_bytes_eq_spec(
                res@[g1].0.haplotype,
                res@[g2].0.haplotype,
            ) && crate::graph_broker::graph::opt_bytes_eq_spec(
                res@[g1].0.seqid,
                res@[g2].0.seqid,
            )),
        // every entry sits under the key carrying its own name
        forall|g: int, e: int|
            0 <= g < res@.len() && 0 <= e < (#[trigger] res@[g]).1@.len() ==> ((#[trigger] res@[
            g].1@[e]).0.sample@ == res@[g].0.sample@
                && crate::graph_broker::graph::opt_bytes_eq_spec(
                res@[g].1@[e].0.haplotype,
                res@[g].0.haplotype,
            ) && crate::graph_broker::graph::opt_bytes_eq_spec(
                res@[g].1@[e].0.seqid,
                res@[g].0.seqid,
            )),
        // the total number of grouped entries equals the number of inputs
        group_sizes(res@) == ref_paths@.len(),
{
    let mut res: Vec<(PathSegment, Vec<(PathSegment, Vec<(ItemId, Orientation)>)>)> = Vec::new();
    let mut inp = ref_paths;
    let ghost total = inp@.len();
    while inp.len() > 0
        invariant
            group_sizes(res@) + inp@.len() == total,
            forall|g: int|
                0 <= g < res@.len() ==> (#[trigger] res@[g]).0.start is None && res@[g].0.end
                    is None,
            forall|g1: int, g2: int|
                0 <= g1 < g2 < res@.len() ==> !((#[trigger] res@[g1]).0.sample@ == (
                #[trigger] res@[g2]).0.sample@ && crate::graph_broker::graph::opt_bytes_eq_spec(
                    res@[g1].0.haplotype,
                    res@[g2].0.haplotype,
                ) && crate::graph_broker::graph::opt_bytes_eq_spec(
                    res@[g1].0.seqid,
                    res@[g2].0.seqid,
                )),
            forall|g: int, e: int|
                0 <= g < res@.len() && 0 <= e < (#[trigger] res@[g]).1@.len() ==> ((#[trigger] res@[
                g].1@[e]).0.sample@ == res@[g].0.sample@
                    && crate::graph_broker::graph::opt_bytes_eq_spec(
                    res@[g].1@[e].0.haplotype,
                    res@[g].0.haplotype,
                ) && crate::graph_broker::graph::opt_bytes_eq_spec(
                    res@[g].1@[e].0.seqid,
                    res@[g].0.seqid,
                )),
        decreases inp@.len(),
    {
        let ghost old_res = res@;
        let (path, content) = inp.remove(0);
        let key = path.clear_coords();
        let mut found: Option<usize> = None;
        let mut g: usize = 0;
        while g < res.len() && found.is_none()
            invariant
                0 <= g <= res@.len(),
                forall|t: int|
                    0 <= t < g ==> !((#[trigger] res@[t]).0.sample@ == key.sample@
                        && crate::graph_broker::graph::opt_bytes_eq_spec(
                        res@[t].0.haplotype,
                        key.haplotype,
                    ) && crate::graph_broker::graph::opt_bytes_eq_spec(
                        res@[t].0.seqid,
                        key.seqid,
                    )),
                found matches Some(x) ==> x == g && (g as int) < res@.len() && res@[g as int].0.sample@
                    == key.sample@ && crate::graph_broker::graph::opt_bytes_eq_spec(
                    res@[g as int].0.haplotype,
                    key.haplotype,
                ) && crate::graph_broker::graph::opt_bytes_eq_spec(
                    res@[g as int].0.seqid,
                    key.seqid,
                ),
            decreases res@.len() - g, (if found is None { 1int } else { 0int }),
        {
            if res[g].0.same_id(&key) {
                found = Some(g);
            } else {
                g += 1;
            }
        }
        match found {
            Some(gi) => {
                let mut entry = res.remove(gi);
                entry.1.push((path, content));
                res.insert(gi, entry);
                proof {
                    lemma_group_sizes_update(old_res, res@, gi as int);
                }
            },
            None => {
                let mut bucket: Vec<(PathSegment, Vec<(ItemId, Orientation)>)> = Vec::new();
                bucket.push((path, content));
                res.push((key, bucket));
                proof {
                    lemma_group_sizes_push(old_res, res@[res@.len() - 1]);
                }
            },
        }
    }
    res
}

/// Total number of entries across all groups.
pub open spec fn group_sizes(
    gs: Seq<(PathSegment, Vec<(PathSegment, Vec<(ItemId, Orientation)>)>)>,
) -> int
    decreases gs.len(),
{
    if gs.len() == 0 {
        0
    } else {
        group_sizes(gs.drop_last()) + gs.last().1@.len()
    }
}

/// Appending a group adds its size to the total.
pub proof fn lemma_group_sizes_push(
    gs: Seq<(PathSegment, Vec<(PathSegment, Vec<(ItemId, Orientation)>)>)>,
    e: (PathSegment, Vec<(PathSegment, Vec<(ItemId, Orientation)>)>),
)
    ensures
        group_sizes(gs.push(e)) == group_sizes(gs) + e.1@.len(),
{
    assert(gs.push(e).drop_last() =~= gs);
}

/// Growing one group by one entry grows the total by one.
pub proof fn lemma_group_sizes_update(
    old_gs: Seq<(PathSegment, Vec<(PathSegment, Vec<(ItemId, Orientation)>)>)>,
    new_gs: Seq<(PathSegment, Vec<(PathSegment, Vec<(ItemId, Orientation)>)>)>,
    gi: int,
)
    requires
        old_gs.len() == new_gs.len(),
        0 <= gi < old_gs.len(),
        forall|t: int| 0 <= t < old_gs.len() && t != gi ==> #[trigger] new_gs[t] == old_gs[t],
        new_gs[gi].1@.len() == old_gs[gi].1@.len() + 1,
    ensures
        group_sizes(new_gs) == group_sizes(old_gs) + 1,
    decreases old_gs.len(),
{
    if old_gs.len() > 0 {
        if gi == old_gs.len() - 1 {
            assert(old_gs.drop_last() =~= new_gs.drop_last()) by {
                assert forall|t: int| 0 <= t < old_gs.len() - 1 implies old_gs.drop_last()[t]
                    == new_gs.drop_last()[t] by {
                    assert(new_gs[t] == old_gs[t]);
                }
            }
        } else {
            lemma_group_sizes_update(old_gs.drop_last(), new_gs.drop_last(), gi);
            assert(new_gs.last() == old_gs.last());
        }
    }
}

} // verus!
