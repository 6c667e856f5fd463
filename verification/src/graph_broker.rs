//! The graph-facing layer of the engine: plain graph element types, the
//! path-to-group mask, the coverage matrix and the coverage histograms,
//! together with small helpers used while streaming path records.

use vstd::prelude::*;

use crate::analysis_parameter::Grouping;
use crate::graph_broker::abacus::GraphMask;
use crate::graph_broker::graph::{path_id_bytes, PathSegment};
use crate::util::{CountType, ItemTable};

pub mod abacus;
pub mod coverage_matrix;
pub mod graph;
pub mod hist;

verus! {

/// The graph-selection state of one analysis run: which graph file, which
/// subset and exclusion lists, and which grouping produced the mask.
#[derive(Debug, Clone)]
pub struct GraphState {
    pub graph: String,
    pub name: Option<String>,
    pub subset: String,
    pub exclude: String,
    pub grouping: Option<Grouping>,
}

/// The count type a table slot stands for while streaming: node tables are
/// shared with base-pair counting.
pub open spec fn norm_count(c: CountType) -> CountType {
    if c == CountType::Node {
        CountType::Bp
    } else {
        c
    }
}

/// Groups the positions of a count type list by the table each type reads
/// from, keys in first-seen order: node and base-pair counting share one
/// table.
pub fn get_count_indices(count_types: &Vec<CountType>) -> (res: Vec<(CountType, Vec<usize>)>)
    ensures
        forall|g1: int, g2: int|
            0 <= g1 < g2 < res@.len() ==> (#[trigger] res@[g1]).0 != (#[trigger] res@[g2]).0,
        forall|g: int, e: int|
            0 <= g < res@.len() && 0 <= e < (#[trigger] res@[g]).1@.len() ==> (#[trigger] res@[
            g].1@[e]) < count_types@.len() && norm_count(count_types@[res@[g].1@[e] as int])
                == res@[g].0,
        forall|g: int, e1: int, e2: int|
            #![trigger res@[g].1@[e1], res@[g].1@[e2]]
            0 <= g < res@.len() && 0 <= e1 < e2 < res@[g].1@.len() ==> res@[g].1@[e1] < res@[g].1@[e2],
        forall|j: int|
            0 <= j < count_types@.len() ==> exists|g: int|
                0 <= g < res@.len() && (#[trigger] res@[g]).0 == norm_count(
                    #[trigger] count_types@[j],
                ),
{
    let mut res: Vec<(CountType, Vec<usize>)> = Vec::new();
    let mut i: usize = 0;
    while i < count_types.len()
        invariant
            0 <= i <= count_types@.len(),
            forall|g1: int, g2: int|
                0 <= g1 < g2 < res@.len() ==> (#[trigger] res@[g1]).0 != (#[trigger] res@[g2]).0,
            forall|g: int, e: int|
                0 <= g < res@.len() && 0 <= e < (#[trigger] res@[g]).1@.len() ==> (#[trigger] res@[
                g].1@[e]) < count_types@.len() && norm_count(count_types@[res@[g].1@[e] as int])
                    == res@[g].0,
            forall|g: int, e: int|
                #![trigger res@[g].1@[e]]
                0 <= g < res@.len() && 0 <= e < res@[g].1@.len() ==> res@[g].1@[e] < i,
            forall|g: int, e1: int, e2: int|
                #![trigger res@[g].1@[e1], res@[g].1@[e2]]
                0 <= g < res@.len() && 0 <= e1 < e2 < res@[g].1@.len() ==> res@[g].1@[e1] < res@[
                    g].1@[e2],
            forall|j: int|
                0 <= j < i ==> exists|g: int|
                    0 <= g < res@.len() && (#[trigger] res@[g]).0 == norm_count(
                        #[trigger] count_types@[j],
                    ),
        decreases count_types@.len() - i,
    {
        let key = match count_types[i] {
            CountType::Node => CountType::Bp,
            c => c,
        };
        let mut found: Option<usize> = None;
        let mut g: usize = 0;
        while g < res.len() && found.is_none()
            invariant
                0 <= g <= res@.len(),
                forall|t: int| 0 <= t < g ==> (#[trigger] res@[t]).0 != key,
                found matches Some(x) ==> x == g && (g as int) < res@.len() && res@[g as int].0
                    == key,
            decreases res@.len() - g, (if found is None {
                1int
            } else {
                0int
            }),
        {
            if res[g].0 == key {
                found = Some(g);
            } else {
                g += 1;
            }
        }
        let ghost old_res = res@;
        proof {
            assert(key == norm_count(count_types@[i as int]));
        }
        match found {
            Some(gi) => {
                let mut entry = res.remove(gi);
                entry.1.push(i);
                res.insert(gi, entry);
                proof {
                    assert forall|t: int|
                        0 <= t < old_res.len() && t != gi implies #[trigger] res@[t] == old_res[t]
                    by {
                        if t < gi as int {
                        } else {
                        }
                    }
                    assert(res@[gi as int].0 == key);
                }
            },
            None => {
                let mut bucket: Vec<usize> = Vec::new();
                bucket.push(i);
                res.push((key, bucket));
            },
        }
        proof {
            assert forall|j: int| 0 <= j < i + 1 implies exists|g: int|
                0 <= g < res@.len() && (#[trigger] res@[g]).0 == norm_count(
                    #[trigger] count_types@[j],
                ) by {
                if j < i as int {
                    let g0 = choose|g: int|
                        0 <= g < old_res.len() && (#[trigger] old_res[g]).0 == norm_count(
                            count_types@[j],
                        );
                    assert(res@[g0].0 == old_res[g0].0);
                } else {
                    match found {
                        Some(gi) => {
                            assert(res@[gi as int].0 == norm_count(count_types@[j]));
                        },
                        None => {
                            assert(res@[res@.len() - 1].0 == norm_count(count_types@[j]));
                        },
                    }
                }
            }
        }
        i += 1;
    }
    res
}

/// Skips one path while streaming: carries every table's running prefix
/// sum over the skipped slot and clears the line buffer.
pub fn skip_path(item_tables: &mut Vec<ItemTable>, num_path: &mut usize, buf: &mut Vec<u8>)
    requires
        *old(num_path) < usize::MAX,
        forall|t: int|
            0 <= t < old(item_tables)@.len() ==> *old(num_path) + 1 < (#[trigger] old(
                item_tables,
            )@[t]).id_prefsum@.len(),
        forall|t: int|
            0 <= t < old(item_tables)@.len() ==> (#[trigger] old(item_tables)@[t]).id_prefsum@[*old(
                num_path,
            ) as int] + old(item_tables)@[t].id_prefsum@[*old(num_path) + 1] <= usize::MAX,
    ensures
        *final(num_path) == *old(num_path) + 1,
        final(buf)@.len() == 0,
        final(item_tables)@.len() == old(item_tables)@.len(),
        forall|t: int|
            0 <= t < old(item_tables)@.len() ==> (#[trigger] final(item_tables)@[t]).items@ == old(
                item_tables,
            )@[t].items@,
        forall|t: int|
            0 <= t < old(item_tables)@.len() ==> (#[trigger] final(item_tables)@[t]).id_prefsum@
                == old(item_tables)@[t].id_prefsum@.update(
                *old(num_path) + 1,
                (old(item_tables)@[t].id_prefsum@[*old(num_path) as int] + old(
                    item_tables,
                )@[t].id_prefsum@[*old(num_path) + 1]) as usize,
            ),
{
    let np = *num_path;
    let ghost orig = item_tables@;
    let mut t: usize = 0;
    while t < item_tables.len()
        invariant
            np < usize::MAX,
            item_tables@.len() == orig.len(),
            0 <= t <= orig.len(),
            forall|x: int|
                0 <= x < orig.len() ==> np + 1 < (#[trigger] orig[x]).id_prefsum@.len(),
            forall|x: int|
                0 <= x < orig.len() ==> (#[trigger] orig[x]).id_prefsum@[np as int] + orig[
                    x].id_prefsum@[np + 1] <= usize::MAX,
            forall|x: int| t <= x < orig.len() ==> (#[trigger] item_tables@[x]).id_prefsum@
                == orig[x].id_prefsum@ && item_tables@[x].items@ == orig[x].items@,
            forall|x: int|
                0 <= x < t ==> (#[trigger] item_tables@[x]).items@ == orig[x].items@,
            forall|x: int|
                0 <= x < t ==> (#[trigger] item_tables@[x]).id_prefsum@ == orig[
                    x].id_prefsum@.update(
                    np + 1,
                    (orig[x].id_prefsum@[np as int] + orig[x].id_prefsum@[np + 1]) as usize,
                ),
        decreases orig.len() - t,
    {
        let ghost prev = item_tables@;
        let mut table = item_tables.remove(t);
        let a = table.id_prefsum[np];
        let b = table.id_prefsum[np + 1];
        table.id_prefsum.set(np + 1, a + b);
        item_tables.insert(t, table);
        proof {
            assert forall|x: int|
                0 <= x < orig.len() && x != t as int implies #[trigger] item_tables@[x] == prev[x]
            by {
                if x < t as int {
                } else {
                }
            }
        }
        t += 1;
    }
    *num_path = np + 1;
    buf.clear();
}

/// The coordinate intervals of `exclude_map` that belong to the path, when
/// the mask excludes coordinates at all; empty otherwise.
pub fn get_exclude_maps(
    graph_mask: &GraphMask,
    exclude_map: &Vec<(Vec<u8>, Vec<(usize, usize)>)>,
    path_seg: &PathSegment,
) -> (res: Vec<(usize, usize)>)
    ensures
        graph_mask.exclude_coords is None ==> res@.len() == 0,
        graph_mask.exclude_coords is Some ==> res@ == (match coords_lookup(
            exclude_map@,
            path_id_bytes(path_seg),
        ) {
            Some(cs) => cs,
            None => Seq::empty(),
        }),
{
    match &graph_mask.exclude_coords {
        None => Vec::new(),
        Some(_) => lookup_coords(exclude_map, path_seg),
    }
}

/// The coordinate intervals of `include_map` that belong to the path, when
/// the mask restricts coordinates at all; the caller's full interval
/// otherwise.
pub fn get_include_coords(
    graph_mask: &GraphMask,
    complete: &Vec<(usize, usize)>,
    include_map: &Vec<(Vec<u8>, Vec<(usize, usize)>)>,
    path_seg: &PathSegment,
) -> (res: Vec<(usize, usize)>)
    ensures
        graph_mask.include_coords is None ==> res@ == complete@,
        graph_mask.include_coords is Some ==> res@ == (match coords_lookup(
            include_map@,
            path_id_bytes(path_seg),
        ) {
            Some(cs) => cs,
            None => Seq::empty(),
        }),
{
    match &graph_mask.include_coords {
        None => crate::graph_broker::graph::clone_intervals(complete),
        Some(_) => lookup_coords(include_map, path_seg),
    }
}

/// The interval list a coordinate map assigns to a path identifier: its
/// first entry with that identifier, if any.
pub open spec fn coords_lookup(
    map: Seq<(Vec<u8>, Vec<(usize, usize)>)>,
    id: Seq<u8>,
) -> Option<Seq<(usize, usize)>>
    decreases map.len(),
{
    if map.len() == 0 {
        None
    } else if map[0].0@ == id {
        Some(map[0].1@)
    } else {
        coords_lookup(map.skip(1), id)
    }
}

/// Finds a path's interval list in a coordinate map, empty when absent.
fn lookup_coords(
    map: &Vec<(Vec<u8>, Vec<(usize, usize)>)>,
    path_seg: &PathSegment,
) -> (res: Vec<(usize, usize)>)
    ensures
        res@ == (match coords_lookup(map@, path_id_bytes(path_seg)) {
            Some(cs) => cs,
            None => Seq::empty(),
        }),
{
    let id = path_seg.id();
    let mut k: usize = 0;
    proof {
        assert(map@.skip(0) =~= map@);
    }
    while k < map.len()
        invariant
            0 <= k <= map@.len(),
            id@ == path_id_bytes(path_seg),
            coords_lookup(map@, path_id_bytes(path_seg)) == coords_lookup(
                map@.skip(k as int),
                path_id_bytes(path_seg),
            ),
        decreases map@.len() - k,
    {
        proof {
            assert(map@.skip(k as int)[0] == map@[k as int]);
            assert(map@.skip(k as int).skip(1) =~= map@.skip(k + 1 as int));
        }
        if crate::util::bytes_eq(map[k].0.as_slice(), id.as_slice()) {
            return crate::graph_broker::graph::clone_intervals(&map[k].1);
        }
        k += 1;
    }
    proof {
        assert(map@.skip(map@.len() as int).len() == 0);
    }
    Vec::new()
}

} // verus!
