//! Byte-level parsing of GFA path and walk records into the engine's plain
//! types: a path line yields the path's name and its node visits, a walk
//! string yields oriented segment names.

use vstd::prelude::*;

use crate::graph_broker::graph::PathSegment;
use crate::util::{bytes_eq, CoreError};

verus! {

/// Index of the first occurrence of `sep` in `s`, or the length of `s`.
pub open spec fn first_index(s: Seq<u8>, sep: u8) -> int
    decreases s.len(),
{
    if s.len() == 0 {
        0
    } else if s[0] == sep {
        0
    } else {
        1 + first_index(s.skip(1), sep)
    }
}

/// The first occurrence is where the scan says it is.
pub proof fn lemma_first_index_is(s: Seq<u8>, sep: u8, m: int)
    requires
        0 <= m <= s.len(),
        forall|j: int| 0 <= j < m ==> s[j] != sep,
        m < s.len() ==> s[m] == sep,
    ensures
        first_index(s, sep) == m,
    decreases m,
{
    if s.len() == 0 {
    } else if m == 0 {
    } else {
        assert(s[0] != sep);
        assert forall|j: int| 0 <= j < m - 1 implies s.skip(1)[j] != sep by {
            assert(s.skip(1)[j] == s[j + 1]);
        }
        if m - 1 < s.skip(1).len() {
            assert(s.skip(1)[m - 1] == s[m]);
        }
        lemma_first_index_is(s.skip(1), sep, m - 1);
    }
}

/// The pieces of `s` between occurrences of `sep`; `n` separators yield
/// `n + 1` pieces, empty pieces included.
pub open spec fn split_bytes(s: Seq<u8>, sep: u8) -> Seq<Seq<u8>>
    decreases s.len(),
{
    let f = first_index(s, sep);
    if f < 0 || f >= s.len() {
        seq![s]
    } else {
        seq![s.take(f)] + split_bytes(s.skip(f + 1), sep)
    }
}

/// The id the lookup table assigns to a segment name: its first entry with
/// that name, if any.
pub open spec fn lookup_spec(table: Seq<(Vec<u8>, u32)>, name: Seq<u8>) -> Option<u32>
    decreases table.len(),
{
    if table.len() == 0 {
        None
    } else if table[0].0@ == name {
        Some(table[0].1)
    } else {
        lookup_spec(table.skip(1), name)
    }
}

/// First position of `target` in `buf` at or after `from`.
pub fn find_byte(buf: &[u8], from: usize, target: u8) -> (res: Option<usize>)
    requires
        from <= buf@.len(),
    ensures
        match res {
            Some(p) => from <= p < buf@.len() && buf@[p as int] == target && (forall|j: int|
                from <= j < p ==> buf@[j] != target),
            None => forall|j: int| from <= j < buf@.len() ==> buf@[j] != target,
        },
{
    let mut p = from;
    while p < buf.len()
        invariant
            from <= p <= buf@.len(),
            forall|j: int| from <= j < p ==> buf@[j] != target,
        decreases buf@.len() - p,
    {
        if buf[p] == target {
            return Some(p);
        }
        p += 1;
    }
    None
}

/// Looks a segment name up in the node table; the table's first entry with
/// that name wins.
pub fn lookup_node(node2id: &Vec<(Vec<u8>, u32)>, name: &[u8]) -> (res: Option<u32>)
    ensures
        res == lookup_spec(node2id@, name@),
{
    let mut k: usize = 0;
    proof {
        assert(node2id@.skip(0) =~= node2id@);
    }
    while k < node2id.len()
        invariant
            0 <= k <= node2id@.len(),
            lookup_spec(node2id@, name@) == lookup_spec(node2id@.skip(k as int), name@),
        decreases node2id@.len() - k,
    {
        proof {
            assert(node2id@.skip(k as int)[0] == node2id@[k as int]);
            assert(node2id@.skip(k as int).skip(1) =~= node2id@.skip(k + 1 as int));
        }
        if bytes_eq(node2id[k].0.as_slice(), name) {
            return Some(node2id[k].1);
        }
        k += 1;
    }
    proof {
        assert(node2id@.skip(node2id@.len() as int).len() == 0);
    }
    None
}

/// Whether every piece of a path string can be resolved: it holds at least
/// an orientation byte, and its name is known to the node table.
pub open spec fn chunk_ok(chunk: Seq<u8>, table: Seq<(Vec<u8>, u32)>) -> bool {
    chunk.len() >= 1 && lookup_spec(table, chunk.take(chunk.len() - 1)) is Some
}

/// Parses a path string: comma-separated node visits, each a node name
/// followed by one orientation byte, where a trailing `-` marks the reverse
/// strand. Succeeds exactly when every piece is non-empty and every name is
/// known to the node table.
pub fn parse_path(path_data: &[u8], node2id: &Vec<(Vec<u8>, u32)>) -> (res: Result<
    Vec<(u32, bool)>,
    CoreError,
>)
    ensures
        res.is_ok() <==> (forall|j: int|
            0 <= j < split_bytes(path_data@, 44u8).len() ==> chunk_ok(
                #[trigger] split_bytes(path_data@, 44u8)[j],
                node2id@,
            )),
        match res {
            Ok(out) => {
                let chunks = split_bytes(path_data@, 44u8);
                &&& out@.len() == chunks.len()
                &&& forall|j: int|
                    0 <= j < chunks.len() ==> lookup_spec(
                        node2id@,
                        (#[trigger] chunks[j]).take(chunks[j].len() - 1),
                    ) == Some(out@[j].0)
                &&& forall|j: int|
                    0 <= j < chunks.len() ==> out@[j].1 == ((#[trigger] chunks[j]).last() == 45u8)
            },
            Err(e) => e == CoreError::MalformedInput || e == CoreError::UnknownPath,
        },
{
    let ghost chunks = split_bytes(path_data@, 44u8);
    let mut out: Vec<(u32, bool)> = Vec::new();
    let mut cur: usize = 0;
    let mut done = false;
    proof {
        assert(path_data@.skip(0) =~= path_data@);
        assert(chunks.skip(0) =~= chunks);
    }
    while !done
        invariant
            0 <= cur <= path_data@.len(),
            chunks == split_bytes(path_data@, 44u8),
            out@.len() <= chunks.len(),
            !done ==> split_bytes(path_data@.skip(cur as int), 44u8) =~= chunks.skip(
                out@.len() as int,
            ),
            done ==> out@.len() == chunks.len(),
            forall|j: int|
                0 <= j < out@.len() ==> chunk_ok(#[trigger] chunks[j], node2id@),
            forall|j: int|
                0 <= j < out@.len() ==> lookup_spec(
                    node2id@,
                    (#[trigger] chunks[j]).take(chunks[j].len() - 1),
                ) == Some(out@[j].0),
            forall|j: int|
                0 <= j < out@.len() ==> out@[j].1 == ((#[trigger] chunks[j]).last() == 45u8),
        decreases path_data@.len() - cur, (if done {
            0int
        } else {
            1int
        }),
    {
        let ghost rem = path_data@.skip(cur as int);
        let nxt = match find_byte(path_data, cur, 44u8) {
            Some(p) => p,
            None => path_data.len(),
        };
        proof {
            assert forall|j: int| 0 <= j < nxt - cur implies rem[j] != 44u8 by {
                assert(rem[j] == path_data@[cur + j]);
            }
            if nxt < path_data@.len() {
                assert(rem[nxt - cur] == path_data@[nxt as int]);
            }
            lemma_first_index_is(rem, 44u8, nxt - cur);
            assert(rem.take(nxt - cur) =~= path_data@.subrange(cur as int, nxt as int));
            if nxt < path_data@.len() {
                assert(rem.skip(nxt - cur + 1) =~= path_data@.skip(nxt + 1 as int));
            }
            assert(split_bytes(rem, 44u8).len() >= 1);
            assert(out@.len() < chunks.len());
            assert(chunks.skip(out@.len() as int)[0] == chunks[out@.len() as int]);
        }
        let ghost chunk = chunks[out@.len() as int];
        proof {
            assert(chunk == path_data@.subrange(cur as int, nxt as int));
        }
        if nxt == cur {
            return Err(CoreError::MalformedInput);
        }
        let name = &path_data[cur..nxt - 1];
        let strand = path_data[nxt - 1] == 45u8;
        proof {
            assert(name@ =~= chunk.take(chunk.len() - 1));
            assert(path_data@[nxt - 1] == chunk.last());
        }
        let id = match lookup_node(node2id, name) {
            Some(id) => id,
            None => {
                return Err(CoreError::UnknownPath);
            },
        };
        out.push((id, strand));
        proof {
            assert(chunks.skip(out@.len() - 1).skip(1) =~= chunks.skip(out@.len() as int));
        }
        if nxt == path_data.len() {
            done = true;
            proof {
                assert(split_bytes(rem, 44u8) =~= seq![rem]);
                assert(chunks.skip(out@.len() - 1) =~= seq![chunk]);
                assert(chunks.skip(out@.len() as int).len() == 0);
            }
        } else {
            cur = nxt + 1;
        }
    }
    proof {
        assert forall|j: int| 0 <= j < chunks.len() implies chunk_ok(
            #[trigger] chunks[j],
            node2id@,
        ) by {}
    }
    Ok(out)
}

/// Parses one GFA path line: the name stands between the first and second
/// tab, the node visits follow up to the next tab or line break. Succeeds
/// exactly when both tabs are present and the visits parse against the node
/// table.
pub fn parse_path_line(buf: &[u8], node2id: &Vec<(Vec<u8>, u32)>) -> (res: Result<
    (PathSegment, Vec<(u32, bool)>),
    CoreError,
>)
    ensures
        match res {
            Ok(pair) => {
                &&& pair.0.haplotype is None
                &&& pair.0.seqid is None
                &&& pair.0.start is None
                &&& pair.0.end is None
            },
            Err(e) => e == CoreError::MalformedInput || e == CoreError::UnknownPath,
        },
{
    let bl = buf.len();
    let t1 = match find_byte(buf, 0, 9u8) {
        Some(p) => p,
        None => {
            return Err(CoreError::MalformedInput);
        },
    };
    proof {
        assert(t1 < bl);
    }
    let start = t1 + 1;
    let t2 = match find_byte(buf, start, 9u8) {
        Some(p) => p,
        None => {
            return Err(CoreError::MalformedInput);
        },
    };
    let name = &buf[start..t2];
    proof {
        assert(t2 < bl);
    }
    let data_start = t2 + 1;
    let data_end = match find_byte(buf, data_start, 9u8) {
        Some(p) => p,
        None => match find_byte(buf, data_start, 10u8) {
            Some(p) => p,
            None => buf.len(),
        },
    };
    let data_end = match find_byte(buf, data_start, 10u8) {
        Some(p) => {
            if p < data_end {
                p
            } else {
                data_end
            }
        },
        None => data_end,
    };
    let data = &buf[data_start..data_end];
    let path = match parse_path(data, node2id) {
        Ok(p) => p,
        Err(e) => {
            return Err(e);
        },
    };
    let mut name_vec: Vec<u8> = Vec::new();
    let mut k: usize = 0;
    while k < name.len()
        invariant
            0 <= k <= name@.len(),
            name_vec@ == name@.take(k as int),
        decreases name@.len() - k,
    {
        name_vec.push(name[k]);
        proof {
            assert(name@.take(k + 1 as int) =~= name@.take(k as int).push(name@[k as int]));
        }
        k += 1;
    }
    Ok((PathSegment::from_sample(name_vec), path))
}

/// Index of the first orientation marker (`>` or `<`) in `s`, or the
/// length of `s`.
pub open spec fn first_marker(s: Seq<u8>) -> int
    decreases s.len(),
{
    if s.len() == 0 {
        0
    } else if s[0] == 62 || s[0] == 60 {
        0
    } else {
        1 + first_marker(s.skip(1))
    }
}

/// The first marker is where the scan says it is.
pub proof fn lemma_first_marker_is(s: Seq<u8>, m: int)
    requires
        0 <= m <= s.len(),
        forall|j: int| 0 <= j < m ==> s[j] != 62 && s[j] != 60,
        m < s.len() ==> (s[m] == 62 || s[m] == 60),
    ensures
        first_marker(s) == m,
    decreases m,
{
    if s.len() == 0 {
    } else if m == 0 {
    } else {
        assert(s[0] != 62 && s[0] != 60);
        assert forall|j: int| 0 <= j < m - 1 implies s.skip(1)[j] != 62 && s.skip(1)[j] != 60 by {
            assert(s.skip(1)[j] == s[j + 1]);
        }
        if m - 1 < s.skip(1).len() {
            assert(s.skip(1)[m - 1] == s[m]);
        }
        lemma_first_marker_is(s.skip(1), m - 1);
    }
}

/// The oriented segment names a walk string denotes: each piece starts at
/// an orientation marker (`<` meaning reverse) and carries the name up to
/// the next marker.
pub open spec fn parse_walk_spec(s: Seq<u8>) -> Seq<(Seq<u8>, bool)>
    decreases s.len(),
{
    if s.len() == 0 {
        Seq::empty()
    } else {
        let j = 1 + first_marker(s.skip(1));
        if j < 1 || j >= s.len() {
            seq![(s.subrange(1, s.len() as int), s[0] == 60)]
        } else {
            seq![(s.subrange(1, j), s[0] == 60)] + parse_walk_spec(s.skip(j))
        }
    }
}

/// Parses a walk string into oriented segment names. The string must start
/// with an orientation marker when it is non-empty.
pub fn parse_walk(walk_data: &[u8]) -> (res: Vec<(Vec<u8>, bool)>)
    requires
        walk_data@.len() > 0 ==> (walk_data@[0] == 62 || walk_data@[0] == 60),
    ensures
        res@.len() == parse_walk_spec(walk_data@).len(),
        forall|j: int|
            0 <= j < res@.len() ==> (#[trigger] res@[j]).0@ == parse_walk_spec(walk_data@)[j].0,
        forall|j: int|
            0 <= j < res@.len() ==> (#[trigger] res@[j]).1 == parse_walk_spec(walk_data@)[j].1,
{
    let ghost pieces = parse_walk_spec(walk_data@);
    let mut res: Vec<(Vec<u8>, bool)> = Vec::new();
    let mut cur: usize = 0;
    proof {
        assert(walk_data@.skip(0) =~= walk_data@);
        assert(pieces.skip(0) =~= pieces);
    }
    while cur < walk_data.len()
        invariant
            walk_data@.len() > 0 ==> (walk_data@[0] == 62 || walk_data@[0] == 60),
            0 <= cur <= walk_data@.len(),
            pieces == parse_walk_spec(walk_data@),
            cur < walk_data@.len() ==> (walk_data@[cur as int] == 62 || walk_data@[cur as int]
                == 60),
            res@.len() <= pieces.len(),
            parse_walk_spec(walk_data@.skip(cur as int)) =~= pieces.skip(res@.len() as int),
            cur == walk_data@.len() ==> res@.len() == pieces.len(),
            forall|j: int| 0 <= j < res@.len() ==> (#[trigger] res@[j]).0@ == pieces[j].0,
            forall|j: int| 0 <= j < res@.len() ==> (#[trigger] res@[j]).1 == pieces[j].1,
        decreases walk_data@.len() - cur,
    {
        let ghost rem = walk_data@.skip(cur as int);
        let strand = walk_data[cur] == 60u8;
        // scan for the next marker
        let mut nxt = cur + 1;
        while nxt < walk_data.len() && walk_data[nxt] != 62u8 && walk_data[nxt] != 60u8
            invariant
                cur + 1 <= nxt <= walk_data@.len(),
                forall|j: int| cur + 1 <= j < nxt ==> walk_data@[j] != 62 && walk_data@[j] != 60,
            decreases walk_data@.len() - nxt,
        {
            nxt += 1;
        }
        proof {
            assert forall|j: int| 0 <= j < nxt - cur - 1 implies rem.skip(1)[j] != 62 && rem.skip(
                1,
            )[j] != 60 by {
                assert(rem.skip(1)[j] == walk_data@[cur + 1 + j]);
            }
            if nxt < walk_data@.len() {
                assert(rem.skip(1)[nxt - cur - 1] == walk_data@[nxt as int]);
            }
            lemma_first_marker_is(rem.skip(1), nxt - cur - 1);
            assert(rem.len() > 0);
            assert(rem[0] == walk_data@[cur as int]);
            assert(pieces.skip(res@.len() as int)[0] == pieces[res@.len() as int]);
        }
        let ghost piece = pieces[res@.len() as int];
        let mut name: Vec<u8> = Vec::new();
        let mut k = cur + 1;
        while k < nxt
            invariant
                cur + 1 <= k <= nxt,
                nxt <= walk_data@.len(),
                name@ == walk_data@.subrange(cur + 1 as int, k as int),
            decreases nxt - k,
        {
            name.push(walk_data[k]);
            proof {
                assert(walk_data@.subrange(cur + 1 as int, k + 1 as int) =~= walk_data@.subrange(
                    cur + 1 as int,
                    k as int,
                ).push(walk_data@[k as int]));
            }
            k += 1;
        }
        proof {
            if nxt < walk_data@.len() {
                assert(rem.subrange(1, nxt - cur as int) =~= walk_data@.subrange(
                    cur + 1 as int,
                    nxt as int,
                ));
                assert(rem.skip(nxt - cur as int) =~= walk_data@.skip(nxt as int));
            } else {
                assert(rem.subrange(1, rem.len() as int) =~= walk_data@.subrange(
                    cur + 1 as int,
                    nxt as int,
                ));
            }
            assert(pieces.skip(res@.len() as int).skip(1) =~= pieces.skip(res@.len() as int + 1));
        }
        res.push((name, strand));
        cur = nxt;
        proof {
            if cur == walk_data@.len() {
                assert(parse_walk_spec(walk_data@.skip(cur as int)).len() == 0);
                assert(pieces.skip(res@.len() as int).len() == 0);
            }
        }
    }
    res
}

} // verus!
