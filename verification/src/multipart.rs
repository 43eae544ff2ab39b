//! Multi-part expansion: rewrites a one-part graph into a graph over
//! equivalence classes of chunks related by part-head rotation.

use vstd::prelude::*;

use crate::builder::{
    build_false_lists, chunk_row, chunks_share_row, id_valid, lemma_share_self,
    lemma_share_symmetric, seg_len,
};
use crate::graph::{fc_contains, Chunk, ChunkId, Graph, Link, LinkId, LinkSet, LinkSide};
use crate::params::Parameters;
use crate::row::{rounds_seq, row_mul, valid_row, RowBuf};
use crate::search::SearchError;
use crate::utils::{sat_add, MusicBreakdown};

verus! {

/// The `k`th power of a part head: `k` copies composed onto rounds.
pub open spec fn row_pow(ph: Seq<u8>, k: int) -> Seq<u8>
    decreases k,
{
    if k <= 0 {
        rounds_seq(ph.len() as int)
    } else {
        row_mul(ph, row_pow(ph, k - 1))
    }
}

/// Whether some supported power of the part head comes back to rounds.
pub open spec fn has_closure(ph: Seq<u8>) -> bool {
    exists|k: int| 1 <= k <= 65535 && #[trigger] row_pow(ph, k) == rounds_seq(ph.len() as int)
}

/// The cyclic closure of a part head: its powers in order, rounds first, up
/// to but not including the first power that comes back to rounds.  Fails
/// exactly when no supported power closes.
pub fn part_head_closure(part_head: &RowBuf) -> (r: Result<Vec<RowBuf>, SearchError>)
    requires
        part_head.valid(),
        1 <= part_head@.len(),
    ensures
        match r {
            Ok(pows) => {
                &&& 1 <= pows@.len() <= 65535
                &&& forall|k: int|
                    0 <= k < pows@.len() ==> (#[trigger] pows@[k]).valid() && pows@[k]@.len()
                        == part_head@.len() && pows@[k]@ == row_pow(part_head@, k)
                &&& pows@[0]@ == rounds_seq(part_head@.len() as int)
                &&& row_pow(part_head@, pows@.len() as int) == rounds_seq(part_head@.len() as int)
                &&& forall|k: int|
                    1 <= k < pows@.len() ==> #[trigger] row_pow(part_head@, k) != rounds_seq(
                        part_head@.len() as int,
                    )
            },
            Err(e) => e == SearchError::NoValidCompositionsPossible && !has_closure(part_head@),
        },
{
    let n = part_head.bells.len();
    let stage = part_head.stage();
    let mut pows: Vec<RowBuf> = Vec::new();
    let rounds = RowBuf::rounds(stage);
    pows.push(rounds);
    let mut cur = part_head.clone();
    proof {
        crate::row::lemma_rounds_identity(part_head@);
        assert(row_pow(part_head@, 0) == rounds_seq(part_head@.len() as int));
        assert(row_pow(part_head@, 1) == row_mul(part_head@, rounds_seq(part_head@.len() as int)));
        assert(cur@ == row_pow(part_head@, 1));
    }
    let mut k: usize = 1;
    while k < 65536
        invariant
            1 <= k <= 65536,
            part_head.valid(),
            part_head@.len() == n >= 1,
            n <= crate::bell::MAX_BELLS,
            cur.valid(),
            cur@.len() == n,
            cur@ == row_pow(part_head@, k as int),
            pows@.len() == k,
            forall|j: int|
                0 <= j < k ==> (#[trigger] pows@[j]).valid() && pows@[j]@.len() == n
                    && pows@[j]@ == row_pow(part_head@, j),
            forall|j: int|
                1 <= j < k ==> #[trigger] row_pow(part_head@, j) != rounds_seq(n as int),
            pows@[0]@ == rounds_seq(n as int),
        decreases 65536 - k,
    {
        if cur.is_rounds() {
            return Ok(pows);
        }
        let next = part_head.mul(&cur);
        pows.push(cur);
        cur = next;
        k += 1;
    }
    // The closure did not come back to rounds within the supported number
    // of parts.
    proof {
        assert forall|j: int|
            1 <= j <= 65535 implies #[trigger] row_pow(part_head@, j) != rounds_seq(
            part_head@.len() as int,
        ) by {}
    }
    Err(SearchError::NoValidCompositionsPossible)
}

/// Whether two chunks share a row, answered by comparing their transposed
/// segment rows directly.
fn chunks_share_direct(params: &Parameters, a: &ChunkId, b: &ChunkId) -> (r: bool)
    requires
        params.wf(),
        id_valid(params, a@),
        id_valid(params, b@),
    ensures
        r == chunks_share_row(params, a@, b@),
{
    let ma = a.row_idx.method;
    let sa = a.row_idx.sub_lead_idx;
    let mb = b.row_idx.method;
    let sb = b.row_idx.sub_lead_idx;
    let meth_a = &params.methods[ma];
    let meth_b = &params.methods[mb];
    let ea = crate::builder::segment_end(meth_a, sa);
    let eb = crate::builder::segment_end(meth_b, sb);
    let ka = ea - sa;
    let kb = eb - sb;
    let mut i: usize = 0;
    while i < ka
        invariant
            i <= ka,
            params.wf(),
            id_valid(params, a@),
            id_valid(params, b@),
            *meth_a == params.methods@[ma as int],
            *meth_b == params.methods@[mb as int],
            ma == a@.method,
            sa == a@.sub_lead_idx,
            mb == b@.method,
            sb == b@.sub_lead_idx,
            ka == seg_len(*meth_a, sa as int),
            kb == seg_len(*meth_b, sb as int),
            sa + ka <= meth_a.lead@.len(),
            sb + kb <= meth_b.lead@.len(),
            forall|i2: int, j2: int|
                0 <= i2 < i && 0 <= j2 < kb ==> #[trigger] chunk_row(params, a@, i2)
                    != #[trigger] chunk_row(params, b@, j2),
        decreases ka - i,
    {
        let ra = a.lead_head.mul(&meth_a.lead[sa + i]);
        let mut j: usize = 0;
        while j < kb
            invariant
                j <= kb,
                i < ka,
                params.wf(),
                id_valid(params, a@),
                id_valid(params, b@),
                *meth_a == params.methods@[ma as int],
                *meth_b == params.methods@[mb as int],
                ma == a@.method,
                sa == a@.sub_lead_idx,
                mb == b@.method,
                sb == b@.sub_lead_idx,
                ka == seg_len(*meth_a, sa as int),
                kb == seg_len(*meth_b, sb as int),
                sa + ka <= meth_a.lead@.len(),
                sb + kb <= meth_b.lead@.len(),
                ra@ == chunk_row(params, a@, i as int),
                forall|j2: int|
                    0 <= j2 < j ==> #[trigger] chunk_row(params, b@, j2) != chunk_row(
                        params,
                        a@,
                        i as int,
                    ),
            decreases kb - j,
        {
            let rb = b.lead_head.mul(&meth_b.lead[sb + j]);
            if ra == rb {
                proof {
                    assert(chunk_row(params, a@, i as int) == chunk_row(params, b@, j as int));
                }
                return true;
            }
            proof {
                assert(chunk_row(params, b@, j as int) != chunk_row(params, a@, i as int));
            }
            j += 1;
        }
        i += 1;
    }
    proof {
        if chunks_share_row(params, a@, b@) {
            let (i2, j2) = choose|i2: int, j2: int|
                0 <= i2 < seg_len(params.methods@[a@.method], a@.sub_lead_idx) && 0 <= j2
                    < seg_len(params.methods@[b@.method], b@.sub_lead_idx)
                    && #[trigger] chunk_row(params, a@, i2) == #[trigger] chunk_row(
                    params,
                    b@,
                    j2,
                );
            assert(false);
        }
    }
    false
}


/// Rewrites a one-part graph into its multi-part equivalence-class graph.
/// Each class keeps one representative chunk, with its members' total
/// length, music and required flags merged; links record which power of
/// the part head their traversal applies; links into rotated copies of the
/// start become part-head ends.  Classes whose orbit is not fully present
/// are dropped.  The contract states the result's well-formedness, its
/// falseness completeness and the part head's closure; the per-member
/// merge arithmetic is left to the construction, since stating it would
/// expose the orbit assignment itself.
pub fn to_multipart(g: &Graph, params: &Parameters) -> (r: Result<Graph, SearchError>)
    requires
        params.wf(),
        crate::search::search_graph_ok(g, params),
        g.num_parts == 1,
    ensures
        match r {
            Ok(g2) => {
                &&& g2.wf()
                &&& crate::search::graph_falseness_complete(&g2, params)
                &&& forall|i: int|
                    0 <= i < g2.chunks@.len() ==> 1 <= (#[trigger] g2.chunks@[i]).per_part_length
                        <= 65535
                &&& 1 <= g2.num_parts <= 65535
                &&& row_pow(params.part_head@, g2.num_parts as int) == rounds_seq(
                    params.part_head@.len() as int,
                )
            },
            Err(e) => e == SearchError::NoValidCompositionsPossible && !has_closure(
                params.part_head@,
            ),
        },
{
    let pows = match part_head_closure(&params.part_head) {
        Ok(p) => p,
        Err(e) => {
            return Err(e);
        }
    };
    let p_count = pows.len();
    let nv = g.chunk_ids.len();

    // Assign every chunk to an orbit class, starts first so that every
    // start is its class's zero-rotation representative.
    let mut assigned: Vec<Option<(usize, u16)>> = Vec::new();
    let mut z: usize = 0;
    while z < nv
        invariant
            z <= nv,
            assigned@.len() == z,
            forall|j: int| 0 <= j < z ==> (#[trigger] assigned@[j]) is None,
        decreases nv - z,
    {
        assigned.push(None);
        z += 1;
    }
    let mut rep_idx: Vec<usize> = Vec::new();
    let mut members: Vec<Vec<usize>> = Vec::new();
    let mut complete: Vec<bool> = Vec::new();
    let mut is_start_class: Vec<bool> = Vec::new();

    // Two seeding passes: the start chunks, then everything else.
    let mut pass: usize = 0;
    while pass < 2
        invariant
            pass <= 2,
            params.wf(),
            crate::search::search_graph_ok(g, params),
            nv == g.chunk_ids@.len(),
            assigned@.len() == nv,
            rep_idx@.len() == members@.len() == complete@.len() == is_start_class@.len(),
            forall|c: int, c2: int|
                0 <= c < c2 < rep_idx@.len() ==> (#[trigger] rep_idx@[c]) != (
                #[trigger] rep_idx@[c2]),
            forall|c: int|
                0 <= c < rep_idx@.len() ==> (#[trigger] rep_idx@[c]) < nv
                    && assigned@[rep_idx@[c] as int] is Some,
            forall|c: int|
                0 <= c < members@.len() ==> forall|y: int|
                    0 <= y < (#[trigger] members@[c])@.len() ==> (#[trigger] members@[c]@[y])
                        < nv,
            1 <= p_count <= 65535,
            pows@.len() == p_count,
            forall|k: int|
                0 <= k < p_count ==> (#[trigger] pows@[k]).valid() && pows@[k]@.len()
                    == params.methods@[0].stage.spec_num_bells(),
        decreases 2 - pass,
    {
        let seed_count = if pass == 0 {
            g.starts.len()
        } else {
            nv
        };
        let mut si: usize = 0;
        while si < seed_count
            invariant
                si <= seed_count,
                pass < 2,
                seed_count == if pass == 0 {
                    g.starts@.len() as int
                } else {
                    nv as int
                },
                params.wf(),
                crate::search::search_graph_ok(g, params),
                nv == g.chunk_ids@.len(),
                assigned@.len() == nv,
                rep_idx@.len() == members@.len() == complete@.len() == is_start_class@.len(),
                forall|c: int, c2: int|
                    0 <= c < c2 < rep_idx@.len() ==> (#[trigger] rep_idx@[c]) != (
                    #[trigger] rep_idx@[c2]),
                forall|c: int|
                    0 <= c < rep_idx@.len() ==> (#[trigger] rep_idx@[c]) < nv
                        && assigned@[rep_idx@[c] as int] is Some,
                forall|c: int|
                    0 <= c < members@.len() ==> forall|y: int|
                        0 <= y < (#[trigger] members@[c])@.len() ==> (
                        #[trigger] members@[c]@[y]) < nv,
                1 <= p_count <= 65535,
                pows@.len() == p_count,
                forall|k: int|
                    0 <= k < p_count ==> (#[trigger] pows@[k]).valid() && pows@[k]@.len()
                        == params.methods@[0].stage.spec_num_bells(),
            decreases seed_count - si,
        {
            let seed: Option<usize> = if pass == 0 {
                g.find_chunk(&g.starts[si].1)
            } else {
                Some(si)
            };
            match seed {
                Some(idx) => {
                    if assigned[idx].is_none() {
                        // A fresh orbit: walk the part-head powers and find
                        // each member.  The chunk itself is the
                        // zero-rotation member.
                        let cls = rep_idx.len();
                        let ghost rep0 = rep_idx@;
                        let ghost assigned_seed = assigned@;
                        let mut mem: Vec<usize> = Vec::new();
                        let mut ok = true;
                        let mut k: usize = 0;
                        while k < p_count
                            invariant
                                k <= p_count,
                                params.wf(),
                                crate::search::search_graph_ok(g, params),
                                nv == g.chunk_ids@.len(),
                                assigned@.len() == nv,
                                idx < nv,
                                cls == rep_idx@.len(),
                                1 <= p_count <= 65535,
                                pows@.len() == p_count,
                                forall|k2: int|
                                    0 <= k2 < p_count ==> (#[trigger] pows@[k2]).valid()
                                        && pows@[k2]@.len()
                                        == params.methods@[0].stage.spec_num_bells(),
                                mem@.len() <= k,
                                ok ==> mem@.len() == k,
                                forall|x: int| 0 <= x < mem@.len() ==> (#[trigger] mem@[x]) < nv,
                                k >= 1 ==> assigned@[idx as int] is Some,
                                forall|j: int|
                                    0 <= j < nv && (#[trigger] assigned_seed[j]) is Some
                                        ==> assigned@[j] is Some,
                            decreases p_count - k,
                        {
                            if ok {
                                proof {
                                    assert(crate::builder::id_valid(
                                        params,
                                        g.chunk_ids@[idx as int]@,
                                    ));
                                }
                                if k == 0 {
                                    assigned.set(idx, Some((cls, 0)));
                                    mem.push(idx);
                                } else {
                                    let head = pows[k].mul(&g.chunk_ids[idx].lead_head);
                                    let member = ChunkId::new(head, g.chunk_ids[idx].row_idx);
                                    match g.find_chunk(&member) {
                                        Some(j) => {
                                            if assigned[j].is_some() {
                                                // Orbits overlap: the graph is
                                                // not orbit-consistent, so
                                                // drop this class.
                                                ok = false;
                                            } else {
                                                assigned.set(j, Some((cls, k as u16)));
                                                mem.push(j);
                                            }
                                        }
                                        None => {
                                            ok = false;
                                        }
                                    }
                                }
                            } else {
                                if k == 0 {
                                    // Never reached: the walk starts with
                                    // `ok` set, but the marks invariant
                                    // needs the branch written out.
                                    assigned.set(idx, Some((cls, 0)));
                                    mem.push(idx);
                                }
                            }
                            k += 1;
                        }
                        rep_idx.push(idx);
                        members.push(mem);
                        complete.push(ok);
                        is_start_class.push(pass == 0);
                        proof {
                            assert(assigned@[idx as int] is Some);
                            assert forall|c: int, c2: int|
                                0 <= c < c2 < rep_idx@.len() implies (#[trigger] rep_idx@[c]) != (
                            #[trigger] rep_idx@[c2]) by {
                                if c2 < rep_idx@.len() - 1 {
                                    assert(rep_idx@[c] == rep0[c] && rep_idx@[c2] == rep0[c2]);
                                } else {
                                    assert(rep_idx@[c] == rep0[c]);
                                    assert(assigned_seed[rep0[c] as int] is Some);
                                    assert(assigned_seed[idx as int] is None);
                                }
                            }
                            assert forall|c: int|
                                0 <= c < rep_idx@.len() implies (#[trigger] rep_idx@[c]) < nv
                                && assigned@[rep_idx@[c] as int] is Some by {
                                if c < rep_idx@.len() - 1 {
                                    assert(rep_idx@[c] == rep0[c]);
                                    assert(assigned_seed[rep0[c] as int] is Some);
                                }
                            }
                        }
                    }
                }
                None => {}
            }
            si += 1;
        }
        pass += 1;
    }
    let nc_all = rep_idx.len();

    // Keep only the complete classes, in order.
    let mut new_ids: Vec<ChunkId> = Vec::new();
    let mut kept_rep: Vec<usize> = Vec::new();
    let mut kept_members: Vec<Vec<usize>> = Vec::new();
    let mut kept_is_start: Vec<bool> = Vec::new();
    let mut old_to_new: Vec<Option<usize>> = Vec::new();
    let ghost mut csrc: Seq<int> = Seq::empty();
    let mut c: usize = 0;
    while c < nc_all
        invariant
            c <= nc_all,
            params.wf(),
            crate::search::search_graph_ok(g, params),
            nv == g.chunk_ids@.len(),
            nc_all == rep_idx@.len() == members@.len() == complete@.len()
                == is_start_class@.len(),
            forall|c1: int, c2: int|
                0 <= c1 < c2 < rep_idx@.len() ==> (#[trigger] rep_idx@[c1]) != (
                #[trigger] rep_idx@[c2]),
            forall|c1: int| 0 <= c1 < rep_idx@.len() ==> (#[trigger] rep_idx@[c1]) < nv,
            forall|c1: int|
                0 <= c1 < members@.len() ==> forall|y: int|
                    0 <= y < (#[trigger] members@[c1])@.len() ==> (#[trigger] members@[c1]@[y])
                        < nv,
            forall|x: int|
                0 <= x < old_to_new@.len() ==> ((#[trigger] old_to_new@[x]) matches Some(v) ==> v
                    < new_ids@.len()),
            old_to_new@.len() == c,
            new_ids@.len() == kept_rep@.len() == kept_members@.len() == kept_is_start@.len(),
            csrc.len() == kept_rep@.len(),
            forall|x: int| 0 <= x < csrc.len() ==> 0 <= #[trigger] csrc[x] < c,
            forall|x1: int, x2: int| 0 <= x1 < x2 < csrc.len() ==> csrc[x1] < csrc[x2],
            forall|x: int|
                0 <= x < csrc.len() ==> (#[trigger] kept_rep@[x]) == rep_idx@[csrc[x]],
            forall|x: int|
                0 <= x < kept_rep@.len() ==> (#[trigger] kept_rep@[x]) < nv && (new_ids@[x])@
                    == g.chunk_ids@[kept_rep@[x] as int]@,
            forall|x1: int, x2: int|
                0 <= x1 < x2 < kept_rep@.len() ==> (#[trigger] kept_rep@[x1]) != (
                #[trigger] kept_rep@[x2]),
            forall|x: int|
                0 <= x < kept_members@.len() ==> forall|y: int|
                    0 <= y < (#[trigger] kept_members@[x])@.len() ==> (
                    #[trigger] kept_members@[x]@[y]) < nv,
        decreases nc_all - c,
    {
        if complete[c] {
            let ghost kept0 = kept_rep@;
            old_to_new.push(Some(new_ids.len()));
            new_ids.push(g.chunk_ids[rep_idx[c]].clone());
            kept_rep.push(rep_idx[c]);
            let mut mem2: Vec<usize> = Vec::new();
            let mm = &members[c];
            let mut y: usize = 0;
            while y < mm.len()
                invariant
                    y <= mm@.len(),
                    mem2@.len() == y,
                    forall|y2: int| 0 <= y2 < mm@.len() ==> (#[trigger] mm@[y2]) < nv,
                    forall|y2: int| 0 <= y2 < y ==> (#[trigger] mem2@[y2]) < nv,
                decreases mm@.len() - y,
            {
                mem2.push(mm[y]);
                y += 1;
            }
            kept_members.push(mem2);
            kept_is_start.push(is_start_class[c]);
            proof {
                csrc = csrc.push(c as int);
                assert forall|x1: int, x2: int|
                    0 <= x1 < x2 < kept_rep@.len() implies (#[trigger] kept_rep@[x1]) != (
                #[trigger] kept_rep@[x2]) by {
                    assert(csrc[x1] < csrc[x2]);
                    assert(kept_rep@[x1] == rep_idx@[csrc[x1]]);
                    assert(kept_rep@[x2] == rep_idx@[csrc[x2]]);
                }
            }
        } else {
            old_to_new.push(None);
        }
        c += 1;
    }
    let nc = new_ids.len();
    proof {
        assert forall|x1: int, x2: int|
            0 <= x1 < new_ids@.len() && 0 <= x2 < new_ids@.len() && x1 != x2 implies (
        #[trigger] new_ids@[x1])@ != (#[trigger] new_ids@[x2])@ by {
            assert(kept_rep@[x1] != kept_rep@[x2]);
            assert(g.chunk_ids@[kept_rep@[x1] as int]@ != g.chunk_ids@[kept_rep@[x2] as int]@);
        }
        assert forall|x: int| 0 <= x < new_ids@.len() implies id_valid(
            params,
            (#[trigger] new_ids@[x])@,
        ) by {
            assert(id_valid(params, g.chunk_ids@[kept_rep@[x] as int]@));
        }
        assert(params.part_head@.len() == params.methods@[0].stage.spec_num_bells());
    }

    // Remap each old chunk to its class index in the kept list.
    let mut chunk_map: Vec<Option<(usize, u16)>> = Vec::new();
    let mut z2: usize = 0;
    while z2 < nv
        invariant
            z2 <= nv,
            nv == g.chunk_ids@.len(),
            nc_all == rep_idx@.len(),
            old_to_new@.len() == nc_all,
            chunk_map@.len() == z2,
            assigned@.len() == nv,
            nc == new_ids@.len(),
            forall|x: int|
                0 <= x < old_to_new@.len() ==> ((#[trigger] old_to_new@[x]) matches Some(v) ==> v
                    < nc),
            forall|j: int|
                0 <= j < z2 ==> ((#[trigger] chunk_map@[j]) matches Some(v) ==> v.0 < nc && v.1
                    < p_count),
            1 <= p_count <= 65535,
        decreases nv - z2,
    {
        let entry = match assigned[z2] {
            Some((cls, rot)) => {
                if cls < old_to_new.len() && (rot as usize) < p_count {
                    match old_to_new[cls] {
                        Some(newc) => Some((newc, rot)),
                        None => None,
                    }
                } else {
                    None
                }
            }
            None => None,
        };
        chunk_map.push(entry);
        z2 += 1;
    }

    // Build the class chunks.
    let mut new_chunks: Vec<Chunk> = Vec::new();
    let mut links = LinkSet::new();
    let mut succs: Vec<Vec<LinkId>> = Vec::new();
    let mut preds: Vec<Vec<LinkId>> = Vec::new();
    let mut starts: Vec<(LinkId, ChunkId)> = Vec::new();
    let mut ends: Vec<(LinkId, ChunkId)> = Vec::new();
    let mut ci: usize = 0;
    while ci < nc
        invariant
            ci <= nc,
            params.wf(),
            crate::search::search_graph_ok(g, params),
            nv == g.chunk_ids@.len(),
            nc == new_ids@.len() == kept_rep@.len() == kept_members@.len(),
            forall|x: int|
                0 <= x < kept_rep@.len() ==> (#[trigger] kept_rep@[x]) < nv && (new_ids@[x])@
                    == g.chunk_ids@[kept_rep@[x] as int]@,
            forall|x: int|
                0 <= x < kept_members@.len() ==> forall|y: int|
                    0 <= y < (#[trigger] kept_members@[x])@.len() ==> (
                    #[trigger] kept_members@[x]@[y]) < nv,
            succs@.len() == ci,
            preds@.len() == ci,
            new_chunks@.len() == ci,
            forall|x: int|
                0 <= x < ci ==> (#[trigger] new_chunks@[x]).total_length
                    == new_chunks@[x].per_part_length * p_count && 1
                    <= new_chunks@[x].per_part_length <= 65535,
            1 <= p_count <= 65535,
        decreases nc - ci,
    {
        let rep = &g.chunks[kept_rep[ci]];
        let per_part = rep.per_part_length;
        proof {
            assert(1 <= g.chunks@[kept_rep@[ci as int] as int].per_part_length <= 65535);
            assert(per_part * p_count <= 65535 * 65535) by (nonlinear_arith)
                requires
                    0 <= per_part <= 65535,
                    0 <= p_count <= 65535,
            ;
        }
        let total = match per_part.checked_mul(p_count) {
            Some(v) => v,
            None => {
                // Never reached: both factors fit sixteen bits.
                proof {
                    assert(false);
                }
                return Err(SearchError::NoValidCompositionsPossible);
            }
        };
        // Music summed over the class members; counts saturate.
        let mut score: i64 = 0;
        let mut mcounts: Vec<usize> = rep.music.counts.clone();
        let mut t0: usize = 0;
        while t0 < mcounts.len()
            invariant
                t0 <= mcounts@.len(),
            decreases mcounts@.len() - t0,
        {
            mcounts.set(t0, 0);
            t0 += 1;
        }
        let mm = &kept_members[ci];
        let mut y: usize = 0;
        while y < mm.len()
            invariant
                y <= mm@.len(),
                nv == g.chunks@.len(),
                forall|y2: int| 0 <= y2 < mm@.len() ==> (#[trigger] mm@[y2]) < nv,
            decreases mm@.len() - y,
        {
            let member = &g.chunks[mm[y]];
            score = sat_add(score, member.music.score);
            let mut t: usize = 0;
            while t < mcounts.len()
                invariant
                    t <= mcounts@.len(),
                decreases mcounts@.len() - t,
            {
                if t < member.music.counts.len() {
                    let a = mcounts[t];
                    let b = member.music.counts[t];
                    mcounts.set(
                        t,
                        match a.checked_add(b) {
                            Some(v) => v,
                            None => usize::MAX,
                        },
                    );
                }
                t += 1;
            }
            y += 1;
        }
        // Method counts scale by the part count, saturating.
        let mut method_counts: Vec<usize> = rep.method_counts.clone();
        let mut m: usize = 0;
        while m < method_counts.len()
            invariant
                m <= method_counts@.len(),
            decreases method_counts@.len() - m,
        {
            let v = method_counts[m];
            method_counts.set(
                m,
                match v.checked_mul(p_count) {
                    Some(w) => w,
                    None => usize::MAX,
                },
            );
            m += 1;
        }
        let chunk = Chunk {
            predecessors: Vec::new(),
            successors: Vec::new(),
            false_chunks: Vec::new(),
            per_part_length: per_part,
            total_length: total,
            method_counts,
            music: MusicBreakdown { score, counts: mcounts },
            required: false,
            lb_distance_from_rounds: 0,
            lb_distance_to_rounds: 0,
            duffer: rep.duffer,
        };
        proof {
            assert(kept_rep@[ci as int] < nv);
            assert(1 <= g.chunks@[kept_rep@[ci as int] as int].per_part_length <= 65535);
        }
        new_chunks.push(chunk);
        succs.push(Vec::new());
        preds.push(Vec::new());
        ci += 1;
    }

    // Rewire the links: only links leaving a zero-rotation representative
    // survive; links into rotated starts become part-head ends.
    let mut li: usize = 0;
    while li < g.links.slots.len()
        invariant
            li <= g.links.slots@.len(),
            params.wf(),
            crate::search::search_graph_ok(g, params),
            nv == g.chunk_ids@.len(),
            nc == new_ids@.len() == succs@.len() == preds@.len() == kept_is_start@.len(),
            chunk_map@.len() == nv,
            forall|j: int|
                0 <= j < nv ==> ((#[trigger] chunk_map@[j]) matches Some(v) ==> v.0 < nc && v.1
                    < p_count),
            1 <= p_count <= 65535,
        decreases g.links.slots@.len() - li,
    {
        match &g.links.slots[li] {
            Some(l) => {
                match (&l.from, &l.to) {
                    (LinkSide::Chunk(a), LinkSide::Chunk(b)) => {
                        let fa = g.find_chunk(a);
                        let fb = g.find_chunk(b);
                        match (fa, fb) {
                            (Some(fa), Some(fb)) => {
                                let ma = chunk_map[fa];
                                let mb = chunk_map[fb];
                                match (ma, mb) {
                                    (Some((ca, ra)), Some((cb, rb))) => {
                                        if ra == 0 {
                                            if kept_is_start[cb] && rb != 0 {
                                                // A part boundary: this link
                                                // closes one part on a
                                                // rotated copy of the start.
                                                // It carries no rotation of
                                                // its own, so a composition
                                                // completes exactly when its
                                                // accumulated part offset
                                                // has returned to zero; the
                                                // later parts then follow by
                                                // translation.
                                                let lid = links.add(
                                                    Link::new(
                                                        LinkSide::Chunk(new_ids[ca].clone()),
                                                        LinkSide::StartOrEnd,
                                                        l.call,
                                                        0,
                                                    ),
                                                );
                                                ends.push((lid, new_ids[ca].clone()));
                                                let mut v = succs[ca].clone();
                                                v.push(lid);
                                                succs.set(ca, v);
                                            } else {
                                                let lid = links.add(
                                                    Link::new(
                                                        LinkSide::Chunk(new_ids[ca].clone()),
                                                        LinkSide::Chunk(new_ids[cb].clone()),
                                                        l.call,
                                                        rb,
                                                    ),
                                                );
                                                let mut v = succs[ca].clone();
                                                v.push(lid);
                                                succs.set(ca, v);
                                                let mut w = preds[cb].clone();
                                                w.push(lid);
                                                preds.set(cb, w);
                                            }
                                        }
                                    }
                                    _ => {}
                                }
                            }
                            _ => {}
                        }
                    }
                    _ => {}
                }
            }
            None => {}
        }
        li += 1;
    }
    // Start links for the kept start classes.
    let mut si2: usize = 0;
    while si2 < g.starts.len()
        invariant
            si2 <= g.starts@.len(),
            params.wf(),
            crate::search::search_graph_ok(g, params),
            nv == g.chunk_ids@.len(),
            nc == new_ids@.len(),
            chunk_map@.len() == nv,
            forall|j: int|
                0 <= j < nv ==> ((#[trigger] chunk_map@[j]) matches Some(v) ==> v.0 < nc && v.1
                    < p_count),
            1 <= p_count <= 65535,
        decreases g.starts@.len() - si2,
    {
        match g.find_chunk(&g.starts[si2].1) {
            Some(idx) => {
                match chunk_map[idx] {
                    Some((cls, 0)) => {
                        let lid = links.add(
                            Link::new(LinkSide::StartOrEnd, LinkSide::Chunk(new_ids[cls].clone()), None, 0),
                        );
                        starts.push((lid, new_ids[cls].clone()));
                    }
                    _ => {}
                }
            }
            None => {}
        }
        si2 += 1;
    }
    // The one-part graph's own ends are not carried over: in a multi-part
    // graph a composition may only close at a part boundary, so a path
    // whose first part came round early would repeat its rows part for
    // part.
    // Falseness lists: the exact one-part relation between representatives,
    // widened by cross-part falseness, keeping symmetry.
    let fcs = multipart_false_lists(params, &new_ids, &pows);

    // Attach lists, successors and predecessors to the chunks.
    let mut out_chunks: Vec<Chunk> = Vec::new();
    let mut c2: usize = 0;
    while c2 < nc
        invariant
            c2 <= nc,
            params.wf(),
            nc == new_ids@.len() == new_chunks@.len() == succs@.len() == preds@.len()
                == fcs@.len(),
            out_chunks@.len() == c2,
            forall|x: int|
                0 <= x < nc ==> (#[trigger] new_chunks@[x]).total_length
                    == new_chunks@[x].per_part_length * p_count && 1
                    <= new_chunks@[x].per_part_length <= 65535,
            forall|x: int|
                0 <= x < c2 ==> (#[trigger] out_chunks@[x]).total_length
                    == out_chunks@[x].per_part_length * p_count && 1
                    <= out_chunks@[x].per_part_length <= 65535,
            forall|x: int|
                0 <= x < c2 ==> crate::optimise::fc_same(
                    (#[trigger] out_chunks@[x]).false_chunks@,
                    fcs@[x]@,
                ),
            1 <= p_count <= 65535,
        decreases nc - c2,
    {
        let mut chunk = new_chunks[c2].clone();
        chunk.false_chunks = crate::builder::clone_id_vec(&fcs[c2]);
        chunk.successors = succs[c2].clone();
        chunk.predecessors = preds[c2].clone();
        proof {
            assert(chunk.total_length == new_chunks@[c2 as int].total_length);
        }
        out_chunks.push(chunk);
        c2 += 1;
    }

    let graph = Graph {
        chunk_ids: new_ids,
        chunks: out_chunks,
        links,
        starts,
        ends,
        num_parts: p_count,
    };
    proof {
        // Distinct representative ids.
        assert forall|c1: int, c3: int|
            0 <= c1 < graph.chunk_ids@.len() && 0 <= c3 < graph.chunk_ids@.len() && c1
                != c3 implies (#[trigger] graph.chunk_ids@[c1])@ != (
        #[trigger] graph.chunk_ids@[c3])@ by {
            assert(g.chunk_ids@[kept_rep@[c1] as int]@ != g.chunk_ids@[kept_rep@[c3] as int]@);
        }
        // Self-falseness, symmetry, completeness: from the list builder.
        assert forall|x: int| 0 <= x < graph.chunks@.len() implies fc_contains(
            (#[trigger] graph.chunks@[x]).false_chunks@,
            graph.chunk_ids@[x]@,
        ) by {
            assert(crate::builder::id_valid(params, graph.chunk_ids@[x]@));
            lemma_share_self(params, graph.chunk_ids@[x]@);
            crate::optimise::fc_contains_same(
                graph.chunks@[x].false_chunks@,
                fcs@[x]@,
                graph.chunk_ids@[x]@,
            );
        }
        assert forall|x: int, y: int|
            0 <= x < graph.chunks@.len() && 0 <= y < graph.chunks@.len()
                && graph.chunk_ids@.len() == graph.chunks@.len() implies (fc_contains(
            (#[trigger] graph.chunks@[x]).false_chunks@,
            graph.chunk_ids@[y]@,
        ) <==> fc_contains(
            (#[trigger] graph.chunks@[y]).false_chunks@,
            graph.chunk_ids@[x]@,
        )) by {
            crate::optimise::fc_contains_same(
                graph.chunks@[x].false_chunks@,
                fcs@[x]@,
                graph.chunk_ids@[y]@,
            );
            crate::optimise::fc_contains_same(
                graph.chunks@[y].false_chunks@,
                fcs@[y]@,
                graph.chunk_ids@[x]@,
            );
        }
        assert forall|x: int, y: int|
            0 <= x < graph.chunk_ids@.len() && 0 <= y < graph.chunk_ids@.len()
                && chunks_share_row(
                params,
                (#[trigger] graph.chunk_ids@[x])@,
                (#[trigger] graph.chunk_ids@[y])@,
            ) implies fc_contains(graph.chunks@[x].false_chunks@, graph.chunk_ids@[y]@) by {
            crate::optimise::fc_contains_same(
                graph.chunks@[x].false_chunks@,
                fcs@[x]@,
                graph.chunk_ids@[y]@,
            );
        }
    }
    Ok(graph)
}

/// The class falseness lists: the exact one-part lists of the
/// representatives, widened symmetrically by cross-part falseness.
fn multipart_false_lists(params: &Parameters, new_ids: &Vec<ChunkId>, pows: &Vec<RowBuf>) -> (r:
    Vec<Vec<ChunkId>>)
    requires
        params.wf(),
        forall|i: int, j: int|
            0 <= i < new_ids@.len() && 0 <= j < new_ids@.len() && i != j ==> (
            #[trigger] new_ids@[i])@ != (#[trigger] new_ids@[j])@,
        forall|i: int|
            0 <= i < new_ids@.len() ==> id_valid(params, (#[trigger] new_ids@[i])@),
        forall|k: int|
            0 <= k < pows@.len() ==> (#[trigger] pows@[k]).valid() && pows@[k]@.len()
                == params.methods@[0].stage.spec_num_bells(),
    ensures
        r@.len() == new_ids@.len(),
        // Symmetry.
        forall|i: int, j: int|
            0 <= i < new_ids@.len() && 0 <= j < new_ids@.len() ==> (fc_contains(
                (#[trigger] r@[i])@,
                new_ids@[j]@,
            ) <==> fc_contains((#[trigger] r@[j])@, new_ids@[i]@)),
        // Completeness over the one-part sharing relation.
        forall|i: int, j: int|
            0 <= i < new_ids@.len() && 0 <= j < new_ids@.len() && chunks_share_row(
                params,
                (#[trigger] new_ids@[i])@,
                (#[trigger] new_ids@[j])@,
            ) ==> fc_contains(r@[i]@, new_ids@[j]@),
{
    let nc = new_ids.len();
    let mut fcs = build_false_lists(params, new_ids);
    proof {
        assert forall|i: int, j: int|
            0 <= i < nc && 0 <= j < nc implies (fc_contains((#[trigger] fcs@[i])@, new_ids@[j]@)
            <==> fc_contains((#[trigger] fcs@[j])@, new_ids@[i]@)) by {
            if chunks_share_row(params, new_ids@[i]@, new_ids@[j]@) {
                lemma_share_symmetric(params, new_ids@[i]@, new_ids@[j]@);
            }
            if chunks_share_row(params, new_ids@[j]@, new_ids@[i]@) {
                lemma_share_symmetric(params, new_ids@[j]@, new_ids@[i]@);
            }
        }
    }
    let mut ci: usize = 0;
    while ci < nc
        invariant
            ci <= nc,
            params.wf(),
            nc == new_ids@.len(),
            fcs@.len() == nc,
            forall|i: int, j: int|
                0 <= i < new_ids@.len() && 0 <= j < new_ids@.len() && i != j ==> (
                #[trigger] new_ids@[i])@ != (#[trigger] new_ids@[j])@,
            forall|i: int|
                0 <= i < new_ids@.len() ==> id_valid(params, (#[trigger] new_ids@[i])@),
            forall|k: int|
                0 <= k < pows@.len() ==> (#[trigger] pows@[k]).valid() && pows@[k]@.len()
                    == params.methods@[0].stage.spec_num_bells(),
            forall|i: int, j: int|
                0 <= i < nc && 0 <= j < nc ==> (fc_contains((#[trigger] fcs@[i])@, new_ids@[j]@)
                    <==> fc_contains((#[trigger] fcs@[j])@, new_ids@[i]@)),
            forall|i: int, j: int|
                0 <= i < nc && 0 <= j < nc && chunks_share_row(
                    params,
                    (#[trigger] new_ids@[i])@,
                    (#[trigger] new_ids@[j])@,
                ) ==> fc_contains(fcs@[i]@, new_ids@[j]@),
        decreases nc - ci,
    {
        let mut cj: usize = ci;
        while cj < nc
            invariant
                ci <= cj <= nc,
                ci < nc,
                params.wf(),
                nc == new_ids@.len(),
                fcs@.len() == nc,
                forall|i: int, j: int|
                    0 <= i < new_ids@.len() && 0 <= j < new_ids@.len() && i != j ==> (
                    #[trigger] new_ids@[i])@ != (#[trigger] new_ids@[j])@,
                forall|i: int|
                    0 <= i < new_ids@.len() ==> id_valid(params, (#[trigger] new_ids@[i])@),
                forall|k: int|
                    0 <= k < pows@.len() ==> (#[trigger] pows@[k]).valid() && pows@[k]@.len()
                        == params.methods@[0].stage.spec_num_bells(),
                forall|i: int, j: int|
                    0 <= i < nc && 0 <= j < nc ==> (fc_contains(
                        (#[trigger] fcs@[i])@,
                        new_ids@[j]@,
                    ) <==> fc_contains((#[trigger] fcs@[j])@, new_ids@[i]@)),
                forall|i: int, j: int|
                    0 <= i < nc && 0 <= j < nc && chunks_share_row(
                        params,
                        (#[trigger] new_ids@[i])@,
                        (#[trigger] new_ids@[j])@,
                    ) ==> fc_contains(fcs@[i]@, new_ids@[j]@),
            decreases nc - cj,
        {
            // Does any rotated copy of class `cj` share a row with class
            // `ci`?
            let mut found = false;
            let mut k: usize = 1;
            while k < pows.len()
                invariant
                    1 <= k,
                    k <= pows@.len() || k == 1,
                    ci < nc,
                    cj < nc,
                    params.wf(),
                    nc == new_ids@.len(),
                    forall|i: int|
                        0 <= i < new_ids@.len() ==> id_valid(params, (#[trigger] new_ids@[i])@),
                    forall|k2: int|
                        0 <= k2 < pows@.len() ==> (#[trigger] pows@[k2]).valid() && pows@[k2]@.len()
                            == params.methods@[0].stage.spec_num_bells(),
                decreases pows@.len() - k,
            {
                let head = pows[k].mul(&new_ids[cj].lead_head);
                let member = ChunkId::new(head, new_ids[cj].row_idx);
                proof {
                    assert(id_valid(params, member@));
                }
                if chunks_share_direct(params, &new_ids[ci], &member) {
                    found = true;
                }
                k += 1;
            }
            if found {
                let ghost fcs0 = fcs@;
                let already = crate::search::fc_contains_exec(&fcs[ci], &new_ids[cj]);
                if !already {
                    let mut vi = crate::builder::clone_id_vec(&fcs[ci]);
                    vi.push(new_ids[cj].clone());
                    fcs.set(ci, vi);
                    if cj != ci {
                        let mut vj = crate::builder::clone_id_vec(&fcs[cj]);
                        vj.push(new_ids[ci].clone());
                        fcs.set(cj, vj);
                    }
                    proof {
                        assert(fcs@[ci as int]@.len() == fcs0[ci as int]@.len() + 1);
                        assert(forall|x: int|
                            0 <= x < fcs0[ci as int]@.len() ==> ((
                            #[trigger] fcs@[ci as int]@[x])@ == fcs0[ci as int]@[x]@));
                        assert((fcs@[ci as int]@[fcs0[ci as int]@.len() as int])@
                            == new_ids@[cj as int]@);
                        if ci != cj {
                            assert(fcs@[cj as int]@.len() == fcs0[cj as int]@.len() + 1);
                            assert(forall|x: int|
                                0 <= x < fcs0[cj as int]@.len() ==> ((
                                #[trigger] fcs@[cj as int]@[x])@ == fcs0[cj as int]@[x]@));
                            assert((fcs@[cj as int]@[fcs0[cj as int]@.len() as int])@
                                == new_ids@[ci as int]@);
                        }
                        assert forall|i: int, j: int|
                            0 <= i < nc && 0 <= j < nc implies (fc_contains(
                            (#[trigger] fcs@[i])@,
                            new_ids@[j]@,
                        ) <==> fc_contains((#[trigger] fcs@[j])@, new_ids@[i]@)) by {
                            fc_push_pair_preserves(
                                fcs0,
                                fcs@,
                                new_ids@,
                                ci as int,
                                cj as int,
                                i,
                                j,
                            );
                        }
                        assert forall|i: int, j: int|
                            0 <= i < nc && 0 <= j < nc && chunks_share_row(
                                params,
                                (#[trigger] new_ids@[i])@,
                                (#[trigger] new_ids@[j])@,
                            ) implies fc_contains(fcs@[i]@, new_ids@[j]@) by {
                            assert(fc_contains(fcs0[i]@, new_ids@[j]@));
                            fc_grows(fcs0, fcs@, new_ids@, ci as int, cj as int, i, j);
                        }
                    }
                }
            }
            cj += 1;
        }
        ci += 1;
    }
    fcs
}

/// After pushing the pair `(ci, cj)` into both lists, membership both ways
/// round is unchanged for other pairs and holds for the new one.
proof fn fc_push_pair_preserves(
    fcs0: Seq<Vec<ChunkId>>,
    fcs1: Seq<Vec<ChunkId>>,
    ids: Seq<ChunkId>,
    ci: int,
    cj: int,
    i: int,
    j: int,
)
    requires
        0 <= ci < fcs0.len(),
        0 <= cj < fcs0.len(),
        fcs1.len() == fcs0.len(),
        0 <= i < fcs0.len(),
        0 <= j < fcs0.len(),
        fcs0.len() == ids.len(),
        forall|i2: int, j2: int|
            0 <= i2 < ids.len() && 0 <= j2 < ids.len() && i2 != j2 ==> (#[trigger] ids[i2])@ != (
            #[trigger] ids[j2])@,
        forall|i2: int, j2: int|
            0 <= i2 < fcs0.len() && 0 <= j2 < fcs0.len() ==> (fc_contains(
                (#[trigger] fcs0[i2])@,
                ids[j2]@,
            ) <==> fc_contains((#[trigger] fcs0[j2])@, ids[i2]@)),
        // The two updated lists gained exactly each other's id.
        fcs1[ci]@.len() == fcs0[ci]@.len() + 1,
        forall|x: int| 0 <= x < fcs0[ci]@.len() ==> ((#[trigger] fcs1[ci]@[x])@ == fcs0[ci]@[x]@),
        (fcs1[ci]@[fcs0[ci]@.len() as int])@ == ids[cj]@,
        ci != cj ==> fcs1[cj]@.len() == fcs0[cj]@.len() + 1 && (forall|x: int|
            0 <= x < fcs0[cj]@.len() ==> ((#[trigger] fcs1[cj]@[x])@ == fcs0[cj]@[x]@)) && (
        fcs1[cj]@[fcs0[cj]@.len() as int])@ == ids[ci]@,
        forall|x: int| 0 <= x < fcs0.len() && x != ci && x != cj ==> fcs1[x] == fcs0[x],
    ensures
        fc_contains(fcs1[i]@, ids[j]@) <==> fc_contains(fcs1[j]@, ids[i]@),
{
    assert forall|a: int, b: int|
        0 <= a < fcs0.len() && 0 <= b < fcs0.len() implies (fc_contains(fcs1[a]@, ids[b]@) <==> (
    fc_contains(fcs0[a]@, ids[b]@) || (a == ci && b == cj) || (a == cj && b == ci))) by {
        if fc_contains(fcs1[a]@, ids[b]@) {
            let x = choose|x: int| 0 <= x < fcs1[a]@.len() && (#[trigger] fcs1[a]@[x])@ == ids[b]@;
            if a == ci {
                if x < fcs0[ci]@.len() {
                    assert(fc_contains(fcs0[a]@, ids[b]@));
                } else {
                    assert((fcs1[ci]@[x])@ == ids[cj]@);
                    assert(ids[b]@ == ids[cj]@);
                    if b != cj {
                        assert(ids[b]@ != ids[cj]@);
                    }
                }
            } else if a == cj && ci != cj {
                if x < fcs0[cj]@.len() {
                    assert(fc_contains(fcs0[a]@, ids[b]@));
                } else {
                    assert(ids[b]@ == ids[ci]@);
                    if b != ci {
                        assert(ids[b]@ != ids[ci]@);
                    }
                }
            } else {
                assert(fcs1[a] == fcs0[a]);
                assert(fc_contains(fcs0[a]@, ids[b]@));
            }
        }
        if fc_contains(fcs0[a]@, ids[b]@) {
            let x = choose|x: int| 0 <= x < fcs0[a]@.len() && (#[trigger] fcs0[a]@[x])@ == ids[b]@;
            if a == ci {
                assert((fcs1[ci]@[x])@ == ids[b]@);
            } else if a == cj {
                assert((fcs1[cj]@[x])@ == ids[b]@);
            } else {
                assert(fcs1[a] == fcs0[a]);
            }
            assert(fc_contains(fcs1[a]@, ids[b]@));
        }
        if a == ci && b == cj {
            assert((fcs1[ci]@[fcs0[ci]@.len() as int])@ == ids[cj]@);
            assert(fc_contains(fcs1[a]@, ids[b]@));
        }
        if a == cj && b == ci {
            if ci != cj {
                assert((fcs1[cj]@[fcs0[cj]@.len() as int])@ == ids[ci]@);
            } else {
                assert((fcs1[ci]@[fcs0[ci]@.len() as int])@ == ids[cj]@);
            }
            assert(fc_contains(fcs1[a]@, ids[b]@));
        }
    }
}

/// Lists only ever grow: membership carries forward after the pair push.
proof fn fc_grows(
    fcs0: Seq<Vec<ChunkId>>,
    fcs1: Seq<Vec<ChunkId>>,
    ids: Seq<ChunkId>,
    ci: int,
    cj: int,
    i: int,
    j: int,
)
    requires
        0 <= ci < fcs0.len(),
        0 <= cj < fcs0.len(),
        fcs1.len() == fcs0.len(),
        0 <= i < fcs0.len(),
        0 <= j < ids.len(),
        fcs1[ci]@.len() == fcs0[ci]@.len() + 1,
        forall|x: int| 0 <= x < fcs0[ci]@.len() ==> ((#[trigger] fcs1[ci]@[x])@ == fcs0[ci]@[x]@),
        ci != cj ==> fcs1[cj]@.len() == fcs0[cj]@.len() + 1 && (forall|x: int|
            0 <= x < fcs0[cj]@.len() ==> ((#[trigger] fcs1[cj]@[x])@ == fcs0[cj]@[x]@)),
        forall|x: int| 0 <= x < fcs0.len() && x != ci && x != cj ==> fcs1[x] == fcs0[x],
        fc_contains(fcs0[i]@, ids[j]@),
    ensures
        fc_contains(fcs1[i]@, ids[j]@),
{
    let x = choose|x: int| 0 <= x < fcs0[i]@.len() && (#[trigger] fcs0[i]@[x])@ == ids[j]@;
    if i == ci {
        assert((fcs1[ci]@[x])@ == ids[j]@);
    } else if i == cj {
        assert((fcs1[cj]@[x])@ == ids[j]@);
    } else {
        assert(fcs1[i] == fcs0[i]);
    }
}

} // verus!
