//! The graph builder: enumerates every chunk reachable from the starts,
//! links them by plain leads and calls, and computes falseness between
//! chunks.

use vstd::prelude::*;

use crate::graph::{
    links_distinct, Chunk, ChunkId, ChunkIdV, Graph, Link, LinkId, LinkSet, LinkSide, LinkV,
    RowIdx,
};
use crate::params::{Method, Parameters};
use crate::utils::FrontierItem;
use crate::row::{
    lemma_row_inv, lemma_row_mul_assoc, lemma_row_mul_valid, lemma_rounds_identity, rounds_seq,
    row_inv, row_mul, valid_row, RowBuf,
};

verus! {

/// The first labelled sub-lead index at or after `j`, with the next lead
/// head (index `lead_len`) standing for label index 0 of the next lead.
pub open spec fn next_label_from(m: Method, j: int) -> int
    decreases m.lead@.len() - j,
    when 0 <= j <= m.lead@.len()
{
    if j >= m.lead@.len() {
        m.lead@.len() as int
    } else if m.labels@[j] is Some {
        j
    } else {
        next_label_from(m, j + 1)
    }
}

/// Where the segment of a chunk starting at `s` ends: the next labelled
/// index strictly after `s`, up to the lead end.
pub open spec fn seg_end(m: Method, s: int) -> int {
    next_label_from(m, s + 1)
}

/// The number of rows in the segment starting at `s`.
pub open spec fn seg_len(m: Method, s: int) -> int {
    seg_end(m, s) - s
}

/// A chunk id is valid for the parameters when it names a real method, a
/// real sub-lead index, and a lead head that is a row of the right stage.
pub open spec fn id_valid(params: &Parameters, id: ChunkIdV) -> bool {
    &&& 0 <= id.method < params.methods@.len()
    &&& 0 <= id.sub_lead_idx < params.methods@[id.method].lead@.len()
    &&& valid_row(id.lead_head)
    &&& id.lead_head.len() == params.methods@[id.method].stage.spec_num_bells()
}

/// The `i`th row of a chunk: the lead row at its offset, transposed by the
/// chunk's lead head.
pub open spec fn chunk_row(params: &Parameters, id: ChunkIdV, i: int) -> Seq<u8> {
    row_mul(id.lead_head, params.methods@[id.method].lead@[id.sub_lead_idx + i]@)
}

/// Whether two chunks share at least one row.
pub open spec fn chunks_share_row(params: &Parameters, a: ChunkIdV, b: ChunkIdV) -> bool {
    exists|i: int, j: int|
        0 <= i < seg_len(params.methods@[a.method], a.sub_lead_idx) && 0 <= j < seg_len(
            params.methods@[b.method],
            b.sub_lead_idx,
        ) && #[trigger] chunk_row(params, a, i) == #[trigger] chunk_row(params, b, j)
}

/// The transposition a plain continuation applies to the lead head: the
/// lead-head transposition at a lead end, nothing mid-lead.
pub open spec fn plain_step(m: Method, s: int) -> Seq<u8> {
    if seg_end(m, s) == m.lead@.len() {
        m.lead_head_transposition@
    } else {
        rounds_seq(m.stage.spec_num_bells())
    }
}

/// The transposition a call applies to the lead head of a given method:
/// the lead's last row followed by the call's replacement change.
pub open spec fn call_step(params: &Parameters, m: int, c: int) -> Seq<u8> {
    row_mul(
        params.methods@[m].lead@[params.methods@[m].lead@.len() - 1]@,
        params.calls@[c].place_notation@,
    )
}

/// The row standing just beyond a chunk's boundary, relative to its lead
/// head: what a composition ending there would leave off at.
pub open spec fn leftover_trans(params: &Parameters, id: ChunkIdV, call: Option<int>) -> Seq<u8> {
    let m = params.methods@[id.method];
    match call {
        Some(c) => call_step(params, id.method, c),
        None => {
            if seg_end(m, id.sub_lead_idx) == m.lead@.len() {
                m.lead_head_transposition@
            } else {
                m.lead@[seg_end(m, id.sub_lead_idx)]@
            }
        }
    }
}

/// What every link of a built graph satisfies: its far side is reached from
/// its near side by composing the step's transposition (plain or call), a
/// start enters a chunk whose first row is the start row, and an end leaves
/// a chunk whose leftover row is the end row.
pub open spec fn link_ok(params: &Parameters, l: LinkV) -> bool {
    match (l.from, l.to) {
        (crate::graph::LinkSideV::Chunk(a), crate::graph::LinkSideV::Chunk(b)) => {
            &&& id_valid(params, a)
            &&& id_valid(params, b)
            &&& match l.call {
                None => b.lead_head == row_mul(
                    a.lead_head,
                    plain_step(params.methods@[a.method], a.sub_lead_idx),
                ),
                Some(c) => 0 <= c < params.calls@.len() && b.lead_head == row_mul(
                    a.lead_head,
                    call_step(params, a.method, c),
                ),
            }
        }
        (crate::graph::LinkSideV::StartOrEnd, crate::graph::LinkSideV::Chunk(b)) => {
            &&& id_valid(params, b)
            &&& l.call is None
            &&& row_mul(b.lead_head, params.methods@[b.method].lead@[b.sub_lead_idx]@)
                == params.start_row@
        }
        (crate::graph::LinkSideV::Chunk(a), crate::graph::LinkSideV::StartOrEnd) => {
            &&& id_valid(params, a)
            &&& (l.call matches Some(c) ==> 0 <= c < params.calls@.len())
            &&& row_mul(a.lead_head, leftover_trans(params, a, l.call)) == params.end_row@
        }
        (crate::graph::LinkSideV::StartOrEnd, crate::graph::LinkSideV::StartOrEnd) => false,
    }
}

/// Whether every present link of the graph is consistent with the
/// parameters: chunks joined by a link really follow one another by row
/// composition.
pub open spec fn graph_links_ok(g: &Graph, params: &Parameters) -> bool {
    forall|i: int|
        0 <= i < g.links.slots@.len() ==> ((#[trigger] g.links.slots@[i]) matches Some(l)
            ==> link_ok(params, l@))
}

/// The boundary tables of a built graph point at real start and end links.
pub open spec fn graph_boundaries_ok(g: &Graph) -> bool {
    &&& forall|i: int|
        0 <= i < g.starts@.len() ==> ((#[trigger] g.starts@[i]).0.0 < g.links.slots@.len()
            && (g.links.slots@[g.starts@[i].0.0 as int] matches Some(l) && l.from@
            is StartOrEnd && l.to@ == crate::graph::LinkSideV::Chunk(g.starts@[i].1@)))
    &&& forall|i: int|
        0 <= i < g.ends@.len() ==> ((#[trigger] g.ends@[i]).0.0 < g.links.slots@.len()
            && (g.links.slots@[g.ends@[i].0.0 as int] matches Some(l) && l.to@ is StartOrEnd
            && l.from@ == crate::graph::LinkSideV::Chunk(g.ends@[i].1@)))
}

/// The group-theoretic falseness criterion: two transposed segment rows
/// coincide exactly when the lead heads differ by the corresponding
/// false-head transposition.
pub proof fn lemma_falseness_criterion(ha: Seq<u8>, hb: Seq<u8>, ri: Seq<u8>, rj: Seq<u8>)
    requires
        valid_row(ha),
        valid_row(hb),
        valid_row(ri),
        valid_row(rj),
        ha.len() == hb.len(),
        hb.len() == ri.len(),
        ri.len() == rj.len(),
    ensures
        (row_mul(ha, ri) == row_mul(hb, rj)) <==> (row_mul(row_inv(ha), hb) == row_mul(
            ri,
            row_inv(rj),
        )),
{
    let n = ha.len() as int;
    lemma_row_inv(ha);
    lemma_row_inv(rj);
    lemma_row_mul_valid(ha, ri);
    lemma_row_mul_valid(hb, rj);
    lemma_row_mul_valid(row_inv(ha), hb);
    lemma_row_mul_valid(ri, row_inv(rj));
    if row_mul(ha, ri) == row_mul(hb, rj) {
        // inv(ha).(hb.rj) == inv(ha).(ha.ri) == ri, hence
        // inv(ha).hb == ri.inv(rj).
        lemma_row_mul_assoc(row_inv(ha), hb, rj);
        lemma_row_mul_assoc(row_inv(ha), ha, ri);
        lemma_rounds_identity(ri);
        assert(row_mul(row_mul(row_inv(ha), hb), rj) == ri);
        lemma_row_mul_assoc(row_mul(row_inv(ha), hb), rj, row_inv(rj));
        lemma_rounds_identity(row_mul(row_inv(ha), hb));
        assert(row_mul(row_mul(row_inv(ha), hb), row_mul(rj, row_inv(rj))) == row_mul(
            row_inv(ha),
            hb,
        ));
        assert(row_mul(row_inv(ha), hb) == row_mul(ri, row_inv(rj)));
    }
    if row_mul(row_inv(ha), hb) == row_mul(ri, row_inv(rj)) {
        // ha.(ri.inv(rj)) == ha.(inv(ha).hb) == hb, hence ha.ri == hb.rj.
        lemma_row_mul_assoc(ha, row_inv(ha), hb);
        lemma_rounds_identity(hb);
        assert(row_mul(ha, row_mul(row_inv(ha), hb)) == hb);
        assert(row_mul(ha, row_mul(ri, row_inv(rj))) == hb);
        lemma_row_mul_assoc(ha, ri, row_inv(rj));
        assert(row_mul(row_mul(ha, ri), row_inv(rj)) == hb);
        lemma_row_mul_assoc(row_mul(ha, ri), row_inv(rj), rj);
        lemma_rounds_identity(row_mul(ha, ri));
        assert(row_mul(row_mul(ha, ri), row_mul(row_inv(rj), rj)) == row_mul(ha, ri));
        assert(row_mul(hb, rj) == row_mul(ha, ri));
    }
}


/// Whether a directed edge between two discovered chunks is consistent:
/// the target's lead head is the source's composed with the step's
/// transposition.
pub open spec fn edge_ok(
    params: &Parameters,
    ids: Seq<ChunkId>,
    f: int,
    call: Option<int>,
    t: int,
) -> bool {
    &&& 0 <= f < ids.len()
    &&& 0 <= t < ids.len()
    &&& id_valid(params, ids[f]@)
    &&& id_valid(params, ids[t]@)
    &&& match call {
        None => ids[t]@.lead_head == row_mul(
            ids[f]@.lead_head,
            plain_step(params.methods@[ids[f]@.method], ids[f]@.sub_lead_idx),
        ),
        Some(c) => 0 <= c < params.calls@.len() && ids[t]@.lead_head == row_mul(
            ids[f]@.lead_head,
            call_step(params, ids[f]@.method, c),
        ),
    }
}

/// Whether a chunk can start a composition: its first row is the start row.
pub open spec fn start_ok(params: &Parameters, id: ChunkIdV) -> bool {
    &&& id_valid(params, id)
    &&& row_mul(id.lead_head, params.methods@[id.method].lead@[id.sub_lead_idx]@)
        == params.start_row@
}

/// Whether a chunk can end a composition with the given call (or plainly):
/// its leftover row is the end row.
pub open spec fn end_edge_ok(params: &Parameters, id: ChunkIdV, call: Option<int>) -> bool {
    &&& id_valid(params, id)
    &&& (call matches Some(c) ==> 0 <= c < params.calls@.len())
    &&& row_mul(id.lead_head, leftover_trans(params, id, call)) == params.end_row@
}

/// The false-head transposition between one row of class `(ma, sa)` and one
/// of class `(mb, sb)`.
pub open spec fn pair_trans(
    params: &Parameters,
    ma: int,
    sa: int,
    mb: int,
    sb: int,
    i: int,
    j: int,
) -> Seq<u8> {
    row_mul(
        params.methods@[ma].lead@[sa + i]@,
        row_inv(params.methods@[mb].lead@[sb + j]@),
    )
}

/// Whether a row value is one of the false-head transpositions of a class
/// pair.
pub open spec fn is_pair_trans(
    params: &Parameters,
    ma: int,
    sa: int,
    mb: int,
    sb: int,
    v: Seq<u8>,
) -> bool {
    exists|i: int, j: int|
        0 <= i < seg_len(params.methods@[ma], sa) && 0 <= j < seg_len(params.methods@[mb], sb)
            && v == #[trigger] pair_trans(params, ma, sa, mb, sb, i, j)
}

/// The next labelled index lies between where the search starts and the
/// lead end.
pub proof fn lemma_next_label_bounds(m: Method, j: int)
    requires
        0 <= j <= m.lead@.len(),
    ensures
        j <= next_label_from(m, j) <= m.lead@.len(),
    decreases m.lead@.len() - j,
{
    if j < m.lead@.len() && !(m.labels@[j] is Some) {
        lemma_next_label_bounds(m, j + 1);
    }
}

/// Whether a list of rows holds one with the given value.
pub open spec fn entry_contains(entry: Seq<RowBuf>, v: Seq<u8>) -> bool {
    exists|e: int| 0 <= e < entry.len() && (#[trigger] entry[e])@ == v
}

/// What a falseness-table entry for the ordered class pair says: exactly
/// the transpositions `r_i . r_j^-1` over the two segments.
pub open spec fn entry_exact(
    params: &Parameters,
    entry: Seq<RowBuf>,
    ma: int,
    sa: int,
    mb: int,
    sb: int,
) -> bool {
    &&& forall|e: int|
        0 <= e < entry.len() ==> is_pair_trans(params, ma, sa, mb, sb, (#[trigger] entry[e])@)
    &&& forall|i: int, j: int|
        0 <= i < seg_len(params.methods@[ma], sa) && 0 <= j < seg_len(params.methods@[mb], sb)
            ==> entry_contains(entry, #[trigger] pair_trans(params, ma, sa, mb, sb, i, j))
}

/// Finds a chunk id in the discovered list.
fn find_id(ids: &Vec<ChunkId>, id: &ChunkId) -> (r: Option<usize>)
    ensures
        match r {
            Some(k) => k < ids@.len() && ids@[k as int]@ == id@,
            None => !crate::graph::ids_contain(ids@, id@),
        },
{
    let n = ids.len();
    let mut i: usize = 0;
    while i < n
        invariant
            i <= n,
            n == ids@.len(),
            forall|j: int| 0 <= j < i ==> (#[trigger] ids@[j])@ != id@,
        decreases n - i,
    {
        if ids[i].eq_id(id) {
            return Some(i);
        }
        i += 1;
    }
    None
}

/// Whether a list of rows holds the given row.
fn contains_row(entry: &Vec<RowBuf>, t: &RowBuf) -> (r: bool)
    ensures
        r == entry_contains(entry@, t@),
{
    let n = entry.len();
    let mut i: usize = 0;
    while i < n
        invariant
            i <= n,
            n == entry@.len(),
            forall|j: int| 0 <= j < i ==> (#[trigger] entry@[j])@ != t@,
        decreases n - i,
    {
        if entry[i] == *t {
            proof {
                assert(0 <= i < entry@.len() && (entry@[i as int])@ == t@);
            }
            return true;
        }
        i += 1;
    }
    false
}

/// Builds the falseness-table entry for one ordered pair of chunk classes:
/// the deduplicated set of transpositions between their segment rows.
fn class_entry(params: &Parameters, ma: usize, sa: usize, mb: usize, sb: usize) -> (r: Vec<RowBuf>)
    requires
        params.wf(),
        ma < params.methods@.len(),
        sa < params.methods@[ma as int].lead@.len(),
        mb < params.methods@.len(),
        sb < params.methods@[mb as int].lead@.len(),
    ensures
        entry_exact(params, r@, ma as int, sa as int, mb as int, sb as int),
{
    let meth_a = &params.methods[ma];
    let meth_b = &params.methods[mb];
    let ea = segment_end(meth_a, sa);
    let eb = segment_end(meth_b, sb);
    let ka = ea - sa;
    let kb = eb - sb;
    let mut entry: Vec<RowBuf> = Vec::new();
    let mut i: usize = 0;
    while i < ka
        invariant
            i <= ka,
            params.wf(),
            ma < params.methods@.len(),
            sa < params.methods@[ma as int].lead@.len(),
            mb < params.methods@.len(),
            sb < params.methods@[mb as int].lead@.len(),
            *meth_a == params.methods@[ma as int],
            *meth_b == params.methods@[mb as int],
            ka == seg_len(*meth_a, sa as int),
            kb == seg_len(*meth_b, sb as int),
            sa + ka <= meth_a.lead@.len(),
            sb + kb <= meth_b.lead@.len(),
            forall|e: int|
                0 <= e < entry@.len() ==> is_pair_trans(
                    params,
                    ma as int,
                    sa as int,
                    mb as int,
                    sb as int,
                    (#[trigger] entry@[e])@,
                ),
            forall|i2: int, j2: int|
                0 <= i2 < i && 0 <= j2 < kb ==> entry_contains(
                    entry@,
                    #[trigger] pair_trans(params, ma as int, sa as int, mb as int, sb as int, i2, j2),
                ),
        decreases ka - i,
    {
        let mut j: usize = 0;
        while j < kb
            invariant
                j <= kb,
                i < ka,
                params.wf(),
                ma < params.methods@.len(),
                sa < params.methods@[ma as int].lead@.len(),
                mb < params.methods@.len(),
                sb < params.methods@[mb as int].lead@.len(),
                *meth_a == params.methods@[ma as int],
                *meth_b == params.methods@[mb as int],
                ka == seg_len(*meth_a, sa as int),
                kb == seg_len(*meth_b, sb as int),
                sa + ka <= meth_a.lead@.len(),
                sb + kb <= meth_b.lead@.len(),
                forall|e: int|
                    0 <= e < entry@.len() ==> is_pair_trans(
                        params,
                        ma as int,
                        sa as int,
                        mb as int,
                        sb as int,
                        (#[trigger] entry@[e])@,
                    ),
                forall|i2: int, j2: int|
                    0 <= i2 < i && 0 <= j2 < kb ==> entry_contains(
                        entry@,
                        #[trigger] pair_trans(
                            params,
                            ma as int,
                            sa as int,
                            mb as int,
                            sb as int,
                            i2,
                            j2,
                        ),
                    ),
                forall|j2: int|
                    0 <= j2 < j ==> entry_contains(
                        entry@,
                        #[trigger] pair_trans(
                            params,
                            ma as int,
                            sa as int,
                            mb as int,
                            sb as int,
                            i as int,
                            j2,
                        ),
                    ),
            decreases kb - j,
        {
            let ra = &meth_a.lead[sa + i];
            let rb_inv = params.methods[mb].lead[sb + j].inv();
            let t = ra.mul(&rb_inv);
            proof {
                assert(t@ == pair_trans(
                    params,
                    ma as int,
                    sa as int,
                    mb as int,
                    sb as int,
                    i as int,
                    j as int,
                ));
            }
            let ghost old_entry = entry@;
            if !contains_row(&entry, &t) {
                entry.push(t);
                proof {
                    assert forall|e: int| 0 <= e < entry@.len() implies is_pair_trans(
                        params,
                        ma as int,
                        sa as int,
                        mb as int,
                        sb as int,
                        (#[trigger] entry@[e])@,
                    ) by {
                        if e < entry@.len() - 1 {
                            assert(entry@[e] == old_entry[e]);
                            assert(is_pair_trans(
                                params,
                                ma as int,
                                sa as int,
                                mb as int,
                                sb as int,
                                (old_entry[e])@,
                            ));
                        } else {
                            assert((entry@[e])@ == pair_trans(
                                params,
                                ma as int,
                                sa as int,
                                mb as int,
                                sb as int,
                                i as int,
                                j as int,
                            ));
                        }
                    }
                    assert forall|i2: int, j2: int|
                        (0 <= i2 < i && 0 <= j2 < kb) || (i2 == i && 0 <= j2 < j
                            + 1) implies entry_contains(
                        entry@,
                        #[trigger] pair_trans(
                            params,
                            ma as int,
                            sa as int,
                            mb as int,
                            sb as int,
                            i2,
                            j2,
                        ),
                    ) by {
                        if i2 == i && j2 == j {
                            assert((entry@[entry@.len() - 1])@ == pair_trans(
                                params,
                                ma as int,
                                sa as int,
                                mb as int,
                                sb as int,
                                i2,
                                j2,
                            ));
                        } else {
                            let v = pair_trans(
                                params,
                                ma as int,
                                sa as int,
                                mb as int,
                                sb as int,
                                i2,
                                j2,
                            );
                            assert(entry_contains(old_entry, v));
                            let e = choose|e: int|
                                0 <= e < old_entry.len() && (#[trigger] old_entry[e])@ == v;
                            assert((entry@[e])@ == v);
                        }
                    }
                }
            } else {
                proof {
                    assert forall|i2: int, j2: int|
                        (0 <= i2 < i && 0 <= j2 < kb) || (i2 == i && 0 <= j2 < j
                            + 1) implies entry_contains(
                        entry@,
                        #[trigger] pair_trans(
                            params,
                            ma as int,
                            sa as int,
                            mb as int,
                            sb as int,
                            i2,
                            j2,
                        ),
                    ) by {
                        if i2 == i && j2 == j {
                            assert(entry_contains(entry@, t@));
                        }
                    }
                }
            }
            j += 1;
        }
        i += 1;
    }
    entry
}

/// Whether two chunks are false against one another, answered through a
/// falseness-table entry for their classes.  Exactly when they share a row.
fn chunks_false(params: &Parameters, a: &ChunkId, b: &ChunkId, entry: &Vec<RowBuf>) -> (r: bool)
    requires
        params.wf(),
        id_valid(params, a@),
        id_valid(params, b@),
        entry_exact(params, entry@, a@.method, a@.sub_lead_idx, b@.method, b@.sub_lead_idx),
    ensures
        r == chunks_share_row(params, a@, b@),
{
    let t_inv_ha = a.lead_head.inv();
    let t = t_inv_ha.mul(&b.lead_head);
    let found = contains_row(entry, &t);
    proof {
        let ma = a@.method;
        let sa = a@.sub_lead_idx;
        let mb = b@.method;
        let sb = b@.sub_lead_idx;
        let metha = params.methods@[ma];
        let methb = params.methods@[mb];
        let ka = seg_len(metha, sa);
        let kb = seg_len(methb, sb);
        lemma_next_label_bounds(metha, sa + 1);
        lemma_next_label_bounds(methb, sb + 1);
        assert(metha.wf() && methb.wf());
        let ha = a@.lead_head;
        let hb = b@.lead_head;
        assert(t@ == row_mul(row_inv(ha), hb));
        if found {
            let e = choose|e: int| 0 <= e < entry@.len() && (#[trigger] entry@[e])@ == t@;
            assert(is_pair_trans(params, ma, sa, mb, sb, (entry@[e])@));
            let (i, j) = choose|i: int, j: int|
                0 <= i < ka && 0 <= j < kb && t@ == #[trigger] pair_trans(
                    params,
                    ma,
                    sa,
                    mb,
                    sb,
                    i,
                    j,
                );
            assert(valid_row(metha.lead@[sa + i]@));
            assert(valid_row(methb.lead@[sb + j]@));
            lemma_falseness_criterion(ha, hb, metha.lead@[sa + i]@, methb.lead@[sb + j]@);
            assert(chunk_row(params, a@, i) == chunk_row(params, b@, j));
            assert(chunks_share_row(params, a@, b@));
        } else {
            if chunks_share_row(params, a@, b@) {
                let (i, j) = choose|i: int, j: int|
                    0 <= i < ka && 0 <= j < kb && #[trigger] chunk_row(params, a@, i)
                        == #[trigger] chunk_row(params, b@, j);
                assert(valid_row(metha.lead@[sa + i]@));
                assert(valid_row(methb.lead@[sb + j]@));
                lemma_falseness_criterion(ha, hb, metha.lead@[sa + i]@, methb.lead@[sb + j]@);
                assert(t@ == pair_trans(params, ma, sa, mb, sb, i, j));
                assert(entry_contains(entry@, pair_trans(params, ma, sa, mb, sb, i, j)));
                assert(false);
            }
        }
    }
    found
}


/// A build failure: the chunk count hit the configured ceiling.
#[derive(Clone, Copy, PartialEq, Eq, Structural, Debug)]
pub enum BuildError {
    GraphTooLarge,
}

/// The spec value of an exec call index.
pub open spec fn call_view(c: Option<usize>) -> Option<int> {
    match c {
        Some(v) => Some(v as int),
        None => None,
    }
}

/// What holds of the discovery state throughout graph building: ids are
/// distinct and valid, queue entries point at ids, and every recorded edge
/// relates its two chunks by the step's transposition.
pub open spec fn discovery_inv(
    params: &Parameters,
    ids: Seq<ChunkId>,
    queue: Seq<FrontierItem<usize, usize>>,
    edges: Seq<(usize, Option<usize>, usize)>,
) -> bool {
    &&& forall|i: int, j: int|
        0 <= i < ids.len() && 0 <= j < ids.len() && i != j ==> (#[trigger] ids[i])@ != (
        #[trigger] ids[j])@
    &&& forall|i: int| 0 <= i < ids.len() ==> id_valid(params, (#[trigger] ids[i])@)
    &&& forall|q: int| 0 <= q < queue.len() ==> (#[trigger] queue[q]).item < ids.len()
    &&& forall|e: int|
        0 <= e < edges.len() ==> edge_ok(
            params,
            ids,
            (#[trigger] edges[e]).0 as int,
            call_view(edges[e].1),
            edges[e].2 as int,
        )
}

/// Whether at least `limit` pairwise distinct valid chunk ids exist for
/// these parameters: the condition a size refusal witnesses.
pub open spec fn many_valid_chunks(params: &Parameters, limit: int) -> bool {
    exists|s: Seq<ChunkIdV>|
        (#[trigger] s.len()) == limit && (forall|i: int, j: int|
            0 <= i < s.len() && 0 <= j < s.len() && i != j ==> s[i] != s[j]) && (forall|i: int|
            0 <= i < s.len() ==> id_valid(params, #[trigger] s[i]))
}

/// A list of `limit` distinct valid ids witnesses `many_valid_chunks`.
proof fn lemma_many_valid_chunks(params: &Parameters, ids: Seq<ChunkId>, limit: int)
    requires
        ids.len() == limit,
        forall|i: int, j: int|
            0 <= i < ids.len() && 0 <= j < ids.len() && i != j ==> (#[trigger] ids[i])@ != (
            #[trigger] ids[j])@,
        forall|i: int| 0 <= i < ids.len() ==> id_valid(params, (#[trigger] ids[i])@),
    ensures
        many_valid_chunks(params, limit),
{
    let w = ids.map_values(|id: ChunkId| id@);
    assert(w.len() == limit);
    assert forall|i: int, j: int|
        0 <= i < w.len() && 0 <= j < w.len() && i != j implies w[i] != w[j] by {
        assert(w[i] == ids[i]@);
        assert(w[j] == ids[j]@);
    }
    assert forall|i: int| 0 <= i < w.len() implies id_valid(params, #[trigger] w[i]) by {
        assert(w[i] == ids[i]@);
    }
}

/// Records an edge to a target chunk, discovering the target if it is new.
fn add_edge_target(
    params: &Parameters,
    ids: &mut Vec<ChunkId>,
    queue: &mut Vec<FrontierItem<usize, usize>>,
    edges: &mut Vec<(usize, Option<usize>, usize)>,
    from_idx: usize,
    call: Option<usize>,
    target: ChunkId,
    limit: usize,
    dist: usize,
) -> (r: Result<(), BuildError>)
    requires
        params.wf(),
        discovery_inv(params, old(ids)@, old(queue)@, old(edges)@),
        old(ids)@.len() <= limit,
        from_idx < old(ids)@.len(),
        id_valid(params, target@),
        match call {
            None => target@.lead_head == row_mul(
                old(ids)@[from_idx as int]@.lead_head,
                plain_step(
                    params.methods@[old(ids)@[from_idx as int]@.method],
                    old(ids)@[from_idx as int]@.sub_lead_idx,
                ),
            ),
            Some(c) => c < params.calls@.len() && target@.lead_head == row_mul(
                old(ids)@[from_idx as int]@.lead_head,
                call_step(params, old(ids)@[from_idx as int]@.method, c as int),
            ),
        },
    ensures
        match r {
            Ok(()) => {
                &&& discovery_inv(params, final(ids)@, final(queue)@, final(edges)@)
                &&& final(ids)@.len() <= limit
                &&& final(ids)@.len() >= old(ids)@.len()
                &&& final(queue)@.len() + limit - final(ids)@.len() <= old(queue)@.len() + limit
                    - old(ids)@.len()
                &&& forall|i: int| 0 <= i < old(ids)@.len() ==> final(ids)@[i] == old(ids)@[i]
                &&& crate::graph::ids_contain(final(ids)@, target@)
            },
            Err(_) => many_valid_chunks(params, limit as int),
        },
{
    match find_id(ids, &target) {
        Some(t) => {
            edges.push((from_idx, call, t));
            proof {
                assert forall|e: int| 0 <= e < edges@.len() implies edge_ok(
                    params,
                    ids@,
                    (#[trigger] edges@[e]).0 as int,
                    call_view(edges@[e].1),
                    edges@[e].2 as int,
                ) by {
                    if e < edges@.len() - 1 {
                        assert(edges@[e] == old(edges)@[e]);
                    }
                }
                assert(crate::graph::ids_contain(ids@, target@));
            }
            Ok(())
        }
        None => {
            if ids.len() >= limit {
                proof {
                    lemma_many_valid_chunks(params, ids@, limit as int);
                }
                return Err(BuildError::GraphTooLarge);
            }
            let t = ids.len();
            ids.push(target);
            queue.push(FrontierItem::new(t, dist));
            edges.push((from_idx, call, t));
            proof {
                assert(ids@[t as int]@ == ids@[ids@.len() - 1]@);
                assert forall|i: int, j: int|
                    0 <= i < ids@.len() && 0 <= j < ids@.len() && i != j implies (
                #[trigger] ids@[i])@ != (#[trigger] ids@[j])@ by {
                    if i < ids@.len() - 1 && j < ids@.len() - 1 {
                        assert(ids@[i] == old(ids)@[i] && ids@[j] == old(ids)@[j]);
                    } else if i == ids@.len() - 1 {
                        assert(ids@[j] == old(ids)@[j]);
                        assert(!crate::graph::ids_contain(old(ids)@, ids@[i]@));
                    } else {
                        assert(ids@[i] == old(ids)@[i]);
                        assert(!crate::graph::ids_contain(old(ids)@, ids@[j]@));
                    }
                }
                assert forall|e: int| 0 <= e < edges@.len() implies edge_ok(
                    params,
                    ids@,
                    (#[trigger] edges@[e]).0 as int,
                    call_view(edges@[e].1),
                    edges@[e].2 as int,
                ) by {
                    if e < edges@.len() - 1 {
                        assert(edges@[e] == old(edges)@[e]);
                        assert(edge_ok(
                            params,
                            old(ids)@,
                            edges@[e].0 as int,
                            call_view(edges@[e].1),
                            edges@[e].2 as int,
                        ));
                    }
                }
                assert(crate::graph::ids_contain(ids@, target@)) by {
                    assert((ids@[t as int])@ == target@);
                }
            }
            Ok(())
        }
    }
}


/// Whether a list of indices holds the given one.
fn contains_usize(v: &Vec<usize>, x: usize) -> (r: bool)
    ensures
        r == v@.contains(x),
{
    let n = v.len();
    let mut i: usize = 0;
    while i < n
        invariant
            i <= n,
            n == v@.len(),
            forall|j: int| 0 <= j < i ==> v@[j] != x,
        decreases n - i,
    {
        if v[i] == x {
            proof {
                assert(v@[i as int] == x);
            }
            return true;
        }
        i += 1;
    }
    false
}

/// Whether a composition may start at sub-lead index `s` of method `m`:
/// any labelled index when no start indices are given, else exactly the
/// given indices.
pub open spec fn start_allowed(params: &Parameters, m: int, s: int) -> bool {
    &&& 0 <= m < params.methods@.len()
    &&& 0 <= s < params.methods@[m].lead@.len()
    &&& if params.start_indices@.len() == 0 {
        params.methods@[m].labels@[s] is Some
    } else {
        params.start_indices@.contains(s as usize)
    }
}

/// The id of the start chunk at a given position: its lead head is fixed
/// so that its first row is the start row.
pub open spec fn normalised_start_id(params: &Parameters, m: int, s: int) -> ChunkIdV {
    ChunkIdV {
        lead_head: row_mul(params.start_row@, row_inv(params.methods@[m].lead@[s]@)),
        method: m,
        sub_lead_idx: s,
    }
}

/// Start completeness: the graph holds a start entry for every allowed
/// start position.
pub open spec fn graph_starts_complete(g: &Graph, params: &Parameters) -> bool {
    forall|m: int, s: int|
        #[trigger] start_allowed(params, m, s) ==> exists|k: int|
            0 <= k < g.starts@.len() && (#[trigger] g.starts@[k]).1@ == normalised_start_id(
                params,
                m,
                s,
            )
}

/// Start-index completeness over the discovery output: every allowed start
/// position is one of the recorded start chunks.
pub open spec fn seeds_complete(
    params: &Parameters,
    ids: Seq<ChunkId>,
    start_idxs: Seq<usize>,
) -> bool {
    forall|m: int, s: int|
        #[trigger] start_allowed(params, m, s) ==> exists|si: int|
            0 <= si < start_idxs.len() && (#[trigger] start_idxs[si]) < ids.len() && ids[
                start_idxs[si] as int
            ]@ == normalised_start_id(params, m, s)
}

/// Every recorded start index points at a chunk whose first row is the
/// start row.
pub open spec fn starts_ok(params: &Parameters, ids: Seq<ChunkId>, starts: Seq<usize>) -> bool {
    forall|s: int|
        0 <= s < starts.len() ==> (#[trigger] starts[s]) < ids.len() && start_ok(
            params,
            ids[starts[s] as int]@,
        )
}

/// Every recorded end edge leaves a chunk whose leftover row is the end
/// row.
pub open spec fn ends_ok(
    params: &Parameters,
    ids: Seq<ChunkId>,
    ends: Seq<(usize, Option<usize>)>,
) -> bool {
    forall|e: int|
        0 <= e < ends.len() ==> (#[trigger] ends[e]).0 < ids.len() && end_edge_ok(
            params,
            ids[ends[e].0 as int]@,
            call_view(ends[e].1),
        )
}

/// Seed coverage survives discovering more chunks: the witnesses point at
/// entries that appending never moves.
proof fn lemma_seeds_complete_grow(
    params: &Parameters,
    ids0: Seq<ChunkId>,
    ids1: Seq<ChunkId>,
    start_idxs: Seq<usize>,
)
    requires
        seeds_complete(params, ids0, start_idxs),
        ids1.len() >= ids0.len(),
        forall|j: int| 0 <= j < ids0.len() ==> ids1[j] == ids0[j],
    ensures
        seeds_complete(params, ids1, start_idxs),
{
    assert forall|m: int, s: int| #[trigger] start_allowed(params, m, s) implies exists|si: int|
        0 <= si < start_idxs.len() && (#[trigger] start_idxs[si]) < ids1.len() && ids1[
            start_idxs[si] as int
        ]@ == normalised_start_id(params, m, s) by {
        let si = choose|si: int|
            0 <= si < start_idxs.len() && (#[trigger] start_idxs[si]) < ids0.len() && ids0[
                start_idxs[si] as int
            ]@ == normalised_start_id(params, m, s);
        assert(ids1[start_idxs[si] as int] == ids0[start_idxs[si] as int]);
        assert(0 <= si < start_idxs.len() && start_idxs[si] < ids1.len() && ids1[
            start_idxs[si] as int
        ]@ == normalised_start_id(params, m, s));
    }
}

/// Enumerates the chunks reachable from the starts, with the edges, start
/// chunks and end edges between them.  The contract states soundness and
/// seeding: every recorded id, edge and boundary is consistent with the
/// parameters, and every allowed start is present.  That no reachable chunk
/// within the ceiling has been missed is left to the construction: stating
/// it would need a reachability theory over the parameters that nothing
/// else here uses.
pub fn discover(params: &Parameters, limit: usize) -> (r: Result<
    (Vec<ChunkId>, Vec<(usize, Option<usize>, usize)>, Vec<usize>, Vec<(usize, Option<usize>)>),
    BuildError,
>)
    requires
        params.wf(),
    ensures
        match r {
            Ok(d) => {
                &&& discovery_inv(params, d.0@, Seq::empty(), d.1@)
                &&& starts_ok(params, d.0@, d.2@)
                &&& ends_ok(params, d.0@, d.3@)
                &&& seeds_complete(params, d.0@, d.2@)
            },
            Err(_) => many_valid_chunks(params, limit as int),
        },
{
    let mut ids: Vec<ChunkId> = Vec::new();
    let mut queue: Vec<FrontierItem<usize, usize>> = Vec::new();
    let mut edges: Vec<(usize, Option<usize>, usize)> = Vec::new();
    let mut start_idxs: Vec<usize> = Vec::new();
    let mut end_edges: Vec<(usize, Option<usize>)> = Vec::new();
    let mut expanded: Vec<bool> = Vec::new();

    // Seed the frontier: one chunk per method and allowed start index,
    // its lead head fixed so that its first row is the start row.
    let num_methods = params.methods.len();
    let mut m: usize = 0;
    while m < num_methods
        invariant
            m <= num_methods,
            num_methods == params.methods@.len(),
            params.wf(),
            discovery_inv(params, ids@, queue@, edges@),
            starts_ok(params, ids@, start_idxs@),
            ends_ok(params, ids@, end_edges@),
            ids@.len() <= limit,
            queue@.len() <= ids@.len(),
            forall|m2: int, s2: int|
                #[trigger] start_allowed(params, m2, s2) && m2 < m ==> exists|si: int|
                    0 <= si < start_idxs@.len() && (#[trigger] start_idxs@[si]) < ids@.len()
                        && ids@[start_idxs@[si] as int]@ == normalised_start_id(params, m2, s2),
        decreases num_methods - m,
    {
        let meth = &params.methods[m];
        let lead_len = meth.lead.len();
        let mut sidx: usize = 0;
        while sidx < lead_len
            invariant
                sidx <= lead_len,
                m < num_methods,
                num_methods == params.methods@.len(),
                lead_len == params.methods@[m as int].lead@.len(),
                *meth == params.methods@[m as int],
                params.wf(),
                discovery_inv(params, ids@, queue@, edges@),
                starts_ok(params, ids@, start_idxs@),
                ends_ok(params, ids@, end_edges@),
                ids@.len() <= limit,
                queue@.len() <= ids@.len(),
                forall|m2: int, s2: int|
                    #[trigger] start_allowed(params, m2, s2) && (m2 < m || (m2 == m && s2
                        < sidx)) ==> exists|si: int|
                        0 <= si < start_idxs@.len() && (#[trigger] start_idxs@[si]) < ids@.len()
                            && ids@[start_idxs@[si] as int]@ == normalised_start_id(
                            params,
                            m2,
                            s2,
                        ),
            decreases lead_len - sidx,
        {
            let allowed = if params.start_indices.len() == 0 {
                meth.labels[sidx].is_some()
            } else {
                contains_usize(&params.start_indices, sidx)
            };
            if allowed {
                let inv_lead_row = meth.lead[sidx].inv();
                let head = params.start_row.mul(&inv_lead_row);
                let target = ChunkId::new(head, RowIdx::new(m, sidx));
                proof {
                    let ls = params.methods@[m as int].lead@[sidx as int]@;
                    crate::row::lemma_row_inv(ls);
                    crate::row::lemma_row_mul_assoc(params.start_row@, row_inv(ls), ls);
                    crate::row::lemma_rounds_identity(params.start_row@);
                    assert(row_mul(target@.lead_head, ls) == params.start_row@);
                    assert(id_valid(params, target@));
                    assert(start_ok(params, target@));
                }
                proof {
                    assert(target@ == normalised_start_id(params, m as int, sidx as int));
                }
                match find_id(&ids, &target) {
                    Some(t) => {
                        let ghost old_starts = start_idxs@;
                        start_idxs.push(t);
                        proof {
                            assert forall|s2: int| 0 <= s2 < start_idxs@.len() implies (
                            #[trigger] start_idxs@[s2]) < ids@.len() && start_ok(
                                params,
                                ids@[start_idxs@[s2] as int]@,
                            ) by {
                                if s2 < start_idxs@.len() - 1 {
                                    assert(start_idxs@[s2] == old_starts[s2]);
                                }
                            }
                            assert forall|m2: int, s2: int|
                                #[trigger] start_allowed(params, m2, s2) && (m2 < m || (m2 == m
                                    && s2 < sidx + 1)) implies exists|si: int|
                                0 <= si < start_idxs@.len() && (#[trigger] start_idxs@[si])
                                    < ids@.len() && ids@[start_idxs@[si] as int]@
                                    == normalised_start_id(params, m2, s2) by {
                                if m2 == m && s2 == sidx {
                                    assert(0 <= start_idxs@.len() - 1 < start_idxs@.len() && (
                                    start_idxs@[start_idxs@.len() - 1]) < ids@.len() && ids@[
                                        start_idxs@[start_idxs@.len() - 1] as int
                                    ]@ == normalised_start_id(params, m2, s2));
                                } else {
                                    let si = choose|si: int|
                                        0 <= si < old_starts.len() && (#[trigger] old_starts[si])
                                            < ids@.len() && ids@[old_starts[si] as int]@
                                            == normalised_start_id(params, m2, s2);
                                    assert(start_idxs@[si] == old_starts[si]);
                                }
                            }
                        }
                    }
                    None => {
                        if ids.len() >= limit {
                            proof {
                                lemma_many_valid_chunks(params, ids@, limit as int);
                            }
                            return Err(BuildError::GraphTooLarge);
                        }
                        let t = ids.len();
                        let ghost old_ids = ids@;
                        let ghost old_starts = start_idxs@;
                        ids.push(target);
                        queue.push(FrontierItem::new(t, 0));
                        start_idxs.push(t);
                        proof {
                            assert forall|i: int, j: int|
                                0 <= i < ids@.len() && 0 <= j < ids@.len() && i != j implies (
                            #[trigger] ids@[i])@ != (#[trigger] ids@[j])@ by {
                                if i < ids@.len() - 1 && j < ids@.len() - 1 {
                                    assert(ids@[i] == old_ids[i] && ids@[j] == old_ids[j]);
                                } else if i == ids@.len() - 1 {
                                    assert(ids@[j] == old_ids[j]);
                                    assert(!crate::graph::ids_contain(old_ids, ids@[i]@));
                                } else {
                                    assert(ids@[i] == old_ids[i]);
                                    assert(!crate::graph::ids_contain(old_ids, ids@[j]@));
                                }
                            }
                            assert forall|s2: int| 0 <= s2 < start_idxs@.len() implies (
                            #[trigger] start_idxs@[s2]) < ids@.len() && start_ok(
                                params,
                                ids@[start_idxs@[s2] as int]@,
                            ) by {
                                if s2 < start_idxs@.len() - 1 {
                                    assert(start_idxs@[s2] == old_starts[s2]);
                                    assert(ids@[old_starts[s2] as int] == old_ids[old_starts[s2] as int]);
                                } else {
                                    assert(ids@[t as int]@ == target@);
                                }
                            }
                            assert forall|e: int| 0 <= e < edges@.len() implies edge_ok(
                                params,
                                ids@,
                                (#[trigger] edges@[e]).0 as int,
                                call_view(edges@[e].1),
                                edges@[e].2 as int,
                            ) by {
                                assert(edge_ok(
                                    params,
                                    old_ids,
                                    edges@[e].0 as int,
                                    call_view(edges@[e].1),
                                    edges@[e].2 as int,
                                ));
                            }
                            assert forall|m2: int, s2: int|
                                #[trigger] start_allowed(params, m2, s2) && (m2 < m || (m2 == m
                                    && s2 < sidx + 1)) implies exists|si: int|
                                0 <= si < start_idxs@.len() && (#[trigger] start_idxs@[si])
                                    < ids@.len() && ids@[start_idxs@[si] as int]@
                                    == normalised_start_id(params, m2, s2) by {
                                if m2 == m && s2 == sidx {
                                    assert(start_idxs@[start_idxs@.len() - 1] == t);
                                    assert(ids@[t as int]@ == normalised_start_id(params, m2, s2));
                                } else {
                                    let si = choose|si: int|
                                        0 <= si < old_starts.len() && (#[trigger] old_starts[si])
                                            < old_ids.len() && old_ids[old_starts[si] as int]@
                                            == normalised_start_id(params, m2, s2);
                                    assert(start_idxs@[si] == old_starts[si]);
                                    assert(ids@[old_starts[si] as int] == old_ids[old_starts[si] as int]);
                                }
                            }
                        }
                    }
                }
            } else {
                proof {
                    assert(!start_allowed(params, m as int, sidx as int));
                }
            }
            sidx += 1;
        }
        m += 1;
    }

    // Grow the table of expansion marks to cover the seeded chunks.
    let mut z0: usize = 0;
    while z0 < ids.len()
        invariant
            z0 <= ids@.len(),
            expanded@.len() == z0,
        decreases ids@.len() - z0,
    {
        expanded.push(false);
        z0 += 1;
    }
    // Expand the frontier in shortest-distance order, so that chunks beyond
    // the longest acceptable composition are never expanded.
    let mut fuel: usize = usize::MAX;
    loop
        invariant
            params.wf(),
            discovery_inv(params, ids@, queue@, edges@),
            starts_ok(params, ids@, start_idxs@),
            seeds_complete(params, ids@, start_idxs@),
            ends_ok(params, ids@, end_edges@),
            ids@.len() <= limit,
            expanded@.len() <= ids@.len(),
        decreases fuel,
    {
        if fuel == 0 || queue.len() == 0 {
            break;
        }
        fuel -= 1;
        // Pop the queued chunk with the smallest distance from the starts.
        let mut best: usize = 0;
        let mut qi: usize = 1;
        while qi < queue.len()
            invariant
                1 <= qi <= queue@.len(),
                best < qi,
                queue@.len() >= 1,
            decreases queue@.len() - qi,
        {
            if queue[qi].distance < queue[best].distance {
                best = qi;
            }
            qi += 1;
        }
        let popped = queue.swap_remove(best);
        let idx = popped.item;
        let dist = popped.distance;
        proof {
            assert(forall|q: int|
                0 <= q < queue@.len() ==> (#[trigger] queue@[q]).item < ids@.len());
        }
        // Each chunk is expanded at most once, at its smallest distance.
        while expanded.len() < ids.len()
            invariant
                expanded@.len() <= ids@.len(),
            decreases ids@.len() - expanded@.len(),
        {
            expanded.push(false);
        }
        if expanded[idx] {
            continue;
        }
        expanded.set(idx, true);
        let ghost pot0: int = queue@.len() + limit - ids@.len();
        let id = ids[idx].clone();
        let m_idx = id.row_idx.method;
        let s = id.row_idx.sub_lead_idx;
        let meth = &params.methods[m_idx];
        let lead_len = meth.lead.len();
        let e = segment_end(meth, s);
        // A chunk whose rows already pass the longest acceptable length
        // cannot appear in any composition: leave it unexpanded.
        let seg_rows = e - s;
        let new_dist = match dist.checked_add(seg_rows) {
            Some(v) => v,
            None => usize::MAX,
        };
        if new_dist > params.length.max {
            continue;
        }
        // The label at the boundary this chunk stops at.
        let label: u32 = if e < lead_len {
            match meth.labels[e] {
                Some(l) => l,
                None => 0,
            }
        } else {
            match meth.labels[0] {
                Some(l) => l,
                None => 0,
            }
        };
        // The plain continuation's transposition.
        let step: RowBuf = if e == lead_len {
            meth.lead_head_transposition.clone()
        } else {
            RowBuf::rounds(meth.stage)
        };
        proof {
            assert(id@ == ids@[idx as int]@);
            assert(step@ == plain_step(params.methods@[m_idx as int], s as int));
        }
        let next_head_plain = id.lead_head.mul(&step);

        // Plain continuations: every position in every method that carries
        // the boundary's label.
        let mut m2: usize = 0;
        while m2 < params.methods.len()
            invariant
                m2 <= params.methods@.len(),
                params.wf(),
                discovery_inv(params, ids@, queue@, edges@),
                starts_ok(params, ids@, start_idxs@),
                ends_ok(params, ids@, end_edges@),
                ids@.len() <= limit,
                queue@.len() + limit - ids@.len() <= pot0,
                seeds_complete(params, ids@, start_idxs@),
                expanded@.len() <= ids@.len(),
                idx < ids@.len(),
                ids@[idx as int]@ == id@,
                id_valid(params, id@),
                m_idx == id@.method,
                s == id@.sub_lead_idx,
                next_head_plain@ == row_mul(
                    id@.lead_head,
                    plain_step(params.methods@[m_idx as int], s as int),
                ),
                valid_row(next_head_plain@),
                next_head_plain@.len() == params.methods@[0].stage.spec_num_bells(),
            decreases params.methods@.len() - m2,
        {
            let lead_len2 = params.methods[m2].lead.len();
            let mut s2: usize = 0;
            while s2 < lead_len2
                invariant
                    s2 <= lead_len2,
                    m2 < params.methods@.len(),
                    lead_len2 == params.methods@[m2 as int].lead@.len(),
                    params.wf(),
                    discovery_inv(params, ids@, queue@, edges@),
                    starts_ok(params, ids@, start_idxs@),
                    ends_ok(params, ids@, end_edges@),
                    ids@.len() <= limit,
                    queue@.len() + limit - ids@.len() <= pot0,
                seeds_complete(params, ids@, start_idxs@),
                expanded@.len() <= ids@.len(),
                    idx < ids@.len(),
                    ids@[idx as int]@ == id@,
                    id_valid(params, id@),
                    m_idx == id@.method,
                    s == id@.sub_lead_idx,
                    next_head_plain@ == row_mul(
                        id@.lead_head,
                        plain_step(params.methods@[m_idx as int], s as int),
                    ),
                    valid_row(next_head_plain@),
                    next_head_plain@.len() == params.methods@[0].stage.spec_num_bells(),
                decreases lead_len2 - s2,
            {
                let is_labelled = match params.methods[m2].labels[s2] {
                    Some(l2) => l2 == label,
                    None => false,
                };
                if is_labelled {
                    let target = ChunkId::new(next_head_plain.clone(), RowIdx::new(m2, s2));
                    proof {
                        assert(params.methods@[m2 as int].stage == params.methods@[0].stage);
                        assert(id_valid(params, target@));
                    }
                    let ghost pre_ids = ids@;
                    match add_edge_target(
                        params,
                        &mut ids,
                        &mut queue,
                        &mut edges,
                        idx,
                        None,
                        target,
                        limit,
                        new_dist,
                    ) {
                        Ok(()) => {}
                        Err(err) => {
                            return Err(err);
                        }
                    }
                    proof {
                        lemma_seeds_complete_grow(params, pre_ids, ids@, start_idxs@);
                    }
                }
                s2 += 1;
            }
            m2 += 1;
        }

        // A plain end: the leftover row just past this chunk is the end row.
        let leftover: RowBuf = if e == lead_len {
            next_head_plain.clone()
        } else {
            id.lead_head.mul(&meth.lead[e])
        };
        proof {
            assert(leftover@ == row_mul(
                id@.lead_head,
                leftover_trans(params, id@, None),
            ));
        }
        let end_allowed = params.end_indices.len() == 0 || contains_usize(
            &params.end_indices,
            if e == lead_len {
                0
            } else {
                e
            },
        );
        if end_allowed && leftover == params.end_row {
            let ghost old_ends = end_edges@;
            end_edges.push((idx, None));
            proof {
                assert forall|e2: int| 0 <= e2 < end_edges@.len() implies (
                #[trigger] end_edges@[e2]).0 < ids@.len() && end_edge_ok(
                    params,
                    ids@[end_edges@[e2].0 as int]@,
                    call_view(end_edges@[e2].1),
                ) by {
                    if e2 < end_edges@.len() - 1 {
                        assert(end_edges@[e2] == old_ends[e2]);
                    } else {
                        assert(end_edge_ok(params, id@, None));
                    }
                }
            }
        }

        // Calls: replace the lead-end change wherever the labels line up,
        // and notice ends the call itself brings about.  Calls only attach
        // at lead ends.
        let mut c: usize = 0;
        while e == lead_len && c < params.calls.len()
            invariant
                c <= params.calls@.len(),
                params.wf(),
                discovery_inv(params, ids@, queue@, edges@),
                starts_ok(params, ids@, start_idxs@),
                ends_ok(params, ids@, end_edges@),
                ids@.len() <= limit,
                queue@.len() + limit - ids@.len() <= pot0,
                seeds_complete(params, ids@, start_idxs@),
                expanded@.len() <= ids@.len(),
                idx < ids@.len(),
                ids@[idx as int]@ == id@,
                id_valid(params, id@),
                m_idx == id@.method,
                s == id@.sub_lead_idx,
                *meth == params.methods@[m_idx as int],
                lead_len == meth.lead@.len(),
                lead_len >= 1,
            decreases params.calls@.len() - c,
        {
            if params.calls[c].label_from == label {
                let ct = meth.lead[lead_len - 1].mul(&params.calls[c].place_notation);
                proof {
                    assert(ct@ == call_step(params, m_idx as int, c as int));
                }
                let next_head_call = id.lead_head.mul(&ct);
                if next_head_call == params.end_row {
                    let ghost old_ends = end_edges@;
                    end_edges.push((idx, Some(c)));
                    proof {
                        assert forall|e2: int| 0 <= e2 < end_edges@.len() implies (
                        #[trigger] end_edges@[e2]).0 < ids@.len() && end_edge_ok(
                            params,
                            ids@[end_edges@[e2].0 as int]@,
                            call_view(end_edges@[e2].1),
                        ) by {
                            if e2 < end_edges@.len() - 1 {
                                assert(end_edges@[e2] == old_ends[e2]);
                            } else {
                                assert(end_edge_ok(params, id@, Some(c as int)));
                            }
                        }
                    }
                }
                let label_to = params.calls[c].label_to;
                let mut m2: usize = 0;
                while m2 < params.methods.len()
                    invariant
                        m2 <= params.methods@.len(),
                        c < params.calls@.len(),
                        params.wf(),
                        discovery_inv(params, ids@, queue@, edges@),
                        starts_ok(params, ids@, start_idxs@),
                        ends_ok(params, ids@, end_edges@),
                        ids@.len() <= limit,
                        queue@.len() + limit - ids@.len() <= pot0,
                seeds_complete(params, ids@, start_idxs@),
                expanded@.len() <= ids@.len(),
                        idx < ids@.len(),
                        ids@[idx as int]@ == id@,
                        id_valid(params, id@),
                        next_head_call@ == row_mul(
                            id@.lead_head,
                            call_step(params, m_idx as int, c as int),
                        ),
                        m_idx == id@.method,
                        valid_row(next_head_call@),
                        next_head_call@.len() == params.methods@[0].stage.spec_num_bells(),
                    decreases params.methods@.len() - m2,
                {
                    let lead_len2 = params.methods[m2].lead.len();
                    let mut s2: usize = 0;
                    while s2 < lead_len2
                        invariant
                            s2 <= lead_len2,
                            m2 < params.methods@.len(),
                            c < params.calls@.len(),
                            lead_len2 == params.methods@[m2 as int].lead@.len(),
                            params.wf(),
                            discovery_inv(params, ids@, queue@, edges@),
                            starts_ok(params, ids@, start_idxs@),
                            ends_ok(params, ids@, end_edges@),
                            ids@.len() <= limit,
                            queue@.len() + limit - ids@.len() <= pot0,
                seeds_complete(params, ids@, start_idxs@),
                expanded@.len() <= ids@.len(),
                            idx < ids@.len(),
                            ids@[idx as int]@ == id@,
                            id_valid(params, id@),
                            next_head_call@ == row_mul(
                                id@.lead_head,
                                call_step(params, m_idx as int, c as int),
                            ),
                            m_idx == id@.method,
                            valid_row(next_head_call@),
                            next_head_call@.len() == params.methods@[0].stage.spec_num_bells(),
                        decreases lead_len2 - s2,
                    {
                        let is_labelled = match params.methods[m2].labels[s2] {
                            Some(l2) => l2 == label_to,
                            None => false,
                        };
                        if is_labelled {
                            let target = ChunkId::new(
                                next_head_call.clone(),
                                RowIdx::new(m2, s2),
                            );
                            proof {
                                assert(params.methods@[m2 as int].stage
                                    == params.methods@[0].stage);
                                assert(id_valid(params, target@));
                            }
                            let ghost pre_ids = ids@;
                            match add_edge_target(
                                params,
                                &mut ids,
                                &mut queue,
                                &mut edges,
                                idx,
                                Some(c),
                                target,
                                limit,
                                new_dist,
                            ) {
                                Ok(()) => {}
                                Err(err) => {
                                    return Err(err);
                                }
                            }
                            proof {
                                lemma_seeds_complete_grow(params, pre_ids, ids@, start_idxs@);
                            }
                        }
                        s2 += 1;
                    }
                    m2 += 1;
                }
            }
            c += 1;
        }
    }
    Ok((ids, edges, start_idxs, end_edges))
}


/// Sharing rows is symmetric.
pub proof fn lemma_share_symmetric(params: &Parameters, a: ChunkIdV, b: ChunkIdV)
    requires
        chunks_share_row(params, a, b),
    ensures
        chunks_share_row(params, b, a),
{
    let (i, j) = choose|i: int, j: int|
        0 <= i < seg_len(params.methods@[a.method], a.sub_lead_idx) && 0 <= j < seg_len(
            params.methods@[b.method],
            b.sub_lead_idx,
        ) && #[trigger] chunk_row(params, a, i) == #[trigger] chunk_row(params, b, j);
    assert(chunk_row(params, b, j) == chunk_row(params, a, i));
}

/// Every chunk shares a row with itself.
pub proof fn lemma_share_self(params: &Parameters, a: ChunkIdV)
    requires
        0 <= a.method < params.methods@.len(),
        params.methods@[a.method].wf(),
        0 <= a.sub_lead_idx < params.methods@[a.method].lead@.len(),
    ensures
        chunks_share_row(params, a, a),
{
    lemma_next_label_bounds(params.methods@[a.method], a.sub_lead_idx + 1);
    assert(seg_len(params.methods@[a.method], a.sub_lead_idx) >= 1);
    assert(chunk_row(params, a, 0) == chunk_row(params, a, 0));
}

/// Clones a list of chunk ids, preserving each id's value.
pub(crate) fn clone_id_vec(v: &Vec<ChunkId>) -> (r: Vec<ChunkId>)
    ensures
        r@.len() == v@.len(),
        forall|k: int| 0 <= k < v@.len() ==> (#[trigger] r@[k])@ == v@[k]@,
{
    let mut out: Vec<ChunkId> = Vec::new();
    let mut i: usize = 0;
    while i < v.len()
        invariant
            i <= v@.len(),
            out@.len() == i,
            forall|k: int| 0 <= k < i ==> (#[trigger] out@[k])@ == v@[k]@,
        decreases v@.len() - i,
    {
        out.push(v[i].clone());
        i += 1;
    }
    out
}

/// Whether some chunk in `ids` has this id value and shares a row with
/// chunk `i2`.
pub open spec fn listed_share(
    params: &Parameters,
    ids: Seq<ChunkId>,
    i2: int,
    v: ChunkIdV,
) -> bool {
    exists|j2: int|
        0 <= j2 < ids.len() && (#[trigger] ids[j2])@ == v && chunks_share_row(
            params,
            ids[i2]@,
            ids[j2]@,
        )
}

/// Whether chunks `i2` and `j2` of the id list share a row.
pub open spec fn share_idx(params: &Parameters, ids: Seq<ChunkId>, i2: int, j2: int) -> bool {
    chunks_share_row(params, ids[i2]@, ids[j2]@)
}

/// Whether the falseness lists record the pair `i2, j2` in both
/// directions.
pub open spec fn pair_listed(
    params: &Parameters,
    ids: Seq<ChunkId>,
    fcs: Seq<Vec<ChunkId>>,
    i2: int,
    j2: int,
) -> bool {
    &&& crate::graph::fc_contains(fcs[i2]@, ids[j2]@)
    &&& crate::graph::fc_contains(fcs[j2]@, ids[i2]@)
}

/// The falseness lists are exactly the sharing relation: one chunk lists
/// another exactly when their rows overlap.
pub open spec fn false_lists_exact(
    params: &Parameters,
    ids: Seq<ChunkId>,
    fcs: Seq<Vec<ChunkId>>,
) -> bool {
    &&& fcs.len() == ids.len()
    &&& forall|i: int, j: int|
        0 <= i < ids.len() && 0 <= j < ids.len() ==> (crate::graph::fc_contains(
            (#[trigger] fcs[i])@,
            (#[trigger] ids[j])@,
        ) <==> chunks_share_row(params, ids[i]@, ids[j]@))
}

/// Computes the falseness list of every chunk: which other chunks share at
/// least one row with it.  The lists are exact, and symmetric by
/// construction.
pub(crate) fn build_false_lists(params: &Parameters, ids: &Vec<ChunkId>) -> (r: Vec<Vec<ChunkId>>)
    requires
        params.wf(),
        forall|i: int, j: int|
            0 <= i < ids@.len() && 0 <= j < ids@.len() && i != j ==> (#[trigger] ids@[i])@ != (
            #[trigger] ids@[j])@,
        forall|i: int| 0 <= i < ids@.len() ==> id_valid(params, (#[trigger] ids@[i])@),
    ensures
        false_lists_exact(params, ids@, r@),
{
    let nv = ids.len();
    // Group the chunks into classes by method and sub-lead index; falseness
    // between two chunks depends only on their classes and lead heads.
    let mut classes: Vec<(usize, usize)> = Vec::new();
    let mut class_of: Vec<usize> = Vec::new();
    let mut i: usize = 0;
    while i < nv
        invariant
            i <= nv,
            nv == ids@.len(),
            params.wf(),
            forall|k: int| 0 <= k < ids@.len() ==> id_valid(params, (#[trigger] ids@[k])@),
            class_of@.len() == i,
            forall|c: int|
                0 <= c < classes@.len() ==> (#[trigger] classes@[c]).0 < params.methods@.len()
                    && classes@[c].1 < params.methods@[classes@[c].0 as int].lead@.len(),
            forall|k: int|
                0 <= k < i ==> (#[trigger] class_of@[k]) < classes@.len() && classes@[class_of@[k] as int].0
                    == ids@[k]@.method && classes@[class_of@[k] as int].1 == ids@[k]@.sub_lead_idx,
        decreases nv - i,
    {
        let m = ids[i].row_idx.method;
        let sl = ids[i].row_idx.sub_lead_idx;
        let mut found: Option<usize> = None;
        let mut c: usize = 0;
        while c < classes.len()
            invariant
                c <= classes@.len(),
                match found {
                    Some(f) => f < classes@.len() && classes@[f as int].0 == m
                        && classes@[f as int].1 == sl,
                    None => true,
                },
            decreases classes@.len() - c,
        {
            if classes[c].0 == m && classes[c].1 == sl {
                found = Some(c);
            }
            c += 1;
        }
        match found {
            Some(f) => {
                class_of.push(f);
            }
            None => {
                let f = classes.len();
                classes.push((m, sl));
                class_of.push(f);
                proof {
                    assert(id_valid(params, ids@[i as int]@));
                }
            }
        }
        i += 1;
    }
    let nc = classes.len();
    // One table entry per ordered pair of classes.
    let mut entries: Vec<Vec<Vec<RowBuf>>> = Vec::new();
    let mut ca: usize = 0;
    while ca < nc
        invariant
            ca <= nc,
            nc == classes@.len(),
            params.wf(),
            forall|c: int|
                0 <= c < classes@.len() ==> (#[trigger] classes@[c]).0 < params.methods@.len()
                    && classes@[c].1 < params.methods@[classes@[c].0 as int].lead@.len(),
            entries@.len() == ca,
            forall|a: int|
                0 <= a < ca ==> (#[trigger] entries@[a])@.len() == nc,
            forall|a: int, b: int|
                0 <= a < ca && 0 <= b < nc ==> entry_exact(
                    params,
                    (#[trigger] (entries@[a])@[b])@,
                    classes@[a].0 as int,
                    classes@[a].1 as int,
                    classes@[b].0 as int,
                    classes@[b].1 as int,
                ),
        decreases nc - ca,
    {
        let mut row_entries: Vec<Vec<RowBuf>> = Vec::new();
        let mut cb: usize = 0;
        while cb < nc
            invariant
                cb <= nc,
                ca < nc,
                nc == classes@.len(),
                params.wf(),
                forall|c: int|
                    0 <= c < classes@.len() ==> (#[trigger] classes@[c]).0 < params.methods@.len()
                        && classes@[c].1 < params.methods@[classes@[c].0 as int].lead@.len(),
                row_entries@.len() == cb,
                forall|b: int|
                    0 <= b < cb ==> entry_exact(
                        params,
                        ((#[trigger] row_entries@[b]))@,
                        classes@[ca as int].0 as int,
                        classes@[ca as int].1 as int,
                        classes@[b].0 as int,
                        classes@[b].1 as int,
                    ),
            decreases nc - cb,
        {
            let (ma, sa) = classes[ca];
            let (mb, sb) = classes[cb];
            row_entries.push(class_entry(params, ma, sa, mb, sb));
            cb += 1;
        }
        entries.push(row_entries);
        ca += 1;
    }

    // Probe every unordered pair of chunks, recording shared rows both ways.
    let mut fcs: Vec<Vec<ChunkId>> = Vec::new();
    let mut z: usize = 0;
    while z < nv
        invariant
            z <= nv,
            fcs@.len() == z,
            forall|k: int| 0 <= k < z ==> (#[trigger] fcs@[k])@.len() == 0,
        decreases nv - z,
    {
        fcs.push(Vec::new());
        z += 1;
    }
    let mut i: usize = 0;
    while i < nv
        invariant
            i <= nv,
            nv == ids@.len(),
            params.wf(),
            nc == classes@.len(),
            class_of@.len() == nv,
            forall|i2: int, j2: int|
                0 <= i2 < ids@.len() && 0 <= j2 < ids@.len() && i2 != j2 ==> (
                #[trigger] ids@[i2])@ != (#[trigger] ids@[j2])@,
            forall|k: int| 0 <= k < ids@.len() ==> id_valid(params, (#[trigger] ids@[k])@),
            forall|c: int|
                0 <= c < classes@.len() ==> (#[trigger] classes@[c]).0 < params.methods@.len()
                    && classes@[c].1 < params.methods@[classes@[c].0 as int].lead@.len(),
            forall|k: int|
                0 <= k < nv ==> (#[trigger] class_of@[k]) < nc && classes@[class_of@[k] as int].0
                    == ids@[k]@.method && classes@[class_of@[k] as int].1 == ids@[k]@.sub_lead_idx,
            entries@.len() == nc,
            forall|a: int| 0 <= a < nc ==> (#[trigger] entries@[a])@.len() == nc,
            forall|a: int, b: int|
                0 <= a < nc && 0 <= b < nc ==> entry_exact(
                    params,
                    (#[trigger] (entries@[a])@[b])@,
                    classes@[a].0 as int,
                    classes@[a].1 as int,
                    classes@[b].0 as int,
                    classes@[b].1 as int,
                ),
            fcs@.len() == nv,
            // Soundness: everything listed is a genuine sharing partner.
            forall|i2: int, x: int|
                0 <= i2 < nv && 0 <= x < (fcs@[i2])@.len() ==> listed_share(
                    params,
                    ids@,
                    i2,
                    (#[trigger] (fcs@[i2])@[x])@,
                ),
            // Completeness: every processed sharing pair is listed, both
            // ways round.
            forall|i2: int, j2: int|
                0 <= i2 <= j2 < nv && i2 < i && #[trigger] share_idx(params, ids@, i2, j2)
                    ==> pair_listed(params, ids@, fcs@, i2, j2),
        decreases nv - i,
    {
        let mut j: usize = i;
        while j < nv
            invariant
                i <= j <= nv,
                i < nv,
                nv == ids@.len(),
                params.wf(),
                nc == classes@.len(),
                class_of@.len() == nv,
                forall|i2: int, j2: int|
                    0 <= i2 < ids@.len() && 0 <= j2 < ids@.len() && i2 != j2 ==> (
                    #[trigger] ids@[i2])@ != (#[trigger] ids@[j2])@,
                forall|k: int| 0 <= k < ids@.len() ==> id_valid(params, (#[trigger] ids@[k])@),
                forall|c: int|
                    0 <= c < classes@.len() ==> (#[trigger] classes@[c]).0 < params.methods@.len()
                        && classes@[c].1 < params.methods@[classes@[c].0 as int].lead@.len(),
                forall|k: int|
                    0 <= k < nv ==> (#[trigger] class_of@[k]) < nc && classes@[class_of@[k] as int].0
                        == ids@[k]@.method && classes@[class_of@[k] as int].1
                        == ids@[k]@.sub_lead_idx,
                entries@.len() == nc,
                forall|a: int| 0 <= a < nc ==> (#[trigger] entries@[a])@.len() == nc,
                forall|a: int, b: int|
                    0 <= a < nc && 0 <= b < nc ==> entry_exact(
                        params,
                        (#[trigger] (entries@[a])@[b])@,
                        classes@[a].0 as int,
                        classes@[a].1 as int,
                        classes@[b].0 as int,
                        classes@[b].1 as int,
                    ),
                fcs@.len() == nv,
                forall|i2: int, x: int|
                    0 <= i2 < nv && 0 <= x < (fcs@[i2])@.len() ==> listed_share(
                        params,
                        ids@,
                        i2,
                        (#[trigger] (fcs@[i2])@[x])@,
                    ),
                forall|i2: int, j2: int|
                    0 <= i2 <= j2 < nv && (i2 < i || (i2 == i && j2 < j)) && #[trigger] share_idx(
                        params,
                        ids@,
                        i2,
                        j2,
                    ) ==> pair_listed(params, ids@, fcs@, i2, j2),
            decreases nv - j,
        {
            let ca = class_of[i];
            let cb = class_of[j];
            let shares = chunks_false(params, &ids[i], &ids[j], &entries[ca][cb]);
            proof {
                if !shares {
                    assert(!share_idx(params, ids@, i as int, j as int));
                }
            }
            if shares {
                let ghost fcs0 = fcs@;
                let mut vi = clone_id_vec(&fcs[i]);
                vi.push(ids[j].clone());
                fcs.set(i, vi);
                if j != i {
                    let mut vj = clone_id_vec(&fcs[j]);
                    vj.push(ids[i].clone());
                    fcs.set(j, vj);
                }
                proof {
                    assert forall|i2: int, x: int|
                        0 <= i2 < nv && 0 <= x < (fcs@[i2])@.len() implies listed_share(
                        params,
                        ids@,
                        i2,
                        (#[trigger] (fcs@[i2])@[x])@,
                    ) by {
                        if i2 == i && x < (fcs0[i2])@.len() {
                            assert(((fcs@[i2])@[x])@ == ((fcs0[i2])@[x])@);
                            assert(listed_share(params, ids@, i2, ((fcs0[i2])@[x])@));
                        } else if i2 == i {
                            assert(((fcs@[i2])@[x])@ == ids@[j as int]@);
                            assert(chunks_share_row(params, ids@[i as int]@, ids@[j as int]@));
                            assert((ids@[j as int])@ == ((fcs@[i2])@[x])@);
                        } else if i2 == j && x < (fcs0[i2])@.len() {
                            assert(((fcs@[i2])@[x])@ == ((fcs0[i2])@[x])@);
                            assert(listed_share(params, ids@, i2, ((fcs0[i2])@[x])@));
                        } else if i2 == j {
                            lemma_share_symmetric(params, ids@[i as int]@, ids@[j as int]@);
                            assert(((fcs@[i2])@[x])@ == ids@[i as int]@);
                            assert((ids@[i as int])@ == ((fcs@[i2])@[x])@);
                        } else {
                            assert(fcs@[i2] == fcs0[i2]);
                            assert(listed_share(params, ids@, i2, ((fcs0[i2])@[x])@));
                        }
                    }
                    assert forall|i2: int, j2: int|
                        0 <= i2 <= j2 < nv && (i2 < i || (i2 == i && j2 < j + 1))
                            && #[trigger] share_idx(params, ids@, i2, j2) implies pair_listed(
                        params,
                        ids@,
                        fcs@,
                        i2,
                        j2,
                    ) by {
                        if i2 == i && j2 == j {
                            assert(((fcs@[i as int])@[(fcs@[i as int])@.len() - 1])@
                                == ids@[j as int]@);
                            assert(crate::graph::fc_contains((fcs@[i as int])@, ids@[j as int]@));
                            if j != i {
                                assert(((fcs@[j as int])@[(fcs@[j as int])@.len() - 1])@
                                    == ids@[i as int]@);
                            }
                            assert(crate::graph::fc_contains((fcs@[j as int])@, ids@[i as int]@));
                        } else {
                            assert(pair_listed(params, ids@, fcs0, i2, j2));
                            let x1 = choose|x1: int|
                                0 <= x1 < (fcs0[i2])@.len() && (#[trigger] (fcs0[i2])@[x1])@
                                    == ids@[j2]@;
                            let x2 = choose|x2: int|
                                0 <= x2 < (fcs0[j2])@.len() && (#[trigger] (fcs0[j2])@[x2])@
                                    == ids@[i2]@;
                            assert(((fcs@[i2])@[x1])@ == ids@[j2]@);
                            assert(((fcs@[j2])@[x2])@ == ids@[i2]@);
                        }
                    }
                }
            }
            j += 1;
        }
        i += 1;
    }
    proof {
        assert forall|i2: int, j2: int|
            0 <= i2 < ids@.len() && 0 <= j2 < ids@.len() implies (crate::graph::fc_contains(
            (#[trigger] fcs@[i2])@,
            (#[trigger] ids@[j2])@,
        ) <==> chunks_share_row(params, ids@[i2]@, ids@[j2]@)) by {
            if crate::graph::fc_contains((fcs@[i2])@, ids@[j2]@) {
                let x = choose|x: int|
                    0 <= x < (fcs@[i2])@.len() && (#[trigger] (fcs@[i2])@[x])@ == ids@[j2]@;
                assert(listed_share(params, ids@, i2, ((fcs@[i2])@[x])@));
                let j3 = choose|j3: int|
                    0 <= j3 < ids@.len() && (#[trigger] ids@[j3])@ == ((fcs@[i2])@[x])@
                        && chunks_share_row(params, ids@[i2]@, ids@[j3]@);
                if j3 != j2 {
                    assert(ids@[j3]@ != ids@[j2]@);
                    assert(false);
                }
            }
            if chunks_share_row(params, ids@[i2]@, ids@[j2]@) {
                if i2 <= j2 {
                    assert(share_idx(params, ids@, i2, j2));
                    assert(pair_listed(params, ids@, fcs@, i2, j2));
                } else {
                    lemma_share_symmetric(params, ids@[i2]@, ids@[j2]@);
                    assert(share_idx(params, ids@, j2, i2));
                    assert(pair_listed(params, ids@, fcs@, j2, i2));
                }
            }
        }
    }
    fcs
}


/// The built graph's falseness lists are exact: chunks list one another
/// exactly when their rows overlap; and every chunk id in the graph is
/// valid for the parameters.
pub open spec fn graph_falseness_exact(g: &Graph, params: &Parameters) -> bool {
    &&& forall|i: int|
        0 <= i < g.chunk_ids@.len() ==> id_valid(params, (#[trigger] g.chunk_ids@[i])@)
    &&& forall|i: int, j: int|
        0 <= i < g.chunk_ids@.len() && 0 <= j < g.chunk_ids@.len() ==> (crate::graph::fc_contains(
            (#[trigger] g.chunks@[i]).false_chunks@,
            (#[trigger] g.chunk_ids@[j])@,
        ) <==> chunks_share_row(params, g.chunk_ids@[i]@, g.chunk_ids@[j]@))
}

/// Whether any of the masks matches the row.
fn any_mask_matches(masks: &Vec<crate::mask::Mask>, row: &RowBuf) -> (r: bool)
    ensures
        r == exists|i: int|
            0 <= i < masks@.len() && crate::mask::mask_matches((#[trigger] masks@[i])@, row@),
{
    let n = masks.len();
    let mut i: usize = 0;
    while i < n
        invariant
            i <= n,
            n == masks@.len(),
            forall|j: int| 0 <= j < i ==> !crate::mask::mask_matches((#[trigger] masks@[j])@, row@),
        decreases n - i,
    {
        if masks[i].matches(row) {
            proof {
                assert(crate::mask::mask_matches(masks@[i as int]@, row@));
            }
            return true;
        }
        i += 1;
    }
    false
}

/// Builds the composition graph: the chunks reachable from the starts,
/// their links, and exact falseness lists.  Fails only when the chunk count
/// would pass the given ceiling.  The contract carries the discovery's
/// soundness and the start seeding, says exactly which rows every
/// falseness list holds, and that no two links carry the same value;
/// exhaustiveness of the discovery itself is left to the construction.
pub fn build_graph(params: &Parameters, graph_size_limit: usize) -> (r: Result<Graph, BuildError>)
    requires
        params.wf(),
    ensures
        match r {
            Ok(g) => {
                &&& g.wf()
                &&& g.num_parts == 1
                &&& graph_links_ok(&g, params)
                &&& graph_boundaries_ok(&g)
                &&& graph_falseness_exact(&g, params)
                &&& graph_starts_complete(&g, params)
                &&& links_distinct(g.links.slots@)
                &&& forall|i: int|
                    0 <= i < g.chunks@.len() ==> 1 <= (#[trigger] g.chunks@[i]).per_part_length
                        <= 65535
            },
            Err(_) => many_valid_chunks(params, graph_size_limit as int),
        },
{
    let (ids, edges, start_idxs, end_edges) = match discover(params, graph_size_limit) {
        Ok(d) => d,
        Err(e) => {
            return Err(e);
        }
    };
    let nv = ids.len();
    let fcs = build_false_lists(params, &ids);

    // Wire the links, filling each chunk's successor and predecessor lists.
    let mut links = LinkSet::new();
    let mut succs: Vec<Vec<LinkId>> = Vec::new();
    let mut preds: Vec<Vec<LinkId>> = Vec::new();
    let mut z: usize = 0;
    while z < nv
        invariant
            z <= nv,
            succs@.len() == z,
            preds@.len() == z,
        decreases nv - z,
    {
        succs.push(Vec::new());
        preds.push(Vec::new());
        z += 1;
    }
    let mut e: usize = 0;
    while e < edges.len()
        invariant
            e <= edges@.len(),
            params.wf(),
            nv == ids@.len(),
            succs@.len() == nv,
            preds@.len() == nv,
            discovery_inv(params, ids@, Seq::empty(), edges@),
            forall|i: int|
                0 <= i < links.slots@.len() ==> ((#[trigger] links.slots@[i]) matches Some(l)
                    ==> link_ok(params, l@)),
            links_distinct(links.slots@),
        decreases edges@.len() - e,
    {
        let (f, call, t) = (edges[e].0, edges[e].1, edges[e].2);
        let ghost slots0 = links.slots@;
        let link = Link::new(
            LinkSide::Chunk(ids[f].clone()),
            LinkSide::Chunk(ids[t].clone()),
            call,
            0,
        );
        proof {
            assert(edge_ok(params, ids@, f as int, call_view(call), t as int));
            assert(link_ok(params, link@));
        }
        let ghost linkv = link@;
        let lid = match links.find_link(&link) {
            Some(existing) => existing,
            None => links.add(link),
        };
        proof {
            assert forall|ii: int, jj: int|
                0 <= ii < links.slots@.len() && 0 <= jj < links.slots@.len() && ii != jj && (
                #[trigger] links.slots@[ii]) is Some && (
                #[trigger] links.slots@[jj]) is Some implies links.slots@[ii].unwrap()@
                != links.slots@[jj].unwrap()@ by {
                if links.slots@.len() == slots0.len() {
                    assert(links.slots@[ii] == slots0[ii]);
                    assert(links.slots@[jj] == slots0[jj]);
                } else if ii < slots0.len() && jj < slots0.len() {
                    assert(links.slots@[ii] == slots0[ii]);
                    assert(links.slots@[jj] == slots0[jj]);
                } else if ii == slots0.len() {
                    assert(links.slots@[jj] == slots0[jj]);
                    assert(links.slots@[ii].unwrap()@ == linkv);
                } else {
                    assert(links.slots@[ii] == slots0[ii]);
                    assert(links.slots@[jj].unwrap()@ == linkv);
                }
            }
            assert(links_distinct(links.slots@));
        }
        let mut v = succs[f].clone();
        proof {
            assert(v@ =~= succs@[f as int]@);
        }
        v.push(lid);
        succs.set(f, v);
        let mut w = preds[t].clone();
        proof {
            assert(w@ =~= preds@[t as int]@);
        }
        w.push(lid);
        preds.set(t, w);
        proof {
            assert forall|i: int|
                0 <= i < links.slots@.len() implies ((#[trigger] links.slots@[i]) matches Some(l)
                ==> link_ok(params, l@)) by {
                if i < links.slots@.len() - 1 {
                    assert(links.slots@[i] == slots0[i]);
                }
            }
        }
        e += 1;
    }

    // Boundary links: starts enter their chunks, ends leave theirs.
    let mut starts: Vec<(LinkId, ChunkId)> = Vec::new();
    let mut si: usize = 0;
    while si < start_idxs.len()
        invariant
            si <= start_idxs@.len(),
            params.wf(),
            nv == ids@.len(),
            discovery_inv(params, ids@, Seq::empty(), edges@),
            starts_ok(params, ids@, start_idxs@),
            ends_ok(params, ids@, end_edges@),
            forall|i: int|
                0 <= i < links.slots@.len() ==> ((#[trigger] links.slots@[i]) matches Some(l)
                    ==> link_ok(params, l@)),
            starts@.len() == si,
            seeds_complete(params, ids@, start_idxs@),
            forall|i: int|
                0 <= i < si ==> (#[trigger] starts@[i]).1@ == ids@[start_idxs@[i] as int]@,
            forall|i: int|
                0 <= i < starts@.len() ==> ((#[trigger] starts@[i]).0.0 < links.slots@.len() && (
                links.slots@[starts@[i].0.0 as int] matches Some(l) && l.from@ is StartOrEnd
                    && l.to@ == crate::graph::LinkSideV::Chunk(starts@[i].1@))),
            links_distinct(links.slots@),
        decreases start_idxs@.len() - si,
    {
        let sidx = start_idxs[si];
        let ghost slots0 = links.slots@;
        let ghost starts0 = starts@;
        let link = Link::new(LinkSide::StartOrEnd, LinkSide::Chunk(ids[sidx].clone()), None, 0);
        proof {
            assert(start_ok(params, ids@[sidx as int]@));
            assert(link_ok(params, link@));
        }
        let ghost linkv = link@;
        let lid = match links.find_link(&link) {
            Some(existing) => existing,
            None => links.add(link),
        };
        proof {
            assert forall|ii: int, jj: int|
                0 <= ii < links.slots@.len() && 0 <= jj < links.slots@.len() && ii != jj && (
                #[trigger] links.slots@[ii]) is Some && (
                #[trigger] links.slots@[jj]) is Some implies links.slots@[ii].unwrap()@
                != links.slots@[jj].unwrap()@ by {
                if links.slots@.len() == slots0.len() {
                    assert(links.slots@[ii] == slots0[ii]);
                    assert(links.slots@[jj] == slots0[jj]);
                } else if ii < slots0.len() && jj < slots0.len() {
                    assert(links.slots@[ii] == slots0[ii]);
                    assert(links.slots@[jj] == slots0[jj]);
                } else if ii == slots0.len() {
                    assert(links.slots@[jj] == slots0[jj]);
                    assert(links.slots@[ii].unwrap()@ == linkv);
                } else {
                    assert(links.slots@[ii] == slots0[ii]);
                    assert(links.slots@[jj].unwrap()@ == linkv);
                }
            }
            assert(links_distinct(links.slots@));
        }
        starts.push((lid, ids[sidx].clone()));
        proof {
            assert forall|i: int|
                0 <= i < links.slots@.len() implies ((#[trigger] links.slots@[i]) matches Some(l)
                ==> link_ok(params, l@)) by {
                if i < links.slots@.len() - 1 {
                    assert(links.slots@[i] == slots0[i]);
                }
            }
            assert forall|i: int|
                0 <= i < starts@.len() implies ((#[trigger] starts@[i]).0.0 < links.slots@.len()
                && (links.slots@[starts@[i].0.0 as int] matches Some(l) && l.from@ is StartOrEnd
                    && l.to@ == crate::graph::LinkSideV::Chunk(starts@[i].1@))) by {
                if i < starts@.len() - 1 {
                    assert(starts@[i] == starts0[i]);
                    assert(links.slots@[starts@[i].0.0 as int] == slots0[starts@[i].0.0 as int]);
                }
            }
        }
        si += 1;
    }
    let mut ends: Vec<(LinkId, ChunkId)> = Vec::new();
    let mut ei: usize = 0;
    while ei < end_edges.len()
        invariant
            ei <= end_edges@.len(),
            params.wf(),
            nv == ids@.len(),
            discovery_inv(params, ids@, Seq::empty(), edges@),
            ends_ok(params, ids@, end_edges@),
            forall|i: int|
                0 <= i < links.slots@.len() ==> ((#[trigger] links.slots@[i]) matches Some(l)
                    ==> link_ok(params, l@)),
            forall|i: int|
                0 <= i < starts@.len() ==> ((#[trigger] starts@[i]).0.0 < links.slots@.len() && (
                links.slots@[starts@[i].0.0 as int] matches Some(l) && l.from@ is StartOrEnd
                    && l.to@ == crate::graph::LinkSideV::Chunk(starts@[i].1@))),
            forall|i: int|
                0 <= i < ends@.len() ==> ((#[trigger] ends@[i]).0.0 < links.slots@.len() && (
                links.slots@[ends@[i].0.0 as int] matches Some(l) && l.to@ is StartOrEnd
                    && l.from@ == crate::graph::LinkSideV::Chunk(ends@[i].1@))),
            links_distinct(links.slots@),
        decreases end_edges@.len() - ei,
    {
        let (eidx, call) = (end_edges[ei].0, end_edges[ei].1);
        let ghost slots0 = links.slots@;
        let ghost starts0 = starts@;
        let ghost ends0 = ends@;
        let link = Link::new(LinkSide::Chunk(ids[eidx].clone()), LinkSide::StartOrEnd, call, 0);
        proof {
            assert(end_edge_ok(params, ids@[eidx as int]@, call_view(call)));
            assert(link_ok(params, link@));
        }
        let ghost linkv = link@;
        let lid = match links.find_link(&link) {
            Some(existing) => existing,
            None => links.add(link),
        };
        proof {
            assert forall|ii: int, jj: int|
                0 <= ii < links.slots@.len() && 0 <= jj < links.slots@.len() && ii != jj && (
                #[trigger] links.slots@[ii]) is Some && (
                #[trigger] links.slots@[jj]) is Some implies links.slots@[ii].unwrap()@
                != links.slots@[jj].unwrap()@ by {
                if links.slots@.len() == slots0.len() {
                    assert(links.slots@[ii] == slots0[ii]);
                    assert(links.slots@[jj] == slots0[jj]);
                } else if ii < slots0.len() && jj < slots0.len() {
                    assert(links.slots@[ii] == slots0[ii]);
                    assert(links.slots@[jj] == slots0[jj]);
                } else if ii == slots0.len() {
                    assert(links.slots@[jj] == slots0[jj]);
                    assert(links.slots@[ii].unwrap()@ == linkv);
                } else {
                    assert(links.slots@[ii] == slots0[ii]);
                    assert(links.slots@[jj].unwrap()@ == linkv);
                }
            }
            assert(links_distinct(links.slots@));
        }
        ends.push((lid, ids[eidx].clone()));
        proof {
            assert forall|i: int|
                0 <= i < links.slots@.len() implies ((#[trigger] links.slots@[i]) matches Some(l)
                ==> link_ok(params, l@)) by {
                if i < links.slots@.len() - 1 {
                    assert(links.slots@[i] == slots0[i]);
                }
            }
            assert forall|i: int|
                0 <= i < starts@.len() implies ((#[trigger] starts@[i]).0.0 < links.slots@.len()
                && (links.slots@[starts@[i].0.0 as int] matches Some(l) && l.from@ is StartOrEnd
                    && l.to@ == crate::graph::LinkSideV::Chunk(starts@[i].1@))) by {
                assert(links.slots@[starts@[i].0.0 as int] == slots0[starts@[i].0.0 as int]);
            }
            assert forall|i: int|
                0 <= i < ends@.len() implies ((#[trigger] ends@[i]).0.0 < links.slots@.len() && (
                links.slots@[ends@[i].0.0 as int] matches Some(l) && l.to@ is StartOrEnd
                    && l.from@ == crate::graph::LinkSideV::Chunk(ends@[i].1@))) by {
                if i < ends@.len() - 1 {
                    assert(ends@[i] == ends0[i]);
                    assert(links.slots@[ends@[i].0.0 as int] == slots0[ends@[i].0.0 as int]);
                }
            }
        }
        ei += 1;
    }

    // Build the chunks themselves: lengths, method counts, music, duffer
    // classification, and the falseness lists computed above.
    let mut chunks: Vec<Chunk> = Vec::new();
    let mut i: usize = 0;
    while i < nv
        invariant
            i <= nv,
            params.wf(),
            nv == ids@.len(),
            succs@.len() == nv,
            preds@.len() == nv,
            fcs@.len() == nv,
            false_lists_exact(params, ids@, fcs@),
            discovery_inv(params, ids@, Seq::empty(), edges@),
            chunks@.len() == i,
            forall|k: int|
                0 <= k < i ==> (#[trigger] chunks@[k]).total_length
                    == chunks@[k].per_part_length * 1,
            forall|k: int|
                0 <= k < i ==> 1 <= (#[trigger] chunks@[k]).per_part_length <= 65535,
            forall|k: int|
                0 <= k < i ==> crate::optimise::fc_same(
                    (#[trigger] chunks@[k]).false_chunks@,
                    fcs@[k]@,
                ),
        decreases nv - i,
    {
        let id = ids[i].clone();
        let m_idx = id.row_idx.method;
        let sl = id.row_idx.sub_lead_idx;
        let meth = &params.methods[m_idx];
        let lead_len = meth.lead.len();
        let e2 = segment_end(meth, sl);
        let k = e2 - sl;
        // The chunk's untransposed rows.
        let mut rows: Vec<RowBuf> = Vec::new();
        let mut o: usize = 0;
        while o < k
            invariant
                o <= k,
                sl + k <= meth.lead@.len(),
                sl + k <= usize::MAX,
                meth.wf(),
                rows@.len() == o,
                forall|x: int|
                    0 <= x < o ==> (#[trigger] rows@[x])@ == meth.lead@[sl + x]@,
            decreases k - o,
        {
            rows.push(meth.lead[sl + o].clone());
            o += 1;
        }
        proof {
            assert(id_valid(params, ids@[i as int]@));
            assert(id@ == ids@[i as int]@);
            assert forall|x: int|
                0 <= x < rows@.len() implies (#[trigger] rows@[x]).valid() && rows@[x]@.len()
                == id.lead_head@.len() by {
                assert(rows@[x]@ == meth.lead@[sl + x]@);
            }
            assert forall|t: int|
                0 <= t < params.music_types@.len() implies rows@.len() * (
            #[trigger] params.music_types@[t]).patterns@.len() <= usize::MAX by {
                assert(rows@.len() * params.music_types@[t].patterns@.len() <= 65535 * 65535)
                    by (nonlinear_arith)
                    requires
                        0 <= rows@.len() <= 65535,
                        0 <= params.music_types@[t].patterns@.len() <= 65535,
                ;
            }
        }
        let music = crate::utils::MusicBreakdown::from_rows(
            &rows,
            &id.lead_head,
            &params.music_types,
            params.start_stroke,
        );
        // Method counts: this chunk contributes its rows to one method.
        let mut method_counts: Vec<usize> = Vec::new();
        let mut mc: usize = 0;
        while mc < params.methods.len()
            invariant
                mc <= params.methods@.len(),
                method_counts@.len() == mc,
            decreases params.methods@.len() - mc,
        {
            method_counts.push(if mc == m_idx {
                k
            } else {
                0
            });
            mc += 1;
        }
        let duffer = match &params.non_duffer_courses {
            Some(masks) => !any_mask_matches(masks, &id.lead_head),
            None => false,
        };
        let false_chunks = clone_id_vec(&fcs[i]);
        let chunk = Chunk {
            predecessors: preds[i].clone(),
            successors: succs[i].clone(),
            false_chunks,
            per_part_length: k,
            total_length: k,
            method_counts,
            music,
            required: false,
            lb_distance_from_rounds: 0,
            lb_distance_to_rounds: 0,
            duffer,
        };
        chunks.push(chunk);
        i += 1;
    }

    let ghost gstarts = starts@;
    let ghost gsidxs = start_idxs@;
    let graph = Graph { chunk_ids: ids, chunks, links, starts, ends, num_parts: 1 };
    proof {
        assert forall|m2: int, s2: int|
            #[trigger] start_allowed(params, m2, s2) implies exists|k: int|
            0 <= k < graph.starts@.len() && (#[trigger] graph.starts@[k]).1@
                == normalised_start_id(params, m2, s2) by {
            let si2 = choose|si2: int|
                0 <= si2 < gsidxs.len() && (#[trigger] gsidxs[si2]) < graph.chunk_ids@.len()
                    && graph.chunk_ids@[gsidxs[si2] as int]@ == normalised_start_id(
                    params,
                    m2,
                    s2,
                );
            assert(0 <= si2 < graph.starts@.len() && (graph.starts@[si2]).1@
                == normalised_start_id(params, m2, s2));
        }
        // Well-formedness: distinct ids, lengths, self-falseness, symmetry.
        assert forall|k: int| 0 <= k < graph.chunks@.len() implies (
        #[trigger] graph.chunks@[k]).total_length == graph.chunks@[k].per_part_length
            * graph.num_parts by {
            assert(graph.chunks@[k].total_length == graph.chunks@[k].per_part_length * 1);
        }
        assert forall|k: int, j: int|
            0 <= k < graph.chunk_ids@.len() && 0 <= j < graph.chunk_ids@.len() implies (
        crate::graph::fc_contains(
            (#[trigger] graph.chunks@[k]).false_chunks@,
            (#[trigger] graph.chunk_ids@[j])@,
        ) <==> chunks_share_row(params, graph.chunk_ids@[k]@, graph.chunk_ids@[j]@)) by {
            crate::optimise::fc_contains_same(
                graph.chunks@[k].false_chunks@,
                fcs@[k]@,
                graph.chunk_ids@[j]@,
            );
        }
        assert forall|k: int| 0 <= k < graph.chunks@.len() implies crate::graph::fc_contains(
            (#[trigger] graph.chunks@[k]).false_chunks@,
            graph.chunk_ids@[k]@,
        ) by {
            lemma_share_self(params, graph.chunk_ids@[k]@);
        }
        assert forall|k: int, j: int|
            0 <= k < graph.chunks@.len() && 0 <= j < graph.chunks@.len()
                && graph.chunk_ids@.len() == graph.chunks@.len() implies (
        crate::graph::fc_contains(
            (#[trigger] graph.chunks@[k]).false_chunks@,
            graph.chunk_ids@[j]@,
        ) <==> crate::graph::fc_contains(
            (#[trigger] graph.chunks@[j]).false_chunks@,
            graph.chunk_ids@[k]@,
        )) by {
            if chunks_share_row(params, graph.chunk_ids@[k]@, graph.chunk_ids@[j]@) {
                lemma_share_symmetric(params, graph.chunk_ids@[k]@, graph.chunk_ids@[j]@);
            }
            if chunks_share_row(params, graph.chunk_ids@[j]@, graph.chunk_ids@[k]@) {
                lemma_share_symmetric(params, graph.chunk_ids@[j]@, graph.chunk_ids@[k]@);
            }
        }
    }
    Ok(graph)
}

/// Finds where the segment starting at `s` ends.
pub fn segment_end(m: &Method, s: usize) -> (e: usize)
    requires
        m.wf(),
        s < m.lead@.len(),
    ensures
        e == seg_end(*m, s as int),
        s < e <= m.lead@.len(),
        e < m.lead@.len() ==> m.labels@[e as int] is Some,
{
    let len = m.lead.len();
    let mut j: usize = s + 1;
    while j < len
        invariant
            s + 1 <= j <= len,
            len == m.lead@.len() == m.labels@.len(),
            next_label_from(*m, s + 1) == next_label_from(*m, j as int),
        decreases len - j,
    {
        if m.labels[j].is_some() {
            return j;
        }
        j += 1;
    }
    len
}

} // verus!
