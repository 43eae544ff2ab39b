//! Compositions: the finished artefacts a search emits, and the path
//! elements they are made of.

use vstd::prelude::*;

use crate::builder::chunks_share_row;
use crate::graph::ChunkIdV;
use crate::params::{CallDisplayStyle, Parameters};
use crate::row::{row_inv, row_mul, valid_row, RowBuf};
use vstd::string::StringExecFns;

verus! {

/// One stretch of a composition: a run of rows of one method, starting at a
/// known row, possibly closed off by a call.
#[derive(Debug)]
pub struct PathElem {
    /// The first row of this stretch.
    pub start_row: RowBuf,
    /// Which method these rows belong to.
    pub method: usize,
    /// How far into the lead the stretch starts.
    pub start_sub_lead_idx: usize,
    /// How many rows the stretch covers in one part.
    pub length: usize,
    /// The call ending this stretch, if any.
    pub call_to_end: Option<usize>,
    /// The part-head rotation the link out of this stretch applies.
    pub ph_rotation: u16,
}

impl PathElem {
    /// Whether this stretch runs plainly into the next.
    pub fn ends_with_plain(&self) -> (r: bool)
        ensures
            r == (self.call_to_end is None),
    {
        self.call_to_end.is_none()
    }

    /// The sub-lead index just past this stretch.
    pub fn end_sub_lead_idx(&self, params: &Parameters) -> (r: usize)
        requires
            self.method < params.methods@.len(),
            params.methods@[self.method as int].lead@.len() >= 1,
            self.start_sub_lead_idx < params.methods@[self.method as int].lead@.len(),
            self.start_sub_lead_idx + self.length <= usize::MAX,
        ensures
            r == (self.start_sub_lead_idx + self.length) % (
            params.methods@[self.method as int].lead@.len() as int),
    {
        params.methods[self.method].add_sub_lead_idx(self.start_sub_lead_idx, self.length)
    }

    /// The id of the chunk this stretch came from: the lead head that puts
    /// its first row at the right offset of the lead.
    pub open spec fn spec_chunk_id(&self, params: &Parameters) -> ChunkIdV {
        ChunkIdV {
            lead_head: row_mul(
                self.start_row@,
                row_inv(params.methods@[self.method as int].lead@[self.start_sub_lead_idx as int]@),
            ),
            method: self.method as int,
            sub_lead_idx: self.start_sub_lead_idx as int,
        }
    }
}

/// The total per-part length of a path prefix.
pub open spec fn path_length(path: Seq<PathElem>) -> int
    decreases path.len(),
{
    if path.len() == 0 {
        0
    } else {
        path_length(path.drop_last()) + path.last().length
    }
}

/// The number of rows a path gives one method, per part.
pub open spec fn path_method_count(path: Seq<PathElem>, m: int) -> int
    decreases path.len(),
{
    if path.len() == 0 {
        0
    } else {
        path_method_count(path.drop_last(), m) + if path.last().method == m {
            path.last().length as int
        } else {
            0int
        }
    }
}

/// The sum of the part-head rotations along a path's links.
pub open spec fn path_rotation(path: Seq<PathElem>) -> int
    decreases path.len(),
{
    if path.len() == 0 {
        0
    } else {
        path_rotation(path.drop_last()) + path.last().ph_rotation
    }
}


/// The `k`th power of a method's lead-head transposition, composed on the
/// right: the transposition `k` plain leads apply.
pub open spec fn lh_pow(params: &Parameters, m: int, k: int) -> Seq<u8>
    decreases k,
{
    if k <= 0 {
        crate::row::rounds_seq(params.methods@[m].stage.spec_num_bells())
    } else {
        row_mul(lh_pow(params, m, k - 1), params.methods@[m].lead_head_transposition@)
    }
}

/// Lead-head powers are valid rows of the method's stage.
pub proof fn lemma_lh_pow_valid(params: &Parameters, m: int, k: int)
    requires
        params.wf(),
        0 <= m < params.methods@.len(),
        k >= 0,
    ensures
        valid_row(lh_pow(params, m, k)),
        lh_pow(params, m, k).len() == params.methods@[m].stage.spec_num_bells(),
    decreases k,
{
    if k > 0 {
        lemma_lh_pow_valid(params, m, k - 1);
        crate::row::lemma_row_mul_valid(
            lh_pow(params, m, k - 1),
            params.methods@[m].lead_head_transposition@,
        );
    }
}

/// A fitting element's lead head is a valid row of the stage.
pub proof fn lemma_elem_head_valid(params: &Parameters, e: PathElem)
    requires
        params.wf(),
        elem_fits(e, params),
    ensures
        valid_row(spec_elem_head(params, e)),
        spec_elem_head(params, e).len() == params.methods@[0].stage.spec_num_bells(),
{
    let ls = params.methods@[e.method as int].lead@[e.start_sub_lead_idx as int]@;
    crate::row::lemma_row_inv(ls);
    crate::row::lemma_row_mul_valid(e.start_row@, row_inv(ls));
}

/// Row `o` of a stretch of one method from a given lead head: the lead row
/// at the wrapped offset, under the lead heads the wraps have passed.
/// `o` may equal the stretch length, giving the row just past it.
pub open spec fn stretch_row(params: &Parameters, head: Seq<u8>, m: int, sub: int, o: int) -> Seq<
    u8,
> {
    let lead_len = params.methods@[m].lead@.len() as int;
    row_mul(
        row_mul(head, lh_pow(params, m, (sub + o) / lead_len)),
        params.methods@[m].lead@[(sub + o) % lead_len]@,
    )
}

/// The row just past a stretch: the next plain row, or the last row pushed
/// through the call's place notation.
pub open spec fn stretch_leftover(
    params: &Parameters,
    head: Seq<u8>,
    m: int,
    sub: int,
    len: int,
    call: Option<int>,
) -> Seq<u8> {
    match call {
        Some(c) => row_mul(
            stretch_row(params, head, m, sub, len - 1),
            params.calls@[c].place_notation@,
        ),
        None => stretch_row(params, head, m, sub, len),
    }
}

/// The lead head a path element rings from.
pub open spec fn spec_elem_head(params: &Parameters, e: PathElem) -> Seq<u8> {
    row_mul(
        e.start_row@,
        row_inv(params.methods@[e.method as int].lead@[e.start_sub_lead_idx as int]@),
    )
}

/// The row just past a path element.
pub open spec fn elem_leftover(params: &Parameters, e: PathElem) -> Seq<u8> {
    stretch_leftover(
        params,
        spec_elem_head(params, e),
        e.method as int,
        e.start_sub_lead_idx as int,
        e.length as int,
        match e.call_to_end {
            Some(c) => Some(c as int),
            None => None,
        },
    )
}

/// The `k`th power of the part transposition.
pub open spec fn part_pow(g: Seq<u8>, k: int, n: int) -> Seq<u8>
    decreases k,
{
    if k <= 0 {
        crate::row::rounds_seq(n)
    } else {
        row_mul(g, part_pow(g, k - 1, n))
    }
}

/// The row a whole composition leaves off at: the first part's leftover
/// pushed round by the part transposition once per part.
pub open spec fn comp_leftover(params: &Parameters, path: Seq<PathElem>, parts: int) -> Seq<u8> {
    let s = path[0].start_row@;
    let t = elem_leftover(params, path[path.len() - 1]);
    row_mul(part_pow(row_mul(t, row_inv(s)), parts, s.len() as int), s)
}

/// How many parts a composition's stored length implies: its length
/// divided by the per-part path length, when that divides evenly.
pub open spec fn spec_parts(c: &Composition) -> int {
    let pp = path_length(c.path@);
    if pp > 0 && (c.length as int) % pp == 0 && (c.length as int) / pp >= 1 {
        c.length as int / pp
    } else {
        1
    }
}

/// A composition generated by a search.
#[derive(Debug)]
pub struct Composition {
    /// Which position in generation order this composition holds, from 0.
    pub generation_number: usize,
    /// The stretches of ringing, in order, covering the first part.
    pub path: Vec<PathElem>,
    /// The number of rows over all parts.
    pub length: usize,
    /// The row reached at the end of the first part.
    pub part_head: RowBuf,
    /// The total score, from music and call weights.
    pub total_score: i64,
    /// The rows each method contributes, over all parts.
    pub method_counts: Vec<usize>,
    /// The number of occurrences of each music type.
    pub music_counts: Vec<usize>,
    /// The lengths of the stretches of duffer chunks.
    pub contiguous_duffer_lengths: Vec<usize>,
    /// The total number of duffer rows.
    pub total_duffer: usize,
}

/// Everything a search promises of a composition it emits.  These are the
/// universally quantified laws of completed compositions:
/// - its length is the per-part path length times the number of parts, and
///   lies in the requested range;
/// - its per-method row counts are the path's, times the number of parts,
///   each within its requested range;
/// - the part-head rotations along its links sum to zero modulo the number
///   of parts;
/// - it is true: no two of its path elements' chunks share a single row.
pub open spec fn comp_valid(c: &Composition, params: &Parameters, num_parts: int) -> bool {
    &&& c.path@.len() >= 1
    &&& c.length == path_length(c.path@) * num_parts
    &&& params.length.spec_contains(c.length as int)
    &&& c.method_counts@.len() == params.methods@.len()
    &&& forall|m: int|
        0 <= m < params.methods@.len() ==> (#[trigger] c.method_counts@[m]) == path_method_count(
            c.path@,
            m,
        ) * num_parts && params.method_count_ranges@[m].spec_contains(c.method_counts@[m] as int)
    &&& path_rotation(c.path@) % num_parts == 0
    &&& c.path@[0].start_row@ == params.start_row@
    &&& comp_leftover(params, c.path@, num_parts) == params.end_row@
    &&& forall|i: int| 0 <= i < c.path@.len() ==> elem_fits(#[trigger] c.path@[i], params)
    &&& forall|i: int|
        0 <= i < c.path@.len() ==> ((#[trigger] c.path@[i]).call_to_end matches Some(cl) ==> cl
            < params.calls@.len())
    &&& forall|i: int, j: int|
        0 <= i < c.path@.len() && 0 <= j < c.path@.len() && i != j ==> !chunks_share_row(
            params,
            (#[trigger] c.path@[i]).spec_chunk_id(params),
            (#[trigger] c.path@[j]).spec_chunk_id(params),
        )
}

impl Composition {
    /// The number of rows in this composition.
    pub fn length(&self) -> (r: usize)
        ensures
            r == self.length,
    {
        self.length
    }

    /// The row reached at the end of the first part.
    pub fn part_head(&self) -> (r: &RowBuf)
        ensures
            r == &self.part_head,
    {
        &self.part_head
    }

    /// The total score of this composition.
    pub fn total_score(&self) -> (r: i64)
        ensures
            r == self.total_score,
    {
        self.total_score
    }

    /// The rows each method contributes, over all parts.
    pub fn method_counts(&self) -> (r: &Vec<usize>)
        ensures
            r == &self.method_counts,
    {
        &self.method_counts
    }

    /// The number of occurrences of each music type.
    pub fn music_counts(&self) -> (r: &Vec<usize>)
        ensures
            r == &self.music_counts,
    {
        &self.music_counts
    }

    /// The lengths of the duffer stretches.
    pub fn contiguous_duffer_lengths(&self) -> (r: &Vec<usize>)
        ensures
            r == &self.contiguous_duffer_lengths,
    {
        &self.contiguous_duffer_lengths
    }

    /// The total number of duffer rows.
    pub fn total_duffer(&self) -> (r: usize)
        ensures
            r == self.total_duffer,
    {
        self.total_duffer
    }

    /// Which position in generation order this composition holds.
    pub fn generation_number(&self) -> (r: usize)
        ensures
            r == self.generation_number,
    {
        self.generation_number
    }

    /// The rows of this whole composition, in order over every part, with
    /// the row that would come next.  The first part is rebuilt from the
    /// path; each further part repeats it under the part transposition; a
    /// valid composition's row count is its length and its leftover row is
    /// the end row.
    pub fn rows(&self, params: &Parameters) -> (r: (Vec<RowBuf>, RowBuf))
        requires
            params.wf(),
            forall|i: int|
                0 <= i < self.path@.len() ==> elem_fits(#[trigger] self.path@[i], params),
            forall|i: int|
                0 <= i < self.path@.len() ==> ((#[trigger] self.path@[i]).call_to_end matches Some(
                    c,
                ) ==> c < params.calls@.len()),
            path_length(self.path@) <= crate::params::MAX_COMP_LENGTH,
            self.length <= crate::params::MAX_COMP_LENGTH,
        ensures
            r.0@.len() == path_length(self.path@) * spec_parts(self),
            self.path@.len() >= 1 && r.0@.len() >= 1 ==> r.0@[0]@ == self.path@[0].start_row@,
            self.path@.len() >= 1 ==> r.1@ == comp_leftover(params, self.path@, spec_parts(self)),
            forall|np: int|
                np >= 1 && comp_valid(self, params, np) ==> r.0@.len() == self.length
                    && r.0@[0]@ == params.start_row@ && r.1@ == params.end_row@,
    {
        let mut rows: Vec<RowBuf> = Vec::new();
        let mut leftover: RowBuf = self.path_start_row(params);
        let nb = params.methods[0].stage.num_bells();
        let n = self.path.len();
        let mut e: usize = 0;
        while e < n
            invariant
                e <= n,
                n == self.path@.len(),
                params.wf(),
                nb == params.methods@[0].stage.spec_num_bells(),
                forall|i: int|
                    0 <= i < self.path@.len() ==> elem_fits(#[trigger] self.path@[i], params),
                forall|i: int|
                    0 <= i < self.path@.len() ==> ((#[trigger] self.path@[i]).call_to_end
                        matches Some(c) ==> c < params.calls@.len()),
                path_length(self.path@) <= crate::params::MAX_COMP_LENGTH,
                rows@.len() == path_length(self.path@.take(e as int)),
                self.path@.len() >= 1 && rows@.len() >= 1 ==> rows@[0]@
                    == self.path@[0].start_row@,
                forall|i: int|
                    0 <= i < rows@.len() ==> (#[trigger] rows@[i]).valid() && rows@[i]@.len()
                        == nb,
                leftover.valid(),
                leftover@.len() == nb,
                e >= 1 ==> leftover@ == elem_leftover(params, self.path@[e - 1]),
            decreases n - e,
        {
            proof {
                assert(self.path@.take(e + 1).drop_last() =~= self.path@.take(e as int));
                lemma_path_length_bounds(self.path@, e as int);
                lemma_path_length_prefix(self.path@, e + 1);
            }
            let elem = &self.path[e];
            let meth = &params.methods[elem.method];
            let lead_len = meth.lead.len();
            // The lead head that places this stretch's first row correctly.
            let inv_lead_row = meth.lead[elem.start_sub_lead_idx].inv();
            let head = elem.start_row.mul(&inv_lead_row);
            let ghost mi: int = elem.method as int;
            proof {
                lemma_path_length_lower(self.path@, params, e as int);
                assert(head@ == spec_elem_head(params, self.path@[e as int]));
                crate::row::lemma_rounds_identity(head@);
                assert(lh_pow(params, mi, 0) == crate::row::rounds_seq(
                    params.methods@[mi].stage.spec_num_bells(),
                ));
                assert(params.methods@[mi].stage == params.methods@[0].stage);
                assert(row_mul(head@, lh_pow(params, mi, 0)) == head@);
                if e == 0 {
                    let sr = elem.start_row@;
                    let ls = meth.lead@[elem.start_sub_lead_idx as int]@;
                    crate::row::lemma_row_inv(ls);
                    crate::row::lemma_row_mul_assoc(sr, row_inv(ls), ls);
                    crate::row::lemma_rounds_identity(sr);
                    assert(row_mul(head@, ls) == sr);
                }
            }
            let mut o: usize = 0;
            let mut cur_head = head;
            let mut idx = elem.start_sub_lead_idx;
            let mut last_row = elem.start_row.clone();
            let ghost mut wraps: int = 0;
            while o < elem.length
                invariant
                    o <= elem.length,
                    params.wf(),
                    elem_fits(*elem, params),
                    elem == &self.path@[e as int],
                    e < self.path@.len(),
                    mi == elem.method as int,
                    nb == params.methods@[0].stage.spec_num_bells(),
                    meth == &params.methods@[mi],
                    lead_len == meth.lead@.len(),
                    idx < lead_len,
                    wraps >= 0,
                    elem.start_sub_lead_idx + o == wraps * lead_len + idx,
                    cur_head.valid(),
                    cur_head@.len() == nb,
                    cur_head@ == row_mul(
                        spec_elem_head(params, *elem),
                        lh_pow(params, mi, wraps),
                    ),
                    rows@.len() == path_length(self.path@.take(e as int)) + o,
                    rows@.len() + (elem.length - o) <= crate::params::MAX_COMP_LENGTH,
                    self.path@.len() >= 1 && rows@.len() >= 1 ==> rows@[0]@
                        == self.path@[0].start_row@,
                    e > 0 || o > 0 ==> rows@.len() >= 1,
                    forall|i: int|
                        0 <= i < rows@.len() ==> (#[trigger] rows@[i]).valid() && rows@[i]@.len()
                            == nb,
                    last_row.valid(),
                    last_row@.len() == nb,
                    o >= 1 ==> last_row@ == stretch_row(
                        params,
                        spec_elem_head(params, *elem),
                        mi,
                        elem.start_sub_lead_idx as int,
                        o - 1,
                    ),
                    e == 0 && o == 0 ==> row_mul(cur_head@, meth.lead@[idx as int]@)
                        == self.path@[0].start_row@,
                decreases elem.length - o,
            {
                proof {
                    assert((elem.start_sub_lead_idx + o) / (lead_len as int) == wraps && (
                    elem.start_sub_lead_idx + o) % (lead_len as int) == idx)
                        by (nonlinear_arith)
                        requires
                            elem.start_sub_lead_idx + o == wraps * lead_len + idx,
                            0 <= idx < lead_len,
                            wraps >= 0,
                            lead_len >= 1,
                    ;
                }
                let row = cur_head.mul(&meth.lead[idx]);
                proof {
                    assert(row@ == stretch_row(
                        params,
                        spec_elem_head(params, *elem),
                        mi,
                        elem.start_sub_lead_idx as int,
                        o as int,
                    ));
                }
                last_row = row.clone();
                rows.push(row);
                if idx + 1 == lead_len {
                    proof {
                        lemma_lh_pow_valid(params, mi, wraps);
                        lemma_elem_head_valid(params, *elem);
                        crate::row::lemma_row_mul_assoc(
                            spec_elem_head(params, *elem),
                            lh_pow(params, mi, wraps),
                            params.methods@[mi].lead_head_transposition@,
                        );
                        assert((wraps + 1) * lead_len == wraps * lead_len + lead_len)
                            by (nonlinear_arith);
                    }
                    cur_head = cur_head.mul(&meth.lead_head_transposition);
                    proof {
                        wraps = wraps + 1;
                    }
                    idx = 0;
                } else {
                    idx += 1;
                }
                o += 1;
            }
            // The row standing just past this stretch: the next plain row,
            // or the last row pushed through the call's place notation.
            proof {
                assert((elem.start_sub_lead_idx + elem.length) / (lead_len as int) == wraps && (
                elem.start_sub_lead_idx + elem.length) % (lead_len as int) == idx)
                    by (nonlinear_arith)
                    requires
                        elem.start_sub_lead_idx + elem.length == wraps * lead_len + idx,
                        0 <= idx < lead_len,
                        wraps >= 0,
                        lead_len >= 1,
                ;
            }
            leftover = match elem.call_to_end {
                Some(c) => last_row.mul(&params.calls[c].place_notation),
                None => cur_head.mul(&meth.lead[idx]),
            };
            proof {
                assert(leftover@ == elem_leftover(params, self.path@[e as int]));
            }
            e += 1;
        }
        proof {
            assert(self.path@.take(n as int) =~= self.path@);
        }
        // Later parts repeat the first under the part transposition; the
        // part count is read off the stored length.
        let per_part = rows.len();
        let parts = if per_part > 0 && self.length % per_part == 0 && self.length / per_part >= 1 {
            self.length / per_part
        } else {
            1
        };
        proof {
            assert(parts == spec_parts(self));
            if per_part > 0 {
                assert((self.length / per_part) * per_part <= self.length) by (nonlinear_arith)
                    requires
                        per_part >= 1,
                ;
            }
        }
        if n >= 1 && parts > 1 {
            let start = self.path[0].start_row.clone();
            proof {
                assert(elem_fits(self.path@[0], params));
                crate::row::lemma_row_inv(start@);
                crate::row::lemma_row_mul_valid(leftover@, row_inv(start@));
            }
            let g = leftover.mul(&start.inv());
            let mut gp = g.clone();
            proof {
                // One application of the part transposition is the first
                // part's leftover pushed off the start row.
                crate::row::lemma_rounds_identity(g@);
                assert(part_pow(g@, 0, nb as int) == crate::row::rounds_seq(nb as int));
                assert(part_pow(g@, 1, nb as int) == row_mul(g@, part_pow(g@, 0, nb as int)));
                assert(gp@ == part_pow(g@, 1, nb as int));
            }
            let ghost fp_len: int = rows@.len() as int;
            let mut p: usize = 1;
            while p < parts
                invariant
                    1 <= p <= parts,
                    params.wf(),
                    nb == params.methods@[0].stage.spec_num_bells(),
                    per_part >= 1,
                    parts * per_part <= self.length <= crate::params::MAX_COMP_LENGTH,
                    fp_len == per_part,
                    rows@.len() == p * per_part,
                    n >= 1,
                    n == self.path@.len(),
                    start@ == self.path@[0].start_row@,
                    start.valid(),
                    start@.len() == nb,
                    g.valid(),
                    g@.len() == nb,
                    gp.valid(),
                    gp@.len() == nb,
                    gp@ == part_pow(g@, p as int, nb as int),
                    forall|i: int|
                        0 <= i < rows@.len() ==> (#[trigger] rows@[i]).valid() && rows@[i]@.len()
                            == nb,
                    rows@.len() >= 1 ==> rows@[0]@ == self.path@[0].start_row@,
                decreases parts - p,
            {
                let mut i: usize = 0;
                while i < per_part
                    invariant
                        i <= per_part,
                        1 <= p < parts,
                        per_part >= 1,
                        parts * per_part <= self.length <= crate::params::MAX_COMP_LENGTH,
                        rows@.len() == p * per_part + i,
                        nb == params.methods@[0].stage.spec_num_bells(),
                        n >= 1,
                        n == self.path@.len(),
                        gp.valid(),
                        gp@.len() == nb,
                        forall|j: int|
                            0 <= j < rows@.len() ==> (#[trigger] rows@[j]).valid()
                                && rows@[j]@.len() == nb,
                        rows@.len() >= 1 ==> rows@[0]@ == self.path@[0].start_row@,
                    decreases per_part - i,
                {
                    proof {
                        assert(p * per_part + i < parts * per_part && per_part <= p * per_part)
                            by (nonlinear_arith)
                            requires
                                1 <= p < parts,
                                0 <= i < per_part,
                        ;
                    }
                    let base = rows[i].clone();
                    let row = gp.mul(&base);
                    rows.push(row);
                    i += 1;
                }
                proof {
                    assert((p + 1) * per_part == p * per_part + per_part) by (nonlinear_arith);
                }
                gp = g.mul(&gp);
                p += 1;
            }
            leftover = gp.mul(&start);
            proof {
                assert(leftover@ == comp_leftover(params, self.path@, parts as int));
            }
        } else {
            proof {
                if n >= 1 {
                    // A one-part leftover already matches the spec: one
                    // application of the part transposition cancels the
                    // start row it was pushed off.
                    assert(parts == 1);
                    let sv = self.path@[0].start_row@;
                    assert(elem_fits(self.path@[0], params));
                    crate::row::lemma_row_inv(sv);
                    crate::row::lemma_row_mul_valid(leftover@, row_inv(sv));
                    let gv = row_mul(leftover@, row_inv(sv));
                    crate::row::lemma_rounds_identity(gv);
                    assert(part_pow(gv, 0, nb as int) == crate::row::rounds_seq(nb as int));
                    assert(part_pow(gv, 1, nb as int) == row_mul(gv, part_pow(gv, 0, nb as int)));
                    crate::row::lemma_row_mul_assoc(leftover@, row_inv(sv), sv);
                    crate::row::lemma_rounds_identity(leftover@);
                    assert(row_mul(gv, sv) == leftover@);
                    assert(comp_leftover(params, self.path@, 1) == leftover@);
                }
            }
        }
        proof {
            if per_part == 0 {
                assert(path_length(self.path@) * spec_parts(self) == 0) by (nonlinear_arith)
                    requires
                        path_length(self.path@) == 0,
                ;
            } else {
                assert(path_length(self.path@) * spec_parts(self) == spec_parts(self)
                    * path_length(self.path@)) by (nonlinear_arith);
                assert(rows@.len() == path_length(self.path@) * spec_parts(self))
                    by (nonlinear_arith)
                    requires
                        rows@.len() == spec_parts(self) * per_part,
                        per_part == path_length(self.path@),
                ;
            }
            // A valid composition's row count is its length, its first row
            // the start row, its leftover the end row.
            assert forall|np: int|
                np >= 1 && comp_valid(self, params, np) implies rows@.len() == self.length
                && rows@[0]@ == params.start_row@ && leftover@ == params.end_row@ by {
                lemma_path_length_lower(self.path@, params, self.path@.len() as int);
                assert(self.path@.take(self.path@.len() as int) =~= self.path@);
                let pp = path_length(self.path@);
                assert(pp >= 1);
                assert(self.length == pp * np);
                assert((self.length as int) % pp == 0 && (self.length as int) / pp == np)
                    by (nonlinear_arith)
                    requires
                        self.length == pp * np,
                        pp >= 1,
                        np >= 1,
                ;
                assert(spec_parts(self) == np);
                assert(rows@.len() == pp * np) by (nonlinear_arith)
                    requires
                        rows@.len() == pp * spec_parts(self),
                        spec_parts(self) == np,
                ;
                assert(rows@.len() >= 1) by (nonlinear_arith)
                    requires
                        rows@.len() == pp * np,
                        pp >= 1,
                        np >= 1,
                ;
            }
        }
        (rows, leftover)
    }

    /// The first row of the whole path: the start row of its first stretch,
    /// or rounds for an empty path.
    fn path_start_row(&self, params: &Parameters) -> (r: RowBuf)
        requires
            params.wf(),
            forall|i: int|
                0 <= i < self.path@.len() ==> elem_fits(#[trigger] self.path@[i], params),
        ensures
            r.valid(),
            r@.len() == params.methods@[0].stage.spec_num_bells(),
            self.path@.len() >= 1 ==> r@ == self.path@[0].start_row@,
    {
        if self.path.len() >= 1 {
            self.path[0].start_row.clone()
        } else {
            RowBuf::rounds(params.stage())
        }
    }
}

/// Whether a path element's fields fit the parameters: a real method, a
/// real sub-lead index, a valid start row of the right stage, and a sane
/// length.
pub open spec fn elem_fits(e: PathElem, params: &Parameters) -> bool {
    &&& 0 <= e.method < params.methods@.len()
    &&& e.start_sub_lead_idx < params.methods@[e.method as int].lead@.len()
    &&& valid_row(e.start_row@)
    &&& e.start_row@.len() == params.methods@[0].stage.spec_num_bells()
    &&& 1 <= e.length <= crate::params::MAX_COMP_LENGTH
}

/// A prefix's length never exceeds the whole path's.
pub proof fn lemma_path_length_prefix(path: Seq<PathElem>, k: int)
    requires
        0 <= k <= path.len(),
    ensures
        path_length(path.take(k)) <= path_length(path),
        k >= 1 ==> path_length(path.take(k)) == path_length(path.take(k - 1)) + path[k - 1].length,
    decreases path.len() - k,
{
    if k >= 1 {
        assert(path.take(k).drop_last() =~= path.take(k - 1));
        assert(path.take(k).last() == path[k - 1]);
    }
    if k < path.len() {
        lemma_path_length_prefix(path, k + 1);
    } else {
        assert(path.take(k) =~= path);
    }
}

/// Path lengths are non-negative and each element contributes at least
/// nothing.
pub proof fn lemma_path_length_bounds(path: Seq<PathElem>, k: int)
    requires
        0 <= k <= path.len(),
    ensures
        path_length(path.take(k)) >= 0,
    decreases k,
{
    if k > 0 {
        assert(path.take(k).drop_last() =~= path.take(k - 1));
        lemma_path_length_bounds(path, k - 1);
    }
}

/// The number of leads a chunk covers: one for the lead it starts in, plus
/// one for every further lead boundary it crosses.
pub fn num_leads_covered(lead_len: usize, start_sub_lead_idx: usize, length: usize) -> (r: usize)
    requires
        lead_len > 0,
        lead_len <= 65535,
        length > 0,
        start_sub_lead_idx < lead_len,
        length <= crate::params::MAX_COMP_LENGTH,
    ensures
        r == 1 + (if length > lead_len - start_sub_lead_idx {
            ((length - (lead_len - start_sub_lead_idx) + lead_len - 1) as int) / (lead_len as int)
        } else {
            0int
        }),
{
    let dist_to_end_of_first_lead = lead_len - start_sub_lead_idx;
    let rows_after_end_of_first_lead = if length > dist_to_end_of_first_lead {
        length - dist_to_end_of_first_lead
    } else {
        0
    };
    if rows_after_end_of_first_lead == 0 {
        1
    } else {
        crate::div_rounding_up(rows_after_end_of_first_lead, lead_len) + 1
    }
}


/// A character sequence repeated a number of times.
pub open spec fn repeat_chars(s: Seq<char>, n: int) -> Seq<char>
    decreases n,
{
    if n <= 0 {
        Seq::empty()
    } else {
        repeat_chars(s, n - 1) + s
    }
}

/// The number of leads a stretch covers, at the spec level; matches
/// [`num_leads_covered`].
pub open spec fn spec_num_leads_covered(lead_len: int, start: int, length: int) -> int {
    1 + if length > lead_len - start {
        (length - (lead_len - start) + lead_len - 1) / lead_len
    } else {
        0int
    }
}

/// The printed form of one stretch: its method shorthand once per lead
/// covered (when spliced or positional), then its call, bracketed when
/// needed, with the calling position of the calling bell in the row the
/// stretch hands over to.
pub open spec fn elem_chars(params: &Parameters, e: PathElem, row_after: Seq<u8>) -> Seq<char> {
    let spliced = params.methods@.len() > 1;
    let positional = params.call_display_style is Positional;
    let needs_brackets = spliced || positional;
    let m = params.methods@[e.method as int];
    let method_part = if spliced || positional {
        repeat_chars(
            m.shorthand@,
            spec_num_leads_covered(m.lead@.len() as int, e.start_sub_lead_idx as int, e.length as int),
        )
    } else {
        Seq::empty()
    };
    let call_part = match e.call_to_end {
        None => Seq::<char>::empty(),
        Some(c) => {
            let call = params.calls@[c as int];
            let inner = match params.call_display_style {
                CallDisplayStyle::Positional => call.symbol@,
                CallDisplayStyle::CallingPositions(bell) => call.symbol@ + calling_pos_chars(
                    call,
                    row_after,
                    bell.index,
                ),
            };
            if needs_brackets {
                seq!['['] + inner + seq![']']
            } else {
                inner
            }
        }
    };
    method_part + call_part
}

/// The calling-position name of the place a bell holds in a row, when the
/// call names that place.
pub open spec fn calling_pos_chars(call: crate::params::Call, row_after: Seq<u8>, bell: u8) -> Seq<
    char,
> {
    if exists|p: int| 0 <= p < row_after.len() && row_after[p] == bell {
        let p = choose|p: int| 0 <= p < row_after.len() && row_after[p] == bell;
        if 0 <= p < call.calling_positions@.len() {
            call.calling_positions@[p]@
        } else {
            Seq::empty()
        }
    } else {
        Seq::empty()
    }
}

/// The printed form of a whole path from some stretch onward; the row
/// handed over by the final stretch is the part head.
pub open spec fn path_chars(
    params: &Parameters,
    path: Seq<PathElem>,
    part_head: Seq<u8>,
    i: int,
) -> Seq<char>
    decreases path.len() - i,
    when 0 <= i <= path.len()
{
    if i >= path.len() {
        Seq::empty()
    } else {
        let row_after = if i + 1 < path.len() {
            path[i + 1].start_row@
        } else {
            part_head
        };
        elem_chars(params, path[i], row_after) + path_chars(params, path, part_head, i + 1)
    }
}

/// The whole composition string: a positional hash, a snap-start bracket,
/// every stretch, and a snap-finish bracket.
pub open spec fn call_string_spec(params: &Parameters, path: Seq<PathElem>, part_head: Seq<u8>) -> Seq<
    char,
> {
    let prefix = (if params.call_display_style is Positional {
        seq!['#']
    } else {
        Seq::<char>::empty()
    }) + (if path.len() > 0 && path[0].start_sub_lead_idx > 0 {
        seq!['<']
    } else {
        Seq::<char>::empty()
    });
    let suffix = if path.len() > 0 && (path[path.len() - 1].start_sub_lead_idx
        + path[path.len() - 1].length) % (
    params.methods@[path[path.len() - 1].method as int].lead@.len() as int) != 0 {
        seq!['>']
    } else {
        Seq::<char>::empty()
    };
    prefix + path_chars(params, path, part_head, 0) + suffix
}

impl Composition {
    /// The human-readable calling of this composition, as described by the
    /// composition string format: method shorthands per lead covered, call
    /// symbols with calling positions, snap starts and finishes bracketed.
    pub fn call_string(&self, params: &Parameters) -> (r: String)
        requires
            params.wf(),
            forall|i: int|
                0 <= i < self.path@.len() ==> elem_fits(#[trigger] self.path@[i], params),
            forall|i: int|
                0 <= i < self.path@.len() ==> ((#[trigger] self.path@[i]).call_to_end matches Some(
                    c,
                ) ==> c < params.calls@.len()),
            valid_row(self.part_head@),
            self.part_head@.len() == params.methods@[0].stage.spec_num_bells(),
        ensures
            r@ == call_string_spec(params, self.path@, self.part_head@),
    {
        let spliced = params.methods.len() > 1;
        let positional = matches!(params.call_display_style, CallDisplayStyle::Positional);
        let needs_brackets = spliced || positional;
        let mut out = String::new();
        if positional {
            proof {
                reveal_strlit("#");
            }
            out.append("#");
        }
        if self.path.len() > 0 && self.path[0].start_sub_lead_idx > 0 {
            proof {
                reveal_strlit("<");
            }
            out.append("<");
        }
        let ghost prefix = out@;
        proof {
            assert(out@ + path_chars(params, self.path@, self.part_head@, 0) =~= prefix
                + path_chars(params, self.path@, self.part_head@, 0));
        }
        let n = self.path.len();
        let mut i: usize = 0;
        while i < n
            invariant
                i <= n,
                n == self.path@.len(),
                params.wf(),
                spliced == (params.methods@.len() > 1),
                positional == (params.call_display_style is Positional),
                needs_brackets == (spliced || positional),
                forall|k: int|
                    0 <= k < self.path@.len() ==> elem_fits(#[trigger] self.path@[k], params),
                forall|k: int|
                    0 <= k < self.path@.len() ==> ((
                    #[trigger] self.path@[k]).call_to_end matches Some(c) ==> c
                        < params.calls@.len()),
                valid_row(self.part_head@),
                self.part_head@.len() == params.methods@[0].stage.spec_num_bells(),
                out@ + path_chars(params, self.path@, self.part_head@, i as int) == prefix
                    + path_chars(params, self.path@, self.part_head@, 0),
            decreases n - i,
        {
            let ghost out0 = out@;
            let elem = &self.path[i];
            let meth = &params.methods[elem.method];
            let ghost row_after: Seq<u8> = if i + 1 < n {
                self.path@[i as int + 1].start_row@
            } else {
                self.part_head@
            };
            // Method shorthands, once per lead covered.
            if spliced || positional {
                let nlc = num_leads_covered(meth.lead.len(), elem.start_sub_lead_idx, elem.length);
                proof {
                    assert(nlc == spec_num_leads_covered(
                        meth.lead@.len() as int,
                        elem.start_sub_lead_idx as int,
                        elem.length as int,
                    ));
                }
                let ghost before = out@;
                let mut rep: usize = 0;
                while rep < nlc
                    invariant
                        rep <= nlc,
                        *meth == params.methods@[elem.method as int],
                        out@ == before + repeat_chars(meth.shorthand@, rep as int),
                    decreases nlc - rep,
                {
                    out.append(meth.shorthand.as_str());
                    proof {
                        assert(out@ =~= before + repeat_chars(meth.shorthand@, rep + 1));
                    }
                    rep += 1;
                }
            }
            // The call closing this stretch, if any.
            match elem.call_to_end {
                Some(c) => {
                    let call = &params.calls[c];
                    if needs_brackets {
                        proof {
                            reveal_strlit("[");
                        }
                        out.append("[");
                    }
                    out.append(call.symbol.as_str());
                    match params.call_display_style {
                        CallDisplayStyle::CallingPositions(bell) => {
                            let row_after_exec: &RowBuf = if i + 1 < n {
                                &self.path[i + 1].start_row
                            } else {
                                &self.part_head
                            };
                            proof {
                                assert(row_after_exec@ == row_after);
                            }
                            match row_after_exec.place_of(bell) {
                                Some(p) => {
                                    proof {
                                        let pp = choose|pp: int|
                                            0 <= pp < row_after.len() && row_after[pp]
                                                == bell.index;
                                        assert(row_after[p as int] == bell.index);
                                        assert(pp == p);
                                    }
                                    if p < call.calling_positions.len() {
                                        out.append(call.calling_positions[p].as_str());
                                    }
                                }
                                None => {
                                    proof {
                                        assert(forall|pp: int|
                                            0 <= pp < row_after.len() ==> row_after[pp]
                                                != bell.index);
                                    }
                                }
                            }
                        }
                        CallDisplayStyle::Positional => {}
                    }
                    if needs_brackets {
                        proof {
                            reveal_strlit("]");
                        }
                        out.append("]");
                    }
                }
                None => {}
            }
            proof {
                assert(out@ =~= out0 + elem_chars(params, self.path@[i as int], row_after));
                assert(out@ + path_chars(params, self.path@, self.part_head@, i + 1) =~= prefix
                    + path_chars(params, self.path@, self.part_head@, 0));
            }
            i += 1;
        }
        // Snap finish.
        if n > 0 {
            let last = &self.path[n - 1];
            let meth = &params.methods[last.method];
            let end_idx = meth.add_sub_lead_idx(last.start_sub_lead_idx, last.length);
            if end_idx != 0 {
                proof {
                    reveal_strlit(">");
                }
                out.append(">");
            }
        }
        proof {
            assert(out@ =~= call_string_spec(params, self.path@, self.part_head@));
        }
        out
    }
}



/// A path of fitting elements has at least one row per element.
pub proof fn lemma_path_length_lower(path: Seq<PathElem>, params: &Parameters, k: int)
    requires
        0 <= k <= path.len(),
        forall|i: int| 0 <= i < path.len() ==> elem_fits(#[trigger] path[i], params),
    ensures
        path_length(path.take(k)) >= k,
    decreases k,
{
    if k > 0 {
        assert(path.take(k).drop_last() =~= path.take(k - 1));
        assert(path.take(k).last() == path[k - 1]);
        lemma_path_length_lower(path, params, k - 1);
    }
}

/// The total of the first `m` methods' path counts.
pub open spec fn counts_sum(path: Seq<PathElem>, m: int) -> int
    decreases m,
    when m >= 0
{
    if m <= 0 {
        0
    } else {
        counts_sum(path, m - 1) + path_method_count(path, m - 1)
    }
}

/// Dropping the last element removes exactly its contribution from the
/// counts total.
proof fn lemma_counts_sum_step(path: Seq<PathElem>, m: int)
    requires
        m >= 0,
        path.len() >= 1,
    ensures
        counts_sum(path, m) == counts_sum(path.drop_last(), m) + if path.last().method < m {
            path.last().length as int
        } else {
            0int
        },
    decreases m,
{
    if m > 0 {
        lemma_counts_sum_step(path, m - 1);
    }
}

/// The method-count law: over methods that cover every path element, the
/// per-method row counts add up to the whole path's length.
pub proof fn lemma_counts_cover_length(path: Seq<PathElem>, num_methods: int)
    requires
        num_methods >= 0,
        forall|k: int|
            0 <= k < path.len() ==> 0 <= (#[trigger] path[k]).method < num_methods,
    ensures
        counts_sum(path, num_methods) == path_length(path),
    decreases path.len(),
{
    if path.len() == 0 {
        lemma_counts_sum_empty(path, num_methods);
    } else {
        lemma_counts_sum_step(path, num_methods);
        lemma_counts_cover_length(path.drop_last(), num_methods);
    }
}

/// An empty path counts nothing for any method.
proof fn lemma_counts_sum_empty(path: Seq<PathElem>, m: int)
    requires
        m >= 0,
        path.len() == 0,
    ensures
        counts_sum(path, m) == 0,
    decreases m,
{
    if m > 0 {
        lemma_counts_sum_empty(path, m - 1);
    }
}

/// For a valid composition, the per-method counts cover the whole length:
/// their total, over all parts, is the composition's length.
pub proof fn lemma_comp_counts_cover(c: &Composition, params: &Parameters, num_parts: int)
    requires
        comp_valid(c, params, num_parts),
    ensures
        counts_sum(c.path@, params.methods@.len() as int) * num_parts == c.length,
{
    assert forall|k: int|
        0 <= k < c.path@.len() implies 0 <= (#[trigger] c.path@[k]).method
        < params.methods@.len() by {
        assert(elem_fits(c.path@[k], params));
    }
    lemma_counts_cover_length(c.path@, params.methods@.len() as int);
}

/// The boundary laws of lead counting: a whole lead from its head covers
/// one lead, a whole lead from a snap start covers two, and a run from a
/// snap start to the lead end covers one.
pub proof fn lemma_num_leads_boundaries(lead_len: int, k: int)
    requires
        1 <= lead_len,
        0 <= k < lead_len,
    ensures
        spec_num_leads_covered(lead_len, 0, lead_len) == 1,
        k > 0 ==> spec_num_leads_covered(lead_len, k, lead_len) == 2,
        lead_len - k > 0 ==> spec_num_leads_covered(lead_len, k, lead_len - k) == 1,
{
    if k > 0 {
        assert((k + lead_len - 1) / lead_len == 1) by (nonlinear_arith)
            requires
                1 <= lead_len && 0 < k < lead_len,
        ;
    }
}
} // verus!
