//! The best-first search: expands composition prefixes over the optimised
//! graph, streaming out every completed composition through a consumer.
//!
//! Everything a caller receives through [`Update::Comp`] went through
//! [`finalise_composition`], whose contract proves the completed-composition
//! laws: length in range, method counts in range, part-head rotations
//! closing, and truth.

use vstd::prelude::*;

use core::sync::atomic::{AtomicBool, Ordering};

use crate::builder::{build_graph, graph_falseness_exact, BuildError};
use crate::composition::{
    path_length, path_method_count, path_rotation, Composition, PathElem,
};
use crate::graph::{Chunk, ChunkId, Graph, LinkId, LinkSide};
use crate::optimise::{standard_passes, subgraph_of};
use crate::params::{IntRange, Parameters, MAX_COMP_LENGTH};
use crate::row::{rounds_seq, row_inv, row_mul, RowBuf};
use crate::utils::sat_add;

verus! {

/// How many search iterations pass between polls of the abort flag.
pub const ITERS_BETWEEN_ABORT_CHECKS: usize = 1024;

/// How many search iterations pass between progress reports.
pub const ITERS_BETWEEN_PROGRESS_UPDATES: usize = 16384;

/// The memory the accounting charges per queued prefix.
pub const PREFIX_BYTES: usize = 96;

/// The memory the accounting charges per stored path node.
pub const NODE_BYTES: usize = 48;

/// Configuration that affects how a search runs, never which compositions
/// it finds.
#[derive(Debug, Clone)]
pub struct Config {
    /// How many worker threads a caller may spin up; the search itself runs
    /// on the calling thread.
    pub thread_limit: Option<usize>,
    /// The most chunks a composition graph may hold before building gives
    /// up.
    pub graph_size_limit: usize,
    /// The most bytes of queue and path memory the search may use before
    /// truncating its queue.
    pub mem_limit: usize,
    /// Whether to leak the search's data structures on completion rather
    /// than dropping them.
    pub leak_search_memory: bool,
}

/// Relies on sysinfo::IS_SUPPORTED_SYSTEM: whether this platform can report
/// its memory at all.  A platform property, so nothing further is promised.
#[verifier::external_body]
fn sysinfo_supported() -> (r: bool) {
    sysinfo::IS_SUPPORTED_SYSTEM
}

/// Relies on sysinfo::System::available_memory: the bytes of memory the
/// machine reports as available.  The value depends on the machine and the
/// moment, so nothing is promised of it.
#[verifier::external_body]
fn sysinfo_available_memory() -> (r: u64) {
    sysinfo::System::new_all().available_memory()
}

/// The default memory limit for a given amount of available memory: four
/// fifths of it (or 5 GB when availability is unknown), but never closer
/// than 500 MB to the pointer-size ceiling.
pub fn mem_limit_from_available(available: Option<u64>) -> (r: usize)
    ensures
        ({
            let ideal: int = match available {
                Some(a) => a as int * 4 / 5,
                None => 5000000000,
            };
            let ceiling: int = usize::MAX as int - 500000000;
            r == if ideal < ceiling {
                ideal
            } else {
                ceiling
            } || (ceiling < 0 && r == 0)
        }),
{
    let ideal: u64 = match available {
        Some(a) => a / 5 * 4 + (a % 5) * 4 / 5,
        None => 5000000000,
    };
    proof {
        if let Some(a) = available {
            assert(a / 5 * 4 + (a % 5) * 4 / 5 == a * 4 / 5) by (nonlinear_arith);
        }
    }
    let ceiling_u128: u128 = usize::MAX as u128 - 500000000;
    if (ideal as u128) < ceiling_u128 {
        ideal as usize
    } else {
        (ceiling_u128 as u128) as usize
    }
}

impl Default for Config {
    /// The default configuration: a 100 000-chunk graph ceiling and a
    /// memory limit taken from the machine's available memory.
    fn default() -> (r: Self)
        ensures
            r.thread_limit is None,
            r.graph_size_limit == 100000,
            !r.leak_search_memory,
    {
        let available = if sysinfo_supported() {
            Some(sysinfo_available_memory())
        } else {
            None
        };
        Config {
            thread_limit: None,
            graph_size_limit: 100000,
            mem_limit: mem_limit_from_available(available),
            leak_search_memory: false,
        }
    }
}

/// How much of a search has happened so far.
#[derive(Debug, Clone, Copy)]
pub struct Progress {
    /// How many times the composing loop has run.
    pub iter_count: usize,
    /// How many compositions have been emitted.
    pub num_comps: usize,
    /// The current queue length.
    pub queue_len: usize,
    /// The average prefix length in the queue, rounded down.
    pub avg_length: usize,
    /// The longest prefix length in the queue.
    pub max_length: usize,
    /// Whether the queue is being truncated to save memory.
    pub truncating_queue: bool,
    /// Whether the search is aborting.
    pub aborting: bool,
}

/// A message from an in-progress search.
#[derive(Debug)]
pub enum Update {
    /// A new composition has been found.
    Comp(Composition),
    /// A status report.
    Progress(Progress),
    /// The search noticed the abort flag and is stopping.
    Aborting,
    /// The search has finished.
    Complete,
}

/// Something that receives the stream of updates from a search.
pub trait UpdateConsumer {
    /// Called once for every update, in order.
    fn on_update(&mut self, update: Update);
}

/// The ways preparing a search can fail.
#[derive(Clone, Copy, PartialEq, Eq, Structural, Debug)]
pub enum SearchError {
    /// The composition graph would exceed the configured size limit.
    GraphTooLarge,
    /// The parameters can never produce a composition.
    NoValidCompositionsPossible,
    /// Two rows or methods of different stages were mixed.
    IncompatibleStages,
    /// A method's requested count range cannot fit in the length range.
    MethodCountRangeExceedsLength,
    /// No start or no end is reachable.
    StartOrEndUnreachable,
}

/// The graph's falseness lists cover the row-sharing relation: whenever
/// two chunks share a row, each lists the other.  Lists may also hold
/// further pairs (a multi-part graph lists cross-part falseness too).
pub open spec fn graph_falseness_complete(g: &Graph, params: &Parameters) -> bool {
    &&& forall|i: int|
        0 <= i < g.chunk_ids@.len() ==> crate::builder::id_valid(
            params,
            (#[trigger] g.chunk_ids@[i])@,
        )
    &&& forall|i: int, j: int|
        0 <= i < g.chunk_ids@.len() && 0 <= j < g.chunk_ids@.len()
            && crate::builder::chunks_share_row(
            params,
            (#[trigger] g.chunk_ids@[i])@,
            (#[trigger] g.chunk_ids@[j])@,
        ) ==> crate::graph::fc_contains(g.chunks@[i].false_chunks@, g.chunk_ids@[j]@)
}

/// Exact falseness lists are in particular complete.
pub proof fn lemma_exact_implies_complete(g: &Graph, params: &Parameters)
    requires
        graph_falseness_exact(g, params),
        g.chunk_ids@.len() == g.chunks@.len(),
    ensures
        graph_falseness_complete(g, params),
{
}

/// What the search assumes of its graph: well-formed, falseness lists that
/// cover the row-sharing relation, and sane chunk lengths.
pub open spec fn search_graph_ok(g: &Graph, params: &Parameters) -> bool {
    &&& g.wf()
    &&& graph_falseness_complete(g, params)
    &&& forall|i: int|
        0 <= i < g.chunks@.len() ==> 1 <= (#[trigger] g.chunks@[i]).per_part_length <= 65535
}

/// A handle to a prepared search: validated parameters, a built and
/// optimised graph, and the configuration.
#[derive(Debug)]
pub struct Search {
    pub params: Parameters,
    pub config: Config,
    pub graph: Graph,
}

impl Search {
    /// What every prepared search satisfies.
    pub open spec fn wf(&self) -> bool {
        &&& self.params.wf()
        &&& search_graph_ok(&self.graph, &self.params)
        &&& self.graph.num_parts >= 1
    }
}

/// The chunk lengths survive optimisation.
proof fn lemma_lengths_preserved(g2: &Graph, g1: &Graph)
    requires
        subgraph_of(g2, g1),
        forall|i: int|
            0 <= i < g1.chunks@.len() ==> 1 <= (#[trigger] g1.chunks@[i]).per_part_length <= 65535,
    ensures
        forall|i: int|
            0 <= i < g2.chunks@.len() ==> 1 <= (#[trigger] g2.chunks@[i]).per_part_length <= 65535,
{
    assert forall|i: int| 0 <= i < g2.chunks@.len() implies 1 <= (
    #[trigger] g2.chunks@[i]).per_part_length <= 65535 by {
        assert(crate::optimise::carried_into(g2.chunk_ids@[i]@, g2.chunks@[i], g1));
        let k = choose|k: int|
            0 <= k < g1.chunks@.len() && (#[trigger] g1.chunk_ids@[k])@ == g2.chunk_ids@[i]@
                && crate::optimise::chunk_carried(g2.chunks@[i], g1.chunks@[k]);
        assert(1 <= g1.chunks@[k].per_part_length <= 65535);
    }
}

/// Falseness completeness survives optimisation: kept chunks keep their
/// lists, and sharing depends only on the ids.
pub proof fn lemma_completeness_preserved(g2: &Graph, g1: &Graph, params: &Parameters)
    requires
        subgraph_of(g2, g1),
        g1.chunk_ids@.len() == g1.chunks@.len(),
        graph_falseness_complete(g1, params),
    ensures
        graph_falseness_complete(g2, params),
{
    assert forall|i: int| 0 <= i < g2.chunk_ids@.len() implies crate::builder::id_valid(
        params,
        (#[trigger] g2.chunk_ids@[i])@,
    ) by {
        assert(crate::optimise::carried_into(g2.chunk_ids@[i]@, g2.chunks@[i], g1));
        let k = choose|k: int|
            0 <= k < g1.chunks@.len() && (#[trigger] g1.chunk_ids@[k])@ == g2.chunk_ids@[i]@
                && crate::optimise::chunk_carried(g2.chunks@[i], g1.chunks@[k]);
        assert(crate::builder::id_valid(params, g1.chunk_ids@[k]@));
    }
    assert forall|i: int, j: int|
        0 <= i < g2.chunk_ids@.len() && 0 <= j < g2.chunk_ids@.len()
            && crate::builder::chunks_share_row(
            params,
            (#[trigger] g2.chunk_ids@[i])@,
            (#[trigger] g2.chunk_ids@[j])@,
        ) implies crate::graph::fc_contains(
        g2.chunks@[i].false_chunks@,
        g2.chunk_ids@[j]@,
    ) by {
        assert(crate::optimise::carried_into(g2.chunk_ids@[i]@, g2.chunks@[i], g1));
        let ki = choose|k: int|
            0 <= k < g1.chunks@.len() && (#[trigger] g1.chunk_ids@[k])@ == g2.chunk_ids@[i]@
                && crate::optimise::chunk_carried(g2.chunks@[i], g1.chunks@[k]);
        assert(crate::optimise::carried_into(g2.chunk_ids@[j]@, g2.chunks@[j], g1));
        let kj = choose|k: int|
            0 <= k < g1.chunks@.len() && (#[trigger] g1.chunk_ids@[k])@ == g2.chunk_ids@[j]@
                && crate::optimise::chunk_carried(g2.chunks@[j], g1.chunks@[k]);
        crate::optimise::fc_contains_same(
            g2.chunks@[i].false_chunks@,
            g1.chunks@[ki].false_chunks@,
            g2.chunk_ids@[j]@,
        );
        assert(crate::builder::chunks_share_row(params, g1.chunk_ids@[ki]@, g1.chunk_ids@[kj]@));
        assert(crate::graph::fc_contains(g1.chunks@[ki].false_chunks@, g1.chunk_ids@[kj]@));
    }
}


/// Whether the chunks at two chain positions share a row.
pub open spec fn chain_share(
    params: &Parameters,
    ids: Seq<ChunkId>,
    chain: Seq<(usize, Option<usize>, u16)>,
    i2: int,
    j2: int,
) -> bool {
    crate::builder::share_idx(params, ids, chain[i2].0 as int, chain[j2].0 as int)
}

/// Whether a falseness list holds the given id.
pub(crate) fn fc_contains_exec(fc: &Vec<ChunkId>, id: &ChunkId) -> (r: bool)
    ensures
        r == crate::graph::fc_contains(fc@, id@),
{
    let n = fc.len();
    let mut i: usize = 0;
    while i < n
        invariant
            i <= n,
            n == fc@.len(),
            forall|j: int| 0 <= j < i ==> (#[trigger] fc@[j])@ != id@,
        decreases n - i,
    {
        if fc[i].eq_id(id) {
            proof {
                assert((fc@[i as int])@ == id@);
            }
            return true;
        }
        i += 1;
    }
    false
}


/// The rows one part of a chain covers: the per-part lengths of its chunks
/// summed.
pub open spec fn chain_length(g: &Graph, chain: Seq<(usize, Option<usize>, u16)>) -> int
    decreases chain.len(),
{
    if chain.len() == 0 {
        0
    } else {
        chain_length(g, chain.drop_last()) + g.chunks@[chain.last().0 as int].per_part_length
    }
}

/// The part-head rotations along a chain, summed.
pub open spec fn chain_rotation(chain: Seq<(usize, Option<usize>, u16)>) -> int
    decreases chain.len(),
{
    if chain.len() == 0 {
        0
    } else {
        chain_rotation(chain.drop_last()) + chain.last().2
    }
}

/// The per-part rows a chain gives one method.
pub open spec fn chain_method_count(
    g: &Graph,
    chain: Seq<(usize, Option<usize>, u16)>,
    m: int,
) -> int
    decreases chain.len(),
{
    if chain.len() == 0 {
        0
    } else {
        chain_method_count(g, chain.drop_last(), m) + if g.chunk_ids@[chain.last().0 as int]@.method
            == m {
            g.chunks@[chain.last().0 as int].per_part_length as int
        } else {
            0int
        }
    }
}

/// Whether two chain positions collide: they name the same chunk, or the
/// first chunk's falseness list names the second (which, for a multi-part
/// graph, includes cross-part collisions).
pub open spec fn chain_blocked(
    g: &Graph,
    chain: Seq<(usize, Option<usize>, u16)>,
    i: int,
    j: int,
) -> bool {
    ||| chain[i].0 == chain[j].0
    ||| crate::graph::fc_contains(
        g.chunks@[chain[i].0 as int].false_chunks@,
        g.chunk_ids@[chain[j].0 as int]@,
    )
}

/// The first row of a chunk: its lead row at its offset, under its lead
/// head.
pub open spec fn chunk_first_row(g: &Graph, params: &Parameters, idx: int) -> Seq<u8> {
    row_mul(
        g.chunk_ids@[idx]@.lead_head,
        params.methods@[g.chunk_ids@[idx]@.method].lead@[g.chunk_ids@[idx]@.sub_lead_idx]@,
    )
}

/// The row a chain's whole composition leaves off at, over all parts.
pub open spec fn chain_leftover(
    g: &Graph,
    params: &Parameters,
    chain: Seq<(usize, Option<usize>, u16)>,
    parts: int,
) -> Seq<u8> {
    let s = chunk_first_row(g, params, chain[0].0 as int);
    let last = chain[chain.len() - 1].0 as int;
    let t = crate::composition::stretch_leftover(
        params,
        g.chunk_ids@[last]@.lead_head,
        g.chunk_ids@[last]@.method,
        g.chunk_ids@[last]@.sub_lead_idx,
        g.chunks@[last].per_part_length as int,
        match chain[chain.len() - 1].1 {
            Some(c) => Some(c as int),
            None => None,
        },
    );
    row_mul(
        crate::composition::part_pow(row_mul(t, row_inv(s)), parts, s.len() as int),
        s,
    )
}

/// Whether the chain's first chunk is one a start link enters.
pub open spec fn chain_starts_ok(g: &Graph, chain: Seq<(usize, Option<usize>, u16)>) -> bool {
    exists|s: int|
        0 <= s < g.starts@.len() && (#[trigger] g.starts@[s]).1@ == g.chunk_ids@[chain[0].0 as int]@
}

/// Whether one end entry closes the chain: it names the chain's last
/// chunk, and its link carries the same call and rotation.
pub open spec fn end_entry_matches(
    g: &Graph,
    chain: Seq<(usize, Option<usize>, u16)>,
    e: int,
) -> bool {
    &&& g.ends@[e].1@ == g.chunk_ids@[chain[chain.len() - 1].0 as int]@
    &&& (g.links.spec_get(g.ends@[e].0.0 as int) matches Some(l) && l.call == chain[
        chain.len() - 1
    ].1 && l.ph_rotation == chain[chain.len() - 1].2)
}

/// Whether the chain's last entry leaves through an end link: some end
/// names its chunk, with the same call and rotation.
pub open spec fn chain_ends_ok(g: &Graph, chain: Seq<(usize, Option<usize>, u16)>) -> bool {
    exists|e: int| 0 <= e < g.ends@.len() && #[trigger] end_entry_matches(g, chain, e)
}

/// Whether the chain visits every chunk the graph marks as required.
pub open spec fn chain_covers_required(g: &Graph, chain: Seq<(usize, Option<usize>, u16)>) -> bool {
    forall|c: int|
        0 <= c < g.chunks@.len() && (#[trigger] g.chunks@[c]).required ==> exists|i: int|
            0 <= i < chain.len() && (#[trigger] chain[i]).0 == c
}

/// Why [`finalise_composition`] refuses a chain: it answers `None` only
/// when at least one of these completion gates fails.
pub open spec fn chain_refused(
    g: &Graph,
    params: &Parameters,
    chain: Seq<(usize, Option<usize>, u16)>,
) -> bool {
    ||| chain.len() == 0
    ||| exists|i: int|
        0 <= i < chain.len() && ((#[trigger] chain[i]).1 matches Some(c) && c
            >= params.calls@.len())
    ||| !params.length.spec_contains(chain_length(g, chain) * g.num_parts)
    ||| chain_rotation(chain) > MAX_COMP_LENGTH
    ||| chain_rotation(chain) % (g.num_parts as int) != 0
    ||| exists|m: int|
        0 <= m < params.methods@.len() && !params.method_count_ranges@[m].spec_contains(
            #[trigger] chain_method_count(g, chain, m) * g.num_parts,
        )
    ||| exists|i: int, j: int| 0 <= i < j < chain.len() && #[trigger] chain_blocked(g, chain, i, j)
    ||| !chain_starts_ok(g, chain)
    ||| !chain_ends_ok(g, chain)
    ||| !chain_covers_required(g, chain)
    ||| chunk_first_row(g, params, chain[0].0 as int) != params.start_row@
    ||| chain_leftover(g, params, chain, g.num_parts as int) != params.end_row@
}

/// Taking one more chain entry adds exactly its contribution.
proof fn lemma_chain_take_step(
    g: &Graph,
    chain: Seq<(usize, Option<usize>, u16)>,
    k: int,
    m: int,
)
    requires
        0 <= k < chain.len(),
    ensures
        chain_length(g, chain.take(k + 1)) == chain_length(g, chain.take(k))
            + g.chunks@[chain[k].0 as int].per_part_length,
        chain_rotation(chain.take(k + 1)) == chain_rotation(chain.take(k)) + chain[k].2,
        chain_method_count(g, chain.take(k + 1), m) == chain_method_count(g, chain.take(k), m)
            + if g.chunk_ids@[chain[k].0 as int]@.method == m {
            g.chunks@[chain[k].0 as int].per_part_length as int
        } else {
            0int
        },
{
    assert(chain.take(k + 1).drop_last() =~= chain.take(k));
    assert(chain.take(k + 1).last() == chain[k]);
}

/// A chain prefix never covers more rows or rotation than the whole chain.
proof fn lemma_chain_prefix_bounds(g: &Graph, chain: Seq<(usize, Option<usize>, u16)>, k: int)
    requires
        0 <= k <= chain.len(),
    ensures
        chain_length(g, chain.take(k)) <= chain_length(g, chain),
        chain_rotation(chain.take(k)) <= chain_rotation(chain),
    decreases chain.len() - k,
{
    if k < chain.len() {
        lemma_chain_take_step(g, chain, k, 0);
        lemma_chain_prefix_bounds(g, chain, k + 1);
    } else {
        assert(chain.take(k) =~= chain);
    }
}

/// Turns a finished chain of chunks into a composition, or refuses it.
/// Every composition this returns satisfies the completed-composition laws
/// in [`comp_valid`]: length and method counts in their ranges, part-head
/// rotations summing to zero modulo the part count, and no two path
/// elements sharing a row; no two chain positions collide even through a
/// multi-part graph's cross-part falseness lists.  A chain is refused only
/// for one of the reasons [`chain_refused`] names.
pub fn finalise_composition(
    graph: &Graph,
    params: &Parameters,
    chain: &Vec<(usize, Option<usize>, u16)>,
    generation_number: usize,
) -> (r: Option<Composition>)
    requires
        params.wf(),
        search_graph_ok(graph, params),
        forall|i: int| 0 <= i < chain@.len() ==> (#[trigger] chain@[i]).0 < graph.chunks@.len(),
    ensures
        match r {
            Some(c) => crate::composition::comp_valid(&c, params, graph.num_parts as int)
                && c.generation_number == generation_number && chain_starts_ok(graph, chain@)
                && chain_ends_ok(graph, chain@) && chain_covers_required(graph, chain@)
                && forall|i: int, j: int|
                0 <= i < j < chain@.len() ==> !#[trigger] chain_blocked(graph, chain@, i, j),
            None => chain_refused(graph, params, chain@),
        },
{
    let n = chain.len();
    if n == 0 {
        proof {
            assert(chain_refused(graph, params, chain@));
        }
        return None;
    }
    let num_parts = graph.num_parts;

    // Build the path elements and the per-part totals.
    let mut path: Vec<PathElem> = Vec::new();
    let mut per_part_len: usize = 0;
    let mut rot_sum: usize = 0;
    let mut counts: Vec<usize> = Vec::new();
    let num_methods = params.methods.len();
    let mut z: usize = 0;
    while z < num_methods
        invariant
            z <= num_methods,
            counts@.len() == z,
            forall|m: int| 0 <= m < z ==> counts@[m] == 0,
        decreases num_methods - z,
    {
        counts.push(0);
        z += 1;
    }
    let mut score: i64 = 0;
    let mut music_counts: Vec<usize> = Vec::new();
    let num_types = params.music_types.len();
    let mut z2: usize = 0;
    while z2 < num_types
        invariant
            z2 <= num_types,
            music_counts@.len() == z2,
        decreases num_types - z2,
    {
        music_counts.push(0);
        z2 += 1;
    }
    let mut total_duffer_per_part: usize = 0;
    let mut contiguous_duffer_lengths: Vec<usize> = Vec::new();
    let mut current_duffer_run: usize = 0;

    let mut i: usize = 0;
    while i < n
        invariant
            i <= n,
            n == chain@.len(),
            params.wf(),
            search_graph_ok(graph, params),
            forall|k: int| 0 <= k < chain@.len() ==> (#[trigger] chain@[k]).0 < graph.chunks@.len(),
            num_parts == graph.num_parts,
            num_methods == params.methods@.len(),
            counts@.len() == num_methods,
            music_counts@.len() == num_types,
            path@.len() == i,
            per_part_len == path_length(path@),
            per_part_len == chain_length(graph, chain@.take(i as int)),
            per_part_len <= MAX_COMP_LENGTH + 65535,
            rot_sum == path_rotation(path@),
            rot_sum == chain_rotation(chain@.take(i as int)),
            rot_sum <= MAX_COMP_LENGTH + 65535,
            forall|m: int| 0 <= m < num_methods ==> (#[trigger] counts@[m]) <= per_part_len,
            forall|m: int|
                0 <= m < num_methods ==> (#[trigger] counts@[m]) == path_method_count(path@, m)
                    && counts@[m] == chain_method_count(graph, chain@.take(i as int), m),
            forall|k: int|
                0 <= k < i ==> (#[trigger] path@[k]).spec_chunk_id(params)
                    == graph.chunk_ids@[chain@[k].0 as int]@,
            forall|k: int| 0 <= k < i ==> (#[trigger] path@[k]).ph_rotation == chain@[k].2,
            forall|k: int|
                0 <= k < i ==> (#[trigger] path@[k]).start_row@ == chunk_first_row(
                    graph,
                    params,
                    chain@[k].0 as int,
                ),
            forall|k: int|
                0 <= k < i ==> (#[trigger] path@[k]).length == graph.chunks@[chain@[k].0 as int].per_part_length
                    && path@[k].call_to_end == chain@[k].1,
            forall|k: int|
                0 <= k < i ==> 1 <= (#[trigger] path@[k]).length <= 65535,
            forall|k: int|
                0 <= k < i ==> crate::composition::elem_fits(#[trigger] path@[k], params),
            forall|k: int|
                0 <= k < i ==> ((#[trigger] path@[k]).call_to_end matches Some(cl) ==> cl
                    < params.calls@.len()),
        decreases n - i,
    {
        let (idx, call, rot) = (chain[i].0, chain[i].1, chain[i].2);
        let id = &graph.chunk_ids[idx];
        let chunk = &graph.chunks[idx];
        proof {
            assert(crate::builder::id_valid(params, graph.chunk_ids@[idx as int]@));
        }
        let m_idx = id.row_idx.method;
        let sl = id.row_idx.sub_lead_idx;
        let meth = &params.methods[m_idx];
        let start_row = id.lead_head.mul(&meth.lead[sl]);
        let elem = PathElem {
            start_row,
            method: m_idx,
            start_sub_lead_idx: sl,
            length: chunk.per_part_length,
            call_to_end: call,
            ph_rotation: rot,
        };
        proof {
            // The element's reconstructed chunk id is the chunk it came
            // from: composing with the lead row and back cancels.
            let h = id@.lead_head;
            let ls = params.methods@[m_idx as int].lead@[sl as int]@;
            crate::row::lemma_row_inv(ls);
            crate::row::lemma_row_mul_valid(h, ls);
            crate::row::lemma_row_mul_assoc(h, ls, row_inv(ls));
            crate::row::lemma_rounds_identity(h);
            assert(row_mul(row_mul(h, ls), row_inv(ls)) == h);
            assert(elem.spec_chunk_id(params) == graph.chunk_ids@[idx as int]@);
        }
        // A call index beyond the call list can name no real call.
        match call {
            Some(cidx) => {
                if cidx >= params.calls.len() {
                    proof {
                        assert(chain@[i as int].1 matches Some(c) && c >= params.calls@.len());
                    }
                    return None;
                }
            }
            None => {}
        }
        // Per-part length, rotation and method counts.  Chains too long to
        // matter are refused outright: the whole chain then covers more
        // rows (or rotation) than any acceptable length.
        if per_part_len > MAX_COMP_LENGTH || rot_sum > MAX_COMP_LENGTH {
            proof {
                lemma_chain_prefix_bounds(graph, chain@, i as int);
                if per_part_len > MAX_COMP_LENGTH {
                    assert(chain_length(graph, chain@) > MAX_COMP_LENGTH);
                    assert(chain_length(graph, chain@) * graph.num_parts >= chain_length(
                        graph,
                        chain@,
                    )) by (nonlinear_arith)
                        requires
                            graph.num_parts >= 1,
                            chain_length(graph, chain@) >= 0,
                    ;
                    assert(!params.length.spec_contains(
                        chain_length(graph, chain@) * graph.num_parts,
                    ));
                } else {
                    assert(chain_rotation(chain@) > MAX_COMP_LENGTH);
                }
            }
            return None;
        }
        let ghost path0 = path@;
        path.push(elem);
        proof {
            assert(path@.drop_last() =~= path0);
        }
        per_part_len = per_part_len + chunk.per_part_length;
        rot_sum = rot_sum + rot as usize;
        let c_m = counts[m_idx];
        counts.set(m_idx, c_m + chunk.per_part_length);
        proof {
            assert forall|m: int| 0 <= m < num_methods implies (#[trigger] counts@[m])
                == path_method_count(path@, m) && counts@[m] == chain_method_count(
                graph,
                chain@.take(i + 1),
                m,
            ) by {
                lemma_chain_take_step(graph, chain@, i as int, m);
                if m == m_idx {
                } else {
                }
            }
            lemma_chain_take_step(graph, chain@, i as int, 0);
            assert(crate::composition::elem_fits(elem, params));
        }
        // Score and music counts (no law constrains these; they are
        // reported as computed).
        score = sat_add(score, chunk.music.score);
        match call {
            Some(c) => {
                if c < params.calls.len() {
                    score = sat_add(score, params.calls[c].weight);
                }
            }
            None => {}
        }
        let mut t: usize = 0;
        while t < num_types
            invariant
                t <= num_types,
                music_counts@.len() == num_types,
                idx < graph.chunks@.len(),
                chunk == &graph.chunks@[idx as int],
            decreases num_types - t,
        {
            if t < chunk.music.counts.len() {
                let a = music_counts[t];
                let b = chunk.music.counts[t];
                music_counts.set(
                    t,
                    match a.checked_add(b) {
                        Some(v) => v,
                        None => usize::MAX,
                    },
                );
            }
            t += 1;
        }
        // Duffer accounting.
        if chunk.duffer {
            total_duffer_per_part = match total_duffer_per_part.checked_add(
                chunk.per_part_length,
            ) {
                Some(v) => v,
                None => usize::MAX,
            };
            current_duffer_run = match current_duffer_run.checked_add(chunk.per_part_length) {
                Some(v) => v,
                None => usize::MAX,
            };
        } else {
            if current_duffer_run > 0 {
                contiguous_duffer_lengths.push(current_duffer_run);
                current_duffer_run = 0;
            }
        }
        i += 1;
    }
    if current_duffer_run > 0 {
        contiguous_duffer_lengths.push(current_duffer_run);
    }
    proof {
        assert(path@.len() == n);
        assert(chain@.take(n as int) =~= chain@);
    }

    // Gate: total length must lie in the requested range.
    let total_length = match per_part_len.checked_mul(num_parts) {
        Some(v) => v,
        None => {
            proof {
                assert(chain_length(graph, chain@) * graph.num_parts > usize::MAX);
                assert(!params.length.spec_contains(
                    chain_length(graph, chain@) * graph.num_parts,
                ));
            }
            return None;
        }
    };
    if !params.length.contains(total_length) {
        proof {
            assert(!params.length.spec_contains(chain_length(graph, chain@) * graph.num_parts));
        }
        return None;
    }
    // Gate: every method's count must lie in its requested range.
    let mut final_counts: Vec<usize> = Vec::new();
    let mut m: usize = 0;
    while m < num_methods
        invariant
            m <= num_methods,
            num_methods == params.methods@.len(),
            params.wf(),
            counts@.len() == num_methods,
            final_counts@.len() == m,
            forall|m2: int|
                0 <= m2 < num_methods ==> (#[trigger] counts@[m2]) == path_method_count(path@, m2)
                    && counts@[m2] == chain_method_count(graph, chain@, m2),
            forall|m2: int|
                0 <= m2 < m ==> (#[trigger] final_counts@[m2]) == path_method_count(path@, m2)
                    * graph.num_parts && params.method_count_ranges@[m2].spec_contains(
                    final_counts@[m2] as int,
                ),
            num_parts == graph.num_parts,
        decreases num_methods - m,
    {
        let total_m = match counts[m].checked_mul(num_parts) {
            Some(v) => v,
            None => {
                proof {
                    assert(chain_method_count(graph, chain@, m as int) * graph.num_parts
                        > usize::MAX);
                    assert(!params.method_count_ranges@[m as int].spec_contains(
                        chain_method_count(graph, chain@, m as int) * graph.num_parts,
                    ));
                }
                return None;
            }
        };
        if !params.method_count_ranges[m].contains(total_m) {
            proof {
                assert(!params.method_count_ranges@[m as int].spec_contains(
                    chain_method_count(graph, chain@, m as int) * graph.num_parts,
                ));
            }
            return None;
        }
        final_counts.push(total_m);
        m += 1;
    }
    // Gate: the part-head rotations must close.
    if num_parts == 0 || rot_sum % num_parts != 0 {
        proof {
            assert(graph.num_parts >= 1);
            assert(chain_rotation(chain@) % (graph.num_parts as int) != 0);
        }
        return None;
    }
    // Gate: truth.  No two chunks of the chain may collide: the same chunk
    // twice, or one listed false against the other (which, in a multi-part
    // graph, includes cross-part collisions).
    let mut a: usize = 0;
    while a < n
        invariant
            a <= n,
            n == chain@.len(),
            params.wf(),
            search_graph_ok(graph, params),
            forall|k: int| 0 <= k < chain@.len() ==> (#[trigger] chain@[k]).0 < graph.chunks@.len(),
            forall|i2: int, j2: int|
                0 <= i2 < j2 < n && i2 < a ==> !#[trigger] chain_blocked(graph, chain@, i2, j2),
        decreases n - a,
    {
        let mut b: usize = a + 1;
        while b < n
            invariant
                a < b <= n || (a + 1 == b && b >= n),
                a < n,
                n == chain@.len(),
                params.wf(),
                search_graph_ok(graph, params),
                forall|k: int|
                    0 <= k < chain@.len() ==> (#[trigger] chain@[k]).0 < graph.chunks@.len(),
                forall|i2: int, j2: int|
                    0 <= i2 < j2 < n && i2 < a ==> !#[trigger] chain_blocked(
                        graph,
                        chain@,
                        i2,
                        j2,
                    ),
                forall|j2: int|
                    a < j2 < b ==> !#[trigger] chain_blocked(graph, chain@, a as int, j2),
            decreases n - b,
        {
            let ca = chain[a].0;
            let cb = chain[b].0;
            if ca == cb {
                proof {
                    assert(chain_blocked(graph, chain@, a as int, b as int));
                }
                return None;
            }
            if fc_contains_exec(&graph.chunks[ca].false_chunks, &graph.chunk_ids[cb]) {
                proof {
                    assert(chain_blocked(graph, chain@, a as int, b as int));
                }
                return None;
            }
            proof {
                assert(!chain_blocked(graph, chain@, a as int, b as int));
            }
            b += 1;
        }
        a += 1;
    }

    proof {
        // A surviving pair is not even list-blocked, so by the lists'
        // completeness it shares no row.
        assert forall|i2: int, j2: int|
            0 <= i2 < j2 < n implies !chain_share(params, graph.chunk_ids@, chain@, i2, j2) by {
            assert(!chain_blocked(graph, chain@, i2, j2));
            if chain_share(params, graph.chunk_ids@, chain@, i2, j2) {
                assert(crate::graph::fc_contains(
                    graph.chunks@[chain@[i2].0 as int].false_chunks@,
                    graph.chunk_ids@[chain@[j2].0 as int]@,
                ));
                assert(false);
            }
        }
        assert forall|i2: int, j2: int|
            0 <= i2 < path@.len() && 0 <= j2 < path@.len() && i2
                != j2 implies !crate::builder::chunks_share_row(
            params,
            (#[trigger] path@[i2]).spec_chunk_id(params),
            (#[trigger] path@[j2]).spec_chunk_id(params),
        ) by {
            if i2 < j2 {
                assert(!chain_share(params, graph.chunk_ids@, chain@, i2, j2));
            } else {
                assert(!chain_share(params, graph.chunk_ids@, chain@, j2, i2));
                if crate::builder::chunks_share_row(
                    params,
                    path@[i2].spec_chunk_id(params),
                    path@[j2].spec_chunk_id(params),
                ) {
                    crate::builder::lemma_share_symmetric(
                        params,
                        path@[i2].spec_chunk_id(params),
                        path@[j2].spec_chunk_id(params),
                    );
                    assert(false);
                }
            }
        }
    }
    // Gate: the chain must enter through a start link.
    let first_chunk = chain[0].0;
    let mut starts_ok = false;
    let mut si: usize = 0;
    while si < graph.starts.len()
        invariant
            si <= graph.starts@.len(),
            search_graph_ok(graph, params),
            first_chunk < graph.chunks@.len(),
            first_chunk == chain@[0].0,
            n == chain@.len() >= 1,
            starts_ok ==> chain_starts_ok(graph, chain@),
            !starts_ok ==> forall|s2: int|
                0 <= s2 < si ==> (#[trigger] graph.starts@[s2]).1@ != graph.chunk_ids@[
                    chain@[0].0 as int
                ]@,
        decreases graph.starts@.len() - si,
    {
        if graph.starts[si].1.eq_id(&graph.chunk_ids[first_chunk]) {
            proof {
                assert((graph.starts@[si as int]).1@ == graph.chunk_ids@[chain@[0].0 as int]@);
            }
            starts_ok = true;
        }
        si += 1;
    }
    if !starts_ok {
        return None;
    }
    // Gate: the chain must leave through an end link with this call and
    // rotation.
    let (last_chunk, last_call, last_rot) = (chain[n - 1].0, chain[n - 1].1, chain[n - 1].2);
    let mut ends_ok = false;
    let mut ei: usize = 0;
    while ei < graph.ends.len()
        invariant
            ei <= graph.ends@.len(),
            search_graph_ok(graph, params),
            last_chunk < graph.chunks@.len(),
            n == chain@.len() >= 1,
            last_chunk == chain@[n - 1].0,
            last_call == chain@[n - 1].1,
            last_rot == chain@[n - 1].2,
            ends_ok ==> chain_ends_ok(graph, chain@),
            !ends_ok ==> forall|e2: int|
                0 <= e2 < ei ==> !#[trigger] end_entry_matches(graph, chain@, e2),
        decreases graph.ends@.len() - ei,
    {
        let id_matches = graph.ends[ei].1.eq_id(&graph.chunk_ids[last_chunk]);
        if id_matches {
            match graph.links.get(graph.ends[ei].0) {
                Some(l) => {
                    let call_matches = match (l.call, last_call) {
                        (None, None) => true,
                        (Some(c1), Some(c2)) => c1 == c2,
                        _ => false,
                    };
                    if call_matches && l.ph_rotation == last_rot {
                        proof {
                            assert(end_entry_matches(graph, chain@, ei as int));
                        }
                        ends_ok = true;
                    } else {
                        proof {
                            assert(!end_entry_matches(graph, chain@, ei as int));
                        }
                    }
                }
                None => {
                    proof {
                        assert(!end_entry_matches(graph, chain@, ei as int));
                    }
                }
            }
        } else {
            proof {
                assert(!end_entry_matches(graph, chain@, ei as int));
            }
        }
        ei += 1;
    }
    if !ends_ok {
        proof {
            assert(!chain_ends_ok(graph, chain@));
        }
        return None;
    }
    // Gate: every required chunk must appear in the chain.
    let mut rc: usize = 0;
    while rc < graph.chunks.len()
        invariant
            rc <= graph.chunks@.len(),
            search_graph_ok(graph, params),
            n == chain@.len(),
            forall|k: int| 0 <= k < chain@.len() ==> (#[trigger] chain@[k]).0 < graph.chunks@.len(),
            forall|c: int|
                0 <= c < rc && (#[trigger] graph.chunks@[c]).required ==> exists|i2: int|
                    0 <= i2 < chain@.len() && (#[trigger] chain@[i2]).0 == c,
        decreases graph.chunks@.len() - rc,
    {
        if graph.chunks[rc].required {
            let mut found = false;
            let mut ci: usize = 0;
            while ci < n
                invariant
                    ci <= n,
                    n == chain@.len(),
                    rc < graph.chunks@.len(),
                    found ==> exists|i2: int|
                        0 <= i2 < chain@.len() && (#[trigger] chain@[i2]).0 == rc,
                    !found ==> forall|i2: int| 0 <= i2 < ci ==> (#[trigger] chain@[i2]).0 != rc,
                decreases n - ci,
            {
                if chain[ci].0 == rc {
                    proof {
                        assert((chain@[ci as int]).0 == rc);
                    }
                    found = true;
                }
                ci += 1;
            }
            if !found {
                proof {
                    assert(!chain_covers_required(graph, chain@));
                }
                return None;
            }
        }
        rc += 1;
    }

    // Gate: the composition must begin at the requested start row.
    if !(path[0].start_row == params.start_row) {
        proof {
            assert(chunk_first_row(graph, params, chain@[0].0 as int) != params.start_row@);
        }
        return None;
    }
    let part_head = if num_parts == 1 {
        RowBuf::rounds(params.stage())
    } else {
        params.part_head.clone()
    };
    let comp = Composition {
        generation_number,
        path,
        length: total_length,
        part_head,
        total_score: score,
        method_counts: final_counts,
        music_counts,
        contiguous_duffer_lengths,
        total_duffer: match total_duffer_per_part.checked_mul(num_parts) {
            Some(v) => v,
            None => usize::MAX,
        },
    };
    // Gate: rebuilt over all parts, the composition must leave off exactly
    // at the requested end row.
    proof {
        assert(per_part_len <= total_length) by (nonlinear_arith)
            requires
                total_length == per_part_len * num_parts,
                num_parts >= 1,
                per_part_len >= 0,
        ;
        assert(crate::composition::spec_parts(&comp) == graph.num_parts as int) by {
            crate::composition::lemma_path_length_lower(
                comp.path@,
                params,
                comp.path@.len() as int,
            );
            assert(comp.path@.take(comp.path@.len() as int) =~= comp.path@);
            let pp = crate::composition::path_length(comp.path@);
            assert(pp == per_part_len as int);
            assert((comp.length as int) % pp == 0 && (comp.length as int) / pp
                == graph.num_parts as int) by (nonlinear_arith)
                requires
                    comp.length == pp * (graph.num_parts as int),
                    pp >= 1,
                    graph.num_parts >= 1,
            ;
        }
        // The path-level leftover is the chain-level one: the last
        // element's head, position, length and call all come from its
        // chunk.
        let lastk = comp.path@.len() - 1;
        assert(crate::composition::spec_elem_head(params, comp.path@[lastk])
            == graph.chunk_ids@[chain@[lastk].0 as int]@.lead_head);
        assert(crate::composition::comp_leftover(
            params,
            comp.path@,
            graph.num_parts as int,
        ) == chain_leftover(graph, params, chain@, graph.num_parts as int));
    }
    let leftover = comp.rows(params).1;
    if !(leftover == params.end_row) {
        proof {
            assert(chain_leftover(graph, params, chain@, graph.num_parts as int)
                != params.end_row@);
        }
        return None;
    }
    proof {
        assert(crate::composition::comp_valid(&comp, params, graph.num_parts as int));
    }
    Some(comp)
}


/// Whether every method's requested minimum count fits inside the longest
/// acceptable composition.
pub open spec fn count_ranges_fit(params: &Parameters) -> bool {
    forall|m: int|
        0 <= m < params.method_count_ranges@.len() ==> (
        #[trigger] params.method_count_ranges@[m]).min <= params.length.max
}

/// Checks that the parameters make sense, establishing everything the
/// builder and search assume of them.  Acceptance is exact: the parameters
/// pass exactly when they are well-formed and every count range fits.
pub fn validate_params(params: &Parameters) -> (r: Result<(), SearchError>)
    ensures
        r is Ok <==> params.wf() && count_ranges_fit(params),
        r == Result::<(), SearchError>::Err(SearchError::MethodCountRangeExceedsLength)
            ==> !count_ranges_fit(params),
        (r matches Err(e) && !(e is MethodCountRangeExceedsLength)) ==> !params.wf(),
        r matches Err(e) ==> !(e is GraphTooLarge) && !(e is StartOrEndUnreachable),
{
    let num_methods = params.methods.len();
    if num_methods == 0 || num_methods > 65535 {
        proof {
            assert(!params.wf());
        }
        return Err(SearchError::NoValidCompositionsPossible);
    }
    if params.calls.len() > 65535 {
        proof {
            assert(!params.wf());
        }
        return Err(SearchError::NoValidCompositionsPossible);
    }
    let stage = params.methods[0].stage;
    if !stage.is_valid() {
        proof {
            if params.wf() {
                assert(params.methods@[0].wf());
                assert(false);
            }
        }
        return Err(SearchError::IncompatibleStages);
    }
    let n = stage.num_bells();
    let mut m: usize = 0;
    while m < num_methods
        invariant
            m <= num_methods,
            num_methods == params.methods@.len(),
            stage == params.methods@[0].stage,
            stage.spec_is_valid(),
            n == stage.spec_num_bells(),
            forall|i: int| 0 <= i < m ==> (#[trigger] params.methods@[i]).wf(),
            forall|i: int| 0 <= i < m ==> (#[trigger] params.methods@[i]).stage == stage,
            forall|i: int|
                0 <= i < m ==> (#[trigger] params.methods@[i]).lead@.len() <= 65535,
        decreases num_methods - m,
    {
        let meth = &params.methods[m];
        if !(meth.stage == stage) {
            proof {
                if params.wf() {
                    assert(params.methods@[m as int].stage == params.methods@[0].stage);
                    assert(false);
                }
            }
            return Err(SearchError::IncompatibleStages);
        }
        let lead_len = meth.lead.len();
        if lead_len == 0 || lead_len > 65535 {
            proof {
                if params.wf() {
                    assert(params.methods@[m as int].wf());
                    assert(params.methods@[m as int].lead@.len() <= 65535);
                    assert(false);
                }
            }
            return Err(SearchError::NoValidCompositionsPossible);
        }
        if meth.labels.len() != lead_len {
            proof {
                if params.wf() {
                    assert(params.methods@[m as int].wf());
                    assert(false);
                }
            }
            return Err(SearchError::NoValidCompositionsPossible);
        }
        if meth.labels[0].is_none() {
            proof {
                if params.wf() {
                    assert(params.methods@[m as int].wf());
                    assert(false);
                }
            }
            return Err(SearchError::NoValidCompositionsPossible);
        }
        if meth.lead[0].bells.len() != n || !meth.lead[0].is_rounds() {
            proof {
                if params.wf() {
                    assert(params.methods@[m as int].wf());
                    assert(params.methods@[m as int].lead@[0]@ == rounds_seq(
                        stage.spec_num_bells(),
                    ));
                    assert(false);
                }
            }
            return Err(SearchError::NoValidCompositionsPossible);
        }
        proof {
            assert(meth.lead@[0]@ == rounds_seq(stage.spec_num_bells()));
        }
        let mut x: usize = 0;
        while x < lead_len
            invariant
                x <= lead_len,
                m < num_methods,
                num_methods == params.methods@.len(),
                *meth == params.methods@[m as int],
                stage == params.methods@[0].stage,
                lead_len == meth.lead@.len(),
                n == stage.spec_num_bells(),
                forall|i: int|
                    0 <= i < x ==> crate::row::valid_row((#[trigger] meth.lead@[i])@)
                        && meth.lead@[i]@.len() == n,
            decreases lead_len - x,
        {
            if meth.lead[x].bells.len() != n || !meth.lead[x].check_valid() {
                proof {
                    if params.wf() {
                        assert(params.methods@[m as int].wf());
                        assert(params.methods@[m as int].stage == params.methods@[0].stage);
                        assert(crate::row::valid_row(params.methods@[m as int].lead@[x as int]@));
                        assert(false);
                    }
                }
                return Err(SearchError::NoValidCompositionsPossible);
            }
            x += 1;
        }
        if meth.lead_head_transposition.bells.len() != n
            || !meth.lead_head_transposition.check_valid() {
            proof {
                if params.wf() {
                    assert(params.methods@[m as int].wf());
                    assert(params.methods@[m as int].stage == params.methods@[0].stage);
                    assert(false);
                }
            }
            return Err(SearchError::NoValidCompositionsPossible);
        }
        m += 1;
    }
    let mut c: usize = 0;
    while c < params.calls.len()
        invariant
            c <= params.calls@.len(),
            n == stage.spec_num_bells(),
            stage == params.methods@[0].stage,
            num_methods >= 1,
            num_methods == params.methods@.len(),
            forall|i: int| 0 <= i < c ==> (#[trigger] params.calls@[i]).wf(stage),
        decreases params.calls@.len() - c,
    {
        let call = &params.calls[c];
        if call.place_notation.bells.len() != n || !call.place_notation.check_valid() {
            proof {
                if params.wf() {
                    assert(params.calls@[c as int].wf(params.methods@[0].stage));
                    assert(false);
                }
            }
            return Err(SearchError::IncompatibleStages);
        }
        c += 1;
    }
    if params.start_row.bells.len() != n || !params.start_row.check_valid() {
        proof {
            assert(!params.wf());
        }
        return Err(SearchError::IncompatibleStages);
    }
    if params.end_row.bells.len() != n || !params.end_row.check_valid() {
        proof {
            assert(!params.wf());
        }
        return Err(SearchError::IncompatibleStages);
    }
    if params.part_head.bells.len() != n || !params.part_head.check_valid() {
        proof {
            assert(!params.wf());
        }
        return Err(SearchError::IncompatibleStages);
    }
    if params.method_count_ranges.len() != num_methods {
        proof {
            assert(!params.wf());
        }
        return Err(SearchError::NoValidCompositionsPossible);
    }
    if params.length.max > MAX_COMP_LENGTH || params.length.min > params.length.max {
        proof {
            assert(!params.wf());
        }
        return Err(SearchError::NoValidCompositionsPossible);
    }
    let mut mr: usize = 0;
    while mr < params.method_count_ranges.len()
        invariant
            mr <= params.method_count_ranges@.len(),
            forall|m2: int|
                0 <= m2 < mr ==> (#[trigger] params.method_count_ranges@[m2]).min
                    <= params.length.max,
        decreases params.method_count_ranges@.len() - mr,
    {
        if params.method_count_ranges[mr].min > params.length.max {
            proof {
                assert(!count_ranges_fit(params));
            }
            return Err(SearchError::MethodCountRangeExceedsLength);
        }
        mr += 1;
    }
    let mut t: usize = 0;
    while t < params.music_types.len()
        invariant
            t <= params.music_types@.len(),
            forall|i: int|
                0 <= i < t ==> (#[trigger] params.music_types@[i]).patterns@.len() <= 65535,
        decreases params.music_types@.len() - t,
    {
        if params.music_types[t].patterns.len() > 65535 {
            proof {
                if params.wf() {
                    assert(params.music_types@[t as int].patterns@.len() <= 65535);
                    assert(false);
                }
            }
            return Err(SearchError::NoValidCompositionsPossible);
        }
        t += 1;
    }
    Ok(())
}

impl Search {
    /// Prepares a search: validates the parameters, builds the graph,
    /// expands it for multiple parts if asked, and optimises it.  Each
    /// refusal names its defect: bad parameters, a count range that cannot
    /// fit, a part head that never closes, a graph past the configured
    /// ceiling, or a graph without a usable start or end.  The contract ties
    /// the parameter-level refusals to the inputs exactly.  A size refusal
    /// witnesses that at least the configured ceiling of distinct chunks
    /// really exists; which of them are reachable, and whether a start or
    /// end survives optimisation, describe the intermediate graph, which
    /// the signature does not carry.
    pub fn new(params: Parameters, config: Config) -> (r: Result<Search, SearchError>)
        ensures
            match r {
                Ok(s) => s.wf() && params.wf() && count_ranges_fit(&params),
                Err(e) => match e {
                    SearchError::MethodCountRangeExceedsLength => !count_ranges_fit(&params),
                    SearchError::IncompatibleStages => !params.wf(),
                    SearchError::NoValidCompositionsPossible => !params.wf()
                        || !crate::multipart::has_closure(params.part_head@),
                    SearchError::GraphTooLarge => crate::builder::many_valid_chunks(
                        &params,
                        config.graph_size_limit as int,
                    ),
                    SearchError::StartOrEndUnreachable => true,
                },
            },
    {
        match validate_params(&params) {
            Ok(()) => {}
            Err(e) => {
                return Err(e);
            }
        }
        let built = match build_graph(&params, config.graph_size_limit) {
            Ok(g) => g,
            Err(BuildError::GraphTooLarge) => {
                return Err(SearchError::GraphTooLarge);
            }
        };
        proof {
            lemma_exact_implies_complete(&built, &params);
        }
        let mut graph = if params.part_head.is_rounds() {
            built
        } else {
            match crate::multipart::to_multipart(&built, &params) {
                Ok(g2) => g2,
                Err(e) => {
                    return Err(e);
                }
            }
        };
        if graph.starts.len() == 0 || graph.ends.len() == 0 {
            return Err(SearchError::StartOrEndUnreachable);
        }
        let ghost pre_opt = graph;
        let passes = standard_passes();
        graph.optimise(&passes, &params);
        proof {
            lemma_completeness_preserved(&graph, &pre_opt, &params);
            lemma_lengths_preserved(&graph, &pre_opt);
        }
        Ok(Search { params, config, graph })
    }

    /// The range of row counts allowed of a method.
    pub fn method_count_range(&self, method_idx: usize) -> (r: IntRange)
        requires
            method_idx < self.params.method_count_ranges@.len(),
        ensures
            r == self.params.method_count_ranges@[method_idx as int],
    {
        self.params.method_count_ranges[method_idx]
    }

    /// The methods being rung, with their shorthands.
    pub fn methods(&self) -> (r: &Vec<crate::params::Method>)
        ensures
            r == &self.params.methods,
    {
        &self.params.methods
    }

    /// The indices of the music types in play.
    pub fn music_type_ids(&self) -> (r: Vec<usize>)
        ensures
            r@.len() == self.params.music_types@.len(),
            forall|i: int| 0 <= i < r@.len() ==> r@[i] == i,
    {
        let mut out: Vec<usize> = Vec::new();
        let mut i: usize = 0;
        while i < self.params.music_types.len()
            invariant
                i <= self.params.music_types@.len(),
                out@.len() == i,
                forall|j: int| 0 <= j < i ==> out@[j] == j,
            decreases self.params.music_types@.len() - i,
        {
            out.push(i);
            i += 1;
        }
        out
    }

    /// The most hits a music type may score, or the maximum if unbounded.
    pub fn max_music_count(&self, music_type_idx: usize) -> (r: usize)
        requires
            music_type_idx < self.params.music_types@.len(),
        ensures
            r == match self.params.music_types@[music_type_idx as int].count_range.max {
                Some(v) => v,
                None => usize::MAX,
            },
    {
        match self.params.music_types[music_type_idx].count_range.max {
            Some(v) => v,
            None => usize::MAX,
        }
    }

    /// The parameters this search was prepared from.
    pub fn parameters(&self) -> (r: &Parameters)
        ensures
            r == &self.params,
    {
        &self.params
    }

    /// The longest run of duffer rows allowed, if bounded.
    pub fn max_consecutive_duffer(&self) -> (r: Option<usize>)
        ensures
            r == self.params.max_contiguous_duffer,
    {
        self.params.max_contiguous_duffer
    }

    /// The most duffer rows allowed in total, if bounded.
    pub fn max_total_duffer(&self) -> (r: Option<usize>)
        ensures
            r == self.params.max_total_duffer,
    {
        self.params.max_total_duffer
    }

    /// How many parts the compositions have.
    pub fn num_parts(&self) -> (r: usize)
        ensures
            r == self.graph.num_parts,
    {
        self.graph.num_parts
    }

    /// Whether the compositions have more than one part.
    pub fn is_multipart(&self) -> (r: bool)
        ensures
            r == (self.graph.num_parts > 1),
    {
        self.graph.num_parts > 1
    }

    /// The effective stage of the part heads: the stage once fixed trailing
    /// bells are dropped.
    pub fn effective_part_head_stage(&self) -> (r: crate::bell::Stage)
        requires
            self.wf(),
        ensures
            1 <= r.spec_num_bells() <= self.params.part_head@.len(),
    {
        proof {
            assert(self.params.part_head@.len() >= 1);
        }
        self.params.part_head.effective_stage()
    }
}


/// One node of the shared path tree: its parent, the chunk it stands for,
/// and the link that entered it.
#[derive(Clone, Copy, PartialEq, Eq, Structural, Debug)]
pub struct PathNode {
    /// The index of the parent node, or [`NO_PARENT`] at a path's start.
    pub parent: usize,
    /// The graph chunk this node stands for.
    pub chunk_idx: usize,
    /// The call taken on the link into this chunk.
    pub call: Option<usize>,
    /// The part-head rotation of the link into this chunk.
    pub rot: u16,
}

/// The parent marker of a path-tree root.
pub const NO_PARENT: usize = usize::MAX;

/// What the paths arena always satisfies: parents come earlier, chunks are
/// real.
pub open spec fn paths_ok(paths: Seq<PathNode>, num_chunks: int) -> bool {
    forall|i: int|
        0 <= i < paths.len() ==> (((#[trigger] paths[i]).parent == NO_PARENT || paths[i].parent
            < i) && paths[i].chunk_idx < num_chunks)
}

/// A queued composition prefix.
#[derive(Clone, Copy, PartialEq, Eq, Structural, Debug)]
pub struct CompPrefix {
    /// The head of this prefix's path in the arena.
    pub head: usize,
    /// The chunk the prefix currently stands at.
    pub chunk_idx: usize,
    /// The rows covered so far, in one part.
    pub per_part_len: usize,
    /// The accumulated score.
    pub score: i64,
    /// The accumulated part-head rotation, reduced modulo the part count.
    pub rot: u16,
    /// The duffer rows covered so far, in one part.
    pub total_duffer: usize,
    /// The length of the duffer run the prefix currently sits in.
    pub run_duffer: usize,
}

/// What every queued prefix satisfies.
pub open spec fn frontier_ok(
    frontier: Seq<CompPrefix>,
    paths_len: int,
    num_chunks: int,
) -> bool {
    forall|i: int|
        0 <= i < frontier.len() ==> ((#[trigger] frontier[i]).head < paths_len
            && frontier[i].chunk_idx < num_chunks && frontier[i].per_part_len <= MAX_COMP_LENGTH)
}

/// Whether a prefix value occurs in a queue snapshot.
pub open spec fn from_old(q0: Seq<CompPrefix>, p: CompPrefix) -> bool {
    exists|k: int| 0 <= k < q0.len() && #[trigger] q0[k] == p
}

/// The score-density order on prefixes: whether `a`'s score per row is at
/// least `b`'s, compared by cross-multiplication, an empty prefix counting
/// one row.
pub open spec fn spec_density_ge(a: CompPrefix, b: CompPrefix) -> bool {
    (a.score as int) * (if b.per_part_len == 0 {
        1int
    } else {
        b.per_part_len as int
    }) >= (b.score as int) * (if a.per_part_len == 0 {
        1int
    } else {
        a.per_part_len as int
    })
}

/// The density order is transitive.
pub proof fn lemma_density_ge_trans(a: CompPrefix, b: CompPrefix, c: CompPrefix)
    requires
        spec_density_ge(a, b),
        spec_density_ge(b, c),
    ensures
        spec_density_ge(a, c),
{
    let la: int = if a.per_part_len == 0 {
        1int
    } else {
        a.per_part_len as int
    };
    let lb: int = if b.per_part_len == 0 {
        1int
    } else {
        b.per_part_len as int
    };
    let lc: int = if c.per_part_len == 0 {
        1int
    } else {
        c.per_part_len as int
    };
    assert((a.score as int) * lc >= (c.score as int) * la) by (nonlinear_arith)
        requires
            la >= 1,
            lb >= 1,
            lc >= 1,
            (a.score as int) * lb >= (b.score as int) * la,
            (b.score as int) * lc >= (c.score as int) * lb,
    ;
}

/// Whether prefix `a` expands no later than `b`: the score-density order,
/// compared without division.
fn density_ge(a: &CompPrefix, b: &CompPrefix) -> (r: bool)
    requires
        a.per_part_len <= MAX_COMP_LENGTH,
        b.per_part_len <= MAX_COMP_LENGTH,
    ensures
        r == spec_density_ge(*a, *b),
{
    let la: i128 = if a.per_part_len == 0 {
        1
    } else {
        a.per_part_len as i128
    };
    let lb: i128 = if b.per_part_len == 0 {
        1
    } else {
        b.per_part_len as i128
    };
    proof {
        assert(((a.score as i128) * lb <= 2000000000000000000000000000i128) && ((a.score as i128)
            * lb >= -2000000000000000000000000000i128) && ((b.score as i128) * la
            <= 2000000000000000000000000000i128) && ((b.score as i128) * la
            >= -2000000000000000000000000000i128)) by (nonlinear_arith)
            requires
                1 <= la <= 100000001,
                1 <= lb <= 100000001,
                -9223372036854775808i128 <= a.score as i128 <= 9223372036854775807i128,
                -9223372036854775808i128 <= b.score as i128 <= 9223372036854775807i128,
        ;
    }
    (a.score as i128) * lb >= (b.score as i128) * la
}

/// Whether a prefix value occurs in a queue snapshot or is the one being
/// added.
pub open spec fn from_old_or(q0: Seq<CompPrefix>, added: CompPrefix, p: CompPrefix) -> bool {
    from_old(q0, p) || p == added
}

/// Swaps two queue entries.
fn queue_swap(v: &mut Vec<CompPrefix>, i: usize, j: usize)
    requires
        i < old(v)@.len(),
        j < old(v)@.len(),
    ensures
        final(v)@.len() == old(v)@.len(),
        final(v)@ == old(v)@.update(i as int, old(v)@[j as int]).update(
            j as int,
            old(v)@[i as int],
        ),
{
    let a = v[i];
    let b = v[j];
    v.set(i, b);
    v.set(j, a);
}

/// Pushes a prefix onto the queue, keeping the best prefix at the front.
fn heap_push(frontier: &mut Vec<CompPrefix>, p: CompPrefix)
    requires
        forall|i: int|
            0 <= i < old(frontier)@.len() ==> (#[trigger] old(frontier)@[i]).per_part_len
                <= MAX_COMP_LENGTH,
        p.per_part_len <= MAX_COMP_LENGTH,
    ensures
        final(frontier)@.len() == old(frontier)@.len() + 1,
        forall|i: int|
            0 <= i < final(frontier)@.len() ==> from_old_or(
                old(frontier)@,
                p,
                #[trigger] final(frontier)@[i],
            ),
{
    let ghost q0 = frontier@;
    frontier.push(p);
    proof {
        assert forall|i: int| 0 <= i < frontier@.len() implies from_old_or(
            q0,
            p,
            #[trigger] frontier@[i],
        ) by {
            if i < frontier@.len() - 1 {
                assert(q0[i] == frontier@[i]);
            }
        }
    }
    let mut c = frontier.len() - 1;
    while c > 0
        invariant
            c < frontier@.len(),
            frontier@.len() == q0.len() + 1,
            forall|i: int|
                0 <= i < frontier@.len() ==> from_old_or(q0, p, #[trigger] frontier@[i]),
            forall|i: int|
                0 <= i < frontier@.len() ==> (#[trigger] frontier@[i]).per_part_len
                    <= MAX_COMP_LENGTH,
        decreases c,
    {
        let parent = (c - 1) / 2;
        let child_v = frontier[c];
        let parent_v = frontier[parent];
        if density_ge(&child_v, &parent_v) {
            let ghost q1 = frontier@;
            queue_swap(frontier, c, parent);
            proof {
                assert forall|i: int| 0 <= i < frontier@.len() implies from_old_or(
                    q0,
                    p,
                    #[trigger] frontier@[i],
                ) by {
                    if i == c {
                        assert(frontier@[i] == q1[parent as int]);
                    } else if i == parent {
                        assert(frontier@[i] == q1[c as int]);
                    } else {
                        assert(frontier@[i] == q1[i]);
                    }
                }
            }
            c = parent;
        } else {
            break;
        }
    }
}

/// Removes and returns the front of the heap, which the pushes keep
/// approximately densest-first.  The contract states membership and length
/// only: the expansion order is a performance heuristic, and what is
/// emitted is decided by the completion gates alone.
fn pop_best(frontier: &mut Vec<CompPrefix>) -> (r: Option<CompPrefix>)
    requires
        forall|i: int|
            0 <= i < old(frontier)@.len() ==> (#[trigger] old(frontier)@[i]).per_part_len
                <= MAX_COMP_LENGTH,
    ensures
        match r {
            Some(p) => old(frontier)@.len() >= 1 && final(frontier)@.len() == old(
                frontier,
            )@.len() - 1 && from_old(old(frontier)@, p),
            None => old(frontier)@.len() == 0 && final(frontier)@ == old(frontier)@,
        },
        forall|i: int|
            0 <= i < final(frontier)@.len() ==> from_old(
                old(frontier)@,
                #[trigger] final(frontier)@[i],
            ),
{
    let n = frontier.len();
    if n == 0 {
        return None;
    }
    let ghost q0 = frontier@;
    if n > 1 {
        queue_swap(frontier, 0, n - 1);
    }
    let p = match frontier.pop() {
        Some(p) => p,
        None => {
            proof {
                assert(false);
            }
            return None;
        }
    };
    proof {
        assert(from_old(q0, p)) by {
            if n > 1 {
                assert(q0[0] == p);
            } else {
                assert(q0[0] == p);
            }
        }
        assert forall|i: int| 0 <= i < frontier@.len() implies from_old(
            q0,
            #[trigger] frontier@[i],
        ) by {
            if n > 1 && i == 0 {
                assert(frontier@[0] == q0[n - 1]);
            } else {
                assert(frontier@[i] == q0[i]);
            }
        }
    }
    // Sift the moved entry down to restore the order.
    let mut c: usize = 0;
    let len = frontier.len();
    while c < len
        invariant
            len == frontier@.len(),
            forall|i: int| 0 <= i < frontier@.len() ==> from_old(q0, #[trigger] frontier@[i]),
            forall|i: int|
                0 <= i < frontier@.len() ==> (#[trigger] frontier@[i]).per_part_len
                    <= MAX_COMP_LENGTH,
        decreases len - c,
    {
        let l = match c.checked_mul(2) {
            Some(v) => match v.checked_add(1) {
                Some(w) => w,
                None => len,
            },
            None => len,
        };
        let rch = match l.checked_add(1) {
            Some(v) => v,
            None => len,
        };
        let mut best = c;
        if l < len && density_ge(&frontier[l], &frontier[best]) {
            best = l;
        }
        if rch < len && density_ge(&frontier[rch], &frontier[best]) {
            best = rch;
        }
        if best == c {
            break;
        }
        let ghost q1 = frontier@;
        queue_swap(frontier, c, best);
        proof {
            assert forall|i: int| 0 <= i < frontier@.len() implies from_old(
                q0,
                #[trigger] frontier@[i],
            ) by {
                if i == c {
                    assert(frontier@[i] == q1[best as int]);
                } else if i == best {
                    assert(frontier@[i] == q1[c as int]);
                } else {
                    assert(frontier@[i] == q1[i]);
                }
            }
        }
        c = best;
    }
    Some(p)
}

/// Removes and returns a densest prefix of a non-empty queue by a linear
/// scan: the result is at least as dense as everything left behind, and
/// every other entry survives.
fn select_best(queue: &mut Vec<CompPrefix>) -> (r: CompPrefix)
    requires
        old(queue)@.len() >= 1,
        forall|i: int|
            0 <= i < old(queue)@.len() ==> (#[trigger] old(queue)@[i]).per_part_len
                <= MAX_COMP_LENGTH,
    ensures
        final(queue)@.len() == old(queue)@.len() - 1,
        from_old(old(queue)@, r),
        forall|i: int|
            0 <= i < final(queue)@.len() ==> from_old(old(queue)@, #[trigger] final(queue)@[i]),
        forall|i: int|
            0 <= i < final(queue)@.len() ==> spec_density_ge(r, #[trigger] final(queue)@[i]),
        forall|p: CompPrefix|
            #[trigger] from_old(old(queue)@, p) ==> p == r || from_old(final(queue)@, p),
{
    let n = queue.len();
    let mut best: usize = 0;
    let mut i: usize = 1;
    while i < n
        invariant
            1 <= i <= n,
            best < i,
            n == queue@.len(),
            *queue == *old(queue),
            forall|j: int|
                0 <= j < queue@.len() ==> (#[trigger] queue@[j]).per_part_len <= MAX_COMP_LENGTH,
            forall|j: int|
                0 <= j < i ==> spec_density_ge(queue@[best as int], #[trigger] queue@[j]),
        decreases n - i,
    {
        let ghost prev_best: int = best as int;
        if density_ge(&queue[i], &queue[best]) {
            best = i;
            proof {
                assert forall|j: int| 0 <= j < i + 1 implies spec_density_ge(
                    queue@[best as int],
                    #[trigger] queue@[j],
                ) by {
                    if j < i {
                        lemma_density_ge_trans(
                            queue@[best as int],
                            queue@[prev_best],
                            queue@[j],
                        );
                    }
                }
            }
        }
        i += 1;
    }
    let ghost q0 = queue@;
    let r = queue.swap_remove(best);
    proof {
        assert(r == q0[best as int]);
        assert forall|k: int| 0 <= k < queue@.len() implies from_old(q0, #[trigger] queue@[k])
            && spec_density_ge(r, queue@[k]) by {
            if k == best && best < q0.len() - 1 {
                assert(queue@[k] == q0[q0.len() - 1]);
            } else {
                assert(queue@[k] == q0[k]);
            }
        }
        assert forall|p: CompPrefix| #[trigger] from_old(q0, p) implies p == r || from_old(
            queue@,
            p,
        ) by {
            let k = choose|k: int| 0 <= k < q0.len() && #[trigger] q0[k] == p;
            if k == best {
                assert(p == r);
            } else if k == q0.len() - 1 {
                if best == q0.len() - 1 {
                    assert(p == r);
                } else {
                    assert(queue@[best as int] == q0[q0.len() - 1]);
                }
            } else {
                assert(queue@[k] == q0[k]);
            }
        }
    }
    r
}

/// Shortens the queue to the given number of prefixes, keeping only the
/// densest: no discarded prefix is strictly denser than any kept one.
pub fn truncate_queue(len: usize, queue: &mut Vec<CompPrefix>)
    requires
        forall|i: int|
            0 <= i < old(queue)@.len() ==> (#[trigger] old(queue)@[i]).per_part_len
                <= MAX_COMP_LENGTH,
    ensures
        final(queue)@.len() == if len < old(queue)@.len() {
            len as int
        } else {
            old(queue)@.len() as int
        },
        forall|i: int|
            0 <= i < final(queue)@.len() ==> from_old(
                old(queue)@,
                #[trigger] final(queue)@[i],
            ),
        forall|i: int, p: CompPrefix|
            #![trigger final(queue)@[i], from_old(old(queue)@, p)]
            0 <= i < final(queue)@.len() && from_old(old(queue)@, p) && !from_old(
                final(queue)@,
                p,
            ) ==> spec_density_ge(final(queue)@[i], p),
{
    let mut kept: Vec<CompPrefix> = Vec::new();
    let target = if len < queue.len() {
        len
    } else {
        queue.len()
    };
    proof {
        assert forall|i: int| 0 <= i < queue@.len() implies from_old(
            old(queue)@,
            #[trigger] queue@[i],
        ) by {
            assert(old(queue)@[i] == queue@[i]);
        }
    }
    let mut t: usize = 0;
    while t < target
        invariant
            t <= target,
            kept@.len() == t,
            target <= old(queue)@.len(),
            queue@.len() == old(queue)@.len() - t,
            forall|i: int|
                0 <= i < queue@.len() ==> from_old(old(queue)@, #[trigger] queue@[i]),
            forall|i: int|
                0 <= i < kept@.len() ==> from_old(old(queue)@, #[trigger] kept@[i]),
            forall|i: int|
                0 <= i < queue@.len() ==> (#[trigger] queue@[i]).per_part_len <= MAX_COMP_LENGTH,
            forall|i: int, j: int|
                0 <= i < kept@.len() && 0 <= j < queue@.len() ==> spec_density_ge(
                    #[trigger] kept@[i],
                    #[trigger] queue@[j],
                ),
            forall|p: CompPrefix|
                #[trigger] from_old(old(queue)@, p) ==> from_old(kept@, p) || from_old(queue@, p),
        decreases target - t,
    {
        let ghost q0 = queue@;
        let ghost k0 = kept@;
        let p = select_best(queue);
        proof {
            let k = choose|k: int| 0 <= k < q0.len() && #[trigger] q0[k] == p;
            assert(from_old(old(queue)@, q0[k]));
            assert forall|i: int| 0 <= i < queue@.len() implies from_old(
                old(queue)@,
                #[trigger] queue@[i],
            ) by {
                let k2 = choose|k2: int| 0 <= k2 < q0.len() && #[trigger] q0[k2] == queue@[i];
                assert(from_old(old(queue)@, q0[k2]));
            }
        }
        kept.push(p);
        proof {
            assert forall|i: int, j: int|
                0 <= i < kept@.len() && 0 <= j < queue@.len() implies spec_density_ge(
                #[trigger] kept@[i],
                #[trigger] queue@[j],
            ) by {
                if i < k0.len() {
                    assert(kept@[i] == k0[i]);
                    let k2 = choose|k2: int| 0 <= k2 < q0.len() && #[trigger] q0[k2] == queue@[j];
                    assert(spec_density_ge(k0[i], q0[k2]));
                } else {
                    assert(kept@[i] == p);
                }
            }
            assert forall|p2: CompPrefix| #[trigger] from_old(old(queue)@, p2) implies from_old(
                kept@,
                p2,
            ) || from_old(queue@, p2) by {
                if from_old(k0, p2) {
                    let k2 = choose|k2: int| 0 <= k2 < k0.len() && #[trigger] k0[k2] == p2;
                    assert(kept@[k2] == p2);
                } else if from_old(q0, p2) {
                    if p2 == p {
                        assert(kept@[kept@.len() - 1] == p2);
                    }
                }
            }
        }
        t += 1;
    }
    let ghost kseq = kept@;
    let ghost rest = queue@;
    *queue = kept;
    proof {
        assert(queue@ == kseq);
        assert forall|i: int| 0 <= i < queue@.len() implies from_old(
            old(queue)@,
            #[trigger] queue@[i],
        ) by {
            assert(queue@[i] == kseq[i]);
            assert(from_old(old(queue)@, kseq[i]));
        }
        assert forall|i: int, p: CompPrefix|
            #![trigger queue@[i], from_old(old(queue)@, p)]
            0 <= i < queue@.len() && from_old(old(queue)@, p) && !from_old(
                queue@,
                p,
            ) implies spec_density_ge(queue@[i], p) by {
            assert(from_old(kseq, p) || from_old(rest, p));
            if from_old(rest, p) {
                let k = choose|k: int| 0 <= k < rest.len() && #[trigger] rest[k] == p;
                assert(spec_density_ge(kseq[i], rest[k]));
                assert(queue@[i] == kseq[i]);
            } else {
                let k = choose|k: int| 0 <= k < kseq.len() && #[trigger] kseq[k] == p;
                assert(queue@[k] == p);
                assert(from_old(queue@, p));
            }
        }
    }
}


/// Walks a path from its head back to its root, returning the chain of
/// `(chunk, call out, rotation out)` entries in ringing order.  The final
/// entry carries the closing end link's call and rotation.
fn collect_chain(
    paths: &Vec<PathNode>,
    head: usize,
    end_call: Option<usize>,
    end_rot: u16,
    num_chunks: usize,
) -> (r: Vec<(usize, Option<usize>, u16)>)
    requires
        paths_ok(paths@, num_chunks as int),
        head < paths@.len(),
    ensures
        forall|i: int| 0 <= i < r@.len() ==> (#[trigger] r@[i]).0 < num_chunks,
{
    // Gather the in-link view of the path, head first.
    let mut rev: Vec<(usize, Option<usize>, u16)> = Vec::new();
    let mut cur = head;
    loop
        invariant
            paths_ok(paths@, num_chunks as int),
            cur < paths@.len(),
            forall|i: int| 0 <= i < rev@.len() ==> (#[trigger] rev@[i]).0 < num_chunks,
        decreases cur + 1,
    {
        let node = paths[cur];
        rev.push((node.chunk_idx, node.call, node.rot));
        if node.parent == NO_PARENT {
            break;
        }
        proof {
            assert(paths@[cur as int].parent < cur);
        }
        cur = node.parent;
    }
    // Reverse into ringing order, shifting each in-link onto the element
    // before it.
    let n = rev.len();
    let mut chain: Vec<(usize, Option<usize>, u16)> = Vec::new();
    let mut i: usize = 0;
    while i < n
        invariant
            i <= n,
            n == rev@.len(),
            chain@.len() == i,
            forall|j: int| 0 <= j < rev@.len() ==> (#[trigger] rev@[j]).0 < num_chunks,
            forall|j: int| 0 <= j < i ==> (#[trigger] chain@[j]).0 < num_chunks,
        decreases n - i,
    {
        let chunk_idx = rev[n - 1 - i].0;
        let (call_out, rot_out) = if i + 1 < n {
            let nxt = rev[n - 2 - i];
            (nxt.1, nxt.2)
        } else {
            (end_call, end_rot)
        };
        chain.push((chunk_idx, call_out, rot_out));
        i += 1;
    }
    chain
}

/// Whether the candidate chunk is false against any chunk already on the
/// path, answered from the candidate's falseness bitset.
fn path_is_false_against(
    paths: &Vec<PathNode>,
    head: usize,
    cand_bits: &Vec<u64>,
    cand: usize,
    num_chunks: usize,
) -> (r: bool)
    requires
        paths_ok(paths@, num_chunks as int),
        head < paths@.len(),
{
    let mut cur = head;
    loop
        invariant
            paths_ok(paths@, num_chunks as int),
            cur < paths@.len(),
        decreases cur + 1,
    {
        let node = paths[cur];
        if node.chunk_idx == cand {
            return true;
        }
        let w = node.chunk_idx / 64;
        let b = node.chunk_idx % 64;
        if w < cand_bits.len() && ((cand_bits[w] >> (b as u64)) & 1) == 1 {
            return true;
        }
        if node.parent == NO_PARENT {
            break;
        }
        proof {
            assert(paths@[cur as int].parent < cur);
        }
        cur = node.parent;
    }
    false
}

/// Garbage-collects the path arena: keeps exactly the nodes reachable from
/// the queued prefixes' heads, renumbering parents and heads.
#[verifier::rlimit(100)]
fn gc_paths(paths: &mut Vec<PathNode>, frontier: &mut Vec<CompPrefix>, num_chunks: usize)
    requires
        paths_ok(old(paths)@, num_chunks as int),
        forall|i: int|
            0 <= i < old(frontier)@.len() ==> (#[trigger] old(frontier)@[i]).head
                < old(paths)@.len() && old(frontier)@[i].chunk_idx < num_chunks
                && old(frontier)@[i].per_part_len <= MAX_COMP_LENGTH,
    ensures
        paths_ok(final(paths)@, num_chunks as int),
        final(frontier)@.len() == old(frontier)@.len(),
        forall|i: int|
            0 <= i < final(frontier)@.len() ==> (#[trigger] final(frontier)@[i]).head
                < final(paths)@.len() && final(frontier)@[i].chunk_idx < num_chunks
                && final(frontier)@[i].per_part_len <= MAX_COMP_LENGTH,
{
    let n = paths.len();
    let mut marked: Vec<bool> = Vec::new();
    let mut z: usize = 0;
    while z < n
        invariant
            z <= n,
            marked@.len() == z,
            forall|j: int| 0 <= j < z ==> !marked@[j],
        decreases n - z,
    {
        marked.push(false);
        z += 1;
    }
    // Mark every node reachable from a live head: collect each chain and
    // mark it root first, so a marked node's parent is always marked.
    let mut f: usize = 0;
    while f < frontier.len()
        invariant
            f <= frontier@.len(),
            *frontier == *old(frontier),
            paths_ok(paths@, num_chunks as int),
            *paths == *old(paths),
            n == paths@.len(),
            marked@.len() == n,
            forall|i: int|
                0 <= i < frontier@.len() ==> (#[trigger] frontier@[i]).head < paths@.len(),
            forall|i: int|
                0 <= i < marked@.len() ==> ((#[trigger] marked@[i]) ==> (paths@[i].parent
                    == NO_PARENT || marked@[paths@[i].parent as int])),
            forall|i2: int|
                0 <= i2 < f ==> marked@[(#[trigger] frontier@[i2]).head as int],
        decreases frontier@.len() - f,
    {
        // The chain from this head to its root, head first.
        let mut walk: Vec<usize> = Vec::new();
        let mut cur = frontier[f].head;
        walk.push(cur);
        while paths[cur].parent != NO_PARENT
            invariant
                paths_ok(paths@, num_chunks as int),
                n == paths@.len(),
                cur < n,
                walk@.len() >= 1,
                walk@[0] == frontier@[f as int].head,
                f < frontier@.len(),
                frontier@[f as int].head < n,
                walk@[walk@.len() - 1] == cur,
                forall|j: int| 0 <= j < walk@.len() ==> (#[trigger] walk@[j]) < n,
                forall|j: int|
                    0 <= j < walk@.len() - 1 ==> paths@[(#[trigger] walk@[j]) as int].parent
                        == walk@[j + 1],
            decreases cur,
        {
            proof {
                assert(paths@[cur as int].parent < cur);
            }
            let next = paths[cur].parent;
            cur = next;
            walk.push(cur);
        }
        proof {
            assert(paths@[walk@[walk@.len() - 1] as int].parent == NO_PARENT);
        }
        // Mark root first, then each descendant.
        let mut w = walk.len();
        while w > 0
            invariant
                w <= walk@.len(),
                n == paths@.len(),
                marked@.len() == n,
                paths_ok(paths@, num_chunks as int),
                walk@.len() >= 1,
                f < frontier@.len(),
                walk@[0] == frontier@[f as int].head,
                forall|j: int| 0 <= j < walk@.len() ==> (#[trigger] walk@[j]) < n,
                forall|j: int|
                    0 <= j < walk@.len() - 1 ==> paths@[(#[trigger] walk@[j]) as int].parent
                        == walk@[j + 1],
                paths@[walk@[walk@.len() - 1] as int].parent == NO_PARENT,
                forall|i: int|
                    0 <= i < marked@.len() ==> ((#[trigger] marked@[i]) ==> (paths@[i].parent
                        == NO_PARENT || marked@[paths@[i].parent as int])),
                forall|j: int| w <= j < walk@.len() ==> marked@[(#[trigger] walk@[j]) as int],
                forall|i2: int|
                    0 <= i2 < f && frontier@[i2].head < n ==> marked@[(
                    #[trigger] frontier@[i2]).head as int],
            decreases w,
        {
            let idx2 = walk[w - 1];
            marked.set(idx2, true);
            proof {
                if w < walk@.len() {
                    assert(paths@[idx2 as int].parent == walk@[w as int]);
                    assert(marked@[walk@[w as int] as int]);
                }
            }
            w -= 1;
        }
        proof {
            assert(marked@[walk@[0] as int]);
            assert(marked@[frontier@[f as int].head as int]);
        }
        f += 1;
    }
    // Compact: renumber the marked nodes in order.
    let mut remap: Vec<usize> = Vec::new();
    let mut new_nodes: Vec<PathNode> = Vec::new();
    let mut i: usize = 0;
    while i < n
        invariant
            i <= n,
            n == paths@.len(),
            marked@.len() == n,
            paths_ok(paths@, num_chunks as int),
            remap@.len() == i,
            new_nodes@.len() <= i,
            paths_ok(new_nodes@, num_chunks as int),
            forall|j: int|
                0 <= j < i ==> (marked@[j] ==> (#[trigger] remap@[j]) < new_nodes@.len()),
            forall|i2: int|
                0 <= i2 < marked@.len() ==> (marked@[i2] ==> (paths@[i2].parent == NO_PARENT
                    || marked@[paths@[i2].parent as int])),
        decreases n - i,
    {
        if marked[i] {
            let node = paths[i];
            let new_parent = if node.parent == NO_PARENT {
                NO_PARENT
            } else {
                remap[node.parent]
            };
            remap.push(new_nodes.len());
            new_nodes.push(
                PathNode { parent: new_parent, chunk_idx: node.chunk_idx, call: node.call, rot: node.rot },
            );
        } else {
            remap.push(NO_PARENT);
        }
        i += 1;
    }
    // Rewrite the heads.
    let mut nf: Vec<CompPrefix> = Vec::new();
    let mut f3: usize = 0;
    while f3 < frontier.len()
        invariant
            f3 <= frontier@.len(),
            *frontier == *old(frontier),
            n == paths@.len(),
            marked@.len() == n,
            remap@.len() == n,
            nf@.len() == f3,
            forall|i2: int|
                0 <= i2 < frontier@.len() ==> (#[trigger] frontier@[i2]).head < paths@.len()
                    && frontier@[i2].chunk_idx < num_chunks && frontier@[i2].per_part_len
                    <= MAX_COMP_LENGTH,
            forall|j: int|
                0 <= j < n ==> (marked@[j] ==> (#[trigger] remap@[j]) < new_nodes@.len()),
            forall|i2: int|
                0 <= i2 < f3 ==> (#[trigger] nf@[i2]).head < new_nodes@.len() && nf@[i2].chunk_idx
                    < num_chunks && nf@[i2].per_part_len <= MAX_COMP_LENGTH,
            forall|i2: int| 0 <= i2 < frontier@.len() ==> marked@[(#[trigger] frontier@[i2]).head as int],
        decreases frontier@.len() - f3,
    {
        let mut p = frontier[f3];
        p.head = remap[p.head];
        nf.push(p);
        f3 += 1;
    }
    *paths = new_nodes;
    *frontier = nf;
}


impl Search {
    /// Runs the search, blocking until the frontier is exhausted, enough
    /// compositions have been found, or the abort flag is seen.  Every
    /// composition handed to the consumer went through
    /// [`finalise_composition`] and satisfies the completed-composition
    /// laws.
    pub fn run<C: UpdateConsumer>(&self, consumer: &mut C, abort_flag: &AtomicBool)
        requires
            self.wf(),
    {
        abort_flag.store(false, Ordering::SeqCst);
        let graph = &self.graph;
        let params = &self.params;
        let num_chunks = graph.chunks.len();
        let num_parts = graph.num_parts;

        // Resolve every link's target chunk once.
        let mut link_target: Vec<Option<usize>> = Vec::new();
        let mut li: usize = 0;
        while li < graph.links.slots.len()
            invariant
                li <= graph.links.slots@.len(),
                self.wf(),
                graph == &self.graph,
                num_chunks == graph.chunks@.len(),
                link_target@.len() == li,
                forall|j: int|
                    0 <= j < li ==> ((#[trigger] link_target@[j]) matches Some(t) ==> t
                        < num_chunks),
            decreases graph.links.slots@.len() - li,
        {
            let target = match &graph.links.slots[li] {
                Some(l) => match &l.to {
                    LinkSide::Chunk(id) => graph.find_chunk(id),
                    LinkSide::StartOrEnd => None,
                },
                None => None,
            };
            link_target.push(target);
            li += 1;
        }
        // Collect the end edges per chunk: (chunk, call, rotation).
        let mut end_edges: Vec<(usize, Option<usize>, u16)> = Vec::new();
        let mut ei: usize = 0;
        while ei < graph.ends.len()
            invariant
                ei <= graph.ends@.len(),
                self.wf(),
                graph == &self.graph,
                num_chunks == graph.chunks@.len(),
                forall|j: int|
                    0 <= j < end_edges@.len() ==> (#[trigger] end_edges@[j]).0 < num_chunks,
            decreases graph.ends@.len() - ei,
        {
            match graph.find_chunk(&graph.ends[ei].1) {
                Some(idx) => {
                    let (call, rot) = match graph.links.get(graph.ends[ei].0) {
                        Some(l) => (l.call, l.ph_rotation),
                        None => (None, 0),
                    };
                    end_edges.push((idx, call, rot));
                }
                None => {}
            }
            ei += 1;
        }

        // One falseness bitset per chunk: bit `j` says chunk `j` shares a
        // row (or is listed as false) with this chunk.
        let words = num_chunks / 64 + 1;
        let mut false_bits: Vec<Vec<u64>> = Vec::new();
        let mut fb: usize = 0;
        while fb < num_chunks
            invariant
                fb <= num_chunks,
                self.wf(),
                graph == &self.graph,
                num_chunks == graph.chunks@.len(),
                false_bits@.len() == fb,
            decreases num_chunks - fb,
        {
            let mut bits: Vec<u64> = Vec::new();
            let mut wz: usize = 0;
            while wz < words
                invariant
                    wz <= words,
                    bits@.len() == wz,
                decreases words - wz,
            {
                bits.push(0);
                wz += 1;
            }
            let fc = &graph.chunks[fb].false_chunks;
            let mut fi: usize = 0;
            while fi < fc.len()
                invariant
                    fi <= fc@.len(),
                    self.wf(),
                    graph == &self.graph,
                    num_chunks == graph.chunks@.len(),
                    fb < num_chunks,
                    fc == &graph.chunks@[fb as int].false_chunks,
                    bits@.len() == words,
                decreases fc@.len() - fi,
            {
                match graph.find_chunk(&fc[fi]) {
                    Some(j) => {
                        let w = j / 64;
                        let b = j % 64;
                        if w < bits.len() {
                            let cur_word = bits[w];
                            bits.set(w, cur_word | (1u64 << (b as u64)));
                        }
                    }
                    None => {}
                }
                fi += 1;
            }
            false_bits.push(bits);
            fb += 1;
        }

        // Seed the frontier from the start links.
        let mut paths: Vec<PathNode> = Vec::new();
        let mut frontier: Vec<CompPrefix> = Vec::new();
        let mut si: usize = 0;
        while si < graph.starts.len()
            invariant
                si <= graph.starts@.len(),
                self.wf(),
                graph == &self.graph,
                num_chunks == graph.chunks@.len(),
                paths_ok(paths@, num_chunks as int),
                frontier_ok(frontier@, paths@.len() as int, num_chunks as int),
            decreases graph.starts@.len() - si,
        {
            match graph.find_chunk(&graph.starts[si].1) {
                Some(idx) => {
                    let chunk = &graph.chunks[idx];
                    if chunk.per_part_length <= MAX_COMP_LENGTH {
                        let head = paths.len();
                        let ghost paths0 = paths@;
                        paths.push(
                            PathNode { parent: NO_PARENT, chunk_idx: idx, call: None, rot: 0 },
                        );
                        proof {
                            assert forall|i: int| 0 <= i < paths@.len() implies (((
                            #[trigger] paths@[i]).parent == NO_PARENT || paths@[i].parent < i)
                                && paths@[i].chunk_idx < num_chunks) by {
                                if i < paths@.len() - 1 {
                                    assert(paths@[i] == paths0[i]);
                                }
                            }
                        }
                        heap_push(
                            &mut frontier,
                            CompPrefix {
                                head,
                                chunk_idx: idx,
                                per_part_len: chunk.per_part_length,
                                score: chunk.music.score,
                                rot: 0,
                                total_duffer: if chunk.duffer {
                                    chunk.per_part_length
                                } else {
                                    0
                                },
                                run_duffer: if chunk.duffer {
                                    chunk.per_part_length
                                } else {
                                    0
                                },
                            },
                        );
                    }
                }
                None => {}
            }
            si += 1;
        }

        // The composing loop.
        let mut iter_count: usize = 0;
        let mut num_comps: usize = 0;
        let mut aborting = false;
        // The loop budget: far more iterations than any search can use, and
        // a bound the verifier can see shrink.
        let mut fuel: usize = usize::MAX;
        loop
            invariant
                self.wf(),
                graph == &self.graph,
                params == &self.params,
                num_chunks == graph.chunks@.len(),
                num_parts == graph.num_parts,
                paths_ok(paths@, num_chunks as int),
                frontier_ok(frontier@, paths@.len() as int, num_chunks as int),
                link_target@.len() == graph.links.slots@.len(),
                forall|j: int|
                    0 <= j < link_target@.len() ==> ((#[trigger] link_target@[j]) matches Some(t)
                        ==> t < num_chunks),
                forall|j: int|
                    0 <= j < end_edges@.len() ==> (#[trigger] end_edges@[j]).0 < num_chunks,
                false_bits@.len() == num_chunks,
            decreases fuel,
        {
            if fuel == 0 {
                break;
            }
            fuel -= 1;
            let prefix = match pop_best(&mut frontier) {
                Some(p) => p,
                None => {
                    break;
                }
            };
            proof {
                assert(frontier_ok(frontier@, paths@.len() as int, num_chunks as int));
            }
            let cur_chunk_idx = prefix.chunk_idx;

            // Completions: every end edge leaving this chunk.
            let mut done = false;
            let mut ee: usize = 0;
            while ee < end_edges.len()
                invariant
                    ee <= end_edges@.len(),
                    self.wf(),
                    graph == &self.graph,
                    params == &self.params,
                    num_chunks == graph.chunks@.len(),
                    num_parts == graph.num_parts,
                    paths_ok(paths@, num_chunks as int),
                    prefix.head < paths@.len(),
                    cur_chunk_idx < num_chunks,
                    forall|j: int|
                        0 <= j < end_edges@.len() ==> (#[trigger] end_edges@[j]).0 < num_chunks,
                decreases end_edges@.len() - ee,
            {
                let (echunk, ecall, erot) = (end_edges[ee].0, end_edges[ee].1, end_edges[ee].2);
                if echunk == cur_chunk_idx {
                    let chain = collect_chain(&paths, prefix.head, ecall, erot, num_chunks);
                    match finalise_composition(graph, params, &chain, num_comps) {
                        Some(comp) => {
                            consumer.on_update(Update::Comp(comp));
                            num_comps = match num_comps.checked_add(1) {
                                Some(v) => v,
                                None => usize::MAX,
                            };
                            if num_comps >= params.num_comps {
                                done = true;
                            }
                        }
                        None => {}
                    }
                }
                ee += 1;
            }
            if done {
                break;
            }

            // Expansion: push every viable extension of this prefix.
            let succs = &graph.chunks[cur_chunk_idx].successors;
            let mut sc: usize = 0;
            while sc < succs.len()
                invariant
                    sc <= succs@.len(),
                    self.wf(),
                    graph == &self.graph,
                    params == &self.params,
                    num_chunks == graph.chunks@.len(),
                    num_parts == graph.num_parts,
                    paths_ok(paths@, num_chunks as int),
                    frontier_ok(frontier@, paths@.len() as int, num_chunks as int),
                    prefix.head < paths@.len(),
                    prefix.per_part_len <= MAX_COMP_LENGTH,
                    cur_chunk_idx < num_chunks,
                    link_target@.len() == graph.links.slots@.len(),
                    false_bits@.len() == num_chunks,
                    forall|j: int|
                        0 <= j < link_target@.len() ==> ((#[trigger] link_target@[j]) matches Some(
                            t,
                        ) ==> t < num_chunks),
                decreases succs@.len() - sc,
            {
                let lid = succs[sc];
                if lid.0 < link_target.len() {
                    match link_target[lid.0] {
                        Some(t) => {
                            let (call, lrot) = match graph.links.get(lid) {
                                Some(l) => (l.call, l.ph_rotation),
                                None => (None, 0),
                            };
                            let next = &graph.chunks[t];
                            // Length bound: one more chunk must still fit.
                            let new_len = match prefix.per_part_len.checked_add(
                                next.per_part_length,
                            ) {
                                Some(v) => v,
                                None => usize::MAX,
                            };
                            let total_ok = match new_len.checked_mul(num_parts) {
                                Some(total) => total <= params.length.max,
                                None => false,
                            };
                            // Duffer bounds.
                            let new_run = if next.duffer {
                                match prefix.run_duffer.checked_add(next.per_part_length) {
                                    Some(v) => v,
                                    None => usize::MAX,
                                }
                            } else {
                                0
                            };
                            let new_total_duffer = if next.duffer {
                                match prefix.total_duffer.checked_add(next.per_part_length) {
                                    Some(v) => v,
                                    None => usize::MAX,
                                }
                            } else {
                                prefix.total_duffer
                            };
                            let duffer_ok = (match params.max_contiguous_duffer {
                                Some(m) => new_run <= m,
                                None => true,
                            }) && (match params.max_total_duffer {
                                Some(m) => new_total_duffer <= m,
                                None => true,
                            });
                            // An admissible lower bound: the rows still
                            // needed after this chunk must fit too.
                            let bound_ok = match new_len.checked_mul(num_parts) {
                                Some(total) => match total.checked_add(
                                    next.lb_distance_to_rounds,
                                ) {
                                    Some(t2) => t2 <= params.length.max,
                                    None => false,
                                },
                                None => false,
                            };
                            if total_ok && bound_ok && new_len <= MAX_COMP_LENGTH && duffer_ok
                                && !path_is_false_against(
                                &paths,
                                prefix.head,
                                &false_bits[t],
                                t,
                                num_chunks,
                            ) {
                                let mut new_score = sat_add(next.music.score, prefix.score);
                                match call {
                                    Some(c) => {
                                        if c < params.calls.len() {
                                            new_score = sat_add(
                                                new_score,
                                                params.calls[c].weight,
                                            );
                                        }
                                    }
                                    None => {}
                                }
                                let new_rot: u16 = if num_parts <= 1 {
                                    0
                                } else {
                                    (((prefix.rot as usize) + (lrot as usize)) % num_parts) as u16
                                };
                                let new_head = paths.len();
                                let ghost paths0 = paths@;
                                paths.push(
                                    PathNode {
                                        parent: prefix.head,
                                        chunk_idx: t,
                                        call,
                                        rot: lrot,
                                    },
                                );
                                proof {
                                    assert forall|i: int| 0 <= i < paths@.len() implies (((
                                    #[trigger] paths@[i]).parent == NO_PARENT || paths@[i].parent
                                        < i) && paths@[i].chunk_idx < num_chunks) by {
                                        if i < paths@.len() - 1 {
                                            assert(paths@[i] == paths0[i]);
                                        }
                                    }
                                }
                                heap_push(
                                    &mut frontier,
                                    CompPrefix {
                                        head: new_head,
                                        chunk_idx: t,
                                        per_part_len: new_len,
                                        score: new_score,
                                        rot: new_rot,
                                        total_duffer: new_total_duffer,
                                        run_duffer: new_run,
                                    },
                                );
                            }
                        }
                        None => {}
                    }
                }
                sc += 1;
            }

            // Memory accounting; truncate the queue and collect the paths
            // when over budget.
            let mem_frontier = match frontier.len().checked_mul(PREFIX_BYTES) {
                Some(v) => v,
                None => usize::MAX,
            };
            let mem_paths = match paths.len().checked_mul(NODE_BYTES) {
                Some(v) => v,
                None => usize::MAX,
            };
            let mem = match mem_frontier.checked_add(mem_paths) {
                Some(v) => v,
                None => usize::MAX,
            };
            if mem >= self.config.mem_limit {
                send_progress(consumer, &frontier, iter_count, num_comps, true, false);
                let ghost fr0 = frontier@;
                truncate_queue(frontier.len() / 2, &mut frontier);
                proof {
                    assert forall|i: int| 0 <= i < frontier@.len() implies ((
                    #[trigger] frontier@[i]).head < paths@.len() && frontier@[i].chunk_idx
                        < num_chunks && frontier@[i].per_part_len <= MAX_COMP_LENGTH) by {
                        assert(from_old(fr0, frontier@[i]));
                        let k = choose|k: int| 0 <= k < fr0.len() && #[trigger] fr0[k]
                            == frontier@[i];
                    }
                }
                gc_paths(&mut paths, &mut frontier, num_chunks);
                send_progress(consumer, &frontier, iter_count, num_comps, false, false);
            }

            iter_count = match iter_count.checked_add(1) {
                Some(v) => v,
                None => usize::MAX,
            };
            if iter_count % ITERS_BETWEEN_ABORT_CHECKS == 0 && abort_flag.load(Ordering::Relaxed) {
                consumer.on_update(Update::Aborting);
                aborting = true;
                break;
            }
            if iter_count % ITERS_BETWEEN_PROGRESS_UPDATES == 0 {
                send_progress(consumer, &frontier, iter_count, num_comps, false, false);
            }
        }
        if !aborting {
            send_progress(consumer, &frontier, iter_count, num_comps, false, false);
        }
        consumer.on_update(Update::Complete);
    }
}

/// Reports the queue's shape to the consumer.
fn send_progress<C: UpdateConsumer>(
    consumer: &mut C,
    frontier: &Vec<CompPrefix>,
    iter_count: usize,
    num_comps: usize,
    truncating_queue: bool,
    aborting: bool,
)
{
    let mut total_len: u64 = 0;
    let mut max_length: usize = 0;
    let mut i: usize = 0;
    while i < frontier.len()
        invariant
            i <= frontier@.len(),
        decreases frontier@.len() - i,
    {
        let l = frontier[i].per_part_len;
        total_len = match total_len.checked_add(l as u64) {
            Some(v) => v,
            None => u64::MAX,
        };
        if l > max_length {
            max_length = l;
        }
        i += 1;
    }
    let avg_length: usize = if frontier.len() == 0 {
        0
    } else {
        let avg64 = total_len / (frontier.len() as u64);
        if avg64 > (usize::MAX as u64) {
            usize::MAX
        } else {
            avg64 as usize
        }
    };
    consumer.on_update(
        Update::Progress(
            Progress {
                iter_count,
                num_comps,
                queue_len: frontier.len(),
                avg_length,
                max_length,
                truncating_queue,
                aborting,
            },
        ),
    );
}

} // verus!
