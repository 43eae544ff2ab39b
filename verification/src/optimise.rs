//! The graph optimiser: passes that shrink the composition graph without
//! losing any valid composition, run to a fixed point.
//!
//! Every pass is monotone: it only removes chunks, raises distance bounds,
//! or marks chunks as required.  The spec [`subgraph_of`] states that, and
//! every pass ensures it.

use vstd::prelude::*;

use crate::graph::{count_links, fc_contains, ids_contain, Chunk, ChunkId, Graph, Link, LinkId, LinkSide};
use crate::params::Parameters;

verus! {

/// Whether two falseness lists name the same chunks in the same order.
pub open spec fn fc_same(a: Seq<ChunkId>, b: Seq<ChunkId>) -> bool {
    &&& a.len() == b.len()
    &&& forall|k: int| 0 <= k < a.len() ==> (#[trigger] a[k])@ == b[k]@
}

/// Whether no required chunk of `g` other than chunk `i` itself lists chunk
/// `i` as false: the condition under which the falseness prune keeps a chunk.
pub open spec fn no_required_conflict(g: &Graph, i: int) -> bool {
    forall|r: int|
        0 <= r < g.chunks@.len() && r != i && (#[trigger] g.chunks@[r]).required ==> !fc_contains(
            g.chunks@[r].false_chunks@,
            g.chunk_ids@[i]@,
        )
}

/// Whether chunk `n` is chunk `o` carried through an optimiser pass: the
/// payload is untouched, the distance bounds may only have grown, and the
/// required flag may only have been switched on.
pub open spec fn chunk_carried(n: Chunk, o: Chunk) -> bool {
    &&& n.per_part_length == o.per_part_length
    &&& n.total_length == o.total_length
    &&& n.method_counts@ == o.method_counts@
    &&& n.music.score == o.music.score
    &&& n.music.counts@ == o.music.counts@
    &&& fc_same(n.false_chunks@, o.false_chunks@)
    &&& n.lb_distance_from_rounds >= o.lb_distance_from_rounds
    &&& n.lb_distance_to_rounds >= o.lb_distance_to_rounds
    &&& (o.required ==> n.required)
    &&& n.duffer == o.duffer
}

/// Whether `old` holds a kept chunk (per `keep`) with the given id.
pub open spec fn kept_from(old: &Graph, keep: Seq<bool>, id: crate::graph::ChunkIdV) -> bool {
    exists|k: int|
        0 <= k < old.chunks@.len() && keep[k] && (#[trigger] old.chunk_ids@[k])@ == id
}

/// Whether `old` holds a kept chunk (per `keep`) with this id whose fields
/// all agree with `c`: carried in both directions, so the payload and the
/// bounds are unchanged.
pub open spec fn kept_mutual(
    old_g: &Graph,
    keep: Seq<bool>,
    id: crate::graph::ChunkIdV,
    c: Chunk,
) -> bool {
    exists|k: int|
        0 <= k < old_g.chunks@.len() && keep[k] && (#[trigger] old_g.chunk_ids@[k])@ == id
            && chunk_carried(c, old_g.chunks@[k]) && chunk_carried(old_g.chunks@[k], c)
}

/// Whether a chunk with this id exists in `old` and is carried into `c`.
pub open spec fn carried_into(id: crate::graph::ChunkIdV, c: Chunk, old: &Graph) -> bool {
    exists|k: int|
        0 <= k < old.chunks@.len() && (#[trigger] old.chunk_ids@[k])@ == id && chunk_carried(
            c,
            old.chunks@[k],
        )
}

/// Whether a boundary entry (a start or end) occurs in a boundary table.
pub open spec fn pair_in(table: Seq<(LinkId, ChunkId)>, p: (LinkId, ChunkId)) -> bool {
    exists|k: int|
        0 <= k < table.len() && (#[trigger] table[k]).0 == p.0 && table[k].1@ == p.1@
}

/// Every boundary table contains its own entries.
pub proof fn lemma_boundary_refl(table: Seq<(LinkId, ChunkId)>)
    ensures
        forall|i: int| 0 <= i < table.len() ==> pair_in(table, #[trigger] table[i]),
{
    assert forall|i: int| 0 <= i < table.len() implies pair_in(table, #[trigger] table[i]) by {
        assert((table[i]).0 == table[i].0 && table[i].1@ == table[i].1@);
    }
}

/// Optimiser monotonicity: every chunk of `new` is a chunk of `old`,
/// carried; every surviving link is the old link under its old id; and
/// every start and end entry stood in the old table.  No pass may add a
/// chunk, a link or a boundary entry, lower a distance bound, or clear a
/// required flag.
pub open spec fn subgraph_of(new: &Graph, old: &Graph) -> bool {
    &&& new.chunk_ids@.len() == new.chunks@.len()
    &&& new.num_parts == old.num_parts
    &&& forall|i: int|
        0 <= i < new.chunks@.len() ==> carried_into(
            (#[trigger] new.chunk_ids@[i])@,
            new.chunks@[i],
            old,
        )
    &&& new.links.slots@.len() == old.links.slots@.len()
    &&& forall|i: int|
        0 <= i < new.links.slots@.len() ==> ((#[trigger] new.links.slots@[i]) is Some
            ==> new.links.slots@[i] == old.links.slots@[i])
    &&& forall|i: int| 0 <= i < new.starts@.len() ==> pair_in(old.starts@, #[trigger] new.starts@[i])
    &&& forall|i: int| 0 <= i < new.ends@.len() ==> pair_in(old.ends@, #[trigger] new.ends@[i])
}

/// Carrying chunks composes.
pub proof fn lemma_chunk_carried_trans(a: Chunk, b: Chunk, c: Chunk)
    requires
        chunk_carried(a, b),
        chunk_carried(b, c),
    ensures
        chunk_carried(a, c),
{
}

/// Being a subgraph composes: what two passes leave behind is a subgraph of
/// what the first pass started from.
pub proof fn lemma_subgraph_trans(c: &Graph, b: &Graph, a: &Graph)
    requires
        subgraph_of(c, b),
        subgraph_of(b, a),
    ensures
        subgraph_of(c, a),
{
    assert forall|i: int| 0 <= i < c.chunks@.len() implies carried_into(
        (#[trigger] c.chunk_ids@[i])@,
        c.chunks@[i],
        a,
    ) by {
        assert(carried_into(c.chunk_ids@[i]@, c.chunks@[i], b));
        let kb = choose|kb: int|
            0 <= kb < b.chunks@.len() && (#[trigger] b.chunk_ids@[kb])@ == c.chunk_ids@[i]@
                && chunk_carried(c.chunks@[i], b.chunks@[kb]);
        assert(carried_into(b.chunk_ids@[kb]@, b.chunks@[kb], a));
        let ka = choose|ka: int|
            0 <= ka < a.chunks@.len() && (#[trigger] a.chunk_ids@[ka])@ == b.chunk_ids@[kb]@
                && chunk_carried(b.chunks@[kb], a.chunks@[ka]);
        lemma_chunk_carried_trans(c.chunks@[i], b.chunks@[kb], a.chunks@[ka]);
        assert(0 <= ka < a.chunks@.len() && (a.chunk_ids@[ka])@ == c.chunk_ids@[i]@
            && chunk_carried(c.chunks@[i], a.chunks@[ka]));
    }
    assert forall|i: int| 0 <= i < c.starts@.len() implies pair_in(
        a.starts@,
        #[trigger] c.starts@[i],
    ) by {
        assert(pair_in(b.starts@, c.starts@[i]));
        let kb = choose|kb: int|
            0 <= kb < b.starts@.len() && (#[trigger] b.starts@[kb]).0 == c.starts@[i].0
                && b.starts@[kb].1@ == c.starts@[i].1@;
        assert(pair_in(a.starts@, b.starts@[kb]));
        let ka = choose|ka: int|
            0 <= ka < a.starts@.len() && (#[trigger] a.starts@[ka]).0 == b.starts@[kb].0
                && a.starts@[ka].1@ == b.starts@[kb].1@;
        assert(0 <= ka < a.starts@.len() && (a.starts@[ka]).0 == c.starts@[i].0
            && a.starts@[ka].1@ == c.starts@[i].1@);
    }
    assert forall|i: int| 0 <= i < c.ends@.len() implies pair_in(
        a.ends@,
        #[trigger] c.ends@[i],
    ) by {
        assert(pair_in(b.ends@, c.ends@[i]));
        let kb = choose|kb: int|
            0 <= kb < b.ends@.len() && (#[trigger] b.ends@[kb]).0 == c.ends@[i].0
                && b.ends@[kb].1@ == c.ends@[i].1@;
        assert(pair_in(a.ends@, b.ends@[kb]));
        let ka = choose|ka: int|
            0 <= ka < a.ends@.len() && (#[trigger] a.ends@[ka]).0 == b.ends@[kb].0
                && a.ends@[ka].1@ == b.ends@[kb].1@;
        assert(0 <= ka < a.ends@.len() && (a.ends@[ka]).0 == c.ends@[i].0 && a.ends@[ka].1@
            == c.ends@[i].1@);
    }
}

impl Clone for Chunk {
    /// Cloning preserves every field of the chunk.
    fn clone(&self) -> (r: Self)
        ensures
            r.predecessors@ == self.predecessors@,
            r.successors@ == self.successors@,
            fc_same(r.false_chunks@, self.false_chunks@),
            r.per_part_length == self.per_part_length,
            r.total_length == self.total_length,
            r.method_counts@ == self.method_counts@,
            r.music.score == self.music.score,
            r.music.counts@ == self.music.counts@,
            r.required == self.required,
            r.lb_distance_from_rounds == self.lb_distance_from_rounds,
            r.lb_distance_to_rounds == self.lb_distance_to_rounds,
            r.duffer == self.duffer,
    {
        let mut false_chunks: Vec<ChunkId> = Vec::new();
        let mut i: usize = 0;
        while i < self.false_chunks.len()
            invariant
                i <= self.false_chunks@.len(),
                false_chunks@.len() == i,
                forall|k: int|
                    0 <= k < i ==> (#[trigger] false_chunks@[k])@ == self.false_chunks@[k]@,
            decreases self.false_chunks@.len() - i,
        {
            false_chunks.push(self.false_chunks[i].clone());
            i += 1;
        }
        let preds = self.predecessors.clone();
        let succs = self.successors.clone();
        let mc = self.method_counts.clone();
        proof {
            assert(preds@ =~= self.predecessors@);
            assert(succs@ =~= self.successors@);
            assert(mc@ =~= self.method_counts@);
        }
        Chunk {
            predecessors: preds,
            successors: succs,
            false_chunks,
            per_part_length: self.per_part_length,
            total_length: self.total_length,
            method_counts: mc,
            music: self.music.clone(),
            required: self.required,
            lb_distance_from_rounds: self.lb_distance_from_rounds,
            lb_distance_to_rounds: self.lb_distance_to_rounds,
            duffer: self.duffer,
        }
    }
}

impl Graph {
    /// Keeps exactly the chunks marked `true`; links, starts and ends are
    /// left for the reference-stripping pass.
    pub fn retain_chunks(&mut self, keep: &Vec<bool>)
        requires
            old(self).wf(),
            keep@.len() == old(self).chunks@.len(),
        ensures
            final(self).wf(),
            subgraph_of(final(self), old(self)),
            forall|k: int|
                0 <= k < keep@.len() && keep@[k] ==> ids_contain(
                    final(self).chunk_ids@,
                    (#[trigger] old(self).chunk_ids@[k])@,
                ),
            forall|i: int|
                0 <= i < final(self).chunks@.len() ==> kept_from(
                    old(self),
                    keep@,
                    (#[trigger] final(self).chunk_ids@[i])@,
                ),
            forall|i: int|
                0 <= i < final(self).chunks@.len() ==> kept_mutual(
                    old(self),
                    keep@,
                    (#[trigger] final(self).chunk_ids@[i])@,
                    final(self).chunks@[i],
                ),
            final(self).links == old(self).links,
            final(self).starts == old(self).starts,
            final(self).ends == old(self).ends,
    {
        let n = self.chunks.len();
        let mut new_ids: Vec<ChunkId> = Vec::new();
        let mut new_chunks: Vec<Chunk> = Vec::new();
        let ghost mut src: Seq<int> = Seq::empty();
        let mut k: usize = 0;
        while k < n
            invariant
                k <= n,
                *self == *old(self),
                n == self.chunks@.len() == self.chunk_ids@.len() == keep@.len(),
                self.wf(),
                new_ids@.len() == new_chunks@.len() == src.len(),
                forall|i: int| 0 <= i < src.len() ==> 0 <= #[trigger] src[i] < k,
                forall|i: int, j: int| 0 <= i < j < src.len() ==> src[i] < src[j],
                forall|i: int|
                    0 <= i < src.len() ==> (#[trigger] new_ids@[i])@ == self.chunk_ids@[src[i]]@
                        && keep@[src[i]] && chunk_carried(new_chunks@[i], self.chunks@[src[i]])
                        && chunk_carried(self.chunks@[src[i]], new_chunks@[i]),
                forall|p: int|
                    0 <= p < k && keep@[p] ==> ids_contain(new_ids@, (
                    #[trigger] self.chunk_ids@[p])@),
            decreases n - k,
        {
            if keep[k] {
                let ghost old_ids = new_ids@;
                new_ids.push(self.chunk_ids[k].clone());
                new_chunks.push(self.chunks[k].clone());
                proof {
                    src = src.push(k as int);
                    assert forall|p: int|
                        0 <= p < k + 1 && keep@[p] implies ids_contain(new_ids@, (
                        #[trigger] self.chunk_ids@[p])@) by {
                        if p < k {
                            let j = choose|j: int|
                                0 <= j < old_ids.len() && (#[trigger] old_ids[j])@
                                    == self.chunk_ids@[p]@;
                            assert((new_ids@[j])@ == self.chunk_ids@[p]@);
                        } else {
                            assert((new_ids@[new_ids@.len() - 1])@ == self.chunk_ids@[p]@);
                        }
                    }
                }
            }
            k += 1;
        }
        let ghost gids = new_ids@;
        let ghost gchunks = new_chunks@;
        proof {
            assert(gids.len() == new_chunks@.len());
            assert(self.chunk_ids@ == old(self).chunk_ids@);
            assert(self.chunks@ == old(self).chunks@);
            // Everything the postconditions need, phrased over the new
            // vectors before they are moved into place.
            assert forall|i: int| 0 <= i < new_chunks@.len() implies carried_into(
                (#[trigger] new_ids@[i])@,
                new_chunks@[i],
                old(self),
            ) by {
                let s2 = src[i];
                assert(0 <= s2 < old(self).chunks@.len() && (old(self).chunk_ids@[s2])@ == (
                new_ids@[i])@ && chunk_carried(new_chunks@[i], old(self).chunks@[s2]));
            }
            assert forall|i: int| 0 <= i < gids.len() implies kept_from(
                old(self),
                keep@,
                (#[trigger] gids[i])@,
            ) && kept_mutual(old(self), keep@, (gids[i])@, gchunks[i]) by {
                let s2 = src[i];
                let ghost v = new_ids@[i];
                assert(gids[i] == new_ids@[i]);
                assert(gchunks[i] == new_chunks@[i]);
                assert(v@ == self.chunk_ids@[s2]@ && keep@[s2]);
                assert(chunk_carried(new_chunks@[i], self.chunks@[s2]) && chunk_carried(
                    self.chunks@[s2],
                    new_chunks@[i],
                ));
                assert(0 <= s2 < old(self).chunks@.len() && keep@[s2] && (old(
                    self,
                ).chunk_ids@[s2])@ == (gids[i])@);
            }
            assert forall|i: int, j: int|
                0 <= i < new_ids@.len() && 0 <= j < new_ids@.len() && i != j implies (
            #[trigger] new_ids@[i])@ != (#[trigger] new_ids@[j])@ by {
                assert(src[i] != src[j]);
                assert(old(self).chunk_ids@[src[i]]@ != old(self).chunk_ids@[src[j]]@);
            }
            assert forall|i: int| 0 <= i < new_chunks@.len() implies fc_contains(
                (#[trigger] new_chunks@[i]).false_chunks@,
                new_ids@[i]@,
            ) by {
                let s2 = src[i];
                let ghost v = new_ids@[i];
                assert(0 <= i < src.len());
                assert(chunk_carried(new_chunks@[i], self.chunks@[s2]));
                assert(self.chunks@ == old(self).chunks@ && self.chunk_ids@ == old(
                    self,
                ).chunk_ids@);
                assert(fc_contains(
                    old(self).chunks@[s2].false_chunks@,
                    old(self).chunk_ids@[s2]@,
                ));
                fc_contains_same(
                    new_chunks@[i].false_chunks@,
                    old(self).chunks@[s2].false_chunks@,
                    old(self).chunk_ids@[s2]@,
                );
            }
            assert forall|i: int, j: int|
                0 <= i < new_chunks@.len() && 0 <= j < new_chunks@.len() implies (fc_contains(
                (#[trigger] new_chunks@[i]).false_chunks@,
                new_ids@[j]@,
            ) <==> fc_contains(
                (#[trigger] new_chunks@[j]).false_chunks@,
                new_ids@[i]@,
            )) by {
                let si = src[i];
                let sj = src[j];
                assert(fc_contains(old(self).chunks@[si].false_chunks@, old(self).chunk_ids@[sj]@)
                    <==> fc_contains(
                    old(self).chunks@[sj].false_chunks@,
                    old(self).chunk_ids@[si]@,
                ));
                fc_contains_same(
                    new_chunks@[i].false_chunks@,
                    old(self).chunks@[si].false_chunks@,
                    old(self).chunk_ids@[sj]@,
                );
                fc_contains_same(
                    new_chunks@[j].false_chunks@,
                    old(self).chunks@[sj].false_chunks@,
                    old(self).chunk_ids@[si]@,
                );
            }
        }
        self.chunk_ids = new_ids;
        self.chunks = new_chunks;
        proof {
            assert(self.chunk_ids@ == gids);
            assert forall|i: int| 0 <= i < self.chunks@.len() implies kept_from(
                old(self),
                keep@,
                (#[trigger] self.chunk_ids@[i])@,
            ) && kept_mutual(
                old(self),
                keep@,
                (self.chunk_ids@[i])@,
                self.chunks@[i],
            ) by {
                assert(self.chunk_ids@[i] == gids[i]);
                assert(self.chunks@[i] == gchunks[i]);
                assert(kept_from(old(self), keep@, gids[i]@));
                assert(kept_mutual(old(self), keep@, gids[i]@, gchunks[i]));
            }
        }
    }
}


/// A graph whose chunks are the old ones carried in place is well-formed,
/// and each of its chunks is carried from the old graph.
pub proof fn lemma_wf_from_carried(new: &Graph, old: &Graph)
    requires
        old.wf(),
        new.chunk_ids@ == old.chunk_ids@,
        new.chunks@.len() == old.chunks@.len(),
        new.num_parts == old.num_parts,
        forall|j: int|
            0 <= j < new.chunks@.len() ==> chunk_carried(#[trigger] new.chunks@[j], old.chunks@[j]),
    ensures
        new.wf(),
        forall|i: int|
            0 <= i < new.chunks@.len() ==> carried_into(
                (#[trigger] new.chunk_ids@[i])@,
                new.chunks@[i],
                old,
            ),
{
    assert forall|i: int| 0 <= i < new.chunks@.len() implies fc_contains(
        (#[trigger] new.chunks@[i]).false_chunks@,
        new.chunk_ids@[i]@,
    ) by {
        fc_contains_same(
            new.chunks@[i].false_chunks@,
            old.chunks@[i].false_chunks@,
            old.chunk_ids@[i]@,
        );
    }
    assert forall|i: int, j: int|
        0 <= i < new.chunks@.len() && 0 <= j < new.chunks@.len() && new.chunk_ids@.len()
            == new.chunks@.len() implies (fc_contains(
        (#[trigger] new.chunks@[i]).false_chunks@,
        new.chunk_ids@[j]@,
    ) <==> fc_contains((#[trigger] new.chunks@[j]).false_chunks@, new.chunk_ids@[i]@)) by {
        fc_contains_same(
            new.chunks@[i].false_chunks@,
            old.chunks@[i].false_chunks@,
            old.chunk_ids@[j]@,
        );
        fc_contains_same(
            new.chunks@[j].false_chunks@,
            old.chunks@[j].false_chunks@,
            old.chunk_ids@[i]@,
        );
    }
    assert forall|i: int| 0 <= i < new.chunks@.len() implies carried_into(
        (#[trigger] new.chunk_ids@[i])@,
        new.chunks@[i],
        old,
    ) by {
        assert(0 <= i < old.chunks@.len() && (old.chunk_ids@[i])@ == (new.chunk_ids@[i])@
            && chunk_carried(new.chunks@[i], old.chunks@[i]));
    }
}

/// A graph is a subgraph of itself.
pub proof fn lemma_subgraph_refl(g: &Graph)
    requires
        g.chunk_ids@.len() == g.chunks@.len(),
    ensures
        subgraph_of(g, g),
{
    assert forall|i: int| 0 <= i < g.chunks@.len() implies carried_into(
        (#[trigger] g.chunk_ids@[i])@,
        g.chunks@[i],
        g,
    ) by {
        assert(0 <= i < g.chunks@.len() && (g.chunk_ids@[i])@ == (g.chunk_ids@[i])@
            && chunk_carried(g.chunks@[i], g.chunks@[i]));
    }
    lemma_boundary_refl(g.starts@);
    lemma_boundary_refl(g.ends@);
}

/// Whether both sides of a link name chunks the graph still holds (or the
/// composition boundary).
pub open spec fn link_sides_present(g: &Graph, l: Link) -> bool {
    &&& (l.from@ matches crate::graph::LinkSideV::Chunk(idv) ==> ids_contain(g.chunk_ids@, idv))
    &&& (l.to@ matches crate::graph::LinkSideV::Chunk(idv) ==> ids_contain(g.chunk_ids@, idv))
}

/// The infinite distance marker.
pub const DIST_UNREACHABLE: usize = usize::MAX;

impl Graph {
    /// Raises each chunk's distance bounds to the shortest row counts that
    /// relaxation over the links can justify: forwards from the starts, and
    /// backwards from the ends.  Bounds never decrease.  The contract
    /// states the bounds' monotonicity only; they are used for pruning, and
    /// every emitted composition is re-checked against the completion gates
    /// regardless of what the bounds hold.
    pub fn compute_distances(&mut self)
        requires
            old(self).wf(),
        ensures
            final(self).wf(),
            subgraph_of(final(self), old(self)),
            final(self).chunk_ids@ == old(self).chunk_ids@,
            final(self).links == old(self).links,
            final(self).starts == old(self).starts,
            final(self).ends == old(self).ends,
    {
        let n = self.chunks.len();
        let dist_from = self.relax_distances(true);
        let dist_to = self.relax_distances(false);
        let mut i: usize = 0;
        while i < n
            invariant
                i <= n,
                n == self.chunks@.len() == self.chunk_ids@.len(),
                self.chunks@.len() == old(self).chunks@.len(),
                self.chunk_ids@ == old(self).chunk_ids@,
                self.links == old(self).links,
                self.starts == old(self).starts,
                self.ends == old(self).ends,
                self.num_parts == old(self).num_parts,
                dist_from@.len() == n,
                dist_to@.len() == n,
                old(self).wf(),
                forall|j: int|
                    0 <= j < n ==> chunk_carried(#[trigger] self.chunks@[j], old(self).chunks@[j]),
            decreases n - i,
        {
            let mut c = self.chunks[i].clone();
            if dist_from[i] > c.lb_distance_from_rounds {
                c.lb_distance_from_rounds = dist_from[i];
            }
            if dist_to[i] > c.lb_distance_to_rounds {
                c.lb_distance_to_rounds = dist_to[i];
            }
            self.chunks.set(i, c);
            i += 1;
        }
        proof {
            lemma_wf_from_carried(self, old(self));
            lemma_boundary_refl(self.starts@);
            lemma_boundary_refl(self.ends@);
        }
    }

    /// One direction of distance relaxation: the shortest justified row
    /// count from a start to each chunk (`forwards`), or from each chunk's
    /// end to a graph end (backwards).
    fn relax_distances(&self, forwards: bool) -> (r: Vec<usize>)
        requires
            self.wf(),
        ensures
            r@.len() == self.chunks@.len(),
    {
        let n = self.chunks.len();
        let mut dist: Vec<usize> = Vec::new();
        let mut i: usize = 0;
        while i < n
            invariant
                i <= n,
                dist@.len() == i,
            decreases n - i,
        {
            dist.push(DIST_UNREACHABLE);
            i += 1;
        }
        // The boundary chunks start at distance zero.
        let boundary = if forwards {
            &self.starts
        } else {
            &self.ends
        };
        let mut b: usize = 0;
        while b < boundary.len()
            invariant
                dist@.len() == n,
                n == self.chunks@.len(),
                self.wf(),
                b <= boundary@.len(),
                boundary == if forwards {
                    &self.starts
                } else {
                    &self.ends
                },
            decreases boundary@.len() - b,
        {
            match self.find_chunk(&boundary[b].1) {
                Some(k) => {
                    dist.set(k, 0);
                }
                None => {}
            }
            b += 1;
        }
        // Relax every link `n` times: enough rounds for any shortest path.
        let mut round: usize = 0;
        while round < n
            invariant
                dist@.len() == n,
                n == self.chunks@.len(),
                self.wf(),
            decreases n - round,
        {
            let mut li: usize = 0;
            while li < self.links.slots.len()
                invariant
                    dist@.len() == n,
                    n == self.chunks@.len(),
                    self.wf(),
                    li <= self.links.slots@.len(),
                decreases self.links.slots@.len() - li,
            {
                match &self.links.slots[li] {
                    Some(link) => {
                        let (from_id, to_id) = match (&link.from, &link.to) {
                            (LinkSide::Chunk(a), LinkSide::Chunk(b2)) => (Some(a), Some(b2)),
                            _ => (None, None),
                        };
                        match (from_id, to_id) {
                            (Some(a), Some(b2)) => {
                                let ka = self.find_chunk(a);
                                let kb = self.find_chunk(b2);
                                match (ka, kb) {
                                    (Some(ka), Some(kb)) => {
                                        // Walking the link costs the rows of
                                        // the chunk on its near side.
                                        let (src_k, dst_k) = if forwards {
                                            (ka, kb)
                                        } else {
                                            (kb, ka)
                                        };
                                        let step = if forwards {
                                            self.chunks[ka].total_length
                                        } else {
                                            self.chunks[kb].total_length
                                        };
                                        let d = dist[src_k];
                                        if d < DIST_UNREACHABLE {
                                            let cand = match d.checked_add(step) {
                                                Some(c) => c,
                                                None => DIST_UNREACHABLE,
                                            };
                                            if cand < dist[dst_k] {
                                                dist.set(dst_k, cand);
                                            }
                                        }
                                    }
                                    _ => {}
                                }
                            }
                            _ => {}
                        }
                    }
                    None => {}
                }
                li += 1;
            }
            round += 1;
        }
        dist
    }

    /// Removes every chunk that no composition short enough can contain:
    /// those whose distance bounds plus their own length beat the longest
    /// length asked for.
    pub fn prune_lengths(&mut self, max_length: usize)
        requires
            old(self).wf(),
        ensures
            final(self).wf(),
            subgraph_of(final(self), old(self)),
            forall|k: int|
                0 <= k < old(self).chunks@.len() && (#[trigger] old(self).chunks@[k]).lb_distance_from_rounds
                    + old(self).chunks@[k].total_length + old(self).chunks@[k].lb_distance_to_rounds
                    <= max_length ==> ids_contain(
                    final(self).chunk_ids@,
                    old(self).chunk_ids@[k]@,
                ),
            forall|i: int|
                0 <= i < final(self).chunks@.len() ==> (
                #[trigger] final(self).chunks@[i]).lb_distance_from_rounds
                    + final(self).chunks@[i].total_length
                    + final(self).chunks@[i].lb_distance_to_rounds <= max_length,
    {
        let n = self.chunks.len();
        let mut keep: Vec<bool> = Vec::new();
        let mut i: usize = 0;
        while i < n
            invariant
                i <= n,
                n == self.chunks@.len(),
                *self == *old(self),
                keep@.len() == i,
                forall|j: int|
                    0 <= j < i ==> (#[trigger] keep@[j] == ((self.chunks@[j]).lb_distance_from_rounds
                        + self.chunks@[j].total_length + self.chunks@[j].lb_distance_to_rounds
                        <= max_length)),
            decreases n - i,
        {
            let c = &self.chunks[i];
            let fits = match c.lb_distance_from_rounds.checked_add(c.total_length) {
                Some(a) => match a.checked_add(c.lb_distance_to_rounds) {
                    Some(total) => total <= max_length,
                    None => false,
                },
                None => false,
            };
            keep.push(fits);
            i += 1;
        }
        let ghost before = *self;
        self.retain_chunks(&keep);
        proof {
            assert forall|i2: int| 0 <= i2 < self.chunks@.len() implies (
            #[trigger] self.chunks@[i2]).lb_distance_from_rounds + self.chunks@[i2].total_length
                + self.chunks@[i2].lb_distance_to_rounds <= max_length by {
                assert(kept_mutual(&before, keep@, (self.chunk_ids@[i2])@, self.chunks@[i2]));
                let k = choose|k: int|
                    0 <= k < before.chunks@.len() && keep@[k] && (#[trigger] before.chunk_ids@[k])@
                        == (self.chunk_ids@[i2])@ && chunk_carried(
                        self.chunks@[i2],
                        before.chunks@[k],
                    ) && chunk_carried(before.chunks@[k], self.chunks@[i2]);
                assert(before.chunks@[k].lb_distance_from_rounds + before.chunks@[k].total_length
                    + before.chunks@[k].lb_distance_to_rounds <= max_length);
            }
        }
    }

    /// Removes every chunk whose own method contribution already breaks a
    /// method's allowed count: no composition through it can keep that
    /// method within its range.
    pub fn prune_method_counts(&mut self, params: &Parameters)
        requires
            old(self).wf(),
            params.wf(),
        ensures
            final(self).wf(),
            subgraph_of(final(self), old(self)),
            forall|i: int|
                0 <= i < final(self).chunks@.len() ==> forall|m: int|
                    0 <= m < (#[trigger] final(self).chunks@[i]).method_counts@.len() && m
                        < params.method_count_ranges@.len() ==> (
                    #[trigger] final(self).chunks@[i].method_counts@[m])
                        <= params.method_count_ranges@[m].max,
    {
        let n = self.chunks.len();
        let mut keep: Vec<bool> = Vec::new();
        let mut i: usize = 0;
        while i < n
            invariant
                i <= n,
                n == self.chunks@.len(),
                *self == *old(self),
                self.wf(),
                params.wf(),
                keep@.len() == i,
                forall|j: int|
                    0 <= j < i ==> ((#[trigger] keep@[j]) ==> forall|m: int|
                        0 <= m < self.chunks@[j].method_counts@.len() && m
                            < params.method_count_ranges@.len() ==> (
                        #[trigger] self.chunks@[j].method_counts@[m])
                            <= params.method_count_ranges@[m].max),
            decreases n - i,
        {
            let counts = &self.chunks[i].method_counts;
            let mut ok = true;
            let mut m: usize = 0;
            while m < counts.len() && m < params.method_count_ranges.len()
                invariant
                    m <= counts@.len(),
                    i < n,
                    n == self.chunks@.len(),
                    counts == &self.chunks@[i as int].method_counts,
                    ok ==> forall|m2: int|
                        0 <= m2 < m && m2 < params.method_count_ranges@.len() ==> (
                        #[trigger] counts@[m2]) <= params.method_count_ranges@[m2].max,
                decreases counts@.len() - m,
            {
                if counts[m] > params.method_count_ranges[m].max {
                    ok = false;
                }
                m += 1;
            }
            proof {
                if ok {
                    assert(m >= counts@.len() || m >= params.method_count_ranges@.len());
                }
            }
            keep.push(ok);
            i += 1;
        }
        let ghost before = *self;
        self.retain_chunks(&keep);
        proof {
            assert forall|i2: int| 0 <= i2 < self.chunks@.len() implies forall|m2: int|
                0 <= m2 < (#[trigger] self.chunks@[i2]).method_counts@.len() && m2
                    < params.method_count_ranges@.len() ==> (
                #[trigger] self.chunks@[i2].method_counts@[m2])
                    <= params.method_count_ranges@[m2].max by {
                assert(kept_mutual(&before, keep@, (self.chunk_ids@[i2])@, self.chunks@[i2]));
                let k = choose|k: int|
                    0 <= k < before.chunks@.len() && keep@[k] && (#[trigger] before.chunk_ids@[k])@
                        == (self.chunk_ids@[i2])@ && chunk_carried(
                        self.chunks@[i2],
                        before.chunks@[k],
                    ) && chunk_carried(before.chunks@[k], self.chunks@[i2]);
                assert(self.chunks@[i2].method_counts@ == before.chunks@[k].method_counts@);
            }
        }
    }

    /// Strips references to chunks that are gone: dangling links, and start
    /// or end entries whose link or chunk has been removed.
    pub fn strip_refs(&mut self)
        requires
            old(self).wf(),
        ensures
            final(self).wf(),
            subgraph_of(final(self), old(self)),
            final(self).chunk_ids@ == old(self).chunk_ids@,
            final(self).chunks@ == old(self).chunks@,
            forall|i: int|
                0 <= i < final(self).links.slots@.len() ==> ((
                #[trigger] final(self).links.slots@[i]) matches Some(l) ==> link_sides_present(
                    final(self),
                    l,
                )),
            forall|i: int|
                0 <= i < final(self).starts@.len() ==> ids_contain(
                    final(self).chunk_ids@,
                    (#[trigger] final(self).starts@[i]).1@,
                ) && final(self).links.spec_get(final(self).starts@[i].0.0 as int) is Some,
            forall|i: int|
                0 <= i < final(self).ends@.len() ==> ids_contain(
                    final(self).chunk_ids@,
                    (#[trigger] final(self).ends@[i]).1@,
                ) && final(self).links.spec_get(final(self).ends@[i].0.0 as int) is Some,
    {
        let n_links = self.links.slots.len();
        let mut li: usize = 0;
        while li < n_links
            invariant
                li <= n_links,
                n_links == self.links.slots@.len(),
                self.chunk_ids@ == old(self).chunk_ids@,
                self.chunks@ == old(self).chunks@,
                self.starts == old(self).starts,
                self.ends == old(self).ends,
                self.num_parts == old(self).num_parts,
                old(self).wf(),
                self.chunk_ids@.len() == self.chunks@.len(),
                forall|j: int|
                    0 <= j < li ==> ((#[trigger] self.links.slots@[j]) matches Some(l)
                        ==> link_sides_present(self, l)),
                forall|j: int|
                    0 <= j < self.links.slots@.len() ==> ((#[trigger] self.links.slots@[j])
                        is Some ==> self.links.slots@[j] == old(self).links.slots@[j]),
            decreases n_links - li,
        {
            let keep = match &self.links.slots[li] {
                Some(link) => {
                    let from_ok = match &link.from {
                        LinkSide::StartOrEnd => true,
                        LinkSide::Chunk(id) => match self.find_chunk(id) {
                            Some(_) => true,
                            None => false,
                        },
                    };
                    let to_ok = match &link.to {
                        LinkSide::StartOrEnd => true,
                        LinkSide::Chunk(id) => match self.find_chunk(id) {
                            Some(_) => true,
                            None => false,
                        },
                    };
                    from_ok && to_ok
                }
                None => true,
            };
            if !keep {
                self.links.slots.set(li, None);
            }
            li += 1;
        }
        // Trim starts and ends whose link or chunk has gone.
        let mut new_starts: Vec<(LinkId, ChunkId)> = Vec::new();
        let mut s: usize = 0;
        while s < self.starts.len()
            invariant
                s <= self.starts@.len(),
                self.chunk_ids@ == old(self).chunk_ids@,
                self.chunks@ == old(self).chunks@,
                self.num_parts == old(self).num_parts,
                old(self).wf(),
                self.chunk_ids@.len() == self.chunks@.len(),
                self.starts == old(self).starts,
                forall|j: int|
                    0 <= j < self.links.slots@.len() ==> ((#[trigger] self.links.slots@[j])
                        is Some ==> self.links.slots@[j] == old(self).links.slots@[j]),
                forall|j: int|
                    0 <= j < new_starts@.len() ==> ids_contain(
                        self.chunk_ids@,
                        (#[trigger] new_starts@[j]).1@,
                    ) && self.links.spec_get(new_starts@[j].0.0 as int) is Some && pair_in(
                        old(self).starts@,
                        new_starts@[j],
                    ),
            decreases self.starts@.len() - s,
        {
            let (lid, cid) = (self.starts[s].0, self.starts[s].1.clone());
            if self.links.contains(lid) {
                match self.find_chunk(&cid) {
                    Some(_) => {
                        proof {
                            assert((old(self).starts@[s as int]).0 == lid && old(
                                self,
                            ).starts@[s as int].1@ == cid@);
                        }
                        new_starts.push((lid, cid));
                    }
                    None => {}
                }
            }
            s += 1;
        }
        let ghost gstarts = new_starts@;
        self.starts = new_starts;
        let mut new_ends: Vec<(LinkId, ChunkId)> = Vec::new();
        let mut e: usize = 0;
        while e < self.ends.len()
            invariant
                e <= self.ends@.len(),
                self.chunk_ids@ == old(self).chunk_ids@,
                self.chunks@ == old(self).chunks@,
                self.num_parts == old(self).num_parts,
                old(self).wf(),
                self.chunk_ids@.len() == self.chunks@.len(),
                self.starts@ == gstarts,
                self.ends == old(self).ends,
                forall|j: int|
                    0 <= j < self.links.slots@.len() ==> ((#[trigger] self.links.slots@[j])
                        is Some ==> self.links.slots@[j] == old(self).links.slots@[j]),
                forall|j: int|
                    0 <= j < gstarts.len() ==> ids_contain(
                        self.chunk_ids@,
                        (#[trigger] gstarts[j]).1@,
                    ) && self.links.spec_get(gstarts[j].0.0 as int) is Some && pair_in(
                        old(self).starts@,
                        gstarts[j],
                    ),
                forall|j: int|
                    0 <= j < new_ends@.len() ==> ids_contain(
                        self.chunk_ids@,
                        (#[trigger] new_ends@[j]).1@,
                    ) && self.links.spec_get(new_ends@[j].0.0 as int) is Some && pair_in(
                        old(self).ends@,
                        new_ends@[j],
                    ),
            decreases self.ends@.len() - e,
        {
            let (lid, cid) = (self.ends[e].0, self.ends[e].1.clone());
            if self.links.contains(lid) {
                match self.find_chunk(&cid) {
                    Some(_) => {
                        proof {
                            assert((old(self).ends@[e as int]).0 == lid && old(
                                self,
                            ).ends@[e as int].1@ == cid@);
                        }
                        new_ends.push((lid, cid));
                    }
                    None => {}
                }
            }
            e += 1;
        }
        let ghost gends = new_ends@;
        self.ends = new_ends;
        proof {
            assert(self.chunks@ =~= old(self).chunks@);
            lemma_wf_from_carried(self, old(self));
            assert forall|j: int| 0 <= j < self.starts@.len() implies ids_contain(
                self.chunk_ids@,
                (#[trigger] self.starts@[j]).1@,
            ) && self.links.spec_get(self.starts@[j].0.0 as int) is Some && pair_in(
                old(self).starts@,
                self.starts@[j],
            ) by {
                assert(self.starts@[j] == gstarts[j]);
                assert(pair_in(old(self).starts@, gstarts[j]));
            }
            assert forall|j: int| 0 <= j < self.ends@.len() implies ids_contain(
                self.chunk_ids@,
                (#[trigger] self.ends@[j]).1@,
            ) && self.links.spec_get(self.ends@[j].0.0 as int) is Some && pair_in(
                old(self).ends@,
                self.ends@[j],
            ) by {
                assert(self.ends@[j] == gends[j]);
                assert(pair_in(old(self).ends@, gends[j]));
            }
        }
    }
}


/// The number of `true` entries in a flag sequence.
pub open spec fn count_true(s: Seq<bool>) -> int
    decreases s.len(),
{
    if s.len() == 0 {
        0
    } else {
        count_true(s.drop_last()) + if s.last() {
            1int
        } else {
            0int
        }
    }
}

pub proof fn lemma_count_true_bound(s: Seq<bool>)
    ensures
        0 <= count_true(s) <= s.len(),
    decreases s.len(),
{
    if s.len() > 0 {
        lemma_count_true_bound(s.drop_last());
    }
}

/// Setting a `false` flag to `true` raises the count by one.
pub proof fn lemma_count_true_update(s: Seq<bool>, i: int)
    requires
        0 <= i < s.len(),
        !s[i],
    ensures
        count_true(s.update(i, true)) == count_true(s) + 1,
    decreases s.len(),
{
    if i == s.len() - 1 {
        assert(s.update(i, true).drop_last() =~= s.drop_last());
    } else {
        assert(s.update(i, true).drop_last() =~= s.drop_last().update(i, true));
        lemma_count_true_update(s.drop_last(), i);
    }
}

impl Graph {
    /// Whether any end chunk can be reached from a start without passing
    /// through the avoided chunk.
    fn end_reachable_without(&self, avoid: usize) -> (r: bool)
        requires
            self.wf(),
    {
        let n = self.chunks.len();
        let mut visited: Vec<bool> = Vec::new();
        let mut i: usize = 0;
        while i < n
            invariant
                i <= n,
                visited@.len() == i,
                forall|j: int| 0 <= j < i ==> !visited@[j],
            decreases n - i,
        {
            visited.push(false);
            i += 1;
        }
        proof {
            lemma_count_all_false(visited@);
        }
        let mut stack: Vec<usize> = Vec::new();
        // Seed the search with every start chunk except the avoided one.
        let mut b: usize = 0;
        while b < self.starts.len()
            invariant
                b <= self.starts@.len(),
                self.wf(),
                visited@.len() == n,
                n == self.chunks@.len(),
                stack@.len() <= count_true(visited@),
                count_true(visited@) <= n,
                forall|j: int| 0 <= j < stack@.len() ==> (#[trigger] stack@[j]) < n,
            decreases self.starts@.len() - b,
        {
            match self.find_chunk(&self.starts[b].1) {
                Some(k) => {
                    if k != avoid && !visited[k] {
                        proof {
                            lemma_count_true_update(visited@, k as int);
                            lemma_count_true_bound(visited@.update(k as int, true));
                        }
                        visited.set(k, true);
                        stack.push(k);
                    }
                }
                None => {}
            }
            b += 1;
        }
        // Mark every end chunk so the walk can recognise one.
        let mut is_end: Vec<bool> = Vec::new();
        let mut i2: usize = 0;
        while i2 < n
            invariant
                i2 <= n,
                is_end@.len() == i2,
            decreases n - i2,
        {
            is_end.push(false);
            i2 += 1;
        }
        let mut e: usize = 0;
        while e < self.ends.len()
            invariant
                e <= self.ends@.len(),
                self.wf(),
                is_end@.len() == n,
                n == self.chunks@.len(),
            decreases self.ends@.len() - e,
        {
            match self.find_chunk(&self.ends[e].1) {
                Some(k) => {
                    is_end.set(k, true);
                }
                None => {}
            }
            e += 1;
        }
        // Depth-first walk; every chunk enters the stack at most once.
        loop
            invariant
                self.wf(),
                visited@.len() == n,
                is_end@.len() == n,
                n == self.chunks@.len(),
                stack@.len() <= count_true(visited@),
                count_true(visited@) <= n,
                forall|j: int| 0 <= j < stack@.len() ==> (#[trigger] stack@[j]) < n,
            decreases stack@.len() + n - count_true(visited@),
        {
            proof {
                lemma_count_true_bound(visited@);
            }
            if stack.len() == 0 {
                break;
            }
            let k = stack[stack.len() - 1];
            let _ = stack.pop();
            if is_end[k] {
                return true;
            }
            let ghost pot0: int = stack@.len() + n - count_true(visited@);
            let succs = &self.chunks[k].successors;
            let mut si: usize = 0;
            while si < succs.len()
                invariant
                    si <= succs@.len(),
                    self.wf(),
                    visited@.len() == n,
                    is_end@.len() == n,
                    n == self.chunks@.len(),
                    stack@.len() <= count_true(visited@),
                    count_true(visited@) <= n,
                    stack@.len() + n - count_true(visited@) <= pot0,
                    forall|j: int| 0 <= j < stack@.len() ==> (#[trigger] stack@[j]) < n,
                decreases succs@.len() - si,
            {
                match self.links.get(succs[si]) {
                    Some(link) => {
                        match &link.to {
                            LinkSide::Chunk(id) => {
                                match self.find_chunk(id) {
                                    Some(j) => {
                                        if j != avoid && !visited[j] {
                                            proof {
                                                lemma_count_true_update(visited@, j as int);
                                                lemma_count_true_bound(
                                                    visited@.update(j as int, true),
                                                );
                                            }
                                            visited.set(j, true);
                                            stack.push(j);
                                        }
                                    }
                                    None => {}
                                }
                            }
                            LinkSide::StartOrEnd => {}
                        }
                    }
                    None => {}
                }
                si += 1;
            }
        }
        false
    }

    /// Marks as required every chunk without which no start can reach an
    /// end.  Nothing else changes.  The contract states that flags are only
    /// ever switched on; the criterion is a pruning aid, and every emitted
    /// composition is re-checked against the completion gates regardless of
    /// which chunks were marked.
    pub fn mark_required(&mut self)
        requires
            old(self).wf(),
        ensures
            final(self).wf(),
            subgraph_of(final(self), old(self)),
            final(self).chunk_ids@ == old(self).chunk_ids@,
            final(self).links == old(self).links,
            final(self).starts == old(self).starts,
            final(self).ends == old(self).ends,
    {
        let n = self.chunks.len();
        let mut required: Vec<bool> = Vec::new();
        let mut i: usize = 0;
        while i < n
            invariant
                i <= n,
                *self == *old(self),
                self.wf(),
                n == self.chunks@.len(),
                required@.len() == i,
            decreases n - i,
        {
            required.push(!self.end_reachable_without(i));
            i += 1;
        }
        let mut k: usize = 0;
        while k < n
            invariant
                k <= n,
                n == self.chunks@.len() == old(self).chunks@.len(),
                required@.len() == n,
                self.chunk_ids@ == old(self).chunk_ids@,
                self.links == old(self).links,
                self.starts == old(self).starts,
                self.ends == old(self).ends,
                self.num_parts == old(self).num_parts,
                old(self).wf(),
                forall|j: int|
                    0 <= j < n ==> chunk_carried(#[trigger] self.chunks@[j], old(self).chunks@[j]),
            decreases n - k,
        {
            if required[k] {
                let mut c = self.chunks[k].clone();
                c.required = true;
                self.chunks.set(k, c);
            }
            k += 1;
        }
        proof {
            lemma_wf_from_carried(self, old(self));
            lemma_boundary_refl(self.starts@);
            lemma_boundary_refl(self.ends@);
        }
    }

    /// Removes every chunk that is false against a required chunk other than
    /// itself.  If two distinct required chunks are mutually false, no true
    /// composition exists at all and the graph is emptied.
    pub fn prune_falseness(&mut self)
        requires
            old(self).wf(),
        ensures
            final(self).wf(),
            subgraph_of(final(self), old(self)),
            forall|i: int, r: int|
                0 <= i < final(self).chunks@.len() && 0 <= r < final(self).chunks@.len() && i != r
                    && (#[trigger] final(self).chunks@[r]).required ==> !fc_contains(
                    final(self).chunks@[r].false_chunks@,
                    (#[trigger] final(self).chunk_ids@[i])@,
                ),
    {
        let n = self.chunks.len();
        let mut keep: Vec<bool> = Vec::new();
        let mut i: usize = 0;
        while i < n
            invariant
                i <= n,
                *self == *old(self),
                self.wf(),
                n == self.chunks@.len() == self.chunk_ids@.len(),
                keep@.len() == i,
                forall|i2: int|
                    0 <= i2 < i ==> ((#[trigger] keep@[i2]) ==> no_required_conflict(
                        old(self),
                        i2,
                    )),
            decreases n - i,
        {
            // Keep `i` unless some other required chunk lists it as false.
            let mut ok = true;
            let mut r: usize = 0;
            while r < n
                invariant
                    r <= n,
                    *self == *old(self),
                    self.wf(),
                    i < n,
                    n == self.chunks@.len() == self.chunk_ids@.len(),
                    ok ==> forall|r2: int|
                        0 <= r2 < r && r2 != i as int && (#[trigger] self.chunks@[r2]).required
                            ==> !fc_contains(
                            self.chunks@[r2].false_chunks@,
                            self.chunk_ids@[i as int]@,
                        ),
                decreases n - r,
            {
                if r != i && self.chunks[r].required {
                    let fc = &self.chunks[r].false_chunks;
                    let mut f: usize = 0;
                    let mut found = false;
                    while f < fc.len()
                        invariant
                            f <= fc@.len(),
                            *self == *old(self),
                            i < n,
                            r < n,
                            n == self.chunk_ids@.len() == self.chunks@.len(),
                            fc@ == self.chunks@[r as int].false_chunks@,
                            !found ==> forall|f2: int|
                                0 <= f2 < f ==> (#[trigger] fc@[f2])@ != self.chunk_ids@[i as int]@,
                        decreases fc@.len() - f,
                    {
                        if fc[f].eq_id(&self.chunk_ids[i]) {
                            found = true;
                        }
                        f += 1;
                    }
                    if found {
                        ok = false;
                    } else {
                        proof {
                            assert(!fc_contains(fc@, self.chunk_ids@[i as int]@));
                        }
                    }
                }
                r += 1;
            }
            proof {
                if ok {
                    assert(no_required_conflict(old(self), i as int));
                }
            }
            keep.push(ok);
            i += 1;
        }
        // A required chunk that must itself go proves the graph infeasible.
        let mut infeasible = false;
        let mut q: usize = 0;
        while q < n
            invariant
                q <= n,
                *self == *old(self),
                self.wf(),
                n == self.chunks@.len(),
                keep@.len() == n,
            decreases n - q,
        {
            if self.chunks[q].required && !keep[q] {
                infeasible = true;
            }
            q += 1;
        }
        if infeasible {
            self.chunk_ids = Vec::new();
            self.chunks = Vec::new();
            self.starts = Vec::new();
            self.ends = Vec::new();
            proof {
                assert(subgraph_of(self, old(self)));
            }
        } else {
            self.retain_chunks(&keep);
            proof {
                assert forall|i: int, r: int|
                    0 <= i < self.chunks@.len() && 0 <= r < self.chunks@.len() && i != r && (
                    #[trigger] self.chunks@[r]).required implies !fc_contains(
                    self.chunks@[r].false_chunks@,
                    (#[trigger] self.chunk_ids@[i])@,
                ) by {
                    assert(kept_from(old(self), keep@, self.chunk_ids@[i]@));
                    assert(kept_mutual(old(self), keep@, self.chunk_ids@[r]@, self.chunks@[r]));
                    let ki = choose|k: int|
                        0 <= k < old(self).chunks@.len() && keep@[k] && (#[trigger] old(
                            self,
                        ).chunk_ids@[k])@ == self.chunk_ids@[i]@;
                    let kr = choose|k: int|
                        0 <= k < old(self).chunks@.len() && keep@[k] && (#[trigger] old(
                            self,
                        ).chunk_ids@[k])@ == self.chunk_ids@[r]@ && chunk_carried(
                            self.chunks@[r],
                            old(self).chunks@[k],
                        ) && chunk_carried(old(self).chunks@[k], self.chunks@[r]);
                    assert(self.chunk_ids@[i]@ != self.chunk_ids@[r]@);
                    assert(ki != kr);
                    assert(old(self).chunks@[kr].required);
                    assert(no_required_conflict(old(self), ki));
                    assert(!fc_contains(
                        old(self).chunks@[kr].false_chunks@,
                        old(self).chunk_ids@[ki]@,
                    ));
                    assert(fc_same(
                        self.chunks@[r].false_chunks@,
                        old(self).chunks@[kr].false_chunks@,
                    ));
                    if fc_contains(self.chunks@[r].false_chunks@, self.chunk_ids@[i]@) {
                        let k = choose|k: int|
                            0 <= k < self.chunks@[r].false_chunks@.len() && (#[trigger] self
                                .chunks@[r].false_chunks@[k])@ == self.chunk_ids@[i]@;
                        assert(old(self).chunks@[kr].false_chunks@[k]@ == self.chunk_ids@[i]@);
                        assert(fc_contains(
                            old(self).chunks@[kr].false_chunks@,
                            old(self).chunk_ids@[ki]@,
                        ));
                    }
                }
            }
        }
    }
}

/// A freshly built all-false flag list has no `true` entries.
pub proof fn lemma_count_all_false(s: Seq<bool>)
    requires
        forall|j: int| 0 <= j < s.len() ==> !s[j],
    ensures
        count_true(s) == 0,
    decreases s.len(),
{
    if s.len() > 0 {
        lemma_count_all_false(s.drop_last());
    }
}


/// A named graph transformation; the optimiser runs a list of these.
#[derive(Clone, Copy, PartialEq, Eq, Structural, Debug)]
pub enum Pass {
    /// Raise the distance bounds by relaxation from the starts and ends.
    ComputeDistances,
    /// Remove chunks that no acceptable-length composition can contain.
    PruneLengths,
    /// Mark chunks that every composition must pass through.
    MarkRequired,
    /// Remove chunks whose method contribution breaks a count range.
    PruneMethodCounts,
    /// Remove chunks false against a required chunk.
    PruneFalseness,
    /// Drop dangling links and boundary entries.
    StripRefs,
}

impl Pass {
    /// Runs this pass.  Every pass is monotone: the graph it leaves is a
    /// subgraph of the one it was given, with bounds only raised.  The
    /// pruning passes also state their effect: after the length prune no
    /// surviving chunk can exceed the longest acceptable composition, and
    /// after the reference strip no link, start or end names an absent
    /// chunk.
    pub fn run(self, graph: &mut Graph, params: &Parameters)
        requires
            old(graph).wf(),
            params.wf(),
        ensures
            final(graph).wf(),
            subgraph_of(final(graph), old(graph)),
            self is PruneLengths ==> forall|i: int|
                0 <= i < final(graph).chunks@.len() ==> (
                #[trigger] final(graph).chunks@[i]).lb_distance_from_rounds
                    + final(graph).chunks@[i].total_length
                    + final(graph).chunks@[i].lb_distance_to_rounds <= params.length.max,
            self is PruneFalseness ==> forall|i: int, r: int|
                0 <= i < final(graph).chunks@.len() && 0 <= r < final(graph).chunks@.len() && i
                    != r && (#[trigger] final(graph).chunks@[r]).required ==> !fc_contains(
                    final(graph).chunks@[r].false_chunks@,
                    (#[trigger] final(graph).chunk_ids@[i])@,
                ),
            self is StripRefs ==> (forall|i: int|
                0 <= i < final(graph).links.slots@.len() ==> ((
                #[trigger] final(graph).links.slots@[i]) matches Some(l) ==> link_sides_present(
                    final(graph),
                    l,
                ))) && (forall|i: int|
                0 <= i < final(graph).starts@.len() ==> ids_contain(
                    final(graph).chunk_ids@,
                    (#[trigger] final(graph).starts@[i]).1@,
                ) && final(graph).links.spec_get(final(graph).starts@[i].0.0 as int) is Some)
                && (forall|i: int|
                0 <= i < final(graph).ends@.len() ==> ids_contain(
                    final(graph).chunk_ids@,
                    (#[trigger] final(graph).ends@[i]).1@,
                ) && final(graph).links.spec_get(final(graph).ends@[i].0.0 as int) is Some),
    {
        match self {
            Pass::ComputeDistances => graph.compute_distances(),
            Pass::PruneLengths => graph.prune_lengths(params.length.max),
            Pass::MarkRequired => graph.mark_required(),
            Pass::PruneMethodCounts => graph.prune_method_counts(params),
            Pass::PruneFalseness => graph.prune_falseness(),
            Pass::StripRefs => graph.strip_refs(),
        }
    }
}

/// The standard pass list, in the order the optimiser applies them.
pub fn standard_passes() -> (r: Vec<Pass>)
    ensures
        r@.len() > 0,
{
    let mut v: Vec<Pass> = Vec::new();
    v.push(Pass::ComputeDistances);
    v.push(Pass::PruneLengths);
    v.push(Pass::MarkRequired);
    v.push(Pass::PruneMethodCounts);
    v.push(Pass::PruneFalseness);
    v.push(Pass::StripRefs);
    v
}

/// A measure of a graph's size, compared componentwise.
#[derive(Clone, Copy, PartialEq, Eq, Structural, Debug)]
pub struct Size {
    pub num_chunks: usize,
    pub num_links: usize,
    pub num_starts: usize,
    pub num_ends: usize,
}

/// The componentwise partial order on sizes: smaller when nothing grew and
/// something shrank; incomparable when parts moved both ways.
#[derive(Clone, Copy, PartialEq, Eq, Structural, Debug)]
pub enum SizeOrdering {
    Less,
    Equal,
    Greater,
    Incomparable,
}

impl Size {
    /// The size of a graph.
    pub fn of(graph: &Graph) -> (r: Size)
        ensures
            r.num_chunks == graph.chunks@.len(),
            r.num_links == count_links(graph.links.slots@),
            r.num_starts == graph.starts@.len(),
            r.num_ends == graph.ends@.len(),
    {
        Size {
            num_chunks: graph.chunks.len(),
            num_links: graph.links.len(),
            num_starts: graph.starts.len(),
            num_ends: graph.ends.len(),
        }
    }

    /// Compares two sizes componentwise.
    pub fn partial_cmp_size(self, other: Size) -> (r: SizeOrdering)
        ensures
            r == self.spec_cmp(other),
    {
        let any_less = self.num_chunks < other.num_chunks || self.num_links < other.num_links
            || self.num_starts < other.num_starts || self.num_ends < other.num_ends;
        let any_greater = self.num_chunks > other.num_chunks || self.num_links > other.num_links
            || self.num_starts > other.num_starts || self.num_ends > other.num_ends;
        match (any_less, any_greater) {
            (true, false) => SizeOrdering::Less,
            (false, true) => SizeOrdering::Greater,
            (false, false) => SizeOrdering::Equal,
            (true, true) => SizeOrdering::Incomparable,
        }
    }

    /// What the componentwise comparison answers.
    pub open spec fn spec_cmp(self, other: Size) -> SizeOrdering {
        let any_less = self.num_chunks < other.num_chunks || self.num_links < other.num_links
            || self.num_starts < other.num_starts || self.num_ends < other.num_ends;
        let any_greater = self.num_chunks > other.num_chunks || self.num_links > other.num_links
            || self.num_starts > other.num_starts || self.num_ends > other.num_ends;
        if any_less && !any_greater {
            SizeOrdering::Less
        } else if !any_less && any_greater {
            SizeOrdering::Greater
        } else if !any_less && !any_greater {
            SizeOrdering::Equal
        } else {
            SizeOrdering::Incomparable
        }
    }
}

impl Graph {
    /// Runs a sequence of passes once over the graph.
    pub fn run_passes(&mut self, passes: &Vec<Pass>, params: &Parameters)
        requires
            old(self).wf(),
            params.wf(),
        ensures
            final(self).wf(),
            subgraph_of(final(self), old(self)),
    {
        proof {
            lemma_subgraph_refl(old(self));
        }
        let mut p: usize = 0;
        while p < passes.len()
            invariant
                p <= passes@.len(),
                self.wf(),
                params.wf(),
                subgraph_of(self, old(self)),
            decreases passes@.len() - p,
        {
            let ghost before = *self;
            passes[p].run(self, params);
            proof {
                lemma_subgraph_trans(self, &before, old(self));
            }
            p += 1;
        }
    }

    /// Repeatedly applies the passes until the graph stops getting strictly
    /// smaller, or the iteration limit runs out.
    pub fn optimise_with_iter_limit(&mut self, passes: &Vec<Pass>, params: &Parameters, limit: usize)
        requires
            old(self).wf(),
            params.wf(),
        ensures
            final(self).wf(),
            subgraph_of(final(self), old(self)),
    {
        proof {
            lemma_subgraph_refl(old(self));
        }
        let mut last_size = Size::of(self);
        let mut iters: usize = 0;
        let mut done = false;
        while iters < limit && !done
            invariant
                iters <= limit,
                self.wf(),
                params.wf(),
                subgraph_of(self, old(self)),
            decreases limit - iters,
        {
            let ghost before = *self;
            self.run_passes(passes, params);
            proof {
                lemma_subgraph_trans(self, &before, old(self));
            }
            let new_size = Size::of(self);
            // Stop once the passes fail to make the graph strictly smaller.
            // A mixed change keeps going.
            match new_size.partial_cmp_size(last_size) {
                SizeOrdering::Equal => {
                    done = true;
                }
                SizeOrdering::Greater => {
                    done = true;
                }
                SizeOrdering::Less => {}
                SizeOrdering::Incomparable => {}
            }
            last_size = new_size;
            iters += 1;
        }
    }

    /// Runs the standard passes to a fixed point, with the customary
    /// iteration limit.
    pub fn optimise(&mut self, passes: &Vec<Pass>, params: &Parameters)
        requires
            old(self).wf(),
            params.wf(),
        ensures
            final(self).wf(),
            subgraph_of(final(self), old(self)),
    {
        self.optimise_with_iter_limit(passes, params, 20);
    }
}

/// Two falseness lists naming the same ids contain the same values.
pub proof fn fc_contains_same(a: Seq<ChunkId>, b: Seq<ChunkId>, idv: crate::graph::ChunkIdV)
    requires
        fc_same(a, b),
    ensures
        fc_contains(a, idv) <==> fc_contains(b, idv),
{
    if fc_contains(a, idv) {
        let k = choose|k: int| 0 <= k < a.len() && (#[trigger] a[k])@ == idv;
        assert((b[k])@ == idv);
    }
    if fc_contains(b, idv) {
        let k = choose|k: int| 0 <= k < b.len() && (#[trigger] b[k])@ == idv;
        assert((a[k])@ == idv);
    }
}

} // verus!
