//! The composition graph: chunks of ringing joined by links.  The builder
//! produces one, the optimiser shrinks it, the search reads it.

use vstd::prelude::*;

use crate::row::RowBuf;
use crate::utils::MusicBreakdown;

verus! {

/// The unique index of a row within a lead: which method, and how far into
/// the lead.
#[derive(Clone, Copy, PartialEq, Eq, Structural, Debug)]
pub struct RowIdx {
    pub method: usize,
    pub sub_lead_idx: usize,
}

impl RowIdx {
    /// Pairs a method index with a sub-lead index.
    pub fn new(method_idx: usize, sub_lead_idx: usize) -> (r: RowIdx)
        ensures
            r.method == method_idx,
            r.sub_lead_idx == sub_lead_idx,
    {
        RowIdx { method: method_idx, sub_lead_idx }
    }
}

/// The unique identifier of a chunk: the lead head of the lead its first row
/// sits in, and the position of that row within the lead.
#[derive(Debug)]
pub struct ChunkId {
    pub lead_head: RowBuf,
    pub row_idx: RowIdx,
}

/// The spec-level value of a [`ChunkId`]: lead head bells, method, sub-lead
/// index.
pub struct ChunkIdV {
    pub lead_head: Seq<u8>,
    pub method: int,
    pub sub_lead_idx: int,
}

impl View for ChunkId {
    type V = ChunkIdV;

    open spec fn view(&self) -> ChunkIdV {
        ChunkIdV {
            lead_head: self.lead_head@,
            method: self.row_idx.method as int,
            sub_lead_idx: self.row_idx.sub_lead_idx as int,
        }
    }
}

impl ChunkId {
    /// Pairs a lead head with a row index.
    pub fn new(lead_head: RowBuf, row_idx: RowIdx) -> (r: ChunkId)
        ensures
            r.lead_head == lead_head,
            r.row_idx == row_idx,
    {
        ChunkId { lead_head, row_idx }
    }

    /// Whether two ids name the same chunk.
    pub fn eq_id(&self, other: &ChunkId) -> (r: bool)
        ensures
            r == (self@ == other@),
    {
        let rows_eq = self.lead_head == other.lead_head;
        let r = rows_eq && self.row_idx.method == other.row_idx.method
            && self.row_idx.sub_lead_idx == other.row_idx.sub_lead_idx;
        proof {
            if r {
                assert(self@ == other@);
            } else {
                assert(self@ != other@);
            }
        }
        r
    }
}

impl Clone for ChunkId {
    /// Cloning preserves the id's value.
    fn clone(&self) -> (r: Self)
        ensures
            r@ == self@,
    {
        ChunkId { lead_head: self.lead_head.clone(), row_idx: self.row_idx }
    }
}

/// Whether a sequence of ids holds one with the given value.
pub open spec fn ids_contain(ids: Seq<ChunkId>, idv: ChunkIdV) -> bool {
    exists|k: int| 0 <= k < ids.len() && (#[trigger] ids[k])@ == idv
}

/// What one side of a link points at: the outside world, or a chunk.
#[derive(Debug)]
pub enum LinkSide<Id> {
    /// The link starts or ends a whole composition.
    StartOrEnd,
    /// The link joins onto the chunk with this id.
    Chunk(Id),
}

impl<Id> LinkSide<Id> {
    /// Whether this side is the composition boundary.
    pub fn is_start_or_end(&self) -> (r: bool)
        ensures
            r == (*self is StartOrEnd),
    {
        matches!(self, Self::StartOrEnd)
    }

    /// This side, with its id borrowed.
    pub fn as_ref(&self) -> (r: LinkSide<&Id>)
        ensures
            match r {
                LinkSide::StartOrEnd => *self is StartOrEnd,
                LinkSide::Chunk(c) => *self matches LinkSide::Chunk(c2) && c == &c2,
            },
    {
        match self {
            Self::StartOrEnd => LinkSide::StartOrEnd,
            Self::Chunk(c) => LinkSide::Chunk(c),
        }
    }
}

/// The spec-level value of a link side over chunk ids.
pub enum LinkSideV {
    StartOrEnd,
    Chunk(ChunkIdV),
}

impl View for LinkSide<ChunkId> {
    type V = LinkSideV;

    open spec fn view(&self) -> LinkSideV {
        match self {
            LinkSide::StartOrEnd => LinkSideV::StartOrEnd,
            LinkSide::Chunk(id) => LinkSideV::Chunk(id@),
        }
    }
}

impl Clone for LinkSide<ChunkId> {
    /// Cloning preserves the side's value.
    fn clone(&self) -> (r: Self)
        ensures
            r@ == self@,
    {
        match self {
            Self::StartOrEnd => LinkSide::StartOrEnd,
            Self::Chunk(id) => LinkSide::Chunk(id.clone()),
        }
    }
}

/// A link between two chunks (or a chunk and the composition boundary),
/// optionally through a call, carrying the part-head rotation its traversal
/// applies.
#[derive(Debug)]
pub struct Link {
    pub from: LinkSide<ChunkId>,
    pub to: LinkSide<ChunkId>,
    /// Index into the parameters' call list, or `None` for a plain lead.
    pub call: Option<usize>,
    /// Which power of the part head traversing this link applies.
    pub ph_rotation: u16,
}

/// The spec-level value of a [`Link`].
pub struct LinkV {
    pub from: LinkSideV,
    pub to: LinkSideV,
    pub call: Option<int>,
    pub ph_rotation: int,
}

impl View for Link {
    type V = LinkV;

    open spec fn view(&self) -> LinkV {
        LinkV {
            from: self.from@,
            to: self.to@,
            call: match self.call {
                Some(c) => Some(c as int),
                None => None,
            },
            ph_rotation: self.ph_rotation as int,
        }
    }
}

impl Link {
    /// Builds a link from its parts.
    pub fn new(from: LinkSide<ChunkId>, to: LinkSide<ChunkId>, call: Option<usize>, ph_rotation: u16) -> (r: Link)
        ensures
            r.from == from,
            r.to == to,
            r.call == call,
            r.ph_rotation == ph_rotation,
    {
        Link { from, to, call, ph_rotation }
    }

    /// Whether this link can start a composition.
    pub fn is_start(&self) -> (r: bool)
        ensures
            r == (self.from is StartOrEnd),
    {
        self.from.is_start_or_end()
    }

    /// Whether this link can end a composition.
    pub fn is_end(&self) -> (r: bool)
        ensures
            r == (self.to is StartOrEnd),
    {
        self.to.is_start_or_end()
    }

    /// Whether two links carry the same value.
    pub fn eq_link(&self, other: &Link) -> (r: bool)
        ensures
            r == (self@ == other@),
    {
        let from_eq = side_eq(&self.from, &other.from);
        let to_eq = side_eq(&self.to, &other.to);
        let call_eq = match (self.call, other.call) {
            (None, None) => true,
            (Some(x), Some(y)) => x == y,
            _ => false,
        };
        let r = from_eq && to_eq && call_eq && self.ph_rotation == other.ph_rotation;
        proof {
            if r {
                assert(self@ == other@);
            } else {
                assert(self@ != other@);
            }
        }
        r
    }
}

/// Whether two link sides carry the same value.
fn side_eq(a: &LinkSide<ChunkId>, b: &LinkSide<ChunkId>) -> (r: bool)
    ensures
        r == (a@ == b@),
{
    match (a, b) {
        (LinkSide::StartOrEnd, LinkSide::StartOrEnd) => true,
        (LinkSide::Chunk(x), LinkSide::Chunk(y)) => x.eq_id(y),
        _ => false,
    }
}

impl Clone for Link {
    /// Cloning preserves the link's value.
    fn clone(&self) -> (r: Self)
        ensures
            r@ == self@,
    {
        Link {
            from: self.from.clone(),
            to: self.to.clone(),
            call: self.call,
            ph_rotation: self.ph_rotation,
        }
    }
}

/// The unique identifier of a [`Link`] within a [`LinkSet`].
#[derive(Clone, Copy, PartialEq, Eq, Structural, Debug)]
pub struct LinkId(pub usize);

/// A set of links addressed by stable [`LinkId`]s.  Ids are never reused:
/// removal leaves a hole.
#[derive(Debug)]
pub struct LinkSet {
    pub slots: Vec<Option<Link>>,
}

impl LinkSet {
    /// What the set holds at a given id.
    pub open spec fn spec_get(&self, id: int) -> Option<Link> {
        if 0 <= id < self.slots@.len() {
            self.slots@[id]
        } else {
            None
        }
    }

    /// A set with no links.
    pub fn new() -> (r: Self)
        ensures
            r.slots@.len() == 0,
    {
        LinkSet { slots: Vec::new() }
    }

    /// Adds a link, returning its fresh id.
    pub fn add(&mut self, link: Link) -> (r: LinkId)
        ensures
            r.0 == old(self).slots@.len(),
            final(self).slots@ == old(self).slots@.push(Some(link)),
    {
        let id = LinkId(self.slots.len());
        self.slots.push(Some(link));
        id
    }

    /// Finds a link with this value, if the set holds one.
    pub fn find_link(&self, l: &Link) -> (r: Option<LinkId>)
        ensures
            match r {
                Some(k) => k.0 < self.slots@.len() && self.slots@[k.0 as int] is Some
                    && self.slots@[k.0 as int].unwrap()@ == l@,
                None => forall|i: int|
                    0 <= i < self.slots@.len() ==> ((#[trigger] self.slots@[i]) is Some
                        ==> self.slots@[i].unwrap()@ != l@),
            },
    {
        let n = self.slots.len();
        let mut i: usize = 0;
        while i < n
            invariant
                i <= n,
                n == self.slots@.len(),
                forall|j: int|
                    0 <= j < i ==> ((#[trigger] self.slots@[j]) is Some ==> self.slots@[j].unwrap()@
                        != l@),
            decreases n - i,
        {
            match &self.slots[i] {
                Some(cand) => {
                    if cand.eq_link(l) {
                        return Some(LinkId(i));
                    }
                }
                None => {}
            }
            i += 1;
        }
        None
    }

    /// How many links the set currently holds.
    pub fn len(&self) -> (r: usize)
        ensures
            r == count_links(self.slots@),
    {
        let mut n: usize = 0;
        let mut i: usize = 0;
        while i < self.slots.len()
            invariant
                i <= self.slots@.len(),
                n == count_links(self.slots@.take(i as int)),
                n <= i,
            decreases self.slots@.len() - i,
        {
            proof {
                assert(self.slots@.take(i + 1).drop_last() =~= self.slots@.take(i as int));
                lemma_count_links_bound(self.slots@.take(i as int));
            }
            if self.slots[i].is_some() {
                n += 1;
            }
            i += 1;
        }
        proof {
            assert(self.slots@.take(self.slots@.len() as int) =~= self.slots@);
        }
        n
    }

    /// The link with a given id, if it is still present.
    pub fn get(&self, id: LinkId) -> (r: Option<&Link>)
        ensures
            match r {
                Some(l) => self.spec_get(id.0 as int) == Some(*l),
                None => self.spec_get(id.0 as int) is None,
            },
    {
        if id.0 < self.slots.len() {
            self.slots[id.0].as_ref()
        } else {
            None
        }
    }

    /// Whether a link with this id is present.
    pub fn contains(&self, id: LinkId) -> (r: bool)
        ensures
            r == (self.spec_get(id.0 as int) is Some),
    {
        id.0 < self.slots.len() && self.slots[id.0].is_some()
    }

    /// The ids of all present links, in id order.
    pub fn keys(&self) -> (r: Vec<LinkId>)
        ensures
            forall|j: int|
                0 <= j < r@.len() ==> self.spec_get((#[trigger] r@[j]).0 as int) is Some,
            forall|i: int|
                0 <= i < self.slots@.len() && self.spec_get(i) is Some ==> r@.contains(
                    LinkId(i as usize),
                ),
    {
        let mut out: Vec<LinkId> = Vec::new();
        let mut i: usize = 0;
        while i < self.slots.len()
            invariant
                i <= self.slots@.len(),
                forall|j: int|
                    0 <= j < out@.len() ==> self.spec_get((#[trigger] out@[j]).0 as int) is Some,
                forall|p: int|
                    0 <= p < i && self.spec_get(p) is Some ==> out@.contains(LinkId(p as usize)),
            decreases self.slots@.len() - i,
        {
            if self.slots[i].is_some() {
                let ghost old_out = out@;
                out.push(LinkId(i));
                proof {
                    assert forall|p: int|
                        0 <= p < i + 1 && self.spec_get(p) is Some implies out@.contains(
                        LinkId(p as usize),
                    ) by {
                        if p < i {
                            let j = choose|j: int|
                                0 <= j < old_out.len() && old_out[j] == LinkId(p as usize);
                            assert(out@[j] == LinkId(p as usize));
                        } else {
                            assert(out@[out@.len() - 1] == LinkId(i as usize));
                        }
                    }
                }
            }
            i += 1;
        }
        out
    }

    /// The present links themselves, in id order.
    pub fn values(&self) -> (r: Vec<&Link>)
        ensures
            r@.len() == count_links(self.slots@),
    {
        let mut out: Vec<&Link> = Vec::new();
        let mut i: usize = 0;
        while i < self.slots.len()
            invariant
                i <= self.slots@.len(),
                out@.len() == count_links(self.slots@.take(i as int)),
            decreases self.slots@.len() - i,
        {
            proof {
                assert(self.slots@.take(i + 1).drop_last() =~= self.slots@.take(i as int));
            }
            match &self.slots[i] {
                Some(l) => {
                    out.push(l);
                }
                None => {}
            }
            i += 1;
        }
        proof {
            assert(self.slots@.take(self.slots@.len() as int) =~= self.slots@);
        }
        out
    }

    /// The present `(id, link)` pairs, in id order.
    pub fn iter(&self) -> (r: Vec<(LinkId, &Link)>)
        ensures
            forall|j: int|
                0 <= j < r@.len() ==> self.spec_get((#[trigger] r@[j]).0.0 as int) == Some(
                    *r@[j].1,
                ),
    {
        let mut out: Vec<(LinkId, &Link)> = Vec::new();
        let mut i: usize = 0;
        while i < self.slots.len()
            invariant
                i <= self.slots@.len(),
                forall|j: int|
                    0 <= j < out@.len() ==> self.spec_get((#[trigger] out@[j]).0.0 as int) == Some(
                        *out@[j].1,
                    ),
            decreases self.slots@.len() - i,
        {
            match &self.slots[i] {
                Some(l) => {
                    out.push((LinkId(i), l));
                }
                None => {}
            }
            i += 1;
        }
        out
    }

    /// Removes the links for which the predicate answers `false`.  A link
    /// survives exactly when the predicate accepted it: surviving slots
    /// keep their old link, a removed slot held a link the predicate
    /// rejected, and empty slots stay empty.
    pub fn retain<F: Fn(LinkId, &Link) -> bool>(&mut self, pred: F)
        requires
            forall|id: LinkId, l: &Link| #[trigger] pred.requires((id, l)),
        ensures
            final(self).slots@.len() == old(self).slots@.len(),
            forall|i: int|
                0 <= i < final(self).slots@.len() ==> (final(self).spec_get(i) is Some
                    ==> final(self).spec_get(i) == old(self).spec_get(i)),
            forall|i: int|
                0 <= i < final(self).slots@.len() ==> match #[trigger] old(self).slots@[i] {
                    Some(l) => (final(self).slots@[i] is Some ==> pred.ensures(
                        (LinkId(i as usize), &l),
                        true,
                    )) && (final(self).slots@[i] is None ==> pred.ensures(
                        (LinkId(i as usize), &l),
                        false,
                    )),
                    None => final(self).slots@[i] is None,
                },
    {
        let n = self.slots.len();
        let mut i: usize = 0;
        while i < n
            invariant
                i <= n,
                n == self.slots@.len(),
                self.slots@.len() == old(self).slots@.len(),
                forall|id: LinkId, l: &Link| #[trigger] pred.requires((id, l)),
                forall|p: int|
                    i <= p < self.slots@.len() ==> (#[trigger] self.slots@[p]) == old(
                        self,
                    ).slots@[p],
                forall|p: int|
                    0 <= p < self.slots@.len() ==> ((#[trigger] self.slots@[p]) is Some
                        ==> self.slots@[p] == old(self).slots@[p]),
                forall|p: int|
                    0 <= p < i ==> match #[trigger] old(self).slots@[p] {
                        Some(l) => (self.slots@[p] is Some ==> pred.ensures(
                            (LinkId(p as usize), &l),
                            true,
                        )) && (self.slots@[p] is None ==> pred.ensures(
                            (LinkId(p as usize), &l),
                            false,
                        )),
                        None => self.slots@[p] is None,
                    },
            decreases n - i,
        {
            let keep = match &self.slots[i] {
                Some(l) => pred(LinkId(i), l),
                None => true,
            };
            if !keep {
                self.slots.set(i, None);
            }
            i += 1;
        }
    }
}

/// The number of present links in a slot list.
pub open spec fn count_links(slots: Seq<Option<Link>>) -> int
    decreases slots.len(),
{
    if slots.len() == 0 {
        0
    } else {
        count_links(slots.drop_last()) + if slots.last() is Some {
            1int
        } else {
            0int
        }
    }
}

/// The number of present links never exceeds the number of slots.
pub proof fn lemma_count_links_bound(slots: Seq<Option<Link>>)
    ensures
        0 <= count_links(slots) <= slots.len(),
    decreases slots.len(),
{
    if slots.len() > 0 {
        lemma_count_links_bound(slots.drop_last());
    }
}

/// A chunk: an indivisible stretch of ringing, with everything the optimiser
/// and search need to know about it.
#[derive(Debug)]
pub struct Chunk {
    pub predecessors: Vec<LinkId>,
    pub successors: Vec<LinkId>,
    /// The chunks sharing at least one row with this one, itself included.
    pub false_chunks: Vec<ChunkId>,
    /// The number of rows this chunk covers in one part.
    pub per_part_length: usize,
    /// The number of rows this chunk adds over all parts.
    pub total_length: usize,
    /// The rows this chunk contributes to each method's count.
    pub method_counts: Vec<usize>,
    /// The music this chunk's rows generate.
    pub music: MusicBreakdown,
    /// Whether every composition must include this chunk.
    pub required: bool,
    /// A lower bound on the rows needed to reach this chunk from any start.
    pub lb_distance_from_rounds: usize,
    /// A lower bound on the rows needed to reach any end after this chunk.
    pub lb_distance_to_rounds: usize,
    /// Whether this chunk counts as unmusical.
    pub duffer: bool,
}

impl Chunk {
    /// A lower bound on the length of any composition through this chunk.
    pub fn min_comp_length(&self) -> (r: usize)
        requires
            self.lb_distance_from_rounds + self.total_length + self.lb_distance_to_rounds
                <= usize::MAX,
        ensures
            r == self.lb_distance_from_rounds + self.total_length + self.lb_distance_to_rounds,
    {
        self.lb_distance_from_rounds + self.total_length + self.lb_distance_to_rounds
    }
}

/// Whether a falseness list holds an id with the given value.
pub open spec fn fc_contains(fc: Seq<ChunkId>, idv: ChunkIdV) -> bool {
    exists|k: int| 0 <= k < fc.len() && (#[trigger] fc[k])@ == idv
}

/// Whether no two occupied link slots hold the same link value.
pub open spec fn links_distinct(slots: Seq<Option<Link>>) -> bool {
    forall|i: int, j: int|
        0 <= i < slots.len() && 0 <= j < slots.len() && i != j && (#[trigger] slots[i]) is Some
            && (#[trigger] slots[j]) is Some ==> slots[i].unwrap()@ != slots[j].unwrap()@
}

/// The composition graph.
#[derive(Debug)]
pub struct Graph {
    /// The chunk ids, parallel to `chunks`.
    pub chunk_ids: Vec<ChunkId>,
    /// The chunks themselves.
    pub chunks: Vec<Chunk>,
    /// Every link between chunks; sides may dangle after optimisation.
    pub links: LinkSet,
    /// The links that can start a composition, with the chunk they enter.
    pub starts: Vec<(LinkId, ChunkId)>,
    /// The links that can end a composition, with the chunk they leave.
    pub ends: Vec<(LinkId, ChunkId)>,
    /// How many parts the composition has.
    pub num_parts: usize,
}

impl Graph {
    /// The index of a chunk id in this graph, if present.
    pub open spec fn spec_find(&self, idv: ChunkIdV) -> int {
        choose|k: int| 0 <= k < self.chunk_ids@.len() && (#[trigger] self.chunk_ids@[k])@ == idv
    }

    /// Whether the graph holds a chunk with this id.
    pub open spec fn spec_contains(&self, idv: ChunkIdV) -> bool {
        ids_contain(self.chunk_ids@, idv)
    }

    /// Structural well-formedness: parallel arrays agree and ids are
    /// distinct.
    pub open spec fn ids_wf(&self) -> bool {
        &&& self.chunk_ids@.len() == self.chunks@.len()
        &&& forall|i: int, j: int|
            0 <= i < self.chunk_ids@.len() && 0 <= j < self.chunk_ids@.len() && i != j ==> (
            #[trigger] self.chunk_ids@[i])@ != (#[trigger] self.chunk_ids@[j])@
    }

    /// Every chunk's total length is its per-part length times the number of
    /// parts, and every chunk is false against itself.
    pub open spec fn lengths_wf(&self) -> bool {
        &&& self.chunk_ids@.len() == self.chunks@.len()
        &&& forall|i: int|
            0 <= i < self.chunks@.len() ==> (#[trigger] self.chunks@[i]).total_length
                == self.chunks@[i].per_part_length * self.num_parts
        &&& forall|i: int|
            0 <= i < self.chunks@.len() ==> fc_contains(
                (#[trigger] self.chunks@[i]).false_chunks@,
                self.chunk_ids@[i]@,
            )
    }

    /// Falseness is symmetric between chunks present in the graph.
    pub open spec fn falseness_symmetric(&self) -> bool {
        forall|i: int, j: int|
            0 <= i < self.chunks@.len() && 0 <= j < self.chunks@.len() && self.chunk_ids@.len()
                == self.chunks@.len() ==> (fc_contains(
                (#[trigger] self.chunks@[i]).false_chunks@,
                self.chunk_ids@[j]@,
            ) <==> fc_contains((#[trigger] self.chunks@[j]).false_chunks@, self.chunk_ids@[i]@))
    }

    /// The invariant every graph of this library keeps.
    pub open spec fn wf(&self) -> bool {
        &&& self.ids_wf()
        &&& self.lengths_wf()
        &&& self.falseness_symmetric()
        &&& self.num_parts >= 1
    }

    /// The number of parts this graph's compositions have.
    pub fn num_parts(&self) -> (r: usize)
        ensures
            r == self.num_parts,
    {
        self.num_parts
    }

    /// The index of a chunk id, searching linearly.
    pub fn find_chunk(&self, id: &ChunkId) -> (r: Option<usize>)
        ensures
            match r {
                Some(k) => k < self.chunk_ids@.len() && self.chunk_ids@[k as int]@ == id@,
                None => !self.spec_contains(id@),
            },
    {
        let n = self.chunk_ids.len();
        let mut i: usize = 0;
        while i < n
            invariant
                i <= n,
                n == self.chunk_ids@.len(),
                forall|j: int| 0 <= j < i ==> (#[trigger] self.chunk_ids@[j])@ != id@,
            decreases n - i,
        {
            if self.chunk_ids[i].eq_id(id) {
                return Some(i);
            }
            i += 1;
        }
        None
    }

    /// The chunk with a given id, if present.
    pub fn get_chunk(&self, id: &ChunkId) -> (r: Option<&Chunk>)
        requires
            self.chunk_ids@.len() == self.chunks@.len(),
        ensures
            match r {
                Some(c) => self.spec_contains(id@) && exists|k: int|
                    0 <= k < self.chunks@.len() && (#[trigger] self.chunk_ids@[k])@ == id@ && *c
                        == self.chunks@[k],
                None => !self.spec_contains(id@),
            },
    {
        match self.find_chunk(id) {
            Some(k) => {
                let c = &self.chunks[k];
                proof {
                    assert(0 <= k < self.chunks@.len() && self.chunk_ids@[k as int]@ == id@ && *c
                        == self.chunks@[k as int]);
                }
                Some(c)
            }
            None => None,
        }
    }

    /// The start links of this graph.
    pub fn start_links(&self) -> (r: &Vec<(LinkId, ChunkId)>)
        ensures
            r == &self.starts,
    {
        &self.starts
    }

    /// The end links of this graph.
    pub fn end_links(&self) -> (r: &Vec<(LinkId, ChunkId)>)
        ensures
            r == &self.ends,
    {
        &self.ends
    }
}

/// The per-chunk length law, read off the graph invariant: every chunk's
/// total length is its per-part length times the number of parts, and every
/// chunk is false against itself.
pub proof fn lemma_chunk_lengths(g: &Graph, i: int)
    requires
        g.wf(),
        0 <= i < g.chunks@.len(),
    ensures
        g.chunks@[i].total_length == g.chunks@[i].per_part_length * g.num_parts,
        fc_contains(g.chunks@[i].false_chunks@, g.chunk_ids@[i]@),
{
}

/// Falseness symmetry, read off the graph invariant: one chunk lists another
/// as false exactly when the other lists it back.
pub proof fn lemma_falseness_symmetric(g: &Graph, i: int, j: int)
    requires
        g.wf(),
        0 <= i < g.chunks@.len(),
        0 <= j < g.chunks@.len(),
    ensures
        fc_contains(g.chunks@[i].false_chunks@, g.chunk_ids@[j]@) <==> fc_contains(
            g.chunks@[j].false_chunks@,
            g.chunk_ids@[i]@,
        ),
{
}

} // verus!
