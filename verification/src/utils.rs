//! Small shared utilities: frontier items for distance-ordered searches,
//! saturating score arithmetic, and music breakdowns.

use vstd::prelude::*;

use crate::music::{pattern_matches, MusicType, Stroke};
use crate::row::{row_mul, Row};

verus! {

/// A container type which orders its contents by some distance metric.
#[derive(Debug, Clone)]
pub struct FrontierItem<Item, Dist> {
    pub item: Item,
    pub distance: Dist,
}

impl<Item, Dist> FrontierItem<Item, Dist> {
    /// Pairs an item with the distance it sits at.
    pub fn new(item: Item, distance: Dist) -> (r: Self)
        ensures
            r.item == item,
            r.distance == distance,
    {
        Self { item, distance }
    }
}

/// The clamp of an unbounded integer into the scores' machine range.
pub open spec fn sat64(x: int) -> int {
    if x > i64::MAX {
        i64::MAX as int
    } else if x < i64::MIN {
        i64::MIN as int
    } else {
        x
    }
}

/// Saturating signed addition for scores.
pub fn sat_add(a: i64, b: i64) -> (r: i64)
    ensures
        r == sat64(a + b),
{
    if b >= 0 {
        if a > i64::MAX - b {
            i64::MAX
        } else {
            a + b
        }
    } else {
        if a < i64::MIN - b {
            i64::MIN
        } else {
            a + b
        }
    }
}

/// Saturating signed subtraction for scores.
pub fn sat_sub(a: i64, b: i64) -> (r: i64)
    ensures
        r == sat64(a - b),
{
    if b >= 0 {
        if a < i64::MIN + b {
            i64::MIN
        } else {
            a - b
        }
    } else {
        if a > i64::MAX + b {
            i64::MAX
        } else {
            a - b
        }
    }
}

/// Saturating product of a score weight and a count.
pub fn sat_mul_count(weight: i64, count: usize) -> (r: i64)
    ensures
        r == sat64(weight * count),
{
    if count == 0 {
        proof {
            assert(weight * 0 == 0) by (nonlinear_arith);
        }
        return 0;
    }
    if weight == 0 {
        proof {
            assert(0 * count == 0) by (nonlinear_arith);
        }
        return 0;
    }
    proof {
        assert(((weight > 0) <==> (weight * count > 0)) && ((weight < 0) <==> (weight * count
            < 0)) && (weight >= 1 ==> weight * count >= count) && (weight <= -1 ==> weight * count
            <= -count)) by (nonlinear_arith)
            requires
                weight != 0 && count > 0,
        ;
    }
    let c64: u64 = count as u64;
    if c64 > (i64::MAX as u64) {
        if weight > 0 {
            i64::MAX
        } else {
            i64::MIN
        }
    } else {
        match weight.checked_mul(c64 as i64) {
            Some(p) => p,
            None => {
                if weight > 0 {
                    i64::MAX
                } else {
                    i64::MIN
                }
            }
        }
    }
}

/// A breakdown of the music found in some rows: a total score and the
/// number of hits of each music type.
#[derive(Debug)]
pub struct MusicBreakdown {
    /// The total score: the saturating sum over music types of hits times
    /// weight.
    pub score: i64,
    /// The number of occurrences of each music type, in the order the types
    /// were given.
    pub counts: Vec<usize>,
}

/// How many of the given patterns match a row.
pub open spec fn count_pattern_matches(patterns: Seq<crate::music::Pattern>, row: Seq<u8>) -> int
    decreases patterns.len(),
{
    if patterns.len() == 0 {
        0
    } else {
        count_pattern_matches(patterns.drop_last(), row) + if pattern_matches(
            patterns.last()@,
            row,
        ) {
            1int
        } else {
            0int
        }
    }
}

/// The number of hits of one music type over a sequence of rows, each row
/// pre-transposed by `head`, counting only rows whose stroke the type cares
/// about.
pub open spec fn music_count_spec(ty: MusicType, rows: Seq<Row>, head: Seq<u8>, start: Stroke) -> int
    decreases rows.len(),
{
    if rows.len() == 0 {
        0
    } else {
        music_count_spec(ty, rows.drop_last(), head, start) + if ty.strokes.spec_contains(
            start.spec_offset(rows.len() - 1),
        ) {
            count_pattern_matches(ty.patterns@, row_mul(head, rows.last()@))
        } else {
            0int
        }
    }
}

/// A pattern list can match a row at most once per pattern.
pub proof fn lemma_count_pattern_matches_bound(patterns: Seq<crate::music::Pattern>, row: Seq<u8>)
    ensures
        0 <= count_pattern_matches(patterns, row) <= patterns.len(),
    decreases patterns.len(),
{
    if patterns.len() > 0 {
        lemma_count_pattern_matches_bound(patterns.drop_last(), row);
    }
}

/// One music type's hit count over `n` rows stays below `n` times its
/// pattern count.
pub proof fn lemma_music_count_bound(ty: MusicType, rows: Seq<Row>, head: Seq<u8>, start: Stroke)
    ensures
        0 <= music_count_spec(ty, rows, head, start) <= rows.len() * ty.patterns@.len(),
    decreases rows.len(),
{
    if rows.len() == 0 {
        assert(rows.len() * ty.patterns@.len() == 0) by (nonlinear_arith)
            requires
                rows.len() == 0,
        ;
    } else {
        lemma_music_count_bound(ty, rows.drop_last(), head, start);
        lemma_count_pattern_matches_bound(ty.patterns@, row_mul(head, rows.last()@));
        assert((rows.len() - 1) * ty.patterns@.len() + ty.patterns@.len() == rows.len()
            * ty.patterns@.len()) by (nonlinear_arith);
    }
}

/// The saturating total score of per-type counts against their weights.
pub open spec fn weighted_score(types: Seq<MusicType>, counts: Seq<usize>) -> int
    decreases types.len(),
{
    if types.len() == 0 {
        0
    } else {
        sat64(
            weighted_score(types.drop_last(), counts.drop_last()) + sat64(
                types.last().weight * if counts.len() > 0 {
                    counts.last() as int
                } else {
                    0int
                },
            ),
        )
    }
}

impl MusicBreakdown {
    /// The breakdown of no rows at all.
    pub fn zero(num_music_types: usize) -> (r: Self)
        ensures
            r.score == 0,
            r.counts@.len() == num_music_types,
            forall|i: int| 0 <= i < num_music_types ==> r.counts@[i] == 0,
    {
        let mut counts: Vec<usize> = Vec::new();
        let mut i: usize = 0;
        while i < num_music_types
            invariant
                i <= num_music_types,
                counts@.len() == i,
                forall|j: int| 0 <= j < i ==> counts@[j] == 0,
            decreases num_music_types - i,
        {
            counts.push(0);
            i += 1;
        }
        MusicBreakdown { score: 0, counts }
    }

    /// The breakdown of a sequence of rows, each pre-transposed by some
    /// course head: per-type hit counts, and their saturating weighted sum.
    pub fn from_rows(
        rows: &Vec<Row>,
        pre_transposition: &Row,
        music_types: &Vec<MusicType>,
        start_stroke: Stroke,
    ) -> (r: Self)
        requires
            pre_transposition.valid(),
            forall|i: int|
                0 <= i < rows@.len() ==> (#[trigger] rows@[i]).valid() && rows@[i]@.len()
                    == pre_transposition@.len(),
            forall|t: int|
                0 <= t < music_types@.len() ==> rows@.len() * (
                #[trigger] music_types@[t]).patterns@.len() <= usize::MAX,
        ensures
            r.counts@.len() == music_types@.len(),
            forall|t: int|
                0 <= t < music_types@.len() ==> r.counts@[t] == music_count_spec(
                    #[trigger] music_types@[t],
                    rows@,
                    pre_transposition@,
                    start_stroke,
                ),
            r.score == weighted_score(music_types@, r.counts@),
    {
        let num_types = music_types.len();
        let mut counts: Vec<usize> = Vec::new();
        let mut t0: usize = 0;
        while t0 < num_types
            invariant
                t0 <= num_types,
                counts@.len() == t0,
                forall|j: int| 0 <= j < t0 ==> counts@[j] == 0,
            decreases num_types - t0,
        {
            counts.push(0);
            t0 += 1;
        }

        let mut idx: usize = 0;
        while idx < rows.len()
            invariant
                idx <= rows@.len(),
                counts@.len() == num_types == music_types@.len(),
                pre_transposition.valid(),
                forall|i: int|
                    0 <= i < rows@.len() ==> (#[trigger] rows@[i]).valid() && rows@[i]@.len()
                        == pre_transposition@.len(),
                forall|t: int|
                    0 <= t < num_types ==> rows@.len() * (
                    #[trigger] music_types@[t]).patterns@.len() <= usize::MAX,
                forall|t: int|
                    0 <= t < num_types ==> (#[trigger] counts@[t]) == music_count_spec(
                        music_types@[t],
                        rows@.take(idx as int),
                        pre_transposition@,
                        start_stroke,
                    ),
            decreases rows@.len() - idx,
        {
            let transposed = pre_transposition.mul(&rows[idx]);
            let ghost prev_counts = counts@;
            let mut t: usize = 0;
            while t < num_types
                invariant
                    t <= num_types,
                    idx < rows@.len(),
                    counts@.len() == num_types == music_types@.len(),
                    transposed@ == row_mul(pre_transposition@, rows@[idx as int]@),
                    forall|t2: int|
                        0 <= t2 < num_types ==> rows@.len() * (
                        #[trigger] music_types@[t2]).patterns@.len() <= usize::MAX,
                    forall|t2: int|
                        0 <= t2 < num_types ==> (#[trigger] prev_counts[t2]) == music_count_spec(
                            music_types@[t2],
                            rows@.take(idx as int),
                            pre_transposition@,
                            start_stroke,
                        ),
                    forall|t2: int|
                        t <= t2 < num_types ==> (#[trigger] counts@[t2]) == prev_counts[t2],
                    forall|t2: int|
                        0 <= t2 < t ==> (#[trigger] counts@[t2]) == music_count_spec(
                            music_types@[t2],
                            rows@.take(idx + 1),
                            pre_transposition@,
                            start_stroke,
                        ),
                decreases num_types - t,
            {
                proof {
                    assert(rows@.take(idx + 1).drop_last() =~= rows@.take(idx as int));
                    assert(rows@.take(idx + 1).last() == rows@[idx as int]);
                    lemma_music_count_bound(
                        music_types@[t as int],
                        rows@.take(idx as int),
                        pre_transposition@,
                        start_stroke,
                    );
                    lemma_count_pattern_matches_bound(
                        music_types@[t as int].patterns@,
                        row_mul(pre_transposition@, rows@[idx as int]@),
                    );
                    assert(rows@.take(idx as int).len() * music_types@[t as int].patterns@.len()
                        + music_types@[t as int].patterns@.len() <= rows@.len() * music_types@[
                        t as int].patterns@.len()) by (nonlinear_arith)
                        requires
                            0 <= idx < rows@.len(),
                            rows@.take(idx as int).len() == idx,
                            music_types@[t as int].patterns@.len() >= 0,
                    ;
                }
                let ty = &music_types[t];
                if ty.strokes.contains(start_stroke.offset(idx)) {
                    let mut hits: usize = 0;
                    let mut pi: usize = 0;
                    while pi < ty.patterns.len()
                        invariant
                            pi <= ty.patterns@.len(),
                            ty == music_types@[t as int],
                            transposed@ == row_mul(pre_transposition@, rows@[idx as int]@),
                            hits == count_pattern_matches(ty.patterns@.take(pi as int), transposed@),
                            hits <= pi,
                        decreases ty.patterns@.len() - pi,
                    {
                        proof {
                            assert(ty.patterns@.take(pi + 1).drop_last() =~= ty.patterns@.take(
                                pi as int,
                            ));
                            lemma_count_pattern_matches_bound(
                                ty.patterns@.take(pi as int),
                                transposed@,
                            );
                        }
                        if ty.patterns[pi].matches(&transposed) {
                            hits += 1;
                        }
                        pi += 1;
                    }
                    proof {
                        assert(ty.patterns@.take(ty.patterns@.len() as int) =~= ty.patterns@);
                    }
                    let c = counts[t];
                    counts.set(t, c + hits);
                } else {
                }
                t += 1;
            }
            idx += 1;
        }
        proof {
            assert(rows@.take(rows@.len() as int) =~= rows@);
        }

        // Weight the counts into a single saturating score.
        let mut score: i64 = 0;
        let mut t: usize = 0;
        while t < num_types
            invariant
                t <= num_types,
                counts@.len() == num_types == music_types@.len(),
                score == weighted_score(music_types@.take(t as int), counts@.take(t as int)),
            decreases num_types - t,
        {
            proof {
                assert(music_types@.take(t + 1).drop_last() =~= music_types@.take(t as int));
                assert(counts@.take(t + 1).drop_last() =~= counts@.take(t as int));
            }
            let w = sat_mul_count(music_types[t].weight, counts[t]);
            score = sat_add(score, w);
            t += 1;
        }
        proof {
            assert(music_types@.take(music_types@.len() as int) =~= music_types@);
            assert(counts@.take(counts@.len() as int) =~= counts@);
        }
        MusicBreakdown { score, counts }
    }

    /// Pointwise saturating difference of two breakdowns with equally many
    /// music types.
    pub fn saturating_sub(&self, rhs: &Self) -> (r: Self)
        requires
            self.counts@.len() == rhs.counts@.len(),
        ensures
            r.score == sat64(self.score - rhs.score),
            r.counts@.len() == self.counts@.len(),
            forall|i: int|
                0 <= i < r.counts@.len() ==> r.counts@[i] == if self.counts@[i] >= rhs.counts@[i] {
                    self.counts@[i] - rhs.counts@[i]
                } else {
                    0int
                },
    {
        let n = self.counts.len();
        let mut counts: Vec<usize> = Vec::new();
        let mut i: usize = 0;
        while i < n
            invariant
                i <= n,
                n == self.counts@.len() == rhs.counts@.len(),
                counts@.len() == i,
                forall|j: int|
                    0 <= j < i ==> counts@[j] == if self.counts@[j] >= rhs.counts@[j] {
                        self.counts@[j] - rhs.counts@[j]
                    } else {
                        0int
                    },
            decreases n - i,
        {
            let a = self.counts[i];
            let b = rhs.counts[i];
            counts.push(if a >= b { a - b } else { 0 });
            i += 1;
        }
        MusicBreakdown { score: sat_sub(self.score, rhs.score), counts }
    }

    /// In-place form of [`MusicBreakdown::saturating_sub`].
    pub fn saturating_sub_assign(&mut self, rhs: &Self)
        requires
            old(self).counts@.len() == rhs.counts@.len(),
        ensures
            final(self).score == sat64(old(self).score - rhs.score),
            final(self).counts@.len() == old(self).counts@.len(),
            forall|i: int|
                0 <= i < final(self).counts@.len() ==> final(self).counts@[i] == if old(
                    self,
                ).counts@[i] >= rhs.counts@[i] {
                    old(self).counts@[i] - rhs.counts@[i]
                } else {
                    0int
                },
    {
        let r = self.saturating_sub(rhs);
        self.score = r.score;
        self.counts = r.counts;
    }

    /// Pointwise sum of two breakdowns; counts must not overflow, the score
    /// saturates.
    pub fn add(&self, rhs: &Self) -> (r: Self)
        requires
            self.counts@.len() == rhs.counts@.len(),
            forall|i: int|
                0 <= i < self.counts@.len() ==> self.counts@[i] + rhs.counts@[i] <= usize::MAX,
        ensures
            r.score == sat64(self.score + rhs.score),
            r.counts@.len() == self.counts@.len(),
            forall|i: int|
                0 <= i < r.counts@.len() ==> r.counts@[i] == self.counts@[i] + rhs.counts@[i],
    {
        let n = self.counts.len();
        let mut counts: Vec<usize> = Vec::new();
        let mut i: usize = 0;
        while i < n
            invariant
                i <= n,
                n == self.counts@.len() == rhs.counts@.len(),
                counts@.len() == i,
                forall|j: int|
                    0 <= j < n ==> self.counts@[j] + rhs.counts@[j] <= usize::MAX,
                forall|j: int| 0 <= j < i ==> counts@[j] == self.counts@[j] + rhs.counts@[j],
            decreases n - i,
        {
            counts.push(self.counts[i] + rhs.counts[i]);
            i += 1;
        }
        MusicBreakdown { score: sat_add(self.score, rhs.score), counts }
    }

    /// In-place form of [`MusicBreakdown::add`].
    pub fn add_assign(&mut self, rhs: &Self)
        requires
            old(self).counts@.len() == rhs.counts@.len(),
            forall|i: int|
                0 <= i < old(self).counts@.len() ==> old(self).counts@[i] + rhs.counts@[i]
                    <= usize::MAX,
        ensures
            final(self).score == sat64(old(self).score + rhs.score),
            final(self).counts@.len() == old(self).counts@.len(),
            forall|i: int|
                0 <= i < final(self).counts@.len() ==> final(self).counts@[i] == old(
                    self,
                ).counts@[i] + rhs.counts@[i],
    {
        let r = self.add(rhs);
        self.score = r.score;
        self.counts = r.counts;
    }
}

impl Clone for MusicBreakdown {
    /// Cloning preserves the breakdown's value.
    fn clone(&self) -> (r: Self)
        ensures
            r.score == self.score,
            r.counts@ == self.counts@,
    {
        let r = MusicBreakdown { score: self.score, counts: self.counts.clone() };
        proof {
            assert(r.counts@ =~= self.counts@);
        }
        r
    }
}

} // verus!
