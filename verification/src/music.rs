//! Patterns: partial row specifications used to score music and to build
//! masks.  A pattern is a sequence of elements, each a fixed bell, a
//! single-place wildcard `x`, or a run wildcard `*`.

use vstd::prelude::*;

use crate::bell::{bell_index_of_name, Bell, Stage};
use crate::row::Row;

verus! {

/// One element of a [`Pattern`].
#[derive(Clone, Copy, PartialEq, Eq, Structural, Debug)]
pub enum Elem {
    /// A specific bell must lie here.
    Bell(Bell),
    /// Any one bell may lie here.
    X,
    /// Any run of bells (possibly empty) may lie here.
    Star,
}

/// The number of `Star` elements in a sequence.
pub open spec fn count_stars(s: Seq<Elem>) -> int
    decreases s.len(),
{
    if s.len() == 0 {
        0
    } else {
        count_stars(s.drop_last()) + if s.last() is Star {
            1int
        } else {
            0int
        }
    }
}

/// The number of elements that consume exactly one place (everything but the
/// stars).
pub open spec fn count_fixed(s: Seq<Elem>) -> int
    decreases s.len(),
{
    if s.len() == 0 {
        0
    } else {
        count_fixed(s.drop_last()) + if s.last() is Star {
            0int
        } else {
            1int
        }
    }
}

pub proof fn lemma_counts_nonneg(s: Seq<Elem>)
    ensures
        count_stars(s) >= 0,
        count_fixed(s) >= 0,
        count_stars(s) + count_fixed(s) == s.len(),
    decreases s.len(),
{
    if s.len() > 0 {
        lemma_counts_nonneg(s.drop_last());
    }
}


/// Taking one more element adds its star/fixed contribution.
pub proof fn lemma_count_stars_take(s: Seq<Elem>, k: int)
    requires
        0 <= k < s.len(),
    ensures
        count_stars(s.take(k + 1)) == count_stars(s.take(k)) + if s[k] is Star {
            1int
        } else {
            0int
        },
        count_fixed(s.take(k + 1)) == count_fixed(s.take(k)) + if s[k] is Star {
            0int
        } else {
            1int
        },
{
    assert(s.take(k + 1).drop_last() =~= s.take(k));
    assert(s.take(k + 1).last() == s[k]);
}

/// A prefix never holds more stars than the whole sequence.
pub proof fn lemma_count_stars_prefix(s: Seq<Elem>, k: int)
    requires
        0 <= k <= s.len(),
    ensures
        count_stars(s.take(k)) <= count_stars(s),
        count_stars(s.take(k)) >= 0,
    decreases s.len() - k,
{
    lemma_counts_nonneg(s.take(k));
    if k < s.len() {
        lemma_count_stars_take(s, k);
        lemma_count_stars_prefix(s, k + 1);
    } else {
        assert(s.take(k) =~= s);
    }
}

/// How a single pattern character reads: a wildcard place, a star, a bell, or
/// nothing at all.
pub open spec fn classify_char(c: char) -> Option<Elem> {
    if c == 'x' || c == 'X' || c == '.' {
        Some(Elem::X)
    } else if c == '*' {
        Some(Elem::Star)
    } else {
        match bell_index_of_name(c) {
            Some(i) => Some(Elem::Bell(Bell { index: i as u8 })),
            None => None,
        }
    }
}

/// The raw element sequence a string denotes, reading characters left to
/// right and skipping characters that mean nothing.
pub open spec fn elems_of_chars(s: Seq<char>) -> Seq<Elem>
    decreases s.len(),
{
    if s.len() == 0 {
        Seq::empty()
    } else {
        elems_of_chars(s.drop_last()) + match classify_char(s.last()) {
            Some(e) => seq![e],
            None => Seq::empty(),
        }
    }
}

/// Star normalisation: within each maximal run of wildcards that holds at
/// least one star, the single-place wildcards are kept and the stars collapse
/// to one, written last.  `prev_star` says whether a star is pending from the
/// run still open at the end of the prefix.
pub open spec fn normalise_elems(s: Seq<Elem>, prev_star: bool) -> Seq<Elem>
    decreases s.len(),
{
    if s.len() == 0 {
        if prev_star {
            seq![Elem::Star]
        } else {
            Seq::empty()
        }
    } else {
        match s.first() {
            Elem::Star => normalise_elems(s.drop_first(), true),
            Elem::X => seq![Elem::X] + normalise_elems(s.drop_first(), prev_star),
            Elem::Bell(b) => (if prev_star {
                seq![Elem::Star, Elem::Bell(b)]
            } else {
                seq![Elem::Bell(b)]
            }) + normalise_elems(s.drop_first(), false),
        }
    }
}

/// Whether a sequence of elements can describe a row of `n` bells: patterns
/// without a star must take exactly `n` places, patterns with stars at most
/// `n`.
pub open spec fn elems_fit_stage(s: Seq<Elem>, n: int) -> bool {
    if count_stars(s) == 0 {
        count_fixed(s) == n
    } else {
        count_fixed(s) <= n
    }
}

/// Whether a string parses as a pattern at a stage: every character means
/// something, and the normalised elements fit the stage with every named
/// bell inside it.
pub open spec fn chars_parseable(s: Seq<char>, stage: Stage) -> bool {
    &&& forall|j: int| 0 <= j < s.len() ==> classify_char(#[trigger] s[j]) is Some
    &&& elems_fit_stage(normalise_elems(elems_of_chars(s), false), stage.spec_num_bells())
    &&& forall|i: int|
        0 <= i < normalise_elems(elems_of_chars(s), false).len() ==> ((
        #[trigger] normalise_elems(elems_of_chars(s), false)[i]) matches Elem::Bell(b) ==> b.index
            < stage.spec_num_bells())
}

/// A partial specification of a row: some places fixed to bells, some
/// wild.
#[derive(Debug)]
pub struct Pattern {
    pub elems: Vec<Elem>,
    pub stage: Stage,
}

/// Reasons a string fails to parse as a [`Pattern`].
#[derive(Clone, Copy, PartialEq, Eq, Structural, Debug)]
pub enum PatternError {
    /// A character that names neither a bell nor a wildcard.
    InvalidChar(char),
    /// A named bell lies beyond the stage.
    BellOutOfStage(Bell),
    /// The pattern cannot cover exactly the stage's number of places.
    WrongLength,
}

impl View for Pattern {
    type V = Seq<Elem>;

    open spec fn view(&self) -> Seq<Elem> {
        self.elems@
    }
}

impl Pattern {
    /// Every pattern built by this module satisfies this.
    pub open spec fn wf(&self) -> bool {
        &&& self.stage.spec_is_valid()
        &&& elems_fit_stage(self@, self.stage.spec_num_bells())
        &&& forall|i: int|
            0 <= i < self@.len() ==> ((#[trigger] self@[i]) matches Elem::Bell(b) ==> b.index
                < self.stage.spec_num_bells())
    }

    /// The elements of this pattern.
    pub fn elems(&self) -> (r: &Vec<Elem>)
        ensures
            r@ == self@,
    {
        &self.elems
    }

    /// The stage this pattern describes rows of.
    pub fn stage(&self) -> (r: Stage)
        ensures
            r == self.stage,
    {
        self.stage
    }

    /// Builds a pattern from elements, checking that they fit the stage.
    pub fn from_elems(elems: Vec<Elem>, stage: Stage) -> (r: Result<Pattern, PatternError>)
        requires
            stage.spec_is_valid(),
        ensures
            match r {
                Ok(p) => p@ == elems@ && p.stage == stage && p.wf(),
                Err(_) => !(elems_fit_stage(elems@, stage.spec_num_bells()) && forall|i: int|
                    0 <= i < elems@.len() ==> ((#[trigger] elems@[i]) matches Elem::Bell(b)
                        ==> b.index < stage.spec_num_bells())),
            },
    {
        let n = stage.num_bells();
        let mut stars: usize = 0;
        let mut fixed: usize = 0;
        let mut i: usize = 0;
        while i < elems.len()
            invariant
                i <= elems@.len(),
                stars == count_stars(elems@.take(i as int)),
                fixed == count_fixed(elems@.take(i as int)),
                stars + fixed == i,
                n == stage.spec_num_bells(),
                stage.spec_is_valid(),
                forall|j: int|
                    0 <= j < i ==> ((#[trigger] elems@[j]) matches Elem::Bell(b) ==> b.index < n),
            decreases elems@.len() - i,
        {
            proof {
                lemma_counts_nonneg(elems@.take(i as int));
                assert(elems@.take(i + 1).drop_last() =~= elems@.take(i as int));
            }
            match elems[i] {
                Elem::Star => {
                    stars += 1;
                }
                Elem::X => {
                    fixed += 1;
                }
                Elem::Bell(b) => {
                    if b.index() >= n {
                        return Err(PatternError::BellOutOfStage(b));
                    }
                    fixed += 1;
                }
            }
            i += 1;
        }
        proof {
            assert(elems@.take(elems@.len() as int) =~= elems@);
        }
        let fits = if stars == 0 {
            fixed == n
        } else {
            fixed <= n
        };
        if fits {
            Ok(Pattern { elems, stage })
        } else {
            Err(PatternError::WrongLength)
        }
    }

    /// Parses a pattern, normalising star runs so that no two stars stand in
    /// one wildcard run.  Acceptance is exact: parsing succeeds exactly
    /// when every character means something and the normalised elements fit
    /// the stage.
    pub fn parse(s: &str, stage: Stage) -> (r: Result<Pattern, PatternError>)
        requires
            stage.spec_is_valid(),
        ensures
            match r {
                Ok(p) => p@ == normalise_elems(elems_of_chars(s@), false) && p.stage == stage
                    && p.wf() && chars_parseable(s@, stage),
                Err(_) => !chars_parseable(s@, stage),
            },
    {
        let len = s.unicode_len();
        let mut raw: Vec<Elem> = Vec::new();
        let mut i: usize = 0;
        while i < len
            invariant
                i <= len,
                len == s@.len(),
                raw@ == elems_of_chars(s@.take(i as int)),
                forall|j: int| 0 <= j < i ==> classify_char(#[trigger] s@[j]) is Some,
            decreases len - i,
        {
            let c = s.get_char(i);
            proof {
                assert(s@.take(i + 1).drop_last() =~= s@.take(i as int));
                assert(s@.take(i + 1).last() == s@[i as int]);
            }
            if c == 'x' || c == 'X' || c == '.' {
                raw.push(Elem::X);
            } else if c == '*' {
                raw.push(Elem::Star);
            } else {
                match Bell::from_name(c) {
                    Some(b) => {
                        raw.push(Elem::Bell(b));
                    }
                    None => {
                        proof {
                            assert(classify_char(s@[i as int]) is None);
                        }
                        return Err(PatternError::InvalidChar(c));
                    }
                }
            }
            proof {
                assert(raw@ =~= elems_of_chars(s@.take(i + 1)));
            }
            i += 1;
        }
        proof {
            assert(s@.take(len as int) =~= s@);
        }
        // Normalise star runs, scanning from the back so the spec's
        // head-first recursion lines up with a push-based loop.
        let norm = normalise_exec(&raw);
        let r = Pattern::from_elems(norm, stage);
        proof {
            match r {
                Ok(ref p) => {
                    assert(chars_parseable(s@, stage));
                }
                Err(_) => {
                    assert(!chars_parseable(s@, stage));
                }
            }
        }
        r
    }

    /// Whether a row satisfies this pattern.
    pub fn matches(&self, row: &Row) -> (r: bool)
        ensures
            r == pattern_matches(self@, row@),
    {
        matches_rec(&self.elems, 0, &row.bells, 0)
    }
}

/// Whether the element suffix from `ei` can match the row suffix from `ri`:
/// classic wildcard matching, where a star absorbs any run.
pub open spec fn pattern_matches_from(elems: Seq<Elem>, ei: int, row: Seq<u8>, ri: int) -> bool
    decreases elems.len() - ei, row.len() - ri,
    when 0 <= ei <= elems.len() && 0 <= ri <= row.len()
{
    if ei == elems.len() {
        ri == row.len()
    } else {
        match elems[ei] {
            Elem::Bell(b) => ri < row.len() && row[ri] == b.index && pattern_matches_from(
                elems,
                ei + 1,
                row,
                ri + 1,
            ),
            Elem::X => ri < row.len() && pattern_matches_from(elems, ei + 1, row, ri + 1),
            Elem::Star => pattern_matches_from(elems, ei + 1, row, ri) || (ri < row.len()
                && pattern_matches_from(elems, ei, row, ri + 1)),
        }
    }
}

/// Whether a whole row satisfies a whole pattern.
pub open spec fn pattern_matches(elems: Seq<Elem>, row: Seq<u8>) -> bool {
    pattern_matches_from(elems, 0, row, 0)
}

/// Executable wildcard matching, following the spec's recursion.
fn matches_rec(elems: &Vec<Elem>, ei: usize, row: &Vec<u8>, ri: usize) -> (r: bool)
    requires
        ei <= elems@.len(),
        ri <= row@.len(),
    ensures
        r == pattern_matches_from(elems@, ei as int, row@, ri as int),
    decreases elems@.len() - ei, row@.len() - ri,
{
    if ei == elems.len() {
        ri == row.len()
    } else {
        match elems[ei] {
            Elem::Bell(b) => {
                ri < row.len() && row[ri] == b.index && matches_rec(elems, ei + 1, row, ri + 1)
            }
            Elem::X => ri < row.len() && matches_rec(elems, ei + 1, row, ri + 1),
            Elem::Star => {
                matches_rec(elems, ei + 1, row, ri) || (ri < row.len() && matches_rec(
                    elems,
                    ei,
                    row,
                    ri + 1,
                ))
            }
        }
    }
}

/// Normalises star runs: scans from the back, so that each position knows
/// whether a star is still pending to its left... the exec walk goes from the
/// front matching the spec's head recursion.
fn normalise_exec(raw: &Vec<Elem>) -> (r: Vec<Elem>)
    ensures
        r@ == normalise_elems(raw@, false),
{
    let mut out: Vec<Elem> = Vec::new();
    let mut prev_star: bool = false;
    let mut i: usize = 0;
    proof {
        assert(raw@.skip(0) =~= raw@);
        assert(out@ + normalise_elems(raw@, false) =~= normalise_elems(raw@, false));
    }
    while i < raw.len()
        invariant
            i <= raw@.len(),
            out@ + normalise_elems(raw@.skip(i as int), prev_star) == normalise_elems(raw@, false),
        decreases raw@.len() - i,
    {
        proof {
            assert(raw@.skip(i as int).drop_first() =~= raw@.skip(i + 1));
            assert(raw@.skip(i as int).first() == raw@[i as int]);
        }
        match raw[i] {
            Elem::Star => {
                prev_star = true;
            }
            Elem::X => {
                out.push(Elem::X);
            }
            Elem::Bell(b) => {
                if prev_star {
                    out.push(Elem::Star);
                }
                out.push(Elem::Bell(b));
                prev_star = false;
            }
        }
        i += 1;
        proof {
            assert(out@ + normalise_elems(raw@.skip(i as int), prev_star) =~= normalise_elems(
                raw@,
                false,
            ));
        }
    }
    if prev_star {
        out.push(Elem::Star);
    }
    proof {
        assert(raw@.skip(raw@.len() as int) =~= Seq::<Elem>::empty());
        assert(out@ =~= normalise_elems(raw@, false));
    }
    out
}

impl Clone for Pattern {
    /// Cloning preserves the pattern's value.
    fn clone(&self) -> (r: Self)
        ensures
            r@ == self@,
            r.stage == self.stage,
    {
        let r = Pattern { elems: self.elems.clone(), stage: self.stage };
        proof {
            assert(r@ =~= self@);
        }
        r
    }
}


/// Whether a row sounds at handstroke or backstroke.
#[derive(Clone, Copy, PartialEq, Eq, Structural, Debug)]
pub enum Stroke {
    Hand,
    Back,
}

impl Stroke {
    /// The opposite stroke.
    pub open spec fn spec_flip(self) -> Stroke {
        match self {
            Stroke::Hand => Stroke::Back,
            Stroke::Back => Stroke::Hand,
        }
    }

    /// The stroke reached `by` rows after this one.
    pub open spec fn spec_offset(self, by: int) -> Stroke {
        if by % 2 == 0 {
            self
        } else {
            self.spec_flip()
        }
    }

    /// The stroke reached `by` rows after this one.
    pub fn offset(self, by: usize) -> (r: Stroke)
        ensures
            r == self.spec_offset(by as int),
    {
        if by % 2 == 0 {
            self
        } else {
            match self {
                Stroke::Hand => Stroke::Back,
                Stroke::Back => Stroke::Hand,
            }
        }
    }
}

/// The strokes on which a music type counts.
#[derive(Clone, Copy, PartialEq, Eq, Structural, Debug)]
pub enum StrokeSet {
    Both,
    Hand,
    Back,
}

impl StrokeSet {
    /// Whether this set holds the given stroke.
    pub open spec fn spec_contains(self, stroke: Stroke) -> bool {
        match self {
            StrokeSet::Both => true,
            StrokeSet::Hand => stroke is Hand,
            StrokeSet::Back => stroke is Back,
        }
    }

    /// Whether this set holds the given stroke.
    pub fn contains(self, stroke: Stroke) -> (r: bool)
        ensures
            r == self.spec_contains(stroke),
    {
        match self {
            StrokeSet::Both => true,
            StrokeSet::Hand => matches!(stroke, Stroke::Hand),
            StrokeSet::Back => matches!(stroke, Stroke::Back),
        }
    }
}

/// An optional inclusive bound on how often a music type may occur.
#[derive(Clone, Copy, PartialEq, Eq, Structural, Debug)]
pub struct OptRange {
    pub min: Option<usize>,
    pub max: Option<usize>,
}

impl OptRange {
    /// The range placing no bound at all.
    pub fn open() -> (r: OptRange)
        ensures
            r.min is None,
            r.max is None,
    {
        OptRange { min: None, max: None }
    }
}

/// A class of music to search for: a set of patterns, a weight for each
/// occurrence, optional bounds on the count, and the strokes that count.
#[derive(Debug)]
pub struct MusicType {
    pub patterns: Vec<Pattern>,
    pub weight: i64,
    pub count_range: OptRange,
    pub strokes: StrokeSet,
}

impl MusicType {
    /// Builds a music type that counts on every stroke.
    pub fn new(patterns: Vec<Pattern>, weight: i64, count_range: OptRange) -> (r: MusicType)
        ensures
            r.patterns@ == patterns@,
            r.weight == weight,
            r.count_range == count_range,
            r.strokes == StrokeSet::Both,
    {
        MusicType { patterns, weight, count_range, strokes: StrokeSet::Both }
    }
}

/// The number of pattern hits over a list of rows, without transposition.
pub open spec fn plain_hits(patterns: Seq<Pattern>, rows: Seq<Row>) -> int
    decreases rows.len(),
{
    if rows.len() == 0 {
        0
    } else {
        plain_hits(patterns, rows.drop_last()) + crate::utils::count_pattern_matches(
            patterns,
            rows.last()@,
        )
    }
}

impl MusicType {
    /// The score a list of rows earns from this type alone: the number of
    /// pattern hits times the weight, saturating.
    pub fn score(&self, rows: &Vec<Row>) -> (r: i64)
        requires
            rows@.len() * self.patterns@.len() <= usize::MAX,
        ensures
            r == crate::utils::sat64(self.weight * plain_hits(self.patterns@, rows@)),
    {
        let mut hits: usize = 0;
        let mut i: usize = 0;
        while i < rows.len()
            invariant
                i <= rows@.len(),
                rows@.len() * self.patterns@.len() <= usize::MAX,
                hits == plain_hits(self.patterns@, rows@.take(i as int)),
                hits <= i * self.patterns@.len(),
            decreases rows@.len() - i,
        {
            proof {
                assert(rows@.take(i + 1).drop_last() =~= rows@.take(i as int));
                assert(rows@.take(i + 1).last() == rows@[i as int]);
                crate::utils::lemma_count_pattern_matches_bound(self.patterns@, rows@[i as int]@);
                assert(i * self.patterns@.len() + self.patterns@.len() <= rows@.len()
                    * self.patterns@.len()) by (nonlinear_arith)
                    requires
                        0 <= i < rows@.len(),
                        self.patterns@.len() >= 0,
                ;
            }
            let row = &rows[i];
            let mut pi: usize = 0;
            let mut row_hits: usize = 0;
            while pi < self.patterns.len()
                invariant
                    pi <= self.patterns@.len(),
                    row == &rows@[i as int],
                    i < rows@.len(),
                    row_hits == crate::utils::count_pattern_matches(
                        self.patterns@.take(pi as int),
                        row@,
                    ),
                    row_hits <= pi,
                decreases self.patterns@.len() - pi,
            {
                proof {
                    assert(self.patterns@.take(pi + 1).drop_last() =~= self.patterns@.take(
                        pi as int,
                    ));
                    crate::utils::lemma_count_pattern_matches_bound(
                        self.patterns@.take(pi as int),
                        row@,
                    );
                }
                if self.patterns[pi].matches(row) {
                    row_hits += 1;
                }
                pi += 1;
            }
            proof {
                assert(self.patterns@.take(self.patterns@.len() as int) =~= self.patterns@);
                crate::utils::lemma_count_pattern_matches_bound(self.patterns@, rows@[i as int]@);
                assert((i + 1) * self.patterns@.len() == i * self.patterns@.len()
                    + self.patterns@.len()) by (nonlinear_arith);
            }
            hits = hits + row_hits;
            i += 1;
        }
        proof {
            assert(rows@.take(rows@.len() as int) =~= rows@);
        }
        crate::utils::sat_mul_count(self.weight, hits)
    }
}

impl Clone for MusicType {
    /// Cloning preserves the music type's value, pattern by pattern.
    fn clone(&self) -> (r: Self)
        ensures
            r.patterns@.len() == self.patterns@.len(),
            forall|i: int|
                0 <= i < self.patterns@.len() ==> (#[trigger] r.patterns@[i])@
                    == self.patterns@[i]@ && r.patterns@[i].stage == self.patterns@[i].stage,
            r.weight == self.weight,
            r.count_range == self.count_range,
            r.strokes == self.strokes,
    {
        let mut patterns: Vec<Pattern> = Vec::new();
        let mut i: usize = 0;
        while i < self.patterns.len()
            invariant
                i <= self.patterns@.len(),
                patterns@.len() == i,
                forall|j: int|
                    0 <= j < i ==> (#[trigger] patterns@[j])@ == self.patterns@[j]@
                        && patterns@[j].stage == self.patterns@[j].stage,
            decreases self.patterns@.len() - i,
        {
            patterns.push(self.patterns[i].clone());
            i += 1;
        }
        MusicType {
            patterns,
            weight: self.weight,
            count_range: self.count_range,
            strokes: self.strokes,
        }
    }
}

} // verus!
