//! Masks: row specifications that fix the location of some bells and leave
//! the rest open.  A mask is a music pattern with no `*`s.

use vstd::prelude::*;

use crate::bell::{bell_index_of_name, Bell, Stage, MAX_BELLS};
use crate::music::{self, count_stars, elems_fit_stage, elems_of_chars, normalise_elems, Elem, Pattern};
use crate::row::{valid_row, Row, RowBuf};

verus! {

/// The mask a string denotes: wildcard characters become open places, bell
/// names become fixed places, anything else is skipped.
pub open spec fn mask_of_chars(s: Seq<char>) -> Seq<Option<Bell>>
    decreases s.len(),
{
    if s.len() == 0 {
        Seq::empty()
    } else {
        mask_of_chars(s.drop_last()) + match music::classify_char(s.last()) {
            Some(Elem::X) => seq![None],
            Some(Elem::Star) => Seq::empty(),
            Some(Elem::Bell(b)) => seq![Some(b)],
            None => Seq::empty(),
        }
    }
}

/// The expansion of pattern elements into mask places, writing `star_len`
/// open places for a star.
pub open spec fn expand_elems(s: Seq<Elem>, star_len: int) -> Seq<Option<Bell>>
    decreases s.len(),
{
    if s.len() == 0 {
        Seq::empty()
    } else {
        expand_elems(s.drop_last(), star_len) + match s.last() {
            Elem::Bell(b) => seq![Some(b)],
            Elem::X => seq![None],
            Elem::Star => Seq::new(star_len as nat, |i: int| None),
        }
    }
}

/// An expansion's length: one place per fixed element, `star_len` places
/// per star.
pub proof fn lemma_expand_len(s: Seq<Elem>, star_len: int)
    requires
        star_len >= 0,
    ensures
        expand_elems(s, star_len).len() == music::count_fixed(s) + star_len * count_stars(s),
    decreases s.len(),
{
    if s.len() == 0 {
        assert(star_len * 0 == 0) by (nonlinear_arith);
    } else {
        lemma_expand_len(s.drop_last(), star_len);
        music::lemma_counts_nonneg(s.drop_last());
        if s.last() is Star {
            assert(star_len * count_stars(s) == star_len * count_stars(s.drop_last()) + star_len)
                by (nonlinear_arith)
                requires
                    count_stars(s) == count_stars(s.drop_last()) + 1,
            ;
        } else {
            assert(count_stars(s) == count_stars(s.drop_last()));
        }
    }
}

/// Whether a row satisfies a mask: equal lengths, and every fixed place
/// agrees.
pub open spec fn mask_matches(m: Seq<Option<Bell>>, row: Seq<u8>) -> bool {
    &&& m.len() == row.len()
    &&& forall|i: int|
        0 <= i < m.len() ==> ((#[trigger] m[i]) matches Some(b) ==> row[i] == b.index)
}

/// A mask which fixes the location of some bells.  Open positions are
/// written `x`.
#[derive(Debug)]
pub struct Mask {
    pub bells: Vec<Option<Bell>>,
}

impl View for Mask {
    type V = Seq<Option<Bell>>;

    open spec fn view(&self) -> Seq<Option<Bell>> {
        self.bells@
    }
}

/// Error returned by [`Mask::fix`] and [`Mask::set_bell`]: the bell is
/// already fixed elsewhere.
#[derive(Clone, Copy, PartialEq, Eq, Structural, Debug)]
pub struct BellAlreadySet(pub Bell);

/// Error returned by [`Mask::from_pattern`]: more than one `*`.
#[derive(Clone, Copy, PartialEq, Eq, Structural, Debug)]
pub struct MultipleStars;

/// The ways [`Mask::parse_with_stage`] can fail.
#[derive(Clone, Copy, PartialEq, Eq, Structural, Debug)]
pub enum ParseError {
    Pattern(music::PatternError),
    MultipleStars,
}

impl Mask {
    /// Parses a mask from characters, skipping characters that mean nothing
    /// here (including `*`: use [`Mask::parse_with_stage`] for patterns).
    pub fn parse(s: &str) -> (r: Mask)
        ensures
            r@ == mask_of_chars(s@),
    {
        let len = s.unicode_len();
        let mut bells: Vec<Option<Bell>> = Vec::new();
        let mut i: usize = 0;
        while i < len
            invariant
                i <= len,
                len == s@.len(),
                bells@ == mask_of_chars(s@.take(i as int)),
            decreases len - i,
        {
            let c = s.get_char(i);
            proof {
                assert(s@.take(i + 1).drop_last() =~= s@.take(i as int));
                assert(s@.take(i + 1).last() == s@[i as int]);
            }
            if c == 'x' || c == 'X' || c == '.' {
                bells.push(None);
            } else if c == '*' {
                // Stars carry no width here; they are skipped.
            } else {
                match Bell::from_name(c) {
                    Some(b) => {
                        bells.push(Some(b));
                    }
                    None => {
                        // Characters that name nothing are ignored.
                    }
                }
            }
            proof {
                assert(bells@ =~= mask_of_chars(s@.take(i + 1)));
            }
            i += 1;
        }
        proof {
            assert(s@.take(len as int) =~= s@);
        }
        Mask { bells }
    }

    /// Parses a mask via a [`Pattern`], expanding at most one `*` to fit the
    /// stage.  The outcomes split exactly: a pattern error when the string
    /// does not parse at the stage, a star error when it parses but
    /// normalises to more than one star, and otherwise a mask of the
    /// stage's full width.
    pub fn parse_with_stage(s: &str, stage: Stage) -> (r: Result<Mask, ParseError>)
        requires
            stage.spec_is_valid(),
        ensures
            match r {
                Ok(m) => {
                    let elems = normalise_elems(elems_of_chars(s@), false);
                    &&& music::chars_parseable(s@, stage)
                    &&& count_stars(elems) <= 1
                    &&& m@ == expand_elems(
                        elems,
                        stage.spec_num_bells() - (elems.len() - count_stars(elems)),
                    )
                    &&& m@.len() == stage.spec_num_bells()
                },
                Err(e) => match e {
                    ParseError::Pattern(_) => !music::chars_parseable(s@, stage),
                    ParseError::MultipleStars => music::chars_parseable(s@, stage) && count_stars(
                        normalise_elems(elems_of_chars(s@), false),
                    ) >= 2,
                },
            },
    {
        match Pattern::parse(s, stage) {
            Ok(pattern) => match Mask::from_pattern(&pattern) {
                Ok(m) => {
                    proof {
                        let elems = normalise_elems(elems_of_chars(s@), false);
                        music::lemma_counts_nonneg(elems);
                        music::lemma_count_stars_prefix(elems, 0);
                        lemma_expand_len(
                            elems,
                            stage.spec_num_bells() - (elems.len() - count_stars(elems)),
                        );
                        if count_stars(elems) == 0 {
                            assert((stage.spec_num_bells() - (elems.len() - count_stars(elems)))
                                * 0 == 0) by (nonlinear_arith);
                        } else {
                            assert(count_stars(elems) == 1);
                            assert((stage.spec_num_bells() - (elems.len() - count_stars(elems)))
                                * 1 == stage.spec_num_bells() - (elems.len() - count_stars(
                                elems,
                            ))) by (nonlinear_arith);
                        }
                    }
                    Ok(m)
                }
                Err(MultipleStars) => Err(ParseError::MultipleStars),
            },
            Err(e) => Err(ParseError::Pattern(e)),
        }
    }

    /// Converts a [`Pattern`] into a mask of the same stage, expanding at
    /// most one `*` if it exists.
    pub fn from_pattern(pattern: &Pattern) -> (r: Result<Mask, MultipleStars>)
        requires
            pattern.wf(),
        ensures
            match r {
                Ok(m) => count_stars(pattern@) <= 1 && m@ == expand_elems(
                    pattern@,
                    pattern.stage.spec_num_bells() - (pattern@.len() - count_stars(pattern@)),
                ),
                Err(_) => count_stars(pattern@) >= 2,
            },
    {
        let stage = pattern.stage();
        let elems = pattern.elems();

        // Count the stars to find how many open places one star stands for.
        let mut num_stars: usize = 0;
        let mut i: usize = 0;
        while i < elems.len()
            invariant
                i <= elems@.len(),
                num_stars == count_stars(elems@.take(i as int)),
                num_stars <= i,
            decreases elems@.len() - i,
        {
            proof {
                music::lemma_counts_nonneg(elems@.take(i as int));
                assert(elems@.take(i + 1).drop_last() =~= elems@.take(i as int));
            }
            if let Elem::Star = elems[i] {
                num_stars += 1;
            }
            i += 1;
        }
        proof {
            assert(elems@.take(elems@.len() as int) =~= elems@);
        }
        if num_stars >= 2 {
            return Err(MultipleStars);
        }
        proof {
            music::lemma_counts_nonneg(elems@);
        }
        let star_length = if num_stars == 0 {
            0
        } else {
            stage.num_bells() - (elems.len() - num_stars)
        };

        // Expand the elements into mask places.
        let ghost slen: int = stage.spec_num_bells() - (elems@.len() - count_stars(elems@));
        proof {
            if count_stars(elems@) >= 1 {
                assert(elems_fit_stage(elems@, stage.spec_num_bells()));
            }
        }
        let mut bells: Vec<Option<Bell>> = Vec::new();
        let mut k: usize = 0;
        while k < elems.len()
            invariant
                k <= elems@.len(),
                bells@ == expand_elems(elems@.take(k as int), slen),
                count_stars(elems@) <= 1,
                count_stars(elems@) == 1 ==> star_length == slen,
                slen == stage.spec_num_bells() - (elems@.len() - count_stars(elems@)),
            decreases elems@.len() - k,
        {
            proof {
                assert(elems@.take(k + 1).drop_last() =~= elems@.take(k as int));
                music::lemma_count_stars_take(elems@, k as int);
                music::lemma_count_stars_prefix(elems@, k + 1);
                music::lemma_count_stars_prefix(elems@, k as int);
                if elems@[k as int] is Star {
                    assert(count_stars(elems@.take(k + 1)) >= 1);
                    assert(count_stars(elems@) == 1);
                }
            }
            match elems[k] {
                Elem::Bell(b) => {
                    bells.push(Some(b));
                }
                Elem::X => {
                    bells.push(None);
                }
                Elem::Star => {
                    let mut j: usize = 0;
                    let ghost before = bells@;
                    while j < star_length
                        invariant
                            j <= star_length,
                            bells@ == before + Seq::new(j as nat, |t: int| None::<Bell>),
                        decreases star_length - j,
                    {
                        bells.push(None);
                        proof {
                            assert(bells@ =~= before + Seq::new((j + 1) as nat, |t: int| None::<Bell>));
                        }
                        j += 1;
                    }
                }
            }
            proof {
                assert(bells@ =~= expand_elems(elems@.take(k + 1), slen));
            }
            k += 1;
        }
        proof {
            assert(elems@.take(elems@.len() as int) =~= elems@);
        }
        Ok(Mask { bells })
    }

    /// A mask that fully specifies a given row.
    pub fn full_row(row: &Row) -> (r: Mask)
        requires
            row.valid(),
        ensures
            r@.len() == row@.len(),
            forall|i: int|
                0 <= i < row@.len() ==> (#[trigger] r@[i]) == Some(Bell { index: row@[i] }),
    {
        let n = row.bells.len();
        let mut bells: Vec<Option<Bell>> = Vec::new();
        let mut i: usize = 0;
        while i < n
            invariant
                i <= n,
                n == row@.len(),
                row.valid(),
                bells@.len() == i,
                forall|j: int| 0 <= j < i ==> (#[trigger] bells@[j]) == Some(
                    Bell { index: row@[j] },
                ),
            decreases n - i,
        {
            bells.push(Some(Bell::from_index(row.bells[i])));
            i += 1;
        }
        Mask { bells }
    }

    /// A mask that matches any row of the given stage, written `xxxx...`.
    pub fn empty(stage: Stage) -> (r: Mask)
        ensures
            r@.len() == stage.spec_num_bells(),
            forall|i: int| 0 <= i < r@.len() ==> (#[trigger] r@[i]) is None,
    {
        let n = stage.num_bells();
        let mut bells: Vec<Option<Bell>> = Vec::new();
        let mut i: usize = 0;
        while i < n
            invariant
                i <= n,
                bells@.len() == i,
                forall|j: int| 0 <= j < i ==> (#[trigger] bells@[j]) is None,
            decreases n - i,
        {
            bells.push(None);
            i += 1;
        }
        Mask { bells }
    }

    /// A mask that matches any row of the given stage; exactly equivalent to
    /// [`Mask::empty`].
    pub fn any(stage: Stage) -> (r: Mask)
        ensures
            r@.len() == stage.spec_num_bells(),
            forall|i: int| 0 <= i < r@.len() ==> (#[trigger] r@[i]) is None,
    {
        Self::empty(stage)
    }

    /// A mask that fixes the given bells in their home places.
    pub fn with_fixed_bells(stage: Stage, fixed_bells: &Vec<Bell>) -> (r: Mask)
        requires
            forall|i: int|
                0 <= i < fixed_bells@.len() ==> (#[trigger] fixed_bells@[i]).index
                    < stage.spec_num_bells(),
        ensures
            r@.len() == stage.spec_num_bells(),
            forall|p: int|
                0 <= p < r@.len() ==> ((#[trigger] r@[p]) == if fixed_bells@.contains(
                    Bell { index: p as u8 },
                ) {
                    Some(Bell { index: p as u8 })
                } else {
                    None::<Bell>
                }),
    {
        let mut mask = Self::empty(stage);
        let mut i: usize = 0;
        while i < fixed_bells.len()
            invariant
                i <= fixed_bells@.len(),
                mask@.len() == stage.spec_num_bells(),
                forall|j: int|
                    0 <= j < fixed_bells@.len() ==> (#[trigger] fixed_bells@[j]).index
                        < stage.spec_num_bells(),
                forall|p: int|
                    0 <= p < mask@.len() ==> ((#[trigger] mask@[p]) == if fixed_bells@.take(
                        i as int,
                    ).contains(Bell { index: p as u8 }) {
                        Some(Bell { index: p as u8 })
                    } else {
                        None::<Bell>
                    }),
            decreases fixed_bells@.len() - i,
        {
            let b = fixed_bells[i];
            mask.bells.set(b.index(), Some(b));
            proof {
                assert(b.index == b.index as u8);
                assert forall|p: int| 0 <= p < mask@.len() implies ((#[trigger] mask@[p])
                    == if fixed_bells@.take(i + 1).contains(Bell { index: p as u8 }) {
                    Some(Bell { index: p as u8 })
                } else {
                    None::<Bell>
                }) by {
                    let taken = fixed_bells@.take(i + 1);
                    if p == b.index {
                        assert(taken[i as int] == b);
                        assert(Bell { index: p as u8 } == b);
                        assert(taken.contains(Bell { index: p as u8 }));
                    } else {
                        assert(fixed_bells@.take(i as int) =~= taken.drop_last());
                        if taken.contains(Bell { index: p as u8 }) {
                            let j = choose|j: int|
                                0 <= j < taken.len() && taken[j] == Bell { index: p as u8 };
                            assert(j < i + 1);
                            assert(j != i);
                            assert(fixed_bells@.take(i as int)[j] == Bell { index: p as u8 });
                        } else {
                            if fixed_bells@.take(i as int).contains(Bell { index: p as u8 }) {
                                let j = choose|j: int|
                                    0 <= j < i && fixed_bells@.take(i as int)[j] == Bell {
                                        index: p as u8,
                                    };
                                assert(taken[j] == Bell { index: p as u8 });
                            }
                        }
                    }
                }
            }
            i += 1;
        }
        proof {
            assert(fixed_bells@.take(fixed_bells@.len() as int) =~= fixed_bells@);
        }
        mask
    }

    /// Builds a mask directly from a sequence of optional bells.
    pub fn from_bells(bells: Vec<Option<Bell>>) -> (r: Mask)
        ensures
            r@ == bells@,
    {
        Self::from_vec(bells)
    }

    /// Builds a mask directly from a vector of optional bells.
    pub fn from_vec(bells: Vec<Option<Bell>>) -> (r: Mask)
        ensures
            r@ == bells@,
    {
        Mask { bells }
    }

    /// Whether this mask fixes the given bell anywhere.
    pub fn contains(&self, bell: Bell) -> (r: bool)
        ensures
            r == self@.contains(Some(bell)),
    {
        let n = self.bells.len();
        let mut i: usize = 0;
        while i < n
            invariant
                i <= n,
                n == self@.len(),
                forall|j: int| 0 <= j < i ==> self@[j] != Some(bell),
            decreases n - i,
        {
            if let Some(b) = self.bells[i] {
                if b.index == bell.index {
                    proof {
                        assert(self@[i as int] == Some(bell));
                    }
                    return true;
                }
            }
            i += 1;
        }
        false
    }

    /// The bells (or open places) of this mask.
    pub fn bells(&self) -> (r: &Vec<Option<Bell>>)
        ensures
            r@ == self@,
    {
        &self.bells
    }

    /// Fixes a bell in its home position.  Fails if the bell is already
    /// fixed elsewhere.
    pub fn fix(&mut self, b: Bell) -> (r: Result<(), BellAlreadySet>)
        requires
            b.spec_index() < old(self)@.len(),
        ensures
            set_bell_post(old(self)@, final(self)@, b, b.spec_index(), r),
    {
        let place = b.index();
        self.set_bell(b, place)
    }

    /// The indices of the open places of this mask, in increasing order.
    pub fn unspecified_places(&self) -> (r: Vec<usize>)
        ensures
            forall|j: int| 0 <= j < r@.len() ==> self@[#[trigger] r@[j] as int] is None,
            forall|p: int|
                0 <= p < self@.len() && self@[p] is None ==> r@.contains(p as usize),
            forall|j1: int, j2: int| 0 <= j1 < j2 < r@.len() ==> r@[j1] < r@[j2],
    {
        let n = self.bells.len();
        let mut out: Vec<usize> = Vec::new();
        let mut i: usize = 0;
        while i < n
            invariant
                i <= n,
                n == self@.len(),
                forall|j: int| 0 <= j < out@.len() ==> (#[trigger] out@[j] as int) < i,
                forall|j: int| 0 <= j < out@.len() ==> self@[#[trigger] out@[j] as int] is None,
                forall|p: int| 0 <= p < i && self@[p] is None ==> out@.contains(p as usize),
                forall|j1: int, j2: int| 0 <= j1 < j2 < out@.len() ==> out@[j1] < out@[j2],
            decreases n - i,
        {
            if self.bells[i].is_none() {
                let ghost old_out = out@;
                out.push(i);
                proof {
                    assert forall|p: int|
                        0 <= p < i + 1 && self@[p] is None implies out@.contains(p as usize) by {
                        if p < i {
                            let j = choose|j: int|
                                0 <= j < old_out.len() && old_out[j] == p as usize;
                            assert(out@[j] == p as usize);
                        } else {
                            assert(out@[out@.len() - 1] == i);
                        }
                    }
                }
            }
            i += 1;
        }
        out
    }

    /// The stage of row this mask matches.
    pub fn stage(&self) -> (r: Stage)
        requires
            self@.len() <= MAX_BELLS,
        ensures
            r.spec_num_bells() == self@.len(),
    {
        Stage::new(self.bells.len() as u8)
    }

    /// Whether a row satisfies this mask.
    pub fn matches(&self, row: &Row) -> (r: bool)
        ensures
            r == mask_matches(self@, row@),
    {
        if self.bells.len() != row.bells.len() {
            return false;
        }
        let n = self.bells.len();
        let mut i: usize = 0;
        while i < n
            invariant
                i <= n,
                n == self@.len() == row@.len(),
                forall|j: int|
                    0 <= j < i ==> ((#[trigger] self@[j]) matches Some(b) ==> row@[j] == b.index),
            decreases n - i,
        {
            if let Some(b) = self.bells[i] {
                if row.bells[i] != b.index {
                    return false;
                }
            }
            i += 1;
        }
        true
    }

    /// The place this mask fixes a bell to, or `None` if the bell is not
    /// fixed.
    pub fn place_of(&self, bell: Bell) -> (r: Option<usize>)
        ensures
            match r {
                Some(p) => p < self@.len() && self@[p as int] == Some(bell) && forall|j: int|
                    0 <= j < p ==> self@[j] != Some(bell),
                None => forall|j: int| 0 <= j < self@.len() ==> self@[j] != Some(bell),
            },
    {
        let n = self.bells.len();
        let mut i: usize = 0;
        while i < n
            invariant
                i <= n,
                n == self@.len(),
                forall|j: int| 0 <= j < i ==> self@[j] != Some(bell),
            decreases n - i,
        {
            if let Some(b) = self.bells[i] {
                if b.index == bell.index {
                    proof {
                        assert(self@[i as int] == Some(bell));
                    }
                    return Some(i);
                }
            }
            i += 1;
        }
        None
    }

    /// Requires a bell at a given place.  If the bell is already fixed at
    /// that place nothing changes; if it is fixed elsewhere the mask is left
    /// alone and an error returned.
    pub fn set_bell(&mut self, bell: Bell, place: usize) -> (r: Result<(), BellAlreadySet>)
        requires
            place < old(self)@.len(),
        ensures
            set_bell_post(old(self)@, final(self)@, bell, place as int, r),
    {
        let at_place = match self.bells[place] {
            Some(b) => b.index == bell.index,
            None => false,
        };
        if at_place {
            proof {
                assert(self@[place as int] == Some(bell));
            }
            return Ok(());
        }
        match self.place_of(bell) {
            Some(_) => Err(BellAlreadySet(bell)),
            None => {
                self.bells.set(place, Some(bell));
                Ok(())
            }
        }
    }

    /// Whether this mask fixes no bell at all.
    pub fn is_empty(&self) -> (r: bool)
        ensures
            r == forall|i: int| 0 <= i < self@.len() ==> (#[trigger] self@[i]) is None,
    {
        let n = self.bells.len();
        let mut i: usize = 0;
        while i < n
            invariant
                i <= n,
                n == self@.len(),
                forall|j: int| 0 <= j < i ==> (#[trigger] self@[j]) is None,
            decreases n - i,
        {
            if self.bells[i].is_some() {
                return false;
            }
            i += 1;
        }
        true
    }

    /// If this mask matches exactly one row, returns that row.
    pub fn as_row(&self) -> (r: Option<RowBuf>)
        ensures
            match r {
                Some(row) => row.valid() && mask_matches(self@, row@),
                None => (exists|i: int| 0 <= i < self@.len() && (#[trigger] self@[i]) is None)
                    || !valid_row(Seq::new(self@.len(), |i: int| unwrap_bell(self@[i]))),
            },
    {
        let n = self.bells.len();
        let mut indices: Vec<u8> = Vec::new();
        let mut i: usize = 0;
        while i < n
            invariant
                i <= n,
                n == self@.len(),
                indices@.len() == i,
                forall|j: int| 0 <= j < i ==> (#[trigger] self@[j]) is Some,
                forall|j: int| 0 <= j < i ==> indices@[j] == unwrap_bell(self@[j]),
            decreases n - i,
        {
            match self.bells[i] {
                Some(b) => {
                    indices.push(b.index);
                }
                None => {
                    return None;
                }
            }
            i += 1;
        }
        proof {
            assert(indices@ =~= Seq::new(self@.len(), |j: int| unwrap_bell(self@[j])));
        }
        let r = RowBuf::from_bell_indices(indices);
        proof {
            match r {
                Some(ref row) => {
                    assert(mask_matches(self@, row@));
                }
                None => {}
            }
        }
        r
    }

    /// Whether the rows satisfying `self` are a subset of those satisfying
    /// `other` (so `self` is at least as strict).
    pub fn is_subset_of(&self, other: &Mask) -> (r: bool)
        ensures
            r == mask_is_subset(self@, other@),
    {
        if self.bells.len() != other.bells.len() {
            return false;
        }
        let n = self.bells.len();
        let mut i: usize = 0;
        while i < n
            invariant
                i <= n,
                n == self@.len() == other@.len(),
                forall|j: int|
                    0 <= j < i ==> ((#[trigger] other@[j]) is Some ==> self@[j] == other@[j]),
            decreases n - i,
        {
            match (self.bells[i], other.bells[i]) {
                (None, Some(_)) => {
                    return false;
                }
                (Some(b_self), Some(b_other)) => {
                    if b_self.index != b_other.index {
                        return false;
                    }
                    proof {
                        assert(self@[i as int] == other@[i as int]);
                    }
                }
                (_, None) => {}
            }
            i += 1;
        }
        true
    }

    /// Whether the rows satisfying `self` are a strict subset of those
    /// satisfying `other`.
    pub fn is_strict_subset_of(&self, other: &Mask) -> (r: bool)
        ensures
            r == (self@ != other@ && mask_is_subset(self@, other@)),
    {
        let eq = self.eq_mask(other);
        !eq && self.is_subset_of(other)
    }

    /// Whether the two masks agree place by place.
    pub fn eq_mask(&self, other: &Mask) -> (r: bool)
        ensures
            r == (self@ == other@),
    {
        if self.bells.len() != other.bells.len() {
            proof {
                assert(self@ != other@);
            }
            return false;
        }
        let n = self.bells.len();
        let mut i: usize = 0;
        while i < n
            invariant
                i <= n,
                n == self@.len() == other@.len(),
                forall|j: int| 0 <= j < i ==> self@[j] == other@[j],
            decreases n - i,
        {
            let same = match (self.bells[i], other.bells[i]) {
                (None, None) => true,
                (Some(a), Some(b)) => a.index == b.index,
                _ => false,
            };
            if !same {
                proof {
                    assert(self@[i as int] != other@[i as int]);
                }
                return false;
            }
            i += 1;
        }
        proof {
            assert(self@ =~= other@);
        }
        true
    }

    /// Whether some row satisfies both masks.  `self` must not fix one bell
    /// in two places.
    pub fn is_compatible_with(&self, other: &Mask) -> (r: bool)
        requires
            mask_no_dups(self@),
        ensures
            r == mask_compatible(self@, other@),
    {
        if self.bells.len() != other.bells.len() {
            return false;
        }
        let n = self.bells.len();
        let mut i: usize = 0;
        while i < n
            invariant
                i <= n,
                n == self@.len() == other@.len(),
                mask_no_dups(self@),
                forall|j: int|
                    0 <= j < i ==> ((#[trigger] other@[j]) is Some ==> ((self@[j] is None
                        || self@[j] == other@[j]) && forall|k: int|
                        0 <= k < self@.len() && self@[k] == other@[j] ==> k == j)),
            decreases n - i,
        {
            if let Some(b_other) = other.bells[i] {
                // The same place must not hold a different bell.
                if let Some(b_self) = self.bells[i] {
                    if b_self.index != b_other.index {
                        return false;
                    }
                    proof {
                        assert(b_self == b_other);
                        assert(self@[i as int] == other@[i as int]);
                    }
                }
                // The same bell must not be fixed to a different place.
                match self.place_of(b_other) {
                    Some(p) => {
                        if p != i {
                            proof {
                                assert(self@[p as int] == other@[i as int]);
                            }
                            return false;
                        }
                        proof {
                            assert forall|k: int|
                                0 <= k < self@.len() && self@[k] == other@[i as int] implies k
                                == i by {
                                assert(self@[p as int] == Some(b_other));
                                if k != p {
                                    assert(self@[k] != self@[p as int]);
                                }
                            }
                        }
                    }
                    None => {
                        proof {
                            assert forall|k: int|
                                0 <= k < self@.len() && self@[k] == other@[i as int] implies k
                                == i by {
                                assert(self@[k] != Some(b_other));
                            }
                        }
                    }
                }
            }
            i += 1;
        }
        true
    }

    /// The mask matching exactly the rows matched by both `self` and
    /// `other`, or `None` if the masks are incompatible.
    pub fn intersect(&self, other: &Mask) -> (r: Option<Mask>)
        requires
            mask_no_dups(self@),
        ensures
            match r {
                Some(m) => mask_compatible(self@, other@) && m@.len() == self@.len() && forall|
                    i: int,
                |
                    0 <= i < m@.len() ==> (#[trigger] m@[i]) == if self@[i] is Some {
                        self@[i]
                    } else {
                        other@[i]
                    },
                None => !mask_compatible(self@, other@),
            },
    {
        if !self.is_compatible_with(other) {
            return None;
        }
        let n = self.bells.len();
        let mut bells: Vec<Option<Bell>> = Vec::new();
        let mut i: usize = 0;
        while i < n
            invariant
                i <= n,
                n == self@.len() == other@.len(),
                bells@.len() == i,
                forall|j: int|
                    0 <= j < i ==> (#[trigger] bells@[j]) == if self@[j] is Some {
                        self@[j]
                    } else {
                        other@[j]
                    },
            decreases n - i,
        {
            match self.bells[i] {
                Some(b) => {
                    bells.push(Some(b));
                }
                None => {
                    bells.push(other.bells[i]);
                }
            }
            i += 1;
        }
        Some(Mask { bells })
    }

    /// Permutes this mask by a row on the right: if `m` matches `s` then
    /// `m.mul(r)` matches `s.mul(r)`.
    pub fn mul(&self, rhs: &Row) -> (r: Mask)
        requires
            rhs.valid(),
            self@.len() == rhs@.len(),
        ensures
            r@.len() == self@.len(),
            forall|i: int| 0 <= i < r@.len() ==> (#[trigger] r@[i]) == self@[rhs@[i] as int],
    {
        let n = self.bells.len();
        let mut bells: Vec<Option<Bell>> = Vec::new();
        let mut i: usize = 0;
        while i < n
            invariant
                i <= n,
                n == self@.len() == rhs@.len(),
                rhs.valid(),
                bells@.len() == i,
                forall|j: int| 0 <= j < i ==> (#[trigger] bells@[j]) == self@[rhs@[j] as int],
            decreases n - i,
        {
            bells.push(self.bells[rhs.bells[i] as usize]);
            i += 1;
        }
        Mask { bells }
    }
}

impl RowBuf {
    /// Transfigures a mask by a row on the left: if `m` matches `s` then
    /// `r.mul_mask(m)` matches `r.mul(s)`.
    pub fn mul_mask(&self, rhs: &Mask) -> (r: Mask)
        requires
            self.valid(),
            self@.len() == rhs@.len(),
            forall|i: int|
                0 <= i < rhs@.len() ==> ((#[trigger] rhs@[i]) matches Some(b) ==> b.index
                    < self@.len()),
        ensures
            r@.len() == rhs@.len(),
            forall|i: int|
                0 <= i < r@.len() ==> (#[trigger] r@[i]) == match rhs@[i] {
                    Some(b) => Some(Bell { index: self@[b.index as int] }),
                    None => None::<Bell>,
                },
    {
        let n = self.bells.len();
        let mut bells: Vec<Option<Bell>> = Vec::new();
        let mut i: usize = 0;
        while i < n
            invariant
                i <= n,
                n == self@.len() == rhs@.len(),
                self.valid(),
                forall|j: int|
                    0 <= j < rhs@.len() ==> ((#[trigger] rhs@[j]) matches Some(b) ==> b.index
                        < self@.len()),
                bells@.len() == i,
                forall|j: int|
                    0 <= j < i ==> (#[trigger] bells@[j]) == match rhs@[j] {
                        Some(b) => Some(Bell { index: self@[b.index as int] }),
                        None => None::<Bell>,
                    },
            decreases n - i,
        {
            match rhs.bells[i] {
                Some(b) => {
                    bells.push(Some(Bell::from_index(self.bells[b.index() as usize])));
                }
                None => {
                    bells.push(None);
                }
            }
            i += 1;
        }
        Mask { bells }
    }
}

/// What [`Mask::set_bell`] promises: unchanged on failure or when the bell
/// already sits at the place; otherwise exactly the one place gains the
/// bell.
pub open spec fn set_bell_post(
    old_mask: Seq<Option<Bell>>,
    new_mask: Seq<Option<Bell>>,
    bell: Bell,
    place: int,
    r: Result<(), BellAlreadySet>,
) -> bool {
    if old_mask[place] == Some(bell) {
        r is Ok && new_mask == old_mask
    } else if exists|p: int| 0 <= p < old_mask.len() && old_mask[p] == Some(bell) {
        r == Result::<(), BellAlreadySet>::Err(BellAlreadySet(bell)) && new_mask == old_mask
    } else {
        r is Ok && new_mask == old_mask.update(place, Some(bell))
    }
}

/// Whether every row matching `a` also matches `b`.
pub open spec fn mask_is_subset(a: Seq<Option<Bell>>, b: Seq<Option<Bell>>) -> bool {
    &&& a.len() == b.len()
    &&& forall|i: int| 0 <= i < b.len() ==> ((#[trigger] b[i]) is Some ==> a[i] == b[i])
}

/// Whether a mask fixes each bell in at most one place.
pub open spec fn mask_no_dups(m: Seq<Option<Bell>>) -> bool {
    forall|i: int, j: int|
        0 <= i < m.len() && 0 <= j < m.len() && i != j && (#[trigger] m[i]) is Some ==> (
        #[trigger] m[j]) != m[i]
}

/// Whether some row can match both masks: no place demands two bells, and no
/// bell is demanded at two places.
pub open spec fn mask_compatible(a: Seq<Option<Bell>>, b: Seq<Option<Bell>>) -> bool {
    &&& a.len() == b.len()
    &&& forall|i: int|
        0 <= i < b.len() ==> ((#[trigger] b[i]) is Some ==> ((a[i] is None || a[i] == b[i])
            && forall|k: int| 0 <= k < a.len() && a[k] == b[i] ==> k == i))
}

/// Mask compatibility is symmetric: the clash conditions mention both
/// masks even-handedly.
pub proof fn lemma_mask_compatible_symmetric(a: Seq<Option<Bell>>, b: Seq<Option<Bell>>)
    requires
        mask_compatible(a, b),
    ensures
        mask_compatible(b, a),
{
    assert forall|i: int|
        0 <= i < a.len() && (#[trigger] a[i]) is Some implies ((b[i] is None || b[i] == a[i])
        && forall|k: int| 0 <= k < b.len() && b[k] == a[i] ==> k == i) by {
        if b[i] is Some {
            assert(a[i] is None || a[i] == b[i]);
        }
        assert forall|k: int| 0 <= k < b.len() && b[k] == a[i] implies k == i by {
            assert(b[k] is Some);
            assert(forall|k2: int| 0 <= k2 < a.len() && a[k2] == b[k] ==> k2 == k);
            assert(a[i] == b[k]);
        }
    }
}

/// The bell index held at a fully specified mask place (0 for open places).
pub open spec fn unwrap_bell(b: Option<Bell>) -> u8 {
    match b {
        Some(bell) => bell.index,
        None => 0,
    }
}

impl Clone for Mask {
    /// Cloning preserves the mask's value.
    fn clone(&self) -> (r: Self)
        ensures
            r@ == self@,
    {
        let r = Mask { bells: self.bells.clone() };
        proof {
            assert(r@ =~= self@);
        }
        r
    }
}

impl PartialEq for Mask {
    fn eq(&self, other: &Self) -> (r: bool) {
        self.eq_mask(other)
    }
}

impl vstd::std_specs::cmp::PartialEqSpecImpl for Mask {
    open spec fn obeys_eq_spec() -> bool {
        true
    }

    open spec fn eq_spec(&self, other: &Mask) -> bool {
        self@ == other@
    }
}

} // verus!
