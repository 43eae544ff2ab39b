//! Rows: permutations of the bells of some stage, with composition and
//! inversion.

use vstd::prelude::*;

use crate::bell::{bell_index_of_name, Bell, Stage, MAX_BELLS};

verus! {

/// A sequence is a valid row when it is a permutation of the bell indices
/// `0..len`.
pub open spec fn valid_row(s: Seq<u8>) -> bool {
    &&& s.len() <= MAX_BELLS
    &&& forall|i: int| 0 <= i < s.len() ==> (#[trigger] s[i]) < s.len()
    &&& forall|i: int, j: int| 0 <= i < s.len() && 0 <= j < s.len() && i != j ==> s[i] != s[j]
}

/// Whether every character of a string names a bell.
pub open spec fn all_chars_name_bells(s: Seq<char>) -> bool {
    forall|i: int| 0 <= i < s.len() ==> bell_index_of_name(#[trigger] s[i]) is Some
}

/// The bell indices a string's characters name, with 0 standing in where a
/// character names none.
pub open spec fn name_indices(s: Seq<char>) -> Seq<u8> {
    Seq::new(
        s.len(),
        |i: int|
            match bell_index_of_name(s[i]) {
                Some(v) => v as u8,
                None => 0,
            },
    )
}

/// The composition of two rows of equal stage: position `i` of the result
/// holds the bell that `a` has in the place named by `b[i]`.
pub open spec fn row_mul(a: Seq<u8>, b: Seq<u8>) -> Seq<u8> {
    Seq::new(b.len(), |i: int| a[b[i] as int])
}

/// The inverse of a row: bell `a[i]` is sent back to place `i`.
pub open spec fn row_inv(a: Seq<u8>) -> Seq<u8> {
    Seq::new(a.len(), |i: int| (choose|j: int| 0 <= j < a.len() && a[j] == i) as u8)
}

/// The identity row on `n` bells.
pub open spec fn rounds_seq(n: int) -> Seq<u8> {
    Seq::new(n as nat, |i: int| i as u8)
}

/// A valid row hits every place: it is surjective onto `0..len`.
pub proof fn lemma_valid_row_surjective(a: Seq<u8>, v: int)
    requires
        valid_row(a),
        0 <= v < a.len(),
    ensures
        exists|j: int| 0 <= j < a.len() && a[j] == v,
{
    // Count: the `len` distinct values a[0..len] all lie in `0..len`, so every
    // value is hit.  Argue by strong induction through a pigeonhole on the set
    // of hit values.
    let hit = Set::new(|x: int| exists|j: int| 0 <= j < a.len() && a[j] == x);
    let all = Set::new(|x: int| 0 <= x < a.len());
    assert(hit.subset_of(all));
    let f = |j: int| a[j] as int;
    let dom = Set::new(|j: int| 0 <= j < a.len());
    assert(dom.finite() && dom.len() == a.len()) by {
        lemma_int_range_finite(0, a.len() as int);
    }
    let img = dom.map(f);
    assert(img.subset_of(hit)) by {
        assert forall|x: int| img.contains(x) implies hit.contains(x) by {
            let j = choose|j: int| dom.contains(j) && f(j) == x;
            assert(0 <= j < a.len() && a[j] == x);
        }
    }
    assert(img.len() == dom.len()) by {
        lemma_injective_map_len(dom, f);
    }
    assert(all.finite() && all.len() == a.len()) by {
        lemma_int_range_finite(0, a.len() as int);
    }
    if !hit.contains(v) {
        assert(hit.subset_of(all.remove(v)));
        vstd::set_lib::lemma_len_subset(hit, all.remove(v));
        vstd::set_lib::lemma_len_subset(img, hit);
        assert(all.remove(v).len() == all.len() - 1);
        assert(false);
    }
    let j = choose|j: int| hit.contains(v) && 0 <= j < a.len() && a[j] == v;
    assert(0 <= j < a.len() && a[j] == v);
}

/// The integer range `[lo, hi)` as a set is finite with `hi - lo` elements.
pub proof fn lemma_int_range_finite(lo: int, hi: int)
    requires
        lo <= hi,
    ensures
        Set::new(|x: int| lo <= x < hi).finite(),
        Set::new(|x: int| lo <= x < hi).len() == hi - lo,
    decreases hi - lo,
{
    if lo == hi {
        assert(Set::new(|x: int| lo <= x < hi) =~= Set::<int>::empty());
    } else {
        lemma_int_range_finite(lo, hi - 1);
        assert(Set::new(|x: int| lo <= x < hi) =~= Set::new(|x: int| lo <= x < hi - 1).insert(
            hi - 1,
        ));
    }
}

/// Mapping a finite set through a function injective on it keeps its size.
pub proof fn lemma_injective_map_len(dom: Set<int>, f: spec_fn(int) -> int)
    requires
        dom.finite(),
        forall|x: int, y: int|
            dom.contains(x) && dom.contains(y) && x != y ==> #[trigger] f(x) != #[trigger] f(y),
    ensures
        dom.map(f).finite(),
        dom.map(f).len() == dom.len(),
    decreases dom.len(),
{
    if dom.len() == 0 {
        assert(dom =~= Set::empty());
        assert(dom.map(f) =~= Set::empty());
    } else {
        let x = dom.choose();
        assert(dom.contains(x));
        let rest = dom.remove(x);
        lemma_injective_map_len(rest, f);
        assert(dom.map(f) =~= rest.map(f).insert(f(x))) by {
            assert forall|y: int| dom.map(f).contains(y) implies rest.map(f).insert(f(x)).contains(
                y,
            ) by {
                let z = choose|z: int| dom.contains(z) && f(z) == y;
                if z == x {
                } else {
                    assert(rest.contains(z));
                }
            }
            assert forall|y: int| rest.map(f).insert(f(x)).contains(y) implies dom.map(f).contains(
                y,
            ) by {
                if y == f(x) {
                    assert(dom.contains(x));
                } else {
                    let z = choose|z: int| rest.contains(z) && f(z) == y;
                    assert(dom.contains(z));
                }
            }
        }
        assert(!rest.map(f).contains(f(x)));
    }
}

/// Composing valid rows of equal stage gives a valid row.
pub proof fn lemma_row_mul_valid(a: Seq<u8>, b: Seq<u8>)
    requires
        valid_row(a),
        valid_row(b),
        a.len() == b.len(),
    ensures
        valid_row(row_mul(a, b)),
{
}

/// Row composition is associative.
pub proof fn lemma_row_mul_assoc(a: Seq<u8>, b: Seq<u8>, c: Seq<u8>)
    requires
        valid_row(a),
        valid_row(b),
        valid_row(c),
        a.len() == b.len(),
        b.len() == c.len(),
    ensures
        row_mul(row_mul(a, b), c) == row_mul(a, row_mul(b, c)),
{
    assert(row_mul(row_mul(a, b), c) =~= row_mul(a, row_mul(b, c)));
}

/// Rounds is the identity of row composition, on both sides.
pub proof fn lemma_rounds_identity(a: Seq<u8>)
    requires
        valid_row(a),
    ensures
        row_mul(a, rounds_seq(a.len() as int)) == a,
        row_mul(rounds_seq(a.len() as int), a) == a,
{
    assert(row_mul(a, rounds_seq(a.len() as int)) =~= a);
    assert(row_mul(rounds_seq(a.len() as int), a) =~= a);
}

/// The inverse of a valid row is a valid row, and cancels it on both sides.
pub proof fn lemma_row_inv(a: Seq<u8>)
    requires
        valid_row(a),
    ensures
        valid_row(row_inv(a)),
        row_mul(a, row_inv(a)) == rounds_seq(a.len() as int),
        row_mul(row_inv(a), a) == rounds_seq(a.len() as int),
{
    let inv = row_inv(a);
    assert forall|i: int| 0 <= i < a.len() implies (#[trigger] inv[i]) < a.len() && a[inv[i] as int]
        == i by {
        lemma_valid_row_surjective(a, i);
        let j = choose|j: int| 0 <= j < a.len() && a[j] == i;
        assert(inv[i] == j as u8);
    }
    assert forall|i: int, j: int|
        0 <= i < inv.len() && 0 <= j < inv.len() && i != j implies inv[i] != inv[j] by {
        assert(a[inv[i] as int] == i && a[inv[j] as int] == j);
    }
    assert(row_mul(a, inv) =~= rounds_seq(a.len() as int));
    assert forall|i: int| 0 <= i < a.len() implies row_mul(inv, a)[i] == i as u8 by {
        assert(a[inv[a[i] as int] as int] == a[i] as int);
    }
    assert(row_mul(inv, a) =~= rounds_seq(a.len() as int));
}

/// An owned row: a permutation of the bells of its stage.
#[derive(Debug)]
pub struct RowBuf {
    pub bells: Vec<u8>,
}

/// Rows are usually passed by reference; the same type serves both roles.
pub type Row = RowBuf;

impl View for RowBuf {
    type V = Seq<u8>;

    open spec fn view(&self) -> Seq<u8> {
        self.bells@
    }
}

impl RowBuf {
    /// Every `RowBuf` built by this module satisfies this; constructors
    /// establish it and nothing breaks it.
    pub open spec fn valid(&self) -> bool {
        valid_row(self@)
    }

    /// Rounds: the identity row `1 2 ... n`.
    pub fn rounds(stage: Stage) -> (r: RowBuf)
        requires
            stage.spec_is_valid(),
        ensures
            r@ == rounds_seq(stage.spec_num_bells()),
            r.valid(),
            r@.len() == stage.spec_num_bells(),
    {
        let n = stage.num_bells();
        let mut bells: Vec<u8> = Vec::new();
        let mut i: usize = 0;
        while i < n
            invariant
                i <= n,
                n <= MAX_BELLS,
                bells@.len() == i,
                forall|j: int| 0 <= j < i ==> bells@[j] == j as u8,
            decreases n - i,
        {
            bells.push(i as u8);
            i += 1;
        }
        let r = RowBuf { bells };
        proof {
            assert(r@ =~= rounds_seq(stage.spec_num_bells()));
        }
        r
    }

    /// Builds a row directly from bell indices; `None` unless they form a
    /// permutation of `0..len`.
    pub fn from_bell_indices(bells: Vec<u8>) -> (r: Option<RowBuf>)
        ensures
            match r {
                Some(row) => row@ == bells@ && row.valid(),
                None => !valid_row(bells@),
            },
    {
        if bells.len() > MAX_BELLS {
            return None;
        }
        let n = bells.len();
        let mut seen: Vec<bool> = Vec::new();
        let mut i: usize = 0;
        while i < n
            invariant
                i <= n,
                seen@.len() == i,
                forall|j: int| 0 <= j < i ==> seen@[j] == false,
            decreases n - i,
        {
            seen.push(false);
            i += 1;
        }
        let mut k: usize = 0;
        while k < n
            invariant
                k <= n,
                n == bells@.len() <= MAX_BELLS,
                seen@.len() == n,
                forall|j: int| 0 <= j < k ==> (#[trigger] bells@[j]) < n,
                forall|v: int|
                    0 <= v < n ==> (seen@[v] <==> exists|j: int| 0 <= j < k && bells@[j] == v),
                forall|i1: int, j1: int|
                    0 <= i1 < k && 0 <= j1 < k && i1 != j1 ==> bells@[i1] != bells@[j1],
            decreases n - k,
        {
            let b = bells[k] as usize;
            if b >= n {
                return None;
            }
            if seen[b] {
                proof {
                    let j = choose|j: int| 0 <= j < k && bells@[j] == b;
                    assert(bells@[j] == bells@[k as int]);
                }
                return None;
            }
            seen.set(b, true);
            k += 1;
        }
        Some(RowBuf { bells })
    }

    /// Parses a row from its printed form, e.g. `"2143"`.  `None` exactly
    /// when some character names no bell or the named bells do not form a
    /// permutation.
    pub fn parse(s: &str) -> (r: Option<RowBuf>)
        ensures
            match r {
                Some(row) => row.valid() && row@.len() == s@.len() && row@ == name_indices(s@)
                    && forall|i: int|
                    0 <= i < s@.len() ==> bell_index_of_name(s@[i]) == Some(
                        #[trigger] row@[i] as int,
                    ),
                None => !all_chars_name_bells(s@) || !valid_row(name_indices(s@)),
            },
    {
        let len = s.unicode_len();
        let mut bells: Vec<u8> = Vec::new();
        let mut i: usize = 0;
        while i < len
            invariant
                i <= len,
                len == s@.len(),
                bells@.len() == i,
                forall|j: int|
                    0 <= j < i ==> bell_index_of_name(s@[j]) == Some(#[trigger] bells@[j] as int),
            decreases len - i,
        {
            let c = s.get_char(i);
            match Bell::from_name(c) {
                Some(b) => {
                    let idx = b.index();
                    bells.push(idx as u8);
                }
                None => {
                    proof {
                        assert(bell_index_of_name(s@[i as int]) is None);
                    }
                    return None;
                }
            }
            i += 1;
        }
        proof {
            assert(bells@ =~= name_indices(s@));
        }
        let r = RowBuf::from_bell_indices(bells);
        proof {
            match r {
                Some(ref row) => {
                    assert(row@ == name_indices(s@));
                }
                None => {
                    assert(!valid_row(name_indices(s@)));
                }
            }
        }
        r
    }

    /// The stage of this row.
    pub fn stage(&self) -> (r: Stage)
        requires
            self@.len() <= MAX_BELLS,
        ensures
            r.spec_num_bells() == self@.len(),
    {
        Stage::new(self.bells.len() as u8)
    }

    /// The bell at a given place.
    pub fn bell_at(&self, place: usize) -> (r: Bell)
        requires
            self.valid(),
            place < self@.len(),
        ensures
            r.spec_index() == self@[place as int],
    {
        Bell::from_index(self.bells[place])
    }

    /// The bells of this row, as raw indices.
    pub fn bell_indices(&self) -> (r: &Vec<u8>)
        ensures
            r@ == self@,
    {
        &self.bells
    }

    /// The place a bell occupies in this row, or `None` if the bell is beyond
    /// the stage.
    pub fn place_of(&self, bell: Bell) -> (r: Option<usize>)
        requires
            self.valid(),
        ensures
            match r {
                Some(p) => p < self@.len() && self@[p as int] == bell.spec_index(),
                None => bell.spec_index() >= self@.len(),
            },
    {
        let n = self.bells.len();
        let mut i: usize = 0;
        while i < n
            invariant
                i <= n,
                n == self@.len(),
                self.valid(),
                forall|j: int| 0 <= j < i ==> self@[j] != bell.spec_index(),
            decreases n - i,
        {
            if self.bells[i] as usize == bell.index() {
                return Some(i);
            }
            i += 1;
        }
        proof {
            if bell.spec_index() < self@.len() {
                lemma_valid_row_surjective(self@, bell.spec_index());
            }
        }
        None
    }

    /// Whether this row is rounds.
    pub fn is_rounds(&self) -> (r: bool)
        requires
            self@.len() <= MAX_BELLS,
        ensures
            r == (self@ == rounds_seq(self@.len() as int)),
    {
        let n = self.bells.len();
        let mut i: usize = 0;
        while i < n
            invariant
                i <= n,
                n == self@.len() <= MAX_BELLS,
                forall|j: int| 0 <= j < i ==> self@[j] == j as u8,
            decreases n - i,
        {
            if self.bells[i] as usize != i {
                proof {
                    assert(self@[i as int] != rounds_seq(self@.len() as int)[i as int]);
                }
                return false;
            }
            i += 1;
        }
        proof {
            assert(self@ =~= rounds_seq(self@.len() as int));
        }
        true
    }

    /// Composes two rows: `self.mul(rhs)` permutes `self` by `rhs`.
    pub fn mul(&self, rhs: &Row) -> (r: RowBuf)
        requires
            self.valid(),
            rhs.valid(),
            self@.len() == rhs@.len(),
        ensures
            r@ == row_mul(self@, rhs@),
            r.valid(),
            r@.len() == self@.len(),
    {
        let n = self.bells.len();
        let mut bells: Vec<u8> = Vec::new();
        let mut i: usize = 0;
        while i < n
            invariant
                i <= n,
                n == self@.len() == rhs@.len(),
                self.valid(),
                rhs.valid(),
                bells@.len() == i,
                forall|j: int| 0 <= j < i ==> bells@[j] == row_mul(self@, rhs@)[j],
            decreases n - i,
        {
            bells.push(self.bells[rhs.bells[i] as usize]);
            i += 1;
        }
        let r = RowBuf { bells };
        proof {
            assert(r@ =~= row_mul(self@, rhs@));
            lemma_row_mul_valid(self@, rhs@);
        }
        r
    }

    /// The inverse of this row.
    pub fn inv(&self) -> (r: RowBuf)
        requires
            self.valid(),
        ensures
            r@ == row_inv(self@),
            r.valid(),
            r@.len() == self@.len(),
    {
        proof {
            lemma_row_inv(self@);
        }
        let n = self.bells.len();
        let mut bells: Vec<u8> = Vec::new();
        let mut i: usize = 0;
        while i < n
            invariant
                i <= n,
                n == self@.len(),
                self.valid(),
                bells@.len() == i,
                forall|j: int| 0 <= j < i ==> bells@[j] == 0,
            decreases n - i,
        {
            bells.push(0);
            i += 1;
        }
        let mut k: usize = 0;
        while k < n
            invariant
                k <= n,
                n == self@.len(),
                self.valid(),
                valid_row(row_inv(self@)),
                bells@.len() == n,
                forall|j: int| 0 <= j < k ==> bells@[self@[j] as int] == j as u8,
            decreases n - k,
        {
            let b = self.bells[k] as usize;
            bells.set(b, k as u8);
            k += 1;
        }
        let r = RowBuf { bells };
        proof {
            let inv = row_inv(self@);
            assert forall|i2: int| 0 <= i2 < n implies r@[i2] == inv[i2] by {
                lemma_valid_row_surjective(self@, i2);
                let j = choose|j: int| 0 <= j < self@.len() && self@[j] == i2;
                assert(r@[self@[j] as int] == j as u8);
                assert(inv[i2] == j as u8);
            }
            assert(r@ =~= inv);
        }
        r
    }

    /// The effective stage: the smallest stage this row restricts to, i.e.
    /// the length once trailing home bells are dropped (at least 1).
    pub fn effective_stage(&self) -> (r: Stage)
        requires
            self.valid(),
            self@.len() >= 1,
        ensures
            1 <= r.spec_num_bells() <= self@.len(),
            forall|j: int| r.spec_num_bells() <= j < self@.len() ==> self@[j] == j as u8,
            r.spec_num_bells() > 1 ==> self@[r.spec_num_bells() - 1] != r.spec_num_bells() - 1,
    {
        let mut n = self.bells.len();
        while n > 1
            invariant
                1 <= n <= self@.len(),
                self.valid(),
                forall|j: int| n <= j < self@.len() ==> self@[j] == j as u8,
            decreases n,
        {
            if self.bells[n - 1] as usize == n - 1 {
                n -= 1;
            } else {
                return Stage::new(n as u8);
            }
        }
        Stage::new(n as u8)
    }
}

impl RowBuf {
    /// Whether this row really is a permutation of its stage's bells.
    pub fn check_valid(&self) -> (r: bool)
        ensures
            r == self.valid(),
    {
        let n = self.bells.len();
        if n > MAX_BELLS {
            return false;
        }
        let mut seen: Vec<bool> = Vec::new();
        let mut i: usize = 0;
        while i < n
            invariant
                i <= n,
                seen@.len() == i,
                forall|j: int| 0 <= j < i ==> !seen@[j],
            decreases n - i,
        {
            seen.push(false);
            i += 1;
        }
        let mut k: usize = 0;
        while k < n
            invariant
                k <= n,
                n == self@.len() <= MAX_BELLS,
                seen@.len() == n,
                forall|j: int| 0 <= j < k ==> (#[trigger] self@[j]) < n,
                forall|v: int|
                    0 <= v < n ==> (seen@[v] <==> exists|j: int| 0 <= j < k && self@[j] == v),
                forall|i1: int, j1: int|
                    0 <= i1 < k && 0 <= j1 < k && i1 != j1 ==> self@[i1] != self@[j1],
            decreases n - k,
        {
            let b = self.bells[k] as usize;
            if b >= n {
                return false;
            }
            if seen[b] {
                proof {
                    let j = choose|j: int| 0 <= j < k && self@[j] == b;
                    assert(self@[j] == self@[k as int]);
                }
                return false;
            }
            seen.set(b, true);
            k += 1;
        }
        true
    }
}

impl Clone for RowBuf {
    /// Cloning preserves the row's value.
    fn clone(&self) -> (r: Self)
        ensures
            r@ == self@,
    {
        let r = RowBuf { bells: self.bells.clone() };
        proof {
            assert(r@ =~= self@);
        }
        r
    }
}

impl PartialEq for RowBuf {
    fn eq(&self, other: &Self) -> (r: bool) {
        let n = self.bells.len();
        if n != other.bells.len() {
            proof {
                assert(self@ != other@);
            }
            return false;
        }
        let mut i: usize = 0;
        while i < n
            invariant
                i <= n,
                n == self@.len() == other@.len(),
                forall|j: int| 0 <= j < i ==> self@[j] == other@[j],
            decreases n - i,
        {
            if self.bells[i] != other.bells[i] {
                return false;
            }
            i += 1;
        }
        proof {
            assert(self@ =~= other@);
        }
        true
    }
}

impl vstd::std_specs::cmp::PartialEqSpecImpl for RowBuf {
    open spec fn obeys_eq_spec() -> bool {
        true
    }

    open spec fn eq_spec(&self, other: &RowBuf) -> bool {
        self@ == other@
    }
}

} // verus!
