//! Bells and stages: the alphabet that rows are permutations of.

use vstd::prelude::*;

verus! {

/// The largest number of bells a [`Stage`] can have; also the number of
/// distinct bell names.
pub const MAX_BELLS: usize = 33;

/// A single bell, identified by its 0-based index.  Bell `0` is the treble,
/// printed as `1`; bell indices count upwards from there.
#[derive(Clone, Copy, PartialEq, Eq, Structural, Debug, Hash)]
pub struct Bell {
    pub index: u8,
}

/// The name of the bell with a given 0-based index, as a spec-level map.
pub open spec fn bell_name_spec(index: int) -> char {
    bell_names()[index]
}

/// The canonical ordering of bell names: `1`-`9`, then `0`, `E`, `T`, then
/// letters for higher stages.
pub open spec fn bell_names() -> Seq<char> {
    seq![
        '1', '2', '3', '4', '5', '6', '7', '8', '9', '0', 'E', 'T', 'A', 'B', 'C', 'D', 'F', 'G',
        'H', 'J', 'K', 'L', 'M', 'N', 'P', 'Q', 'R', 'S', 'U', 'V', 'W', 'Y', 'Z',
    ]
}

/// The 0-based index a bell name denotes, if any.
pub open spec fn bell_index_of_name(c: char) -> Option<int> {
    if exists|i: int| 0 <= i < MAX_BELLS && bell_names()[i] == c {
        Some(choose|i: int| 0 <= i < MAX_BELLS && bell_names()[i] == c)
    } else {
        None
    }
}

impl Bell {
    /// The spec-level value of this bell: its 0-based index.
    pub open spec fn spec_index(self) -> int {
        self.index as int
    }

    /// Creates a `Bell` from its 0-based index.
    pub fn from_index(index: u8) -> (r: Bell)
        requires
            index < MAX_BELLS,
        ensures
            r.spec_index() == index,
    {
        Bell { index }
    }

    /// Creates a `Bell` from its 1-based number (the treble is `1`).
    pub fn from_number(number: usize) -> (r: Option<Bell>)
        ensures
            match r {
                Some(b) => 1 <= number <= MAX_BELLS && b.spec_index() == number - 1,
                None => !(1 <= number <= MAX_BELLS),
            },
    {
        if 1 <= number && number <= MAX_BELLS {
            Some(Bell { index: (number - 1) as u8 })
        } else {
            None
        }
    }

    /// Creates a `Bell` from its printed name, or `None` if the character
    /// names no bell.
    pub fn from_name(name: char) -> (r: Option<Bell>)
        ensures
            match r {
                Some(b) => bell_index_of_name(name) == Some(b.spec_index()),
                None => bell_index_of_name(name) is None,
            },
    {
        let names = bell_names_exec();
        let mut i: usize = 0;
        while i < names.len()
            invariant
                names@ == bell_names(),
                i <= names@.len(),
                forall|j: int| 0 <= j < i ==> names@[j] != name,
            decreases names@.len() - i,
        {
            if names[i] == name {
                proof {
                    assert(bell_names()[i as int] == name);
                }
                return Some(Bell { index: i as u8 });
            }
            i += 1;
        }
        proof {
            assert(forall|j: int| 0 <= j < MAX_BELLS ==> bell_names()[j] != name);
        }
        None
    }

    /// The 0-based index of this bell.
    pub fn index(self) -> (r: usize)
        ensures
            r == self.spec_index(),
    {
        self.index as usize
    }

    /// The 1-based number of this bell.
    pub fn number(self) -> (r: usize)
        ensures
            r == self.spec_index() + 1,
    {
        self.index as usize + 1
    }

    /// The printed name of this bell.
    pub fn name(self) -> (r: char)
        requires
            self.spec_index() < MAX_BELLS,
        ensures
            r == bell_name_spec(self.spec_index()),
    {
        let names = bell_names_exec();
        names[self.index as usize]
    }
}

/// The bell names as an executable vector, in index order.
fn bell_names_exec() -> (r: Vec<char>)
    ensures
        r@ == bell_names(),
{
    let mut v: Vec<char> = Vec::new();
    v.push('1');
    v.push('2');
    v.push('3');
    v.push('4');
    v.push('5');
    v.push('6');
    v.push('7');
    v.push('8');
    v.push('9');
    v.push('0');
    v.push('E');
    v.push('T');
    v.push('A');
    v.push('B');
    v.push('C');
    v.push('D');
    v.push('F');
    v.push('G');
    v.push('H');
    v.push('J');
    v.push('K');
    v.push('L');
    v.push('M');
    v.push('N');
    v.push('P');
    v.push('Q');
    v.push('R');
    v.push('S');
    v.push('U');
    v.push('V');
    v.push('W');
    v.push('Y');
    v.push('Z');
    proof {
        assert(v@ =~= bell_names());
    }
    v
}

/// The number of bells that rows in some context are permutations of.
#[derive(Clone, Copy, PartialEq, Eq, Structural, Debug, Hash)]
pub struct Stage {
    pub num_bells: u8,
}

impl Stage {
    /// The spec-level value of this stage.
    pub open spec fn spec_num_bells(self) -> int {
        self.num_bells as int
    }

    /// Creates a `Stage` with the given number of bells.
    pub fn new(num_bells: u8) -> (r: Stage)
        ensures
            r.spec_num_bells() == num_bells,
    {
        Stage { num_bells }
    }

    /// The number of bells in this stage.
    pub fn num_bells(self) -> (r: usize)
        ensures
            r == self.spec_num_bells(),
    {
        self.num_bells as usize
    }

    /// The number of bells in this stage (alias kept for callers that speak of
    /// a stage as a plain count).
    pub fn as_usize(self) -> (r: usize)
        ensures
            r == self.spec_num_bells(),
    {
        self.num_bells as usize
    }

    /// Whether this stage can hold actual rows: at least one bell, at most
    /// [`MAX_BELLS`].
    pub open spec fn spec_is_valid(self) -> bool {
        1 <= self.num_bells <= MAX_BELLS
    }

    /// Whether this stage can hold actual rows.
    pub fn is_valid(self) -> (r: bool)
        ensures
            r == self.spec_is_valid(),
    {
        1 <= self.num_bells && self.num_bells as usize <= MAX_BELLS
    }
}

} // verus!
