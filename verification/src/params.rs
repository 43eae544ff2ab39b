//! Parameters: the methods, calls, music and bounds a search works from.

use vstd::prelude::*;

use crate::bell::{Bell, Stage, MAX_BELLS};
use crate::mask::Mask;
use crate::music::{MusicType, Stroke};
use crate::row::{rounds_seq, valid_row, RowBuf};

verus! {

/// The label id conventionally attached to the lead end (sub-lead index 0).
pub const LABEL_LEAD_END: u32 = 0;

/// An inclusive range of whole numbers.
#[derive(Clone, Copy, PartialEq, Eq, Structural, Debug)]
pub struct IntRange {
    pub min: usize,
    pub max: usize,
}

impl IntRange {
    /// Whether a value lies inside the range.
    pub open spec fn spec_contains(self, v: int) -> bool {
        self.min <= v <= self.max
    }

    /// Whether a value lies inside the range.
    pub fn contains(self, v: usize) -> (r: bool)
        ensures
            r == self.spec_contains(v as int),
    {
        self.min <= v && v <= self.max
    }
}

/// A method: a name, a stage, the rows of one lead of its plain course, the
/// lead-head transposition, and labels marking where calls and splices may
/// attach.
#[derive(Debug)]
pub struct Method {
    pub name: String,
    pub shorthand: String,
    pub stage: Stage,
    /// The rows of one lead, starting from rounds.
    pub lead: Vec<RowBuf>,
    /// The row reached after one plain lead, relative to the lead's head.
    pub lead_head_transposition: RowBuf,
    /// The label (if any) at each sub-lead index.
    pub labels: Vec<Option<u32>>,
}

impl Method {
    /// Everything the rest of the library assumes of a method.
    pub open spec fn wf(&self) -> bool {
        &&& self.stage.spec_is_valid()
        &&& self.lead@.len() >= 1
        &&& self.labels@.len() == self.lead@.len()
        &&& self.lead@[0]@ == rounds_seq(self.stage.spec_num_bells())
        &&& forall|i: int|
            0 <= i < self.lead@.len() ==> valid_row((#[trigger] self.lead@[i])@) && self.lead@[i]@.len()
                == self.stage.spec_num_bells()
        &&& valid_row(self.lead_head_transposition@)
        &&& self.lead_head_transposition@.len() == self.stage.spec_num_bells()
        &&& self.labels@[0] is Some
    }

    /// The number of rows in one lead.
    pub fn lead_len(&self) -> (r: usize)
        ensures
            r == self.lead@.len(),
    {
        self.lead.len()
    }

    /// The sub-lead index reached `length` rows after `sub_lead_idx`,
    /// wrapping around the lead.
    pub fn add_sub_lead_idx(&self, sub_lead_idx: usize, length: usize) -> (r: usize)
        requires
            self.lead@.len() >= 1,
            sub_lead_idx < self.lead@.len(),
            sub_lead_idx + length <= usize::MAX,
        ensures
            r == (sub_lead_idx + length) % (self.lead@.len() as int),
    {
        (sub_lead_idx + length) % self.lead.len()
    }

    /// The stage of this method.
    pub fn stage(&self) -> (r: Stage)
        ensures
            r == self.stage,
    {
        self.stage
    }
}

/// A call: a replacement for the plain transition at a labelled position.
#[derive(Debug)]
pub struct Call {
    /// The symbol printed for this call, e.g. `-` for a bob.
    pub symbol: String,
    /// One display name per place of the calling bell.
    pub calling_positions: Vec<String>,
    /// The label this call can attach after.
    pub label_from: u32,
    /// The label this call jumps to.
    pub label_to: u32,
    /// The single change that replaces a method's lead-end change when
    /// this call is made, as a place permutation.
    pub place_notation: RowBuf,
    /// The score this call adds each time it is used.
    pub weight: i64,
}

impl Call {
    /// Everything the rest of the library assumes of a call at some stage.
    pub open spec fn wf(&self, stage: Stage) -> bool {
        &&& valid_row(self.place_notation@)
        &&& self.place_notation@.len() == stage.spec_num_bells()
    }
}

/// The families of standard calls.
#[derive(Clone, Copy, PartialEq, Eq, Structural, Debug)]
pub enum BaseCalls {
    /// Use no standard calls at all.
    NoCalls,
    /// Near calls: bobs `14`, singles `1234`.
    Near,
    /// Far calls: bobs made near the back of the stage.
    Far,
}

/// The standard call families, without the choice of none.
#[derive(Clone, Copy, PartialEq, Eq, Structural, Debug)]
pub enum BaseCallType {
    Near,
    Far,
}

impl BaseCalls {
    /// The call family this choice stands for, if any.
    pub fn as_monument_type(self) -> (r: Option<BaseCallType>)
        ensures
            match self {
                BaseCalls::Near => r == Some(BaseCallType::Near),
                BaseCalls::Far => r == Some(BaseCallType::Far),
                BaseCalls::NoCalls => r is None,
            },
    {
        match self {
            Self::Near => Some(BaseCallType::Near),
            Self::Far => Some(BaseCallType::Far),
            Self::NoCalls => None,
        }
    }
}

impl Default for BaseCalls {
    /// Near calls are the default.
    fn default() -> (r: Self)
        ensures
            r == BaseCalls::Near,
    {
        Self::Near
    }
}

/// Where a call attaches: the same label on both sides, or two different
/// labels.
#[derive(Debug, Clone)]
pub enum CallLabel {
    /// Call goes from and to the same label.
    Same(String),
    /// Call goes between two different labels.
    Different { from: String, to: String },
}

/// The unprocessed description of a method, as a caller would write it
/// before the place notation is expanded into rows.
#[derive(Debug, Clone)]
pub struct MethodSpec {
    pub name: String,
    pub place_notation: String,
    pub stage: Stage,
    /// Sub-lead indices (as written) paired with label names.
    pub lead_locations: Vec<(String, String)>,
}

/// How calls are printed in a composition string.
#[derive(Clone, Copy, PartialEq, Eq, Structural, Debug)]
pub enum CallDisplayStyle {
    /// Named positions of a calling bell, e.g. `MWH`.
    CallingPositions(Bell),
    /// One symbol per call as it happens.
    Positional,
}

/// Everything a search needs to know about what to generate.
#[derive(Debug)]
pub struct Parameters {
    /// The inclusive range of acceptable composition lengths, in rows.
    pub length: IntRange,
    /// How many compositions to generate before stopping.
    pub num_comps: usize,
    /// The methods to ring, indexed by the graph's method indices.
    pub methods: Vec<Method>,
    /// The calls that may replace plain transitions.
    pub calls: Vec<Call>,
    /// The row every composition starts from.
    pub start_row: RowBuf,
    /// The row every composition must come round to.
    pub end_row: RowBuf,
    /// The row reached at the end of the first part.
    pub part_head: RowBuf,
    /// The music to score rows against.
    pub music_types: Vec<MusicType>,
    /// The stroke of the first row.
    pub start_stroke: Stroke,
    /// The inclusive range of acceptable row counts for each method.
    pub method_count_ranges: Vec<IntRange>,
    /// The longest run of duffer rows allowed, if bounded.
    pub max_contiguous_duffer: Option<usize>,
    /// The most duffer rows allowed in total, if bounded.
    pub max_total_duffer: Option<usize>,
    /// The courses that do not count as duffers; `None` means every course
    /// is musical.
    pub non_duffer_courses: Option<Vec<Mask>>,
    /// How calls are printed.
    pub call_display_style: CallDisplayStyle,
    /// The sub-lead indices a composition may start at; empty means any
    /// labelled index.
    pub start_indices: Vec<usize>,
    /// The sub-lead indices a composition may end at; empty means any
    /// labelled index.
    pub end_indices: Vec<usize>,
}

/// The largest composition length the library works with; keeps all length
/// arithmetic well inside `usize`.
pub const MAX_COMP_LENGTH: usize = 100000000;

impl Parameters {
    /// Everything the builder and search assume of their parameters.
    pub open spec fn wf(&self) -> bool {
        &&& self.methods@.len() >= 1
        &&& forall|i: int| 0 <= i < self.methods@.len() ==> (#[trigger] self.methods@[i]).wf()
        &&& forall|i: int|
            0 <= i < self.methods@.len() ==> (#[trigger] self.methods@[i]).stage
                == self.methods@[0].stage
        &&& forall|i: int|
            0 <= i < self.calls@.len() ==> (#[trigger] self.calls@[i]).wf(self.methods@[0].stage)
        &&& valid_row(self.start_row@)
        &&& self.start_row@.len() == self.methods@[0].stage.spec_num_bells()
        &&& valid_row(self.end_row@)
        &&& self.end_row@.len() == self.methods@[0].stage.spec_num_bells()
        &&& valid_row(self.part_head@)
        &&& self.part_head@.len() == self.methods@[0].stage.spec_num_bells()
        &&& self.method_count_ranges@.len() == self.methods@.len()
        &&& self.length.max <= MAX_COMP_LENGTH
        &&& self.length.min <= self.length.max
        &&& forall|i: int|
            0 <= i < self.methods@.len() ==> (#[trigger] self.methods@[i]).lead@.len() <= 65535
        &&& forall|i: int|
            0 <= i < self.music_types@.len() ==> (#[trigger] self.music_types@[i]).patterns@.len()
                <= 65535
        &&& self.calls@.len() <= 65535
        &&& self.methods@.len() <= 65535
    }

    /// The stage every row of this search lives at.
    pub fn stage(&self) -> (r: Stage)
        requires
            self.methods@.len() >= 1,
        ensures
            r == self.methods@[0].stage,
    {
        self.methods[0].stage
    }

    /// Whether more than one method is rung.
    pub fn is_spliced(&self) -> (r: bool)
        ensures
            r == (self.methods@.len() > 1),
    {
        self.methods.len() > 1
    }
}

/// The bells a tenors-together search lets calls move: 2 through 6, capped
/// below the tenor.
pub fn tenors_together_non_fixed_bells(stage: Stage) -> (r: Vec<Bell>)
    requires
        stage.spec_is_valid(),
    ensures
        r@.len() == if stage.spec_num_bells() - 1 < 6 {
            if stage.spec_num_bells() >= 3 {
                stage.spec_num_bells() - 2
            } else {
                0int
            }
        } else {
            5int
        },
        forall|i: int| 0 <= i < r@.len() ==> (#[trigger] r@[i]).index == i + 1,
{
    let n = stage.num_bells();
    let top = if n - 1 < 6 {
        n - 1
    } else {
        6
    };
    let mut out: Vec<Bell> = Vec::new();
    if top < 2 {
        return out;
    }
    let mut num: usize = 2;
    while num <= top
        invariant
            2 <= num <= top + 1,
            2 <= top <= 6,
            top <= MAX_BELLS,
            out@.len() == num - 2,
            forall|i: int| 0 <= i < out@.len() ==> (#[trigger] out@[i]).index == i + 1,
        decreases top + 1 - num,
    {
        out.push(Bell::from_index((num - 1) as u8));
        num += 1;
    }
    out
}

} // verus!
