//! Identifiers of logical and physical locations, and the row/word cursor
//! that the row-cycle models advance.
use vstd::prelude::*;

verus! {

/// A row id of a logical (input) matrix.
#[derive(Debug, Clone, Copy, PartialEq, Eq, Structural)]
pub struct LogicRowId(pub usize);

/// A column id of a logical (input) matrix.
#[derive(Debug, Clone, Copy, PartialEq, Eq, Structural)]
pub struct LogicColId(pub usize);

/// A row inside a subarray.
#[derive(Debug, Clone, Copy, PartialEq, Eq, Structural)]
pub struct PhysicRowId(pub usize);

/// A byte column inside a subarray row.
#[derive(Debug, Clone, Copy, PartialEq, Eq, Structural)]
pub struct PhysicColId(pub usize);

/// A global subarray id.
#[derive(Debug, Clone, Copy, PartialEq, Eq, Structural)]
pub struct SubarrayId(pub usize);

/// A count or index of 4-byte words.
#[derive(Debug, Clone, Copy, PartialEq, Eq, Structural)]
pub struct WordId(pub usize);

/// A through-silicon-via (channel) id.
#[derive(Debug, Clone, Copy, PartialEq, Eq, Structural)]
pub struct TsvId(pub usize);

/// A ring (channel) id.
#[derive(Debug, Clone, Copy, PartialEq, Eq, Structural)]
pub struct RingId(pub usize);

/// A ring buffer (absolute bank) id.
#[derive(Debug, Clone, Copy, PartialEq, Eq, Structural)]
pub struct RingBufferId(pub usize);

/// A port on a ring (bank inside its channel).
#[derive(Debug, Clone, Copy, PartialEq, Eq, Structural)]
pub struct RingPort(pub u8);

/// A position inside a subarray: the row and the word in that row.
#[derive(Debug, Clone, Copy, PartialEq, Eq, Structural)]
pub struct RowIdWordId {
    pub row_id: PhysicRowId,
    pub word_id: WordId,
}

/// A position in the whole memory: the subarray and the position inside it.
#[derive(Debug, Clone, Copy, PartialEq, Eq, Structural)]
pub struct RowLocation {
    pub subarray_id: SubarrayId,
    pub row_id_word_id: RowIdWordId,
}

impl LogicRowId {
    /// The row id `id`.
    pub fn new(id: usize) -> (r: Self)
        ensures
            r.0 == id,
    {
        LogicRowId(id)
    }
}

impl LogicColId {
    /// The column id `id`.
    pub fn new(id: usize) -> (r: Self)
        ensures
            r.0 == id,
    {
        LogicColId(id)
    }
}

/// The row-cycle models that are evaluated side by side, in evaluation
/// order: a family name, then the walker group size where there is one,
/// then the walker width.
#[derive(Debug, Clone, Copy, PartialEq, Eq, Structural)]
pub enum AllJumpCyclesTypes {
    NormalJumpCycle256,
    NormalJumpCycle128,
    NormalJumpCycle64,
    NormalJumpCycle32,
    IdealJumpCycle256,
    IdealJumpCycle128,
    IdealJumpCycle64,
    IdealJumpCycle32,
    MyJumpCycle16_256,
    MyJumpCycle16_128,
    MyJumpCycle16_64,
    MyJumpCycle16_32,
    MyJumpNoOverhead16_256,
    MyJumpNoOverhead16_128,
    MyJumpNoOverhead16_64,
    MyJumpNoOverhead16_32,
    MyJumpOpt16_256,
    MyJumpOpt16_128,
    MyJumpOpt16_64,
    MyJumpOpt16_32,
    MyJumpOnly16_256,
    MyJumpOnly16_128,
    MyJumpOnly16_64,
    MyJumpOnly16_32,
}

impl AllJumpCyclesTypes {
    /// The position of the model in evaluation order.
    pub open spec fn ordinal(self) -> nat {
        match self {
            AllJumpCyclesTypes::NormalJumpCycle256 => 0,
            AllJumpCyclesTypes::NormalJumpCycle128 => 1,
            AllJumpCyclesTypes::NormalJumpCycle64 => 2,
            AllJumpCyclesTypes::NormalJumpCycle32 => 3,
            AllJumpCyclesTypes::IdealJumpCycle256 => 4,
            AllJumpCyclesTypes::IdealJumpCycle128 => 5,
            AllJumpCyclesTypes::IdealJumpCycle64 => 6,
            AllJumpCyclesTypes::IdealJumpCycle32 => 7,
            AllJumpCyclesTypes::MyJumpCycle16_256 => 8,
            AllJumpCyclesTypes::MyJumpCycle16_128 => 9,
            AllJumpCyclesTypes::MyJumpCycle16_64 => 10,
            AllJumpCyclesTypes::MyJumpCycle16_32 => 11,
            AllJumpCyclesTypes::MyJumpNoOverhead16_256 => 12,
            AllJumpCyclesTypes::MyJumpNoOverhead16_128 => 13,
            AllJumpCyclesTypes::MyJumpNoOverhead16_64 => 14,
            AllJumpCyclesTypes::MyJumpNoOverhead16_32 => 15,
            AllJumpCyclesTypes::MyJumpOpt16_256 => 16,
            AllJumpCyclesTypes::MyJumpOpt16_128 => 17,
            AllJumpCyclesTypes::MyJumpOpt16_64 => 18,
            AllJumpCyclesTypes::MyJumpOpt16_32 => 19,
            AllJumpCyclesTypes::MyJumpOnly16_256 => 20,
            AllJumpCyclesTypes::MyJumpOnly16_128 => 21,
            AllJumpCyclesTypes::MyJumpOnly16_64 => 22,
            AllJumpCyclesTypes::MyJumpOnly16_32 => 23,
        }
    }

    /// The position of the model in evaluation order.
    pub fn position(self) -> (r: usize)
        ensures
            r == self.ordinal(),
    {
        match self {
            AllJumpCyclesTypes::NormalJumpCycle256 => 0,
            AllJumpCyclesTypes::NormalJumpCycle128 => 1,
            AllJumpCyclesTypes::NormalJumpCycle64 => 2,
            AllJumpCyclesTypes::NormalJumpCycle32 => 3,
            AllJumpCyclesTypes::IdealJumpCycle256 => 4,
            AllJumpCyclesTypes::IdealJumpCycle128 => 5,
            AllJumpCyclesTypes::IdealJumpCycle64 => 6,
            AllJumpCyclesTypes::IdealJumpCycle32 => 7,
            AllJumpCyclesTypes::MyJumpCycle16_256 => 8,
            AllJumpCyclesTypes::MyJumpCycle16_128 => 9,
            AllJumpCyclesTypes::MyJumpCycle16_64 => 10,
            AllJumpCyclesTypes::MyJumpCycle16_32 => 11,
            AllJumpCyclesTypes::MyJumpNoOverhead16_256 => 12,
            AllJumpCyclesTypes::MyJumpNoOverhead16_128 => 13,
            AllJumpCyclesTypes::MyJumpNoOverhead16_64 => 14,
            AllJumpCyclesTypes::MyJumpNoOverhead16_32 => 15,
            AllJumpCyclesTypes::MyJumpOpt16_256 => 16,
            AllJumpCyclesTypes::MyJumpOpt16_128 => 17,
            AllJumpCyclesTypes::MyJumpOpt16_64 => 18,
            AllJumpCyclesTypes::MyJumpOpt16_32 => 19,
            AllJumpCyclesTypes::MyJumpOnly16_256 => 20,
            AllJumpCyclesTypes::MyJumpOnly16_128 => 21,
            AllJumpCyclesTypes::MyJumpOnly16_64 => 22,
            AllJumpCyclesTypes::MyJumpOnly16_32 => 23,
        }
    }

    /// The model at position `i`, or `None` past the last one.
    pub fn from_position(i: usize) -> (r: Option<AllJumpCyclesTypes>)
        ensures
            i < TOTAL_TYPES_COUNT ==> (r matches Some(t) && t.ordinal() == i),
            i >= TOTAL_TYPES_COUNT ==> r is None,
    {
        match i {
            0 => Some(AllJumpCyclesTypes::NormalJumpCycle256),
            1 => Some(AllJumpCyclesTypes::NormalJumpCycle128),
            2 => Some(AllJumpCyclesTypes::NormalJumpCycle64),
            3 => Some(AllJumpCyclesTypes::NormalJumpCycle32),
            4 => Some(AllJumpCyclesTypes::IdealJumpCycle256),
            5 => Some(AllJumpCyclesTypes::IdealJumpCycle128),
            6 => Some(AllJumpCyclesTypes::IdealJumpCycle64),
            7 => Some(AllJumpCyclesTypes::IdealJumpCycle32),
            8 => Some(AllJumpCyclesTypes::MyJumpCycle16_256),
            9 => Some(AllJumpCyclesTypes::MyJumpCycle16_128),
            10 => Some(AllJumpCyclesTypes::MyJumpCycle16_64),
            11 => Some(AllJumpCyclesTypes::MyJumpCycle16_32),
            12 => Some(AllJumpCyclesTypes::MyJumpNoOverhead16_256),
            13 => Some(AllJumpCyclesTypes::MyJumpNoOverhead16_128),
            14 => Some(AllJumpCyclesTypes::MyJumpNoOverhead16_64),
            15 => Some(AllJumpCyclesTypes::MyJumpNoOverhead16_32),
            16 => Some(AllJumpCyclesTypes::MyJumpOpt16_256),
            17 => Some(AllJumpCyclesTypes::MyJumpOpt16_128),
            18 => Some(AllJumpCyclesTypes::MyJumpOpt16_64),
            19 => Some(AllJumpCyclesTypes::MyJumpOpt16_32),
            20 => Some(AllJumpCyclesTypes::MyJumpOnly16_256),
            21 => Some(AllJumpCyclesTypes::MyJumpOnly16_128),
            22 => Some(AllJumpCyclesTypes::MyJumpOnly16_64),
            23 => Some(AllJumpCyclesTypes::MyJumpOnly16_32),
            _ => None,
        }
    }

    /// This model and every model after it, in evaluation order.
    pub fn and_following(self) -> (r: Vec<AllJumpCyclesTypes>)
        ensures
            self.ordinal() < TOTAL_TYPES_COUNT,
            r.len() == TOTAL_TYPES_COUNT - self.ordinal(),
            forall|k: int| 0 <= k < r.len() ==> (#[trigger] r[k]).ordinal() == self.ordinal() + k,
    {
        let start = self.position();
        let mut r: Vec<AllJumpCyclesTypes> = Vec::new();
        let mut i: usize = start;
        while i < TOTAL_TYPES_COUNT
            invariant
                start <= i <= TOTAL_TYPES_COUNT,
                start == self.ordinal(),
                start < TOTAL_TYPES_COUNT,
                r.len() == i - start,
                forall|k: int| 0 <= k < r.len() ==> (#[trigger] r[k]).ordinal() == start + k,
            decreases TOTAL_TYPES_COUNT - i,
        {
            match AllJumpCyclesTypes::from_position(i) {
                Some(t) => r.push(t),
                None => {},
            }
            i += 1;
        }
        r
    }
}

/// The number of row-cycle models that are evaluated side by side.
pub const TOTAL_TYPES_COUNT: usize = 24;

} // verus!
