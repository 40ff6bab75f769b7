use vstd::prelude::*;

verus! {

/// The integer type of a group key (a chromosome, or any other key that scopes rows).
pub type GroupType = i64;

/// The integer type of a coordinate.
pub type PositionType = i64;

/// Columns of one interval table, row by row.
pub struct GenomicData {
    pub chroms: Vec<GroupType>,
    pub starts: Vec<PositionType>,
    pub ends: Vec<PositionType>,
    pub strands: Option<Vec<bool>>,
}

/// An interval that remembers the row it came from.
#[derive(Debug, Clone, Copy, PartialEq, Eq, Structural)]
pub struct MinInterval {
    pub start: PositionType,
    pub end: PositionType,
    pub idx: u32,
}

/// An interval with the row it came from and its strand.
#[derive(Debug, Clone, Copy, PartialEq, Eq, Structural)]
pub struct StrandInterval {
    pub start: PositionType,
    pub end: PositionType,
    pub idx: u32,
    pub fwd: bool,
}

/// An interval with its group and the row it came from.
#[derive(Debug, Clone, Copy, PartialEq, Eq, Structural)]
pub struct Interval {
    pub group: GroupType,
    pub start: PositionType,
    pub end: PositionType,
    pub idx: u32,
}

/// An endpoint event whose row number is a `usize`.
#[derive(Debug, Clone, Copy, PartialEq, Eq, Hash, Structural)]
pub struct EventUsize {
    pub chr: i64,
    pub pos: i64,
    pub is_start: bool,
    pub first_set: bool,
    pub idx: usize,
}

/// One endpoint of one interval, as the sweep line meets it.
///
/// - `pos`: the coordinate of the endpoint
/// - `is_start`: whether the interval opens or closes here
/// - `first_set`: which of the two tables the interval belongs to
/// - `idx`: the row of the interval in its table
#[derive(Debug, Clone, Copy, PartialEq, Eq, Hash, Structural)]
pub struct Event {
    pub chr: GroupType,
    pub pos: PositionType,
    pub is_start: bool,
    pub first_set: bool,
    pub idx: u32,
}

/// An endpoint event that also carries both ends of its interval.
#[derive(Debug, Clone, Copy, PartialEq, Eq, Hash, Structural)]
pub struct MaxEvent {
    pub chr: GroupType,
    pub pos: PositionType,
    pub start: PositionType,
    pub end: PositionType,
    pub is_start: bool,
    pub first_set: bool,
    pub idx: u32,
}

/// A single position of a row within its group.
#[derive(Debug, Clone, Copy, PartialEq, Eq, Hash, Structural)]
pub struct MinEvent {
    pub chr: GroupType,
    pub pos: PositionType,
    pub idx: u32,
}

/// A row and the group it belongs to.
#[derive(Debug, Clone, Copy, PartialEq, Eq, Hash, Structural)]
pub struct GroupStruct {
    pub chr: GroupType,
    pub idx: u32,
}

/// A row of the first table paired with a row of the second.
#[derive(Debug, Clone, Copy, PartialEq, Eq, Hash, Structural)]
pub struct OverlapPair {
    pub idx: u32,
    pub idx2: u32,
}

/// A row of the first table, a row of the second and the distance between them.
#[derive(Debug, Clone, Copy, PartialEq, Eq, Hash, Structural)]
pub struct Nearest {
    pub distance: PositionType,
    pub idx: u32,
    pub idx2: u32,
}

/// One exon of a spliced transcript while its cumulative lengths are computed.
#[derive(Debug, Clone, Copy, PartialEq, Eq, Structural)]
pub struct SplicedSubsequenceInterval {
    /// Encoded group (chromosome, or chromosome with strand and gene).
    pub chr: GroupType,
    /// The genomic start coordinate.
    pub start: PositionType,
    /// The genomic end coordinate.
    pub end: PositionType,
    pub idx: u32,
    pub forward_strand: bool,
    /// Length of this exon.
    pub temp_length: PositionType,
    /// Summed lengths of the exons of the group up to and including this one.
    pub temp_cumsum: PositionType,
}

/// One interval of a group for subsequence arithmetic.
#[derive(Debug, Clone, Copy, PartialEq, Eq, Structural)]
pub struct SubsequenceInterval {
    pub group_id: i64,
    pub start: i64,
    pub end: i64,
    pub idx: i64,
    pub forward_strand: bool,
}

/// An endpoint event of either table.
#[derive(Debug, Clone, Copy, PartialEq, Eq, Structural)]
pub struct GenericEvent {
    pub chr: GroupType,
    pub pos: PositionType,
    pub is_start: bool,
    pub first_set: bool,
    pub idx: u32,
}

/// Which of the pairs found for a row of the first table are kept.
#[derive(Debug, Clone, Copy, PartialEq, Eq, Structural)]
pub enum OverlapType {
    First,
    Last,
    All,
}

/// The lowercase form of a string, as `str::to_lowercase` gives it.
pub uninterp spec fn lowercase(s: Seq<char>) -> Seq<char>;

/// `str::to_lowercase`: the lowercase form of `s`, which depends on the
/// characters of `s` alone.
#[verifier::external_body]
pub(crate) fn lowercased(s: &str) -> (lower: String)
    ensures
        lower@ == lowercase(s@),
{
    s.to_lowercase()
}

/// The message for a word that names no choice.
pub open spec fn invalid_word() -> Seq<char> {
    "Invalid direction string"@
}

/// The choice that a lowercase word names.
pub open spec fn overlap_type_of(lower: Seq<char>) -> Option<OverlapType> {
    if lower == "all"@ {
        Some(OverlapType::All)
    } else if lower == "first"@ {
        Some(OverlapType::First)
    } else if lower == "last"@ {
        Some(OverlapType::Last)
    } else {
        None
    }
}

/// What reading a word gives: the choice it names, or the message that it
/// names none.
pub open spec fn read_as<T>(choice: Option<T>, res: Result<T, &'static str>) -> bool {
    match choice {
        Some(t) => res == Ok::<T, &'static str>(t),
        None => res is Err && res->Err_0@ == invalid_word(),
    }
}

impl OverlapType {
    /// Reads a word that is already in lowercase: `all`, `first` or `last`.
    pub fn from_lowercase(lower: &str) -> (res: Result<OverlapType, &'static str>)
        ensures
            read_as(overlap_type_of(lower@), res),
    {
        let word = lower.to_owned();
        proof {
            reveal_strlit("all");
            reveal_strlit("first");
            reveal_strlit("last");
        }
        if word == "all".to_owned() {
            Ok(OverlapType::All)
        } else if word == "first".to_owned() {
            Ok(OverlapType::First)
        } else if word == "last".to_owned() {
            Ok(OverlapType::Last)
        } else {
            Err("Invalid direction string")
        }
    }

    /// Reads `all`, `first` or `last`, in any mix of upper and lower case.
    pub fn parse(s: &str) -> (res: Result<OverlapType, &'static str>)
        ensures
            read_as(overlap_type_of(lowercase(s@)), res),
    {
        let lower = lowercased(s);
        OverlapType::from_lowercase(lower.as_str())
    }
}

impl std::str::FromStr for OverlapType {
    type Err = &'static str;

    fn from_str(s: &str) -> (res: Result<Self, Self::Err>)
        ensures
            read_as(overlap_type_of(lowercase(s@)), res),
    {
        OverlapType::parse(s)
    }
}

/// A piece of a spliced subsequence.
#[derive(Debug, Clone, Copy, PartialEq, Eq, Structural)]
pub struct SplicedRecord {
    pub idx: u32,
    pub start: PositionType,
    pub end: PositionType,
    pub strand: bool,
}

} // verus!
