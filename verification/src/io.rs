//! The rules that reading and writing interval files rest on. The files
//! themselves are read and written elsewhere.

use crate::arith::{clamp, sat_add};
use vstd::prelude::*;

verus! {

/// One operation of an alignment, with the number of bases it spans.
#[derive(Debug, Clone, Copy, PartialEq, Eq, Structural)]
pub enum CigarOp {
    Match(u32),
    Ins(u32),
    Del(u32),
    RefSkip(u32),
    SoftClip(u32),
    HardClip(u32),
    Pad(u32),
    Equal(u32),
    Diff(u32),
}

/// How many bases of the reference an operation spans: its length where it
/// is a match, a deletion or a skip, and none where it is not.
pub open spec fn reference_span(op: CigarOp) -> int {
    match op {
        CigarOp::Match(len) => len as int,
        CigarOp::Equal(len) => len as int,
        CigarOp::Diff(len) => len as int,
        CigarOp::Del(len) => len as int,
        CigarOp::RefSkip(len) => len as int,
        _ => 0,
    }
}

/// Where an alignment has come to on the reference behind its first `t` operations.
pub open spec fn reached(pos: i64, cigar: Seq<CigarOp>, t: int) -> i64
    decreases t,
{
    if t <= 0 {
        pos
    } else {
        clamp(reached(pos, cigar, t - 1) + reference_span(cigar[t - 1]))
    }
}

/// Where an alignment that begins at `pos` ends on the reference.
pub fn alignment_end(pos: i64, cigar: &[CigarOp]) -> (end: i64)
    ensures
        end == reached(pos, cigar@, cigar.len() as int),
{
    let mut end = pos;
    let mut t: usize = 0;
    while t < cigar.len()
        invariant
            t <= cigar.len(),
            end == reached(pos, cigar@, t as int),
        decreases cigar.len() - t,
    {
        let span: i64 = match cigar[t] {
            CigarOp::Match(len) => len as i64,
            CigarOp::Equal(len) => len as i64,
            CigarOp::Diff(len) => len as i64,
            CigarOp::Del(len) => len as i64,
            CigarOp::RefSkip(len) => len as i64,
            _ => 0,
        };
        end = sat_add(end, span);
        t += 1;
    }
    end
}

/// Whether a file with `width` columns has a column for the strand.
pub fn includes_strand(width: usize) -> (b: bool)
    ensures
        b == (width >= 6),
{
    width >= 6
}

/// Whether a strand symbol names the reverse strand: `-` does, and nothing else.
pub fn is_reverse_strand(symbol: &str) -> (b: bool)
    ensures
        b == (symbol@ == "-"@),
{
    let word = symbol.to_owned();
    word == "-".to_owned()
}

/// The rows from place `pos` of `sorted_idx` on that lie before `end`, and
/// the place behind them. Of these rows, those that are not below `start`
/// are given as they count from `start`.
pub open spec fn chunk_rows(sorted_idx: Seq<u32>, pos: int, start: int, end: int) -> (
    Seq<u32>,
    int,
)
    decreases sorted_idx.len() - pos,
{
    if pos < 0 || pos >= sorted_idx.len() || sorted_idx[pos] >= end {
        (Seq::empty(), pos)
    } else {
        let rest = chunk_rows(sorted_idx, pos + 1, start, end);
        if sorted_idx[pos] >= start {
            (seq![(sorted_idx[pos] - start) as u32] + rest.0, rest.1)
        } else {
            rest
        }
    }
}

/// The rows of a chunk of a file that are wanted. The chunk holds the rows
/// `current_start..current_start + num_rows` of the file, and `sorted_idx`
/// holds the wanted rows in ascending order, those before place `idx_pos`
/// being done. Returns the wanted rows of the chunk, counted from the start
/// of the chunk, and the place in `sorted_idx` behind them.
pub fn rows_in_chunk(
    sorted_idx: &[u32],
    idx_pos: usize,
    current_start: usize,
    num_rows: usize,
) -> (out: (Vec<u32>, usize))
    requires
        idx_pos <= sorted_idx.len(),
        current_start + num_rows <= usize::MAX,
    ensures
        out.0@ == chunk_rows(
            sorted_idx@,
            idx_pos as int,
            current_start as int,
            current_start + num_rows,
        ).0,
        out.1 == chunk_rows(
            sorted_idx@,
            idx_pos as int,
            current_start as int,
            current_start + num_rows,
        ).1,
        idx_pos <= out.1 <= sorted_idx.len(),
{
    let current_end = current_start + num_rows;
    let mut adjusted: Vec<u32> = Vec::new();
    let mut pos = idx_pos;
    let ghost all = chunk_rows(sorted_idx@, idx_pos as int, current_start as int, current_end as int);
    assert(adjusted@ + all.0 =~= all.0);
    while pos < sorted_idx.len()
        invariant_except_break
            adjusted@ + chunk_rows(
                sorted_idx@,
                pos as int,
                current_start as int,
                current_end as int,
            ).0 == all.0,
            chunk_rows(sorted_idx@, pos as int, current_start as int, current_end as int).1
                == all.1,
        invariant
            idx_pos <= pos <= sorted_idx.len(),
        ensures
            adjusted@ == all.0,
            pos == all.1,
        decreases sorted_idx.len() - pos,
    {
        let global_index = sorted_idx[pos] as usize;
        if global_index >= current_end {
            assert(adjusted@ + Seq::<u32>::empty() =~= adjusted@);
            break ;
        }
        let ghost before = adjusted@;
        if global_index >= current_start {
            adjusted.push((global_index - current_start) as u32);
        }
        proof {
            let rest = chunk_rows(sorted_idx@, pos + 1, current_start as int, current_end as int);
            if global_index >= current_start {
                assert(adjusted@ + rest.0 =~= before + (seq![(sorted_idx[pos as int]
                    - current_start) as u32] + rest.0));
            }
        }
        pos += 1;
    }
    proof {
        assert(adjusted@ + Seq::<u32>::empty() =~= adjusted@);
    }
    (adjusted, pos)
}

} // verus!
