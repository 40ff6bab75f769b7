//! Positions on spliced transcripts carried back to the genome.

use crate::arith::{clamp, sat_add, sat_sub};
use crate::radix::{reorder, sort_rows, stable_order};
use crate::ruranges_structs::{GroupType, PositionType};
use vstd::prelude::*;

verus! {

/// The exons of the transcripts: for each exon its transcript, where it
/// lies on the transcript, where it lies on the genome, and its strand.
pub struct Exons {
    pub tx: Seq<i64>,
    pub local_start: Seq<i64>,
    pub local_end: Seq<i64>,
    pub chr_code: Seq<i64>,
    pub genome_start: Seq<i64>,
    pub genome_end: Seq<i64>,
    pub fwd: Seq<bool>,
}

/// A piece of the genome that a query covers.
#[derive(Debug, Clone, Copy, PartialEq, Eq, Structural)]
pub struct GenomePiece {
    /// The query.
    pub idx: u32,
    /// The chromosome of the exon.
    pub chr: i64,
    pub start: i64,
    pub end: i64,
    /// Whether the strand of the query is that of the exon.
    pub fwd: bool,
}

/// The first exon from `from` on whose transcript is not below `tx`.
pub open spec fn seek_tx(ex_tx: Seq<i64>, from: int, tx: i64) -> int
    decreases ex_tx.len() - from,
{
    if 0 <= from < ex_tx.len() && ex_tx[from] < tx {
        seek_tx(ex_tx, from + 1, tx)
    } else {
        from
    }
}

/// The first exon from `from` on whose transcript is not `tx`.
pub open spec fn past_tx(ex_tx: Seq<i64>, from: int, tx: i64) -> int
    decreases ex_tx.len() - from,
{
    if 0 <= from < ex_tx.len() && ex_tx[from] == tx {
        past_tx(ex_tx, from + 1, tx)
    } else {
        from
    }
}

/// The first exon of transcript `tx` from `from` on that ends behind `l`.
pub open spec fn skip_done(ex: Exons, from: int, tx: i64, l: i64) -> int
    decreases ex.tx.len() - from,
{
    if 0 <= from < ex.tx.len() && ex.tx[from] == tx && ex.local_end[from] <= l {
        skip_done(ex, from + 1, tx, l)
    } else {
        from
    }
}

/// Where the search among the exons stands when a query is taken up.
pub struct Cursor {
    /// The first exon of the transcript of the query, if it has any.
    pub ei: int,
    /// The exon from which the query is read.
    pub ej: int,
    /// Whether the transcript of the query has exons.
    pub found: bool,
}

/// The cursor at the first exon of transcript `tx` from `base` on.
pub open spec fn cursor_at(ex: Exons, base: int, tx: i64) -> Cursor {
    let ei = seek_tx(ex.tx, base, tx);
    Cursor { ei, ej: ei, found: 0 <= ei < ex.tx.len() && ex.tx[ei] == tx }
}

/// The cursor with which query `q` is taken up. Queries come transcript by
/// transcript, and the search among the exons only moves forward.
pub open spec fn cursor(ex: Exons, q_tx: Seq<i64>, q_start: Seq<i64>, q: int) -> Cursor
    decreases q,
{
    if q <= 0 {
        cursor_at(ex, 0, q_tx[0])
    } else {
        let prev = cursor(ex, q_tx, q_start, q - 1);
        if q_tx[q] == q_tx[q - 1] {
            Cursor {
                ei: prev.ei,
                ej: if prev.found {
                    skip_done(ex, prev.ej, q_tx[q - 1], q_start[q - 1])
                } else {
                    prev.ej
                },
                found: prev.found,
            }
        } else {
            cursor_at(
                ex,
                if prev.found { past_tx(ex.tx, prev.ei, q_tx[q - 1]) } else { prev.ei },
                q_tx[q],
            )
        }
    }
}

/// The part `l..seg_end` of exon `ek` on the genome, for query `idx`.
pub open spec fn genome_piece(ex: Exons, ek: int, l: i64, seg_end: i64, idx: u32, local_f: bool) -> GenomePiece {
    let offset1 = clamp(l - ex.local_start[ek]);
    let offset2 = clamp(seg_end - ex.local_start[ek]);
    GenomePiece {
        chr: ex.chr_code[ek],
        start: if ex.fwd[ek] {
            clamp(ex.genome_start[ek] + offset1)
        } else {
            clamp(ex.genome_end[ek] - offset2)
        },
        end: if ex.fwd[ek] {
            clamp(ex.genome_start[ek] + offset2)
        } else {
            clamp(ex.genome_end[ek] - offset1)
        },
        idx,
        fwd: local_f == ex.fwd[ek],
    }
}

/// The pieces of the stretch `l..lend` of transcript `tx`, read exon by
/// exon from exon `ek` on.
pub open spec fn walk(
    ex: Exons,
    ek: int,
    tx: i64,
    l: i64,
    lend: i64,
    idx: u32,
    local_f: bool,
) -> Seq<GenomePiece>
    decreases ex.tx.len() - ek,
{
    if !(l < lend && 0 <= ek < ex.tx.len() && ex.tx[ek] == tx) {
        Seq::empty()
    } else if l >= ex.local_end[ek] {
        walk(ex, ek + 1, tx, l, lend, idx, local_f)
    } else {
        let seg_end = if lend < ex.local_end[ek] { lend } else { ex.local_end[ek] };
        seq![genome_piece(ex, ek, l, seg_end, idx, local_f)] + (if seg_end >= lend {
            Seq::empty()
        } else {
            walk(ex, ek + 1, tx, seg_end, lend, idx, local_f)
        })
    }
}

/// The pieces of query `q`.
pub open spec fn pieces_of_query(
    ex: Exons,
    q_tx: Seq<i64>,
    q_start: Seq<i64>,
    q_end: Seq<i64>,
    q_fwd: Seq<bool>,
    q: int,
) -> Seq<GenomePiece> {
    let c = cursor(ex, q_tx, q_start, q);
    if c.found {
        walk(
            ex,
            skip_done(ex, c.ej, q_tx[q], q_start[q]),
            q_tx[q],
            q_start[q],
            q_end[q],
            q as u32,
            q_fwd[q],
        )
    } else {
        Seq::empty()
    }
}

/// The pieces of the first `t` queries.
pub open spec fn pieces_upto(
    ex: Exons,
    q_tx: Seq<i64>,
    q_start: Seq<i64>,
    q_end: Seq<i64>,
    q_fwd: Seq<bool>,
    t: int,
) -> Seq<GenomePiece>
    decreases t,
{
    if t <= 0 {
        Seq::empty()
    } else {
        pieces_upto(ex, q_tx, q_start, q_end, q_fwd, t - 1) + pieces_of_query(
            ex,
            q_tx,
            q_start,
            q_end,
            q_fwd,
            t - 1,
        )
    }
}

/// The exons that `map_to_genome` is given.
pub open spec fn exons_of(
    ex_tx: Seq<i64>,
    ex_local_start: Seq<i64>,
    ex_local_end: Seq<i64>,
    ex_chr_code: Seq<i64>,
    ex_genome_start: Seq<i64>,
    ex_genome_end: Seq<i64>,
    ex_fwd: Seq<bool>,
) -> Exons {
    Exons {
        tx: ex_tx,
        local_start: ex_local_start,
        local_end: ex_local_end,
        chr_code: ex_chr_code,
        genome_start: ex_genome_start,
        genome_end: ex_genome_end,
        fwd: ex_fwd,
    }
}

/// Pieces by query, pieces of one query in their order.
pub open spec fn by_query(found: Seq<GenomePiece>) -> Seq<GenomePiece> {
    reorder(found, stable_order(Seq::new(found.len(), |k: int| (found[k].idx as i64, 0i64, 0i64))))
}

fn seek(ex_tx: &[i64], from: usize, tx: i64) -> (ei: usize)
    requires
        from <= ex_tx.len(),
    ensures
        ei == seek_tx(ex_tx@, from as int, tx),
        from <= ei <= ex_tx.len(),
{
    let mut ei = from;
    while ei < ex_tx.len() && ex_tx[ei] < tx
        invariant
            from <= ei <= ex_tx.len(),
            seek_tx(ex_tx@, ei as int, tx) == seek_tx(ex_tx@, from as int, tx),
        decreases ex_tx.len() - ei,
    {
        ei += 1;
    }
    ei
}

fn pass(ex_tx: &[i64], from: usize, tx: i64) -> (ei: usize)
    requires
        from <= ex_tx.len(),
    ensures
        ei == past_tx(ex_tx@, from as int, tx),
        from <= ei <= ex_tx.len(),
{
    let mut ei = from;
    while ei < ex_tx.len() && ex_tx[ei] == tx
        invariant
            from <= ei <= ex_tx.len(),
            past_tx(ex_tx@, ei as int, tx) == past_tx(ex_tx@, from as int, tx),
        decreases ex_tx.len() - ei,
    {
        ei += 1;
    }
    ei
}

/// Carries stretches of transcripts back to the genome. Each query names a
/// transcript and a stretch of it; the exons say where the parts of each
/// transcript lie on the genome. The result has, for each query, the pieces
/// of the genome that its stretch covers, exon by exon, as five columns: the
/// query, the chromosome of the exon, start and end on the genome, and
/// whether the strand of the query is that of the exon. On the reverse
/// strand an exon counts from its end downwards.
///
/// Exons and queries are read transcript by transcript in ascending order,
/// and the exons of a transcript in the order in which they lie on it; the
/// search among the exons only moves forward.
pub fn map_to_genome(
    ex_tx: &[GroupType],
    ex_local_start: &[PositionType],
    ex_local_end: &[PositionType],
    ex_chr_code: &[GroupType],
    ex_genome_start: &[PositionType],
    ex_genome_end: &[PositionType],
    ex_fwd: &[bool],
    q_tx: &[GroupType],
    q_start: &[PositionType],
    q_end: &[PositionType],
    q_fwd: &[bool],
) -> (out: (Vec<u32>, Vec<GroupType>, Vec<PositionType>, Vec<PositionType>, Vec<bool>))
    requires
        ex_tx.len() == ex_local_start.len(),
        ex_tx.len() == ex_local_end.len(),
        ex_tx.len() == ex_chr_code.len(),
        ex_tx.len() == ex_genome_start.len(),
        ex_tx.len() == ex_genome_end.len(),
        ex_tx.len() == ex_fwd.len(),
        q_tx.len() == q_start.len(),
        q_tx.len() == q_end.len(),
        q_tx.len() == q_fwd.len(),
        q_tx.len() <= u32::MAX,
    ensures
        ({
            let ex = exons_of(
                ex_tx@,
                ex_local_start@,
                ex_local_end@,
                ex_chr_code@,
                ex_genome_start@,
                ex_genome_end@,
                ex_fwd@,
            );
            let found = by_query(
                pieces_upto(ex, q_tx@, q_start@, q_end@, q_fwd@, q_tx.len() as int),
            );
            &&& out.0@ == Seq::new(found.len(), |k: int| found[k].idx)
            &&& out.1@ == Seq::new(found.len(), |k: int| found[k].chr)
            &&& out.2@ == Seq::new(found.len(), |k: int| found[k].start)
            &&& out.3@ == Seq::new(found.len(), |k: int| found[k].end)
            &&& out.4@ == Seq::new(found.len(), |k: int| found[k].fwd)
        }),
{
    let ghost ex = exons_of(
        ex_tx@,
        ex_local_start@,
        ex_local_end@,
        ex_chr_code@,
        ex_genome_start@,
        ex_genome_end@,
        ex_fwd@,
    );
    let ex_n = ex_tx.len();
    let q_n = q_tx.len();
    let mut results: Vec<GenomePiece> = Vec::new();
    let mut ei: usize = 0;
    let mut ej: usize = 0;
    let mut found = false;
    let mut qi: usize = 0;
    while qi < q_n
        invariant
            qi <= q_n,
            ex_n == ex_tx.len(),
            ex_n == ex_local_start.len(),
            ex_n == ex_local_end.len(),
            ex_n == ex_genome_start.len(),
            ex_n == ex_genome_end.len(),
            ex_n == ex_fwd.len(),
            q_n == q_tx.len(),
            q_n == q_start.len(),
            q_n == q_end.len(),
            q_n == q_fwd.len(),
            q_n <= u32::MAX,
            ex == exons_of(
                ex_tx@,
                ex_local_start@,
                ex_local_end@,
                ex_chr_code@,
                ex_genome_start@,
                ex_genome_end@,
                ex_fwd@,
            ),
            ex_n == ex_chr_code.len(),
            ei <= ex_n,
            ej <= ex_n,
            qi > 0 ==> ei == cursor(ex, q_tx@, q_start@, qi - 1).ei && found == cursor(
                ex,
                q_tx@,
                q_start@,
                qi - 1,
            ).found && ej == (if found {
                skip_done(ex, cursor(ex, q_tx@, q_start@, qi - 1).ej, q_tx[qi - 1], q_start[qi - 1])
            } else {
                cursor(ex, q_tx@, q_start@, qi - 1).ej
            }),
            qi == 0 ==> ei == 0 && ej == 0 && !found,
            results@ == pieces_upto(ex, q_tx@, q_start@, q_end@, q_fwd@, qi as int),
        decreases q_n - qi,
    {
        let tx_code = q_tx[qi];
        if qi == 0 || tx_code != q_tx[qi - 1] {
            let base = if found { pass(ex_tx, ei, q_tx[qi - 1]) } else { ei };
            ei = seek(ex_tx, base, tx_code);
            found = ei < ex_n && ex_tx[ei] == tx_code;
            ej = ei;
        }
        assert(ei == cursor(ex, q_tx@, q_start@, qi as int).ei);
        assert(ej == cursor(ex, q_tx@, q_start@, qi as int).ej);
        assert(found == cursor(ex, q_tx@, q_start@, qi as int).found);
        if found {
            let mut l = q_start[qi];
            let lend = q_end[qi];
            let idx = qi as u32;
            let local_f = q_fwd[qi];
            let ghost from = ej;
            while ej < ex_n && ex_tx[ej] == tx_code && ex_local_end[ej] <= l
                invariant
                    from <= ej <= ex_n,
                    ex_n == ex_tx.len(),
                    ex_n == ex_local_end.len(),
                    ex.tx == ex_tx@,
                    ex.local_end == ex_local_end@,
                    skip_done(ex, ej as int, tx_code, l) == skip_done(ex, from as int, tx_code, l),
                decreases ex_n - ej,
            {
                ej += 1;
            }
            let ghost before = results@;
            let ghost all = walk(ex, ej as int, tx_code, l, lend, idx, local_f);
            let ghost mut done: Seq<GenomePiece> = Seq::empty();
            assert(done + all =~= all);
            let mut ek = ej;
            while l < lend && ek < ex_n && ex_tx[ek] == tx_code
                invariant_except_break
                    done + walk(ex, ek as int, tx_code, l, lend, idx, local_f) == all,
                invariant
                    ek <= ex_n,
                    ex_n == ex_tx.len(),
                    ex_n == ex_local_start.len(),
                    ex_n == ex_local_end.len(),
                    ex_n == ex_genome_start.len(),
                    ex_n == ex_genome_end.len(),
                    ex_n == ex_fwd.len(),
                    ex == exons_of(
                        ex_tx@,
                        ex_local_start@,
                        ex_local_end@,
                        ex_chr_code@,
                        ex_genome_start@,
                        ex_genome_end@,
                        ex_fwd@,
                    ),
                    ex_n == ex_chr_code.len(),
                    results@ == before + done,
                ensures
                    done == all,
                decreases ex_n - ek,
            {
                let el_start = ex_local_start[ek];
                let el_end = ex_local_end[ek];
                if l >= el_end {
                    ek += 1;
                    continue ;
                }
                let seg_end_local = if lend < el_end { lend } else { el_end };
                let offset1 = sat_sub(l, el_start);
                let offset2 = sat_sub(seg_end_local, el_start);
                let (g_start, g_end) = if ex_fwd[ek] {
                    (sat_add(ex_genome_start[ek], offset1), sat_add(ex_genome_start[ek], offset2))
                } else {
                    (sat_sub(ex_genome_end[ek], offset2), sat_sub(ex_genome_end[ek], offset1))
                };
                let piece = GenomePiece {
                    chr: ex_chr_code[ek],
                    start: g_start,
                    end: g_end,
                    idx,
                    fwd: local_f == ex_fwd[ek],
                };
                results.push(piece);
                proof {
                    assert(piece == genome_piece(ex, ek as int, l, seg_end_local, idx, local_f));
                    let rest = if seg_end_local >= lend {
                        Seq::<GenomePiece>::empty()
                    } else {
                        walk(ex, ek + 1, tx_code, seg_end_local, lend, idx, local_f)
                    };
                    assert(done.push(piece) + rest =~= done + (seq![piece] + rest));
                    done = done.push(piece);
                    assert(results@ =~= before + done);
                }
                l = seg_end_local;
                if l >= lend {
                    proof {
                        assert(done + Seq::<GenomePiece>::empty() =~= done);
                    }
                    break ;
                }
                ek += 1;
            }
            proof {
                assert(done + Seq::<GenomePiece>::empty() =~= done);
            }
        } else {
            assert(results@ + Seq::<GenomePiece>::empty() =~= results@);
        }
        qi += 1;
    }
    let mut keys: Vec<(i64, i64, i64)> = Vec::new();
    let mut i: usize = 0;
    while i < results.len()
        invariant
            i <= results.len(),
            keys.len() == i,
            forall|k: int| 0 <= k < i ==> #[trigger] keys[k] == (results[k].idx as i64, 0i64, 0i64),
        decreases results.len() - i,
    {
        keys.push((results[i].idx as i64, 0, 0));
        i += 1;
    }
    assert(keys@ =~= Seq::new(
        results.len() as nat,
        |k: int| (results[k].idx as i64, 0i64, 0i64),
    ));
    let sorted = sort_rows(&results, &keys);
    let mut out_idxs: Vec<u32> = Vec::new();
    let mut out_chrs: Vec<i64> = Vec::new();
    let mut out_starts: Vec<i64> = Vec::new();
    let mut out_ends: Vec<i64> = Vec::new();
    let mut out_strands: Vec<bool> = Vec::new();
    let mut k: usize = 0;
    while k < sorted.len()
        invariant
            k <= sorted.len(),
            out_idxs.len() == k,
            out_chrs.len() == k,
            out_starts.len() == k,
            out_ends.len() == k,
            out_strands.len() == k,
            forall|j: int| 0 <= j < k ==> #[trigger] out_idxs[j] == sorted[j].idx,
            forall|j: int| 0 <= j < k ==> #[trigger] out_chrs[j] == sorted[j].chr,
            forall|j: int| 0 <= j < k ==> #[trigger] out_starts[j] == sorted[j].start,
            forall|j: int| 0 <= j < k ==> #[trigger] out_ends[j] == sorted[j].end,
            forall|j: int| 0 <= j < k ==> #[trigger] out_strands[j] == sorted[j].fwd,
        decreases sorted.len() - k,
    {
        out_idxs.push(sorted[k].idx);
        out_chrs.push(sorted[k].chr);
        out_starts.push(sorted[k].start);
        out_ends.push(sorted[k].end);
        out_strands.push(sorted[k].fwd);
        k += 1;
    }
    proof {
        let all = sorted@;
        assert(all == by_query(results@));
        assert(out_idxs@ =~= Seq::new(all.len(), |k: int| all[k].idx));
        assert(out_chrs@ =~= Seq::new(all.len(), |k: int| all[k].chr));
        assert(out_starts@ =~= Seq::new(all.len(), |k: int| all[k].start));
        assert(out_ends@ =~= Seq::new(all.len(), |k: int| all[k].end));
        assert(out_strands@ =~= Seq::new(all.len(), |k: int| all[k].fwd));
    }
    (out_idxs, out_chrs, out_starts, out_ends, out_strands)
}

/// As `map_to_genome`, without the chromosomes: the query, start and end on
/// the genome, and whether the strand of the query is that of the exon.
pub fn map_to_global(
    ex_tx: &[GroupType],
    ex_local_start: &[PositionType],
    ex_local_end: &[PositionType],
    q_tx: &[GroupType],
    q_start: &[PositionType],
    q_end: &[PositionType],
    ex_chr_code: &[GroupType],
    ex_genome_start: &[PositionType],
    ex_genome_end: &[PositionType],
    ex_fwd: &[bool],
    q_fwd: &[bool],
) -> (out: (Vec<u32>, Vec<PositionType>, Vec<PositionType>, Vec<bool>))
    requires
        ex_tx.len() == ex_local_start.len(),
        ex_tx.len() == ex_local_end.len(),
        ex_tx.len() == ex_chr_code.len(),
        ex_tx.len() == ex_genome_start.len(),
        ex_tx.len() == ex_genome_end.len(),
        ex_tx.len() == ex_fwd.len(),
        q_tx.len() == q_start.len(),
        q_tx.len() == q_end.len(),
        q_tx.len() == q_fwd.len(),
        q_tx.len() <= u32::MAX,
    ensures
        ({
            let ex = exons_of(
                ex_tx@,
                ex_local_start@,
                ex_local_end@,
                ex_chr_code@,
                ex_genome_start@,
                ex_genome_end@,
                ex_fwd@,
            );
            let found = by_query(
                pieces_upto(ex, q_tx@, q_start@, q_end@, q_fwd@, q_tx.len() as int),
            );
            &&& out.0@ == Seq::new(found.len(), |k: int| found[k].idx)
            &&& out.1@ == Seq::new(found.len(), |k: int| found[k].start)
            &&& out.2@ == Seq::new(found.len(), |k: int| found[k].end)
            &&& out.3@ == Seq::new(found.len(), |k: int| found[k].fwd)
        }),
{
    let (idx, _chr, starts, ends, fwd) = map_to_genome(
        ex_tx,
        ex_local_start,
        ex_local_end,
        ex_chr_code,
        ex_genome_start,
        ex_genome_end,
        ex_fwd,
        q_tx,
        q_start,
        q_end,
        q_fwd,
    );
    (idx, starts, ends, fwd)
}

} // verus!
