//! Tiles and windows: intervals cut along a fixed grid, or into stretches
//! of a fixed length counted along each group.

use vstd::arithmetic::div_mod::{
    lemma_add_mod_noop, lemma_fundamental_div_mod, lemma_fundamental_div_mod_converse,
    lemma_mod_bound, lemma_small_mod,
};
use vstd::prelude::*;

verus! {

/// The greatest multiple of `size` that is not above `x`.
pub open spec fn boundary_below(x: int, size: int) -> int {
    x - x % size
}

/// The least multiple of `size` that is not below `x`.
pub open spec fn boundary_above(x: int, size: int) -> int {
    x + (-x) % size
}

/// A tile of the grid that an interval reaches into.
pub struct Tile {
    pub start: i64,
    pub end: i64,
    /// The row of the interval.
    pub row: usize,
    /// How much of the tile the interval covers.
    pub covered: i64,
}

pub open spec fn int_min(a: int, b: int) -> int {
    if a <= b {
        a
    } else {
        b
    }
}

pub open spec fn int_max(a: int, b: int) -> int {
    if a >= b {
        a
    } else {
        b
    }
}

/// The tile that begins at `tile_start`, with what the interval `s..e` covers of it.
pub open spec fn tile_at(tile_start: int, s: int, e: int, size: int, row: usize) -> Tile {
    Tile {
        start: tile_start as i64,
        end: (tile_start + size) as i64,
        row,
        covered: (int_min(tile_start + size, e) - int_max(tile_start, s)) as i64,
    }
}

/// The tiles from `tile_start` upwards as far as the interval `s..e` reaches.
pub open spec fn tiles_up(tile_start: int, s: int, e: int, size: int, row: usize) -> Seq<Tile>
    decreases e - tile_start + size,
{
    if size <= 0 || tile_start >= e {
        Seq::empty()
    } else {
        seq![tile_at(tile_start, s, e, size, row)] + tiles_up(tile_start + size, s, e, size, row)
    }
}

/// The tiles from the one that ends at `tile_end` downwards as far as the
/// interval `s..e` reaches.
pub open spec fn tiles_down(tile_end: int, s: int, e: int, size: int, row: usize) -> Seq<Tile>
    decreases tile_end - s + size,
{
    if size <= 0 || tile_end <= s {
        Seq::empty()
    } else {
        seq![tile_at(tile_end - size, s, e, size, row)] + tiles_down(
            tile_end - size,
            s,
            e,
            size,
            row,
        )
    }
}

/// The tiles of one row: none for an interval without length, else the
/// tiles of the grid that the interval reaches into, from its start
/// upwards, or on the negative strand from its end downwards.
pub open spec fn tiles_of_row(s: i64, e: i64, negative: bool, size: i64, row: usize) -> Seq<Tile> {
    if e <= s {
        Seq::empty()
    } else if !negative {
        tiles_up(boundary_below(s as int, size as int), s as int, e as int, size as int, row)
    } else {
        tiles_down(boundary_above(e as int, size as int), s as int, e as int, size as int, row)
    }
}

/// The tiles of the first `t` rows.
pub open spec fn tiles_upto(
    starts: Seq<i64>,
    ends: Seq<i64>,
    negative_strand: Seq<bool>,
    size: i64,
    t: int,
) -> Seq<Tile>
    decreases t,
{
    if t <= 0 {
        Seq::empty()
    } else {
        tiles_upto(starts, ends, negative_strand, size, t - 1) + tiles_of_row(
            starts[t - 1],
            ends[t - 1],
            negative_strand[t - 1],
            size,
            (t - 1) as usize,
        )
    }
}

/// Every interval with a length has room for a tile below its start and
/// above its end.
pub open spec fn room_for_tiles(starts: Seq<i64>, ends: Seq<i64>, size: i64) -> bool {
    forall|i: int|
        0 <= i < starts.len() && #[trigger] starts[i] < ends[i] ==> starts[i] - size >= i64::MIN
            && ends[i] + size <= i64::MAX
}

/// The greatest multiple of `size` that is not above `x`.
pub fn floor_to(x: i64, size: i64) -> (r: i64)
    requires
        size > 0,
        x - size >= i64::MIN,
    ensures
        r == boundary_below(x as int, size as int),
        r <= x < r + size,
{
    proof {
        lemma_mod_bound(x as int, size as int);
    }
    if x >= 0 {
        x - x % size
    } else {
        let a = -(x + 1);
        let rem = a % size;
        proof {
            let q = (a as int) / (size as int);
            lemma_fundamental_div_mod(a as int, size as int);
            assert((-q - 1) * size + (size - 1 - rem) == -(size * q + rem + 1)) by (nonlinear_arith);
            lemma_fundamental_div_mod_converse(
                x as int,
                size as int,
                -q - 1,
                (size - 1 - rem) as int,
            );
        }
        x - (size - 1 - rem)
    }
}

/// The least multiple of `size` that is not below `x`.
pub fn ceil_to(x: i64, size: i64) -> (r: i64)
    requires
        size > 0,
        x + size <= i64::MAX,
        x > i64::MIN,
    ensures
        r == boundary_above(x as int, size as int),
        r - size < x <= r,
{
    let below = floor_to(-x, size);
    -below
}

/// Appends the tiles of one row.
fn push_tiles_of_row(
    out: &mut Vec<Tile>,
    s: i64,
    e: i64,
    negative: bool,
    size: i64,
    row: usize,
)
    requires
        size > 0,
        s < e ==> s - size >= i64::MIN && e + size <= i64::MAX,
    ensures
        final(out)@ == old(out)@ + tiles_of_row(s, e, negative, size, row),
{
    let ghost before = out@;
    let ghost all = tiles_of_row(s, e, negative, size, row);
    if e <= s {
        assert(before + all =~= before);
        return ;
    }
    let ghost mut found: Seq<Tile> = Seq::empty();
    assert(found + all =~= all);
    if !negative {
        let mut tile_start = floor_to(s, size);
        while tile_start < e
            invariant
                size > 0,
                s < e,
                e + size <= i64::MAX,
                s - size >= i64::MIN,
                s - size < tile_start,
                tile_start < e + size,
                out@ == before + found,
                found + tiles_up(tile_start as int, s as int, e as int, size as int, row) == all,
            decreases e - tile_start + size,
        {
            let tile_end = tile_start + size;
            let hi = if tile_end < e { tile_end } else { e };
            let lo = if tile_start > s { tile_start } else { s };
            let tile = Tile { start: tile_start, end: tile_end, row, covered: hi - lo };
            out.push(tile);
            proof {
                let rest = tiles_up(tile_end as int, s as int, e as int, size as int, row);
                assert(tile == tile_at(tile_start as int, s as int, e as int, size as int, row));
                assert(found.push(tile) + rest =~= found + (seq![tile] + rest));
                found = found.push(tile);
                assert(out@ =~= before + found);
            }
            tile_start = tile_end;
        }
        assert(found + Seq::<Tile>::empty() =~= found);
    } else {
        let mut tile_end = ceil_to(e, size);
        while tile_end > s
            invariant
                size > 0,
                s < e,
                e + size <= i64::MAX,
                s - size >= i64::MIN,
                s - size < tile_end,
                tile_end < e + size,
                out@ == before + found,
                found + tiles_down(tile_end as int, s as int, e as int, size as int, row) == all,
            decreases tile_end - s + size,
        {
            let tile_start = tile_end - size;
            let hi = if tile_end < e { tile_end } else { e };
            let lo = if tile_start > s { tile_start } else { s };
            let tile = Tile { start: tile_start, end: tile_end, row, covered: hi - lo };
            out.push(tile);
            proof {
                let rest = tiles_down(tile_start as int, s as int, e as int, size as int, row);
                assert(tile == tile_at(tile_start as int, s as int, e as int, size as int, row));
                assert(found.push(tile) + rest =~= found + (seq![tile] + rest));
                found = found.push(tile);
                assert(out@ =~= before + found);
            }
            tile_end = tile_start;
        }
        assert(found + Seq::<Tile>::empty() =~= found);
    }
}

/// The tiles of a grid of step `tile_size` that the intervals reach into,
/// as four columns: start and end of the tile, the row of the interval, and
/// how much of the tile the interval covers. The tiles of a row come from
/// its start upwards, on the negative strand from its end downwards. An
/// interval without length has no tiles.
pub fn tile(
    starts: &[i64],
    ends: &[i64],
    negative_strand: &[bool],
    tile_size: i64,
) -> (out: (Vec<i64>, Vec<i64>, Vec<usize>, Vec<i64>))
    requires
        starts.len() == ends.len(),
        starts.len() == negative_strand.len(),
        tile_size > 0,
        room_for_tiles(starts@, ends@, tile_size),
    ensures
        ({
            let tiles = tiles_upto(
                starts@,
                ends@,
                negative_strand@,
                tile_size,
                starts.len() as int,
            );
            &&& out.0@ == Seq::new(tiles.len(), |k: int| tiles[k].start)
            &&& out.1@ == Seq::new(tiles.len(), |k: int| tiles[k].end)
            &&& out.2@ == Seq::new(tiles.len(), |k: int| tiles[k].row)
            &&& out.3@ == Seq::new(tiles.len(), |k: int| tiles[k].covered)
        }),
{
    let mut tiles: Vec<Tile> = Vec::new();
    let mut i: usize = 0;
    while i < starts.len()
        invariant
            i <= starts.len(),
            starts.len() == ends.len(),
            starts.len() == negative_strand.len(),
            tile_size > 0,
            room_for_tiles(starts@, ends@, tile_size),
            tiles@ == tiles_upto(starts@, ends@, negative_strand@, tile_size, i as int),
        decreases starts.len() - i,
    {
        push_tiles_of_row(&mut tiles, starts[i], ends[i], negative_strand[i], tile_size, i);
        i += 1;
    }
    let mut out_starts: Vec<i64> = Vec::new();
    let mut out_ends: Vec<i64> = Vec::new();
    let mut out_indices: Vec<usize> = Vec::new();
    let mut out_covered: Vec<i64> = Vec::new();
    let mut k: usize = 0;
    while k < tiles.len()
        invariant
            k <= tiles.len(),
            out_starts.len() == k,
            out_ends.len() == k,
            out_indices.len() == k,
            out_covered.len() == k,
            forall|j: int| 0 <= j < k ==> #[trigger] out_starts[j] == tiles[j].start,
            forall|j: int| 0 <= j < k ==> #[trigger] out_ends[j] == tiles[j].end,
            forall|j: int| 0 <= j < k ==> #[trigger] out_indices[j] == tiles[j].row,
            forall|j: int| 0 <= j < k ==> #[trigger] out_covered[j] == tiles[j].covered,
        decreases tiles.len() - k,
    {
        out_starts.push(tiles[k].start);
        out_ends.push(tiles[k].end);
        out_indices.push(tiles[k].row);
        out_covered.push(tiles[k].covered);
        k += 1;
    }
    proof {
        let all = tiles@;
        assert(out_starts@ =~= Seq::new(all.len(), |k: int| all[k].start));
        assert(out_ends@ =~= Seq::new(all.len(), |k: int| all[k].end));
        assert(out_indices@ =~= Seq::new(all.len(), |k: int| all[k].row));
        assert(out_covered@ =~= Seq::new(all.len(), |k: int| all[k].covered));
    }
    (out_starts, out_ends, out_indices, out_covered)
}

/// As `tile`, for rows that come group by group. The tiles of a row do not
/// depend on its group.
pub fn tile_grouped(
    chrs: &[i64],
    starts: &[i64],
    ends: &[i64],
    negative_strand: &[bool],
    tile_size: i64,
) -> (out: (Vec<i64>, Vec<i64>, Vec<usize>, Vec<i64>))
    requires
        starts.len() == ends.len(),
        starts.len() == negative_strand.len(),
        starts.len() == chrs.len(),
        tile_size > 0,
        room_for_tiles(starts@, ends@, tile_size),
    ensures
        ({
            let tiles = tiles_upto(
                starts@,
                ends@,
                negative_strand@,
                tile_size,
                starts.len() as int,
            );
            &&& out.0@ == Seq::new(tiles.len(), |k: int| tiles[k].start)
            &&& out.1@ == Seq::new(tiles.len(), |k: int| tiles[k].end)
            &&& out.2@ == Seq::new(tiles.len(), |k: int| tiles[k].row)
            &&& out.3@ == Seq::new(tiles.len(), |k: int| tiles[k].covered)
        }),
{
    tile(starts, ends, negative_strand, tile_size)
}


/// The length of row `i`, none for an end that is not above the start.
pub open spec fn row_length(starts: Seq<i64>, ends: Seq<i64>, i: int) -> int {
    if ends[i] > starts[i] {
        ends[i] - starts[i]
    } else {
        0
    }
}

/// The first row of the run of rows of one group in which row `i` stands.
pub open spec fn run_begin(chrs: Seq<i64>, i: int) -> int
    decreases i,
{
    if i <= 0 || chrs[i] != chrs[i - 1] {
        i
    } else {
        run_begin(chrs, i - 1)
    }
}

/// The row behind the run of rows of one group in which row `i` stands.
pub open spec fn run_end(chrs: Seq<i64>, i: int) -> int
    decreases chrs.len() - i,
{
    if i + 1 >= chrs.len() || chrs[i + 1] != chrs[i] {
        i + 1
    } else {
        run_end(chrs, i + 1)
    }
}

/// The summed lengths of the rows from `from` up to `to` that lie on the
/// negative strand, or of those that do not.
pub open spec fn strand_length(
    starts: Seq<i64>,
    ends: Seq<i64>,
    negative_strand: Seq<bool>,
    from: int,
    to: int,
    negative: bool,
) -> int
    decreases to - from,
{
    if to <= from {
        0
    } else {
        strand_length(starts, ends, negative_strand, from, to - 1, negative) + (if negative_strand[to
            - 1] == negative {
            row_length(starts, ends, to - 1)
        } else {
            0
        })
    }
}

/// How far into a window row `i` begins. The rows of a group that do not
/// lie on the negative strand are laid end to end, and windows are counted
/// from the start of the first. Those on the negative strand are laid end
/// to end as well, and windows are counted so that the last is complete.
pub open spec fn window_phase(
    chrs: Seq<i64>,
    starts: Seq<i64>,
    ends: Seq<i64>,
    negative_strand: Seq<bool>,
    window_size: int,
    i: int,
) -> int {
    let a = run_begin(chrs, i);
    if !negative_strand[i] {
        strand_length(starts, ends, negative_strand, a, i, false) % window_size
    } else {
        (strand_length(starts, ends, negative_strand, a, i, true) - strand_length(
            starts,
            ends,
            negative_strand,
            a,
            run_end(chrs, i),
            true,
        )) % window_size
    }
}

/// The pieces of `cur..e` when a cut is made wherever a window is full, the
/// first window being filled by `phase` already.
pub open spec fn cut_pieces(cur: int, e: int, phase: int, window_size: int) -> Seq<(i64, i64)>
    decreases e - cur,
{
    if window_size <= 0 || cur >= e || phase < 0 || phase >= window_size {
        Seq::empty()
    } else {
        let take = int_min(window_size - phase, e - cur);
        seq![(cur as i64, (cur + take) as i64)] + cut_pieces(
            cur + take,
            e,
            if take == window_size - phase { 0 } else { phase + take },
            window_size,
        )
    }
}

/// The pieces of row `i`: from left to right, on the negative strand from
/// right to left.
pub open spec fn window_pieces(
    chrs: Seq<i64>,
    starts: Seq<i64>,
    ends: Seq<i64>,
    negative_strand: Seq<bool>,
    window_size: i64,
    i: int,
) -> Seq<(i64, i64)> {
    let cut = cut_pieces(
        starts[i] as int,
        ends[i] as int,
        window_phase(chrs, starts, ends, negative_strand, window_size as int, i),
        window_size as int,
    );
    if negative_strand[i] {
        cut.reverse()
    } else {
        cut
    }
}

/// A piece of a row.
pub struct Piece {
    pub start: i64,
    pub end: i64,
    pub row: usize,
}

/// The pieces of one row, each with the row.
pub open spec fn pieces_of_row(cut: Seq<(i64, i64)>, row: usize) -> Seq<Piece> {
    Seq::new(cut.len(), |k: int| Piece { start: cut[k].0, end: cut[k].1, row })
}

/// The pieces of the first `t` rows.
pub open spec fn windows_upto(
    chrs: Seq<i64>,
    starts: Seq<i64>,
    ends: Seq<i64>,
    negative_strand: Seq<bool>,
    window_size: i64,
    t: int,
) -> Seq<Piece>
    decreases t,
{
    if t <= 0 {
        Seq::empty()
    } else {
        windows_upto(chrs, starts, ends, negative_strand, window_size, t - 1) + pieces_of_row(
            window_pieces(chrs, starts, ends, negative_strand, window_size, t - 1),
            (t - 1) as usize,
        )
    }
}

/// The pieces of `s..e` when a cut is made wherever a window is full.
fn cut_row(s: i64, e: i64, phase: i64, window_size: i64) -> (out: (Vec<(i64, i64)>, i64))
    requires
        window_size > 0,
        0 <= phase < window_size,
    ensures
        out.0@ == cut_pieces(s as int, e as int, phase as int, window_size as int),
        0 <= out.1 < window_size,
        out.1 == (phase + (if e > s { e - s } else { 0 })) % (window_size as int),
{
    let mut segs: Vec<(i64, i64)> = Vec::new();
    let ghost all = cut_pieces(s as int, e as int, phase as int, window_size as int);
    if e <= s {
        proof {
            lemma_small_mod(phase as nat, window_size as nat);
        }
        return (segs, phase);
    }
    let mut cur = s;
    let mut filled = phase;
    assert(segs@ + all =~= all);
    proof {
        lemma_small_mod(phase as nat, window_size as nat);
    }
    while cur < e
        invariant
            window_size > 0,
            s <= cur <= e,
            0 <= filled < window_size,
            segs@ + cut_pieces(cur as int, e as int, filled as int, window_size as int) == all,
            filled as int == (phase + (cur - s)) % (window_size as int),
        decreases e - cur,
    {
        let need = window_size - filled;
        let left: i128 = e as i128 - cur as i128;
        let take: i64 = if (need as i128) <= left {
            need
        } else {
            (e - cur) as i64
        };
        let next = cur + take;
        let ghost before = segs@;
        segs.push((cur, next));
        let ghost was = filled;
        filled = if take == need { 0 } else { filled + take };
        proof {
            let rest = cut_pieces(next as int, e as int, filled as int, window_size as int);
            assert(segs@ + rest =~= before + (seq![(cur, next)] + rest));
            lemma_add_mod_noop(phase + (cur - s), take as int, window_size as int);
            lemma_mod_bound(take as int, window_size as int);
            if take == need {
                assert((was + take) % (window_size as int) == 0) by {
                    lemma_fundamental_div_mod_converse(
                        window_size as int,
                        window_size as int,
                        1,
                        0,
                    );
                }
                if take < window_size {
                    lemma_small_mod(take as nat, window_size as nat);
                } else {
                    lemma_small_mod(0, window_size as nat);
                    lemma_fundamental_div_mod_converse(
                        take as int,
                        window_size as int,
                        1,
                        0,
                    );
                }
            } else {
                lemma_small_mod(take as nat, window_size as nat);
                lemma_small_mod((was + take) as nat, window_size as nat);
            }
        }
        cur = next;
    }
    assert(segs@ + Seq::<(i64, i64)>::empty() =~= segs@);
    (segs, filled)
}

/// How far into a window the rows from `from` up to `to` of one strand
/// reach when laid end to end.
fn strand_phase(
    starts: &[i64],
    ends: &[i64],
    negative_strand: &[bool],
    from: usize,
    to: usize,
    negative: bool,
    window_size: i64,
) -> (phase: i64)
    requires
        starts.len() == ends.len(),
        starts.len() == negative_strand.len(),
        from <= to <= starts.len(),
        window_size > 0,
    ensures
        0 <= phase < window_size,
        phase == strand_length(starts@, ends@, negative_strand@, from as int, to as int, negative)
            % (window_size as int),
{
    let mut phase: i64 = 0;
    let mut i = from;
    proof {
        lemma_small_mod(0, window_size as nat);
    }
    while i < to
        invariant
            starts.len() == ends.len(),
            starts.len() == negative_strand.len(),
            from <= i <= to,
            to <= starts.len(),
            window_size > 0,
            0 <= phase < window_size,
            phase == strand_length(
                starts@,
                ends@,
                negative_strand@,
                from as int,
                i as int,
                negative,
            ) % (window_size as int),
        decreases to - i,
    {
        if negative_strand[i] == negative && ends[i] > starts[i] {
            let len: i128 = ends[i] as i128 - starts[i] as i128;
            let sum: i128 = phase as i128 + len % (window_size as i128);
            let ghost total = strand_length(
                starts@,
                ends@,
                negative_strand@,
                from as int,
                i as int,
                negative,
            );
            proof {
                lemma_mod_bound(len as int, window_size as int);
                lemma_add_mod_noop(total, len as int, window_size as int);
                lemma_mod_bound(sum as int, window_size as int);
            }
            phase = (sum % (window_size as i128)) as i64;
        }
        i += 1;
    }
    phase
}

/// Cuts the rows of each group into windows of `window_size`, counted along
/// the rows of the group laid end to end, and returns the pieces as three
/// columns: start, end and row. Rows that do not lie on the negative strand
/// are counted from the start of the first of them, so that a window may
/// run over from one row into the next. Rows on the negative strand are
/// counted so that the last window is complete and the first may be
/// short; their pieces come from right to left. A group is a run of rows
/// with one group key. A row without length has no pieces.
pub fn window_grouped(
    chrs: &[i64],
    starts: &[i64],
    ends: &[i64],
    negative_strand: &[bool],
    window_size: i64,
) -> (out: (Vec<i64>, Vec<i64>, Vec<usize>))
    requires
        starts.len() == ends.len(),
        starts.len() == negative_strand.len(),
        starts.len() == chrs.len(),
        window_size > 0,
    ensures
        ({
            let found = windows_upto(
                chrs@,
                starts@,
                ends@,
                negative_strand@,
                window_size,
                starts.len() as int,
            );
            &&& out.0@ == Seq::new(found.len(), |k: int| found[k].start)
            &&& out.1@ == Seq::new(found.len(), |k: int| found[k].end)
            &&& out.2@ == Seq::new(found.len(), |k: int| found[k].row)
        }),
{
    let n = starts.len();
    let mut found: Vec<Piece> = Vec::new();
    let mut g_start: usize = 0;
    while g_start < n
        invariant
            g_start <= n,
            n == starts.len(),
            n == ends.len(),
            n == negative_strand.len(),
            n == chrs.len(),
            window_size > 0,
            g_start < n ==> run_begin(chrs@, g_start as int) == g_start,
            found@ == windows_upto(
                chrs@,
                starts@,
                ends@,
                negative_strand@,
                window_size,
                g_start as int,
            ),
        decreases n - g_start,
    {
        let mut g_end = g_start + 1;
        while g_end < n && chrs[g_end] == chrs[g_start]
            invariant
                g_start < g_end <= n,
                n == chrs.len(),
                forall|j: int| g_start <= j < g_end ==> #[trigger] chrs[j] == chrs[g_start as int],
                run_end(chrs@, g_end - 1) == run_end(chrs@, g_start as int),
            decreases n - g_end,
        {
            g_end += 1;
        }
        assert(run_end(chrs@, g_start as int) == g_end);
        let total_minus = strand_phase(
            starts,
            ends,
            negative_strand,
            g_start,
            g_end,
            true,
            window_size,
        );
        let mut carry_plus: i64 = 0;
        let mut carry_minus: i64 = if total_minus == 0 { 0 } else { window_size - total_minus };
        let ghost total = strand_length(
            starts@,
            ends@,
            negative_strand@,
            g_start as int,
            g_end as int,
            true,
        );
        proof {
            lemma_small_mod(0, window_size as nat);
            lemma_minus_phase(0, total, window_size as int);
        }
        let mut i = g_start;
        while i < g_end
            invariant
                g_start <= i <= g_end,
                g_end <= n,
                n == starts.len(),
                n == ends.len(),
                n == negative_strand.len(),
                n == chrs.len(),
                window_size > 0,
                run_begin(chrs@, g_start as int) == g_start,
                run_end(chrs@, g_start as int) == g_end,
                forall|j: int| g_start <= j < g_end ==> #[trigger] chrs[j] == chrs[g_start as int],
                total == strand_length(
                    starts@,
                    ends@,
                    negative_strand@,
                    g_start as int,
                    g_end as int,
                    true,
                ),
                0 <= carry_plus < window_size,
                0 <= carry_minus < window_size,
                carry_plus == strand_length(
                    starts@,
                    ends@,
                    negative_strand@,
                    g_start as int,
                    i as int,
                    false,
                ) % (window_size as int),
                carry_minus == (strand_length(
                    starts@,
                    ends@,
                    negative_strand@,
                    g_start as int,
                    i as int,
                    true,
                ) - total) % (window_size as int),
                found@ == windows_upto(
                    chrs@,
                    starts@,
                    ends@,
                    negative_strand@,
                    window_size,
                    i as int,
                ),
            decreases g_end - i,
        {
            proof {
                lemma_run_of(chrs@, g_start as int, g_end as int, i as int);
            }
            let s = starts[i];
            let e = ends[i];
            let ghost before = found@;
            let ghost len = row_length(starts@, ends@, i as int);
            if !negative_strand[i] {
                let ghost sum = strand_length(
                    starts@,
                    ends@,
                    negative_strand@,
                    g_start as int,
                    i as int,
                    false,
                );
                let (segs, next) = cut_row(s, e, carry_plus, window_size);
                proof {
                    lemma_add_mod_noop(sum, len, window_size as int);
                    lemma_add_mod_noop(carry_plus as int, len, window_size as int);
                    lemma_small_mod(carry_plus as nat, window_size as nat);
                }
                carry_plus = next;
                let mut q: usize = 0;
                while q < segs.len()
                    invariant
                        q <= segs.len(),
                        found@ == before + pieces_of_row(segs@, i).take(q as int),
                    decreases segs.len() - q,
                {
                    found.push(Piece { start: segs[q].0, end: segs[q].1, row: i });
                    proof {
                        assert(found@ =~= before + pieces_of_row(segs@, i).take(q + 1));
                    }
                    q += 1;
                }
                assert(pieces_of_row(segs@, i).take(segs.len() as int) =~= pieces_of_row(segs@, i));
            } else {
                let ghost sum = strand_length(
                    starts@,
                    ends@,
                    negative_strand@,
                    g_start as int,
                    i as int,
                    true,
                );
                let (segs, next) = cut_row(s, e, carry_minus, window_size);
                proof {
                    lemma_add_mod_noop(sum - total, len, window_size as int);
                    lemma_add_mod_noop(carry_minus as int, len, window_size as int);
                    lemma_small_mod(carry_minus as nat, window_size as nat);
                }
                carry_minus = next;
                let mut q: usize = segs.len();
                let ghost back = pieces_of_row(segs@.reverse(), i);
                while q > 0
                    invariant
                        q <= segs.len(),
                        back == pieces_of_row(segs@.reverse(), i),
                        found@ == before + back.take(segs.len() - q),
                    decreases q,
                {
                    q -= 1;
                    found.push(Piece { start: segs[q].0, end: segs[q].1, row: i });
                    proof {
                        assert(back[segs.len() - 1 - q] == (Piece {
                            start: segs[q as int].0,
                            end: segs[q as int].1,
                            row: i,
                        }));
                        assert(found@ =~= before + back.take(segs.len() - q));
                    }
                }
                assert(back.take(segs.len() as int) =~= back);
            }
            i += 1;
        }
        proof {
            if g_end < n {
                lemma_run_begins(chrs@, g_start as int, g_end as int);
            }
        }
        g_start = g_end;
    }
    let mut out_starts: Vec<i64> = Vec::new();
    let mut out_ends: Vec<i64> = Vec::new();
    let mut out_indices: Vec<usize> = Vec::new();
    let mut k: usize = 0;
    while k < found.len()
        invariant
            k <= found.len(),
            out_starts.len() == k,
            out_ends.len() == k,
            out_indices.len() == k,
            forall|j: int| 0 <= j < k ==> #[trigger] out_starts[j] == found[j].start,
            forall|j: int| 0 <= j < k ==> #[trigger] out_ends[j] == found[j].end,
            forall|j: int| 0 <= j < k ==> #[trigger] out_indices[j] == found[j].row,
        decreases found.len() - k,
    {
        out_starts.push(found[k].start);
        out_ends.push(found[k].end);
        out_indices.push(found[k].row);
        k += 1;
    }
    proof {
        let all = found@;
        assert(out_starts@ =~= Seq::new(all.len(), |k: int| all[k].start));
        assert(out_ends@ =~= Seq::new(all.len(), |k: int| all[k].end));
        assert(out_indices@ =~= Seq::new(all.len(), |k: int| all[k].row));
    }
    (out_starts, out_ends, out_indices)
}

/// The phase of the negative strand before its first row: what is missing
/// for the summed length to fill its last window.
proof fn lemma_minus_phase(sum: int, total: int, w: int)
    requires
        w > 0,
        sum == 0,
    ensures
        (sum - total) % w == (if total % w == 0 {
            0
        } else {
            w - total % w
        }),
{
    lemma_fundamental_div_mod(total, w);
    lemma_mod_bound(total, w);
    let q = total / w;
    let r = total % w;
    if r == 0 {
        assert(-total == (-q) * w + 0) by (nonlinear_arith)
            requires
                total == w * q + r,
                r == 0,
        ;
        lemma_fundamental_div_mod_converse(-total, w, -q, 0);
    } else {
        assert(-total == (-q - 1) * w + (w - r)) by (nonlinear_arith)
            requires
                total == w * q + r,
        ;
        lemma_fundamental_div_mod_converse(-total, w, -q - 1, w - r);
    }
}

/// Within a run of rows of one group, every row has the run's begin and end.
proof fn lemma_run_of(chrs: Seq<i64>, a: int, b: int, i: int)
    requires
        0 <= a <= i < b <= chrs.len(),
        run_begin(chrs, a) == a,
        run_end(chrs, a) == b,
        forall|j: int| a <= j < b ==> #[trigger] chrs[j] == chrs[a],
    ensures
        run_begin(chrs, i) == a,
        run_end(chrs, i) == b,
    decreases i - a,
{
    if i > a {
        lemma_run_of(chrs, a, b, i - 1);
        assert(chrs[i] == chrs[i - 1]);
        lemma_run_end_step(chrs, a, i);
    }
}

proof fn lemma_run_end_step(chrs: Seq<i64>, a: int, i: int)
    requires
        0 <= a < i < chrs.len(),
        forall|j: int| a <= j <= i ==> #[trigger] chrs[j] == chrs[a],
    ensures
        run_end(chrs, a) == run_end(chrs, i),
    decreases i - a,
{
    if a + 1 < i {
        lemma_run_end_step(chrs, a + 1, i);
        assert(chrs[a + 1] == chrs[a]);
    }
    assert(chrs[a + 1] == chrs[a]);
}

/// Behind a run of rows of one group another run begins.
proof fn lemma_run_begins(chrs: Seq<i64>, a: int, b: int)
    requires
        0 <= a < b < chrs.len(),
        run_end(chrs, a) == b,
        forall|j: int| a <= j < b ==> #[trigger] chrs[j] == chrs[a],
    ensures
        run_begin(chrs, b) == b,
    decreases b - a,
{
    if a + 1 < b {
        assert(chrs[a + 1] == chrs[a]);
        assert(run_end(chrs, a) == run_end(chrs, a + 1));
        assert forall|j: int| a + 1 <= j < b implies #[trigger] chrs[j] == chrs[a + 1] by {
            assert(chrs[j] == chrs[a]);
        }
        lemma_run_begins(chrs, a + 1, b);
    } else {
        lemma_run_end_after(chrs, a + 1);
    }
}

proof fn lemma_run_end_after(chrs: Seq<i64>, i: int)
    ensures
        run_end(chrs, i) > i,
    decreases chrs.len() - i,
{
    if !(i + 1 >= chrs.len() || chrs[i + 1] != chrs[i]) {
        lemma_run_end_after(chrs, i + 1);
    }
}

} // verus!
