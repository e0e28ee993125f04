//! What a move makes of a grid, and what holds of every move.

use crate::direction::Direction;
use crate::layout::{
    all_below, cell_of, empty_at, has_empty, height_of, is_grid, lemma_below_by_lines,
    lemma_equal_by_lines, lemma_line_below, line_count, line_index, line_len, line_of, line_offset,
    width_of, with_line,
};
use crate::line::{
    compacted, lemma_gap_survives_slide, lemma_merge_raises_bound, lemma_short_has_gap,
    lemma_slide_keeps_bound, line_below, material, merge_count, merge_preserves_material, merged,
    slide_is_idempotent, slide_preserves_tiles, tiles,
};
use vstd::prelude::*;

verus! {

/// The grid with `f` applied to each of the first `k` lines of direction
/// `d`.
pub open spec fn map_lines_upto(
    rows: Seq<Seq<u8>>,
    d: Direction,
    f: spec_fn(Seq<u8>) -> Seq<u8>,
    k: int,
) -> Seq<Seq<u8>> {
    Seq::new(
        rows.len(),
        |r: int|
            Seq::new(
                rows[0].len(),
                |c: int|
                    if line_index(d, r, c) < k {
                        f(line_of(rows, d, line_index(d, r, c)))[line_offset(
                            d,
                            width_of(rows),
                            height_of(rows),
                            r,
                            c,
                        )]
                    } else {
                        rows[r][c]
                    },
            ),
    )
}

/// The grid with `f` applied to every line of direction `d`.
pub open spec fn map_lines(rows: Seq<Seq<u8>>, d: Direction, f: spec_fn(Seq<u8>) -> Seq<u8>) -> Seq<
    Seq<u8>,
> {
    map_lines_upto(rows, d, f, line_count(d, width_of(rows), height_of(rows)))
}

/// Compaction of a line, as a function.
pub open spec fn compaction() -> spec_fn(Seq<u8>) -> Seq<u8> {
    |line: Seq<u8>| compacted(line)
}

/// One merging pass over a line, as a function.
pub open spec fn merging() -> spec_fn(Seq<u8>) -> Seq<u8> {
    |line: Seq<u8>| merged(line)
}

/// The grid after its tiles have slid in direction `d`.
pub open spec fn slid(rows: Seq<Seq<u8>>, d: Direction) -> Seq<Seq<u8>> {
    map_lines(rows, d, compaction())
}

/// The grid after one merging pass over each line of direction `d`.
pub open spec fn merged_lines(rows: Seq<Seq<u8>>, d: Direction) -> Seq<Seq<u8>> {
    map_lines(rows, d, merging())
}

/// The grid after a whole move in direction `d`: the tiles slide, equal
/// neighbours merge, and the tiles slide again to close the gaps.
pub open spec fn shifted(rows: Seq<Seq<u8>>, d: Direction) -> Seq<Seq<u8>> {
    slid(merged_lines(slid(rows, d), d), d)
}

/// `f` keeps the length of every line of direction `d`.
pub open spec fn keeps_lengths(
    rows: Seq<Seq<u8>>,
    d: Direction,
    f: spec_fn(Seq<u8>) -> Seq<u8>,
) -> bool {
    forall|k: int|
        0 <= k < line_count(d, width_of(rows), height_of(rows)) ==> (#[trigger] f(
            line_of(rows, d, k),
        )).len() == line_of(rows, d, k).len()
}

/// Mapping lines keeps the size of the grid.
pub(crate) proof fn lemma_mapped_shape(
    rows: Seq<Seq<u8>>,
    d: Direction,
    f: spec_fn(Seq<u8>) -> Seq<u8>,
    k: int,
)
    requires
        is_grid(rows),
    ensures
        is_grid(map_lines_upto(rows, d, f, k)),
        width_of(map_lines_upto(rows, d, f, k)) == width_of(rows),
        height_of(map_lines_upto(rows, d, f, k)) == height_of(rows),
{
}

/// Mapping none of the lines leaves the grid as it is.
pub(crate) proof fn lemma_mapped_none(
    rows: Seq<Seq<u8>>,
    d: Direction,
    f: spec_fn(Seq<u8>) -> Seq<u8>,
)
    requires
        is_grid(rows),
    ensures
        map_lines_upto(rows, d, f, 0) == rows,
{
    let mapped = map_lines_upto(rows, d, f, 0);
    assert forall|r: int| 0 <= r < rows.len() implies #[trigger] mapped[r] == rows[r] by {
        assert(mapped[r] =~= rows[r]);
    }
    assert(mapped =~= rows);
}

/// Mapping the first `k` lines leaves line `k` as it is.
pub(crate) proof fn lemma_untouched_line(
    rows: Seq<Seq<u8>>,
    d: Direction,
    f: spec_fn(Seq<u8>) -> Seq<u8>,
    k: int,
)
    requires
        is_grid(rows),
        0 <= k < line_count(d, width_of(rows), height_of(rows)),
    ensures
        line_of(map_lines_upto(rows, d, f, k), d, k) == line_of(rows, d, k),
{
    lemma_mapped_shape(rows, d, f, k);
    assert(line_of(map_lines_upto(rows, d, f, k), d, k) =~= line_of(rows, d, k));
}

/// Replacing line `k` by its image, in a grid whose first `k` lines are
/// mapped, gives the grid whose first `k + 1` lines are mapped; it differs
/// from the grid at the start exactly if it did before or line `k` changed.
pub(crate) proof fn lemma_store_mapped(
    rows: Seq<Seq<u8>>,
    d: Direction,
    f: spec_fn(Seq<u8>) -> Seq<u8>,
    k: int,
    next: Seq<Seq<u8>>,
)
    requires
        is_grid(rows),
        0 <= k < line_count(d, width_of(rows), height_of(rows)),
        f(line_of(rows, d, k)).len() == line_of(rows, d, k).len(),
        next == with_line(map_lines_upto(rows, d, f, k), d, k, f(line_of(rows, d, k))),
    ensures
        next == map_lines_upto(rows, d, f, k + 1),
        next != rows <==> map_lines_upto(rows, d, f, k) != rows || f(line_of(rows, d, k))
            != line_of(rows, d, k),
{
    let cur = map_lines_upto(rows, d, f, k);
    let target = map_lines_upto(rows, d, f, k + 1);
    let width = width_of(rows);
    let height = height_of(rows);
    lemma_mapped_shape(rows, d, f, k);
    assert forall|r: int| 0 <= r < height implies #[trigger] next[r] == target[r] by {
        assert(next[r] =~= target[r]);
    }
    assert(next =~= target);
    if next == rows {
        assert forall|r: int| 0 <= r < height implies #[trigger] cur[r] == rows[r] by {
            assert forall|c: int| 0 <= c < width implies cur[r][c] == rows[r][c] by {
                if line_index(d, r, c) != k {
                    assert(next[r][c] == cur[r][c]);
                }
            }
            assert(cur[r] =~= rows[r]);
        }
        assert(cur =~= rows);
        assert forall|i: int| 0 <= i < line_len(d, width, height) implies f(line_of(rows, d, k))[i]
            == line_of(rows, d, k)[i] by {
            let cell = cell_of(d, width, height, k, i);
            assert(next[cell.0][cell.1] == f(line_of(rows, d, k))[i]);
        }
        assert(f(line_of(rows, d, k)) =~= line_of(rows, d, k));
    }
    if cur == rows && f(line_of(rows, d, k)) == line_of(rows, d, k) {
        assert forall|r: int| 0 <= r < height implies #[trigger] next[r] == rows[r] by {
            assert(next[r] =~= rows[r]);
        }
        assert(next =~= rows);
    }
}

/// Line `k` of the mapped grid is the image of line `k`.
proof fn lemma_line_of_mapped(
    rows: Seq<Seq<u8>>,
    d: Direction,
    f: spec_fn(Seq<u8>) -> Seq<u8>,
    k: int,
)
    requires
        is_grid(rows),
        0 <= k < line_count(d, width_of(rows), height_of(rows)),
        f(line_of(rows, d, k)).len() == line_of(rows, d, k).len(),
    ensures
        is_grid(map_lines(rows, d, f)),
        width_of(map_lines(rows, d, f)) == width_of(rows),
        height_of(map_lines(rows, d, f)) == height_of(rows),
        line_of(map_lines(rows, d, f), d, k) == f(line_of(rows, d, k)),
{
    let count = line_count(d, width_of(rows), height_of(rows));
    lemma_mapped_shape(rows, d, f, count);
    assert(line_of(map_lines(rows, d, f), d, k) =~= f(line_of(rows, d, k)));
}

/// Mapping the lines of a grid leaves it as it was exactly when it leaves
/// each line as it was.
proof fn lemma_map_lines_fixed(rows: Seq<Seq<u8>>, d: Direction, f: spec_fn(Seq<u8>) -> Seq<u8>)
    requires
        is_grid(rows),
        keeps_lengths(rows, d, f),
    ensures
        map_lines(rows, d, f) == rows <==> (forall|k: int|
            0 <= k < line_count(d, width_of(rows), height_of(rows)) ==> #[trigger] f(
                line_of(rows, d, k),
            ) == line_of(rows, d, k)),
{
    let count = line_count(d, width_of(rows), height_of(rows));
    let mapped = map_lines(rows, d, f);
    lemma_mapped_shape(rows, d, f, count);
    assert forall|k: int| 0 <= k < count implies #[trigger] line_of(mapped, d, k) == f(
        line_of(rows, d, k),
    ) by {
        lemma_line_of_mapped(rows, d, f, k);
    }
    if forall|k: int| 0 <= k < count ==> #[trigger] f(line_of(rows, d, k)) == line_of(rows, d, k) {
        lemma_equal_by_lines(mapped, rows, d);
    }
}

/// Each line of the grid that has slid is the compaction of that line.
proof fn lemma_slid_lines(rows: Seq<Seq<u8>>, d: Direction)
    requires
        is_grid(rows),
    ensures
        is_grid(slid(rows, d)),
        width_of(slid(rows, d)) == width_of(rows),
        height_of(slid(rows, d)) == height_of(rows),
        forall|k: int|
            0 <= k < line_count(d, width_of(rows), height_of(rows)) ==> #[trigger] line_of(
                slid(rows, d),
                d,
                k,
            ) == compacted(line_of(rows, d, k)),
{
    lemma_mapped_shape(rows, d, compaction(), line_count(d, width_of(rows), height_of(rows)));
    assert forall|k: int|
        0 <= k < line_count(d, width_of(rows), height_of(rows)) implies #[trigger] line_of(
        slid(rows, d),
        d,
        k,
    ) == compacted(line_of(rows, d, k)) by {
        lemma_line_of_mapped(rows, d, compaction(), k);
    }
}

/// Each line of the grid after a merging pass is that line after the pass.
proof fn lemma_merged_lines(rows: Seq<Seq<u8>>, d: Direction)
    requires
        is_grid(rows),
        all_below(rows, u8::MAX as int),
    ensures
        is_grid(merged_lines(rows, d)),
        width_of(merged_lines(rows, d)) == width_of(rows),
        height_of(merged_lines(rows, d)) == height_of(rows),
        forall|k: int|
            0 <= k < line_count(d, width_of(rows), height_of(rows)) ==> #[trigger] line_of(
                merged_lines(rows, d),
                d,
                k,
            ) == merged(line_of(rows, d, k)),
{
    lemma_mapped_shape(rows, d, merging(), line_count(d, width_of(rows), height_of(rows)));
    assert forall|k: int|
        0 <= k < line_count(d, width_of(rows), height_of(rows)) implies #[trigger] line_of(
        merged_lines(rows, d),
        d,
        k,
    ) == merged(line_of(rows, d, k)) by {
        lemma_line_below(rows, d, k, u8::MAX as int);
        merge_preserves_material(line_of(rows, d, k));
        lemma_line_of_mapped(rows, d, merging(), k);
    }
}

/// Sliding keeps the size of the grid and, in each line, the tiles and their
/// order; only their places change.
pub proof fn slide_preserves_tiles_on_grid(rows: Seq<Seq<u8>>, d: Direction, k: int)
    requires
        is_grid(rows),
        0 <= k < line_count(d, width_of(rows), height_of(rows)),
    ensures
        is_grid(slid(rows, d)),
        width_of(slid(rows, d)) == width_of(rows),
        height_of(slid(rows, d)) == height_of(rows),
        tiles(line_of(slid(rows, d), d, k)) == tiles(line_of(rows, d, k)),
        tiles(line_of(slid(rows, d), d, k)).to_multiset() == tiles(line_of(rows, d, k)).to_multiset(),
{
    lemma_slid_lines(rows, d);
    slide_preserves_tiles(line_of(rows, d, k));
}

/// A grid that has slid in a direction is a fixed point of sliding in that
/// direction.
pub proof fn slide_is_idempotent_on_grid(rows: Seq<Seq<u8>>, d: Direction)
    requires
        is_grid(rows),
    ensures
        slid(slid(rows, d), d) == slid(rows, d),
{
    let once = slid(rows, d);
    lemma_slid_lines(rows, d);
    lemma_slid_lines(once, d);
    assert forall|k: int|
        0 <= k < line_count(d, width_of(rows), height_of(rows)) implies #[trigger] line_of(
        slid(once, d),
        d,
        k,
    ) == line_of(once, d, k) by {
        slide_is_idempotent(line_of(rows, d, k));
    }
    lemma_equal_by_lines(slid(once, d), once, d);
}

/// One merging pass keeps, in each line, the sum of the displayed values,
/// and removes exactly one tile for each pair that it merges.
pub proof fn merge_preserves_material_on_grid(rows: Seq<Seq<u8>>, d: Direction, k: int)
    requires
        is_grid(rows),
        all_below(rows, u8::MAX as int),
        0 <= k < line_count(d, width_of(rows), height_of(rows)),
    ensures
        is_grid(merged_lines(rows, d)),
        width_of(merged_lines(rows, d)) == width_of(rows),
        height_of(merged_lines(rows, d)) == height_of(rows),
        material(line_of(merged_lines(rows, d), d, k)) == material(line_of(rows, d, k)),
        tiles(line_of(merged_lines(rows, d), d, k)).len() + merge_count(line_of(rows, d, k))
            == tiles(line_of(rows, d, k)).len(),
{
    lemma_merged_lines(rows, d);
    lemma_line_below(rows, d, k, u8::MAX as int);
    merge_preserves_material(line_of(rows, d, k));
}

/// Sliding brings no exponent into the grid that it did not hold.
pub proof fn slide_keeps_bound(rows: Seq<Seq<u8>>, d: Direction, bound: int)
    requires
        is_grid(rows),
        all_below(rows, bound),
    ensures
        all_below(slid(rows, d), bound),
{
    lemma_slid_lines(rows, d);
    assert(rows[0][0] < bound);
    assert forall|k: int|
        0 <= k < line_count(d, width_of(rows), height_of(rows)) implies line_below(
        #[trigger] line_of(slid(rows, d), d, k),
        bound,
    ) by {
        lemma_line_below(rows, d, k, bound);
        lemma_slide_keeps_bound(line_of(rows, d, k), bound);
    }
    lemma_below_by_lines(slid(rows, d), d, bound);
}

/// A whole move raises no exponent by more than one.
pub proof fn shift_raises_bound(rows: Seq<Seq<u8>>, d: Direction, bound: int)
    requires
        is_grid(rows),
        all_below(rows, bound),
        bound <= u8::MAX,
    ensures
        is_grid(shifted(rows, d)),
        width_of(shifted(rows, d)) == width_of(rows),
        height_of(shifted(rows, d)) == height_of(rows),
        all_below(shifted(rows, d), bound + 1),
{
    let first = slid(rows, d);
    let joined = merged_lines(first, d);
    slide_keeps_bound(rows, d, bound);
    lemma_slid_lines(rows, d);
    lemma_merged_lines(first, d);
    assert(first[0][0] < bound);
    assert forall|k: int|
        0 <= k < line_count(d, width_of(rows), height_of(rows)) implies line_below(
        #[trigger] line_of(joined, d, k),
        bound + 1,
    ) by {
        lemma_line_below(first, d, k, bound);
        lemma_merge_raises_bound(line_of(first, d, k), bound);
    }
    lemma_below_by_lines(joined, d, bound + 1);
    slide_keeps_bound(joined, d, bound + 1);
    lemma_slid_lines(joined, d);
}

/// A whole move changes the grid exactly when its first slide moves a tile
/// or its merging pass merges a pair.
pub proof fn shift_changes_iff_effect(rows: Seq<Seq<u8>>, d: Direction)
    requires
        is_grid(rows),
        all_below(rows, u8::MAX as int),
    ensures
        shifted(rows, d) != rows <==> slid(rows, d) != rows || merged_lines(slid(rows, d), d)
            != slid(rows, d),
{
    let count = line_count(d, width_of(rows), height_of(rows));
    let first = slid(rows, d);
    let joined = merged_lines(first, d);
    let last = slid(joined, d);
    slide_keeps_bound(rows, d, u8::MAX as int);
    lemma_slid_lines(rows, d);
    lemma_merged_lines(first, d);
    lemma_slid_lines(joined, d);
    if last == rows {
        slide_is_idempotent_on_grid(joined, d);
        assert(first == rows);
        if joined != first {
            assert(keeps_lengths(first, d, merging())) by {
                assert forall|k: int| 0 <= k < count implies (#[trigger] merging()(
                    line_of(first, d, k),
                )).len() == line_of(first, d, k).len() by {
                    lemma_line_below(first, d, k, u8::MAX as int);
                    merge_preserves_material(line_of(first, d, k));
                }
            }
            lemma_map_lines_fixed(first, d, merging());
            let k = choose|k: int|
                0 <= k < count && #[trigger] merging()(line_of(first, d, k)) != line_of(first, d, k);
            lemma_line_below(first, d, k, u8::MAX as int);
            merge_preserves_material(line_of(first, d, k));
            slide_preserves_tiles(line_of(joined, d, k));
            assert(line_of(last, d, k) == compacted(line_of(joined, d, k)));
            assert(false);
        }
    }
    if first == rows && joined == first {
        assert(last == rows);
    }
}

/// A move leaves as many empty cells as it found, or more: a grid with an
/// empty cell has one after the move.
pub proof fn shift_keeps_gap(rows: Seq<Seq<u8>>, d: Direction)
    requires
        is_grid(rows),
        all_below(rows, u8::MAX as int),
        has_empty(rows),
    ensures
        has_empty(shifted(rows, d)),
{
    let width = width_of(rows);
    let height = height_of(rows);
    let first = slid(rows, d);
    let joined = merged_lines(first, d);
    let last = slid(joined, d);
    slide_keeps_bound(rows, d, u8::MAX as int);
    lemma_slid_lines(rows, d);
    lemma_merged_lines(first, d);
    lemma_slid_lines(joined, d);
    let (row, col) = choose|row: int, col: int| empty_at(rows, row, col);
    let k = line_index(d, row, col);
    let i = line_offset(d, width, height, row, col);
    assert(line_of(rows, d, k)[i] == 0);
    lemma_gap_survives_slide(line_of(rows, d, k), i);
    slide_preserves_tiles(line_of(rows, d, k));
    lemma_line_below(first, d, k, u8::MAX as int);
    merge_preserves_material(line_of(first, d, k));
    lemma_short_has_gap(line_of(joined, d, k));
    let j = choose|j: int| 0 <= j < line_of(joined, d, k).len() && line_of(joined, d, k)[j] == 0;
    lemma_gap_survives_slide(line_of(joined, d, k), j);
    let end = line_len(d, width, height) - 1;
    let cell = cell_of(d, width, height, k, end);
    assert(line_of(last, d, k)[end] == 0);
    assert(last[cell.0][cell.1] == 0);
    assert(empty_at(last, cell.0, cell.1));
}

} // verus!
