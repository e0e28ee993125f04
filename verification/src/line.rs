//! One line of tiles: compaction toward the front and merging of equal
//! neighbours.
//!
//! A line is a row or a column of the grid read in the direction of the move,
//! so that every move slides toward index 0.

use vstd::arithmetic::power2::{lemma_pow2_unfold, pow2};
use vstd::prelude::*;

verus! {

/// Whether a cell with exponent `e` holds a tile.
pub open spec fn occupied(e: u8) -> bool {
    e != 0
}

/// `occupied` as a predicate that can be handed to `Seq::filter`.
pub open spec fn occupied_pred() -> spec_fn(u8) -> bool {
    |e: u8| occupied(e)
}

/// The tiles of a line in order, empty cells left out.
pub open spec fn tiles(line: Seq<u8>) -> Seq<u8> {
    line.filter(occupied_pred())
}

/// The line with its tiles moved to the front in their order, and the rest
/// empty.
pub open spec fn compacted(line: Seq<u8>) -> Seq<u8> {
    Seq::new(
        line.len(),
        |i: int|
            if i < tiles(line).len() {
                tiles(line)[i]
            } else {
                0u8
            },
    )
}

/// The displayed value of a cell: `2^e` for a tile, nothing for an empty
/// cell.
pub open spec fn tile_value(e: u8) -> nat {
    if occupied(e) {
        pow2(e as nat)
    } else {
        0
    }
}

/// The sum of the displayed values of a line.
pub open spec fn material(line: Seq<u8>) -> nat
    decreases line.len(),
{
    if line.len() == 0 {
        0
    } else {
        tile_value(line[0]) + material(line.skip(1))
    }
}

/// Whether the first two cells of the line hold equal tiles.
pub open spec fn pair_at_front(line: Seq<u8>) -> bool {
    line.len() >= 2 && occupied(line[0]) && line[0] == line[1]
}

/// The line after one merging pass from the front: of two equal neighbouring
/// tiles the first grows by one exponent and the second is emptied, and the
/// pass goes on behind both, so that a tile made by a merge is not merged
/// again.
pub open spec fn merged(line: Seq<u8>) -> Seq<u8>
    decreases line.len(),
{
    if line.len() < 2 {
        line
    } else if pair_at_front(line) {
        seq![(line[0] + 1) as u8, 0u8] + merged(line.skip(2))
    } else {
        seq![line[0]] + merged(line.skip(1))
    }
}

/// How many pairs one merging pass combines.
pub open spec fn merge_count(line: Seq<u8>) -> nat
    decreases line.len(),
{
    if line.len() < 2 {
        0
    } else if pair_at_front(line) {
        1 + merge_count(line.skip(2))
    } else {
        merge_count(line.skip(1))
    }
}

/// Every exponent of the line is below `bound`.
pub open spec fn line_below(line: Seq<u8>, bound: int) -> bool {
    forall|i: int| 0 <= i < line.len() ==> line[i] < bound
}

/// The tiles of a line with one more cell at its end.
proof fn lemma_tiles_push(line: Seq<u8>, e: u8)
    ensures
        tiles(line.push(e)) == if occupied(e) {
            tiles(line).push(e)
        } else {
            tiles(line)
        },
{
    reveal(Seq::filter);
    assert(line.push(e).drop_last() =~= line);
}

/// The tiles of two lines joined are the tiles of the first, then those of
/// the second.
proof fn lemma_tiles_concat(a: Seq<u8>, b: Seq<u8>)
    ensures
        tiles(a + b) == tiles(a) + tiles(b),
{
    Seq::filter_distributes_over_add(a, b, occupied_pred());
}

/// A line has no more tiles than cells, and none of its tiles is empty.
proof fn lemma_tiles_are_occupied(line: Seq<u8>)
    ensures
        tiles(line).len() <= line.len(),
        forall|i: int| 0 <= i < tiles(line).len() ==> occupied(#[trigger] tiles(line)[i]),
{
    line.lemma_filter_len(occupied_pred());
    assert forall|i: int| 0 <= i < tiles(line).len() implies occupied(#[trigger] tiles(line)[i]) by {
        line.lemma_filter_pred(occupied_pred(), i);
    }
}

/// A line without empty cells is the sequence of its tiles.
proof fn lemma_tiles_of_full(line: Seq<u8>)
    requires
        forall|i: int| 0 <= i < line.len() ==> occupied(#[trigger] line[i]),
    ensures
        tiles(line) == line,
    decreases line.len(),
{
    reveal(Seq::filter);
    if line.len() > 0 {
        lemma_tiles_of_full(line.drop_last());
        assert(line.drop_last().push(line.last()) =~= line);
    }
}

/// A line has no tiles exactly when all its cells are empty.
proof fn lemma_tiles_of_blank(line: Seq<u8>)
    ensures
        tiles(line).len() == 0 <==> (forall|i: int| 0 <= i < line.len() ==> #[trigger] line[i] == 0),
    decreases line.len(),
{
    reveal(Seq::filter);
    if line.len() > 0 {
        lemma_tiles_of_blank(line.drop_last());
        if tiles(line).len() == 0 {
            assert forall|i: int| 0 <= i < line.len() implies #[trigger] line[i] == 0 by {
                if i < line.len() - 1 {
                    assert(line.drop_last()[i] == line[i]);
                }
            }
        }
        if forall|i: int| 0 <= i < line.len() ==> #[trigger] line[i] == 0 {
            assert(line.last() == 0);
            let front = line.drop_last();
            assert forall|i: int| 0 <= i < front.len() implies #[trigger] front[i] == 0 by {
                assert(front[i] == line[i]);
            }
        }
    }
}

/// The tiles of a line of one cell.
proof fn lemma_tiles_of_one(e: u8)
    ensures
        tiles(seq![e]) == if occupied(e) {
            seq![e]
        } else {
            Seq::<u8>::empty()
        },
{
    reveal(Seq::filter);
    assert(tiles(Seq::<u8>::empty()) =~= Seq::<u8>::empty());
    lemma_tiles_push(Seq::<u8>::empty(), e);
    assert(Seq::<u8>::empty().push(e) =~= seq![e]);
}

/// A line has the tiles of its rest, and one more if its first cell holds a
/// tile.
proof fn lemma_tiles_cons(e: u8, rest: Seq<u8>)
    ensures
        tiles(seq![e] + rest).len() == tiles(rest).len() + if occupied(e) {
            1nat
        } else {
            0nat
        },
{
    lemma_tiles_concat(seq![e], rest);
    lemma_tiles_of_one(e);
}

/// The material of a line is the value of its first cell and the material
/// of the rest.
proof fn lemma_material_cons(e: u8, rest: Seq<u8>)
    ensures
        material(seq![e] + rest) == tile_value(e) + material(rest),
{
    assert((seq![e] + rest).skip(1) =~= rest);
}

/// A line equals its compaction exactly when its tiles already stand at the
/// front.
proof fn lemma_compacted_fixed(line: Seq<u8>)
    ensures
        tiles(line).len() <= line.len(),
        compacted(line) == line <==> line.subrange(0, tiles(line).len() as int) == tiles(line),
{
    lemma_tiles_are_occupied(line);
    let count = tiles(line).len() as int;
    let front = line.subrange(0, count);
    let back = line.subrange(count, line.len() as int);
    assert(front + back =~= line);
    lemma_tiles_concat(front, back);
    if compacted(line) == line {
        assert(front =~= tiles(line));
    }
    if front == tiles(line) {
        lemma_tiles_of_full(front);
        assert(tiles(back).len() == 0);
        lemma_tiles_of_blank(back);
        assert forall|i: int| 0 <= i < line.len() implies compacted(line)[i] == line[i] by {
            if i >= count {
                assert(back[i - count] == line[i]);
            } else {
                assert(front[i] == line[i]);
            }
        }
        assert(compacted(line) =~= line);
    }
}

/// Compaction neither adds, drops nor reorders tiles: the tiles of the
/// compacted line are those of the line, in the same order, and so the same
/// multiset of values.
pub proof fn slide_preserves_tiles(line: Seq<u8>)
    ensures
        compacted(line).len() == line.len(),
        tiles(compacted(line)) == tiles(line),
        tiles(compacted(line)).to_multiset() == tiles(line).to_multiset(),
{
    lemma_tiles_are_occupied(line);
    let count = tiles(line).len() as int;
    let blank = Seq::new((line.len() - count) as nat, |i: int| 0u8);
    assert(compacted(line) =~= tiles(line) + blank);
    lemma_tiles_concat(tiles(line), blank);
    lemma_tiles_of_full(tiles(line));
    lemma_tiles_of_blank(blank);
    assert(tiles(blank) =~= Seq::<u8>::empty());
    assert(tiles(line) + tiles(blank) =~= tiles(line));
}

/// A compacted line is a fixed point of compaction: sliding twice gives what
/// sliding once gives.
pub proof fn slide_is_idempotent(line: Seq<u8>)
    ensures
        compacted(compacted(line)) == compacted(line),
{
    slide_preserves_tiles(line);
    assert(compacted(compacted(line)) =~= compacted(line));
}

/// One merging pass keeps the length of the line and the sum of its
/// displayed values, since two tiles of value `v` become one of value `2v`.
/// Each merge removes exactly one tile, and the line is left as it was
/// exactly when no pair was merged.
pub proof fn merge_preserves_material(line: Seq<u8>)
    requires
        line_below(line, u8::MAX as int),
    ensures
        merged(line).len() == line.len(),
        material(merged(line)) == material(line),
        tiles(merged(line)).len() + merge_count(line) == tiles(line).len(),
        merge_count(line) == 0 <==> merged(line) == line,
    decreases line.len(),
{
    if line.len() >= 2 {
        let e = line[0];
        if pair_at_front(line) {
            let rest = line.skip(2);
            let grown = (e + 1) as u8;
            assert(line =~= seq![e] + (seq![e] + rest));
            assert(merged(line) =~= seq![grown] + (seq![0u8] + merged(rest)));
            assert(line_below(rest, u8::MAX as int)) by {
                assert forall|i: int| 0 <= i < rest.len() implies rest[i] < u8::MAX as int by {
                    assert(rest[i] == line[i + 2]);
                }
            }
            merge_preserves_material(rest);
            lemma_material_cons(e, seq![e] + rest);
            lemma_material_cons(e, rest);
            lemma_material_cons(grown, seq![0u8] + merged(rest));
            lemma_material_cons(0u8, merged(rest));
            lemma_pow2_unfold(grown as nat);
            lemma_tiles_cons(e, seq![e] + rest);
            lemma_tiles_cons(e, rest);
            lemma_tiles_cons(grown, seq![0u8] + merged(rest));
            lemma_tiles_cons(0u8, merged(rest));
            assert(merged(line)[1] != line[1]);
        } else {
            let rest = line.skip(1);
            assert(line =~= seq![e] + rest);
            assert(line_below(rest, u8::MAX as int)) by {
                assert forall|i: int| 0 <= i < rest.len() implies rest[i] < u8::MAX as int by {
                    assert(rest[i] == line[i + 1]);
                }
            }
            merge_preserves_material(rest);
            lemma_material_cons(e, rest);
            lemma_material_cons(e, merged(rest));
            lemma_tiles_cons(e, rest);
            lemma_tiles_cons(e, merged(rest));
            if merged(line) == line {
                assert(merged(rest) =~= merged(line).skip(1));
            }
        }
    }
}

/// A line with an empty cell has fewer tiles than cells, and so its
/// compaction ends in an empty cell.
pub(crate) proof fn lemma_gap_survives_slide(line: Seq<u8>, i: int)
    requires
        0 <= i < line.len(),
        line[i] == 0,
    ensures
        tiles(line).len() < line.len(),
        compacted(line).last() == 0,
{
    let front = line.subrange(0, i);
    let back = line.subrange(i + 1, line.len() as int);
    assert(line =~= front + (seq![0u8] + back));
    lemma_tiles_concat(front, seq![0u8] + back);
    lemma_tiles_concat(seq![0u8], back);
    lemma_tiles_of_one(0u8);
    lemma_tiles_are_occupied(front);
    lemma_tiles_are_occupied(back);
}

/// A line with fewer tiles than cells has an empty cell.
pub(crate) proof fn lemma_short_has_gap(line: Seq<u8>)
    requires
        tiles(line).len() < line.len(),
    ensures
        exists|i: int| 0 <= i < line.len() && line[i] == 0,
{
    if forall|i: int| 0 <= i < line.len() ==> occupied(#[trigger] line[i]) {
        lemma_tiles_of_full(line);
    }
}

/// Compaction brings no exponent into a line that it did not hold.
pub(crate) proof fn lemma_slide_keeps_bound(line: Seq<u8>, bound: int)
    requires
        line_below(line, bound),
        bound > 0,
    ensures
        line_below(compacted(line), bound),
{
    assert forall|i: int| 0 <= i < compacted(line).len() implies compacted(line)[i] < bound by {
        if i < tiles(line).len() {
            let e = tiles(line)[i];
            assert(tiles(line).contains(e));
            line.lemma_filter_contains_rev(occupied_pred(), e);
            let j = line.index_of(e);
            assert(line[j] == e);
        }
    }
}

/// One merging pass raises no exponent by more than one.
pub(crate) proof fn lemma_merge_raises_bound(line: Seq<u8>, bound: int)
    requires
        line_below(line, bound),
        0 < bound <= u8::MAX,
    ensures
        line_below(merged(line), bound + 1),
    decreases line.len(),
{
    if line.len() >= 2 {
        let rest = if pair_at_front(line) {
            line.skip(2)
        } else {
            line.skip(1)
        };
        let done = line.len() - rest.len();
        assert forall|i: int| 0 <= i < rest.len() implies rest[i] < bound by {
            assert(rest[i] == line[i + done]);
        }
        lemma_merge_raises_bound(rest, bound);
        merge_preserves_material(rest);
        assert forall|i: int| 0 <= i < merged(line).len() implies merged(line)[i] < bound + 1 by {
            if i >= done {
                assert(merged(line)[i] == merged(rest)[i - done]);
            }
        }
    }
}

/// Moves the tiles of `line` to the front, keeping their order, and empties
/// the cells behind them. Returns whether any tile changed its position.
pub fn slide(line: &mut Vec<u8>) -> (moved: bool)
    ensures
        final(line)@ == compacted(old(line)@),
        moved == (final(line)@ != old(line)@),
{
    let ghost before = line@;
    let n = line.len();
    let mut moved = false;
    let mut count: usize = 0;
    let mut j: usize = 0;
    while j < n
        invariant
            line@.len() == n,
            before.len() == n,
            count <= j <= n,
            tiles(before.subrange(0, j as int)) == line@.subrange(0, count as int),
            forall|k: int| j <= k < n ==> line@[k] == before[k],
            moved == (before.subrange(0, count as int) != line@.subrange(0, count as int)),
        decreases n - j,
    {
        let e = line[j];
        proof {
            assert(before.subrange(0, j + 1) =~= before.subrange(0, j as int).push(e));
            lemma_tiles_push(before.subrange(0, j as int), e);
        }
        if e != 0 {
            let ghost seen = line@.subrange(0, count as int);
            if count != j {
                moved = true;
                line[count] = e;
                proof {
                    if before.subrange(0, count + 1) == seen.push(e) {
                        let head = before.subrange(0, count + 1);
                        let tail = before.subrange(count + 1, j as int);
                        lemma_tiles_are_occupied(before.subrange(0, j as int));
                        assert forall|i: int| 0 <= i < head.len() implies occupied(
                            #[trigger] head[i],
                        ) by {
                            if i < count {
                                assert(head[i] == seen[i]);
                            }
                        }
                        lemma_tiles_of_full(head);
                        assert(head + tail =~= before.subrange(0, j as int));
                        lemma_tiles_concat(head, tail);
                        assert(false);
                    }
                }
            } else {
                proof {
                    assert(before.subrange(0, count + 1) =~= before.subrange(0, count as int).push(e));
                    if before.subrange(0, count + 1) == seen.push(e) {
                        let longer = before.subrange(0, count + 1);
                        assert(before.subrange(0, count as int) =~= longer.drop_last());
                        assert(seen =~= seen.push(e).drop_last());
                    }
                }
            }
            count += 1;
            assert(line@.subrange(0, count as int) =~= seen.push(e));
        }
        j += 1;
    }
    assert(before.subrange(0, n as int) =~= before);
    let mut k: usize = count;
    while k < n
        invariant
            line@.len() == n,
            count <= k <= n,
            tiles(before) == line@.subrange(0, count as int),
            forall|i: int| count <= i < k ==> line@[i] == 0,
        decreases n - k,
    {
        let ghost front = line@.subrange(0, count as int);
        line[k] = 0;
        assert(line@.subrange(0, count as int) =~= front);
        k += 1;
    }
    proof {
        assert(line@ =~= compacted(before));
        lemma_compacted_fixed(before);
    }
    moved
}

/// Merges equal neighbouring tiles of `line` in one pass from the front: the
/// first of the pair grows by one exponent, the second is emptied, and the
/// pass goes on behind both. Returns whether any pair was merged.
pub fn merge(line: &mut Vec<u8>) -> (merged_any: bool)
    requires
        line_below(old(line)@, u8::MAX as int),
    ensures
        final(line)@ == merged(old(line)@),
        merged_any == (final(line)@ != old(line)@),
        merged_any == (merge_count(old(line)@) > 0),
{
    let ghost before = line@;
    let n = line.len();
    let mut merged_any = false;
    let mut i: usize = 0;
    proof {
        assert(before.skip(0) =~= before);
        assert(line@.subrange(0, 0) + merged(before) =~= merged(before));
    }
    while n - i > 1
        invariant
            line@.len() == n,
            before.len() == n,
            i <= n,
            line_below(before, u8::MAX as int),
            forall|k: int| i <= k < n ==> line@[k] == before[k],
            merged(before) == line@.subrange(0, i as int) + merged(before.skip(i as int)),
            merged_any == (line@.subrange(0, i as int) != before.subrange(0, i as int)),
        decreases n - i,
    {
        let ghost done = line@.subrange(0, i as int);
        let ghost rest = before.skip(i as int);
        let e = line[i];
        let next = line[i + 1];
        assert(rest[0] == e && rest[1] == next);
        if e != 0 && e == next {
            line[i] = e + 1;
            line[i + 1] = 0;
            merged_any = true;
            i += 2;
            proof {
                assert(rest.skip(2) =~= before.skip(i as int));
                assert(line@.subrange(0, i as int) =~= done + seq![(e + 1) as u8, 0u8]);
                assert(merged(before) =~= line@.subrange(0, i as int) + merged(before.skip(i as int)));
                assert(line@.subrange(0, i as int)[i - 1] != before.subrange(0, i as int)[i - 1]);
            }
        } else {
            i += 1;
            proof {
                assert(rest.skip(1) =~= before.skip(i as int));
                assert(line@.subrange(0, i as int) =~= done + seq![e]);
                assert(merged(before) =~= line@.subrange(0, i as int) + merged(before.skip(i as int)));
                assert(before.subrange(0, i as int) =~= before.subrange(0, i - 1).push(e));
                assert(line@.subrange(0, i as int) =~= done.push(e));
                if line@.subrange(0, i as int) == before.subrange(0, i as int) {
                    assert(done =~= done.push(e).drop_last());
                    assert(before.subrange(0, i - 1) =~= before.subrange(0, i - 1).push(e).drop_last());
                }
            }
        }
    }
    proof {
        assert(merged(before.skip(i as int)) == before.skip(i as int));
        assert(line@ =~= line@.subrange(0, i as int) + before.skip(i as int));
        assert(before =~= before.subrange(0, i as int) + before.skip(i as int));
        if line@ == before {
            assert(line@.subrange(0, i as int) =~= before.subrange(0, i as int));
        }
        merge_preserves_material(before);
    }
    merged_any
}

} // verus!
