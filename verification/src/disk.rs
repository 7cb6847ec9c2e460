//! A disk as a list of segments, each a run of cells of one file or a run
//! of empty cells, and two ways to compact it: cell by cell, and file by
//! file.

use crate::arith::fits;
use vstd::arithmetic::overflow::CheckedU64;
use vstd::multiset::Multiset;
use vstd::prelude::*;

verus! {

/// A segment: its length and the file it belongs to, `None` for empty
/// space.
pub type Block = (u32, Option<usize>);

/// The segments that a dense layout describes: its entries are lengths, in
/// turn of a file and of empty space, and the files are numbered from 0.
pub open spec fn decoded(disk: Seq<u32>) -> Seq<Block> {
    Seq::new(
        disk.len(),
        |i: int|
            (
                disk[i],
                if i % 2 == 0 {
                    Some((i / 2) as usize)
                } else {
                    None
                },
            ),
    )
}

/// The segments of a dense layout.
pub fn decode(disk: &Vec<u32>) -> (blocks: Vec<Block>)
    ensures
        blocks@ == decoded(disk@),
{
    let mut blocks: Vec<Block> = Vec::new();
    let mut i: usize = 0;
    while i < disk.len()
        invariant
            i <= disk.len(),
            blocks.len() == i,
            forall|j: int| 0 <= j < i ==> blocks[j] == decoded(disk@)[j],
        decreases disk.len() - i,
    {
        if i % 2 == 0 {
            blocks.push((disk[i], Some(i / 2)));
        } else {
            blocks.push((disk[i], None));
        }
        i += 1;
    }
    assert(blocks@ =~= decoded(disk@));
    blocks
}

/// The cells of one segment.
pub open spec fn run_of(block: Block) -> Seq<Option<usize>> {
    Seq::new(block.0 as nat, |k: int| block.1)
}

/// The cells of a list of segments, one after the other.
pub open spec fn cells_of(blocks: Seq<Block>) -> Seq<Option<usize>>
    decreases blocks.len(),
{
    if blocks.len() == 0 {
        seq![]
    } else {
        cells_of(blocks.drop_last()) + run_of(blocks.last())
    }
}

/// The cells of a list of segments.
pub fn unfold(blocks: &Vec<Block>) -> (cells: Vec<Option<usize>>)
    ensures
        cells@ == cells_of(blocks@),
{
    let mut cells: Vec<Option<usize>> = Vec::new();
    let mut i: usize = 0;
    while i < blocks.len()
        invariant
            i <= blocks.len(),
            cells@ == cells_of(blocks@.take(i as int)),
        decreases blocks.len() - i,
    {
        let ghost before = cells@;
        let block = blocks[i];
        let mut k: u32 = 0;
        while k < block.0
            invariant
                k <= block.0,
                cells@ == before + Seq::new(k as nat, |j: int| block.1),
            decreases block.0 - k,
        {
            cells.push(block.1);
            assert(cells@ =~= before + Seq::new((k + 1) as nat, |j: int| block.1));
            k += 1;
        }
        assert(blocks@.take(i + 1).drop_last() =~= blocks@.take(i as int));
        i += 1;
    }
    assert(blocks@.take(blocks.len() as int) =~= blocks@);
    cells
}

/// The cells between `lo` and `hi` packed to the left: the leftmost empty
/// cell changes places with the rightmost filled cell, again and again,
/// until no empty cell lies left of a filled one.
pub open spec fn packed(cells: Seq<Option<usize>>, lo: int, hi: int) -> Seq<Option<usize>>
    decreases hi - lo,
{
    if lo < 0 || hi > cells.len() || lo >= hi {
        cells
    } else if cells[lo].is_some() {
        packed(cells, lo + 1, hi)
    } else if cells[hi - 1].is_none() {
        packed(cells, lo, hi - 1)
    } else {
        packed(cells.update(lo, cells[hi - 1]).update(hi - 1, None), lo + 1, hi - 1)
    }
}

/// No empty cell lies left of a filled cell.
pub open spec fn compact(cells: Seq<Option<usize>>) -> bool {
    forall|i: int, j: int|
        0 <= i < j < cells.len() && (#[trigger] cells[i]).is_none() ==> (#[trigger] cells[j]).is_none()
}

proof fn lemma_packed_between(cells: Seq<Option<usize>>, lo: int, hi: int)
    requires
        0 <= lo <= hi <= cells.len(),
        forall|i: int| 0 <= i < lo ==> (#[trigger] cells[i]).is_some(),
        forall|i: int| hi <= i < cells.len() ==> (#[trigger] cells[i]).is_none(),
    ensures
        compact(packed(cells, lo, hi)),
        packed(cells, lo, hi).to_multiset() == cells.to_multiset(),
        packed(cells, lo, hi).len() == cells.len(),
    decreases hi - lo,
{
    broadcast use vstd::multiset::group_multiset_axioms;

    if lo >= hi {
    } else if cells[lo].is_some() {
        lemma_packed_between(cells, lo + 1, hi);
    } else if cells[hi - 1].is_none() {
        lemma_packed_between(cells, lo, hi - 1);
    } else {
        let one = cells.update(lo, cells[hi - 1]);
        let two = one.update(hi - 1, None);
        lemma_packed_between(two, lo + 1, hi - 1);
        vstd::seq_lib::to_multiset_update(cells, lo, cells[hi - 1]);
        vstd::seq_lib::to_multiset_update(one, hi - 1, None);
        vstd::seq_lib::to_multiset_contains(cells, cells[hi - 1]);
        vstd::seq_lib::to_multiset_contains(cells, cells[lo]);
        assert(cells.contains(cells[hi - 1]));
        assert(cells.contains(cells[lo]));
        assert(one[hi - 1] == cells[hi - 1]);
        assert(two.to_multiset() =~= cells.to_multiset());
    }
}

/// Packing the cells neither adds nor loses a cell of any file, and leaves
/// no empty cell left of a filled one.
pub proof fn lemma_packed_is_compact(cells: Seq<Option<usize>>)
    ensures
        compact(packed(cells, 0, cells.len() as int)),
        packed(cells, 0, cells.len() as int).to_multiset() == cells.to_multiset(),
        packed(cells, 0, cells.len() as int).len() == cells.len(),
{
    lemma_packed_between(cells, 0, cells.len() as int);
}

/// Packs the cells to the left, cell by cell.
pub fn pack_cells(cells: &mut Vec<Option<usize>>)
    ensures
        final(cells)@ == packed(old(cells)@, 0, old(cells).len() as int),
        compact(final(cells)@),
        final(cells)@.to_multiset() == old(cells)@.to_multiset(),
{
    proof {
        lemma_packed_is_compact(cells@);
    }
    let mut lo: usize = 0;
    let mut hi: usize = cells.len();
    while lo < hi
        invariant
            lo <= hi <= cells.len(),
            cells.len() == old(cells).len(),
            packed(cells@, lo as int, hi as int) == packed(old(cells)@, 0, old(cells).len() as int),
        decreases hi - lo,
    {
        if cells[lo].is_some() {
            lo += 1;
        } else if cells[hi - 1].is_none() {
            hi -= 1;
        } else {
            let moved = cells[hi - 1];
            cells.set(lo, moved);
            cells.set(hi - 1, None);
            lo += 1;
            hi -= 1;
        }
    }
}

/// The sum of position times file number over the filled cells before
/// position `upto`.
pub open spec fn cell_sum(cells: Seq<Option<usize>>, upto: int) -> int
    decreases upto,
{
    if upto <= 0 {
        0
    } else {
        cell_sum(cells, upto - 1) + match cells[upto - 1] {
            Some(id) => (upto - 1) * id,
            None => 0,
        }
    }
}

/// The checksum of a layout: the sum of position times file number over
/// its filled cells; `None` where it does not fit in 64 bits.
pub fn checksum(cells: &Vec<Option<usize>>) -> (sum: Option<u64>)
    ensures
        fits(sum, cell_sum(cells@, cells.len() as int)),
{
    let mut sum = CheckedU64::new(0);
    let mut i: usize = 0;
    while i < cells.len()
        invariant
            i <= cells.len(),
            sum@ == cell_sum(cells@, i as int),
        decreases cells.len() - i,
    {
        match cells[i] {
            Some(id) => {
                let term = CheckedU64::new(i as u64).mul_value(id as u64);
                sum = sum.add_checked(&term);
            },
            None => {},
        }
        i += 1;
    }
    sum.to_option()
}

/// The checksum of the disk after it is compacted cell by cell.
pub fn part1(disk: &Vec<u32>) -> (sum: Option<u64>)
    ensures
        ({
            let cells = cells_of(decoded(disk@));
            fits(sum, cell_sum(packed(cells, 0, cells.len() as int), cells.len() as int))
        }),
{
    let blocks = decode(disk);
    let mut cells = unfold(&blocks);
    proof {
        lemma_packed_is_compact(cells@);
    }
    pack_cells(&mut cells);
    checksum(&cells)
}

/// The first place from `from` on that holds file `id`, or the number of
/// segments where there is none.
pub open spec fn place_of(blocks: Seq<Block>, id: usize, from: int) -> int
    decreases blocks.len() - from,
{
    if from < 0 || from >= blocks.len() {
        blocks.len() as int
    } else if blocks[from].1 == Some(id) {
        from
    } else {
        place_of(blocks, id, from + 1)
    }
}

/// The first place from `from` on and before `before` that holds empty
/// space of at least `need` cells, or `before` where there is none.
pub open spec fn first_fit(blocks: Seq<Block>, need: u32, before: int, from: int) -> int
    decreases before - from,
{
    if from < 0 || from >= before || from >= blocks.len() {
        before
    } else if blocks[from].1.is_none() && blocks[from].0 >= need {
        from
    } else {
        first_fit(blocks, need, before, from + 1)
    }
}

/// The segments after file `id` has moved into the leftmost empty segment
/// to its left that is large enough. Where the file is shorter than the
/// empty segment, the rest of the segment stays empty; the cells that the
/// file leaves are empty. Where no empty segment fits, nothing changes.
pub open spec fn moved(blocks: Seq<Block>, id: usize) -> Seq<Block> {
    let at = place_of(blocks, id, 0);
    if at >= blocks.len() {
        blocks
    } else {
        let to = first_fit(blocks, blocks[at].0, at, 0);
        if to >= at {
            blocks
        } else if blocks[to].0 == blocks[at].0 {
            blocks.update(to, blocks[at]).update(at, blocks[to])
        } else {
            blocks.update(at, (blocks[at].0, None)).update(
                to,
                ((blocks[to].0 - blocks[at].0) as u32, None),
            ).insert(to, blocks[at])
        }
    }
}

/// The segments after the files below number `files` have moved, each
/// once, from the highest number down.
pub open spec fn compacted(blocks: Seq<Block>, files: nat) -> Seq<Block>
    decreases files,
{
    if files == 0 {
        blocks
    } else {
        compacted(moved(blocks, (files - 1) as usize), (files - 1) as nat)
    }
}

/// What a segment adds to the files of a disk: its file and its length, or
/// nothing where it is empty.
pub open spec fn share(block: Block) -> Multiset<(usize, u32)> {
    match block.1 {
        Some(id) => Multiset::singleton((id, block.0)),
        None => Multiset::empty(),
    }
}

/// The files of a disk with their lengths, whatever their order.
pub open spec fn file_bag(blocks: Seq<Block>) -> Multiset<(usize, u32)>
    decreases blocks.len(),
{
    if blocks.len() == 0 {
        Multiset::empty()
    } else {
        file_bag(blocks.drop_last()).add(share(blocks.last()))
    }
}

proof fn lemma_bag_update(blocks: Seq<Block>, i: int, block: Block)
    requires
        0 <= i < blocks.len(),
    ensures
        file_bag(blocks.update(i, block)).add(share(blocks[i])) == file_bag(blocks).add(share(block)),
    decreases blocks.len(),
{
    broadcast use vstd::multiset::group_multiset_axioms;

    let after = blocks.update(i, block);
    let rest = blocks.drop_last();
    assert(file_bag(after) == file_bag(after.drop_last()).add(share(after.last())));
    assert(file_bag(blocks) == file_bag(rest).add(share(blocks.last())));
    if i == blocks.len() - 1 {
        assert(after.drop_last() =~= rest);
        assert(after.last() == block);
    } else {
        assert(after.drop_last() =~= rest.update(i, block));
        assert(after.last() == blocks.last());
        assert(rest[i] == blocks[i]);
        lemma_bag_update(rest, i, block);
        assert forall|x: (usize, u32)|
            file_bag(after).add(share(blocks[i])).count(x) == file_bag(blocks).add(
                share(block),
            ).count(x) by {
            assert(file_bag(rest.update(i, block)).add(share(rest[i])).count(x) == file_bag(rest).add(
                share(block),
            ).count(x));
        }
    }
    assert(file_bag(after).add(share(blocks[i])) =~= file_bag(blocks).add(share(block)));
}

proof fn lemma_bag_insert(blocks: Seq<Block>, i: int, block: Block)
    requires
        0 <= i <= blocks.len(),
    ensures
        file_bag(blocks.insert(i, block)) == file_bag(blocks).add(share(block)),
    decreases blocks.len(),
{
    broadcast use vstd::multiset::group_multiset_axioms;

    let after = blocks.insert(i, block);
    assert(file_bag(after) == file_bag(after.drop_last()).add(share(after.last())));
    if i == blocks.len() {
        assert(after.drop_last() =~= blocks);
        assert(after.last() == block);
    } else {
        let rest = blocks.drop_last();
        assert(file_bag(blocks) == file_bag(rest).add(share(blocks.last())));
        assert(after.drop_last() =~= rest.insert(i, block));
        assert(after.last() == blocks.last());
        lemma_bag_insert(rest, i, block);
    }
    assert(file_bag(after) =~= file_bag(blocks).add(share(block)));
}

proof fn lemma_place_found(blocks: Seq<Block>, id: usize, from: int)
    requires
        0 <= from <= blocks.len(),
    ensures
        from <= place_of(blocks, id, from) <= blocks.len(),
        place_of(blocks, id, from) < blocks.len() ==> blocks[place_of(blocks, id, from)].1 == Some(
            id,
        ),
    decreases blocks.len() - from,
{
    if from < blocks.len() && blocks[from].1 != Some(id) {
        lemma_place_found(blocks, id, from + 1);
    }
}

proof fn lemma_fit_found(blocks: Seq<Block>, need: u32, before: int, from: int)
    requires
        0 <= from <= before <= blocks.len(),
    ensures
        from <= first_fit(blocks, need, before, from) <= before,
        first_fit(blocks, need, before, from) < before ==> blocks[first_fit(
            blocks,
            need,
            before,
            from,
        )].1.is_none() && blocks[first_fit(blocks, need, before, from)].0 >= need,
    decreases before - from,
{
    if from < before && !(blocks[from].1.is_none() && blocks[from].0 >= need) {
        lemma_fit_found(blocks, need, before, from + 1);
    }
}

/// Moving a file neither adds nor loses a file, and leaves every file its
/// length.
pub proof fn lemma_move_keeps_files(blocks: Seq<Block>, id: usize)
    ensures
        file_bag(moved(blocks, id)) == file_bag(blocks),
{
    broadcast use vstd::multiset::group_multiset_axioms;

    lemma_place_found(blocks, id, 0);
    let at = place_of(blocks, id, 0);
    if at < blocks.len() {
        lemma_fit_found(blocks, blocks[at].0, at, 0);
        let to = first_fit(blocks, blocks[at].0, at, 0);
        if to < at {
            if blocks[to].0 == blocks[at].0 {
                let one = blocks.update(to, blocks[at]);
                let two = one.update(at, blocks[to]);
                lemma_bag_update(blocks, to, blocks[at]);
                lemma_bag_update(one, at, blocks[to]);
                assert(one[at] == blocks[at]);
                assert(moved(blocks, id) == two);
                assert forall|x: (usize, u32)| file_bag(two).count(x) == file_bag(blocks).count(
                    x,
                ) by {
                    assert(file_bag(one).add(share(blocks[to])).count(x) == file_bag(blocks).add(
                        share(blocks[at]),
                    ).count(x));
                    assert(file_bag(two).add(share(one[at])).count(x) == file_bag(one).add(
                        share(blocks[to]),
                    ).count(x));
                }
                assert(file_bag(moved(blocks, id)) =~= file_bag(blocks));
            } else {
                let one = blocks.update(at, (blocks[at].0, None));
                let two = one.update(to, ((blocks[to].0 - blocks[at].0) as u32, None));
                lemma_bag_update(blocks, at, (blocks[at].0, None));
                lemma_bag_update(one, to, ((blocks[to].0 - blocks[at].0) as u32, None));
                lemma_bag_insert(two, to, blocks[at]);
                assert(one[to] == blocks[to]);
                let three = two.insert(to, blocks[at]);
                assert(moved(blocks, id) == three);
                let gone: Block = (blocks[at].0, None);
                let less: Block = ((blocks[to].0 - blocks[at].0) as u32, None);
                assert forall|x: (usize, u32)| file_bag(three).count(x) == file_bag(blocks).count(
                    x,
                ) by {
                    assert(file_bag(one).add(share(blocks[at])).count(x) == file_bag(blocks).add(
                        share(gone),
                    ).count(x));
                    assert(file_bag(two).add(share(one[to])).count(x) == file_bag(one).add(
                        share(less),
                    ).count(x));
                    assert(file_bag(three).count(x) == file_bag(two).add(share(blocks[at])).count(x));
                }
                assert(file_bag(moved(blocks, id)) =~= file_bag(blocks));
            }
        }
    }
}

/// Compacting a disk file by file neither adds nor loses a file, and
/// leaves every file its length.
pub proof fn lemma_compaction_keeps_files(blocks: Seq<Block>, files: nat)
    ensures
        file_bag(compacted(blocks, files)) == file_bag(blocks),
    decreases files,
{
    if files > 0 {
        lemma_move_keeps_files(blocks, (files - 1) as usize);
        lemma_compaction_keeps_files(moved(blocks, (files - 1) as usize), (files - 1) as nat);
    }
}

/// Moves file `id` into the leftmost empty segment to its left that is
/// large enough, if there is one.
pub fn move_file(blocks: &mut Vec<Block>, id: usize)
    ensures
        final(blocks)@ == moved(old(blocks)@, id),
        file_bag(final(blocks)@) == file_bag(old(blocks)@),
{
    proof {
        lemma_move_keeps_files(blocks@, id);
    }
    let mut at: usize = 0;
    while at < blocks.len() && !(blocks[at].1.is_some() && blocks[at].1.unwrap() == id)
        invariant
            at <= blocks.len(),
            blocks@ == old(blocks)@,
            place_of(blocks@, id, at as int) == place_of(blocks@, id, 0),
        decreases blocks.len() - at,
    {
        at += 1;
    }
    if at >= blocks.len() {
        return ;
    }
    let file = blocks[at];
    let mut to: usize = 0;
    while to < at && !(blocks[to].1.is_none() && blocks[to].0 >= file.0)
        invariant
            to <= at < blocks.len(),
            blocks@ == old(blocks)@,
            file == blocks[at as int],
            first_fit(blocks@, file.0, at as int, to as int) == first_fit(
                blocks@,
                file.0,
                at as int,
                0,
            ),
        decreases at - to,
    {
        to += 1;
    }
    if to >= at {
        return ;
    }
    let space = blocks[to];
    if space.0 == file.0 {
        blocks.set(to, file);
        blocks.set(at, space);
    } else {
        blocks.set(at, (file.0, None));
        blocks.set(to, (space.0 - file.0, None));
        blocks.insert(to, file);
    }
}

/// Compacts the disk file by file: the files below number `files` move,
/// each once, from the highest number down.
pub fn compact_files(blocks: &mut Vec<Block>, files: usize)
    ensures
        final(blocks)@ == compacted(old(blocks)@, files as nat),
        file_bag(final(blocks)@) == file_bag(old(blocks)@),
{
    let mut id = files;
    while id > 0
        invariant
            id <= files,
            compacted(blocks@, id as nat) == compacted(old(blocks)@, files as nat),
            file_bag(blocks@) == file_bag(old(blocks)@),
        decreases id,
    {
        id -= 1;
        move_file(blocks, id);
    }
}

/// The number of files of a dense layout.
pub open spec fn file_count(disk: Seq<u32>) -> nat {
    ((disk.len() + 1) / 2) as nat
}

/// The checksum of the disk after it is compacted file by file.
pub fn part2(disk: &Vec<u32>) -> (sum: Option<u64>)
    ensures
        ({
            let cells = cells_of(compacted(decoded(disk@), file_count(disk@)));
            fits(sum, cell_sum(cells, cells.len() as int))
        }),
{
    let mut blocks = decode(disk);
    let files = disk.len() / 2 + disk.len() % 2;
    compact_files(&mut blocks, files);
    let cells = unfold(&blocks);
    checksum(&cells)
}

} // verus!
