//! One line of cells, seen from the wall its tiles travel toward.
//!
//! Position 0 is the cell at the wall. A move visits the cells of a line from the
//! wall outward; each tile it meets travels toward the wall over the free cells
//! below it and then merges with an equal tile resting right below, if there is one.

use vstd::prelude::*;
use crate::board::UVal;

verus! {

/// Every cell of the line is below the largest value a cell can hold, so that a
/// merge of two of its tiles still fits in a cell.
pub open spec fn has_headroom(line: Seq<UVal>) -> bool {
    forall|i: int| 0 <= i < line.len() ==> #[trigger] line[i] < UVal::MAX
}

/// The tiles that rest at the wall once the first `n` cells of `line` have been
/// visited, from the wall outward: a tile that arrives on an equal tile raises
/// it by one, any other tile comes to rest on top.
pub open spec fn packed(line: Seq<UVal>, n: nat) -> Seq<UVal>
    decreases n,
{
    if n == 0 {
        Seq::empty()
    } else {
        let below = packed(line, (n - 1) as nat);
        let tile = line[n - 1];
        if tile == 0 {
            below
        } else if below.len() > 0 && below.last() == tile {
            below.drop_last().push((tile + 1) as UVal)
        } else {
            below.push(tile)
        }
    }
}

/// The line once its first `n` cells have been visited: the packed tiles at the
/// wall, free cells up to position `n`, and the cells not yet visited as they were.
pub open spec fn swept(line: Seq<UVal>, n: nat) -> Seq<UVal> {
    Seq::new(
        line.len(),
        |i: int|
            if i < packed(line, n).len() {
                packed(line, n)[i]
            } else if i < n {
                0
            } else {
                line[i]
            },
    )
}

/// The line after a whole move.
pub open spec fn collapsed(line: Seq<UVal>) -> Seq<UVal> {
    swept(line, line.len())
}

/// The number of free cells directly below position `i`.
pub open spec fn free_below(line: Seq<UVal>, i: int) -> int
    decreases i,
{
    if 0 < i <= line.len() && line[i - 1] == 0 {
        1 + free_below(line, i - 1)
    } else {
        0
    }
}

/// The line after the tile at position `i` has travelled: over the free cells
/// below it, and into the tile below those if that one is its equal.
pub open spec fn slid(line: Seq<UVal>, i: int) -> Seq<UVal> {
    let tile = line[i];
    let rest = i - free_below(line, i);
    if rest > 0 && line[rest - 1] == tile {
        line.update(i, 0).update(rest - 1, (tile + 1) as UVal)
    } else {
        line.update(i, 0).update(rest, tile)
    }
}

/// The tile at position `i` can leave its cell: the cell below it is free or
/// holds an equal tile.
pub open spec fn can_leave(line: Seq<UVal>, i: int) -> bool {
    0 < i < line.len() && line[i] != 0 && (line[i - 1] == 0 || line[i - 1] == line[i])
}

/// Some tile among the first `n` cells can leave its cell.
pub open spec fn movable_upto(line: Seq<UVal>, n: int) -> bool {
    exists|i: int| 0 < i < n && #[trigger] can_leave(line, i)
}

/// Some tile of the line can leave its cell.
pub open spec fn movable(line: Seq<UVal>) -> bool {
    movable_upto(line, line.len() as int)
}

/// The packed tiles never outnumber the cells visited, and none of them is a
/// free cell.
pub proof fn lemma_packed_tiles(line: Seq<UVal>, n: nat)
    requires
        n <= line.len(),
        has_headroom(line),
    ensures
        packed(line, n).len() <= n,
        forall|j: int| 0 <= j < packed(line, n).len() ==> #[trigger] packed(line, n)[j] != 0,
    decreases n,
{
    if n > 0 {
        lemma_packed_tiles(line, (n - 1) as nat);
        assert(line[n - 1] < UVal::MAX);
    }
}

/// There are no more free cells below a position than cells, so a tile that
/// travels stays on its line.
pub proof fn lemma_slid_stays_on_line(line: Seq<UVal>, i: int)
    requires
        0 <= i < line.len(),
    ensures
        0 <= free_below(line, i) <= i,
        slid(line, i).len() == line.len(),
    decreases i,
{
    if i > 0 {
        lemma_slid_stays_on_line(line, i - 1);
    }
}

/// Below position `i` the free cells reach down to position `k` when the cells
/// from `k` up to `i` are free and the one below `k`, if any, is not.
pub proof fn lemma_free_below(line: Seq<UVal>, i: int, k: int)
    requires
        0 <= k <= i <= line.len(),
        forall|j: int| k <= j < i ==> #[trigger] line[j] == 0,
        k > 0 ==> line[k - 1] != 0,
    ensures
        free_below(line, i) == i - k,
    decreases i - k,
{
    if i > k {
        lemma_free_below(line, i - 1, k);
    }
}

/// Visiting one more cell lets its tile travel, and changes nothing where the
/// cell is free.
pub proof fn lemma_sweep_step(line: Seq<UVal>, n: nat)
    requires
        n < line.len(),
        has_headroom(line),
    ensures
        swept(line, (n + 1) as nat) == (if line[n as int] == 0 {
            swept(line, n)
        } else {
            slid(swept(line, n), n as int)
        }),
{
    let before = swept(line, n);
    let tiles = packed(line, n);
    let k = tiles.len() as int;
    lemma_packed_tiles(line, n);
    assert(packed(line, (n + 1) as nat) == (if line[n as int] == 0 {
        tiles
    } else if tiles.len() > 0 && tiles.last() == line[n as int] {
        tiles.drop_last().push((line[n as int] + 1) as UVal)
    } else {
        tiles.push(line[n as int])
    }));
    if line[n as int] == 0 {
        assert(swept(line, (n + 1) as nat) =~= before);
    } else {
        assert forall|j: int| k <= j < n implies #[trigger] before[j] == 0 by {}
        if k > 0 {
            assert(before[k - 1] == tiles[k - 1]);
        }
        lemma_free_below(before, n as int, k);
        assert(swept(line, (n + 1) as nat) =~= slid(before, n as int));
    }
}

/// While no tile among the first `n` cells can leave its cell, visiting them
/// changes nothing.
pub proof fn lemma_sweep_of_settled_cells(line: Seq<UVal>, n: nat)
    requires
        n <= line.len(),
        has_headroom(line),
        !movable_upto(line, n as int),
    ensures
        swept(line, n) == line,
    decreases n,
{
    if n == 0 {
        assert(swept(line, 0) =~= line);
    } else {
        let m = (n - 1) as nat;
        assert forall|i: int| 0 < i < m implies !#[trigger] can_leave(line, i) by {}
        lemma_sweep_of_settled_cells(line, m);
        lemma_sweep_step(line, m);
        if line[m as int] != 0 {
            assert(!can_leave(line, m as int));
            if m > 0 {
                assert(line[m - 1] != 0);
            }
            assert(free_below(line, m as int) == 0);
            assert(slid(line, m as int) =~= line);
        }
    }
}

/// A tile can leave its cell when its turn comes exactly if it could at the
/// start, as long as no tile below it could.
pub proof fn lemma_first_to_leave(line: Seq<UVal>, n: nat)
    requires
        n < line.len(),
        has_headroom(line),
    ensures
        (movable_upto(line, n as int) || can_leave(swept(line, n), n as int)) == movable_upto(
            line,
            n as int + 1,
        ),
{
    if movable_upto(line, n as int) {
        let i = choose|i: int| 0 < i < n && #[trigger] can_leave(line, i);
        assert(0 < i < n + 1 && can_leave(line, i));
    } else {
        lemma_sweep_of_settled_cells(line, n);
        if can_leave(line, n as int) {
            assert(0 < n < n + 1 && can_leave(line, n as int));
        }
    }
}

/// Visiting more cells never removes a packed tile nor lowers one.
pub proof fn lemma_packed_grows(line: Seq<UVal>, n: nat, m: nat)
    requires
        n <= m <= line.len(),
        has_headroom(line),
    ensures
        packed(line, n).len() <= packed(line, m).len(),
        forall|j: int|
            0 <= j < packed(line, n).len() ==> #[trigger] packed(line, n)[j] <= packed(line, m)[j],
    decreases m,
{
    if n < m {
        lemma_packed_grows(line, n, (m - 1) as nat);
        lemma_packed_tiles(line, (m - 1) as nat);
        assert(line[m - 1] < UVal::MAX);
    }
}

/// A move changes a line in which some tile among the first `n` cells can leave
/// its cell.
pub proof fn lemma_leaving_changes_line(line: Seq<UVal>, n: nat)
    requires
        n <= line.len(),
        has_headroom(line),
        movable_upto(line, n as int),
    ensures
        collapsed(line) != line,
    decreases n,
{
    let first = (n - 1) as nat;
    if movable_upto(line, first as int) {
        lemma_leaving_changes_line(line, first);
    } else {
        let i = choose|i: int| 0 < i < n && #[trigger] can_leave(line, i);
        assert(i == first) by {
            if i < first {
                assert(0 < i < first && can_leave(line, i));
            }
        }
        let tile = line[first as int];
        let tiles = packed(line, first);
        let k = tiles.len() as int;
        let after = packed(line, line.len());
        lemma_sweep_of_settled_cells(line, first);
        lemma_packed_tiles(line, first);
        lemma_packed_tiles(line, line.len());
        lemma_packed_grows(line, (first + 1) as nat, line.len());
        assert(swept(line, first)[first - 1] == line[first - 1]);
        assert(tile < UVal::MAX);
        if k > 0 {
            assert(swept(line, first)[k - 1] == line[k - 1]);
        }
        if k > 0 && tiles.last() == tile {
            assert(packed(line, (first + 1) as nat)[k - 1] == tile + 1);
            assert(collapsed(line)[k - 1] == after[k - 1]);
        } else {
            assert(packed(line, (first + 1) as nat)[k] == tile);
            assert(swept(line, first)[k] == line[k]);
            assert(collapsed(line)[k] == after[k]);
        }
    }
}

/// A move leaves a line as it is exactly if none of its tiles can leave its cell.
pub proof fn lemma_collapsed_unchanged(line: Seq<UVal>)
    requires
        has_headroom(line),
    ensures
        (collapsed(line) == line) == !movable(line),
{
    if movable(line) {
        lemma_leaving_changes_line(line, line.len());
    } else {
        lemma_sweep_of_settled_cells(line, line.len());
    }
}

} // verus!
