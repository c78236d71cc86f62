//! Text-based rendering of the graph: the cell grid, routed connector
//! lines, and the per-row assembly of graph and text lines.

use vstd::prelude::*;

use std::collections::HashMap;

use crate::graph::BranchInfo;
use crate::graph::BranchView;
use crate::graph::CommitInfo;
use crate::graph::CommitView;
use crate::graph::GitGraph;
use crate::graph::HeadInfo;
use crate::settings::Characters;
use crate::settings::Settings;
use crate::text::str_eq;

verus! {

broadcast use vstd::std_specs::hash::group_hash_axioms;

pub const SPACE: u8 = 0;

pub const DOT: u8 = 1;

pub const CIRCLE: u8 = 2;

pub const VER: u8 = 3;

pub const HOR: u8 = 4;

pub const CROSS: u8 = 5;

pub const R_U: u8 = 6;

pub const R_D: u8 = 7;

pub const L_D: u8 = 8;

pub const L_U: u8 = 9;

pub const VER_L: u8 = 10;

pub const VER_R: u8 = 11;

pub const HOR_U: u8 = 12;

pub const HOR_D: u8 = 13;

pub const ARR_L: u8 = 14;

pub const ARR_R: u8 = 15;

pub const WHITE: u8 = 7;

pub const HEAD_COLOR: u8 = 14;

pub const HASH_COLOR: u8 = 11;

/// One cell in a [Grid]: the symbol (an index into
/// [Characters]), its color, and the persistence rank used as the z-order
/// tie-break when lines cross.
#[derive(Clone, Copy)]
pub struct GridCell {
    pub character: u8,
    pub color: u8,
    pub pers: u8,
}

impl GridCell {
    /// The drawing character standing for this cell.
    pub fn char(&self, characters: &Characters) -> (r: char)
        requires
            characters.wf(),
            self.character < 16,
        ensures
            r == characters.chars@[self.character as int],
    {
        characters.chars[self.character as usize]
    }
}

/// Two-dimensional grid used to hold the graph layout, cells in row-major
/// order.
pub struct Grid {
    pub width: usize,
    pub data: Vec<GridCell>,
}

impl Grid {
    /// A grid is consistent when its cell count is a whole number of rows.
    pub open spec fn wf(&self) -> bool {
        self.data@.len() == self.width * self.height_spec()
    }

    /// The number of rows.
    pub open spec fn height_spec(&self) -> int {
        if self.width == 0 {
            0
        } else {
            self.data@.len() as int / self.width as int
        }
    }

    /// The cell at `(x, y)`.
    pub open spec fn cell(&self, x: int, y: int) -> GridCell {
        self.data@[y * self.width + x]
    }

    pub fn new(width: usize, height: usize, initial: GridCell) -> (r: Grid)
        requires
            width * height <= usize::MAX,
        ensures
            r.width == width,
            r.data@.len() == width * height,
            forall|k: int| 0 <= k < r.data@.len() ==> #[trigger] r.data@[k] == initial,
    {
        let mut data: Vec<GridCell> = Vec::new();
        let total = width * height;
        let mut k: usize = 0;
        while k < total
            invariant
                k <= total,
                data@.len() == k,
                forall|q: int| 0 <= q < k ==> #[trigger] data@[q] == initial,
            decreases total - k,
        {
            data.push(initial);
            k += 1;
        }
        Grid { width, data }
    }

    /// Reverses the cell order, turning the row order upside down (and
    /// mirroring each row).
    pub fn reverse(&mut self)
        ensures
            final(self).width == old(self).width,
            final(self).data@ == old(self).data@.reverse(),
    {
        let n = self.data.len();
        let mut rev: Vec<GridCell> = Vec::new();
        let mut k: usize = 0;
        while k < n
            invariant
                k <= n,
                n == old(self).data@.len(),
                self.data@ == old(self).data@,
                rev@.len() == k,
                forall|q: int| 0 <= q < k ==> #[trigger] rev@[q] == old(self).data@[n - 1 - q],
            decreases n - k,
        {
            rev.push(self.data[n - 1 - k]);
            k += 1;
        }
        self.data = rev;
        proof {
            assert(self.data@ =~= old(self).data@.reverse());
        }
    }

    /// Turn a 2D coordinate into an index of `data`.
    pub fn index(&self, x: usize, y: usize) -> (r: usize)
        requires
            y * self.width + x <= usize::MAX,
        ensures
            r == y * self.width + x,
    {
        y * self.width + x
    }

    /// The symbol, color and persistence of the cell at `(x, y)`.
    pub fn get_tuple(&self, x: usize, y: usize) -> (r: (u8, u8, u8))
        requires
            y * self.width + x < self.data@.len(),
        ensures
            r == (self.cell(x as int, y as int).character, self.cell(x as int, y as int).color,
            self.cell(x as int, y as int).pers),
    {
        let total = self.data.len();
        let v = self.data[self.index(x, y)];
        (v.character, v.color, v.pers)
    }

    /// Overwrites the cell at `(x, y)` outright.
    pub fn set(&mut self, x: usize, y: usize, character: u8, color: u8, pers: u8)
        requires
            y * old(self).width + x < old(self).data@.len(),
        ensures
            final(self).width == old(self).width,
            final(self).data@ == old(self).data@.update(
                y * old(self).width + x,
                (GridCell { character, color, pers }),
            ),
    {
        let total = self.data.len();
        let idx = self.index(x, y);
        self.data[idx] = GridCell { character, color, pers };
    }

    /// Overwrites only the given parts of the cell at `(x, y)`.
    pub fn set_opt(
        &mut self,
        x: usize,
        y: usize,
        character: Option<u8>,
        color: Option<u8>,
        pers: Option<u8>,
    )
        requires
            y * old(self).width + x < old(self).data@.len(),
        ensures
            final(self).width == old(self).width,
            final(self).data@ == old(self).data@.update(
                y * old(self).width + x,
                spec_merge_cell(old(self).data@[y * old(self).width + x], character, color, pers),
            ),
    {
        let total = self.data.len();
        let idx = self.index(x, y);
        let mut cell = self.data[idx];
        if let Some(character) = character {
            cell.character = character;
        }
        if let Some(color) = color {
            cell.color = color;
        }
        if let Some(pers) = pers {
            cell.pers = pers;
        }
        self.data[idx] = cell;
        proof {
            assert(self.data@ =~= old(self).data@.update(
                (y * old(self).width + x) as int,
                spec_merge_cell(old(self).data@[y * old(self).width + x], character, color, pers),
            ));
        }
    }
}

/// A cell with the given parts replaced.
pub open spec fn spec_merge_cell(
    c: GridCell,
    character: Option<u8>,
    color: Option<u8>,
    pers: Option<u8>,
) -> GridCell {
    GridCell {
        character: match character {
            Some(v) => v,
            None => c.character,
        },
        color: match color {
            Some(v) => v,
            None => c.color,
        },
        pers: match pers {
            Some(v) => v,
            None => c.pers,
        },
    }
}

/// Occupied row ranges: a commit marker at a column, or a horizontal
/// connector between two commits covering a column range.
pub enum Occ {
    Commit(usize, usize),
    Range(usize, usize, usize, usize),
}

impl Occ {
    /// Whether this occupation overlaps the column range `[start, end]`.
    pub fn overlaps(&self, range: &(usize, usize)) -> (r: bool)
        ensures
            r == spec_occ_overlaps(*self, range.0, range.1),
    {
        let start = range.0;
        let end = range.1;
        match self {
            Occ::Commit(_, col) => start <= *col && end >= *col,
            Occ::Range(_, _, s, e) => *s <= end && *e >= start,
        }
    }
}

/// Whether an occupation overlaps the column range `[start, end]`.
pub open spec fn spec_occ_overlaps(o: Occ, start: usize, end: usize) -> bool {
    match o {
        Occ::Commit(_, col) => start <= col && end >= col,
        Occ::Range(_, _, s, e) => s <= end && e >= start,
    }
}

/// Sorts two numbers in ascending order.
pub fn sorted(v1: usize, v2: usize) -> (r: (usize, usize))
    ensures
        r == spec_sorted(v1, v2),
{
    if v2 > v1 {
        (v1, v2)
    } else {
        (v2, v1)
    }
}

/// Two numbers in ascending order.
pub open spec fn spec_sorted(v1: usize, v2: usize) -> (usize, usize) {
    if v2 > v1 {
        (v1, v2)
    } else {
        (v2, v1)
    }
}

/// The column of the branch a commit is traced to, when everything is in
/// range.
pub open spec fn spec_trace_column(cs: Seq<CommitView>, bs: Seq<BranchView>, i: int) -> Option<
    usize,
> {
    if 0 <= i < cs.len() {
        match cs[i].branch_trace {
            Some(tr) => if tr < bs.len() {
                bs[tr as int].visual.column
            } else {
                None
            },
            None => None,
        }
    } else {
        None
    }
}

/// The largest index of a sibling (another child of the parent) that sits
/// on the parent's column, folded over the parent's child list.
pub open spec fn spec_sibling_split(
    cs: Seq<CommitView>,
    bs: Seq<BranchView>,
    m: Map<u64, usize>,
    children: Seq<u64>,
    own_oid: u64,
    par_col: Option<usize>,
    init: int,
) -> int
    decreases children.len(),
{
    if children.len() == 0 {
        init
    } else {
        let rest = spec_sibling_split(cs, bs, m, children.drop_last(), own_oid, par_col, init);
        let c = children.last();
        if c != own_oid && m.contains_key(c) && m[c] < cs.len() && cs[m[c] as int].branch_trace
            is Some && spec_trace_column(cs, bs, m[c] as int) == par_col && m[c] > rest {
            m[c] as int
        } else {
            rest
        }
    }
}

/// The row at which a between-branch connection must leave its branch's
/// column: for a merge the later of the child's row and the last sibling on
/// the parent's column; for a plain commit the row right before the parent.
pub open spec fn spec_deviate_index(
    cs: Seq<CommitView>,
    bs: Seq<BranchView>,
    m: Map<u64, usize>,
    index: int,
    par_index: int,
) -> int {
    let par_col = spec_trace_column(cs, bs, par_index);
    let min_split = spec_sibling_split(
        cs,
        bs,
        m,
        cs[par_index].children,
        cs[index].oid,
        par_col,
        index,
    );
    if cs[index].is_merge {
        if index >= min_split {
            index
        } else {
            min_split
        }
    } else {
        if par_index >= 1 {
            par_index - 1
        } else {
            0
        }
    }
}

/// Find the index at which a between-branch connection has to deviate from
/// the current branch's column; returns the last index on that column.
pub fn get_deviate_index(graph: &GitGraph, index: usize, par_index: usize) -> (r: usize)
    requires
        index < graph.commits@.len(),
        par_index < graph.commits@.len(),
    ensures
        r == spec_deviate_index(
            graph.commits@.map_values(|c: CommitInfo| c@),
            graph.all_branches@.map_values(|b: BranchInfo| b@),
            graph.indices@,
            index as int,
            par_index as int,
        ),
{
    let ghost cs = graph.commits@.map_values(|c: CommitInfo| c@);
    let ghost bs = graph.all_branches@.map_values(|b: BranchInfo| b@);
    let ghost m = graph.indices@;
    let own_oid = graph.commits[index].oid;
    let par_col: Option<usize> = match graph.commits[par_index].branch_trace {
        Some(tr) => if tr < graph.all_branches.len() {
            graph.all_branches[tr].visual.column
        } else {
            None
        },
        None => None,
    };
    proof {
        assert(par_col == spec_trace_column(cs, bs, par_index as int));
    }
    let mut min_split = index;
    let nch = graph.commits[par_index].children.len();
    let ghost children = cs[par_index as int].children;
    let mut k: usize = 0;
    while k < nch
        invariant
            k <= nch,
            nch == children.len(),
            index < cs.len(),
            par_index < cs.len(),
            children == cs[par_index as int].children,
            own_oid == cs[index as int].oid,
            par_col == spec_trace_column(cs, bs, par_index as int),
            min_split as int == spec_sibling_split(
                cs,
                bs,
                m,
                children.take(k as int),
                own_oid,
                par_col,
                index as int,
            ),
            min_split < cs.len() || min_split == index,
        decreases nch - k,
    {
        let sib = graph.commits[par_index].children[k];
        proof {
            assert(children.take(k as int + 1).drop_last() =~= children.take(k as int));
            assert(children.take(k as int + 1).last() == children[k as int]);
        }
        if sib != own_oid {
            if let Some(si) = graph.indices.get(&sib) {
                let si = *si;
                if si < graph.commits.len() {
                    if graph.commits[si].branch_trace.is_some() {
                        let sib_col: Option<usize> = match graph.commits[si].branch_trace {
                            Some(tr) => if tr < graph.all_branches.len() {
                                graph.all_branches[tr].visual.column
                            } else {
                                None
                            },
                            None => None,
                        };
                        proof {
                            assert(sib_col == spec_trace_column(cs, bs, si as int));
                        }
                        let cols_eq = match (sib_col, par_col) {
                            (Some(a), Some(b)) => a == b,
                            (None, None) => true,
                            _ => false,
                        };
                        if cols_eq && si > min_split {
                            min_split = si;
                        }
                    }
                }
            }
        }
        k += 1;
    }
    proof {
        assert(children.take(nch as int) =~= children);
    }
    if graph.commits[index].is_merge {
        if index >= min_split {
            index
        } else {
            min_split
        }
    } else {
        if par_index >= 1 {
            par_index - 1
        } else {
            0
        }
    }
}

/// Positions inside the grid stay inside the cell vector.
proof fn lemma_grid_index_bound(w: int, h: int, x: int, y: int)
    by (nonlinear_arith)
    requires
        0 <= x < w,
        0 <= y < h,
    ensures
        0 <= y * w + x < w * h,
{
}

/// Distinct grid coordinates give distinct cell positions.
proof fn lemma_grid_index_injective(w: int, x1: int, y1: int, x2: int, y2: int)
    by (nonlinear_arith)
    requires
        0 <= x1 < w,
        0 <= x2 < w,
        y1 >= 0,
        y2 >= 0,
        y1 * w + x1 == y2 * w + x2,
    ensures
        x1 == x2 && y1 == y2,
{
}

/// Decomposing a cell position into its grid coordinates.
proof fn lemma_cell_coords(w: int, h: int, k: int)
    by (nonlinear_arith)
    requires
        w > 0,
        0 <= k < w * h,
    ensures
        (k / w) * w + (k % w) == k,
        0 <= k % w < w,
        0 <= k / w < h,
{
}

/// The whole cell vector after a vertical line: exactly the cells on the
/// line's column strictly between its rows change, each by
/// [spec_vline_cell].
pub open spec fn spec_vline_apply(
    data: Seq<GridCell>,
    w: int,
    column: int,
    from: int,
    to: int,
    color: u8,
    pers: u8,
) -> Seq<GridCell> {
    Seq::new(
        data.len(),
        |k: int|
            if w > 0 && k % w == 2 * column && from < k / w && k / w < to {
                spec_vline_cell(data[k], color, pers)
            } else {
                data[k]
            },
    )
}

/// The whole cell vector after a horizontal line: exactly the cells of the
/// spanned row between the two branch columns change, each by
/// [spec_hline_cell]; equal columns leave the grid as it is.
pub open spec fn spec_hline_apply(
    data: Seq<GridCell>,
    w: int,
    index: int,
    from_col: int,
    to_col: int,
    merge: bool,
    color: u8,
    pers: u8,
) -> Seq<GridCell> {
    if from_col == to_col {
        data
    } else {
        let lo = if from_col < to_col {
            2 * from_col
        } else {
            2 * to_col
        };
        let hi = if from_col < to_col {
            2 * to_col
        } else {
            2 * from_col
        };
        Seq::new(
            data.len(),
            |k: int|
                if w > 0 && k / w == index && lo <= k % w <= hi {
                    spec_hline_cell(data[k], k % w, 2 * from_col, 2 * to_col, merge, color, pers)
                } else {
                    data[k]
                },
        )
    }
}

/// A cell updated by a line with the given color and persistence: the
/// symbol may change, and color and persistence are taken over only when
/// the new line wins the z-order (a numerically lower persistence).
pub open spec fn spec_upgrade(old: GridCell, ch: Option<u8>, color: u8, pers: u8) -> GridCell {
    if pers < old.pers {
        spec_merge_cell(old, ch, Some(color), Some(pers))
    } else {
        spec_merge_cell(old, ch, None, None)
    }
}

/// How a vertical line changes one cell it passes through.
pub open spec fn spec_vline_cell(old: GridCell, color: u8, pers: u8) -> GridCell {
    let c = old.character;
    if c == DOT || c == CIRCLE {
        old
    } else if c == HOR || c == HOR_U || c == HOR_D {
        GridCell { character: CROSS, color, pers }
    } else if c == CROSS || c == VER || c == VER_L || c == VER_R {
        spec_upgrade(old, None, color, pers)
    } else if c == L_D || c == L_U {
        spec_upgrade(old, Some(VER_L), color, pers)
    } else if c == R_D || c == R_U {
        spec_upgrade(old, Some(VER_R), color, pers)
    } else {
        spec_upgrade(old, Some(VER), color, pers)
    }
}

/// Draws a vertical line along `column`, between the rows `from` and `to`
/// exclusively; every other cell stays as it was.
#[verifier::loop_isolation(true)]
pub fn vline(grid: &mut Grid, range: (usize, usize), column: usize, color: u8, pers: u8)
    requires
        old(grid).wf(),
        column * 2 < old(grid).width,
        range.1 <= old(grid).height_spec(),
    ensures
        final(grid).width == old(grid).width,
        final(grid).data@.len() == old(grid).data@.len(),
        forall|y: int|
            range.0 < y < range.1 ==> #[trigger] final(grid).cell(column * 2, y)
                == spec_vline_cell(old(grid).cell(column * 2, y), color, pers),
        forall|x: int, y: int|
            0 <= x < old(grid).width && 0 <= y < old(grid).height_spec() && !(x == column * 2
                && range.0 < y < range.1) ==> #[trigger] final(grid).cell(x, y) == old(grid).cell(
                x,
                y,
            ),
        final(grid).data@ == spec_vline_apply(
            old(grid).data@,
            old(grid).width as int,
            column as int,
            range.0 as int,
            range.1 as int,
            color,
            pers,
        ),
{
    let ghost g0 = *grid;
    let from = range.0;
    let to = range.1;
    let col2 = column * 2;
    let ghost w = grid.width as int;
    let ghost h = g0.height_spec();
    let mut i = if from < to {
        from + 1
    } else {
        to
    };
    while i < to
        invariant
            from < i || i == to,
            i <= to,
            to <= h,
            col2 == column * 2 < w,
            w == g0.width,
            grid.width == g0.width,
            grid.data@.len() == g0.data@.len(),
            g0.wf(),
            h == g0.height_spec(),
            forall|y: int|
                from < y < i && y < to ==> #[trigger] grid.cell(col2 as int, y)
                    == spec_vline_cell(g0.cell(col2 as int, y), color, pers),
            forall|x: int, y: int|
                0 <= x < w && 0 <= y < h && !(x == col2 && from < y < i && y < to)
                    ==> #[trigger] grid.cell(x, y) == g0.cell(x, y),
        decreases to - i,
    {
        proof {
            lemma_grid_index_bound(w, h, col2 as int, i as int);
            assert(w * h == g0.data@.len());
        }
        let ghost pre = *grid;
        let (curr, _, old_pers) = grid.get_tuple(col2, i);
        let (new_col, new_pers): (Option<u8>, Option<u8>) = if pers < old_pers {
            (Some(color), Some(pers))
        } else {
            (None, None)
        };
        if curr == DOT || curr == CIRCLE {
        } else if curr == HOR || curr == HOR_U || curr == HOR_D {
            grid.set_opt(col2, i, Some(CROSS), Some(color), Some(pers));
        } else if curr == CROSS || curr == VER || curr == VER_L || curr == VER_R {
            grid.set_opt(col2, i, None, new_col, new_pers);
        } else if curr == L_D || curr == L_U {
            grid.set_opt(col2, i, Some(VER_L), new_col, new_pers);
        } else if curr == R_D || curr == R_U {
            grid.set_opt(col2, i, Some(VER_R), new_col, new_pers);
        } else {
            grid.set_opt(col2, i, Some(VER), new_col, new_pers);
        }
        proof {
            assert(grid.cell(col2 as int, i as int) == spec_vline_cell(
                pre.cell(col2 as int, i as int),
                color,
                pers,
            ));
            assert forall|x: int, y: int|
                0 <= x < w && 0 <= y < h && !(x == col2 && y == i) implies grid.cell(x, y)
                == pre.cell(x, y) by {
                lemma_grid_index_bound(w, h, x, y);
                lemma_grid_index_bound(w, h, col2 as int, i as int);
                if y * w + x == i as int * w + col2 {
                    lemma_grid_index_injective(w, x, y, col2 as int, i as int);
                }
            }
            assert forall|y: int|
                from < y < i + 1 && y < to implies #[trigger] grid.cell(col2 as int, y)
                == spec_vline_cell(g0.cell(col2 as int, y), color, pers) by {
                if y != i {
                    assert(grid.cell(col2 as int, y) == pre.cell(col2 as int, y));
                    assert(pre.cell(col2 as int, y) == spec_vline_cell(
                        g0.cell(col2 as int, y),
                        color,
                        pers,
                    ));
                } else {
                    assert(pre.cell(col2 as int, i as int) == g0.cell(col2 as int, i as int));
                }
            }
            assert forall|x: int, y: int|
                0 <= x < w && 0 <= y < h && !(x == col2 && from < y < i + 1 && y < to)
                    implies #[trigger] grid.cell(x, y) == g0.cell(x, y) by {
                assert(grid.cell(x, y) == pre.cell(x, y));
                assert(pre.cell(x, y) == g0.cell(x, y));
            }
        }
        i += 1;
    }
    proof {
        let w_i = g0.width as int;
        let hh = g0.height_spec();
        let target = spec_vline_apply(
            g0.data@,
            w_i,
            column as int,
            from as int,
            to as int,
            color,
            pers,
        );
        assert(w_i > 0);
        assert forall|k: int| 0 <= k < grid.data@.len() implies grid.data@[k] == target[k] by {
            assert(g0.data@.len() == w_i * hh);
            lemma_cell_coords(w_i, hh, k);
            let y = k / w_i;
            let x = k % w_i;
            assert(grid.cell(x, y) == grid.data@[k]);
            assert(g0.cell(x, y) == g0.data@[k]);
            if x == col2 && from < y < to {
                assert(grid.cell(col2 as int, y) == spec_vline_cell(
                    g0.cell(col2 as int, y),
                    color,
                    pers,
                ));
            } else {
                assert(grid.cell(x, y) == g0.cell(x, y));
            }
        }
        assert(grid.data@ =~= target);
    }
}

/// How a horizontal line changes one interior cell it passes through.
pub open spec fn spec_hline_inner(old: GridCell, color: u8, pers: u8) -> GridCell {
    let c = old.character;
    if c == DOT || c == CIRCLE {
        old
    } else if c == VER {
        spec_merge_cell(old, Some(CROSS), None, None)
    } else if c == HOR || c == CROSS || c == HOR_U || c == HOR_D {
        spec_upgrade(old, None, color, pers)
    } else if c == L_U || c == R_U {
        spec_upgrade(old, Some(HOR_U), color, pers)
    } else if c == L_D || c == R_D {
        spec_upgrade(old, Some(HOR_D), color, pers)
    } else {
        spec_upgrade(old, Some(HOR), color, pers)
    }
}

/// How a left-to-right line changes the cell at its left end.
pub open spec fn spec_hline_left_ltr(old: GridCell, color: u8, pers: u8) -> GridCell {
    let c = old.character;
    if c == DOT || c == CIRCLE {
        old
    } else if c == VER {
        spec_upgrade(old, Some(VER_R), color, pers)
    } else if c == VER_L {
        spec_merge_cell(old, Some(CROSS), None, None)
    } else if c == VER_R {
        old
    } else if c == HOR || c == L_U {
        spec_upgrade(old, Some(HOR_U), color, pers)
    } else {
        spec_upgrade(old, Some(R_D), color, pers)
    }
}

/// How a left-to-right line changes the cell at its right end.
pub open spec fn spec_hline_right_ltr(old: GridCell, color: u8, pers: u8) -> GridCell {
    let c = old.character;
    if c == DOT || c == CIRCLE {
        old
    } else if c == VER {
        spec_merge_cell(old, Some(VER_L), None, None)
    } else if c == VER_L || c == HOR_U {
        spec_upgrade(old, None, color, pers)
    } else if c == HOR || c == R_U {
        spec_upgrade(old, Some(HOR_U), color, pers)
    } else {
        spec_upgrade(old, Some(L_U), color, pers)
    }
}

/// How a right-to-left line changes the cell at its left end.
pub open spec fn spec_hline_left_rtl(old: GridCell, color: u8, pers: u8) -> GridCell {
    let c = old.character;
    if c == DOT || c == CIRCLE {
        old
    } else if c == VER {
        spec_merge_cell(old, Some(VER_R), None, None)
    } else if c == VER_R {
        spec_upgrade(old, None, color, pers)
    } else if c == HOR || c == L_U {
        spec_upgrade(old, Some(HOR_U), color, pers)
    } else {
        spec_upgrade(old, Some(R_U), color, pers)
    }
}

/// How a right-to-left line changes the cell at its right end.
pub open spec fn spec_hline_right_rtl(old: GridCell, color: u8, pers: u8) -> GridCell {
    let c = old.character;
    if c == DOT || c == CIRCLE {
        old
    } else if c == VER {
        spec_upgrade(old, Some(VER_L), color, pers)
    } else if c == VER_R {
        spec_merge_cell(old, Some(CROSS), None, None)
    } else if c == VER_L {
        spec_upgrade(old, None, color, pers)
    } else if c == HOR || c == R_D {
        spec_upgrade(old, Some(HOR_D), color, pers)
    } else {
        spec_upgrade(old, Some(L_D), color, pers)
    }
}

/// How a horizontal line changes the cell at position `x` in its row: the
/// endpoints get junction glyphs, the cell next to a merge commit gets an
/// arrow, and interior cells are crossed.
pub open spec fn spec_hline_cell(
    old: GridCell,
    x: int,
    from2: int,
    to2: int,
    merge: bool,
    color: u8,
    pers: u8,
) -> GridCell {
    if from2 < to2 {
        if x == from2 {
            spec_hline_left_ltr(old, color, pers)
        } else if x == to2 {
            spec_hline_right_ltr(old, color, pers)
        } else if merge && x == to2 - 1 {
            GridCell { character: ARR_R, color, pers }
        } else {
            spec_hline_inner(old, color, pers)
        }
    } else {
        if x == to2 {
            spec_hline_left_rtl(old, color, pers)
        } else if x == from2 {
            spec_hline_right_rtl(old, color, pers)
        } else if merge && x == to2 + 1 {
            GridCell { character: ARR_L, color, pers }
        } else {
            spec_hline_inner(old, color, pers)
        }
    }
}

/// Draws a horizontal line in row `index` between the branch columns `from`
/// and `to`, inclusive, with junctions at the ends and an arrow at the
/// inward end of a merge edge; every cell outside the span stays as it was.
#[verifier::loop_isolation(true)]
#[verifier::rlimit(100)]
pub fn hline(
    grid: &mut Grid,
    index: usize,
    cols: (usize, usize),
    merge: bool,
    color: u8,
    pers: u8,
)
    requires
        old(grid).wf(),
        cols.0 * 2 < old(grid).width,
        cols.1 * 2 < old(grid).width,
        index < old(grid).height_spec(),
    ensures
        final(grid).width == old(grid).width,
        final(grid).data@.len() == old(grid).data@.len(),
        cols.0 == cols.1 ==> final(grid).data@ == old(grid).data@,
        cols.0 != cols.1 ==> forall|x: int|
            spec_sorted((cols.0 * 2) as usize, (cols.1 * 2) as usize).0 <= x <= spec_sorted(
                (cols.0 * 2) as usize,
                (cols.1 * 2) as usize,
            ).1 ==> #[trigger] final(grid).cell(x, index as int) == spec_hline_cell(
                old(grid).cell(x, index as int),
                x,
                (cols.0 * 2) as int,
                (cols.1 * 2) as int,
                merge,
                color,
                pers,
            ),
        cols.0 != cols.1 ==> forall|x: int, y: int|
            0 <= x < old(grid).width && 0 <= y < old(grid).height_spec() && !(y == index
                && spec_sorted((cols.0 * 2) as usize, (cols.1 * 2) as usize).0 <= x <= spec_sorted(
                (cols.0 * 2) as usize,
                (cols.1 * 2) as usize,
            ).1) ==> #[trigger] final(grid).cell(x, y) == old(grid).cell(x, y),
        final(grid).data@ == spec_hline_apply(
            old(grid).data@,
            old(grid).width as int,
            index as int,
            cols.0 as int,
            cols.1 as int,
            merge,
            color,
            pers,
        ),
{
    let ghost g0 = *grid;
    let from = cols.0;
    let to = cols.1;
    if from == to {
        return ;
    }
    let from_2 = from * 2;
    let to_2 = to * 2;
    let ghost w = grid.width as int;
    let ghost h = g0.height_spec();
    let lo = if from_2 < to_2 {
        from_2
    } else {
        to_2
    };
    let hi = if from_2 < to_2 {
        to_2
    } else {
        from_2
    };
    let mut x = lo + 1;
    while x < hi
        invariant
            lo + 1 <= x,
            lo == (if from_2 < to_2 {
                from_2
            } else {
                to_2
            }),
            hi == (if from_2 < to_2 {
                to_2
            } else {
                from_2
            }),
            from_2 == from * 2,
            to_2 == to * 2,
            from != to,
            from_2 < w,
            to_2 < w,
            hi < w,
            index < h,
            w == g0.width,
            grid.width == g0.width,
            grid.data@.len() == g0.data@.len(),
            g0.wf(),
            h == g0.height_spec(),
            forall|q: int|
                lo < q < x ==> #[trigger] grid.cell(q, index as int) == spec_hline_cell(
                    g0.cell(q, index as int),
                    q,
                    from_2 as int,
                    to_2 as int,
                    merge,
                    color,
                    pers,
                ),
            forall|xx: int, y: int|
                0 <= xx < w && 0 <= y < h && !(y == index && lo < xx < x && xx < hi)
                    ==> #[trigger] grid.cell(xx, y) == g0.cell(xx, y),
        decreases hi - x,
    {
        proof {
            lemma_grid_index_bound(w, h, x as int, index as int);
            assert(w * h == g0.data@.len());
        }
        let ghost pre = *grid;
        let is_arrow = if from_2 < to_2 {
            merge && x == to_2 - 1
        } else {
            merge && x == to_2 + 1
        };
        if is_arrow {
            let arrow = if from_2 < to_2 {
                ARR_R
            } else {
                ARR_L
            };
            grid.set(x, index, arrow, color, pers);
        } else {
            let (curr, _, old_pers) = grid.get_tuple(x, index);
            let (new_col, new_pers): (Option<u8>, Option<u8>) = if pers < old_pers {
                (Some(color), Some(pers))
            } else {
                (None, None)
            };
            if curr == DOT || curr == CIRCLE {
            } else if curr == VER {
                grid.set_opt(x, index, Some(CROSS), None, None);
            } else if curr == HOR || curr == CROSS || curr == HOR_U || curr == HOR_D {
                grid.set_opt(x, index, None, new_col, new_pers);
            } else if curr == L_U || curr == R_U {
                grid.set_opt(x, index, Some(HOR_U), new_col, new_pers);
            } else if curr == L_D || curr == R_D {
                grid.set_opt(x, index, Some(HOR_D), new_col, new_pers);
            } else {
                grid.set_opt(x, index, Some(HOR), new_col, new_pers);
            }
        }
        proof {
            assert(grid.cell(x as int, index as int) == spec_hline_cell(
                pre.cell(x as int, index as int),
                x as int,
                from_2 as int,
                to_2 as int,
                merge,
                color,
                pers,
            ));
            assert forall|xx: int, y: int|
                0 <= xx < w && 0 <= y < h && !(xx == x && y == index) implies grid.cell(xx, y)
                == pre.cell(xx, y) by {
                lemma_grid_index_bound(w, h, xx, y);
                lemma_grid_index_bound(w, h, x as int, index as int);
                if y * w + xx == index as int * w + x as int {
                    lemma_grid_index_injective(w, xx, y, x as int, index as int);
                }
            }
            assert forall|q: int|
                lo < q < x + 1 implies #[trigger] grid.cell(q, index as int) == spec_hline_cell(
                g0.cell(q, index as int),
                q,
                from_2 as int,
                to_2 as int,
                merge,
                color,
                pers,
            ) by {
                if q != x {
                    assert(grid.cell(q, index as int) == pre.cell(q, index as int));
                    assert(pre.cell(q, index as int) == spec_hline_cell(
                        g0.cell(q, index as int),
                        q,
                        from_2 as int,
                        to_2 as int,
                        merge,
                        color,
                        pers,
                    ));
                } else {
                    assert(pre.cell(x as int, index as int) == g0.cell(x as int, index as int));
                }
            }
            assert forall|xx: int, y: int|
                0 <= xx < w && 0 <= y < h && !(y == index && lo < xx < x + 1 && xx < hi)
                    implies #[trigger] grid.cell(xx, y) == g0.cell(xx, y) by {
                assert(grid.cell(xx, y) == pre.cell(xx, y));
                assert(pre.cell(xx, y) == g0.cell(xx, y));
            }
        }
        x += 1;
    }
    // the two endpoint junctions
    let left_x = lo;
    let right_x = hi;
    proof {
        lemma_grid_index_bound(w, h, left_x as int, index as int);
        lemma_grid_index_bound(w, h, right_x as int, index as int);
        assert(w * h == g0.data@.len());
    }
    let ghost pre = *grid;
    let (left, _, old_pers) = grid.get_tuple(left_x, index);
    let (new_col, new_pers): (Option<u8>, Option<u8>) = if pers < old_pers {
        (Some(color), Some(pers))
    } else {
        (None, None)
    };
    if from_2 < to_2 {
        if left == DOT || left == CIRCLE {
        } else if left == VER {
            grid.set_opt(left_x, index, Some(VER_R), new_col, new_pers);
        } else if left == VER_L {
            grid.set_opt(left_x, index, Some(CROSS), None, None);
        } else if left == VER_R {
        } else if left == HOR || left == L_U {
            grid.set_opt(left_x, index, Some(HOR_U), new_col, new_pers);
        } else {
            grid.set_opt(left_x, index, Some(R_D), new_col, new_pers);
        }
    } else {
        if left == DOT || left == CIRCLE {
        } else if left == VER {
            grid.set_opt(left_x, index, Some(VER_R), None, None);
        } else if left == VER_R {
            grid.set_opt(left_x, index, None, new_col, new_pers);
        } else if left == HOR || left == L_U {
            grid.set_opt(left_x, index, Some(HOR_U), new_col, new_pers);
        } else {
            grid.set_opt(left_x, index, Some(R_U), new_col, new_pers);
        }
    }
    proof {
        assert(grid.cell(left_x as int, index as int) == spec_hline_cell(
            pre.cell(left_x as int, index as int),
            left_x as int,
            from_2 as int,
            to_2 as int,
            merge,
            color,
            pers,
        ));
        assert forall|xx: int, y: int|
            0 <= xx < w && 0 <= y < h && !(xx == left_x && y == index) implies grid.cell(xx, y)
            == pre.cell(xx, y) by {
            lemma_grid_index_bound(w, h, xx, y);
            if y * w + xx == index as int * w + left_x as int {
                lemma_grid_index_injective(w, xx, y, left_x as int, index as int);
            }
        }
    }
    let ghost pre2 = *grid;
    let (right, _, old_pers2) = grid.get_tuple(right_x, index);
    let (new_col2, new_pers2): (Option<u8>, Option<u8>) = if pers < old_pers2 {
        (Some(color), Some(pers))
    } else {
        (None, None)
    };
    if from_2 < to_2 {
        if right == DOT || right == CIRCLE {
        } else if right == VER {
            grid.set_opt(right_x, index, Some(VER_L), None, None);
        } else if right == VER_L || right == HOR_U {
            grid.set_opt(right_x, index, None, new_col2, new_pers2);
        } else if right == HOR || right == R_U {
            grid.set_opt(right_x, index, Some(HOR_U), new_col2, new_pers2);
        } else {
            grid.set_opt(right_x, index, Some(L_U), new_col2, new_pers2);
        }
    } else {
        if right == DOT || right == CIRCLE {
        } else if right == VER {
            grid.set_opt(right_x, index, Some(VER_L), new_col2, new_pers2);
        } else if right == VER_R {
            grid.set_opt(right_x, index, Some(CROSS), None, None);
        } else if right == VER_L {
            grid.set_opt(right_x, index, None, new_col2, new_pers2);
        } else if right == HOR || right == R_D {
            grid.set_opt(right_x, index, Some(HOR_D), new_col2, new_pers2);
        } else {
            grid.set_opt(right_x, index, Some(L_D), new_col2, new_pers2);
        }
    }
    proof {
        assert(grid.cell(right_x as int, index as int) == spec_hline_cell(
            pre2.cell(right_x as int, index as int),
            right_x as int,
            from_2 as int,
            to_2 as int,
            merge,
            color,
            pers,
        ));
        assert forall|xx: int, y: int|
            0 <= xx < w && 0 <= y < h && !(xx == right_x && y == index) implies grid.cell(xx, y)
            == pre2.cell(xx, y) by {
            lemma_grid_index_bound(w, h, xx, y);
            if y * w + xx == index as int * w + right_x as int {
                lemma_grid_index_injective(w, xx, y, right_x as int, index as int);
            }
        }
        assert forall|xx: int|
            lo <= xx <= hi implies #[trigger] grid.cell(xx, index as int) == spec_hline_cell(
            g0.cell(xx, index as int),
            xx,
            from_2 as int,
            to_2 as int,
            merge,
            color,
            pers,
        ) by {
            if xx == lo {
                assert(pre.cell(lo as int, index as int) == g0.cell(lo as int, index as int));
                assert(pre2.cell(lo as int, index as int) == spec_hline_cell(
                    g0.cell(lo as int, index as int),
                    lo as int,
                    from_2 as int,
                    to_2 as int,
                    merge,
                    color,
                    pers,
                ));
                assert(grid.cell(lo as int, index as int) == pre2.cell(lo as int, index as int));
            } else if xx == hi {
                assert(pre.cell(hi as int, index as int) == g0.cell(hi as int, index as int));
                assert(pre2.cell(hi as int, index as int) == pre.cell(hi as int, index as int));
            } else {
                assert(pre.cell(xx, index as int) == spec_hline_cell(
                    g0.cell(xx, index as int),
                    xx,
                    from_2 as int,
                    to_2 as int,
                    merge,
                    color,
                    pers,
                ));
                assert(pre2.cell(xx, index as int) == pre.cell(xx, index as int));
                assert(grid.cell(xx, index as int) == pre2.cell(xx, index as int));
            }
        }
        assert forall|xx: int, y: int|
            0 <= xx < w && 0 <= y < h && !(y == index && lo <= xx <= hi) implies #[trigger] grid.cell(
            xx,
            y,
        ) == g0.cell(xx, y) by {
            assert(pre.cell(xx, y) == g0.cell(xx, y));
            assert(pre2.cell(xx, y) == pre.cell(xx, y));
            assert(grid.cell(xx, y) == pre2.cell(xx, y));
        }
        let target = spec_hline_apply(
            g0.data@,
            w,
            index as int,
            from as int,
            to as int,
            merge,
            color,
            pers,
        );
        assert(w > 0);
        assert forall|k: int| 0 <= k < grid.data@.len() implies grid.data@[k] == target[k] by {
            assert(g0.data@.len() == w * h);
            lemma_cell_coords(w, h, k);
            let y = k / w;
            let x = k % w;
            assert(grid.cell(x, y) == grid.data@[k]);
            assert(g0.cell(x, y) == g0.data@[k]);
            if y == index && lo <= x <= hi {
                assert(grid.cell(x, index as int) == spec_hline_cell(
                    g0.cell(x, index as int),
                    x,
                    from_2 as int,
                    to_2 as int,
                    merge,
                    color,
                    pers,
                ));
            } else {
                assert(grid.cell(x, y) == g0.cell(x, y));
            }
        }
        assert(grid.data@ =~= target);
    }
}

/// Relies on `yansi::Paint::fixed`: wraps `text` in the escape codes for
/// the 256-color palette index `color` (or leaves it as is while coloring
/// is globally disabled, so no more than a length bound is promised).
#[verifier::external_body]
fn paint_fixed(color: u8, text: &str) -> (r: String)
    ensures
        r@.len() >= text@.len(),
{
    yansi::Paint::fixed(color, text).to_string()
}

/// Relies on std's `String::push`.
#[verifier::external_body]
fn push_char(s: &mut String, c: char)
    ensures
        final(s)@ == old(s)@.push(c),
{
    s.push(c);
}

/// Every commit is on a branch whose column has been assigned: the shape
/// the renderer needs.
pub open spec fn graph_drawable(cs: Seq<CommitView>, bs: Seq<BranchView>) -> bool {
    forall|i: int|
        0 <= i < cs.len() ==> ((#[trigger] cs[i].branch_trace) matches Some(t) && t < bs.len()
            && bs[t as int].visual.column is Some)
}

/// The column the renderer uses for the commit at `i`: its branch's
/// column, or column 0 when the commit is off every placed branch.
pub open spec fn spec_commit_column(cs: Seq<CommitView>, bs: Seq<BranchView>, i: int) -> usize {
    match cs[i].branch_trace {
        Some(tr) => if tr < bs.len() {
            match bs[tr as int].visual.column {
                Some(c) => c,
                None => 0,
            }
        } else {
            0
        },
        None => 0,
    }
}

/// The insertion table before any connector is placed: every commit index
/// maps to one row holding that commit's own marker at its column.
pub open spec fn spec_init_inserts(cs: Seq<CommitView>, bs: Seq<BranchView>, i: int) -> Map<
    usize,
    Seq<Seq<Occ>>,
>
    decreases i,
{
    if i <= 0 {
        Map::<usize, Seq<Seq<Occ>>>::empty()
    } else {
        spec_init_inserts(cs, bs, i - 1).insert(
            (i - 1) as usize,
            seq![seq![Occ::Commit((i - 1) as usize, spec_commit_column(cs, bs, i - 1))]],
        )
    }
}

/// Whether an occupation keeps the connector `(idx, par_idx)` with column
/// span `range` out of a row: it must overlap, and be neither the merge
/// commit's own marker (second parent, compact mode) nor a connector of
/// the same edge.
pub open spec fn spec_occ_blocks(
    o: Occ,
    range: (usize, usize),
    idx: usize,
    par_idx: usize,
    compact: bool,
    is_merge: bool,
    p: int,
) -> bool {
    spec_occ_overlaps(o, range.0, range.1) && match o {
        Occ::Commit(target_index, _) => !compact || !is_merge || idx != target_index || p == 0,
        Occ::Range(o_idx, o_par_idx, _, _) => idx != o_idx && par_idx != o_par_idx,
    }
}

/// Whether any occupation of the row blocks the connector.
pub open spec fn spec_row_blocked(
    row: Seq<Occ>,
    range: (usize, usize),
    idx: usize,
    par_idx: usize,
    compact: bool,
    is_merge: bool,
    p: int,
) -> bool {
    exists|k: int|
        0 <= k < row.len() && spec_occ_blocks(#[trigger] row[k], range, idx, par_idx, compact, is_merge, p)
}

/// The first row from `k` on that does not block the connector; the row
/// count itself when every row does.
pub open spec fn spec_find_insert_row(
    rows: Seq<Seq<Occ>>,
    range: (usize, usize),
    idx: usize,
    par_idx: usize,
    compact: bool,
    is_merge: bool,
    p: int,
    k: int,
) -> int
    decreases rows.len() - k,
{
    if k < 0 || k >= rows.len() {
        rows.len() as int
    } else if !spec_row_blocked(rows[k], range, idx, par_idx, compact, is_merge, p) {
        k
    } else {
        spec_find_insert_row(rows, range, idx, par_idx, compact, is_merge, p, k + 1)
    }
}

/// One parent edge folded into the insertion table: an edge that crosses
/// columns claims the first non-conflicting row at its deviate index (a
/// new row when none fits).
pub open spec fn spec_insert_edge(
    mip: Map<usize, Seq<Seq<Occ>>>,
    cs: Seq<CommitView>,
    bs: Seq<BranchView>,
    m: Map<u64, usize>,
    idx: int,
    p: int,
    compact: bool,
) -> Map<usize, Seq<Seq<Occ>>> {
    match cs[idx].parent(p) {
        Some(par_oid) => if m.contains_key(par_oid) && m[par_oid] < cs.len() {
            let par_idx = m[par_oid] as int;
            let column = spec_commit_column(cs, bs, idx);
            let par_column = spec_commit_column(cs, bs, par_idx);
            if column != par_column {
                let range = spec_sorted(column, par_column);
                let split = spec_deviate_index(cs, bs, m, idx, par_idx);
                if 0 <= split < cs.len() && mip.contains_key(split as usize) {
                    let rows = mip[split as usize];
                    let at = spec_find_insert_row(
                        rows,
                        range,
                        idx as usize,
                        par_idx as usize,
                        compact,
                        cs[idx].is_merge,
                        p,
                        0,
                    );
                    let new_occ = Occ::Range(idx as usize, par_idx as usize, range.0, range.1);
                    let rows1 = if at >= rows.len() {
                        rows.push(seq![new_occ])
                    } else {
                        rows.update(at, rows[at].push(new_occ))
                    };
                    mip.insert(split as usize, rows1)
                } else {
                    mip
                }
            } else {
                mip
            }
        } else {
            mip
        },
        None => mip,
    }
}

/// Both parent edges of one commit folded into the insertion table;
/// commits off every placed branch contribute nothing.
pub open spec fn spec_insert_commit_edges(
    mip: Map<usize, Seq<Seq<Occ>>>,
    cs: Seq<CommitView>,
    bs: Seq<BranchView>,
    m: Map<u64, usize>,
    idx: int,
    compact: bool,
) -> Map<usize, Seq<Seq<Occ>>> {
    if (cs[idx].branch_trace matches Some(tr) && tr < bs.len()) {
        spec_insert_edge(
            spec_insert_edge(mip, cs, bs, m, idx, 0, compact),
            cs,
            bs,
            m,
            idx,
            1,
            compact,
        )
    } else {
        mip
    }
}

/// The insertion table after the commits from `i` on are folded in.
pub open spec fn spec_inserts_from(
    mip: Map<usize, Seq<Seq<Occ>>>,
    cs: Seq<CommitView>,
    bs: Seq<BranchView>,
    m: Map<u64, usize>,
    i: int,
    compact: bool,
) -> Map<usize, Seq<Seq<Occ>>>
    decreases cs.len() - i,
{
    if i < 0 || i >= cs.len() {
        mip
    } else {
        spec_inserts_from(
            spec_insert_commit_edges(mip, cs, bs, m, i, compact),
            cs,
            bs,
            m,
            i + 1,
            compact,
        )
    }
}

/// The whole insertion-slots pass: the per-commit marker rows, then every
/// cross-column parent edge placed in its first non-conflicting row.
pub open spec fn spec_get_inserts(
    cs: Seq<CommitView>,
    bs: Seq<BranchView>,
    m: Map<u64, usize>,
    compact: bool,
) -> Map<usize, Seq<Seq<Occ>>> {
    spec_inserts_from(spec_init_inserts(cs, bs, cs.len() as int), cs, bs, m, 0, compact)
}

/// The mathematical value of an insertion table.
pub open spec fn inserts_view(m: Map<usize, Vec<Vec<Occ>>>) -> Map<usize, Seq<Seq<Occ>>> {
    Map::new(|k: usize| m.contains_key(k), |k: usize| m[k]@.map_values(|row: Vec<Occ>| row@))
}

/// Calculates the additional rows needed to route connections between
/// commits that sit on different columns: per commit index, a list of
/// rows, each holding the markers and column ranges already placed there.
#[verifier::loop_isolation(true)]
#[verifier::rlimit(100)]
pub fn get_inserts(graph: &GitGraph, compact: bool) -> (r: HashMap<usize, Vec<Vec<Occ>>>)
    requires
        graph_drawable(
            graph.commits@.map_values(|c: CommitInfo| c@),
            graph.all_branches@.map_values(|b: BranchInfo| b@),
        ),
    ensures
        forall|k: usize| r@.contains_key(k) <==> k < graph.commits@.len(),
        inserts_view(r@) == spec_get_inserts(
            graph.commits@.map_values(|c: CommitInfo| c@),
            graph.all_branches@.map_values(|b: BranchInfo| b@),
            graph.indices@,
            compact,
        ),
{
    let ghost cs = graph.commits@.map_values(|c: CommitInfo| c@);
    let ghost bs = graph.all_branches@.map_values(|b: BranchInfo| b@);
    let ghost m = graph.indices@;
    let n = graph.commits.len();
    let mut inserts: HashMap<usize, Vec<Vec<Occ>>> = HashMap::new();
    let mut idx: usize = 0;
    while idx < n
        invariant
            idx <= n,
            n == cs.len(),
            graph.commits@.len() == n,
            cs == graph.commits@.map_values(|c: CommitInfo| c@),
            bs == graph.all_branches@.map_values(|b: BranchInfo| b@),
            graph_drawable(cs, bs),
            forall|k: usize| inserts@.contains_key(k) <==> k < idx,
            inserts_view(inserts@) == spec_init_inserts(cs, bs, idx as int),
        decreases n - idx,
    {
        let ghost pre_view = inserts_view(inserts@);
        let column: usize = match graph.commits[idx].branch_trace {
            Some(tr) => if tr < graph.all_branches.len() {
                match graph.all_branches[tr].visual.column {
                    Some(c) => c,
                    None => 0,
                }
            } else {
                0
            },
            None => 0,
        };
        proof {
            assert(column == spec_commit_column(cs, bs, idx as int));
        }
        let mut row: Vec<Occ> = Vec::new();
        row.push(Occ::Commit(idx, column));
        let mut rows: Vec<Vec<Occ>> = Vec::new();
        rows.push(row);
        inserts.insert(idx, rows);
        proof {
            assert(rows@.map_values(|r2: Vec<Occ>| r2@) =~~= seq![
                seq![Occ::Commit(idx, spec_commit_column(cs, bs, idx as int))],
            ]);
            assert(inserts_view(inserts@) =~~= pre_view.insert(
                idx,
                seq![seq![Occ::Commit(idx, spec_commit_column(cs, bs, idx as int))]],
            ));
        }
        idx += 1;
    }
    let ghost init_full = spec_init_inserts(cs, bs, n as int);
    let mut idx: usize = 0;
    while idx < n
        invariant
            idx <= n,
            n == cs.len(),
            graph.commits@.len() == n,
            cs == graph.commits@.map_values(|c: CommitInfo| c@),
            bs == graph.all_branches@.map_values(|b: BranchInfo| b@),
            m == graph.indices@,
            graph_drawable(cs, bs),
            forall|k: usize| inserts@.contains_key(k) <==> k < n,
            spec_inserts_from(inserts_view(inserts@), cs, bs, m, idx as int, compact)
                == spec_inserts_from(init_full, cs, bs, m, 0, compact),
        decreases n - idx,
    {
        let ghost head_view = inserts_view(inserts@);
        let info_trace = graph.commits[idx].branch_trace;
        let mut traced = false;
        if let Some(trace) = info_trace {
            if trace < graph.all_branches.len() {
                traced = true;
                let column: usize = match graph.all_branches[trace].visual.column {
                    Some(c) => c,
                    None => 0,
                };
                proof {
                    assert(column == spec_commit_column(cs, bs, idx as int));
                }
                let mut p: usize = 0;
                while p < 2
                    invariant
                        p <= 2,
                        idx < n,
                        n == cs.len(),
                        graph.commits@.len() == n,
                        cs == graph.commits@.map_values(|c: CommitInfo| c@),
                        bs == graph.all_branches@.map_values(|b: BranchInfo| b@),
                        m == graph.indices@,
                        graph_drawable(cs, bs),
                        column == spec_commit_column(cs, bs, idx as int),
                        forall|k: usize| inserts@.contains_key(k) <==> k < n,
                        inserts_view(inserts@) == (if p == 0 {
                            head_view
                        } else if p == 1 {
                            spec_insert_edge(head_view, cs, bs, m, idx as int, 0, compact)
                        } else {
                            spec_insert_edge(
                                spec_insert_edge(head_view, cs, bs, m, idx as int, 0, compact),
                                cs,
                                bs,
                                m,
                                idx as int,
                                1,
                                compact,
                            )
                        }),
                    decreases 2 - p,
                {
                    let ghost pre_view = inserts_view(inserts@);
                    let par = graph.commits[idx].parent(p);
                    let mut done_edge = false;
                    if let Some(par_oid) = par {
                        if let Some(par_idx_ref) = graph.indices.get(&par_oid) {
                            let par_idx = *par_idx_ref;
                            if par_idx < n {
                                let par_column: usize = match graph.commits[par_idx].branch_trace {
                                    Some(tr) => if tr < graph.all_branches.len() {
                                        match graph.all_branches[tr].visual.column {
                                            Some(c) => c,
                                            None => 0,
                                        }
                                    } else {
                                        0
                                    },
                                    None => 0,
                                };
                                proof {
                                    assert(par_column == spec_commit_column(cs, bs, par_idx as int));
                                }
                                if column != par_column {
                                    let column_range = sorted(column, par_column);
                                    let split_index = get_deviate_index(graph, idx, par_idx);
                                    if split_index < n {
                                        let is_merge = graph.commits[idx].is_merge;
                                        let entry = match inserts.get(&split_index) {
                                            Some(v) => v,
                                            None => {
                                                proof {
                                                    assert(inserts@.contains_key(split_index));
                                                    assert(false);
                                                }
                                                return inserts;
                                            },
                                        };
                                        let ghost spec_rows = pre_view[split_index];
                                        proof {
                                            assert(entry@.map_values(|r2: Vec<Occ>| r2@)
                                                == spec_rows);
                                        }
                                        let nrows = entry.len();
                                        let mut insert_at = nrows;
                                        let mut found = false;
                                        let mut ri: usize = 0;
                                        while ri < nrows && !found
                                            invariant
                                                ri <= nrows,
                                                insert_at <= nrows,
                                                nrows == entry@.len(),
                                                nrows == spec_rows.len(),
                                                entry@.map_values(|r2: Vec<Occ>| r2@) == spec_rows,
                                                idx < n,
                                                par_idx < n,
                                                n == cs.len(),
                                                graph.commits@.len() == n,
                                                cs == graph.commits@.map_values(
                                                    |c: CommitInfo| c@,
                                                ),
                                                is_merge == cs[idx as int].is_merge,
                                                !found ==> insert_at == nrows
                                                    && spec_find_insert_row(
                                                    spec_rows,
                                                    column_range,
                                                    idx,
                                                    par_idx,
                                                    compact,
                                                    is_merge,
                                                    p as int,
                                                    0,
                                                ) == spec_find_insert_row(
                                                    spec_rows,
                                                    column_range,
                                                    idx,
                                                    par_idx,
                                                    compact,
                                                    is_merge,
                                                    p as int,
                                                    ri as int,
                                                ),
                                                found ==> insert_at as int
                                                    == spec_find_insert_row(
                                                    spec_rows,
                                                    column_range,
                                                    idx,
                                                    par_idx,
                                                    compact,
                                                    is_merge,
                                                    p as int,
                                                    0,
                                                ),
                                            decreases nrows - ri,
                                        {
                                            let sub_entry = &entry[ri];
                                            proof {
                                                assert(sub_entry@ == spec_rows[ri as int]);
                                            }
                                            let mut occ = false;
                                            let nsub = sub_entry.len();
                                            let mut q: usize = 0;
                                            while q < nsub
                                                invariant
                                                    q <= nsub,
                                                    nsub == sub_entry@.len(),
                                                    occ == exists|kk: int|
                                                        0 <= kk < q && spec_occ_blocks(
                                                            #[trigger] sub_entry@[kk],
                                                            column_range,
                                                            idx,
                                                            par_idx,
                                                            compact,
                                                            is_merge,
                                                            p as int,
                                                        ),
                                                decreases nsub - q,
                                            {
                                                let other = &sub_entry[q];
                                                if other.overlaps(&column_range) {
                                                    match other {
                                                        Occ::Commit(target_index, _) => {
                                                            if !compact || !is_merge || idx
                                                                != *target_index || p == 0 {
                                                                occ = true;
                                                            }
                                                        },
                                                        Occ::Range(o_idx, o_par_idx, _, _) => {
                                                            if idx != *o_idx && par_idx
                                                                != *o_par_idx {
                                                                occ = true;
                                                            }
                                                        },
                                                    }
                                                }
                                                q += 1;
                                            }
                                            proof {
                                                assert(occ == spec_row_blocked(
                                                    spec_rows[ri as int],
                                                    column_range,
                                                    idx,
                                                    par_idx,
                                                    compact,
                                                    is_merge,
                                                    p as int,
                                                ));
                                                if !occ {
                                                    assert(spec_find_insert_row(
                                                        spec_rows,
                                                        column_range,
                                                        idx,
                                                        par_idx,
                                                        compact,
                                                        is_merge,
                                                        p as int,
                                                        ri as int,
                                                    ) == ri as int);
                                                } else {
                                                    assert(spec_find_insert_row(
                                                        spec_rows,
                                                        column_range,
                                                        idx,
                                                        par_idx,
                                                        compact,
                                                        is_merge,
                                                        p as int,
                                                        ri as int,
                                                    ) == spec_find_insert_row(
                                                        spec_rows,
                                                        column_range,
                                                        idx,
                                                        par_idx,
                                                        compact,
                                                        is_merge,
                                                        p as int,
                                                        ri as int + 1,
                                                    ));
                                                }
                                            }
                                            if !occ {
                                                insert_at = ri;
                                                found = true;
                                            }
                                            ri += 1;
                                        }
                                        proof {
                                            if !found {
                                                assert(spec_find_insert_row(
                                                    spec_rows,
                                                    column_range,
                                                    idx,
                                                    par_idx,
                                                    compact,
                                                    is_merge,
                                                    p as int,
                                                    nrows as int,
                                                ) == nrows as int);
                                            }
                                            assert(insert_at as int == spec_find_insert_row(
                                                spec_rows,
                                                column_range,
                                                idx,
                                                par_idx,
                                                compact,
                                                is_merge,
                                                p as int,
                                                0,
                                            ));
                                        }
                                        let mut entry_owned = match inserts.remove(&split_index) {
                                            Some(v) => v,
                                            None => {
                                                proof {
                                                    assert(false);
                                                }
                                                return inserts;
                                            },
                                        };
                                        let new_occ = Occ::Range(
                                            idx,
                                            par_idx,
                                            column_range.0,
                                            column_range.1,
                                        );
                                        let ghost pre_rows_vec = entry_owned@;
                                        if insert_at >= entry_owned.len() {
                                            let mut new_row: Vec<Occ> = Vec::new();
                                            new_row.push(new_occ);
                                            entry_owned.push(new_row);
                                        } else {
                                            let mut row = entry_owned.remove(insert_at);
                                            row.push(new_occ);
                                            entry_owned.insert(insert_at, row);
                                        }
                                        proof {
                                            let rows1 = if insert_at as int >= spec_rows.len() {
                                                spec_rows.push(seq![new_occ])
                                            } else {
                                                spec_rows.update(
                                                    insert_at as int,
                                                    spec_rows[insert_at as int].push(new_occ),
                                                )
                                            };
                                            assert(pre_rows_vec.map_values(|r2: Vec<Occ>| r2@)
                                                == spec_rows);
                                            assert(entry_owned@.map_values(|r2: Vec<Occ>| r2@)
                                                =~~= rows1) by {
                                                if insert_at < spec_rows.len() {
                                                    assert(entry_owned@ =~= pre_rows_vec.update(
                                                        insert_at as int,
                                                        entry_owned@[insert_at as int],
                                                    ));
                                                }
                                            }
                                        }
                                        inserts.insert(split_index, entry_owned);
                                        done_edge = true;
                                        proof {
                                            let rows1 = entry_owned@.map_values(
                                                |r2: Vec<Occ>| r2@,
                                            );
                                            assert(inserts_view(inserts@) =~~= pre_view.insert(
                                                split_index,
                                                rows1,
                                            ));
                                            assert(inserts_view(inserts@) =~~= spec_insert_edge(
                                                pre_view,
                                                cs,
                                                bs,
                                                m,
                                                idx as int,
                                                p as int,
                                                compact,
                                            ));
                                            assert forall|k: usize| inserts@.contains_key(k)
                                                <==> k < n by {}
                                        }
                                    }
                                }
                            }
                        }
                    }
                    proof {
                        if !done_edge {
                            assert(inserts_view(inserts@) == pre_view);
                            assert(spec_insert_edge(pre_view, cs, bs, m, idx as int, p as int, compact)
                                == pre_view);
                        }
                    }
                    p += 1;
                }
            }
        }
        proof {
            let cur_view = inserts_view(inserts@);
            if traced {
                assert(spec_insert_commit_edges(head_view, cs, bs, m, idx as int, compact)
                    == cur_view);
            } else {
                assert(spec_insert_commit_edges(head_view, cs, bs, m, idx as int, compact)
                    == head_view);
            }
            assert(spec_inserts_from(head_view, cs, bs, m, idx as int, compact)
                == spec_inserts_from(cur_view, cs, bs, m, idx as int + 1, compact));
        }
        idx += 1;
    }
    proof {
        assert(spec_inserts_from(inserts_view(inserts@), cs, bs, m, n as int, compact)
            == inserts_view(inserts@));
    }
    inserts
}

/// A row that holds only connector ranges (it needs a grid row of its own,
/// with no commit marker on it).
pub open spec fn spec_row_all_ranges(row: Seq<Occ>) -> bool {
    forall|k: int| 0 <= k < row.len() ==> (#[trigger] row[k]) matches Occ::Range(_, _, _, _)
}

/// How many of an index's insertion rows are pure connector rows.
pub open spec fn spec_count_insert_rows(rows: Seq<Seq<Occ>>) -> int
    decreases rows.len(),
{
    if rows.len() == 0 {
        0
    } else {
        spec_count_insert_rows(rows.drop_last()) + if spec_row_all_ranges(rows.last()) {
            1int
        } else {
            0int
        }
    }
}

/// The rows inserted before the commit at `idx`: its pure connector rows
/// or its extra text lines, whichever needs more room.
pub open spec fn spec_max_inserts(
    imap: Map<usize, Seq<Seq<Occ>>>,
    lens: Seq<int>,
    idx: int,
) -> int {
    let cnt = if imap.contains_key(idx as usize) {
        spec_count_insert_rows(imap[idx as usize])
    } else {
        0
    };
    let num_lines = if lens[idx] == 0 {
        0
    } else {
        lens[idx] - 1
    };
    if cnt >= num_lines {
        cnt
    } else {
        num_lines
    }
}

/// How many extra rows come before the commit at `i`: the commit's grid
/// row is `i` plus this offset.
pub open spec fn spec_text_offset(imap: Map<usize, Seq<Seq<Occ>>>, lens: Seq<int>, i: int) -> int
    decreases i,
{
    if i <= 0 {
        0
    } else {
        spec_text_offset(imap, lens, i - 1) + spec_max_inserts(imap, lens, i - 1)
    }
}

/// The number of text lines laid out for the first `i` commits (each
/// commit's own lines, padded up to its inserted rows).
pub open spec fn spec_text_rows(imap: Map<usize, Seq<Seq<Occ>>>, lens: Seq<int>, i: int) -> int
    decreases i,
{
    if i <= 0 {
        0
    } else {
        spec_text_rows(imap, lens, i - 1) + lens[i - 1] + spec_max_inserts(imap, lens, i - 1) - (
        if lens[i - 1] == 0 {
            0int
        } else {
            lens[i - 1] - 1
        })
    }
}

/// Pure connector rows are never counted negative.
proof fn lemma_count_insert_rows_nonneg(rows: Seq<Seq<Occ>>)
    ensures
        spec_count_insert_rows(rows) >= 0,
    decreases rows.len(),
{
    if rows.len() > 0 {
        lemma_count_insert_rows_nonneg(rows.drop_last());
    }
}

/// The row offset only grows with the commit index.
proof fn lemma_text_offset_mono(imap: Map<usize, Seq<Seq<Occ>>>, lens: Seq<int>, a: int, b: int)
    requires
        a <= b,
    ensures
        spec_text_offset(imap, lens, a) <= spec_text_offset(imap, lens, b),
    decreases b - a,
{
    if a < b {
        lemma_text_offset_mono(imap, lens, a, b - 1);
        if imap.contains_key((b - 1) as usize) {
            lemma_count_insert_rows_nonneg(imap[(b - 1) as usize]);
        }
    }
}

/// The widest column any branch was placed in.
pub open spec fn spec_max_column(bs: Seq<BranchView>, i: int) -> usize
    decreases i,
{
    if i <= 0 {
        0
    } else {
        let rest = spec_max_column(bs, i - 1);
        match bs[i - 1].visual.column {
            Some(c) => if c > rest {
                c
            } else {
                rest
            },
            None => rest,
        }
    }
}

/// The sizes the renderer must allocate all fit the machine: the column
/// count, the row count, and the whole cell grid.
pub open spec fn spec_render_fits(
    bs: Seq<BranchView>,
    imap: Map<usize, Seq<Seq<Occ>>>,
    lens: Seq<int>,
    n: int,
) -> bool {
    let mc = spec_max_column(bs, bs.len() as int) as int;
    let height = n + spec_text_offset(imap, lens, n);
    &&& 2 * mc + 1 <= usize::MAX
    &&& height <= usize::MAX
    &&& (2 * mc + 1) * height <= usize::MAX
}

/// The connector rows of one insertion entry drawn for the edge
/// `(idx, par_idx)`: every matching range routes a vertical line down to
/// its own row, the horizontal span, and a vertical line on to the parent.
pub open spec fn spec_draw_rows(
    data: Seq<GridCell>,
    w: int,
    h: int,
    rows: Seq<Seq<Occ>>,
    ri: int,
    q: int,
    idx: usize,
    par_idx: usize,
    srow: int,
    irow: int,
    prow: int,
    column: usize,
    par_column: usize,
    arrow: bool,
    color: u8,
    pers: u8,
) -> Seq<GridCell>
    decreases rows.len() - ri, (if 0 <= ri < rows.len() {
        rows[ri].len() + 1 - q
    } else {
        0int
    }),
{
    if ri < 0 || ri >= rows.len() || q < 0 {
        data
    } else if q >= rows[ri].len() {
        spec_draw_rows(
            data,
            w,
            h,
            rows,
            ri + 1,
            0,
            idx,
            par_idx,
            srow,
            irow,
            prow,
            column,
            par_column,
            arrow,
            color,
            pers,
        )
    } else {
        let hit = match rows[ri][q] {
            Occ::Commit(_, _) => false,
            Occ::Range(i1, i2, _, _) => i1 == idx && i2 == par_idx,
        };
        let data1 = if hit && srow + ri < h && 2 * column < w && 2 * par_column < w {
            let d1 = spec_vline_apply(data, w, column as int, irow, srow + ri, color, pers);
            let d2 = spec_hline_apply(
                d1,
                w,
                srow + ri,
                par_column as int,
                column as int,
                arrow,
                color,
                pers,
            );
            spec_vline_apply(d2, w, par_column as int, srow + ri, prow, color, pers)
        } else {
            data
        };
        spec_draw_rows(
            data1,
            w,
            h,
            rows,
            ri,
            q + 1,
            idx,
            par_idx,
            srow,
            irow,
            prow,
            column,
            par_column,
            arrow,
            color,
            pers,
        )
    }
}

/// One parent edge drawn: a shared column gives a straight vertical line,
/// different columns route through the edge's insertion rows.
pub open spec fn spec_draw_edge(
    data: Seq<GridCell>,
    w: int,
    h: int,
    cs: Seq<CommitView>,
    bs: Seq<BranchView>,
    m: Map<u64, usize>,
    imap: Map<usize, Seq<Seq<Occ>>>,
    lens: Seq<int>,
    idx: int,
    p: int,
) -> Seq<GridCell> {
    match cs[idx].parent(p) {
        Some(par_oid) => if m.contains_key(par_oid) && m[par_oid] < cs.len() {
            let par_idx = m[par_oid] as int;
            match cs[par_idx].branch_trace {
                Some(ptr) => if ptr < bs.len() {
                    let column = spec_commit_column(cs, bs, idx);
                    let par_column = spec_commit_column(cs, bs, par_idx);
                    let own = cs[idx].branch_trace->0;
                    let color = if cs[idx].is_merge {
                        bs[ptr as int].visual.term_color
                    } else {
                        bs[own as int].visual.term_color
                    };
                    let pers = if cs[idx].is_merge {
                        bs[ptr as int].persistence
                    } else {
                        bs[own as int].persistence
                    };
                    let irow = idx + spec_text_offset(imap, lens, idx);
                    let prow = par_idx + spec_text_offset(imap, lens, par_idx);
                    if par_column == column {
                        if prow > irow + 1 && 2 * column < w && prow <= h {
                            spec_vline_apply(data, w, column as int, irow, prow, color, pers)
                        } else {
                            data
                        }
                    } else {
                        let split = spec_deviate_index(cs, bs, m, idx, par_idx);
                        if 0 <= split < cs.len() && imap.contains_key(split as usize) {
                            let srow = split + spec_text_offset(imap, lens, split);
                            spec_draw_rows(
                                data,
                                w,
                                h,
                                imap[split as usize],
                                0,
                                0,
                                idx as usize,
                                par_idx as usize,
                                srow,
                                irow,
                                prow,
                                column,
                                par_column,
                                cs[idx].is_merge && p > 0,
                                color,
                                pers,
                            )
                        } else {
                            data
                        }
                    }
                } else {
                    data
                },
                None => data,
            }
        } else {
            data
        },
        None => data,
    }
}

/// One commit drawn: its dot (circle for a merge) on its branch's column
/// and row, then both parent edges.
pub open spec fn spec_draw_commit(
    data: Seq<GridCell>,
    w: int,
    h: int,
    cs: Seq<CommitView>,
    bs: Seq<BranchView>,
    m: Map<u64, usize>,
    imap: Map<usize, Seq<Seq<Occ>>>,
    lens: Seq<int>,
    mc: usize,
    idx: int,
) -> Seq<GridCell> {
    match cs[idx].branch_trace {
        Some(tr) => if tr < bs.len() {
            let column = spec_commit_column(cs, bs, idx);
            let irow = idx + spec_text_offset(imap, lens, idx);
            let d0 = if column <= mc && irow < h {
                data.update(
                    irow * w + 2 * column,
                    GridCell {
                        character: if cs[idx].is_merge {
                            CIRCLE
                        } else {
                            DOT
                        },
                        color: bs[tr as int].visual.term_color,
                        pers: bs[tr as int].persistence,
                    },
                )
            } else {
                data
            };
            let d1 = spec_draw_edge(d0, w, h, cs, bs, m, imap, lens, idx, 0);
            spec_draw_edge(d1, w, h, cs, bs, m, imap, lens, idx, 1)
        } else {
            data
        },
        None => data,
    }
}

/// The commits from `i` on drawn onto the grid.
pub open spec fn spec_draw_from(
    data: Seq<GridCell>,
    w: int,
    h: int,
    cs: Seq<CommitView>,
    bs: Seq<BranchView>,
    m: Map<u64, usize>,
    imap: Map<usize, Seq<Seq<Occ>>>,
    lens: Seq<int>,
    mc: usize,
    i: int,
) -> Seq<GridCell>
    decreases cs.len() - i,
{
    if i < 0 || i >= cs.len() {
        data
    } else {
        spec_draw_from(
            spec_draw_commit(data, w, h, cs, bs, m, imap, lens, mc, i),
            w,
            h,
            cs,
            bs,
            m,
            imap,
            lens,
            mc,
            i + 1,
        )
    }
}

/// The finished cell grid: a blank grid of the graph's dimensions with
/// every commit and parent edge drawn.
pub open spec fn spec_grid_data(
    cs: Seq<CommitView>,
    bs: Seq<BranchView>,
    m: Map<u64, usize>,
    compact: bool,
    lens: Seq<int>,
    default: GridCell,
) -> Seq<GridCell> {
    let imap = spec_get_inserts(cs, bs, m, compact);
    let mc = spec_max_column(bs, bs.len() as int);
    let w = 2 * mc + 1;
    let h = cs.len() + spec_text_offset(imap, lens, cs.len() as int);
    spec_draw_from(
        Seq::new((w * h) as nat, |k: int| default),
        w as int,
        h,
        cs,
        bs,
        m,
        imap,
        lens,
        mc,
        0,
    )
}

/// The characters of one row of a cell vector, uncolored.
pub open spec fn spec_data_row_chars(
    data: Seq<GridCell>,
    w: int,
    characters: Characters,
    y: int,
) -> Seq<char> {
    Seq::new(
        w as nat,
        |x: int|
            if data[y * w + x].character < 16 {
                characters.chars@[data[y * w + x].character as int]
            } else {
                ' '
            },
    )
}

/// The names `a` joined with `", "` separators.
pub open spec fn spec_joined(names: Seq<Seq<char>>) -> Seq<char>
    decreases names.len(),
{
    if names.len() == 0 {
        Seq::<char>::empty()
    } else if names.len() == 1 {
        names[0]
    } else {
        spec_joined(names.drop_last()) + ", "@ + names.last()
    }
}

/// The label ids whose branch name does (or does not) equal `name`, in
/// stored order.
pub open spec fn spec_select_labels(
    bs: Seq<BranchView>,
    ids: Seq<usize>,
    name: Seq<char>,
    want_eq: bool,
) -> Seq<usize>
    decreases ids.len(),
{
    if ids.len() == 0 {
        Seq::<usize>::empty()
    } else {
        spec_select_labels(bs, ids.drop_last(), name, want_eq) + (if (bs[ids.last() as int].name
            == name) == want_eq {
            seq![ids.last()]
        } else {
            Seq::<usize>::empty()
        })
    }
}

/// The branch labels of a commit in display order: labels of the checked
/// out branch first, the rest in stored order.
pub open spec fn spec_head_first(
    bs: Seq<BranchView>,
    ids: Seq<usize>,
    head_name: Seq<char>,
) -> Seq<usize> {
    spec_select_labels(bs, ids, head_name, true) + spec_select_labels(bs, ids, head_name, false)
}

/// The uncolored label text behind a commit: the detached HEAD marker, the
/// branch list in parentheses (HEAD first), and the tag list in brackets
/// with their `tags/` prefix cut off.
pub open spec fn spec_format_branches(
    bs: Seq<BranchView>,
    branches: Seq<usize>,
    tags: Seq<usize>,
    head: Option<(Seq<char>, bool)>,
) -> Seq<char> {
    let head_part: Seq<char> = match head {
        Some(h) => if !h.1 {
            " HEAD ->"@
        } else {
            Seq::<char>::empty()
        },
        None => Seq::<char>::empty(),
    };
    let ordered = match head {
        Some(h) => spec_head_first(bs, branches, h.0),
        None => branches,
    };
    let head_marker: Seq<char> = match head {
        Some(h) => if h.1 && branches.len() > 0 {
            "HEAD -> "@
        } else {
            Seq::<char>::empty()
        },
        None => Seq::<char>::empty(),
    };
    let branch_part: Seq<char> = if branches.len() > 0 {
        " ("@ + head_marker + spec_joined(ordered.map_values(|l: usize| bs[l as int].name)) + ")"@
    } else {
        Seq::<char>::empty()
    };
    let tag_part: Seq<char> = if tags.len() > 0 {
        " ["@ + spec_joined(tags.map_values(|l: usize| bs[l as int].name.skip(5))) + "]"@
    } else {
        Seq::<char>::empty()
    };
    head_part + branch_part + tag_part
}

/// All label ids of the commit point at branches, and tag names carry
/// their `tags/` prefix.
pub open spec fn labels_ok(info: CommitView, bs: Seq<BranchView>) -> bool {
    &&& forall|k: int| 0 <= k < info.branches.len() ==> (#[trigger] info.branches[k]) < bs.len()
    &&& forall|k: int|
        0 <= k < info.tags.len() ==> (#[trigger] info.tags[k]) < bs.len() && bs[info.tags[k] as int].name.len()
            >= 5
}

/// Formats the branch and tag labels of a commit; without coloring the
/// result is exactly the plain label text.
#[verifier::loop_isolation(true)]
pub fn format_branches(
    graph: &GitGraph,
    info: &CommitInfo,
    head: Option<&HeadInfo>,
    color: bool,
) -> (r: String)
    requires
        labels_ok(info@, graph.all_branches@.map_values(|b: BranchInfo| b@)),
    ensures
        !color ==> r@ == spec_format_branches(
            graph.all_branches@.map_values(|b: BranchInfo| b@),
            info@.branches,
            info@.tags,
            match head {
                Some(h) => Some((h.name@, h.is_branch)),
                None => None,
            },
        ),
{
    let ghost bs = graph.all_branches@.map_values(|b: BranchInfo| b@);
    let ghost spec_head: Option<(Seq<char>, bool)> = match head {
        Some(h) => Some((h.name@, h.is_branch)),
        None => None,
    };
    let mut out = String::new();
    if let Some(h) = head {
        if !h.is_branch {
            if color {
                out.append(" ");
                let painted_head = paint_fixed(HEAD_COLOR, "HEAD ->");
                out.append(painted_head.as_str());
            } else {
                out.append(" HEAD ->");
            }
        }
    }
    let ghost after_head = out@;
    let nb = info.branches.len();
    if nb > 0 {
        out.append(" (");
        // the checked out branch's labels come first
        let mut ordered: Vec<usize> = Vec::new();
        match head {
            Some(h) => {
                let mut k: usize = 0;
                while k < nb
                    invariant
                        k <= nb,
                        nb == info@.branches.len(),
                        labels_ok(info@, bs),
                        bs == graph.all_branches@.map_values(|b: BranchInfo| b@),
                        forall|q: int| 0 <= q < ordered@.len() ==> (#[trigger] ordered@[q]) < bs.len(),
                        ordered@ =~= spec_select_labels(
                            bs,
                            info@.branches.take(k as int),
                            h.name@,
                            true,
                        ),
                    decreases nb - k,
                {
                    let l = info.branches[k];
                    proof {
                        assert(info@.branches.take(k as int + 1).drop_last() =~= info@.branches.take(
                            k as int,
                        ));
                        assert(info@.branches.take(k as int + 1).last() == info@.branches[k as int]);
                    }
                    if str_eq(graph.all_branches[l].name.as_str(), h.name.as_str()) {
                        ordered.push(l);
                    }
                    k += 1;
                }
                let mut k: usize = 0;
                let ghost eq_part = ordered@;
                while k < nb
                    invariant
                        k <= nb,
                        nb == info@.branches.len(),
                        labels_ok(info@, bs),
                        bs == graph.all_branches@.map_values(|b: BranchInfo| b@),
                        forall|q: int| 0 <= q < ordered@.len() ==> (#[trigger] ordered@[q]) < bs.len(),
                        ordered@ =~= eq_part + spec_select_labels(
                            bs,
                            info@.branches.take(k as int),
                            h.name@,
                            false,
                        ),
                    decreases nb - k,
                {
                    let l = info.branches[k];
                    proof {
                        assert(info@.branches.take(k as int + 1).drop_last() =~= info@.branches.take(
                            k as int,
                        ));
                        assert(info@.branches.take(k as int + 1).last() == info@.branches[k as int]);
                    }
                    if !str_eq(graph.all_branches[l].name.as_str(), h.name.as_str()) {
                        ordered.push(l);
                    }
                    k += 1;
                }
                proof {
                    assert(info@.branches.take(nb as int) =~= info@.branches);
                }
            },
            None => {
                let mut k: usize = 0;
                while k < nb
                    invariant
                        k <= nb,
                        nb == info@.branches.len(),
                        labels_ok(info@, bs),
                        forall|q: int| 0 <= q < ordered@.len() ==> (#[trigger] ordered@[q]) < bs.len(),
                        ordered@ =~= info@.branches.take(k as int),
                    decreases nb - k,
                {
                    ordered.push(info.branches[k]);
                    k += 1;
                }
                proof {
                    assert(info@.branches.take(nb as int) =~= info@.branches);
                }
            },
        }
        let ghost ordered_spec = match spec_head {
            Some(h) => spec_head_first(bs, info@.branches, h.0),
            None => info@.branches,
        };
        proof {
            assert(ordered@ =~= ordered_spec);
            assert(forall|q: int| 0 <= q < ordered@.len() ==> (#[trigger] ordered@[q]) < bs.len());
            assert forall|q: int| 0 <= q < ordered_spec.len() implies (#[trigger] ordered_spec[q])
                < bs.len() by {
                assert(ordered_spec[q] == ordered@[q]);
            }
        }
        if let Some(h) = head {
            if h.is_branch {
                if color {
                    let painted_head = paint_fixed(HEAD_COLOR, "HEAD ->");
                    out.append(painted_head.as_str());
                    out.append(" ");
                } else {
                    out.append("HEAD -> ");
                }
            }
        }
        let ghost before_names = out@;
        let no = ordered.len();
        let mut k: usize = 0;
        while k < no
            invariant
                k <= no,
                no == ordered_spec.len(),
                ordered@ == ordered_spec,
                labels_ok(info@, bs),
                bs == graph.all_branches@.map_values(|b: BranchInfo| b@),
                forall|q: int| 0 <= q < no ==> (#[trigger] ordered_spec[q]) < bs.len(),
                !color ==> out@ == before_names + spec_joined(
                    ordered_spec.take(k as int).map_values(|l: usize| bs[l as int].name),
                ),
            decreases no - k,
        {
            let l = ordered[k];
            if k > 0 {
                out.append(", ");
            }
            if color {
                let painted_name = paint_fixed(
                    graph.all_branches[l].visual.term_color,
                    graph.all_branches[l].name.as_str(),
                );
                out.append(painted_name.as_str());
            } else {
                out.append(graph.all_branches[l].name.as_str());
            }
            proof {
                let names = ordered_spec.take(k as int + 1).map_values(|q: usize| bs[q as int].name);
                assert(names.drop_last() =~= ordered_spec.take(k as int).map_values(
                    |q: usize| bs[q as int].name,
                ));
                assert(names.last() == bs[ordered_spec[k as int] as int].name);
                if k == 0 {
                    assert(names =~= seq![bs[ordered_spec[0] as int].name]);
                }
            }
            k += 1;
        }
        proof {
            assert(ordered_spec.take(no as int) =~= ordered_spec);
        }
        out.append(")");
    }
    let nt = info.tags.len();
    if nt > 0 {
        out.append(" [");
        let ghost before_tags = out@;
        let mut k: usize = 0;
        while k < nt
            invariant
                k <= nt,
                nt == info@.tags.len(),
                labels_ok(info@, bs),
                bs == graph.all_branches@.map_values(|b: BranchInfo| b@),
                !color ==> out@ == before_tags + spec_joined(
                    info@.tags.take(k as int).map_values(|l: usize| bs[l as int].name.skip(5)),
                ),
            decreases nt - k,
        {
            let l = info.tags[k];
            if k > 0 {
                out.append(", ");
            }
            let tag_name = &graph.all_branches[l].name;
            let tlen = tag_name.as_str().unicode_len();
            let short = tag_name.as_str().substring_char(5, tlen);
            if color {
                let tc = match info.branch_trace {
                    Some(tr) => if tr < graph.all_branches.len() {
                        graph.all_branches[tr].visual.term_color
                    } else {
                        graph.all_branches[l].visual.term_color
                    },
                    None => graph.all_branches[l].visual.term_color,
                };
                let painted_name = paint_fixed(tc, short);
                out.append(painted_name.as_str());
            } else {
                out.append(short);
            }
            proof {
                let names = info@.tags.take(k as int + 1).map_values(
                    |q: usize| bs[q as int].name.skip(5),
                );
                assert(names.drop_last() =~= info@.tags.take(k as int).map_values(
                    |q: usize| bs[q as int].name.skip(5),
                ));
                assert(names.last() == bs[info@.tags[k as int] as int].name.skip(5));
                assert(short@ == bs[info@.tags[k as int] as int].name.skip(5));
                if k == 0 {
                    assert(names =~= seq![bs[info@.tags[0] as int].name.skip(5)]);
                }
            }
            k += 1;
        }
        proof {
            assert(info@.tags.take(nt as int) =~= info@.tags);
        }
        out.append("]");
    }
    out
}

/// The characters of one grid row, uncolored.
pub open spec fn spec_row_chars(grid: Grid, characters: Characters, y: int) -> Seq<char> {
    Seq::<char>::new(
        grid.width as nat,
        |x: int|
            if grid.cell(x, y).character < 16 {
                characters.chars@[grid.cell(x, y).character as int]
            } else {
                ' '
            },
    )
}

/// Renders the grid row by row next to the commit text: one string of
/// drawing characters and one text string per row (rows are paired with the
/// text lines, the shorter side ends the output).  Without coloring every
/// graph line is exactly the row's characters.
#[verifier::loop_isolation(true)]
pub fn print_graph(
    characters: &Characters,
    grid: &Grid,
    text_lines: Vec<Option<String>>,
    color: bool,
) -> (r: (Vec<String>, Vec<String>))
    requires
        characters.wf(),
        grid.wf(),
    ensures
        r.0@.len() == r.1@.len(),
        r.0@.len() == (if grid.height_spec() <= text_lines@.len() {
            grid.height_spec()
        } else {
            text_lines@.len() as int
        }),
        !color ==> forall|y: int|
            0 <= y < r.0@.len() ==> (#[trigger] r.0@[y])@ == spec_row_chars(
                *grid,
                *characters,
                y,
            ),
        forall|y: int|
            0 <= y < r.1@.len() ==> (#[trigger] r.1@[y])@ == (match text_lines@[y] {
                Some(line) => line@,
                None => Seq::<char>::empty(),
            }),
{
    let mut g_lines: Vec<String> = Vec::new();
    let mut t_lines: Vec<String> = Vec::new();
    if grid.width == 0 {
        return (g_lines, t_lines);
    }
    let w = grid.width;
    let total = grid.data.len();
    let height = total / w;
    let nrows = if height <= text_lines.len() {
        height
    } else {
        text_lines.len()
    };
    let mut y: usize = 0;
    while y < nrows
        invariant
            y <= nrows,
            w == grid.width,
            w > 0,
            grid.wf(),
            characters.wf(),
            height == grid.height_spec(),
            nrows == (if grid.height_spec() <= text_lines@.len() {
                grid.height_spec()
            } else {
                text_lines@.len() as int
            }),
            g_lines@.len() == y,
            t_lines@.len() == y,
            nrows <= text_lines@.len(),
            !color ==> forall|q: int|
                0 <= q < y ==> (#[trigger] g_lines@[q])@ == spec_row_chars(
                    *grid,
                    *characters,
                    q,
                ),
            forall|q: int|
                0 <= q < y ==> (#[trigger] t_lines@[q])@ == (match text_lines@[q] {
                    Some(line) => line@,
                    None => Seq::<char>::empty(),
                }),
        decreases nrows - y,
    {
        let mut g_out = String::new();
        let mut x: usize = 0;
        while x < w
            invariant
                x <= w,
                w == grid.width,
                w > 0,
                y < nrows,
                nrows <= grid.height_spec(),
                grid.wf(),
                characters.wf(),
                !color ==> g_out@ =~= spec_row_chars(*grid, *characters, y as int).take(x as int),
            decreases w - x,
        {
            proof {
                lemma_grid_index_bound(w as int, grid.height_spec(), x as int, y as int);
                assert(w as int * grid.height_spec() == grid.data@.len());
            }
            let total = grid.data.len();
            let cell = grid.data[y * w + x];
            let ch: char = if cell.character < 16 {
                characters.chars[cell.character as usize]
            } else {
                ' '
            };
            if color && cell.character != SPACE {
                let mut cell_str = String::new();
                push_char(&mut cell_str, ch);
                let painted_cell = paint_fixed(cell.color, cell_str.as_str());
                g_out.append(painted_cell.as_str());
            } else {
                push_char(&mut g_out, ch);
            }
            proof {
                if !color {
                    assert(g_out@ =~= spec_row_chars(*grid, *characters, y as int).take(
                        x as int + 1,
                    ));
                }
            }
            x += 1;
        }
        proof {
            if !color {
                assert(spec_row_chars(*grid, *characters, y as int).take(w as int)
                    =~= spec_row_chars(*grid, *characters, y as int));
            }
        }
        let t_out: String = match &text_lines[y] {
            Some(line) => line.clone(),
            None => String::new(),
        };
        g_lines.push(g_out);
        t_lines.push(t_out);
        y += 1;
    }
    (g_lines, t_lines)
}

/// Creates the text-based visual representation of the graph: the commit
/// dots, the vertical branch lines and the routed connector lines, next to
/// the pre-formatted commit text.
///
/// The contract pins the whole result: construction succeeds exactly when
/// the grid's dimensions fit the machine, the third component maps commit
/// `i` to grid row `i` plus the rows inserted before it (so it is strictly
/// increasing), the line counts follow the commit count plus the inserted
/// rows, and without coloring every graph line is a row of the grid that
/// [spec_grid_data] draws.
#[verifier::loop_isolation(true)]
#[verifier::rlimit(100)]
pub fn print_unicode(
    graph: &GitGraph,
    settings: &Settings,
    text_per_commit: &Vec<Vec<String>>,
) -> (r: Result<(Vec<String>, Vec<String>, Vec<usize>), String>)
    requires
        graph_drawable(
            graph.commits@.map_values(|c: CommitInfo| c@),
            graph.all_branches@.map_values(|b: BranchInfo| b@),
        ),
        settings.characters.wf(),
        settings.branches.persistence@.len() + 2 <= 255,
        text_per_commit@.len() == graph.commits@.len(),
    ensures
        ({
            let cs = graph.commits@.map_values(|c: CommitInfo| c@);
            let bs = graph.all_branches@.map_values(|b: BranchInfo| b@);
            let m = graph.indices@;
            let lens = text_per_commit@.map_values(|v: Vec<String>| v@.len() as int);
            let imap = spec_get_inserts(cs, bs, m, settings.compact);
            let nn = cs.len() as int;
            let fits = spec_render_fits(bs, imap, lens, nn);
            let mc = spec_max_column(bs, bs.len() as int);
            let height = nn + spec_text_offset(imap, lens, nn);
            let trows = spec_text_rows(imap, lens, nn);
            let default = GridCell {
                character: SPACE,
                color: WHITE,
                pers: (settings.branches.persistence@.len() + 2) as u8,
            };
            &&& (bs.len() == 0 ==> (r matches Ok(v) && v.0@.len() == 0 && v.1@.len() == 0
                && v.2@.len() == 0))
            &&& (bs.len() > 0 && fits ==> r is Ok)
            &&& (r is Err ==> !fits)
            &&& (bs.len() > 0 ==> match r {
                Ok(v) => {
                    &&& v.2@.len() == nn
                    &&& forall|i: int|
                        0 <= i < nn ==> #[trigger] v.2@[i] as int == i + spec_text_offset(
                            imap,
                            lens,
                            i,
                        )
                    &&& forall|i: int, j: int| 0 <= i < j < nn ==> v.2@[i] < v.2@[j]
                    &&& v.0@.len() == v.1@.len()
                    &&& v.0@.len() == (if height <= trows {
                        height
                    } else {
                        trows
                    })
                    &&& !settings.colored ==> forall|y: int|
                        0 <= y < v.0@.len() ==> (#[trigger] v.0@[y])@ == spec_data_row_chars(
                            spec_grid_data(cs, bs, m, settings.compact, lens, default),
                            2 * mc + 1,
                            settings.characters,
                            y,
                        )
                },
                Err(_) => true,
            })
        }),
{
    let ghost cs = graph.commits@.map_values(|c: CommitInfo| c@);
    let ghost bs = graph.all_branches@.map_values(|b: BranchInfo| b@);
    let ghost m = graph.indices@;
    let ghost lens = text_per_commit@.map_values(|v: Vec<String>| v@.len() as int);
    let ghost imap = spec_get_inserts(cs, bs, m, settings.compact);
    let ghost nn = cs.len() as int;
    let ghost mc_spec = spec_max_column(bs, bs.len() as int);
    let ghost hh = nn + spec_text_offset(imap, lens, nn);
    let n = graph.commits.len();
    if graph.all_branches.len() == 0 {
        proof {
            // a drawable commit needs a branch, so there is no commit either
            if cs.len() > 0 {
                assert(cs[0].branch_trace matches Some(t) && t < bs.len());
            }
        }
        let e1: Vec<String> = Vec::new();
        let e2: Vec<String> = Vec::new();
        let e3: Vec<usize> = Vec::new();
        return Ok((e1, e2, e3));
    }
    let mut max_column: usize = 0;
    let nb = graph.all_branches.len();
    let mut bi: usize = 0;
    while bi < nb
        invariant
            bi <= nb,
            nb == graph.all_branches@.len(),
            bs == graph.all_branches@.map_values(|b: BranchInfo| b@),
            max_column == spec_max_column(bs, bi as int),
            forall|q: int|
                0 <= q < bi && (#[trigger] bs[q]).visual.column is Some ==> bs[q].visual.column->0
                    <= max_column,
        decreases nb - bi,
    {
        if let Some(c) = graph.all_branches[bi].visual.column {
            if c > max_column {
                max_column = c;
            }
        }
        bi += 1;
    }
    proof {
        assert(max_column == mc_spec);
    }
    let num_cols = match max_column.checked_mul(2) {
        Some(v) => match v.checked_add(1) {
            Some(v2) => v2,
            None => {
                proof {
                    assert(!spec_render_fits(bs, imap, lens, nn));
                }
                return Err(String::from_str("graph is too wide"));
            },
        },
        None => {
            proof {
                assert(!spec_render_fits(bs, imap, lens, nn));
            }
            return Err(String::from_str("graph is too wide"));
        },
    };
    let inserts = get_inserts(graph, settings.compact);
    // lay the text lines out and give every commit its grid row
    let mut index_map: Vec<usize> = Vec::new();
    let mut text_lines: Vec<Option<String>> = Vec::new();
    let mut offset: usize = 0;
    let mut idx: usize = 0;
    while idx < n
        invariant
            idx <= n,
            n == cs.len(),
            graph.commits@.len() == n,
            text_per_commit@.len() == n,
            lens == text_per_commit@.map_values(|v: Vec<String>| v@.len() as int),
            imap == inserts_view(inserts@),
            imap == spec_get_inserts(cs, bs, m, settings.compact),
            cs == graph.commits@.map_values(|c: CommitInfo| c@),
            bs == graph.all_branches@.map_values(|b: BranchInfo| b@),
            m == graph.indices@,
            graph.all_branches@.len() > 0,
            nn == cs.len() as int,
            forall|k: usize| inserts@.contains_key(k) <==> k < n,
            index_map@.len() == idx,
            offset as int == spec_text_offset(imap, lens, idx as int),
            forall|q: int|
                0 <= q < idx ==> #[trigger] index_map@[q] as int == q + spec_text_offset(
                    imap,
                    lens,
                    q,
                ),
            text_lines@.len() as int == spec_text_rows(imap, lens, idx as int),
        decreases n - idx,
    {
        let row_index = match idx.checked_add(offset) {
            Some(v) => v,
            None => {
                proof {
                    lemma_text_offset_mono(imap, lens, idx as int, nn);
                    assert(nn + spec_text_offset(imap, lens, nn) >= idx + offset);
                    assert(!spec_render_fits(bs, imap, lens, nn));
                }
                return Err(String::from_str("graph is too tall"));
            },
        };
        index_map.push(row_index);
        let mut cnt_inserts: usize = 0;
        let entry = match inserts.get(&idx) {
            Some(v) => v,
            None => {
                proof {
                    assert(inserts@.contains_key(idx));
                    assert(false);
                }
                return Err(String::from_str("missing insertion row"));
            },
        };
        let ghost spec_rows = imap[idx];
        proof {
            assert(entry@.map_values(|r2: Vec<Occ>| r2@) == spec_rows);
        }
        let nrows = entry.len();
        let mut ri: usize = 0;
        while ri < nrows
            invariant
                ri <= nrows,
                nrows == entry@.len(),
                nrows == spec_rows.len(),
                entry@.map_values(|r2: Vec<Occ>| r2@) == spec_rows,
                cnt_inserts <= ri,
                cnt_inserts as int == spec_count_insert_rows(spec_rows.take(ri as int)),
            decreases nrows - ri,
        {
            let sub = &entry[ri];
            proof {
                assert(sub@ == spec_rows[ri as int]);
            }
            let mut all_ranges = true;
            let nsub = sub.len();
            let mut q: usize = 0;
            while q < nsub
                invariant
                    q <= nsub,
                    nsub == sub@.len(),
                    all_ranges == (forall|kk: int|
                        0 <= kk < q ==> (#[trigger] sub@[kk]) matches Occ::Range(_, _, _, _)),
                decreases nsub - q,
            {
                match &sub[q] {
                    Occ::Commit(_, _) => {
                        all_ranges = false;
                    },
                    Occ::Range(_, _, _, _) => (),
                }
                q += 1;
            }
            proof {
                assert(all_ranges == spec_row_all_ranges(spec_rows[ri as int]));
                assert(spec_rows.take(ri as int + 1).drop_last() =~= spec_rows.take(ri as int));
                assert(spec_rows.take(ri as int + 1).last() == spec_rows[ri as int]);
            }
            if all_ranges {
                cnt_inserts += 1;
            }
            ri += 1;
        }
        proof {
            assert(spec_rows.take(nrows as int) =~= spec_rows);
            assert(cnt_inserts as int == spec_count_insert_rows(imap[idx]));
        }
        let lines = &text_per_commit[idx];
        proof {
            assert(lines@.len() as int == lens[idx as int]);
        }
        let num_lines = if lines.len() == 0 {
            0
        } else {
            lines.len() - 1
        };
        let max_inserts = if cnt_inserts >= num_lines {
            cnt_inserts
        } else {
            num_lines
        };
        proof {
            assert(max_inserts as int == spec_max_inserts(imap, lens, idx as int));
        }
        let add_lines = max_inserts - num_lines;
        let ghost old_text_len = text_lines@.len();
        let nl = lines.len();
        let mut q: usize = 0;
        while q < nl
            invariant
                q <= nl,
                nl == lines@.len(),
                text_lines@.len() == old_text_len + q,
            decreases nl - q,
        {
            text_lines.push(Some(lines[q].clone()));
            q += 1;
        }
        let mut q: usize = 0;
        while q < add_lines
            invariant
                q <= add_lines,
                text_lines@.len() == old_text_len + nl + q,
            decreases add_lines - q,
        {
            text_lines.push(None);
            q += 1;
        }
        offset = match offset.checked_add(max_inserts) {
            Some(v) => v,
            None => {
                proof {
                    assert(spec_text_offset(imap, lens, idx as int + 1) == offset + max_inserts);
                    lemma_text_offset_mono(imap, lens, idx as int + 1, nn);
                    assert(nn + spec_text_offset(imap, lens, nn) >= offset + max_inserts);
                    assert(!spec_render_fits(bs, imap, lens, nn));
                }
                return Err(String::from_str("graph is too tall"));
            },
        };
        idx += 1;
    }
    let height = match n.checked_add(offset) {
        Some(v) => v,
        None => {
            proof {
                assert(!spec_render_fits(bs, imap, lens, nn));
            }
            return Err(String::from_str("graph is too tall"));
        },
    };
    proof {
        assert(height as int == hh);
        assert forall|q: int| 0 <= q < n implies #[trigger] index_map@[q] < height by {
            lemma_text_offset_mono(imap, lens, q + 1, nn);
        }
        assert forall|i: int, j: int| 0 <= i < j < nn implies index_map@[i] < index_map@[j] by {
            lemma_text_offset_mono(imap, lens, i, j);
        }
    }
    let total_cells = match num_cols.checked_mul(height) {
        Some(v) => v,
        None => {
            proof {
                assert(!spec_render_fits(bs, imap, lens, nn));
            }
            return Err(String::from_str("graph is too large"));
        },
    };
    let default_pers = settings.branches.persistence.len() as u8 + 2;
    let default_cell = GridCell { character: SPACE, color: WHITE, pers: default_pers };
    let mut grid = Grid::new(num_cols, height, default_cell);
    let ghost gdata = spec_grid_data(cs, bs, m, settings.compact, lens, default_cell);
    proof {
        assert(grid.data@.len() == num_cols * height);
        assert(num_cols > 0);
        assert(grid.data@.len() as int / num_cols as int == height as int) by (nonlinear_arith)
            requires
                grid.data@.len() == num_cols * height,
                num_cols > 0,
        ;
        assert(grid.height_spec() == height);
        assert(grid.wf());
        assert(grid.data@ =~= Seq::new((num_cols * height) as nat, |k: int| default_cell));
        assert(gdata == spec_draw_from(
            grid.data@,
            num_cols as int,
            hh,
            cs,
            bs,
            m,
            imap,
            lens,
            mc_spec,
            0,
        ));
    }
    // draw the commits and their parent edges
    let mut idx: usize = 0;
    while idx < n
        invariant
            idx <= n,
            n == cs.len(),
            nn == cs.len() as int,
            graph.commits@.len() == n,
            bs == graph.all_branches@.map_values(|b: BranchInfo| b@),
            cs == graph.commits@.map_values(|c: CommitInfo| c@),
            m == graph.indices@,
            imap == inserts_view(inserts@),
            lens == text_per_commit@.map_values(|v: Vec<String>| v@.len() as int),
            graph_drawable(cs, bs),
            index_map@.len() == n,
            forall|q: int| 0 <= q < n ==> #[trigger] index_map@[q] < height,
            forall|q: int|
                0 <= q < n ==> #[trigger] index_map@[q] as int == q + spec_text_offset(
                    imap,
                    lens,
                    q,
                ),
            grid.width == num_cols,
            grid.wf(),
            grid.height_spec() == height,
            grid.data@.len() == num_cols * height,
            height as int == hh,
            num_cols == 2 * max_column + 1,
            max_column == mc_spec,
            forall|q: int|
                0 <= q < bs.len() && (#[trigger] bs[q]).visual.column is Some
                    ==> bs[q].visual.column->0 <= max_column,
            forall|k: usize| inserts@.contains_key(k) <==> k < n,
            spec_draw_from(grid.data@, num_cols as int, hh, cs, bs, m, imap, lens, mc_spec, idx as int)
                == gdata,
        decreases n - idx,
    {
        let ghost head_data = grid.data@;
        let info_trace = graph.commits[idx].branch_trace;
        let mut traced = false;
        if let Some(trace) = info_trace {
            if trace < graph.all_branches.len() {
                traced = true;
                let column = match graph.all_branches[trace].visual.column {
                    Some(c) => c,
                    None => 0,
                };
                proof {
                    assert(column == spec_commit_column(cs, bs, idx as int));
                    if bs[trace as int].visual.column is None {
                        assert(column == 0);
                    }
                }
                let idx_map = index_map[idx];
                let branch_color = graph.all_branches[trace].visual.term_color;
                let branch_pers = graph.all_branches[trace].persistence;
                let is_merge = graph.commits[idx].is_merge;
                if column <= max_column && idx_map < height {
                    proof {
                        lemma_grid_index_bound(
                            num_cols as int,
                            height as int,
                            (column * 2) as int,
                            idx_map as int,
                        );
                    }
                    grid.set(
                        column * 2,
                        idx_map,
                        if is_merge {
                            CIRCLE
                        } else {
                            DOT
                        },
                        branch_color,
                        branch_pers,
                    );
                }
                let ghost after_dot = grid.data@;
                proof {
                    let d0 = if spec_commit_column(cs, bs, idx as int) <= mc_spec && idx as int
                        + spec_text_offset(imap, lens, idx as int) < hh {
                        head_data.update(
                            (idx as int + spec_text_offset(imap, lens, idx as int)) * (
                            num_cols as int) + 2 * spec_commit_column(cs, bs, idx as int),
                            GridCell {
                                character: if cs[idx as int].is_merge {
                                    CIRCLE
                                } else {
                                    DOT
                                },
                                color: bs[trace as int].visual.term_color,
                                pers: bs[trace as int].persistence,
                            },
                        )
                    } else {
                        head_data
                    };
                    assert(after_dot =~= d0);
                }
                let mut p: usize = 0;
                while p < 2
                    invariant
                        p <= 2,
                        idx < n,
                        n == cs.len(),
                        nn == cs.len() as int,
                        graph.commits@.len() == n,
                        bs == graph.all_branches@.map_values(|b: BranchInfo| b@),
                        cs == graph.commits@.map_values(|c: CommitInfo| c@),
                        m == graph.indices@,
                        imap == inserts_view(inserts@),
                        graph_drawable(cs, bs),
                        index_map@.len() == n,
                        forall|q: int| 0 <= q < n ==> #[trigger] index_map@[q] < height,
                        forall|q: int|
                            0 <= q < n ==> #[trigger] index_map@[q] as int == q
                                + spec_text_offset(imap, lens, q),
                        grid.width == num_cols,
                        grid.wf(),
                        grid.height_spec() == height,
                        grid.data@.len() == num_cols * height,
                        height as int == hh,
                        num_cols == 2 * max_column + 1,
                        max_column == mc_spec,
                        forall|q: int|
                            0 <= q < bs.len() && (#[trigger] bs[q]).visual.column is Some
                                ==> bs[q].visual.column->0 <= max_column,
                        trace < graph.all_branches@.len(),
                        cs[idx as int].branch_trace == Some(trace),
                        column == spec_commit_column(cs, bs, idx as int),
                        column <= max_column,
                        is_merge == cs[idx as int].is_merge,
                        branch_color == bs[trace as int].visual.term_color,
                        branch_pers == bs[trace as int].persistence,
                        forall|k: usize| inserts@.contains_key(k) <==> k < n,
                        grid.data@ == (if p == 0 {
                            after_dot
                        } else if p == 1 {
                            spec_draw_edge(
                                after_dot,
                                num_cols as int,
                                hh,
                                cs,
                                bs,
                                m,
                                imap,
                                lens,
                                idx as int,
                                0,
                            )
                        } else {
                            spec_draw_edge(
                                spec_draw_edge(
                                    after_dot,
                                    num_cols as int,
                                    hh,
                                    cs,
                                    bs,
                                    m,
                                    imap,
                                    lens,
                                    idx as int,
                                    0,
                                ),
                                num_cols as int,
                                hh,
                                cs,
                                bs,
                                m,
                                imap,
                                lens,
                                idx as int,
                                1,
                            )
                        }),
                    decreases 2 - p,
                {
                    let ghost pre_data = grid.data@;
                    let mut edge_done = false;
                    let par = graph.commits[idx].parent(p);
                    if let Some(par_oid) = par {
                        if let Some(par_idx_ref) = graph.indices.get(&par_oid) {
                            let par_idx = *par_idx_ref;
                            if par_idx < n {
                                let par_trace = graph.commits[par_idx].branch_trace;
                                if let Some(ptr) = par_trace {
                                    if ptr < graph.all_branches.len() {
                                        let par_column = match graph.all_branches[ptr].visual.column {
                                            Some(c) => c,
                                            None => 0,
                                        };
                                        proof {
                                            assert(par_column == spec_commit_column(
                                                cs,
                                                bs,
                                                par_idx as int,
                                            ));
                                        }
                                        let par_idx_map = index_map[par_idx];
                                        let (color, pers) = if is_merge {
                                            (
                                                graph.all_branches[ptr].visual.term_color,
                                                graph.all_branches[ptr].persistence,
                                            )
                                        } else {
                                            (branch_color, branch_pers)
                                        };
                                        let idx_map = index_map[idx];
                                        if par_column == column {
                                            if par_idx_map > idx_map + 1 && column * 2 < num_cols
                                                && par_idx_map <= height {
                                                vline(
                                                    &mut grid,
                                                    (idx_map, par_idx_map),
                                                    column,
                                                    color,
                                                    pers,
                                                );
                                                edge_done = true;
                                                proof {
                                                    assert(grid.data@ == spec_draw_edge(
                                                        pre_data,
                                                        num_cols as int,
                                                        hh,
                                                        cs,
                                                        bs,
                                                        m,
                                                        imap,
                                                        lens,
                                                        idx as int,
                                                        p as int,
                                                    ));
                                                }
                                            }
                                        } else {
                                            let split_index = get_deviate_index(graph, idx, par_idx);
                                            if split_index < n {
                                                let split_idx_map = index_map[split_index];
                                                let entry = match inserts.get(&split_index) {
                                                    Some(v) => v,
                                                    None => {
                                                        proof {
                                                            assert(inserts@.contains_key(
                                                                split_index,
                                                            ));
                                                            assert(false);
                                                        }
                                                        return Err(
                                                            String::from_str("missing insertion row"),
                                                        );
                                                    },
                                                };
                                                let ghost srows = imap[split_index];
                                                proof {
                                                    assert(entry@.map_values(|r2: Vec<Occ>| r2@)
                                                        == srows);
                                                }
                                                let ghost arrow = cs[idx as int].is_merge && p > 0;
                                                let ghost rows_start = grid.data@;
                                                let nrows = entry.len();
                                                let mut ri: usize = 0;
                                                while ri < nrows
                                                    invariant
                                                        ri <= nrows,
                                                        nrows == entry@.len(),
                                                        nrows == srows.len(),
                                                        entry@.map_values(|r2: Vec<Occ>| r2@)
                                                            == srows,
                                                        idx < n,
                                                        par_idx < n,
                                                        n == cs.len(),
                                                        graph.commits@.len() == n,
                                                        cs == graph.commits@.map_values(
                                                            |c: CommitInfo| c@,
                                                        ),
                                                        index_map@.len() == n,
                                                        forall|q: int|
                                                            0 <= q < n
                                                                ==> #[trigger] index_map@[q]
                                                                < height,
                                                        grid.width == num_cols,
                                                        grid.wf(),
                                                        grid.height_spec() == height,
                                                        grid.data@.len() == num_cols * height,
                                                        height as int == hh,
                                                        num_cols == 2 * max_column + 1,
                                                        column <= max_column,
                                                        par_column <= max_column,
                                                        split_idx_map < height,
                                                        split_idx_map as int == index_map@[split_index as int] as int,
                                                        idx_map == index_map@[idx as int],
                                                        par_idx_map == index_map@[par_idx as int],
                                                        arrow == (cs[idx as int].is_merge && p
                                                            > 0),
                                                        spec_draw_rows(
                                                            grid.data@,
                                                            num_cols as int,
                                                            hh,
                                                            srows,
                                                            ri as int,
                                                            0,
                                                            idx,
                                                            par_idx,
                                                            split_idx_map as int,
                                                            idx_map as int,
                                                            par_idx_map as int,
                                                            column,
                                                            par_column,
                                                            arrow,
                                                            color,
                                                            pers,
                                                        ) == spec_draw_rows(
                                                            rows_start,
                                                            num_cols as int,
                                                            hh,
                                                            srows,
                                                            0,
                                                            0,
                                                            idx,
                                                            par_idx,
                                                            split_idx_map as int,
                                                            idx_map as int,
                                                            par_idx_map as int,
                                                            column,
                                                            par_column,
                                                            arrow,
                                                            color,
                                                            pers,
                                                        ),
                                                    decreases nrows - ri,
                                                {
                                                    let sub = &entry[ri];
                                                    proof {
                                                        assert(sub@ == srows[ri as int]);
                                                    }
                                                    let nsub = sub.len();
                                                    let mut q: usize = 0;
                                                    while q < nsub
                                                        invariant
                                                            q <= nsub,
                                                            nsub == sub@.len(),
                                                            sub@ == srows[ri as int],
                                                            ri < nrows,
                                                            nrows == srows.len(),
                                                            idx < n,
                                                            par_idx < n,
                                                            n == cs.len(),
                                                            graph.commits@.len() == n,
                                                            cs == graph.commits@.map_values(
                                                                |c: CommitInfo| c@,
                                                            ),
                                                            index_map@.len() == n,
                                                            forall|q2: int|
                                                                0 <= q2 < n
                                                                    ==> #[trigger] index_map@[q2]
                                                                    < height,
                                                            grid.width == num_cols,
                                                            grid.wf(),
                                                            grid.height_spec() == height,
                                                            grid.data@.len() == num_cols * height,
                                                            height as int == hh,
                                                            num_cols == 2 * max_column + 1,
                                                            column <= max_column,
                                                            par_column <= max_column,
                                                            split_idx_map < height,
                                                            idx_map == index_map@[idx as int],
                                                            par_idx_map == index_map@[par_idx as int],
                                                            arrow == (cs[idx as int].is_merge && p
                                                                > 0),
                                                            spec_draw_rows(
                                                                grid.data@,
                                                                num_cols as int,
                                                                hh,
                                                                srows,
                                                                ri as int,
                                                                q as int,
                                                                idx,
                                                                par_idx,
                                                                split_idx_map as int,
                                                                idx_map as int,
                                                                par_idx_map as int,
                                                                column,
                                                                par_column,
                                                                arrow,
                                                                color,
                                                                pers,
                                                            ) == spec_draw_rows(
                                                                rows_start,
                                                                num_cols as int,
                                                                hh,
                                                                srows,
                                                                0,
                                                                0,
                                                                idx,
                                                                par_idx,
                                                                split_idx_map as int,
                                                                idx_map as int,
                                                                par_idx_map as int,
                                                                column,
                                                                par_column,
                                                                arrow,
                                                                color,
                                                                pers,
                                                            ),
                                                        decreases nsub - q,
                                                    {
                                                        let ghost occ_pre = grid.data@;
                                                        let ghost srow_i = split_idx_map as int;
                                                        let ghost one = ({
                                                            let hit0 = match sub@[q as int] {
                                                                Occ::Commit(_, _) => false,
                                                                Occ::Range(i1, i2, _, _) => i1
                                                                    == idx && i2 == par_idx,
                                                            };
                                                            if hit0 && srow_i + ri < hh && 2
                                                                * column < num_cols && 2
                                                                * par_column < num_cols {
                                                                let d1 = spec_vline_apply(
                                                                    occ_pre,
                                                                    num_cols as int,
                                                                    column as int,
                                                                    idx_map as int,
                                                                    srow_i + ri,
                                                                    color,
                                                                    pers,
                                                                );
                                                                let d2 = spec_hline_apply(
                                                                    d1,
                                                                    num_cols as int,
                                                                    srow_i + ri,
                                                                    par_column as int,
                                                                    column as int,
                                                                    arrow,
                                                                    color,
                                                                    pers,
                                                                );
                                                                spec_vline_apply(
                                                                    d2,
                                                                    num_cols as int,
                                                                    par_column as int,
                                                                    srow_i + ri,
                                                                    par_idx_map as int,
                                                                    color,
                                                                    pers,
                                                                )
                                                            } else {
                                                                occ_pre
                                                            }
                                                        });
                                                        let hit: bool = match &sub[q] {
                                                            Occ::Commit(_, _) => false,
                                                            Occ::Range(i1, i2, _, _) => *i1 == idx
                                                                && *i2 == par_idx,
                                                        };
                                                        if hit {
                                                            let row = match split_idx_map.checked_add(
                                                                ri,
                                                            ) {
                                                                Some(v) => v,
                                                                None => height,
                                                            };
                                                            let idx_map2 = index_map[idx];
                                                            let par_idx_map2 = index_map[par_idx];
                                                            proof {
                                                                assert(idx_map2 == idx_map);
                                                                assert(par_idx_map2 == par_idx_map);
                                                                assert(graph.commits@[idx as int]@
                                                                    == cs[idx as int]);
                                                            }
                                                            if row < height && column * 2 < num_cols
                                                                && par_column * 2 < num_cols {
                                                                proof {
                                                                    assert(row as int == srow_i
                                                                        + ri);
                                                                }
                                                                if row + 1 <= height {
                                                                    vline(
                                                                        &mut grid,
                                                                        (idx_map2, row),
                                                                        column,
                                                                        color,
                                                                        pers,
                                                                    );
                                                                }
                                                                hline(
                                                                    &mut grid,
                                                                    row,
                                                                    (par_column, column),
                                                                    graph.commits[idx].is_merge && p
                                                                        > 0,
                                                                    color,
                                                                    pers,
                                                                );
                                                                vline(
                                                                    &mut grid,
                                                                    (row, par_idx_map2),
                                                                    par_column,
                                                                    color,
                                                                    pers,
                                                                );
                                                                proof {
                                                                    assert(grid.data@ == one);
                                                                }
                                                            } else {
                                                                proof {
                                                                    if row as int == srow_i + ri {
                                                                        assert(!(srow_i + ri
                                                                            < height as int && 2
                                                                            * column < num_cols && 2
                                                                            * par_column
                                                                            < num_cols));
                                                                    } else {
                                                                        assert(srow_i + ri
                                                                            > usize::MAX);
                                                                    }
                                                                    assert(grid.data@ == one);
                                                                }
                                                            }
                                                        } else {
                                                            proof {
                                                                assert(grid.data@ == one);
                                                            }
                                                        }
                                                        proof {
                                                            assert(spec_draw_rows(
                                                                occ_pre,
                                                                num_cols as int,
                                                                hh,
                                                                srows,
                                                                ri as int,
                                                                q as int,
                                                                idx,
                                                                par_idx,
                                                                srow_i,
                                                                idx_map as int,
                                                                par_idx_map as int,
                                                                column,
                                                                par_column,
                                                                arrow,
                                                                color,
                                                                pers,
                                                            ) == spec_draw_rows(
                                                                one,
                                                                num_cols as int,
                                                                hh,
                                                                srows,
                                                                ri as int,
                                                                q as int + 1,
                                                                idx,
                                                                par_idx,
                                                                srow_i,
                                                                idx_map as int,
                                                                par_idx_map as int,
                                                                column,
                                                                par_column,
                                                                arrow,
                                                                color,
                                                                pers,
                                                            ));
                                                        }
                                                        q += 1;
                                                    }
                                                    proof {
                                                        assert(spec_draw_rows(
                                                            grid.data@,
                                                            num_cols as int,
                                                            hh,
                                                            srows,
                                                            ri as int,
                                                            nsub as int,
                                                            idx,
                                                            par_idx,
                                                            split_idx_map as int,
                                                            idx_map as int,
                                                            par_idx_map as int,
                                                            column,
                                                            par_column,
                                                            arrow,
                                                            color,
                                                            pers,
                                                        ) == spec_draw_rows(
                                                            grid.data@,
                                                            num_cols as int,
                                                            hh,
                                                            srows,
                                                            ri as int + 1,
                                                            0,
                                                            idx,
                                                            par_idx,
                                                            split_idx_map as int,
                                                            idx_map as int,
                                                            par_idx_map as int,
                                                            column,
                                                            par_column,
                                                            arrow,
                                                            color,
                                                            pers,
                                                        ));
                                                    }
                                                    ri += 1;
                                                }
                                                edge_done = true;
                                                proof {
                                                    assert(grid.data@ == spec_draw_rows(
                                                        rows_start,
                                                        num_cols as int,
                                                        hh,
                                                        srows,
                                                        0,
                                                        0,
                                                        idx,
                                                        par_idx,
                                                        split_idx_map as int,
                                                        idx_map as int,
                                                        par_idx_map as int,
                                                        column,
                                                        par_column,
                                                        arrow,
                                                        color,
                                                        pers,
                                                    ));
                                                    assert(grid.data@ == spec_draw_edge(
                                                        pre_data,
                                                        num_cols as int,
                                                        hh,
                                                        cs,
                                                        bs,
                                                        m,
                                                        imap,
                                                        lens,
                                                        idx as int,
                                                        p as int,
                                                    ));
                                                }
                                            }
                                        }
                                    }
                                }
                            }
                        }
                    }
                    proof {
                        if !edge_done {
                            assert(grid.data@ == pre_data);
                            assert(spec_draw_edge(
                                pre_data,
                                num_cols as int,
                                hh,
                                cs,
                                bs,
                                m,
                                imap,
                                lens,
                                idx as int,
                                p as int,
                            ) == pre_data);
                        }
                    }
                    p += 1;
                }
            }
        }
        proof {
            let cur = grid.data@;
            if traced {
                assert(spec_draw_commit(
                    head_data,
                    num_cols as int,
                    hh,
                    cs,
                    bs,
                    m,
                    imap,
                    lens,
                    mc_spec,
                    idx as int,
                ) == cur);
            } else {
                assert(spec_draw_commit(
                    head_data,
                    num_cols as int,
                    hh,
                    cs,
                    bs,
                    m,
                    imap,
                    lens,
                    mc_spec,
                    idx as int,
                ) == head_data);
            }
            assert(spec_draw_from(
                head_data,
                num_cols as int,
                hh,
                cs,
                bs,
                m,
                imap,
                lens,
                mc_spec,
                idx as int,
            ) == spec_draw_from(cur, num_cols as int, hh, cs, bs, m, imap, lens, mc_spec, idx as int + 1));
        }
        idx += 1;
    }
    proof {
        assert(spec_draw_from(
            grid.data@,
            num_cols as int,
            hh,
            cs,
            bs,
            m,
            imap,
            lens,
            mc_spec,
            nn,
        ) == grid.data@);
        assert(grid.data@ == gdata);
    }
    let ghost tl = text_lines@;
    let lines = print_graph(&settings.characters, &grid, text_lines, settings.colored);
    proof {
        if !settings.colored {
            assert forall|y: int| 0 <= y < lines.0@.len() implies (#[trigger] lines.0@[y])@
                == spec_data_row_chars(gdata, 2 * mc_spec + 1, settings.characters, y) by {
                assert(lines.0@[y]@ == spec_row_chars(grid, settings.characters, y));
                assert(spec_row_chars(grid, settings.characters, y) =~= spec_data_row_chars(
                    gdata,
                    2 * mc_spec + 1,
                    settings.characters,
                    y,
                ));
            }
        }
    }
    Ok((lines.0, lines.1, index_map))
}


} // verus!
